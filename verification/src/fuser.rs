//! The state of a fusion.
use crate::expr::ExprPtr;
use crate::table::Tab;
use crate::tc::TypeChecker;
use crate::term::Term;
use vstd::prelude::*;

verus! {

broadcast use crate::tc::group_tc;

/// Tree nodes one fusion may duplicate by substitution.
pub const DUP_BUDGET: usize = 0x8000;

/// A fusion in progress.
pub struct Fuser {
    pub memo: Tab<u32>,
    pub budget: usize,
    pub depth: u32,
    pub dup_budget: usize,
    pub overflow: bool,
}

impl Fuser {
    /// Only what is left to spend differs from `o`.
    pub open spec fn spent(&self, o: &Fuser) -> bool {
        &&& self.budget <= o.budget
        &&& self.dup_budget <= o.dup_budget
        &&& self.depth == o.depth
    }

    /// A redex may still be contracted.
    pub open spec fn ready(&self) -> bool {
        !self.overflow && self.depth < 48
    }
}

pub broadcast proof fn tc_es<'x>(a: TypeChecker<'x>, b: TypeChecker<'x>, v: Seq<ExprPtr>)
    requires
        #[trigger] a.ext(&b),
        #[trigger] b.ctx.st.es_ok(v),
    ensures
        a.ctx.st.es_ok(v),
        a.ctx.st.es(v) == b.ctx.st.es(v),
{
    reveal(TypeChecker::ext);
    assert forall|i: int| 0 <= i < v.len() implies a.ctx.st.e_ok(#[trigger] v[i])
        && a.ctx.st.e(v[i]) == b.ctx.st.e(v[i]) by {
        assert(b.ctx.st.e_ok(v[i]));
    }
    assert(a.ctx.st.es(v) =~= b.ctx.st.es(v));
}

pub broadcast proof fn tc_fz<'x>(a: TypeChecker<'x>, b: TypeChecker<'x>, f: Fuser)
    requires
        #[trigger] a.ext(&b),
        #[trigger] b.fz_ok(f),
    ensures
        a.fz_ok(f),
{
    assert forall|e: ExprPtr| #[trigger] f.memo@.contains_key((e, 0, 0, 0)) implies a.fused(e,
        f.memo@[(e, 0, 0, 0)]) by {
        assert(b.fused(e, f.memo@[(e, 0, 0, 0)]));
    }
}

impl<'x> TypeChecker<'x> {
    /// `e` reduces to `r`, and both are closed.
    pub open spec fn fused(&self, e: ExprPtr, r: ExprPtr) -> bool {
        &&& self.ctx.st.e_ok(e)
        &&& self.ctx.st.e_ok(r)
        &&& self.ctx.st.e(r).nl() == 0
        &&& self.g().red(self.ctx.st.e(e), self.ctx.st.e(r))
    }

    /// A lambda applied to one atom is contracted: `u` is reached from its
    /// contractum.
    pub open spec fn contracted(&self, t: Term, u: Term) -> bool {
        t.atom_redex() matches Some(c) ==> self.g().red(c, u)
    }

    /// What a fusion remembers is true.
    pub open spec fn fz_ok(&self, f: Fuser) -> bool {
        forall|e: ExprPtr| #[trigger] f.memo@.contains_key((e, 0, 0, 0)) ==> self.fused(e, f.memo@[(e, 0, 0, 0)])
    }

    /// The expressions are named and closed.
    pub open spec fn es_closed(&self, v: Seq<ExprPtr>) -> bool {
        self.ctx.st.es_ok(v) && Term::closed_seq(self.ctx.st.es(v))
    }
}

pub broadcast group group_fz {
    tc_es,
    tc_fz,
}

} // verus!
