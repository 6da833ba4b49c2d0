//! String literals as constructor applications.
use crate::bignum::Nat;
use crate::ctx::TcCtx;
use crate::error::TcError;
use crate::expr::{Expr, ExprPtr, StringPtr};
use crate::level::{LevelPtr, NamePtr};
use crate::term::{Lvl, Term};
use vstd::prelude::*;

verus! {

impl TcCtx {
    /// A constant without levels.
    fn plain_const(&mut self, name: NamePtr) -> (r: Result<ExprPtr, TcError>)
        requires
            old(self).wf(),
        ensures
            r matches Err(e) ==> !(e is Reject),
            final(self).wf(),
            final(self).ext(old(self)),
            final(self).same_heap(old(self)),
            r matches Ok(e) ==> final(self).st.e_ok(e) && final(self).st.e(e) == Term::Const(name, Seq::empty()),
            r matches Err(err) ==> err == TcError::Full,
    {
        let levels = self.no_levels()?;
        self.mk(Expr::Const { name, levels })
    }

    /// A constant at level zero.
    fn const_at_zero(&mut self, name: NamePtr) -> (r: Result<ExprPtr, TcError>)
        requires
            old(self).wf(),
        ensures
            r matches Err(e) ==> !(e is Reject),
            final(self).wf(),
            final(self).ext(old(self)),
            final(self).same_heap(old(self)),
            r matches Ok(e) ==> final(self).st.e_ok(e) && final(self).st.e(e) == Term::Const(name, seq![Lvl::Zero]),
            r matches Err(err) ==> err == TcError::Full,
    {
        let z = self.zero()?;
        let mut v: Vec<LevelPtr> = Vec::new();
        v.push(z);
        proof {
            assert(self.st.list(v@) =~= seq![Lvl::Zero]);
        }
        let levels = self.alloc_levels_slice(&v)?;
        self.mk(Expr::Const { name, levels })
    }

    /// The constructor application a string literal spells, or `None` without
    /// the extension or the declarations it needs.
    pub fn str_lit_to_constructor(&mut self, s: StringPtr) -> (r: Result<Option<ExprPtr>, TcError>)
        requires
            old(self).wf(),
            old(self).st.s_ok(s),
        ensures
            r matches Err(e) ==> !(e is Reject),
            final(self).wf(),
            final(self).ext(old(self)),
            final(self).same_heap(old(self)),
            match r {
                Ok(Some(e)) => final(self).st.e_ok(e) && old(self).w@.g.str_ctor(old(self).st.s(s)) == Some(
                    final(self).st.e(e),
                ) && final(self).st.e(e).nl() == 0,
                Ok(None) => old(self).w@.g.str_ctor(old(self).st.s(s)) is None,
                Err(_) => true,
            },
    {
        let ghost o = *self;
        let ghost g = self.w@.g;
        proof {
            self.lemma_wf();
        }
        if !self.str_ext {
            return Ok(None);
        }
        let (mk, nil, cons, chr, of_nat): (NamePtr, NamePtr, NamePtr, NamePtr, NamePtr) = match (
            self.names.get().string_mk,
            self.names.get().list_nil,
            self.names.get().list_cons,
            self.names.get().char_ty,
            self.names.get().char_of_nat,
        ) {
            (Some(a), Some(b), Some(c), Some(d), Some(e)) => (a, b, c, d, e),
            _ => {
                return Ok(None);
            },
        };
        let cs = self.st.read_string(s);
        let ghost chars = self.st.s(s);
        let char_e = self.plain_const(chr)?;
        let of_nat_e = self.plain_const(of_nat)?;
        let nil_e = self.const_at_zero(nil)?;
        let cons_e = self.const_at_zero(cons)?;
        let cons_c = self.mk(Expr::App { fun: cons_e, arg: char_e })?;
        let mut out: ExprPtr = self.mk(Expr::App { fun: nil_e, arg: char_e })?;
        let mut i: usize = cs.len();
        proof {
            reveal_with_fuel(Term::nl, 3);
        }
        while i > 0
            invariant
                o == *old(self),
                o.wf(),
                self.wf(),
                self.ext(&o),
                self.same_heap(&o),
                g == o.w@.g,
                g.names == o.names,
                i <= cs@.len(),
                cs@ == chars,
                self.st.e_ok(of_nat_e),
                self.st.e(of_nat_e) == Term::Const(g.names@.char_of_nat->0, Seq::empty()),
                self.st.e_ok(cons_c),
                self.st.e(cons_c) == Term::app(
                    Term::Const(g.names@.list_cons->0, seq![Lvl::Zero]),
                    Term::Const(g.names@.char_ty->0, Seq::empty()),
                ),
                self.st.e_ok(out),
                self.st.e(out) == g.char_list(chars, i as int),
                self.st.e(out).nl() == 0,
            decreases i,
        {
            i -= 1;
            let n = Nat::from_u32(cs[i]);
            let p = self.alloc_bignum(&n)?;
            let ghost tail = self.st.e(out);
            let lit = self.mk(Expr::NatLit { ptr: p })?;
            let c = self.mk(Expr::App { fun: of_nat_e, arg: lit })?;
            let h = self.mk(Expr::App { fun: cons_c, arg: c })?;
            out = self.mk(Expr::App { fun: h, arg: out })?;
            proof {
                reveal_with_fuel(Term::nl, 4);
                assert(self.st.e(h).nl() == 0);
                assert(tail.nl() == 0);
            }
        }
        let mk_e = self.plain_const(mk)?;
        let r = self.mk(Expr::App { fun: mk_e, arg: out })?;
        proof {
            reveal_with_fuel(Term::nl, 2);
        }
        Ok(Some(r))
    }
}

} // verus!
