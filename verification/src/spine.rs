//! Applications taken apart: a head with the closures it is applied to.
use crate::closure::Clo;
use crate::ctx::TcCtx;
use crate::expr::{Expr, ExprPtr};
use crate::term::Term;
use vstd::prelude::*;

verus! {

/// A short list of closures, kept inline while it has few items.
#[verifier::external_body]
pub struct SpineVec {
    v: smallvec::SmallVec<[(u32, u32); 8]>,
}

/// The items of a list, each an expression with its environment.
pub uninterp spec fn spine_items(v: SpineVec) -> Seq<(u32, u32)>;

/// `smallvec::SmallVec::new`: a list without items.
#[verifier::external_body]
fn spine_new() -> (r: SpineVec)
    ensures
        spine_items(r) == Seq::<(u32, u32)>::empty(),
{
    SpineVec { v: smallvec::SmallVec::new() }
}

/// `smallvec::SmallVec::push`: the item goes to the end.
#[verifier::external_body]
fn spine_push(s: &mut SpineVec, x: (u32, u32))
    ensures
        spine_items(*final(s)) == spine_items(*old(s)).push(x),
{
    s.v.push(x)
}

/// `smallvec::SmallVec::len`: the number of items.
#[verifier::external_body]
fn spine_count(s: &SpineVec) -> (r: usize)
    ensures
        r == spine_items(*s).len(),
{
    s.v.len()
}

/// Indexing a `smallvec::SmallVec`: the item at the position.
#[verifier::external_body]
fn spine_item(s: &SpineVec, i: usize) -> (r: (u32, u32))
    requires
        i < spine_items(*s).len(),
    ensures
        r == spine_items(*s)[i as int],
{
    s.v[i]
}

/// `reverse` on the slice of a `smallvec::SmallVec`: the items in the opposite
/// order.
#[verifier::external_body]
fn spine_reverse(s: &mut SpineVec)
    ensures
        spine_items(*final(s)) == spine_items(*old(s)).reverse(),
{
    s.v.reverse()
}

impl SpineVec {
    /// The items, each an expression with its environment.
    pub open spec fn view(&self) -> Seq<(u32, u32)> {
        spine_items(*self)
    }

    pub fn new() -> (r: SpineVec)
        ensures
            r@ == Seq::<(u32, u32)>::empty(),
    {
        spine_new()
    }

    pub fn push(&mut self, c: Clo)
        ensures
            final(self)@ == old(self)@.push((c.e, c.env)),
    {
        spine_push(self, (c.e, c.env))
    }

    pub fn len(&self) -> (r: usize)
        ensures
            r == self@.len(),
    {
        spine_count(self)
    }

    pub fn get(&self, i: usize) -> (r: Clo)
        requires
            i < self@.len(),
        ensures
            (r.e, r.env) == self@[i as int],
    {
        let x = spine_item(self, i);
        Clo { e: x.0, env: x.1 }
    }

    /// Turn the list around.
    pub fn reverse(&mut self)
        ensures
            final(self)@ == old(self)@.reverse(),
    {
        spine_reverse(self)
    }
}

/// A head and the closures it is applied to, in order.
pub struct SClo {
    pub head: Clo,
    pub spine: SpineVec,
}

impl TcCtx {
    /// The expressions of a list of closures.
    pub open spec fn items(&self, v: Seq<(u32, u32)>) -> Seq<Term> {
        Seq::new(v.len(), |i: int| self.st.e(v[i].0))
    }

    /// The closures of a list are expressions read in `env`.
    pub open spec fn items_ok(&self, v: Seq<(u32, u32)>, env: u32) -> bool {
        forall|i: int| 0 <= i < v.len() ==> self.st.e_ok((#[trigger] v[i]).0) && v[i].1 == env
    }

    /// The arguments of an application, the last one first, and its head.
    pub fn peel_apps(&self, c: Clo) -> (r: (ExprPtr, SpineVec))
        requires
            self.wf(),
            self.st.e_ok(c.e),
        ensures
            self.st.e_ok(r.0),
            !(self.st.e(r.0) is App),
            self.items_ok(r.1@, c.env),
            self.st.e(c.e) == Term::apps(self.st.e(r.0), self.items(r.1@.reverse())),
            r.0 <= c.e,
            forall|i: int| 0 <= i < r.1@.len() ==> (#[trigger] r.1@[i]).0 < c.e,
    {
        let mut spine = SpineVec::new();
        let mut e: ExprPtr = c.e;
        proof {
            assert(self.items(spine@.reverse()) =~= Seq::empty());
        }
        loop
            invariant
                self.wf(),
                self.st.e_ok(e),
                self.items_ok(spine@, c.env),
                self.st.e(c.e) == Term::apps(self.st.e(e), self.items(spine@.reverse())),
                e <= c.e,
                forall|i: int| 0 <= i < spine@.len() ==> (#[trigger] spine@[i]).0 < c.e,
            ensures
                !(self.st.e(e) is App),
            decreases e,
        {
            match self.read_expr(e) {
                Expr::App { fun, arg } => {
                    let ghost before = spine@;
                    spine.push(Clo { e: arg, env: c.env });
                    proof {
                        Term::lemma_apps_cons(self.st.e(fun), self.st.e(arg), self.items(before.reverse()));
                        assert(self.items(spine@.reverse()) =~= seq![self.st.e(arg)] + self.items(before.reverse()));
                    }
                    e = fun;
                },
                _ => {
                    break;
                },
            }
        }
        (e, spine)
    }

    /// An application taken apart.
    pub fn mk_sclo(&self, c: Clo) -> (r: SClo)
        requires
            self.wf(),
            self.st.e_ok(c.e),
        ensures
            r.head.env == c.env,
            self.st.e_ok(r.head.e),
            !(self.st.e(r.head.e) is App),
            self.items_ok(r.spine@, c.env),
            self.st.e(c.e) == Term::apps(self.st.e(r.head.e), self.items(r.spine@)),
            r.head.e <= c.e,
            forall|i: int| 0 <= i < r.spine@.len() ==> (#[trigger] r.spine@[i]).0 < c.e,
    {
        let (e, mut spine) = self.peel_apps(c);
        let ghost s = spine@;
        spine.reverse();
        proof {
            assert forall|i: int| 0 <= i < spine@.len() implies self.st.e_ok((#[trigger] spine@[i]).0) && spine@[i].1
                == c.env && spine@[i].0 < c.e by {
                assert(spine@[i] == s[s.len() - 1 - i]);
            }
        }
        SClo { head: Clo { e, env: c.env }, spine }
    }
}

} // verus!
