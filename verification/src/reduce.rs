//! Reduction of values.
//!
//! `nb_whnf` drives a value to weak head normal form by unfolding constants
//! and firing recursors.  Both the result of unfolding a constant and the
//! result of firing a recursor are recorded on the value they came from, so a
//! reduction sequence that is reached twice is walked once.
use crate::bignum::Nat;
use crate::closure::ENV_NIL;
use crate::ctx::World;
use crate::env::{Declar, RecursorData};
use crate::error::{Reason, TcError};
use crate::expr::{BigUintPtr, Expr, ExprPtr, Store, StringPtr};
use crate::level::{LevelsPtr, NamePtr};
use crate::nbe::{ConstKind, Elim, RigidHead, SpineId, ValId, Value, SPINE_EMPTY};
use crate::tc::TypeChecker;
use crate::term::{Lvl, Term};
use crate::theory::{ElimT, Sig};
use vstd::prelude::*;

verus! {

broadcast use crate::tc::group_tc;

impl ElimT {
    /// Eliminations of what is no lambda make no redex.
    pub proof fn lemma_headed(f: Term, es: Seq<ElimT>)
        requires
            f.headed(),
            !(f is Lam),
        ensures
            ElimT::spine(f, es).headed(),
            !(ElimT::spine(f, es) is Lam),
        decreases es.len(),
    {
        if es.len() > 0 {
            ElimT::lemma_headed(f, es.drop_last());
        }
    }

    /// A head that is itself no elimination and the eliminations of it can be
    /// told from the whole.
    pub proof fn lemma_spine_parts(f: Term, es: Seq<ElimT>, h: Term, fs: Seq<ElimT>)
        requires
            !(f is App) && !(f is Proj),
            !(h is App) && !(h is Proj),
            ElimT::spine(f, es) == ElimT::spine(h, fs),
        ensures
            f == h,
            es == fs,
        decreases es.len(),
    {
        if es.len() > 0 && fs.len() > 0 {
            ElimT::lemma_spine_parts(f, es.drop_last(), h, fs.drop_last());
            assert(es =~= es.drop_last().push(es.last()));
            assert(fs =~= fs.drop_last().push(fs.last()));
        } else {
            assert(es =~= fs);
        }
    }
}

impl ElimT {
    /// What is no literal makes none under eliminations.
    proof fn lemma_no_literal(f: Term, es: Seq<ElimT>)
        requires
            !(f is Nat),
            !(f is Str),
        ensures
            !(ElimT::spine(f, es) is Nat),
            !(ElimT::spine(f, es) is Str),
    {
    }
}

impl Value {
    /// A constant `c`, folded or not, with the arguments `cargs`.
    spec fn applies(self, st: &Store, w: World, c: u32, cargs: Seq<Term>) -> bool {
        match self {
            Value::Rigid { head: RigidHead::Const(_, m, _), spine } => m == c && w.s(spine) == ElimT::of_args(cargs),
            Value::Unfold { name, spine, .. } => name == c && w.s(spine) == ElimT::of_args(cargs),
            _ => false,
        }
    }
}

impl World {
    /// Every value but a thunk is headed.
    pub proof fn lemma_headed(self, st: &Store, x: Value, t: nat)
        requires
            self.val_parts(st, x, t),
            !(x is Thunk),
        ensures
            self.val(st, x).headed(),
    {
        match x {
            Value::Rigid { head, spine } => {
                ElimT::lemma_headed(self.head(st, head), self.s(spine));
            },
            Value::Unfold { name, levels, spine, .. } => {
                ElimT::lemma_headed(Term::Const(name, st.ls(levels)), self.s(spine));
            },
            _ => {},
        }
    }
}

impl World {
    /// An evaluated value that stands for a constant applied to arguments is
    /// built from that constant and those arguments.
    pub proof fn lemma_const_node(self, st: &Store, x: Value, t: nat, n: u32, ls: Seq<Lvl>, args: Seq<Term>)
        requires
            self.val_parts(st, x, t),
            !(x is Thunk),
            self.val(st, x) == Term::apps(Term::Const(n, ls), args),
        ensures
            match x {
                Value::Rigid { head: RigidHead::Const(_, m, l), spine } => m == n && st.ls(l) == ls && self.s(spine)
                    == ElimT::of_args(args),
                Value::Unfold { name, levels, spine, .. } => name == n && st.ls(levels) == ls && self.s(spine)
                    == ElimT::of_args(args),
                _ => false,
            },
    {
        let h = Term::Const(n, ls);
        let es = ElimT::of_args(args);
        ElimT::lemma_spine_args(h, args);
        match x {
            Value::Rigid { head, spine } => {
                ElimT::lemma_spine_parts(self.head(st, head), self.s(spine), h, es);
            },
            Value::Unfold { name, levels, spine, .. } => {
                ElimT::lemma_spine_parts(Term::Const(name, st.ls(levels)), self.s(spine), h, es);
            },
            _ => {
                if es.len() == 0 {
                    assert(ElimT::spine(h, es) == h);
                } else {
                    assert(ElimT::spine(h, es) is App);
                }
            },
        }
    }
}

impl Sig {
    /// Reducing the head reduces what it is at the head of.
    pub proof fn steps_spine(g: Sig, a: Term, b: Term, es: Seq<ElimT>)
        requires
            g.steps(a, b),
        ensures
            g.steps(ElimT::spine(a, es), ElimT::spine(b, es)),
        decreases es.len(),
    {
        if es.len() > 0 {
            Sig::steps_spine(g, a, b, es.drop_last());
            let u = ElimT::spine(a, es.drop_last());
            let w = ElimT::spine(b, es.drop_last());
            match es.last() {
                ElimT::App(x) => {
                    Sig::steps_fun(g, u, x, w);
                },
                ElimT::Proj(n, i) => {
                    Sig::steps_proj(g, n, i, u, w);
                },
            }
        }
    }
}

impl Value {
    /// A function, a function type, a sort, a literal, or an application that is
    /// stuck on something else than a recursor or a quotient primitive.
    pub open spec fn is_canonical(self) -> bool {
        match self {
            Value::Rigid { head: RigidHead::Const(k, _, _), .. } => k != ConstKind::Recursor && k
                != ConstKind::QuotConst,
            Value::Unfold { .. } => false,
            Value::Thunk { .. } => false,
            _ => true,
        }
    }
}

impl World {
    /// Two nodes of folded constants that stand for one term are built alike.
    proof fn lemma_unfold_node(self, st: &Store, a: Value, b: Value)
        requires
            self.val(st, a) == self.val(st, b),
            a is Unfold,
            b is Unfold,
        ensures
            a->Unfold_name == b->Unfold_name,
            st.ls(a->Unfold_levels) == st.ls(b->Unfold_levels),
            self.s(a->Unfold_spine) == self.s(b->Unfold_spine),
    {
        ElimT::lemma_spine_parts(
            Term::Const(a->Unfold_name, st.ls(a->Unfold_levels)),
            self.s(a->Unfold_spine),
            Term::Const(b->Unfold_name, st.ls(b->Unfold_levels)),
            self.s(b->Unfold_spine),
        );
    }
}

/// `stacker::maybe_grow`, on the closure that drives `v` to weak head normal
/// form: the closure is called once, on a larger stack where the current one is
/// nearly used up, and its result is returned.
#[verifier::external_body]
fn whnf_on_stack<'x>(tc: &mut TypeChecker<'x>, fuel: u32, depth: u32, v: ValId) -> (r: Result<ValId, TcError>)
    requires
        old(tc).wf(),
        old(tc).v_ok(v),
        old(tc).v(v).bvb() <= depth,
    ensures
        final(tc).wf(),
        final(tc).ext(old(tc)),
        r matches Ok(x) ==> final(tc).v_ok(x) && final(tc).g().steps(old(tc).v(v), final(tc).v(x))
            && final(tc).v(x).headed(),
        fuel > 0 && old(tc).ctx.nb.vals@[v as int].is_canonical() ==> (r matches Ok(x) && x == v) && *final(tc)
            == *old(tc),
        r matches Ok(x) ==> final(tc).done(x),
        r matches Ok(x) ==> final(tc).at_rest(x),
        r matches Err(err) ==> final(tc).accounts(old(tc), err),
{
    stacker::maybe_grow(256 * 1024, 16 * 1024 * 1024, || tc.nb_whnf_go(fuel, depth, v))
}

impl<'x> TypeChecker<'x> {
    /// Weak head normal form: unfold constants and fire recursors until the
    /// head is stuck.
    pub fn nb_whnf(&mut self, fuel: u32, depth: u32, v: ValId) -> (r: Result<ValId, TcError>)
        requires
            old(self).wf(),
            old(self).v_ok(v),
            old(self).v(v).bvb() <= depth,
        ensures
            final(self).wf(),
            final(self).ext(old(self)),
            r matches Ok(x) ==> final(self).v_ok(x) && final(self).g().steps(old(self).v(v), final(self).v(x))
                && final(self).v(x).headed(),
            fuel > 1 && old(self).ctx.nb.vals@[v as int].is_canonical() ==> r == Ok::<ValId, TcError>(v)
                && *final(self) == *old(self),
            r matches Ok(x) ==> final(self).done(x),
            // nothing at its head has anything left to do
            r matches Ok(x) ==> final(self).at_rest(x),
            r matches Err(err) ==> final(self).accounts(old(self), err),
        decreases fuel,
    {
        if fuel == 0 {
            return Err(self.out_of_depth(0));
        }
        whnf_on_stack(self, fuel - 1, depth, v)
    }

    pub fn nb_whnf_go(&mut self, fuel: u32, depth: u32, v: ValId) -> (r: Result<ValId, TcError>)
        requires
            old(self).wf(),
            old(self).v_ok(v),
            old(self).v(v).bvb() <= depth,
        ensures
            final(self).wf(),
            final(self).ext(old(self)),
            r matches Ok(x) ==> final(self).v_ok(x) && final(self).g().steps(old(self).v(v), final(self).v(x))
                && final(self).v(x).headed(),
            fuel > 0 && old(self).ctx.nb.vals@[v as int].is_canonical() ==> r == Ok::<ValId, TcError>(v)
                && *final(self) == *old(self),
            r matches Ok(x) ==> final(self).done(x),
            r matches Ok(x) ==> final(self).at_rest(x),
            r matches Err(err) ==> final(self).accounts(old(self), err),
        decreases fuel,
    {
        if fuel == 0 {
            return Err(self.out_of_depth(0));
        }
        let ghost o = *self;
        let ghost g = self.g();
        let ghost t = self.v(v);
        let mut cur: ValId = v;
        let mut left: u64 = u64::MAX;
        proof {
            Sig::steps_refl(g, t);
        }
        loop
            invariant
                o == *old(self),
                o.wf(),
                self.wf(),
                self.ext(&o),
                g == o.g(),
                fuel > 0,
                t == o.v(v),
                t.bvb() <= depth,
                self.v_ok(cur),
                g.steps(t, self.v(cur)),
                o.ctx.nb.vals@[v as int].is_canonical() ==> cur == v && *self == o && left == u64::MAX,
            decreases left,
        {
            if left == 0 {
                return Err(self.out_of_depth(0));
            }
            left -= 1;
            let ghost u = self.v(cur);
            cur = self.nb_force(fuel - 1, depth, cur)?;
            proof {
                Sig::steps_trans(g, t, u, self.v(cur));
            }
            let ghost u = self.v(cur);
            let node = self.get(cur);
            proof {
                self.ctx.w@.lemma_headed(&self.ctx.st, node, self.ctx.w@.vtime(cur));
            }
            match node {
                Value::Unfold { .. } => {
                    let next = self.nb_unfold(fuel - 1, depth, cur)?;
                    proof {
                        Sig::steps_trans(g, t, u, self.v(next));
                    }
                    if next == cur {
                        let now = self.get(cur);
                        if let Value::Unfold { .. } = now {
                            proof {
                                self.ctx.w@.lemma_unfold_node(&self.ctx.st, node, now);
                            }
                            return Ok(cur);
                        }
                    }
                    cur = next;
                },
                Value::Rigid { head: RigidHead::Const(k, _, _), .. } => {
                    if k == ConstKind::Recursor || k == ConstKind::QuotConst {
                        match self.nb_iota(fuel - 1, depth, cur)? {
                            Some(next) => {
                                proof {
                                    Sig::steps_trans(g, t, u, self.v(next));
                                }
                                cur = next;
                            },
                            None => {
                                let r = self.nb_settled(fuel - 1, depth, cur)?;
                                proof {
                                    Sig::steps_trans(g, t, u, self.v(r));
                                }
                                if r == cur {
                                    if let Value::Rigid { .. } = self.get(r) {
                                        return Ok(r);
                                    }
                                }
                                cur = r;
                            },
                        }
                    } else {
                        return Ok(cur);
                    }
                },
                _ => {
                    return Ok(cur);
                },
            }
        }
    }

    /// A value whose head is stuck, as it is.
    fn nb_settled(&mut self, fuel: u32, depth: u32, v: ValId) -> (r: Result<ValId, TcError>)
        requires
            old(self).wf(),
            old(self).v_ok(v),
            old(self).v(v).bvb() <= depth,
            old(self).v(v).headed(),
        ensures
            final(self).wf(),
            final(self).ext(old(self)),
            r matches Ok(x) ==> final(self).v_ok(x) && final(self).g().steps(old(self).v(v), final(self).v(x))
                && final(self).v(x).headed() && final(self).done(x),
            r matches Err(err) ==> final(self).accounts(old(self), err),
        decreases fuel,
    {
        let x = self.nb_force(fuel, depth, v)?;
        let node = self.get(x);
        proof {
            self.ctx.w@.lemma_headed(&self.ctx.st, node, self.ctx.w@.vtime(x));
        }
        Ok(x)
    }

    /// A folded constant that was not unfolded before, whose name is no `Nat`
    /// primitive and which has a body, unfolds to `x`: that body, with the
    /// spine replayed on it, reduces to `x`.
    pub open spec fn replays(&self, v: ValId, x: Term) -> bool {
        match self.ctx.nb.vals@[v as int] {
            Value::Unfold { name, levels, spine, forced: None } => {
                let ls = self.ctx.st.ls(levels);
                self.g().body_of(name, ls) is Some && !(self.ctx.nat_ext && self.ctx.names@.is_prim(name))
                    ==> self.g().steps(ElimT::spine(self.g().body_of(name, ls)->0, self.ctx.w@.s(spine)), x)
            },
            _ => true,
        }
    }

    /// Unfolding `v` gave `v` back because there is nothing to unfold.
    pub open spec fn stays_folded(&self, v: ValId, r: Result<ValId, TcError>) -> bool {
        match self.ctx.nb.vals@[v as int] {
            Value::Unfold { name, levels, spine, .. } => r == Ok::<ValId, TcError>(v) ==> self.g().idle(
                self.ctx.nat_ext,
                name,
                self.ctx.st.ls(levels),
                self.ctx.w@.s(spine),
                self.v(v),
            ),
            _ => true,
        }
    }

    /// Unfold a folded constant application by evaluating the definition's
    /// body and replaying the spine on it.  The result is recorded on the
    /// value, so the replay happens once.
    pub fn nb_unfold(&mut self, fuel: u32, depth: u32, v: ValId) -> (r: Result<ValId, TcError>)
        requires
            old(self).wf(),
            old(self).v_ok(v),
            old(self).v(v).bvb() <= depth,
        ensures
            final(self).wf(),
            final(self).ext(old(self)),
            r matches Ok(x) ==> final(self).v_ok(x) && final(self).g().steps(old(self).v(v), final(self).v(x)),
            fuel > 1 && !(old(self).ctx.nb.vals@[v as int] is Unfold) ==> r == Ok::<ValId, TcError>(v),
            old(self).ctx.nb.vals@[v as int] is Unfold ==> (r matches Ok(x) ==> final(self).done(x)),
            r matches Ok(x) ==> old(self).replays(v, final(self).v(x)),
            old(self).stays_folded(v, r),
            r matches Err(err) ==> final(self).accounts(old(self), err),
        decreases fuel,
    {
        if fuel == 0 {
            return Err(self.out_of_depth(0));
        }
        self.nb_unfold_go(fuel - 1, depth, v, false)
    }

    /// Unfold even a `Nat` primitive that would rather stay folded.  Used
    /// where conversion has nothing else left to try.
    pub fn nb_unfold_demand(&mut self, fuel: u32, depth: u32, v: ValId) -> (r: Result<ValId, TcError>)
        requires
            old(self).wf(),
            old(self).v_ok(v),
            old(self).v(v).bvb() <= depth,
        ensures
            final(self).wf(),
            final(self).ext(old(self)),
            r matches Ok(x) ==> final(self).v_ok(x) && final(self).g().steps(old(self).v(v), final(self).v(x)),
            fuel > 1 && !(old(self).ctx.nb.vals@[v as int] is Unfold) ==> r == Ok::<ValId, TcError>(v),
            old(self).ctx.nb.vals@[v as int] is Unfold ==> (r matches Ok(x) ==> final(self).done(x)),
            r matches Ok(x) ==> old(self).replays(v, final(self).v(x)),
            old(self).stays_folded(v, r),
            r matches Err(err) ==> final(self).accounts(old(self), err),
        decreases fuel,
    {
        if fuel == 0 {
            return Err(self.out_of_depth(0));
        }
        let force = self.ctx.nb.probe.depth == 0;
        self.nb_unfold_go(fuel - 1, depth, v, force)
    }

    fn nb_unfold_go(&mut self, fuel: u32, depth: u32, v: ValId, force: bool) -> (r: Result<ValId, TcError>)
        requires
            old(self).wf(),
            old(self).v_ok(v),
            old(self).v(v).bvb() <= depth,
        ensures
            final(self).wf(),
            final(self).ext(old(self)),
            r matches Ok(x) ==> final(self).v_ok(x) && final(self).g().steps(old(self).v(v), final(self).v(x)),
            fuel > 0 && !(old(self).ctx.nb.vals@[v as int] is Unfold) ==> r == Ok::<ValId, TcError>(v),
            old(self).ctx.nb.vals@[v as int] is Unfold ==> (r matches Ok(x) ==> final(self).done(x)),
            r matches Ok(x) ==> old(self).replays(v, final(self).v(x)),
            old(self).stays_folded(v, r),
            r matches Err(err) ==> final(self).accounts(old(self), err),
        decreases fuel,
    {
        if fuel == 0 {
            return Err(self.out_of_depth(0));
        }
        let ghost g = self.g();
        let ghost t = self.v(v);
        proof {
            Sig::steps_refl(g, t);
        }
        let (name, levels, spine): (NamePtr, LevelsPtr, SpineId) = match self.get(v) {
            Value::Unfold { name, levels, spine, forced } => {
                match forced {
                    Some(f) => {
                        let ghost u = self.v(f);
                        let r = self.nb_force(fuel - 1, depth, f)?;
                        proof {
                            Sig::steps_trans(g, t, u, self.v(r));
                        }
                        if r != v {
                            return Ok(r);
                        }
                    },
                    None => {},
                }
                (name, levels, spine)
            },
            _ => {
                return Ok(v);
            },
        };
        let ghost hd = Term::Const(name, self.ctx.st.ls(levels));
        let ghost es = self.ctx.w@.s(spine);
        proof {
            self.lemma_base();
        }
        if self.ctx.nat_ext && self.nb_is_nat_prim(name) {
            match self.spine_args(spine) {
                Some(args) => {
                    proof {
                        ElimT::lemma_spine_args(hd, self.vs(args@));
                        Term::lemma_apps_bvb(hd, self.vs(args@), depth as nat);
                    }
                    let ghost ls = self.ctx.st.ls(levels);
                    match self.nb_nat_red(fuel - 1, depth, name, &args, true, Ghost(ls))? {
                        Some(x) => {
                            let ghost u = self.v(x);
                            let r = self.nb_force(fuel - 1, depth, x)?;
                            proof {
                                Sig::steps_trans(g, t, u, self.v(r));
                            }
                            self.set_forced(v, r);
                            return Ok(r);
                        },
                        None => {},
                    }
                    // `Nat.add`, and its siblings, recurse on their second
                    // argument.  Unfolding one whose second argument is a large
                    // literal walks that literal in unary, so the application
                    // stays folded until something demands otherwise.
                    if !force {
                        if self.nb_nat_defer(fuel - 1, depth, name, &args)? {
                            return self.nb_force(fuel - 1, depth, v);
                        }
                    }
                },
                None => {},
            }
        }
        let head = match self.nb_unfold_const(fuel - 1, name, levels)? {
            Some(h) => h,
            None => {
                self.set_forced(v, v);
                return self.nb_force(fuel - 1, depth, v);
            },
        };
        let ghost b = g.body_of(name, self.ctx.st.ls(levels))->0;
        proof {
            ElimT::lemma_spine_bvb(hd, es);
            Sig::steps_spine(g, hd, self.v(head), es);
        }
        let cur = self.nb_replay(fuel - 1, depth, head, spine)?;
        let ghost u = ElimT::spine(self.v(head), es);
        proof {
            Sig::steps_spine(g, b, self.v(head), es);
            Sig::steps_trans(g, t, u, self.v(cur));
            Sig::steps_trans(g, ElimT::spine(b, es), u, self.v(cur));
        }
        let ghost x = self.v(cur);
        let r = self.nb_force(fuel - 1, depth, cur)?;
        proof {
            Sig::steps_trans(g, t, x, self.v(r));
            Sig::steps_trans(g, ElimT::spine(b, es), x, self.v(r));
        }
        self.set_forced(v, r);
        Ok(r)
    }

    /// The eliminations of a spine replayed on what its head reduces to.
    fn nb_replay(&mut self, fuel: u32, depth: u32, head: ValId, spine: SpineId) -> (r: Result<ValId, TcError>)
        requires
            old(self).wf(),
            old(self).v_ok(head),
            old(self).ctx.w@.s_ok(spine),
            ElimT::spine(old(self).v(head), old(self).ctx.w@.s(spine)).bvb() <= depth,
        ensures
            final(self).wf(),
            final(self).ext(old(self)),
            r matches Ok(x) ==> final(self).v_ok(x)
                && final(self).g().steps(ElimT::spine(old(self).v(head), old(self).ctx.w@.s(spine)), final(self).v(x)),
            r matches Err(err) ==> final(self).accounts(old(self), err),
        decreases fuel,
    {
        if fuel == 0 {
            return Err(self.out_of_depth(0));
        }
        let ghost o = *self;
        let ghost g = self.g();
        let ghost hd = self.v(head);
        let ghost es = self.ctx.w@.s(spine);
        let mut cur: ValId = head;
        let elims = self.spine_to_vec(spine);
        let mut i: usize = 0;
        proof {
            ElimT::lemma_spine_bvb(hd, es);
            Sig::steps_refl(g, hd);
            assert(es.take(0) =~= Seq::empty());
        }
        while i < elims.len()
            invariant
                o == *old(self),
                o.wf(),
                self.wf(),
                self.ext(&o),
                g == o.g(),
                fuel > 0,
                o.ctx.w@.s_ok(spine),
                es == o.ctx.w@.s(spine),
                o.ctx.elims(elims@) == es,
                elims@.len() == es.len(),
                forall|j: int|
                    0 <= j < elims@.len() ==> o.ctx.w@.elim_ok(#[trigger] elims@[j], o.ctx.w@.stime(spine)),
                forall|j: int|
                    0 <= j < es.len() ==> (#[trigger] es[j] matches ElimT::App(a) ==> a.bvb() <= depth),
                hd.bvb() <= depth,
                i <= elims@.len(),
                self.v_ok(cur),
                ElimT::spine(hd, es.take(i as int)).bvb() <= depth,
                g.steps(ElimT::spine(hd, es.take(i as int)), self.v(cur)),
            decreases elims@.len() - i,
        {
            let ghost u = ElimT::spine(hd, es.take(i as int));
            let ghost w = self.v(cur);
            proof {
                assert(es[i as int] == o.ctx.w@.elim(elims@[i as int]));
                assert(es.take(i + 1) =~= es.take(i as int).push(es[i as int]));
                ElimT::lemma_spine_push(hd, es.take(i as int), es[i as int]);
                assert(o.ctx.w@.elim_ok(elims@[i as int], o.ctx.w@.stime(spine)));
            }
            cur = match elims[i] {
                Elim::App(a) => {
                    let ghost x = self.v(a);
                    let c = self.nb_apply(fuel - 1, depth, cur, a)?;
                    proof {
                        Sig::steps_fun(g, u, x, w);
                        Sig::steps_trans(g, Term::app(u, x), Term::app(w, x), self.v(c));
                    }
                    c
                },
                Elim::Proj { ty_name, idx } => {
                    let c = self.nb_proj(fuel - 1, depth, ty_name, idx, cur)?;
                    proof {
                        Sig::steps_proj(g, ty_name, idx as nat, u, w);
                        Sig::steps_trans(
                            g,
                            Term::proj(ty_name, idx as nat, u),
                            Term::proj(ty_name, idx as nat, w),
                            self.v(c),
                        );
                    }
                    c
                },
            };
            i += 1;
        }
        proof {
            assert(es.take(es.len() as int) =~= es);
        }
        Ok(cur)
    }

    /// The body of a constant with its level parameters replaced, shared by
    /// every occurrence, or `None` if it has none.
    pub fn const_body(&mut self, name: NamePtr, levels: LevelsPtr) -> (r: Result<Option<ExprPtr>, TcError>)
        requires
            old(self).wf(),
            old(self).ctx.st.ls_ok(levels),
        ensures
            final(self).wf(),
            final(self).ext(old(self)),
            r matches Ok(Some(e))
                ==> final(self).ctx.st.e_ok(e) && final(self).ctx.st.e(e).nl() == 0
                && final(self).g().red(Term::Const(name, old(self).ctx.st.ls(levels)), final(self).ctx.st.e(e)),
            match r {
                Ok(Some(e)) => final(self).g().body_of(name, old(self).ctx.st.ls(levels)) == Some(final(self).ctx.st.e(e)),
                Ok(None) => final(self).g().body_of(name, old(self).ctx.st.ls(levels)) is None,
                Err(e) => e == TcError::Full,
            },
            r matches Err(err) ==> !(err is Reject) && final(self).ran_out(old(self)),
    {
        let ghost g = self.g();
        let ghost ls = self.ctx.st.ls(levels);
        proof {
            self.lemma_env();
            self.lemma_base();
        }
        let (uparams, val): (LevelsPtr, ExprPtr) = match self.env.get_declar_val(name) {
            Some(p) => p,
            None => {
                return Ok(None);
            },
        };
        let ghost up = self.ctx.st.ls(uparams);
        let ghost body = self.ctx.st.e(val);
        proof {
            assert(self.env.find(name) is Some);
            assert(g.decls.contains_key(name));
            assert(g.decls[name] == self.env.find(name)->0.g(&self.ctx.st));
        }
        let n: usize = self.ctx.st.levels_len(levels);
        if n != self.ctx.st.levels_len(uparams) {
            return Ok(None);
        }
        proof {
            Sig::r_delta(g, name, ls);
            Term::lemma_tsubst_vars(body, up, ls);
        }
        if n == 0 {
            proof {
                Term::lemma_tsubst_empty(body, up, ls);
            }
            return Ok(Some(val));
        }
        // The instantiated body is shared through the same table the closure
        // machine reads, which holds only what the persistent declarations say.
        if !self.env.has_temp_ext() {
            let key = self.mk(Expr::Const { name, levels })?;
            match self.recall_g_unfold(key) {
                Some(r) => {
                    return Ok(Some(r));
                },
                None => {},
            }
            let r = self.subst_expr_levels(val, uparams, levels)?;
            self.note_g_unfold(key, r);
            return Ok(Some(r));
        }
        let r = self.subst_expr_levels(val, uparams, levels)?;
        Ok(Some(r))
    }

    /// The body of a constant, with its level parameters replaced, evaluated
    /// once per constant and shared by every occurrence.
    pub fn nb_unfold_const(&mut self, fuel: u32, name: NamePtr, levels: LevelsPtr)
        -> (r: Result<Option<ValId>, TcError>)
        requires
            old(self).wf(),
            old(self).ctx.st.ls_ok(levels),
        ensures
            final(self).wf(),
            final(self).ext(old(self)),
            r matches Ok(Some(x))
                ==> final(self).v_ok(x)
                && final(self).g().unfolds(name, old(self).ctx.st.ls(levels), final(self).v(x)),
            r matches Ok(None) ==> final(self).g().body_of(name, old(self).ctx.st.ls(levels)) is None,
            r matches Err(err) ==> final(self).accounts(old(self), err),
        decreases fuel,
    {
        if fuel == 0 {
            return Err(self.out_of_depth(0));
        }
        match self.recall_unfolding(name, levels) {
            Some(r) => {
                return Ok(r);
            },
            None => {},
        }
        let ghost g = self.g();
        let ghost t = Term::Const(name, self.ctx.st.ls(levels));
        let r: Option<ValId> = match self.const_body(name, levels)? {
            Some(e) => {
                let ghost u = self.ctx.st.e(e);
                proof {
                    self.lemma_base();
                    self.ctx.st.lemma_no_bv(e);
                    Term::lemma_inst_closed(u, 0, self.ctx.w@.n(ENV_NIL));
                }
                let v = self.nb_eval(fuel - 1, 0, ENV_NIL, e)?;
                proof {
                    Sig::steps_trans(g, t, u, self.v(v));
                }
                Some(v)
            },
            None => None,
        };
        self.note_unfolding(name, levels, r);
        Ok(r)
    }

    // ---- projections ----

    /// Field `idx` of value `s`, where that is an application of a constructor of
    /// `ty_name` which has it.
    pub open spec fn field_of(&self, s: ValId, ty_name: NamePtr, idx: u32) -> Option<Term> {
        match self.ctx.nb.vals@[s as int] {
            Value::Rigid { head: RigidHead::Const(ConstKind::Ctor, c, _), spine } => match self.env.find(c) {
                Some(Declar::Constructor(cd)) => {
                    let es = self.ctx.w@.s(spine);
                    if cd.inductive_name == ty_name && cd.num_params + idx < es.len() && forall|j: int|
                        0 <= j < es.len() ==> #[trigger] es[j] is App {
                        Some(es[cd.num_params + idx]->App_0)
                    } else {
                        None
                    }
                },
                _ => None,
            },
            _ => None,
        }
    }

    /// Project a field out of a value.
    pub fn nb_proj(&mut self, fuel: u32, depth: u32, ty_name: NamePtr, idx: u32, s: ValId)
        -> (r: Result<ValId, TcError>)
        requires
            old(self).wf(),
            old(self).v_ok(s),
            old(self).v(s).bvb() <= depth,
        ensures
            final(self).wf(),
            final(self).ext(old(self)),
            r matches Ok(x) ==> final(self).v_ok(x)
                && final(self).g().steps(Term::proj(ty_name, idx as nat, old(self).v(s)), final(self).v(x)),
            r matches Ok(x) ==> final(self).done(x),
            // a field of a constructor application is found
            fuel > 2 ==> (old(self).field_of(s, ty_name, idx) matches Some(f) ==> (r matches Ok(x)
                ==> final(self).g().steps(f, final(self).v(x)))),
            r matches Err(err) ==> final(self).accounts(old(self), err),
        decreases fuel,
    {
        if fuel == 0 {
            return Err(self.out_of_depth(0));
        }
        let ghost g = self.g();
        let ghost t = Term::proj(ty_name, idx as nat, self.v(s));
        let ghost s0 = self.v(s);
        let s = self.nb_whnf(fuel - 1, depth, s)?;
        let ghost s1 = self.v(s);
        let ghost t1 = Term::proj(ty_name, idx as nat, s1);
        proof {
            Sig::steps_proj(g, ty_name, idx as nat, s0, s1);
            Sig::steps_refl(g, t1);
            self.lemma_env();
        }
        match self.get(s) {
            Value::Rigid { head, spine } => {
                if let RigidHead::Const(ConstKind::Ctor, ctor, levels) = head {
                    if let Some(cd) = self.env.get_constructor(ctor) {
                        if cd.inductive_name == ty_name {
                            let np: usize = cd.num_params as usize;
                            if let Some(args) = self.spine_args(spine) {
                                if np <= args.len() && (idx as usize) < args.len() - np {
                                    let ghost ls = self.ctx.st.ls(levels);
                                    let ghost xs = self.vs(args@);
                                    proof {
                                        assert(g.decls.contains_key(ctor));
                                        assert(g.decls[ctor] == self.env.find(ctor)->0.g(&self.ctx.st));
                                        ElimT::lemma_spine_args(Term::Const(ctor, ls), xs);
                                        Sig::steps_refl(g, s1);
                                        Sig::r_projc(g, ty_name, idx as nat, s1, ctor, ls, xs);
                                        Term::lemma_apps_bvb(Term::Const(ctor, ls), xs, s1.bvb());
                                        assert(xs[np + idx] == self.v(args@[np + idx]));
                                        assert(ElimT::of_args(xs)[np + idx] == ElimT::App(xs[np + idx]));
                                    }
                                    let ghost x = self.v(args@[np + idx]);
                                    let r = self.nb_force(fuel - 1, depth, args[np + idx as usize])?;
                                    proof {
                                        Sig::steps_trans(g, t, t1, x);
                                        Sig::steps_trans(g, t, x, self.v(r));
                                    }
                                    return Ok(r);
                                }
                            }
                        }
                    }
                }
                let r = self.nb_proj_stuck(ty_name, idx, s)?;
                Ok(r)
            },
            Value::NatLit { ptr } => {
                match self.nb_nat_to_ctor(ptr)? {
                    Some(c) => {
                        let ghost s2 = self.v(c);
                        let r = self.nb_proj(fuel - 1, depth, ty_name, idx, c)?;
                        proof {
                            Sig::steps_proj(g, ty_name, idx as nat, s1, s2);
                            let t2 = Term::proj(ty_name, idx as nat, s2);
                            Sig::steps_trans(g, t, t1, t2);
                            Sig::steps_trans(g, t, t2, self.v(r));
                        }
                        Ok(r)
                    },
                    None => Err(self.reject(Reason::NotAStructure)),
                }
            },
            Value::StrLit { ptr } => {
                match self.nb_str_to_ctor(fuel - 1, depth, ptr)? {
                    Some(c) => {
                        let ghost s2 = self.v(c);
                        let r = self.nb_proj(fuel - 1, depth, ty_name, idx, c)?;
                        proof {
                            Sig::steps_proj(g, ty_name, idx as nat, s1, s2);
                            let t2 = Term::proj(ty_name, idx as nat, s2);
                            Sig::steps_trans(g, t, t1, t2);
                            Sig::steps_trans(g, t, t2, self.v(r));
                        }
                        Ok(r)
                    },
                    None => Err(self.reject(Reason::NotAStructure)),
                }
            },
            Value::Unfold { .. } => self.nb_proj_stuck(ty_name, idx, s),
            _ => Err(self.reject(Reason::NotAStructure)),
        }
    }

    /// A projection that stays on the spine of what it is stuck on.
    fn nb_proj_stuck(&mut self, ty_name: NamePtr, idx: u32, s: ValId) -> (r: Result<ValId, TcError>)
        requires
            old(self).wf(),
            old(self).v_ok(s),
        ensures
            final(self).wf(),
            final(self).ext(old(self)),
            r matches Ok(x) ==> final(self).v_ok(x)
                && final(self).v(x) == Term::proj(ty_name, idx as nat, old(self).v(s)),
            r matches Ok(x) ==> final(self).done(x),
            r matches Err(err) ==> final(self).accounts(old(self), err),
    {
        proof {
            self.lemma_vtime(s);
        }
        match self.get(s) {
            Value::Rigid { head, spine } => {
                proof {
                    ElimT::lemma_spine_push(
                        self.ctx.w@.head(&self.ctx.st, head),
                        self.ctx.w@.s(spine),
                        ElimT::Proj(ty_name, idx as nat),
                    );
                }
                let spine = self.spine_snoc(spine, Elim::Proj { ty_name, idx })?;
                self.mk_rigid(head, spine)
            },
            Value::Unfold { name, levels, spine, .. } => {
                proof {
                    ElimT::lemma_spine_push(
                        Term::Const(name, self.ctx.st.ls(levels)),
                        self.ctx.w@.s(spine),
                        ElimT::Proj(ty_name, idx as nat),
                    );
                }
                let spine = self.spine_snoc(spine, Elim::Proj { ty_name, idx })?;
                self.mk_unfold(name, levels, spine)
            },
            _ => Err(self.reject(Reason::BadValue)),
        }
    }

    // ---- recursors ----

    /// Value `v` is built from a constant that is not folded.
    pub open spec fn const_headed(&self, v: ValId) -> bool {
        self.ctx.nb.vals@[v as int] matches Value::Rigid { head: RigidHead::Const(_, _, _), .. }
    }

    /// Fire a recursor or a quotient eliminator standing at the head of `v`,
    /// or report it stuck.  What it gives is recorded on `v`.
    pub fn nb_iota(&mut self, fuel: u32, depth: u32, v: ValId) -> (r: Result<Option<ValId>, TcError>)
        requires
            old(self).wf(),
            old(self).v_ok(v),
            old(self).v(v).bvb() <= depth,
        ensures
            final(self).wf(),
            final(self).ext(old(self)),
            r matches Ok(Some(x)) ==> final(self).v_ok(x) && final(self).g().steps(old(self).v(v), final(self).v(x)),
            // no answer is given only where there is none
            r matches Ok(None) ==> (old(self).const_headed(v) ==> final(self).iota_stuck(old(self).v(v))),
            r matches Err(err) ==> final(self).accounts(old(self), err),
        decreases fuel,
    {
        if fuel == 0 {
            return Err(self.out_of_depth(0));
        }
        match self.recall_iota(v) {
            Some(Some(x)) => {
                return Ok(Some(x));
            },
            _ => {},
        }
        let r = self.nb_iota_go(fuel - 1, depth, v)?;
        if r.is_some() {
            self.note_iota(v, r);
        }
        Ok(r)
    }

    fn nb_iota_go(&mut self, fuel: u32, depth: u32, v: ValId) -> (r: Result<Option<ValId>, TcError>)
        requires
            old(self).wf(),
            old(self).v_ok(v),
            old(self).v(v).bvb() <= depth,
        ensures
            final(self).wf(),
            final(self).ext(old(self)),
            r matches Ok(Some(x)) ==> final(self).v_ok(x) && final(self).g().steps(old(self).v(v), final(self).v(x)),
            r matches Ok(None) ==> (old(self).const_headed(v) ==> final(self).iota_stuck(old(self).v(v))),
            r matches Err(err) ==> final(self).accounts(old(self), err),
        decreases fuel,
    {
        if fuel == 0 {
            return Err(self.out_of_depth(0));
        }
        let ghost o = *self;
        let node = self.get(v);
        let (name, levels, spine): (NamePtr, LevelsPtr, SpineId) = match node {
            Value::Rigid { head: RigidHead::Const(_, name, levels), spine } => (name, levels, spine),
            _ => {
                return Ok(None);
            },
        };
        proof {
            self.lemma_env();
            self.lemma_base();
        }
        let ghost ls = self.ctx.st.ls(levels);
        let ghost hd = Term::Const(name, ls);
        let args = match self.spine_args(spine) {
            Some(a) => a,
            None => {
                proof {
                    assert(self.iota_stuck(self.v(v))) by {
                        reveal(TypeChecker::iota_stuck);
                        assert forall|n: u32, l: Seq<Lvl>, xs: Seq<Term>| self.v(v) != #[trigger] Term::apps(
                            Term::Const(n, l),
                            xs,
                        ) by {
                            if self.v(v) == Term::apps(Term::Const(n, l), xs) {
                                self.ctx.w@.lemma_const_node(&self.ctx.st, node, self.ctx.w@.vtime(v), n, l, xs);
                            }
                        }
                    }
                }
                return Ok(None);
            },
        };
        let ghost xs = self.vs(args@);
        proof {
            ElimT::lemma_spine_args(hd, xs);
            Term::lemma_apps_bvb(hd, xs, depth as nat);
        }
        let env = self.env;
        match env.get_declar(name) {
            Some(Declar::Recursor(_)) => {
                let r = self.nb_iota_rec(fuel - 1, depth, name, levels, &args)?;
                proof {
                    if r is None {
                        self.lemma_iota_stuck(name, ls, xs);
                    }
                }
                Ok(r)
            },
            Some(Declar::Quot { .. }) => {
                let pos: usize = if self.is_name(self.ctx.names.get().quot_lift, name) {
                    5
                } else if self.is_name(self.ctx.names.get().quot_ind, name) {
                    4
                } else {
                    proof {
                        self.lemma_iota_stuck(name, ls, xs);
                    }
                    return Ok(None);
                };
                proof {
                    assert(self.g().quot_pos(name) == Some(pos as nat));
                }
                if pos >= args.len() {
                    proof {
                        self.lemma_iota_stuck(name, ls, xs);
                    }
                    return Ok(None);
                }
                proof {
                    assert(xs[pos as int] == self.v(args@[pos as int]));
                }
                let major = self.nb_whnf(fuel - 1, depth, args[pos])?;
                self.settle(major);
                let ghost m = self.v(major);
                let r = self.nb_fire_quot(fuel - 1, depth, name, &args, pos, major, Ghost(ls))?;
                proof {
                    if r is None {
                        assert(self.settled(major));
                        assert(self.no_class_for(xs[pos as int]));
                        self.lemma_iota_stuck(name, ls, xs);
                    }
                }
                Ok(r)
            },
            _ => {
                proof {
                    self.lemma_iota_stuck(name, ls, xs);
                }
                Ok(None)
            },
        }
    }

    /// A constant applied to arguments is stuck where what it scrutinizes is.
    proof fn lemma_iota_stuck(&self, name: NamePtr, ls: Seq<Lvl>, xs: Seq<Term>)
        requires
            self.g().is_rec(name) && ls.len() == self.g().decls[name].uparams.len() && self.g().rec(name).major()
                < xs.len() ==> self.no_rule_for(name, xs[self.g().rec(name).major() as int]),
            self.g().is_quot(name) && self.g().quot_pos(name) is Some && self.g().quot_pos(name)->0 < xs.len()
                ==> self.no_class_for(xs[self.g().quot_pos(name)->0 as int]),
        ensures
            self.iota_stuck(Term::apps(Term::Const(name, ls), xs)),
    {
        reveal(TypeChecker::iota_stuck);
        let t = Term::apps(Term::Const(name, ls), xs);
        ElimT::lemma_spine_args(Term::Const(name, ls), xs);
        assert forall|n: u32, l: Seq<Lvl>, ys: Seq<Term>| t == #[trigger] Term::apps(Term::Const(n, l), ys) implies n
            == name && l == ls && ys == xs by {
            ElimT::lemma_spine_args(Term::Const(n, l), ys);
            ElimT::lemma_spine_parts(Term::Const(name, ls), ElimT::of_args(xs), Term::Const(n, l), ElimT::of_args(ys));
            assert forall|i: int| 0 <= i < xs.len() implies xs[i] == ys[i] by {
                assert(ElimT::of_args(xs)[i] == ElimT::of_args(ys)[i]);
            }
            assert(ElimT::of_args(xs).len() == xs.len() && ElimT::of_args(ys).len() == ys.len());
            assert(xs =~= ys);
        }
    }

    /// Fire a recursor.
    fn nb_iota_rec(&mut self, fuel: u32, depth: u32, name: NamePtr, levels: LevelsPtr, args: &Vec<ValId>) -> (r: Result<
        Option<ValId>,
        TcError,
    >)
        requires
            old(self).wf(),
            old(self).ctx.st.ls_ok(levels),
            old(self).vs_ok(args@),
            Term::bvb_seq(old(self).vs(args@), depth as nat),
        ensures
            final(self).wf(),
            final(self).ext(old(self)),
            r matches Ok(Some(x))
                ==> final(self).v_ok(x)
                && final(self).g().steps(Term::apps(Term::Const(name, old(self).ctx.st.ls(levels)),
                old(self).vs(args@)), final(self).v(x)),
            r matches Ok(None) ==> {
                let g = old(self).g();
                g.is_rec(name) && old(self).ctx.st.ls(levels).len() == g.decls[name].uparams.len() && g.rec(name).major()
                    < args@.len() ==> final(self).no_rule_for(name, old(self).vs(args@)[g.rec(name).major() as int])
            },
            r matches Err(err) ==> final(self).accounts(old(self), err),
        decreases fuel,
    {
        if fuel == 0 {
            return Err(self.out_of_depth(0));
        }
        proof {
            self.lemma_env();
            self.lemma_base();
        }
        let ghost g = self.g();
        let ghost xs = self.vs(args@);
        let env = self.env;
        let rec = match env.get_recursor(name) {
            Some(d) => d,
            None => {
                return Ok(None);
            },
        };
        if self.ctx.st.levels_len(rec.info.uparams) != self.ctx.st.levels_len(levels) {
            return Ok(None);
        }
        if args.len() <= rec.major_idx() {
            return Ok(None);
        }
        match self.nb_k_pre_reduce(fuel - 1, depth, name, rec, levels, args)? {
            Some(r) => {
                return Ok(Some(r));
            },
            None => {},
        }
        proof {
            assert(self.vs(args@)[rec.major_nat() as int] == self.v(args@[rec.major_nat() as int]));
        }
        let major = self.nb_whnf(fuel - 1, depth, args[rec.major_idx()])?;
        self.settle(major);
        let ghost m = self.v(major);
        let r = self.nb_fire_recursor(fuel - 1, depth, name, rec, levels, args, major)?;
        proof {
            if r is None {
                let w = choose|w: Term| #[trigger] g.steps(m, w) && w.headed() && g.no_fire(name, w);
                assert(self.settled(major) && g.red(self.v(major), w));
                assert(self.no_rule_for(name, xs[g.rec(name).major() as int]));
            }
        }
        Ok(r)
    }

    fn nb_fire_quot(
        &mut self,
        fuel: u32,
        depth: u32,
        name: NamePtr,
        args: &Vec<ValId>,
        pos: usize,
        major: ValId,
        Ghost(ls): Ghost<Seq<Lvl>>,
    ) -> (r: Result<Option<ValId>, TcError>)
        requires
            old(self).wf(),
            old(self).vs_ok(args@),
            old(self).v_ok(major),
            Term::bvb_seq(old(self).vs(args@), depth as nat),
            pos < args@.len(),
            old(self).g().quot_pos(name) == Some(pos as nat),
            old(self).g().steps(old(self).v(args@[pos as int]), old(self).v(major)),
        ensures
            final(self).wf(),
            final(self).ext(old(self)),
            r matches Ok(Some(x))
                ==> final(self).v_ok(x)
                && final(self).g().steps(Term::apps(Term::Const(name, ls), old(self).vs(args@)), final(self).v(x)),
            // a class is not passed over
            r matches Ok(None) ==> (old(self).done(major) ==> old(self).g().no_mk(old(self).v(major))),
            r matches Err(err) ==> final(self).accounts(old(self), err),
        decreases fuel,
    {
        if fuel == 0 {
            return Err(self.out_of_depth(0));
        }
        let ghost g = self.g();
        let ghost xs = self.vs(args@);
        let ghost hd = Term::Const(name, ls);
        let ghost t = Term::apps(hd, xs);
        let node = self.get(major);
        proof {
            self.lemma_base();
            assert forall|c: u32, cls: Seq<Lvl>, cargs: Seq<Term>| !(node is Thunk) && self.v(major)
                == #[trigger] Term::apps(Term::Const(c, cls), cargs) implies node.applies(
                &self.ctx.st,
                self.ctx.w@,
                c,
                cargs,
            ) by {
                self.ctx.w@.lemma_const_node(&self.ctx.st, node, self.ctx.w@.vtime(major), c, cls, cargs);
            }
        }
        let (mk, mk_levels, spine): (NamePtr, LevelsPtr, SpineId) = match node {
            Value::Rigid { head: RigidHead::Const(_, mk, mk_levels), spine } => (mk, mk_levels, spine),
            Value::Unfold { name: mk, levels: mk_levels, spine, .. } => (mk, mk_levels, spine),
            _ => {
                return Ok(None);
            },
        };
        if !self.is_name(self.ctx.names.get().quot_mk, mk) {
            return Ok(None);
        }
        let mk_args = match self.spine_args(spine) {
            Some(a) => a,
            None => {
                return Ok(None);
            },
        };
        if mk_args.len() != 3 || args.len() <= 3 {
            return Ok(None);
        }
        let ghost mls = self.ctx.st.ls(mk_levels);
        let ghost ms = self.vs(mk_args@);
        let ghost rest = xs.subrange(pos + 1, xs.len() as int);
        let ghost m = self.v(major);
        proof {
            ElimT::lemma_spine_args(Term::Const(mk, mls), ms);
            Sig::r_quot(g, name, ls, xs, mk, mls, ms);
            Term::lemma_apps_bvb(Term::Const(mk, mls), ms, m.bvb());
            Term::lemma_apps_bvb(hd, xs, t.bvb());
            Term::lemma_apps_bvb(Term::app(xs[3], ms[2]), rest, t.bvb());
            assert(rest =~= xs.skip(pos + 1));
            assert(xs[3] == self.v(args@[3]));
            assert(ms[2] == self.v(mk_args@[2]));
            assert(xs[pos as int].bvb() <= t.bvb());
            assert(Term::bvb_seq(rest, t.bvb()));
        }
        let ghost u = Term::app(xs[3], ms[2]);
        let f = self.nb_apply(fuel - 1, depth, args[3], mk_args[2])?;
        let ghost w = self.v(f);
        let r = self.nb_apply_args(fuel - 1, depth, f, args, pos + 1, args.len())?;
        proof {
            Sig::steps_apps(g, u, w, rest);
            Sig::steps_trans(g, t, Term::apps(u, rest), Term::apps(w, rest));
            Sig::steps_trans(g, t, Term::apps(w, rest), self.v(r));
        }
        Ok(Some(r))
    }

    /// The recursor `name` and the question it is asked.
    pub open spec fn rec_ask(
        &self,
        depth: u32,
        name: NamePtr,
        rec: &RecursorData,
        levels: LevelsPtr,
        args: Seq<ValId>,
    ) -> bool {
        &&& self.env.find(name) == Some(Declar::Recursor(*rec))
        &&& self.ctx.st.ls_ok(levels)
        &&& self.ctx.st.ls(levels).len() == self.ctx.st.ls(rec.info.uparams).len()
        &&& self.vs_ok(args)
        &&& Term::bvb_seq(self.vs(args), depth as nat)
        &&& rec.major_nat() < args.len()
    }

    fn nb_fire_recursor(
        &mut self,
        fuel: u32,
        depth: u32,
        name: NamePtr,
        rec: &RecursorData,
        levels: LevelsPtr,
        args: &Vec<ValId>,
        major: ValId,
    ) -> (r: Result<Option<ValId>, TcError>)
        requires
            old(self).wf(),
            old(self).rec_ask(depth, name, rec, levels, args@),
            old(self).v_ok(major),
            old(self).g().steps(old(self).v(args@[rec.major_nat() as int]), old(self).v(major)),
        ensures
            final(self).wf(),
            final(self).ext(old(self)),
            r matches Ok(Some(x))
                ==> final(self).v_ok(x)
                && final(self).g().steps(Term::apps(Term::Const(name, old(self).ctx.st.ls(levels)),
                old(self).vs(args@)), final(self).v(x)),
            // the major premise matches no rule
            r matches Ok(None) ==> exists|w: Term| #[trigger]
                old(self).g().steps(old(self).v(major), w) && w.headed() && old(self).g().no_fire(name, w),
            r matches Err(err) ==> final(self).accounts(old(self), err),
        decreases fuel,
    {
        if fuel == 0 {
            return Err(self.out_of_depth(0));
        }
        let ghost g = self.g();
        let ghost m0 = self.v(args@[rec.major_nat() as int]);
        let ghost m = self.v(major);
        proof {
            self.lemma_env();
            self.lemma_base();
            assert(self.vs(args@)[rec.major_nat() as int] == m0);
            Sig::steps_refl(g, m);
            self.lemma_major(depth, name, rec, levels, args@, major);
        }
        if self.delayed(major) {
            let forced = self.nb_force(fuel - 1, depth, major)?;
            let ghost u = self.v(forced);
            proof {
                Sig::steps_trans(g, m0, m, u);
            }
            let r = self.nb_fire_recursor(fuel - 1, depth, name, rec, levels, args, forced)?;
            proof {
                if r is None {
                    let w = choose|w: Term| #[trigger] g.steps(u, w) && w.headed() && g.no_fire(name, w);
                    Sig::steps_trans(g, m, u, w);
                }
            }
            return Ok(r);
        }
        // `Nat.rec` on a literal steps without expanding the literal into a
        // tower of `Nat.succ`.
        if self.ctx.nat_ext && rec.all_inductives.len() > 0 && self.is_name(self.ctx.names.get().nat, rec.all_inductives[0]) {
            if let Value::NatLit { ptr } = self.get(major) {
                let r = self.nb_nat_rec(fuel - 1, depth, args, ptr, name, rec, levels)?;
                return Ok(Some(r));
            }
        }
        let mut c: Option<ValId> = self.nb_major_to_ctor(fuel - 1, depth, major)?;
        if c.is_none() {
            c = self.nb_k_reduce(fuel - 1, depth, major, name, rec)?;
        }
        if c.is_none() {
            c = self.nb_struct_eta_reduce(fuel - 1, depth, major, rec)?;
        }
        let major2: ValId = match c {
            Some(x) => x,
            None => major,
        };
        proof {
            if c is Some {
                Sig::steps_trans(g, m0, m, self.v(major2));
            }
            self.lemma_major(depth, name, rec, levels, args@, major2);
        }
        let ghost u = self.v(major2);
        // what a conversion gave may have to be brought into shape first
        let node = self.get(major2);
        let again: bool = match node {
            Value::Thunk { .. } => true,
            Value::NatLit { .. } | Value::StrLit { .. } => c.is_some(),
            _ => false,
        };
        if again {
            let forced = self.nb_force(fuel - 1, depth, major2)?;
            let ghost u2 = self.v(forced);
            proof {
                Sig::steps_trans(g, m, u, u2);
                Sig::steps_trans(g, m0, u, u2);
            }
            let r = self.nb_fire_recursor(fuel - 1, depth, name, rec, levels, args, forced)?;
            proof {
                if r is None {
                    let w = choose|w: Term| #[trigger] g.steps(u2, w) && w.headed() && g.no_fire(name, w);
                    Sig::steps_trans(g, m, u2, w);
                }
            }
            return Ok(r);
        }
        proof {
            self.ctx.w@.lemma_headed(&self.ctx.st, node, self.ctx.w@.vtime(major2));
        }
        self.nb_fire_rule(fuel - 1, depth, name, rec, levels, args, major2)
    }

    /// A major premise reduced stays within the depth of the arguments.
    proof fn lemma_major(
        &self,
        depth: u32,
        name: NamePtr,
        rec: &RecursorData,
        levels: LevelsPtr,
        args: Seq<ValId>,
        major: ValId,
    )
        requires
            self.rec_ask(depth, name, rec, levels, args),
            self.g().steps(self.v(args[rec.major_nat() as int]), self.v(major)),
        ensures
            self.v(major).bvb() <= depth,
    {
        assert(self.vs(args)[rec.major_nat() as int] == self.v(args[rec.major_nat() as int]));
    }

    /// Fire the rule for the constructor the major premise is.
    fn nb_fire_rule(
        &mut self,
        fuel: u32,
        depth: u32,
        name: NamePtr,
        rec: &RecursorData,
        levels: LevelsPtr,
        args: &Vec<ValId>,
        major: ValId,
    ) -> (r: Result<Option<ValId>, TcError>)
        requires
            old(self).wf(),
            old(self).rec_ask(depth, name, rec, levels, args@),
            old(self).v_ok(major),
            old(self).g().steps(old(self).v(args@[rec.major_nat() as int]), old(self).v(major)),
        ensures
            final(self).wf(),
            final(self).ext(old(self)),
            r matches Ok(Some(x))
                ==> final(self).v_ok(x)
                && final(self).g().steps(Term::apps(Term::Const(name, old(self).ctx.st.ls(levels)),
                old(self).vs(args@)), final(self).v(x)),
            // a rule that applies is not passed over
            r matches Ok(None) ==> (old(self).done(major) ==> old(self).g().no_ctor_rule(name, old(self).v(major))),
            r matches Err(err) ==> final(self).accounts(old(self), err),
        decreases fuel,
    {
        if fuel == 0 {
            return Err(self.out_of_depth(0));
        }
        let ghost g = self.g();
        let ghost xs = self.vs(args@);
        let ghost ls = self.ctx.st.ls(levels);
        let ghost hd = Term::Const(name, ls);
        let ghost t = Term::apps(hd, xs);
        let ghost m = self.v(major);
        let node = self.get(major);
        proof {
            self.lemma_env();
            self.lemma_base();
            assert(g.decls[name] == self.env.find(name)->0.g(&self.ctx.st));
            assert forall|c: u32, cls: Seq<Lvl>, cargs: Seq<Term>| !(node is Thunk) && m == #[trigger] Term::apps(
                Term::Const(c, cls),
                cargs,
            ) implies node.applies(&self.ctx.st, self.ctx.w@, c, cargs) by {
                self.ctx.w@.lemma_const_node(&self.ctx.st, node, self.ctx.w@.vtime(major), c, cls, cargs);
            }
        }
        let (ctor, ctor_levels, spine): (NamePtr, LevelsPtr, SpineId) = match node {
            Value::Rigid { head: RigidHead::Const(_, ctor, cl), spine } => (ctor, cl, spine),
            Value::Unfold { name: ctor, levels: cl, spine, .. } => (ctor, cl, spine),
            _ => {
                return Ok(None);
            },
        };
        let ctor_args = match self.spine_args(spine) {
            Some(a) => a,
            None => {
                return Ok(None);
            },
        };
        let ri: usize = match rec.rule_for(ctor) {
            Some(i) => i,
            None => {
                return Ok(None);
            },
        };
        let rule = rec.rec_rules[ri];
        let nfields: usize = rule.ctor_telescope_size_wo_params as usize;
        if ctor_args.len() < nfields {
            return Ok(None);
        }
        let num_extra: usize = ctor_args.len() - nfields;
        let ghost cls = self.ctx.st.ls(ctor_levels);
        let ghost cs = self.vs(ctor_args@);
        let ghost val = self.ctx.st.e(rule.val).tsubst(self.ctx.st.ls(rec.info.uparams), ls);
        let ghost gr = g.rec(name);
        let ghost p1 = xs.subrange(0, gr.prefix() as int);
        let ghost p2 = cs.subrange(num_extra as int, cs.len() as int);
        let ghost p3 = xs.subrange(gr.major() as int + 1, xs.len() as int);
        let ghost rhs = g.iota_rhs(name, ls, xs, ri as int, cs);
        proof {
            assert(g.decls[name] == self.env.find(name)->0.g(&self.ctx.st));
            ElimT::lemma_spine_args(Term::Const(ctor, cls), cs);
            Sig::r_iota(g, name, ls, xs, ri as int, cls, cs);
            assert(rhs == Term::apps(Term::apps(Term::apps(val, p1), p2), p3)) by {
                assert(p1 =~= xs.take(gr.prefix() as int));
                assert(p2 =~= cs.skip(cs.len() - nfields));
                assert(p3 =~= xs.skip(gr.major() as int + 1));
                Term::lemma_apps_append(val, p1, p2);
                Term::lemma_apps_append(val, p1 + p2, p3);
            }
            self.ctx.st.lemma_no_bv(rule.val);
            Term::lemma_tsubst_vars(self.ctx.st.e(rule.val), self.ctx.st.ls(rec.info.uparams), ls);
            Term::lemma_apps_bvb(Term::Const(ctor, cls), cs, m.bvb());
            Term::lemma_apps_bvb(hd, xs, t.bvb());
            Term::lemma_apps_bvb(hd, xs, depth as nat);
            assert(xs[gr.major() as int].bvb() <= t.bvb());
            assert(xs[gr.major() as int] == self.v(args@[rec.major_nat() as int]));
            assert(Term::bvb_seq(p1, t.bvb()));
            assert(Term::bvb_seq(p2, t.bvb()));
            assert(Term::bvb_seq(p3, t.bvb()));
            Term::lemma_apps_bvb(val, p1, t.bvb());
            Term::lemma_apps_bvb(Term::apps(val, p1), p2, t.bvb());
            Term::lemma_apps_bvb(Term::apps(Term::apps(val, p1), p2), p3, t.bvb());
            assert(g.steps(t, rhs));
        }
        let f = self.nb_rule_val(fuel - 1, rule.val, rec.info.uparams, levels)?;
        let ghost f0 = self.v(f);
        let a1 = self.nb_apply_args(fuel - 1, depth, f, args, 0, rec.prefix())?;
        let ghost w1 = self.v(a1);
        proof {
            Sig::steps_apps(g, val, f0, p1);
            Sig::steps_trans(g, Term::apps(val, p1), Term::apps(f0, p1), w1);
        }
        let a2 = self.nb_apply_args(fuel - 1, depth, a1, &ctor_args, num_extra, ctor_args.len())?;
        let ghost w2 = self.v(a2);
        proof {
            let u = Term::apps(val, p1);
            Sig::steps_apps(g, u, w1, p2);
            Sig::steps_trans(g, Term::apps(u, p2), Term::apps(w1, p2), w2);
        }
        let r = self.nb_apply_args(fuel - 1, depth, a2, args, rec.major_idx() + 1, args.len())?;
        proof {
            let u = Term::apps(Term::apps(val, p1), p2);
            Sig::steps_apps(g, u, w2, p3);
            Sig::steps_trans(g, Term::apps(u, p3), Term::apps(w2, p3), self.v(r));
            Sig::steps_trans(g, t, rhs, self.v(r));
        }
        Ok(Some(r))
    }

    /// The value of a recursor rule at given levels.
    fn nb_rule_val(&mut self, fuel: u32, val: ExprPtr, uparams: LevelsPtr, levels: LevelsPtr)
        -> (r: Result<ValId, TcError>)
        requires
            old(self).wf(),
            old(self).ctx.st.e_ok(val),
            old(self).ctx.st.e(val).nl() == 0,
            old(self).ctx.st.ls_ok(uparams),
            old(self).ctx.st.ls_ok(levels),
        ensures
            final(self).wf(),
            final(self).ext(old(self)),
            r matches Ok(x) ==> final(self).v_ok(x)
                && final(self).g().steps(old(self).ctx.st.e(val).tsubst(old(self).ctx.st.ls(uparams),
                old(self).ctx.st.ls(levels)), final(self).v(x)),
            r matches Err(err) ==> final(self).accounts(old(self), err),
        decreases fuel,
    {
        if fuel == 0 {
            return Err(self.out_of_depth(0));
        }
        match self.recall_rec_rule(val, uparams, levels) {
            Some(v) => {
                return Ok(v);
            },
            None => {},
        }
        proof {
            Term::lemma_tsubst_vars(self.ctx.st.e(val), self.ctx.st.ls(uparams), self.ctx.st.ls(levels));
        }
        let body = self.subst_expr_levels(val, uparams, levels)?;
        proof {
            self.lemma_base();
            self.ctx.st.lemma_no_bv(body);
            Term::lemma_inst_closed(self.ctx.st.e(body), 0, self.ctx.w@.n(ENV_NIL));
        }
        let v = self.nb_eval(fuel - 1, 0, ENV_NIL, body)?;
        self.note_rec_rule(val, uparams, levels, v);
        Ok(v)
    }

    /// `Nat.rec` at a literal: the zero case, or the successor case at the
    /// predecessor with the recursive call left folded.
    fn nb_nat_rec(
        &mut self,
        fuel: u32,
        depth: u32,
        args: &Vec<ValId>,
        n_ptr: BigUintPtr,
        name: NamePtr,
        rec: &RecursorData,
        levels: LevelsPtr,
    ) -> (r: Result<ValId, TcError>)
        requires
            old(self).wf(),
            old(self).rec_ask(depth, name, rec, levels, args@),
            old(self).ctx.st.n_ok(n_ptr),
            old(self).ctx.nat_ext,
            rec.all_inductives@.len() > 0,
            old(self).ctx.names@.nat == Some(rec.all_inductives@[0]),
            old(self).g().red(old(self).v(args@[rec.major_nat() as int]), Term::Nat(old(self).ctx.st.n(n_ptr))),
        ensures
            final(self).wf(),
            final(self).ext(old(self)),
            r matches Ok(x) ==> final(self).v_ok(x)
                && final(self).g().steps(Term::apps(Term::Const(name, old(self).ctx.st.ls(levels)),
                old(self).vs(args@)), final(self).v(x)),
            r matches Err(err) ==> final(self).accounts(old(self), err),
        decreases fuel,
    {
        if fuel == 0 {
            return Err(self.out_of_depth(0));
        }
        let ghost g = self.g();
        let ghost xs = self.vs(args@);
        let ghost ls = self.ctx.st.ls(levels);
        let ghost hd = Term::Const(name, ls);
        let ghost t = Term::apps(hd, xs);
        let ghost gr = g.rec(name);
        let ghost k = self.ctx.st.n(n_ptr);
        let ghost p3 = xs.subrange(gr.major() as int + 1, xs.len() as int);
        let n = self.read_bignum(n_ptr);
        let z: usize = rec.num_params as usize + rec.num_motives as usize;
        let major_idx: usize = rec.major_idx();
        if z >= args.len() || z + 1 >= args.len() {
            return Err(self.reject(Reason::BadValue));
        }
        proof {
            self.lemma_env();
            self.lemma_base();
            assert(g.decls[name] == self.env.find(name)->0.g(&self.ctx.st));
            assert(gr.major() == rec.major_nat());
            assert(xs[gr.major() as int] == self.v(args@[rec.major_nat() as int]));
            Sig::r_natrec(g, name, ls, xs, k);
            assert(p3 =~= xs.skip(gr.major() as int + 1));
            Term::lemma_apps_bvb(hd, xs, t.bvb());
            Term::lemma_apps_bvb(hd, xs, depth as nat);
            assert(Term::bvb_seq(p3, t.bvb()));
            assert(xs[z as int] == self.v(args@[z as int]));
            assert(xs[z + 1] == self.v(args@[z + 1]));
            let pre = xs.subrange(0, gr.major() as int);
            assert(Term::bvb_seq(pre, t.bvb()));
            Term::lemma_apps_bvb(hd, pre, t.bvb());
        }
        if n.is_zero() {
            let r = self.nb_apply_args(fuel - 1, depth, args[z], args, major_idx + 1, args.len())?;
            proof {
                assert(xs[z as int].bvb() <= t.bvb());
                Term::lemma_apps_bvb(xs[z as int], p3, t.bvb());
                Sig::steps_trans(g, t, Term::apps(xs[z as int], p3), self.v(r));
            }
            return Ok(r);
        }
        let one = Nat::from_u32(1);
        let pred = self.alloc_bignum(&n.minus(&one))?;
        let pred_val = self.mk_nat(pred)?;
        let ghost p = Term::Nat((k - 1) as nat);
        let succ_case = self.nb_force(fuel - 1, depth, args[z + 1])?;
        let ghost sc = self.v(succ_case);
        proof {
            self.lemma_base();
        }
        let ih0 = self.mk_rigid(RigidHead::Const(ConstKind::Recursor, name, levels), SPINE_EMPTY)?;
        let ghost pre = xs.subrange(0, gr.major() as int);
        let ih1 = self.nb_apply_args(fuel - 1, depth, ih0, args, 0, major_idx)?;
        let ghost w1 = self.v(ih1);
        proof {
            assert(w1.bvb() <= depth);
        }
        let ih = self.nb_apply(fuel - 1, depth, ih1, pred_val)?;
        let ghost wi = self.v(ih);
        let ghost ihs = Term::apps(hd, xs.take(gr.major() as int).push(p));
        proof {
            assert(pre =~= xs.take(gr.major() as int));
            Term::lemma_apps_push(hd, pre, p);
            Sig::steps_fun(g, Term::apps(hd, pre), p, w1);
            Sig::steps_trans(g, ihs, Term::app(w1, p), wi);
            assert(p.bvb() == 0);
            assert(wi.bvb() <= depth);
        }
        let stepped = self.nb_apply(fuel - 1, depth, succ_case, pred_val)?;
        let ghost w2 = self.v(stepped);
        proof {
            assert(w2.bvb() <= depth);
        }
        let f = self.nb_apply(fuel - 1, depth, stepped, ih)?;
        let ghost w3 = self.v(f);
        let ghost x1 = xs[z + 1];
        let ghost head = Term::app(Term::app(x1, p), ihs);
        proof {
            assert(x1.bvb() <= t.bvb());
            Sig::steps_fun(g, x1, p, sc);
            Sig::steps_trans(g, Term::app(x1, p), Term::app(sc, p), w2);
            Sig::steps_app(g, Term::app(x1, p), ihs, w2, wi);
            Sig::steps_trans(g, head, Term::app(w2, wi), w3);
        }
        let r = self.nb_apply_args(fuel - 1, depth, f, args, major_idx + 1, args.len())?;
        proof {
            Sig::steps_apps(g, head, w3, p3);
            Sig::steps_trans(g, Term::apps(head, p3), Term::apps(w3, p3), self.v(r));
            Term::lemma_apps_bvb(head, p3, t.bvb());
            Sig::steps_trans(g, t, Term::apps(head, p3), self.v(r));
        }
        Ok(r)
    }

    // ---- literals as constructors ----

    fn nb_major_to_ctor(&mut self, fuel: u32, depth: u32, major: ValId) -> (r: Result<Option<ValId>, TcError>)
        requires
            old(self).wf(),
            old(self).v_ok(major),
        ensures
            final(self).wf(),
            final(self).ext(old(self)),
            r matches Ok(Some(x))
                ==> final(self).v_ok(x) && final(self).g().steps(old(self).v(major), final(self).v(x)),
            // a literal that stands for a constructor application becomes one
            r matches Ok(None) ==> (old(self).done(major) ==> !old(self).g().is_ctor_lit(old(self).v(major))),
            r matches Err(err) ==> final(self).accounts(old(self), err),
        decreases fuel,
    {
        if fuel == 0 {
            return Err(self.out_of_depth(0));
        }
        let node = self.get(major);
        proof {
            self.lemma_base();
            match node {
                Value::Rigid { head, spine } => {
                    ElimT::lemma_no_literal(self.ctx.w@.head(&self.ctx.st, head), self.ctx.w@.s(spine));
                },
                Value::Unfold { name, levels, spine, .. } => {
                    ElimT::lemma_no_literal(Term::Const(name, self.ctx.st.ls(levels)), self.ctx.w@.s(spine));
                },
                _ => {},
            }
        }
        match node {
            Value::NatLit { ptr } => self.nb_nat_to_ctor(ptr),
            Value::StrLit { ptr } => self.nb_str_to_ctor(fuel - 1, depth, ptr),
            _ => Ok(None),
        }
    }

    /// A natural number literal as `Nat.zero` or `Nat.succ` of a literal.
    pub fn nb_nat_to_ctor(&mut self, n: BigUintPtr) -> (r: Result<Option<ValId>, TcError>)
        requires
            old(self).wf(),
            old(self).ctx.st.n_ok(n),
        ensures
            final(self).wf(),
            final(self).ext(old(self)),
            r matches Ok(Some(x))
                ==> final(self).v_ok(x) && final(self).g().steps(Term::Nat(old(self).ctx.st.n(n)), final(self).v(x)),
            r matches Ok(None) ==> !old(self).g().is_ctor_lit(Term::Nat(old(self).ctx.st.n(n))),
            r matches Err(err) ==> err == TcError::Full,
            r matches Err(err) ==> !(err is Reject) && final(self).ran_out(old(self)),
    {
        proof {
            self.lemma_base();
        }
        if !self.ctx.nat_ext {
            return Ok(None);
        }
        let ghost g = self.g();
        let nv = self.read_bignum(n);
        let ghost k = nv@;
        let levels = self.no_levels()?;
        proof {
            self.lemma_base();
        }
        if nv.is_zero() {
            match self.ctx.names.get().nat_zero {
                Some(zero) => {
                    proof {
                        Sig::r_lit_zero(g, zero);
                    }
                    let r = self.mk_rigid(RigidHead::Const(ConstKind::Ctor, zero, levels), SPINE_EMPTY)?;
                    proof {
                        assert(self.v(r) == Term::Const(zero, Seq::empty()));
                    }
                    Ok(Some(r))
                },
                None => Ok(None),
            }
        } else {
            let one = Nat::from_u32(1);
            let pred = self.alloc_bignum(&nv.minus(&one))?;
            let pred_v = self.mk_nat(pred)?;
            match self.ctx.names.get().nat_succ {
                Some(succ) => {
                    proof {
                        self.lemma_base();
                        self.lemma_vtime(pred_v);
                        Sig::r_lit_succ(g, succ, (k - 1) as nat);
                    }
                    let ghost ls = self.ctx.st.ls(levels);
                    let ghost p = self.v(pred_v);
                    proof {
                        ElimT::lemma_spine_push(
                            Term::Const(succ, ls),
                            Seq::empty(),
                            ElimT::App(p),
                        );
                    }
                    let spine = self.spine_snoc(SPINE_EMPTY, Elim::App(pred_v))?;
                    let r = self.mk_rigid(RigidHead::Const(ConstKind::Ctor, succ, levels), spine)?;
                    proof {
                        assert(self.v(r) == Term::app(Term::Const(succ, Seq::empty()), Term::Nat((k - 1) as nat)));
                        assert(Term::Nat(((k - 1) as nat + 1) as nat) == Term::Nat(k));
                        assert(Term::Const(succ, Seq::empty()).bvb() == 0);
                        assert(Term::Nat((k - 1) as nat).bvb() == 0);
                    }
                    Ok(Some(r))
                },
                None => Ok(None),
            }
        }
    }

    /// A string literal as the constructor application it spells.
    pub fn nb_str_to_ctor(&mut self, fuel: u32, depth: u32, s: StringPtr) -> (r: Result<Option<ValId>, TcError>)
        requires
            old(self).wf(),
            old(self).ctx.st.s_ok(s),
        ensures
            final(self).wf(),
            final(self).ext(old(self)),
            r matches Ok(Some(x))
                ==> final(self).v_ok(x) && final(self).g().steps(Term::Str(old(self).ctx.st.s(s)), final(self).v(x)),
            r matches Ok(None) ==> !old(self).g().is_ctor_lit(Term::Str(old(self).ctx.st.s(s))),
            r matches Err(err) ==> final(self).accounts(old(self), err),
        decreases fuel,
    {
        if fuel == 0 {
            return Err(self.out_of_depth(0));
        }
        let ghost g = self.g();
        let ghost t = Term::Str(self.ctx.st.s(s));
        let e = match self.str_lit_to_constructor(s)? {
            Some(e) => e,
            None => {
                return Ok(None);
            },
        };
        let ghost u = self.ctx.st.e(e);
        proof {
            Sig::r_str(g, self.ctx.st.s(s), u);
            self.lemma_base();
            self.ctx.st.lemma_no_bv(e);
            Term::lemma_inst_closed(u, 0, self.ctx.w@.n(ENV_NIL));
        }
        let v = self.nb_eval(fuel - 1, depth, ENV_NIL, e)?;
        let ghost w = self.v(v);
        let r = self.nb_whnf(fuel - 1, depth, v)?;
        proof {
            Sig::steps_trans(g, t, u, w);
            Sig::steps_trans(g, t, w, self.v(r));
        }
        Ok(Some(r))
    }

    // ---- majors that are not constructor applications ----

    /// The K rule: a proof of an inductive proposition with one nullary
    /// constructor is that constructor, so the recursor can fire on it.
    fn nb_k_pre_reduce(
        &mut self,
        fuel: u32,
        depth: u32,
        name: NamePtr,
        rec: &RecursorData,
        levels: LevelsPtr,
        args: &Vec<ValId>,
    ) -> (r: Result<Option<ValId>, TcError>)
        requires
            old(self).wf(),
            old(self).rec_ask(depth, name, rec, levels, args@),
        ensures
            final(self).wf(),
            final(self).ext(old(self)),
            r matches Ok(Some(x))
                ==> final(self).v_ok(x)
                && final(self).g().steps(Term::apps(Term::Const(name, old(self).ctx.st.ls(levels)),
                old(self).vs(args@)), final(self).v(x)),
            r matches Err(err) ==> final(self).accounts(old(self), err),
        decreases fuel,
    {
        if fuel == 0 {
            return Err(self.out_of_depth(0));
        }
        if !rec.is_k {
            return Ok(None);
        }
        let ghost g = self.g();
        let ghost xs = self.vs(args@);
        let ghost m0 = self.v(args@[rec.major_nat() as int]);
        proof {
            self.lemma_env();
            assert(xs[rec.major_nat() as int] == m0);
        }
        let raw = self.nb_force(fuel - 1, depth, args[rec.major_idx()])?;
        let ghost m1 = self.v(raw);
        let kctor = match self.nb_k_reduce(fuel - 1, depth, raw, name, rec)? {
            Some(c) => c,
            None => {
                return Ok(None);
            },
        };
        proof {
            Sig::steps_trans(g, m0, m1, self.v(kctor));
        }
        self.nb_fire_recursor(fuel - 1, depth, name, rec, levels, args, kctor)
    }

    fn nb_k_reduce(&mut self, fuel: u32, depth: u32, major: ValId, name: NamePtr, rec: &RecursorData) -> (r: Result<
        Option<ValId>,
        TcError,
    >)
        requires
            old(self).wf(),
            old(self).env.find(name) == Some(Declar::Recursor(*rec)),
            old(self).v_ok(major),
            old(self).v(major).bvb() <= depth,
        ensures
            final(self).wf(),
            final(self).ext(old(self)),
            r matches Ok(Some(x))
                ==> final(self).v_ok(x) && final(self).g().steps(old(self).v(major), final(self).v(x)),
            r matches Err(err) ==> final(self).accounts(old(self), err),
        decreases fuel,
    {
        if fuel == 0 {
            return Err(self.out_of_depth(0));
        }
        if !rec.is_k {
            return Ok(None);
        }
        match self.get(major) {
            Value::Rigid { .. } => {},
            Value::Unfold { .. } => {},
            _ => {
                return Ok(None);
            },
        }
        let ghost g = self.g();
        let ghost m = self.v(major);
        proof {
            self.lemma_env();
            self.lemma_base();
        }
        let ty0 = self.nb_type(fuel - 1, depth, major)?;
        let ghost mt = self.v(ty0);
        let major_ty = self.nb_whnf(fuel - 1, depth, ty0)?;
        let ghost mw = self.v(major_ty);
        let (ty_name, ty_levels, ty_args) = match self.nb_as_inductive(major_ty) {
            Some(x) => x,
            None => {
                return Ok(None);
            },
        };
        let ghost ls = self.ctx.st.ls(ty_levels);
        let ghost xs = self.vs(ty_args@);
        proof {
            self.lemma_env();
            self.lemma_base();
        }
        match self.ctx.st.get_major_induct(rec) {
            Some(ri) => {
                if ty_name != ri {
                    return Ok(None);
                }
            },
            None => {
                return Ok(None);
            },
        }
        let env = self.env;
        let ctor_name: NamePtr = match env.get_inductive(ty_name) {
            Some(ind) => {
                if ind.all_ctor_names.len() == 0 {
                    return Ok(None);
                }
                ind.all_ctor_names[0]
            },
            None => {
                return Ok(None);
            },
        };
        let np: usize = rec.num_params as usize;
        let ctor_self: usize = match rec.rule_for(ctor_name) {
            Some(i) => rec.rec_rules[i].ctor_telescope_size_wo_params as usize,
            None => 0,
        };
        let take: usize = if np + ctor_self <= ty_args.len() {
            np + ctor_self
        } else {
            ty_args.len()
        };
        proof {
            assert(g.decls[name] == self.env.find(name)->0.g(&self.ctx.st));
            assert(g.decls[ty_name] == self.env.find(ty_name)->0.g(&self.ctx.st));
            Term::lemma_apps_bvb(Term::Const(ty_name, ls), xs, m.bvb());
        }
        let ghost nc = Term::apps(Term::Const(ctor_name, ls), xs.take(take as int));
        let new_ctor = self.nb_ctor_app(ctor_name, ty_levels, &ty_args, take)?;
        proof {
            assert(Term::bvb_seq(xs.take(take as int), m.bvb()));
            Term::lemma_apps_bvb(Term::Const(ctor_name, ls), xs.take(take as int), m.bvb());
        }
        let new_ty = self.nb_type(fuel - 1, depth, new_ctor)?;
        let ghost nt = self.v(new_ty);
        if !self.nb_conv(fuel - 1, depth, major_ty, new_ty)? {
            return Ok(None);
        }
        proof {
            Sig::r_k(g, m, mt, name, ty_name, ls, xs, take as nat, nt);
        }
        Ok(Some(new_ctor))
    }

    /// A constructor applied to the first `n` of the values `args`.
    fn nb_ctor_app(&mut self, ctor: NamePtr, levels: LevelsPtr, args: &Vec<ValId>, n: usize)
        -> (r: Result<ValId, TcError>)
        requires
            old(self).wf(),
            old(self).ctx.st.ls_ok(levels),
            old(self).vs_ok(args@),
            n <= args@.len(),
        ensures
            final(self).wf(),
            final(self).ext(old(self)),
            r matches Ok(x) ==> final(self).v_ok(x) && final(self).v(x) == Term::apps(
                Term::Const(ctor, old(self).ctx.st.ls(levels)),
                old(self).vs(args@).take(n as int),
            ),
            r matches Err(err) ==> err == TcError::Full,
            r matches Err(err) ==> !(err is Reject) && final(self).ran_out(old(self)),
    {
        let ghost o = *self;
        let ghost hd = Term::Const(ctor, self.ctx.st.ls(levels));
        let ghost xs = self.vs(args@);
        let mut spine: SpineId = SPINE_EMPTY;
        let mut i: usize = 0;
        proof {
            self.lemma_base();
            assert(xs.take(0) =~= Seq::empty());
        }
        while i < n
            invariant
                o == *old(self),
                o.wf(),
                self.wf(),
                self.ext(&o),
                i <= n <= args@.len(),
                o.vs_ok(args@),
                xs == o.vs(args@),
                self.ctx.w@.s_ok(spine),
                ElimT::spine(hd, self.ctx.w@.s(spine)) == Term::apps(hd, xs.take(i as int)),
            decreases n - i,
        {
            let ghost es = self.ctx.w@.s(spine);
            proof {
                assert(self.v(args@[i as int]) == xs[i as int]);
                self.lemma_vtime(args@[i as int]);
                assert(xs.take(i + 1) =~= xs.take(i as int).push(xs[i as int]));
                Term::lemma_apps_push(hd, xs.take(i as int), xs[i as int]);
                ElimT::lemma_spine_push(hd, es, ElimT::App(xs[i as int]));
            }
            spine = self.spine_snoc(spine, Elim::App(args[i]))?;
            i += 1;
        }
        self.mk_rigid(RigidHead::Const(ConstKind::Ctor, ctor, levels), spine)
    }

    /// A value of a structure type is the constructor applied to its
    /// projections, so a recursor over a structure fires on anything.
    fn nb_struct_eta_reduce(&mut self, fuel: u32, depth: u32, major: ValId, rec: &RecursorData) -> (r: Result<
        Option<ValId>,
        TcError,
    >)
        requires
            old(self).wf(),
            old(self).v_ok(major),
            old(self).v(major).bvb() <= depth,
            old(self).ctx.st.e_ok(rec.info.ty),
        ensures
            final(self).wf(),
            final(self).ext(old(self)),
            r matches Ok(Some(x))
                ==> final(self).v_ok(x) && final(self).g().steps(old(self).v(major), final(self).v(x)),
            r matches Err(err) ==> final(self).accounts(old(self), err),
        decreases fuel,
    {
        if fuel == 0 {
            return Err(self.out_of_depth(0));
        }
        match self.get(major) {
            Value::Rigid { .. } => {},
            Value::Unfold { .. } => {},
            _ => {
                return Ok(None);
            },
        }
        proof {
            self.lemma_env();
            self.lemma_base();
        }
        let rec_induct: NamePtr = match self.ctx.st.get_major_induct(rec) {
            Some(i) => i,
            None => {
                return Ok(None);
            },
        };
        if !self.env.can_be_struct(rec_induct) {
            return Ok(None);
        }
        match self.recall_struct_eta(major, rec_induct) {
            Some(r) => {
                return Ok(r);
            },
            None => {},
        }
        let np: usize = rec.num_params as usize;
        let r = self.nb_struct_eta_go(fuel - 1, depth, major, rec_induct, np)?;
        self.note_struct_eta(major, rec_induct, r);
        Ok(r)
    }

    fn nb_struct_eta_go(&mut self, fuel: u32, depth: u32, major: ValId, rec_induct: NamePtr, np: usize) -> (r: Result<
        Option<ValId>,
        TcError,
    >)
        requires
            old(self).wf(),
            old(self).v_ok(major),
            old(self).v(major).bvb() <= depth,
            old(self).g().is_struct(rec_induct),
        ensures
            final(self).wf(),
            final(self).ext(old(self)),
            r matches Ok(Some(x))
                ==> final(self).v_ok(x) && final(self).g().steps(old(self).v(major), final(self).v(x)),
            r matches Err(err) ==> final(self).accounts(old(self), err),
        decreases fuel,
    {
        if fuel == 0 {
            return Err(self.out_of_depth(0));
        }
        let ghost g = self.g();
        let ghost m = self.v(major);
        let ty0 = self.nb_type(fuel - 1, depth, major)?;
        let ghost mt = self.v(ty0);
        let major_ty = self.nb_whnf(fuel - 1, depth, ty0)?;
        let (ty_name, ty_levels, ty_args) = match self.nb_as_inductive(major_ty) {
            Some(x) => x,
            None => {
                return Ok(None);
            },
        };
        if ty_name != rec_induct {
            return Ok(None);
        }
        let ghost ls = self.ctx.st.ls(ty_levels);
        let ghost xs = self.vs(ty_args@);
        // A structure whose universe an instantiation may send to zero is
        // left alone: expanding a proof into its fields would equate proofs
        // that proof irrelevance already equates on other grounds.
        if self.nb_may_be_prop(fuel - 1, depth, major_ty)? {
            return Ok(None);
        }
        proof {
            self.lemma_env();
        }
        let env = self.env;
        let ctor_name: NamePtr = match env.get_inductive(ty_name) {
            Some(ind) => {
                if ind.all_ctor_names.len() == 0 {
                    return Ok(None);
                }
                ind.all_ctor_names[0]
            },
            None => {
                return Ok(None);
            },
        };
        let num_fields: u32 = match env.get_constructor(ctor_name) {
            Some(cd) => cd.num_fields as u32,
            None => {
                return Ok(None);
            },
        };
        let take: usize = if np <= ty_args.len() {
            np
        } else {
            ty_args.len()
        };
        let ghost base = Term::apps(Term::Const(ctor_name, ls), xs.take(take as int));
        let ghost full = xs.take(take as int) + Term::projs(ty_name, m, num_fields as nat);
        proof {
            assert(g.decls[ty_name] == self.env.find(ty_name)->0.g(&self.ctx.st));
            assert(g.decls[ctor_name] == self.env.find(ctor_name)->0.g(&self.ctx.st));
            Sig::r_struct(g, m, mt, ty_name, ls, xs, take as nat);
            Term::lemma_apps_append(
                Term::Const(ctor_name, ls),
                xs.take(take as int),
                Term::projs(ty_name, m, num_fields as nat),
            );
            Term::lemma_apps_bvb(Term::Const(ty_name, ls), xs, m.bvb());
            assert(Term::bvb_seq(xs.take(take as int), m.bvb()));
            Term::lemma_apps_bvb(Term::Const(ctor_name, ls), xs.take(take as int), m.bvb());
            assert(Term::bvb_seq(Term::projs(ty_name, m, num_fields as nat), m.bvb()));
            Term::lemma_apps_bvb(base, Term::projs(ty_name, m, num_fields as nat), m.bvb());
        }
        let new_ctor = self.nb_ctor_app(ctor_name, ty_levels, &ty_args, take)?;
        let r = self.nb_apply_projs(fuel - 1, depth, new_ctor, ty_name, major, num_fields)?;
        proof {
            Sig::steps_trans(g, m, Term::apps(base, Term::projs(ty_name, m, num_fields as nat)), self.v(r));
        }
        Ok(Some(r))
    }

    /// Apply `f` to the first `n` projections of `s`.
    fn nb_apply_projs(&mut self, fuel: u32, depth: u32, f: ValId, ty_name: NamePtr, s: ValId, n: u32) -> (r: Result<
        ValId,
        TcError,
    >)
        requires
            old(self).wf(),
            old(self).v_ok(f),
            old(self).v_ok(s),
            old(self).v(f).bvb() <= depth,
            old(self).v(s).bvb() <= depth,
        ensures
            final(self).wf(),
            final(self).ext(old(self)),
            r matches Ok(x) ==> final(self).v_ok(x)
                && final(self).g().steps(Term::apps(old(self).v(f), Term::projs(ty_name, old(self).v(s), n as nat)),
                final(self).v(x)),
            r matches Err(err) ==> final(self).accounts(old(self), err),
        decreases fuel,
    {
        if fuel == 0 {
            return Err(self.out_of_depth(0));
        }
        let ghost o = *self;
        let ghost g = self.g();
        let ghost f0 = self.v(f);
        let ghost m = self.v(s);
        let mut cur: ValId = f;
        let mut i: u32 = 0;
        proof {
            assert(Term::projs(ty_name, m, 0) =~= Seq::empty());
            Sig::steps_refl(g, f0);
        }
        while i < n
            invariant
                o == *old(self),
                o.wf(),
                self.wf(),
                self.ext(&o),
                g == o.g(),
                fuel > 0,
                o.v_ok(s),
                m == o.v(s),
                m.bvb() <= depth,
                f0.bvb() <= depth,
                i <= n,
                self.v_ok(cur),
                g.steps(Term::apps(f0, Term::projs(ty_name, m, i as nat)), self.v(cur)),
            decreases n - i,
        {
            let ghost pre = Term::projs(ty_name, m, i as nat);
            let ghost u = Term::apps(f0, pre);
            let ghost w = self.v(cur);
            let ghost q = Term::proj(ty_name, i as nat, m);
            proof {
                assert(Term::projs(ty_name, m, (i + 1) as nat) =~= pre.push(q));
                Term::lemma_apps_push(f0, pre, q);
                assert(Term::bvb_seq(pre, depth as nat));
                Term::lemma_apps_bvb(f0, pre, depth as nat);
            }
            let p = self.nb_proj(fuel - 1, depth, ty_name, i, s)?;
            let ghost x = self.v(p);
            cur = self.nb_apply(fuel - 1, depth, cur, p)?;
            proof {
                Sig::steps_app(g, u, q, w, x);
                Sig::steps_trans(g, Term::app(u, q), Term::app(w, x), self.v(cur));
            }
            i += 1;
        }
        Ok(cur)
    }

    /// The inductive type a value is an application of.
    pub fn nb_as_inductive(&self, v: ValId) -> (r: Option<(NamePtr, LevelsPtr, Vec<ValId>)>)
        requires
            self.wf(),
            self.v_ok(v),
        ensures
            r matches Some(x) ==> self.ctx.st.ls_ok(x.1) && self.vs_ok(x.2@) && self.v(v) == Term::apps(
                Term::Const(x.0, self.ctx.st.ls(x.1)),
                self.vs(x.2@),
            ),
    {
        match self.get(v) {
            Value::Rigid { head: RigidHead::Const(ConstKind::Inductive, n, ls), spine } => {
                match self.spine_args(spine) {
                    Some(args) => {
                        proof {
                            ElimT::lemma_spine_args(Term::Const(n, self.ctx.st.ls(ls)), self.vs(args@));
                        }
                        Some((n, ls, args))
                    },
                    None => None,
                }
            },
            _ => None,
        }
    }
}

} // verus!
