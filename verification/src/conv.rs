//! Conversion on values.
//!
//! Two values are compared by walking them together.  Because every value is
//! interned, the first test is that their indices are equal, which settles
//! every pair that shares any construction history: the same definition
//! unfolded twice, the same argument evaluated under two spellings of one
//! environment, the same recursor step reached along two routes.  Only when
//! that fails does the comparison reduce.
//!
//! `rigid` says whether the comparison is allowed to reduce.  A comparison of
//! the arguments of two applications of one constant is a guess: the
//! arguments may differ while the applications are still equal, so failures
//! found on the way are recorded separately and dropped with the guess.
use crate::counters::{EQ_MOD, SPEC_ABORT, SPEC_FAIL};
use crate::bignum::Nat;
use crate::env::{Declar, ReducibilityHint};
use crate::error::TcError;
use crate::level::{LevelPtr, NamePtr};
use crate::nbe::{ConstKind, Elim, Probe, RigidHead, SpineId, ValId, Value, SPINE_EMPTY};
use crate::tc::TypeChecker;
use crate::term::{Lvl, Term};
use crate::theory::{ElimT, Sig};
use vstd::prelude::*;

verus! {

broadcast use crate::tc::group_tc;

/// Conversion steps one speculative comparison may spend, counting everything
/// it nests.
pub const SPEC_BUDGET: u64 = 4096;

/// The most an aborted comparison may pass on.
pub const ESCALATE_CAP: u64 = 0x10_0000;

/// Whether a comparison is worth recording.  A pair of neutrals with the same
/// head is settled by their arguments, which are recorded on their own; the
/// pairs worth a table entry are the ones whose answer took reduction.
pub fn is_cacheable(v: &Value) -> (r: bool)
    ensures
        r == (v is Pi || v is Lam || v is Unfold || (v matches Value::Rigid { head: RigidHead::Const(k, _, _), .. } && (
        k is Recursor || k is QuotConst))),
{
    match v {
        Value::Pi { .. } => true,
        Value::Lam { .. } => true,
        Value::Unfold { .. } => true,
        Value::Rigid { head, .. } => is_iota_head(*head),
        _ => false,
    }
}

/// Whether a neutral standing on this head can still fire.
pub fn is_iota_head(h: RigidHead) -> (r: bool)
    ensures
        r == h.is_iota(),
{
    match h {
        RigidHead::Const(k, _, _) => k == ConstKind::Recursor || k == ConstKind::QuotConst,
        _ => false,
    }
}

impl RigidHead {
    /// A recursor or a quotient primitive.
    pub open spec fn is_iota(self) -> bool {
        self matches RigidHead::Const(k, _, _) && (k is Recursor || k is QuotConst)
    }
}

/// Whether two heads are one variable.
pub fn head_eq(a: RigidHead, b: RigidHead) -> (r: bool)
    ensures
        r == match (a, b) {
            (RigidHead::BVar(x, _), RigidHead::BVar(y, _)) => x == y,
            (RigidHead::Local(x), RigidHead::Local(y)) => x == y,
            _ => false,
        },
{
    match (a, b) {
        (RigidHead::BVar(x, _), RigidHead::BVar(y, _)) => x == y,
        (RigidHead::Local(x), RigidHead::Local(y)) => x == y,
        _ => false,
    }
}

impl Sig {
    /// One spine on equal heads.
    pub proof fn eq_spine(g: Sig, f: Term, f2: Term, es: Seq<ElimT>)
        requires
            g.eq(f, f2),
        ensures
            g.eq(ElimT::spine(f, es), ElimT::spine(f2, es)),
        decreases es.len(),
    {
        if es.len() > 0 {
            Sig::eq_spine(g, f, f2, es.drop_last());
            let a = ElimT::spine(f, es.drop_last());
            let b = ElimT::spine(f2, es.drop_last());
            match es.last() {
                ElimT::App(x) => {
                    Sig::eq_refl(g, x);
                    Sig::e_app(g, a, x, b, x);
                },
                ElimT::Proj(n, i) => {
                    Sig::e_proj(g, n, i, a, b);
                },
            }
        }
    }
}

impl<'x> TypeChecker<'x> {
    /// How two function types, two lambdas or two neutrals come to be told apart:
    /// by their domains, by their bodies, by their heads or by their spines.
    pub open spec fn parts_apart(&self, o: &TypeChecker, x: ValId, y: ValId) -> bool {
        match (o.ctx.nb.vals@[x as int], o.ctx.nb.vals@[y as int]) {
            (Value::Pi { domain: dx, .. }, Value::Pi { domain: dy, .. }) => match (o.v(x), o.v(y)) {
                (Term::Pi(_, _, _, b), Term::Pi(_, _, _, d)) => self.apart(o.v(dx), o.v(dy)) || self.bodies_apart(*b, *d),
                _ => true,
            },
            (Value::Lam { .. }, Value::Lam { .. }) => match (o.v(x), o.v(y)) {
                (Term::Lam(_, _, _, b), Term::Lam(_, _, _, d)) => self.bodies_apart(*b, *d),
                _ => true,
            },
            (Value::Rigid { head: hx, spine: sx }, Value::Rigid { head: hy, spine: sy }) => hx.is_iota() || hy.is_iota() || hx
                != hy || self.spines_apart(o.ctx.w@.s(sx), o.ctx.w@.s(sy)),
            _ => true,
        }
    }

    /// Whether two values are definitionally equal.
    pub fn nb_conv(&mut self, fuel: u32, depth: u32, x: ValId, y: ValId) -> (r: Result<bool, TcError>)
        requires
            old(self).wf(),
            old(self).v_ok(x),
            old(self).v_ok(y),
            old(self).v(x).bvb() <= depth,
            old(self).v(y).bvb() <= depth,
        ensures
            final(self).wf(),
            final(self).ext(old(self)),
            r matches Ok(true) ==> final(self).g().eq(old(self).v(x), old(self).v(y)),
            r matches Ok(false) ==> final(self).apart(old(self).v(x), old(self).v(y)),
            r matches Ok(false) ==> final(self).tells(old(self), true, old(self).v(x), old(self).v(y)),
            fuel > 1 && x == y && old(self).done(x) && old(self).ctx.nb.probe.in_conv < u32::MAX ==> r == Ok::<
                bool,
                TcError,
            >(true),
            r matches Err(err) ==> final(self).accounts(old(self), err),
        decreases fuel,
    {
        if fuel == 0 {
            return Err(self.out_of_depth(0));
        }
        let p = self.ctx.nb.probe;
        if p.in_conv == u32::MAX {
            return Err(self.out_of_depth(0));
        }
        let ghost o = *self;
        self.set_probe(Probe { in_conv: p.in_conv + 1, ..p });
        let ghost q = *self;
        let r = self.nb_unify(fuel - 1, depth, true, x, y);
        let ghost f = *self;
        let p = self.ctx.nb.probe;
        let n: u32 = if p.in_conv > 0 {
            p.in_conv - 1
        } else {
            0
        };
        self.set_probe(Probe { in_conv: n, ..p });
        proof {
            if r == Ok::<bool, TcError>(false) {
                Sig::steps_refl(o.g(), o.v(x));
                Sig::steps_refl(o.g(), o.v(y));
                self.lemma_tells(&f, &q, &o, true, o.v(x), o.v(y), o.v(x), o.v(y));
            }
        }
        r
    }

    fn nb_unify(&mut self, fuel: u32, depth: u32, rigid: bool, x: ValId, y: ValId) -> (r: Result<bool, TcError>)
        requires
            old(self).wf(),
            old(self).v_ok(x),
            old(self).v_ok(y),
            old(self).v(x).bvb() <= depth,
            old(self).v(y).bvb() <= depth,
        ensures
            final(self).wf(),
            final(self).ext(old(self)),
            r matches Ok(true) ==> final(self).g().eq(old(self).v(x), old(self).v(y)),
            r matches Ok(false) ==> final(self).apart(old(self).v(x), old(self).v(y)),
            r matches Ok(false) ==> final(self).tells(old(self), rigid, old(self).v(x), old(self).v(y)),
            r matches Ok(false) ==> final(self).unlike(x, y),
            fuel > 0 && x == y && !(old(self).ctx.nb.vals@[x as int] is Thunk) ==> r == Ok::<bool, TcError>(true),
            r matches Err(err) ==> final(self).accounts(old(self), err),
        decreases fuel,
    {
        if fuel == 0 {
            return Err(self.out_of_depth(0));
        }
        let ghost o = *self;
        let ghost g = self.g();
        let ghost tx = self.v(x);
        let ghost ty = self.v(y);
        self.tick(EQ_MOD);
        let x2 = self.nb_force(fuel - 1, depth, x)?;
        let y2 = self.nb_force(fuel - 1, depth, y)?;
        let ghost ux = self.v(x2);
        let ghost uy = self.v(y2);
        proof {
            Sig::steps_refl(g, tx);
            Sig::steps_refl(g, ty);
        }
        if x2 == y2 {
            proof {
                Sig::eq_refl(g, ux);
                Sig::e_red(g, tx, ux, ty, uy);
            }
            return Ok(true);
        }
        let p = self.ctx.nb.probe;
        if p.depth > 0 {
            let ghost s = *self;
            proof {
                assert(s.between(&o, &s));
            }
            if p.aborted {
                let r = self.answer(false, Ghost(tx), Ghost(ty));
                proof {
                    self.lemma_excused(&o, &s, rigid, x, y);
                }
                let ghost f = *self;
                self.differ(x, y, Ghost(rigid), Ghost(o));
                proof {
                    self.lemma_tells(&f, &o, &o, rigid, tx, ty, tx, ty);
                }
                return Ok(r);
            }
            if p.fuel == 0 {
                self.set_probe(Probe { aborted: true, ..p });
                self.tick(SPEC_FAIL);
                let r = self.answer(false, Ghost(tx), Ghost(ty));
                proof {
                    self.lemma_excused(&o, &s, rigid, x, y);
                }
                let ghost f = *self;
                self.differ(x, y, Ghost(rigid), Ghost(o));
                proof {
                    self.lemma_tells(&f, &o, &o, rigid, tx, ty, tx, ty);
                }
                return Ok(r);
            }
            self.set_probe(Probe { fuel: p.fuel - 1, ..p });
        }
        let ghost q = *self;
        let r = self.nb_unify_cached(fuel - 1, depth, rigid, x2, y2)?;
        proof {
            if r {
                Sig::e_red(g, tx, ux, ty, uy);
            } else {
                let f = *self;
                self.lemma_tells(&f, &q, &o, rigid, tx, ty, ux, uy);
            }
        }
        let ghost f = *self;
        let r = self.answer(r, Ghost(tx), Ghost(ty));
        if !r {
            proof {
                self.lemma_tells(&f, &o, &o, rigid, tx, ty, tx, ty);
            }
            let ghost f = *self;
            self.differ(x, y, Ghost(rigid), Ghost(o));
            proof {
                self.lemma_tells(&f, &o, &o, rigid, tx, ty, tx, ty);
            }
        }
        Ok(r)
    }

    fn nb_unify_cached(&mut self, fuel: u32, depth: u32, rigid: bool, x: ValId, y: ValId) -> (r: Result<bool, TcError>)
        requires
            old(self).wf(),
            old(self).v_ok(x),
            old(self).v_ok(y),
            old(self).v(x).bvb() <= depth,
            old(self).v(y).bvb() <= depth,
        ensures
            final(self).wf(),
            final(self).ext(old(self)),
            r matches Ok(true) ==> final(self).g().eq(old(self).v(x), old(self).v(y)),
            r matches Ok(false) ==> final(self).apart(old(self).v(x), old(self).v(y)),
            r matches Ok(false) ==> final(self).tells(old(self), rigid, old(self).v(x), old(self).v(y)),
            r matches Err(err) ==> final(self).accounts(old(self), err),
        decreases fuel,
    {
        if fuel == 0 {
            return Err(self.out_of_depth(0));
        }
        let ghost o = *self;
        let ghost g = self.g();
        proof {
            Sig::steps_refl(g, o.v(x));
            Sig::steps_refl(g, o.v(y));
        }
        let nx = self.get(x);
        let ny = self.get(y);
        if !is_cacheable(&nx) && !is_cacheable(&ny) {
            return self.nb_unify_go(fuel - 1, depth, rigid, x, y);
        }
        let (lo, hi): (ValId, ValId) = if x < y {
            (x, y)
        } else {
            (y, x)
        };
        if self.recall_conv(lo, hi) {
            proof {
                if x >= y {
                    Sig::e_sym(g, self.v(lo), self.v(hi));
                }
            }
            return Ok(true);
        }
        // A lambda pair can still be equal after eta expansion, so a failure
        // to match them directly is not a failure of the pair.
        let neg_eligible: bool = match (nx, ny) {
            (Value::Lam { .. }, _) => false,
            (_, Value::Lam { .. }) => false,
            _ => true,
        };
        if rigid && neg_eligible {
            if self.ctx.nb.memo.conv_neg.get((lo, hi, 0, 0)).is_some() {
                let r = self.answer(false, Ghost(self.v(x)), Ghost(self.v(y)));
                proof {
                    assert(o.between(&o, self));
                    self.lemma_excused(&o, &o, rigid, x, y);
                }
                return Ok(r);
            }
            if self.ctx.nb.probe.depth > 0 && self.ctx.nb.memo.conv_neg_probe.get((lo, hi, 0, 0)).is_some() {
                let r = self.answer(false, Ghost(self.v(x)), Ghost(self.v(y)));
                proof {
                    assert(o.between(&o, self));
                    self.lemma_excused(&o, &o, rigid, x, y);
                }
                return Ok(r);
            }
        }
        let r = self.nb_unify_go(fuel - 1, depth, rigid, x, y)?;
        let ghost f = *self;
        if self.ctx.nb.probe.aborted {
            return Ok(r);
        }
        if r {
            proof {
                if x >= y {
                    Sig::e_sym(g, self.v(x), self.v(y));
                }
            }
            self.note_conv(lo, hi);
        } else if rigid && neg_eligible {
            if self.ctx.nb.probe.depth == 0 {
                self.note_conv_neg(lo, hi, true);
            } else {
                self.note_conv_neg_probe(lo, hi, true);
            }
        }
        proof {
            if !r {
                self.lemma_tells(&f, &o, &o, rigid, o.v(x), o.v(y), o.v(x), o.v(y));
            }
        }
        Ok(r)
    }

    fn nb_unify_go(&mut self, fuel: u32, depth: u32, rigid: bool, x: ValId, y: ValId) -> (r: Result<bool, TcError>)
        requires
            old(self).wf(),
            old(self).v_ok(x),
            old(self).v_ok(y),
            old(self).v(x).bvb() <= depth,
            old(self).v(y).bvb() <= depth,
        ensures
            final(self).wf(),
            final(self).ext(old(self)),
            r matches Ok(true) ==> final(self).g().eq(old(self).v(x), old(self).v(y)),
            r matches Ok(false) ==> final(self).apart(old(self).v(x), old(self).v(y)),
            r matches Ok(false) ==> final(self).tells(old(self), rigid, old(self).v(x), old(self).v(y)),
            // a pair told apart as it is, is of no two proofs of one proposition,
            // and a lambda differs from what is none at an argument
            rigid ==> (r matches Ok(false) ==> final(self).preds_apart(old(self).v(x), old(self).v(y)) || old(self).v(
                x,
            ) is Str || old(self).v(y) is Str || (final(self).unproved(x, y) && (TypeChecker::one_lam(
                old(self).ctx.nb.vals@[x as int],
                old(self).ctx.nb.vals@[y as int],
            ) ==> final(self).eta_apart(old(self).v(x), old(self).v(y))))),
            r matches Err(err) ==> final(self).accounts(old(self), err),
        decreases fuel,
    {
        if fuel == 0 {
            return Err(self.out_of_depth(0));
        }
        let ghost o = *self;
        let ghost g = self.g();
        let ghost tx = self.v(x);
        let ghost ty = self.v(y);
        proof {
            Sig::steps_refl(g, tx);
            Sig::steps_refl(g, ty);
        }
        let nx = self.get(x);
        let ny = self.get(y);
        match self.nb_conv_nat(fuel - 1, depth, rigid, x, y)? {
            Some(r) => {
                return Ok(r);
            },
            None => {},
        }
        let ghost q = *self;
        match self.nb_conv_str(fuel - 1, depth, rigid, x, y)? {
            Some(r) => {
                proof {
                    if !r {
                        self.lemma_tells(self, &q, &o, rigid, tx, ty, tx, ty);
                    }
                }
                return Ok(r);
            },
            None => {},
        }
        let ghost q = *self;
        if self.nb_unify_direct(fuel - 1, depth, rigid, x, y)? {
            return Ok(true);
        }
        let ghost f = *self;
        proof {
            self.lemma_tells(&f, &q, &o, rigid, tx, ty, tx, ty);
        }
        if !rigid {
            return Ok(false);
        }
        if self.nb_proof_irrel(fuel - 1, depth, x, y)? {
            return Ok(true);
        }
        // eta: a lambda against something that is not one
        match (nx, ny) {
            (Value::Lam { .. }, Value::Lam { .. }) => {},
            (Value::Lam { .. }, _) => {
                let r = self.nb_eta(fuel - 1, depth, x, y)?;
                proof {
                    self.lemma_tells(&f, &o, &o, rigid, tx, ty, tx, ty);
                }
                return Ok(r);
            },
            (_, Value::Lam { .. }) => {
                let r = self.nb_eta(fuel - 1, depth, y, x)?;
                proof {
                    if !r {
                        let (c, d, z) = choose|c: ValId, d: ValId, z: Term| #[trigger]
                            self.at_argument(c, d, z, ty, tx) && (self.unlike(c, d) || self.unlike(d, c));
                        assert(self.at_argument(d, c, z, tx, ty));
                    }
                    if r {
                        Sig::e_sym(g, self.v(y), self.v(x));
                    }
                    self.lemma_tells(&f, &o, &o, rigid, tx, ty, tx, ty);
                }
                return Ok(r);
            },
            _ => {},
        }
        let r = self.nb_struct_eta(fuel - 1, depth, x, y)?;
        proof {
            self.lemma_tells(&f, &o, &o, rigid, tx, ty, tx, ty);
        }
        Ok(r)
    }

    /// One of two values is a lambda.
    pub open spec fn one_lam(a: Value, b: Value) -> bool {
        (a is Lam) != (b is Lam)
    }

    /// Compare the lambda `x` with `y` at a fresh variable.
    fn nb_eta(&mut self, fuel: u32, depth: u32, x: ValId, y: ValId) -> (r: Result<bool, TcError>)
        requires
            old(self).wf(),
            old(self).v_ok(x),
            old(self).v_ok(y),
            old(self).v(x).bvb() <= depth,
            old(self).v(y).bvb() <= depth,
        ensures
            final(self).wf(),
            final(self).ext(old(self)),
            r matches Ok(true) ==> final(self).g().eq(old(self).v(x), old(self).v(y)),
            r matches Ok(false) ==> final(self).apart(old(self).v(x), old(self).v(y)),
            r matches Ok(false) ==> final(self).eta_apart(old(self).v(x), old(self).v(y)),
            r matches Err(err) ==> final(self).accounts(old(self), err),
        decreases fuel,
    {
        if fuel == 0 {
            return Err(self.out_of_depth(0));
        }
        if depth == u32::MAX {
            return Err(self.out_of_depth(0));
        }
        let ghost g = self.g();
        let ghost tx = self.v(x);
        let ghost ty = self.v(y);
        let domain = self.nb_lam_domain(fuel - 1, depth, x)?;
        let fresh = self.nb_fresh(depth, domain)?;
        let ghost z = self.v(fresh);
        let lhs = self.nb_apply(fuel - 1, depth + 1, x, fresh)?;
        let ghost a2 = self.v(lhs);
        let rhs = self.nb_apply(fuel - 1, depth + 1, y, fresh)?;
        let ghost b2 = self.v(rhs);
        let r = self.nb_unify(fuel - 1, depth + 1, true, lhs, rhs)?;
        proof {
            if r {
                Sig::e_ext(g, tx, ty, z, a2, b2);
            }
        }
        let r = self.answer(r, Ghost(tx), Ghost(ty));
        proof {
            if !r {
                assert(self.at_argument(lhs, rhs, z, tx, ty));
            }
        }
        Ok(r)
    }

    /// Two values that differ, neither of which can move on.
    proof fn lemma_plain(&self, o: &TypeChecker, rigid: bool, x: ValId, y: ValId)
        requires
            o.wf(),
            self.ext(o),
            o.v_ok(x),
            o.v_ok(y),
            !TypeChecker::can_move(o.ctx.nb.vals@[x as int], o.ctx.nb.vals@[y as int]),
            self.forms_apart(o, x, o, y),
        ensures
            self.tells(o, rigid, o.v(x), o.v(y)),
    {
        assert(o.between(o, self));
        self.lemma_rests(o, rigid, o, x, o, y);
    }

    /// A side is a folded constant, or stands on a recursor or a quotient
    /// eliminator.
    pub open spec fn can_move(a: Value, b: Value) -> bool {
        ||| a is Unfold || b is Unfold
        ||| a matches Value::Rigid { head, .. } && head.is_iota()
        ||| b matches Value::Rigid { head, .. } && head.is_iota()
    }

    #[verifier::spinoff_prover]
    #[verifier::rlimit(50)]
    fn nb_unify_direct(&mut self, fuel: u32, depth: u32, rigid: bool, x: ValId, y: ValId) -> (r: Result<bool, TcError>)
        requires
            old(self).wf(),
            old(self).v_ok(x),
            old(self).v_ok(y),
            old(self).v(x).bvb() <= depth,
            old(self).v(y).bvb() <= depth,
        ensures
            final(self).wf(),
            final(self).ext(old(self)),
            r matches Ok(true) ==> final(self).g().eq(old(self).v(x), old(self).v(y)),
            r matches Ok(false) ==> final(self).apart(old(self).v(x), old(self).v(y)),
            r matches Ok(false) ==> final(self).tells(old(self), rigid, old(self).v(x), old(self).v(y)),
            r matches Ok(false) ==> final(self).parts_apart(old(self), x, y),
            fuel > 0 && old(self).v(x) == old(self).v(y) && old(self).ctx.nb.vals@[x as int] is Sort && old(
                self,
            ).ctx.nb.vals@[y as int] is Sort ==> r == Ok::<bool, TcError>(true),
            fuel > 0 && old(self).ctx.nb.vals@[x as int] is NatLit && old(self).ctx.nb.vals@[y as int] is NatLit ==> r
                == Ok::<bool, TcError>(old(self).v(x) == old(self).v(y)),
            fuel > 0 && old(self).ctx.nb.vals@[x as int] is StrLit && old(self).ctx.nb.vals@[y as int] is StrLit ==> r
                == Ok::<bool, TcError>(old(self).v(x) == old(self).v(y)),
            r matches Err(err) ==> final(self).accounts(old(self), err),
        decreases fuel,
    {
        if fuel == 0 {
            return Err(self.out_of_depth(0));
        }
        let ghost o = *self;
        let ghost g = self.g();
        let ghost tx = self.v(x);
        let ghost ty = self.v(y);
        proof {
            Sig::steps_refl(g, tx);
            Sig::steps_refl(g, ty);
        }
        match (self.get(x), self.get(y)) {
            (Value::Sort { level: lx }, Value::Sort { level: ly }) => {
                proof {
                    if tx == ty {
                        self.lemma_base();
                        self.ctx.st.lemma_l_injective(lx, ly);
                    }
                }
                let r = self.eq_antisymm(lx, ly)?;
                proof {
                    if r {
                        Sig::e_sort(g, tx->Sort_0, ty->Sort_0);
                    }
                }
                let r = self.answer(r, Ghost(tx), Ghost(ty));
                proof {
                    self.lemma_plain(&o, rigid, x, y);
                }
                Ok(r)
            },
            (Value::NatLit { ptr: px }, Value::NatLit { ptr: py }) => {
                proof {
                    self.lemma_base();
                    if tx == ty {
                        self.ctx.st.lemma_n_injective(px, py);
                    }
                    Sig::eq_refl(g, tx);
                }
                let r = self.answer(px == py, Ghost(tx), Ghost(ty));
                proof {
                    if !r {
                        self.lemma_plain(&o, rigid, x, y);
                    }
                }
                Ok(r)
            },
            (Value::StrLit { ptr: px }, Value::StrLit { ptr: py }) => {
                proof {
                    self.lemma_base();
                    if tx == ty {
                        self.ctx.st.lemma_s_injective(px, py);
                    }
                    Sig::eq_refl(g, tx);
                }
                let r = self.answer(px == py, Ghost(tx), Ghost(ty));
                proof {
                    if !r {
                        self.lemma_plain(&o, rigid, x, y);
                    }
                }
                Ok(r)
            },
            (Value::Pi { domain: dx, .. }, Value::Pi { domain: dy, .. }) => {
                let r = self.nb_unify_pi(fuel - 1, depth, rigid, x, y, dx, dy)?;
                proof {
                    if !r {
                        self.lemma_plain(&o, rigid, x, y);
                    }
                }
                Ok(r)
            },
            (Value::Lam { .. }, Value::Lam { .. }) => {
                let r = self.nb_unify_lam(fuel - 1, depth, rigid, x, y)?;
                proof {
                    if !r {
                        self.lemma_plain(&o, rigid, x, y);
                    }
                }
                Ok(r)
            },
            (Value::Rigid { head: hx, spine: sx }, Value::Rigid { head: hy, spine: sy }) => {
                let r = self.nb_unify_rigid(fuel - 1, depth, rigid, x, y, hx, sx, hy, sy)?;
                proof {
                    if !r && !hx.is_iota() && !hy.is_iota() {
                        self.lemma_plain(&o, rigid, x, y);
                    }
                }
                Ok(r)
            },
            (
                Value::Unfold { name: nx, levels: lx, spine: sx, .. },
                Value::Unfold { name: ny, levels: ly, spine: sy, .. },
            ) => {
                let heads_match: bool = nx == ny && self.eq_antisymm_many(lx, ly)?;
                proof {
                    if heads_match {
                        Sig::e_const(g, nx, self.ctx.st.ls(lx), self.ctx.st.ls(ly));
                    }
                }
                let ghost q = *self;
                let r = self.nb_unify_unfold(
                    fuel - 1,
                    depth,
                    rigid,
                    x,
                    y,
                    heads_match,
                    nx,
                    ny,
                    sx,
                    sy,
                    Ghost(Term::Const(nx, self.ctx.st.ls(lx))),
                    Ghost(Term::Const(ny, self.ctx.st.ls(ly))),
                )?;
                proof {
                    if !r {
                        self.lemma_tells(self, &q, &o, rigid, tx, ty, tx, ty);
                    }
                }
                Ok(r)
            },
            (Value::Unfold { .. }, _) => {
                if !rigid {
                    let r = self.answer(false, Ghost(tx), Ghost(ty));
                    proof {
                        assert(o.between(&o, self));
                        self.lemma_excused(&o, &o, rigid, x, y);
                    }
                    return Ok(r);
                }
                self.nb_unfold_side(fuel - 1, depth, true, x, y)
            },
            (_, Value::Unfold { .. }) => {
                if !rigid {
                    let r = self.answer(false, Ghost(tx), Ghost(ty));
                    proof {
                        assert(o.between(&o, self));
                        self.lemma_excused(&o, &o, rigid, x, y);
                    }
                    return Ok(r);
                }
                self.nb_unfold_side(fuel - 1, depth, false, x, y)
            },
            (Value::Rigid { head: hx, .. }, _) => {
                if !rigid || !is_iota_head(hx) {
                    let r = self.answer(false, Ghost(tx), Ghost(ty));
                    proof {
                        if !rigid {
                            assert(o.between(&o, self));
                            self.lemma_excused(&o, &o, rigid, x, y);
                        } else {
                            self.lemma_plain(&o, rigid, x, y);
                        }
                    }
                    return Ok(r);
                }
                self.nb_unify_fire(fuel - 1, depth, x, y)
            },
            (_, Value::Rigid { head: hy, .. }) => {
                if !rigid || !is_iota_head(hy) {
                    let r = self.answer(false, Ghost(tx), Ghost(ty));
                    proof {
                        if !rigid {
                            assert(o.between(&o, self));
                            self.lemma_excused(&o, &o, rigid, x, y);
                        } else {
                            self.lemma_plain(&o, rigid, x, y);
                        }
                    }
                    return Ok(r);
                }
                let r = self.nb_unify_fire(fuel - 1, depth, y, x)?;
                let ghost f = *self;
                proof {
                    if r {
                        Sig::e_sym(g, ty, tx);
                    } else {
                        self.lemma_tells_back(&o, rigid, tx, ty);
                    }
                }
                let r = self.answer(r, Ghost(tx), Ghost(ty));
                proof {
                    if !r {
                        self.lemma_tells(&f, &o, &o, rigid, tx, ty, tx, ty);
                    }
                }
                Ok(r)
            },
            _ => {
                let r = self.answer(false, Ghost(tx), Ghost(ty));
                proof {
                    self.lemma_plain(&o, rigid, x, y);
                }
                Ok(r)
            },
        }
    }

    /// Two function types: their domains, and their codomains at a fresh
    /// variable.
    fn nb_unify_pi(&mut self, fuel: u32, depth: u32, rigid: bool, x: ValId, y: ValId, dx: ValId, dy: ValId)
        -> (r: Result<
        bool,
        TcError,
    >)
        requires
            old(self).wf(),
            old(self).v_ok(x),
            old(self).v_ok(y),
            old(self).v(x).bvb() <= depth,
            old(self).v(y).bvb() <= depth,
            old(self).v_ok(dx),
            old(self).v_ok(dy),
            old(self).v(x) matches Term::Pi(_, _, a, _) && *a == old(self).v(dx),
            old(self).v(y) matches Term::Pi(_, _, a, _) && *a == old(self).v(dy),
        ensures
            final(self).wf(),
            final(self).ext(old(self)),
            r matches Ok(true) ==> final(self).g().eq(old(self).v(x), old(self).v(y)),
            r matches Ok(false) ==> final(self).apart(old(self).v(x), old(self).v(y)),
            r matches Ok(false) ==> final(self).apart(old(self).v(dx), old(self).v(dy)) || final(self).bodies_apart(
                *old(self).v(x)->Pi_3,
                *old(self).v(y)->Pi_3,
            ),
            r matches Err(err) ==> final(self).accounts(old(self), err),
        decreases fuel,
    {
        if fuel == 0 {
            return Err(self.out_of_depth(0));
        }
        if depth == u32::MAX {
            return Err(self.out_of_depth(0));
        }
        let ghost g = self.g();
        let ghost tx = self.v(x);
        let ghost ty = self.v(y);
        if !self.nb_unify(fuel - 1, depth, rigid, dx, dy)? {
            return Ok(self.answer(false, Ghost(tx), Ghost(ty)));
        }
        let dom = self.nb_force(fuel - 1, depth, dx)?;
        let fresh = self.nb_fresh(depth, dom)?;
        let ghost z = self.v(fresh);
        let bx = self.nb_open(fuel - 1, depth + 1, x, fresh)?;
        let ghost a2 = self.v(bx);
        let by = self.nb_open(fuel - 1, depth + 1, y, fresh)?;
        let ghost b2 = self.v(by);
        let r = self.nb_unify(fuel - 1, depth + 1, rigid, bx, by)?;
        proof {
            if r {
                if let (Term::Pi(n, s, a, b), Term::Pi(n2, s2, c, d)) = (tx, ty) {
                    Sig::e_red(g, b.inst(0, seq![z]), a2, d.inst(0, seq![z]), b2);
                    Sig::e_pi(g, n, s, *a, *b, n2, s2, *c, *d, z);
                }
            } else if let (Term::Pi(_, _, _, b), Term::Pi(_, _, _, d)) = (tx, ty) {
                assert(g.red(b.inst(0, seq![z]), a2) && g.red(d.inst(0, seq![z]), b2));
                assert(self.bodies_apart(*b, *d));
            }
        }
        Ok(self.answer(r, Ghost(tx), Ghost(ty)))
    }

    /// Two lambdas at a fresh variable.
    fn nb_unify_lam(&mut self, fuel: u32, depth: u32, rigid: bool, x: ValId, y: ValId) -> (r: Result<bool, TcError>)
        requires
            old(self).wf(),
            old(self).v_ok(x),
            old(self).v_ok(y),
            old(self).v(x).bvb() <= depth,
            old(self).v(y).bvb() <= depth,
            old(self).v(x) is Lam,
            old(self).v(y) is Lam,
        ensures
            final(self).wf(),
            final(self).ext(old(self)),
            r matches Ok(true) ==> final(self).g().eq(old(self).v(x), old(self).v(y)),
            r matches Ok(false) ==> final(self).apart(old(self).v(x), old(self).v(y)),
            r matches Ok(false) ==> final(self).bodies_apart(*old(self).v(x)->Lam_3, *old(self).v(y)->Lam_3),
            r matches Err(err) ==> final(self).accounts(old(self), err),
        decreases fuel,
    {
        if fuel == 0 {
            return Err(self.out_of_depth(0));
        }
        if depth == u32::MAX {
            return Err(self.out_of_depth(0));
        }
        let ghost g = self.g();
        let ghost tx = self.v(x);
        let ghost ty = self.v(y);
        let dom = self.nb_lam_domain(fuel - 1, depth, x)?;
        let fresh = self.nb_fresh(depth, dom)?;
        let ghost z = self.v(fresh);
        let bx = self.nb_open(fuel - 1, depth + 1, x, fresh)?;
        let ghost a2 = self.v(bx);
        let by = self.nb_open(fuel - 1, depth + 1, y, fresh)?;
        let ghost b2 = self.v(by);
        let r = self.nb_unify(fuel - 1, depth + 1, rigid, bx, by)?;
        proof {
            if r {
                if let (Term::Lam(n, s, a, b), Term::Lam(n2, s2, c, d)) = (tx, ty) {
                    Sig::r_beta(g, n, s, *a, *b, z);
                    Sig::r_beta(g, n2, s2, *c, *d, z);
                    Sig::r_trans(g, Term::app(tx, z), b.inst(0, seq![z]), a2);
                    Sig::r_trans(g, Term::app(ty, z), d.inst(0, seq![z]), b2);
                    Sig::e_ext(g, tx, ty, z, a2, b2);
                }
            } else if let (Term::Lam(_, _, _, b), Term::Lam(_, _, _, d)) = (tx, ty) {
                assert(g.red(b.inst(0, seq![z]), a2) && g.red(d.inst(0, seq![z]), b2));
                assert(self.bodies_apart(*b, *d));
            }
        }
        Ok(self.answer(r, Ghost(tx), Ghost(ty)))
    }

    /// Two neutrals.
    fn nb_unify_rigid(
        &mut self,
        fuel: u32,
        depth: u32,
        rigid: bool,
        x: ValId,
        y: ValId,
        hx: RigidHead,
        sx: SpineId,
        hy: RigidHead,
        sy: SpineId,
    ) -> (r: Result<bool, TcError>)
        requires
            old(self).wf(),
            old(self).v_ok(x),
            old(self).v_ok(y),
            old(self).v(x).bvb() <= depth,
            old(self).v(y).bvb() <= depth,
            old(self).ctx.w@.head_ok(&old(self).ctx.st, hx, old(self).ctx.w@.clock),
            old(self).ctx.w@.head_ok(&old(self).ctx.st, hy, old(self).ctx.w@.clock),
            old(self).ctx.w@.s_ok(sx),
            old(self).ctx.w@.s_ok(sy),
            old(self).v(x) == ElimT::spine(old(self).ctx.w@.head(&old(self).ctx.st, hx), old(self).ctx.w@.s(sx)),
            old(self).v(y) == ElimT::spine(old(self).ctx.w@.head(&old(self).ctx.st, hy), old(self).ctx.w@.s(sy)),
        ensures
            final(self).wf(),
            final(self).ext(old(self)),
            r matches Ok(true) ==> final(self).g().eq(old(self).v(x), old(self).v(y)),
            r matches Ok(false) ==> final(self).apart(old(self).v(x), old(self).v(y)),
            hx.is_iota() || hy.is_iota() ==> (r matches Ok(false) ==> final(self).tells(
                old(self),
                rigid,
                old(self).v(x),
                old(self).v(y),
            )),
            r matches Ok(false) ==> hx.is_iota() || hy.is_iota() || hx != hy || final(self).spines_apart(
                old(self).ctx.w@.s(sx),
                old(self).ctx.w@.s(sy),
            ),
            r matches Err(err) ==> final(self).accounts(old(self), err),
        decreases fuel,
    {
        if fuel == 0 {
            return Err(self.out_of_depth(0));
        }
        let ghost o = *self;
        let ghost g = self.g();
        let ghost tx = self.v(x);
        let ghost ty = self.v(y);
        let ghost fx = self.ctx.w@.head(&self.ctx.st, hx);
        let ghost fy = self.ctx.w@.head(&self.ctx.st, hy);
        let const_heads_match: bool = match (hx, hy) {
            (RigidHead::Const(kx, nx, lx), RigidHead::Const(ky, ny, ly)) => {
                if kx == ky && nx == ny {
                    let b = self.eq_antisymm_many(lx, ly)?;
                    proof {
                        if b {
                            Sig::e_const(g, nx, self.ctx.st.ls(lx), self.ctx.st.ls(ly));
                        }
                    }
                    b
                } else {
                    false
                }
            },
            _ => false,
        };
        // Either side standing on a recursor may still reduce, so the spines
        // decide only after neither side steps.
        if is_iota_head(hx) || is_iota_head(hy) {
            let ghost q = *self;
            let r = self.nb_unify_iota(fuel - 1, depth, rigid, x, y, const_heads_match, sx, sy, Ghost(fx), Ghost(fy))?;
            proof {
                if !r {
                    Sig::steps_refl(g, tx);
                    Sig::steps_refl(g, ty);
                    self.lemma_tells(self, &q, &o, rigid, tx, ty, tx, ty);
                }
            }
            return Ok(r);
        }
        let is_const: bool = match (hx, hy) {
            (RigidHead::Const(_, _, _), _) => true,
            (_, RigidHead::Const(_, _, _)) => true,
            _ => false,
        };
        if is_const {
            if const_heads_match {
                let r = self.nb_unify_spine(fuel - 1, depth, rigid, sx, sy, Ghost(fx), Ghost(fy))?;
                return Ok(self.answer(r, Ghost(tx), Ghost(ty)));
            }
            return Ok(self.answer(false, Ghost(tx), Ghost(ty)));
        }
        if head_eq(hx, hy) {
            proof {
                assert(fx.same(fy)) by {
                    Term::lemma_same_refl(fx);
                }
                Sig::e_same(g, fx, fy);
            }
            let r = self.nb_unify_spine(fuel - 1, depth, rigid, sx, sy, Ghost(fx), Ghost(fy))?;
                return Ok(self.answer(r, Ghost(tx), Ghost(ty)));
        }
        Ok(self.answer(false, Ghost(tx), Ghost(ty)))
    }

    /// Two folded constants.
    fn nb_unify_unfold(
        &mut self,
        fuel: u32,
        depth: u32,
        rigid: bool,
        x: ValId,
        y: ValId,
        heads_match: bool,
        nx: NamePtr,
        ny: NamePtr,
        sx: SpineId,
        sy: SpineId,
        Ghost(fx): Ghost<Term>,
        Ghost(fy): Ghost<Term>,
    ) -> (r: Result<bool, TcError>)
        requires
            old(self).wf(),
            old(self).v_ok(x),
            old(self).v_ok(y),
            old(self).v(x).bvb() <= depth,
            old(self).v(y).bvb() <= depth,
            old(self).ctx.w@.s_ok(sx),
            old(self).ctx.w@.s_ok(sy),
            old(self).v(x) == ElimT::spine(fx, old(self).ctx.w@.s(sx)),
            old(self).v(y) == ElimT::spine(fy, old(self).ctx.w@.s(sy)),
            heads_match ==> old(self).g().eq(fx, fy),
        ensures
            final(self).wf(),
            final(self).ext(old(self)),
            r matches Ok(true) ==> final(self).g().eq(old(self).v(x), old(self).v(y)),
            r matches Ok(false) ==> final(self).apart(old(self).v(x), old(self).v(y)),
            r matches Ok(false) ==> final(self).tells(old(self), rigid, old(self).v(x), old(self).v(y)),
            r matches Err(err) ==> final(self).accounts(old(self), err),
        decreases fuel,
    {
        if fuel == 0 {
            return Err(self.out_of_depth(0));
        }
        let ghost o = *self;
        let ghost tx = self.v(x);
        let ghost ty = self.v(y);
        proof {
            Sig::steps_refl(o.g(), tx);
            Sig::steps_refl(o.g(), ty);
        }
        if !rigid {
            let b: bool = if heads_match {
                self.nb_unify_spine(fuel - 1, depth, false, sx, sy, Ghost(fx), Ghost(fy))?
            } else {
                false
            };
            let r = self.answer(b, Ghost(tx), Ghost(ty));
            proof {
                assert(o.between(&o, self));
                self.lemma_excused(&o, &o, rigid, x, y);
            }
            return Ok(r);
        }
        if heads_match {
            if self.nb_spine_probe(fuel - 1, depth, sx, sy, Ghost(fx), Ghost(fy))? {
                return Ok(true);
            }
        }
        if self.nb_proof_irrel(fuel - 1, depth, x, y)? {
            return Ok(true);
        }
        let ghost q = *self;
        if heads_match {
            let r = self.nb_unfold_pair(fuel - 1, depth, x, y)?;
            let ghost f = *self;
            let p = self.ctx.nb.probe;
            self.set_probe(Probe { escalate: 0, ..p });
            proof {
                if !r {
                    self.lemma_tells(&f, &q, &o, rigid, tx, ty, tx, ty);
                }
            }
            return Ok(r);
        }
        // Unfold the one whose definition is nearer the leaves, so the two
        // meet at a shared subterm rather than at normal forms.
        let hx = self.nb_hint(nx);
        let hy = self.nb_hint(ny);
        let r: bool = if hx.is_lt(&hy) {
            self.nb_unfold_one(fuel - 1, depth, false, x, y)?
        } else if hy.is_lt(&hx) {
            self.nb_unfold_one(fuel - 1, depth, true, x, y)?
        } else {
            self.nb_unfold_pair(fuel - 1, depth, x, y)?
        };
        proof {
            if !r {
                self.lemma_tells(self, &q, &o, rigid, tx, ty, tx, ty);
            }
        }
        Ok(r)
    }

    /// A folded constant, on the left or on the right, against something else:
    /// unfold it and compare again.
    fn nb_unfold_side(&mut self, fuel: u32, depth: u32, left: bool, x: ValId, y: ValId) -> (r: Result<bool, TcError>)
        requires
            old(self).wf(),
            old(self).v_ok(x),
            old(self).v_ok(y),
            old(self).v(x).bvb() <= depth,
            old(self).v(y).bvb() <= depth,
        ensures
            final(self).wf(),
            final(self).ext(old(self)),
            r matches Ok(true) ==> final(self).g().eq(old(self).v(x), old(self).v(y)),
            r matches Ok(false) ==> final(self).apart(old(self).v(x), old(self).v(y)),
            r matches Ok(false) ==> (!(old(self).ctx.nb.vals@[if left {
                y as int
            } else {
                x as int
            }] is Unfold) ==> final(self).tells(old(self), true, old(self).v(x), old(self).v(y))),
            r matches Err(err) ==> final(self).accounts(old(self), err),
        decreases fuel,
    {
        if fuel == 0 {
            return Err(self.out_of_depth(0));
        }
        let ghost o = *self;
        let ghost tx = self.v(x);
        let ghost ty = self.v(y);
        proof {
            Sig::steps_refl(o.g(), tx);
            Sig::steps_refl(o.g(), ty);
        }
        if self.nb_proof_irrel(fuel - 1, depth, x, y)? {
            return Ok(true);
        }
        let side: ValId = if left {
            x
        } else {
            y
        };
        let ghost s = *self;
        match self.get(side) {
            Value::Unfold { .. } => {},
            _ => {
                let r = self.nb_unify(fuel - 1, depth, true, x, y)?;
                proof {
                    if !r {
                        self.lemma_tells(self, &s, &o, true, tx, ty, tx, ty);
                    }
                }
                return Ok(r);
            },
        }
        let mut z = self.nb_unfold(fuel - 1, depth, side)?;
        if z == side {
            z = self.nb_unfold_demand(fuel - 1, depth, side)?;
            if z == side {
                let r = self.answer(false, Ghost(tx), Ghost(ty));
                proof {
                    assert(s.between(&o, self) && o.between(&o, self));
                    if left {
                        if !(o.ctx.nb.vals@[y as int] is Unfold) {
                            self.lemma_rests(&o, true, &s, x, &o, y);
                        }
                    } else {
                        if !(o.ctx.nb.vals@[x as int] is Unfold) {
                            self.lemma_rests(&o, true, &o, x, &s, y);
                        }
                    }
                }
                return Ok(r);
            }
        }
        let r = self.nb_unify_step(fuel - 1, depth, left, x, y, z)?;
        proof {
            if !r {
                if left {
                    assert(self.came_to(z, y, tx, ty));
                    self.lemma_came(&o, true, x, y, z, y);
                } else {
                    assert(self.came_to(x, z, tx, ty));
                    self.lemma_came(&o, true, x, y, x, z);
                }
            }
        }
        Ok(r)
    }

    /// A recursor or quotient eliminator against something else: fire it and
    /// compare again.
    fn nb_unify_fire(&mut self, fuel: u32, depth: u32, x: ValId, y: ValId) -> (r: Result<bool, TcError>)
        requires
            old(self).wf(),
            old(self).v_ok(x),
            old(self).v_ok(y),
            old(self).v(x).bvb() <= depth,
            old(self).v(y).bvb() <= depth,
        ensures
            final(self).wf(),
            final(self).ext(old(self)),
            r matches Ok(true) ==> final(self).g().eq(old(self).v(x), old(self).v(y)),
            r matches Ok(false) ==> final(self).apart(old(self).v(x), old(self).v(y)),
            r matches Ok(false) ==> (!(old(self).ctx.nb.vals@[y as int] is Unfold) && !(old(self).ctx.nb.vals@[y as int] is Rigid)
                ==> final(self).tells(old(self), true, old(self).v(x), old(self).v(y))),
            r matches Err(err) ==> final(self).accounts(old(self), err),
        decreases fuel,
    {
        if fuel == 0 {
            return Err(self.out_of_depth(0));
        }
        let ghost o = *self;
        let ghost g = self.g();
        let ghost tx = self.v(x);
        let ghost ty = self.v(y);
        if self.nb_proof_irrel(fuel - 1, depth, x, y)? {
            return Ok(true);
        }
        let ghost s = *self;
        proof {
            Sig::steps_refl(g, tx);
            Sig::steps_refl(g, ty);
        }
        match self.get(x) {
            Value::Rigid { .. } => {},
            _ => {
                let r = self.nb_unify(fuel - 1, depth, true, x, y)?;
                proof {
                    if !r {
                        self.lemma_tells(self, &s, &o, true, tx, ty, tx, ty);
                    }
                }
                return Ok(r);
            },
        }
        match self.nb_iota(fuel - 1, depth, x)? {
            Some(x2) => {
                let ghost u = self.v(x2);
                let ghost q = *self;
                let r = self.nb_unify(fuel - 1, depth, true, x2, y)?;
                let ghost f = *self;
                proof {
                    if r {
                        Sig::eq_left(g, tx, u, ty);
                    }
                }
                let r = self.answer(r, Ghost(tx), Ghost(ty));
                proof {
                    if !r {
                        self.lemma_tells(&f, &q, &o, true, tx, ty, u, ty);
                    }
                }
                Ok(r)
            },
            None => {
                let r = self.answer(false, Ghost(tx), Ghost(ty));
                proof {
                    assert(s.between(&o, self) && o.between(&o, self));
                    if !(o.ctx.nb.vals@[y as int] is Unfold) && !(o.ctx.nb.vals@[y as int] is Rigid) {
                        self.lemma_rests(&o, true, &s, x, &o, y);
                    }
                }
                Ok(r)
            },
        }
    }

    /// Unfold `x` if `left`, else `y`, and compare again.  If that side turns
    /// out not to unfold, try the other.
    fn nb_unfold_one(&mut self, fuel: u32, depth: u32, left: bool, x: ValId, y: ValId) -> (r: Result<bool, TcError>)
        requires
            old(self).wf(),
            old(self).v_ok(x),
            old(self).v_ok(y),
            old(self).v(x).bvb() <= depth,
            old(self).v(y).bvb() <= depth,
        ensures
            final(self).wf(),
            final(self).ext(old(self)),
            r matches Ok(true) ==> final(self).g().eq(old(self).v(x), old(self).v(y)),
            r matches Ok(false) ==> final(self).apart(old(self).v(x), old(self).v(y)),
            r matches Ok(false) ==> final(self).tells(old(self), true, old(self).v(x), old(self).v(y)),
            r matches Err(err) ==> final(self).accounts(old(self), err),
        decreases fuel,
    {
        if fuel == 0 {
            return Err(self.out_of_depth(0));
        }
        let ghost g = self.g();
        let (first, second): (ValId, ValId) = if left {
            (x, y)
        } else {
            (y, x)
        };
        let ghost o = *self;
        let ghost tx = self.v(x);
        let ghost ty = self.v(y);
        proof {
            Sig::steps_refl(g, tx);
            Sig::steps_refl(g, ty);
        }
        match self.get(first) {
            Value::Unfold { .. } => {},
            _ => {
                return self.nb_unify(fuel - 1, depth, true, x, y);
            },
        }
        let f2 = self.nb_unfold(fuel - 1, depth, first)?;
        if f2 != first {
            return self.nb_unify_moved(fuel - 1, depth, left, x, y, f2, Ghost(o));
        }
        let ghost s = *self;
        let s2 = self.nb_unfold(fuel - 1, depth, second)?;
        if s2 != second {
            return self.nb_unify_moved(fuel - 1, depth, !left, x, y, s2, Ghost(o));
        }
        let d2 = self.nb_unfold_demand(fuel - 1, depth, first)?;
        if d2 == first {
            let r = self.answer(false, Ghost(self.v(x)), Ghost(self.v(y)));
            proof {
                assert(s.between(&o, self) && o.between(&o, self));
                if left {
                    self.lemma_rests(&o, true, &o, x, &s, y);
                } else {
                    self.lemma_rests(&o, true, &s, x, &o, y);
                }
            }
            return Ok(r);
        }
        self.nb_unify_moved(fuel - 1, depth, left, x, y, d2, Ghost(o))
    }

    /// Compare again once the left side, or the right one, has moved on to `z`
    /// since `o`.
    fn nb_unify_moved(
        &mut self,
        fuel: u32,
        depth: u32,
        left: bool,
        x: ValId,
        y: ValId,
        z: ValId,
        Ghost(o): Ghost<TypeChecker>,
    ) -> (r: Result<bool, TcError>)
        requires
            old(self).wf(),
            o.wf(),
            old(self).ext(&o),
            o.v_ok(x),
            o.v_ok(y),
            o.v(x).bvb() <= depth,
            o.v(y).bvb() <= depth,
            old(self).v_ok(z),
            left ==> z != x && old(self).g().steps(o.v(x), old(self).v(z)),
            !left ==> z != y && old(self).g().steps(o.v(y), old(self).v(z)),
        ensures
            final(self).wf(),
            final(self).ext(old(self)),
            r matches Ok(true) ==> final(self).g().eq(o.v(x), o.v(y)),
            r matches Ok(false) ==> final(self).apart(o.v(x), o.v(y)),
            r matches Ok(false) ==> final(self).tells(&o, true, o.v(x), o.v(y)),
            r matches Err(err) ==> final(self).accounts(old(self), err),
        decreases fuel,
    {
        if fuel == 0 {
            return Err(self.out_of_depth(0));
        }
        let ghost tx = self.v(x);
        let ghost ty = self.v(y);
        proof {
            Sig::steps_refl(o.g(), tx);
            Sig::steps_refl(o.g(), ty);
        }
        let r = self.nb_unify_step(fuel - 1, depth, left, x, y, z)?;
        proof {
            if !r {
                if left {
                    assert(self.came_to(z, y, tx, ty));
                    self.lemma_came(&o, true, x, y, z, y);
                } else {
                    assert(self.came_to(x, z, tx, ty));
                    self.lemma_came(&o, true, x, y, x, z);
                }
            }
        }
        Ok(r)
    }

    /// Compare again once the left side, or the right one, has stepped to `z`.
    fn nb_unify_step(&mut self, fuel: u32, depth: u32, left: bool, x: ValId, y: ValId, z: ValId)
        -> (r: Result<bool, TcError>)
        requires
            old(self).wf(),
            old(self).v_ok(x),
            old(self).v_ok(y),
            old(self).v(x).bvb() <= depth,
            old(self).v(y).bvb() <= depth,
            old(self).v_ok(z),
            left ==> old(self).g().steps(old(self).v(x), old(self).v(z)),
            !left ==> old(self).g().steps(old(self).v(y), old(self).v(z)),
        ensures
            final(self).wf(),
            final(self).ext(old(self)),
            r matches Ok(true) ==> final(self).g().eq(old(self).v(x), old(self).v(y)),
            r matches Ok(false) ==> final(self).apart(old(self).v(x), old(self).v(y)),
            r matches Ok(false) ==> (if left {
                final(self).unlike(z, y)
            } else {
                final(self).unlike(x, z)
            }),
            r matches Err(err) ==> final(self).accounts(old(self), err),
        decreases fuel,
    {
        if fuel == 0 {
            return Err(self.out_of_depth(0));
        }
        let ghost g = self.g();
        let ghost tx = self.v(x);
        let ghost ty = self.v(y);
        let ghost tz = self.v(z);
        if left {
            let r = self.nb_unify(fuel - 1, depth, true, z, y)?;
            proof {
                if r {
                    Sig::eq_left(g, tx, tz, ty);
                }
            }
            Ok(self.answer(r, Ghost(tx), Ghost(ty)))
        } else {
            let r = self.nb_unify(fuel - 1, depth, true, x, z)?;
            proof {
                if r {
                    Sig::eq_right(g, tx, ty, tz);
                }
            }
            Ok(self.answer(r, Ghost(tx), Ghost(ty)))
        }
    }

    fn nb_unfold_pair(&mut self, fuel: u32, depth: u32, x: ValId, y: ValId) -> (r: Result<bool, TcError>)
        requires
            old(self).wf(),
            old(self).v_ok(x),
            old(self).v_ok(y),
            old(self).v(x).bvb() <= depth,
            old(self).v(y).bvb() <= depth,
        ensures
            final(self).wf(),
            final(self).ext(old(self)),
            r matches Ok(true) ==> final(self).g().eq(old(self).v(x), old(self).v(y)),
            r matches Ok(false) ==> final(self).apart(old(self).v(x), old(self).v(y)),
            r matches Ok(false) ==> final(self).tells(old(self), true, old(self).v(x), old(self).v(y)),
            r matches Err(err) ==> final(self).accounts(old(self), err),
        decreases fuel,
    {
        if fuel == 0 {
            return Err(self.out_of_depth(0));
        }
        let ghost g = self.g();
        let ghost tx = self.v(x);
        let ghost ty = self.v(y);
        let ghost o = *self;
        match self.get(x) {
            Value::Unfold { .. } => {},
            _ => {
                return self.nb_unify(fuel - 1, depth, true, x, y);
            },
        }
        let mut x2 = self.nb_unfold(fuel - 1, depth, x)?;
        let ghost s = *self;
        let mut y2 = self.nb_unfold(fuel - 1, depth, y)?;
        if x2 == x && y2 == y {
            x2 = self.nb_unfold_demand(fuel - 1, depth, x)?;
            y2 = self.nb_unfold_demand(fuel - 1, depth, y)?;
            if x2 == x && y2 == y {
                let r = self.answer(false, Ghost(tx), Ghost(ty));
                proof {
                    assert(s.between(&o, self) && o.between(&o, self));
                    self.lemma_rests(&o, true, &o, x, &s, y);
                }
                return Ok(r);
            }
        }
        let ghost ux = self.v(x2);
        let ghost uy = self.v(y2);
        let r = self.nb_unify(fuel - 1, depth, true, x2, y2)?;
        proof {
            if r {
                Sig::e_red(g, tx, ux, ty, uy);
            }
        }
        let r = self.answer(r, Ghost(tx), Ghost(ty));
        proof {
            if !r {
                assert(self.came_to(x2, y2, tx, ty));
                self.lemma_came(&o, true, x, y, x2, y2);
            }
        }
        Ok(r)
    }

    fn nb_unify_iota(
        &mut self,
        fuel: u32,
        depth: u32,
        rigid: bool,
        x: ValId,
        y: ValId,
        heads_match: bool,
        sx: SpineId,
        sy: SpineId,
        Ghost(fx): Ghost<Term>,
        Ghost(fy): Ghost<Term>,
    ) -> (r: Result<bool, TcError>)
        requires
            old(self).wf(),
            old(self).v_ok(x),
            old(self).v_ok(y),
            old(self).v(x).bvb() <= depth,
            old(self).v(y).bvb() <= depth,
            old(self).ctx.w@.s_ok(sx),
            old(self).ctx.w@.s_ok(sy),
            old(self).v(x) == ElimT::spine(fx, old(self).ctx.w@.s(sx)),
            old(self).v(y) == ElimT::spine(fy, old(self).ctx.w@.s(sy)),
            heads_match ==> old(self).g().eq(fx, fy),
        ensures
            final(self).wf(),
            final(self).ext(old(self)),
            r matches Ok(true) ==> final(self).g().eq(old(self).v(x), old(self).v(y)),
            r matches Ok(false) ==> final(self).apart(old(self).v(x), old(self).v(y)),
            r matches Ok(false) ==> final(self).tells(old(self), rigid, old(self).v(x), old(self).v(y)),
            r matches Err(err) ==> final(self).accounts(old(self), err),
        decreases fuel,
    {
        if fuel == 0 {
            return Err(self.out_of_depth(0));
        }
        let ghost g = self.g();
        let ghost tx = self.v(x);
        let ghost ty = self.v(y);
        let ghost o = *self;
        proof {
            Sig::steps_refl(g, tx);
            Sig::steps_refl(g, ty);
        }
        if !rigid {
            let b: bool = if heads_match {
                self.nb_unify_spine(fuel - 1, depth, false, sx, sy, Ghost(fx), Ghost(fy))?
            } else {
                false
            };
            let r = self.answer(b, Ghost(tx), Ghost(ty));
            proof {
                assert(o.between(&o, self));
                self.lemma_excused(&o, &o, rigid, x, y);
            }
            return Ok(r);
        }
        if heads_match {
            if self.nb_spine_probe(fuel - 1, depth, sx, sy, Ghost(fx), Ghost(fy))? {
                return Ok(true);
            }
        }
        if self.nb_proof_irrel(fuel - 1, depth, x, y)? {
            return Ok(true);
        }
        let ghost s1 = *self;
        let nx = self.get(x);
        let fired_x = self.nb_iota(fuel - 1, depth, x)?;
        let x2: ValId = match fired_x {
            Some(z) => z,
            None => x,
        };
        let ghost s2 = *self;
        let ny = self.get(y);
        let fired_y = self.nb_iota(fuel - 1, depth, y)?;
        let y2: ValId = match fired_y {
            Some(z) => z,
            None => y,
        };
        // two neutrals, one of which can fire, are what this is about
        let neutral: bool = match (nx, ny) {
            (Value::Rigid { head: a, .. }, Value::Rigid { head: b, .. }) => is_iota_head(a) || is_iota_head(b),
            _ => false,
        };
        if fired_x.is_some() || fired_y.is_some() || !neutral {
            let ghost ux = self.v(x2);
            let ghost uy = self.v(y2);
            let ghost q = *self;
            let r = self.nb_unify(fuel - 1, depth, true, x2, y2)?;
            let ghost f = *self;
            proof {
                if r {
                    Sig::e_red(g, tx, ux, ty, uy);
                }
            }
            let p = self.ctx.nb.probe;
            self.set_probe(Probe { escalate: 0, ..p });
            let r = self.answer(r, Ghost(tx), Ghost(ty));
            proof {
                if !r {
                    self.lemma_tells(&f, &q, &o, rigid, tx, ty, ux, uy);
                }
            }
            return Ok(r);
        }
        let b: bool = if heads_match {
            self.nb_unify_spine(fuel - 1, depth, true, sx, sy, Ghost(fx), Ghost(fy))?
        } else {
            false
        };
        let r = self.answer(b, Ghost(tx), Ghost(ty));
        proof {
            assert(s1.between(&o, self) && s2.between(&o, self));
            if !r {
                self.lemma_rests(&o, rigid, &s1, x, &s2, y);
            }
        }
        Ok(r)
    }

    /// Compare the arguments of two applications of one constant, recording
    /// failures apart so that they are dropped when the guess is.
    fn nb_spine_probe(&mut self, fuel: u32, depth: u32, sx: SpineId, sy: SpineId, Ghost(fx): Ghost<Term>,
        Ghost(fy): Ghost<Term>) -> (r: Result<
        bool,
        TcError,
    >)
        requires
            old(self).wf(),
            old(self).ctx.w@.s_ok(sx),
            old(self).ctx.w@.s_ok(sy),
            old(self).g().eq(fx, fy),
            ElimT::spine(fx, old(self).ctx.w@.s(sx)).bvb() <= depth,
            ElimT::spine(fy, old(self).ctx.w@.s(sy)).bvb() <= depth,
        ensures
            final(self).wf(),
            final(self).ext(old(self)),
            r matches Ok(true) ==> final(self).g().eq(ElimT::spine(fx, old(self).ctx.w@.s(sx)),
                ElimT::spine(fy, old(self).ctx.w@.s(sy))),
            // a pair that failed before is not compared again
            fuel > 0 && old(self).ctx.nb.memo.probe_fail@.contains_key(
                (if sx < sy {
                    sx
                } else {
                    sy
                }, if sx < sy {
                    sy
                } else {
                    sx
                }, 0, 0),
            ) ==> r == Ok::<bool, TcError>(false) && *final(self) == *old(self),
            r matches Err(err) ==> final(self).accounts(old(self), err),
        decreases fuel,
    {
        if fuel == 0 {
            return Err(self.out_of_depth(0));
        }
        let (lo, hi): (SpineId, SpineId) = if sx < sy {
            (sx, sy)
        } else {
            (sy, sx)
        };
        if self.ctx.nb.memo.probe_fail.get((lo, hi, 0, 0)).is_some() {
            return Ok(false);
        }
        let p = self.ctx.nb.probe;
        if p.depth == u32::MAX {
            return Err(self.out_of_depth(0));
        }
        let outer: bool = p.depth == 0;
        let mut granted: u64 = 0;
        if outer {
            // An aborted probe hands its doubled grant one step down the
            // unfold chain; an independent probe starts at the base again.
            granted = if p.escalate > 0 {
                p.escalate
            } else {
                SPEC_BUDGET
            };
            self.set_probe(Probe { fuel: granted, escalate: 0, aborted: false, depth: 1, ..p });
        } else {
            self.set_probe(Probe { depth: p.depth + 1, ..p });
        }
        let r = self.nb_unify_spine(fuel - 1, depth, true, sx, sy, Ghost(fx), Ghost(fy));
        let p = self.ctx.nb.probe;
        let d: u32 = if p.depth > 0 {
            p.depth - 1
        } else {
            0
        };
        self.set_probe(Probe { depth: d, ..p });
        if d == 0 {
            self.drop_conv_neg_probe();
            // an exhausted comparison produced no answer
            if p.aborted {
                let next: u64 = if granted >= ESCALATE_CAP / 2 {
                    ESCALATE_CAP
                } else {
                    granted * 2
                };
                self.tick(SPEC_ABORT);
                self.note_probe_fail(lo, hi, true);
                let p = self.ctx.nb.probe;
                self.set_probe(Probe { aborted: false, escalate: next, ..p });
                return Ok(false);
            }
            if let Ok(false) = r {
                self.note_probe_fail(lo, hi, true);
            }
        }
        r
    }

    fn nb_unify_spine(&mut self, fuel: u32, depth: u32, rigid: bool, sx: SpineId, sy: SpineId, Ghost(fx): Ghost<Term>,
        Ghost(fy): Ghost<Term>) -> (r: Result<
        bool,
        TcError,
    >)
        requires
            old(self).wf(),
            old(self).ctx.w@.s_ok(sx),
            old(self).ctx.w@.s_ok(sy),
            old(self).g().eq(fx, fy),
            ElimT::spine(fx, old(self).ctx.w@.s(sx)).bvb() <= depth,
            ElimT::spine(fy, old(self).ctx.w@.s(sy)).bvb() <= depth,
        ensures
            final(self).wf(),
            final(self).ext(old(self)),
            r matches Ok(true) ==> final(self).g().eq(ElimT::spine(fx, old(self).ctx.w@.s(sx)),
                ElimT::spine(fy, old(self).ctx.w@.s(sy))),
            r matches Ok(false) ==> final(self).spines_apart(old(self).ctx.w@.s(sx), old(self).ctx.w@.s(sy)),
            r matches Err(err) ==> final(self).accounts(old(self), err),
        decreases fuel,
    {
        if fuel == 0 {
            return Err(self.out_of_depth(0));
        }
        if self.spine_len(sx) != self.spine_len(sy) {
            return Ok(false);
        }
        self.nb_unify_spine_go(fuel - 1, depth, rigid, sx, sy, Ghost(fx), Ghost(fy))
    }

    /// Walk two equal-length spines innermost elimination first.  Spines are
    /// interned, so a shared prefix is the same spine and one comparison
    /// settles all of it.
    fn nb_unify_spine_go(
        &mut self,
        fuel: u32,
        depth: u32,
        rigid: bool,
        sx: SpineId,
        sy: SpineId,
        Ghost(fx): Ghost<Term>,
        Ghost(fy): Ghost<Term>,
    ) -> (r: Result<bool, TcError>)
        requires
            old(self).wf(),
            old(self).ctx.w@.s_ok(sx),
            old(self).ctx.w@.s_ok(sy),
            old(self).g().eq(fx, fy),
            ElimT::spine(fx, old(self).ctx.w@.s(sx)).bvb() <= depth,
            ElimT::spine(fy, old(self).ctx.w@.s(sy)).bvb() <= depth,
        ensures
            final(self).wf(),
            final(self).ext(old(self)),
            r matches Ok(true) ==> final(self).g().eq(ElimT::spine(fx, old(self).ctx.w@.s(sx)),
                ElimT::spine(fy, old(self).ctx.w@.s(sy))),
            r matches Ok(false) ==> final(self).spines_apart(old(self).ctx.w@.s(sx), old(self).ctx.w@.s(sy)),
            r matches Err(err) ==> final(self).accounts(old(self), err),
        decreases fuel,
    {
        if fuel == 0 {
            return Err(self.out_of_depth(0));
        }
        let ghost g = self.g();
        let ghost ex = self.ctx.w@.s(sx);
        let ghost ey = self.ctx.w@.s(sy);
        if sx == sy {
            proof {
                Sig::eq_spine(g, fx, fy, ex);
            }
            return Ok(true);
        }
        let nx = self.spine_node(sx);
        let ny = self.spine_node(sy);
        if sx == SPINE_EMPTY || sy == SPINE_EMPTY {
            return Ok(false);
        }
        let ghost px = self.ctx.w@.s(nx.parent);
        let ghost py = self.ctx.w@.s(ny.parent);
        let ghost a = ElimT::spine(fx, px);
        let ghost b = ElimT::spine(fy, py);
        proof {
            ElimT::lemma_spine_push(fx, px, self.ctx.w@.elim(nx.elim));
            ElimT::lemma_spine_push(fy, py, self.ctx.w@.elim(ny.elim));
        }
        if !self.nb_unify_spine_go(fuel - 1, depth, rigid, nx.parent, ny.parent, Ghost(fx), Ghost(fy))? {
            proof {
                if ex.len() == ey.len() {
                    let i = choose|i: int| 0 <= i < px.len() && #[trigger] self.elims_apart(px[i], py[i]);
                    assert(self.elims_apart(ex[i], ey[i]));
                }
            }
            return Ok(false);
        }
        let ghost last = px.len() as int;
        let ghost (eu, ev) = (self.ctx.w@.elim(nx.elim), self.ctx.w@.elim(ny.elim));
        match (nx.elim, ny.elim) {
            (Elim::App(u), Elim::App(v)) => {
                let ghost tu = self.v(u);
                let ghost tv = self.v(v);
                let r = self.nb_unify(fuel - 1, depth, rigid, u, v)?;
                proof {
                    if r {
                        Sig::e_app(g, a, tu, b, tv);
                    } else if ex.len() == ey.len() {
                        assert(self.elims_apart(ex[last], ey[last]));
                    }
                }
                Ok(r)
            },
            (Elim::Proj { ty_name: tx, idx: ix }, Elim::Proj { ty_name: ty, idx: iy }) => {
                proof {
                    if tx == ty && ix == iy {
                        Sig::e_proj(g, tx, ix as nat, a, b);
                    } else if ex.len() == ey.len() {
                        assert(self.elims_apart(ex[last], ey[last]));
                    }
                }
                Ok(tx == ty && ix == iy)
            },
            _ => {
                proof {
                    if ex.len() == ey.len() {
                        assert(self.elims_apart(ex[last], ey[last]));
                    }
                }
                Ok(false)
            },
        }
    }

    /// How eagerly a constant is unfolded.
    pub fn nb_hint(&self, name: NamePtr) -> (r: ReducibilityHint)
        requires
            self.wf(),
        ensures
            match self.env.find(name) {
                Some(Declar::Definition { hint, .. }) => r == hint,
                _ => r is Opaque,
            },
    {
        proof {
            self.lemma_env();
        }
        match self.env.get_declar(name) {
            Some(Declar::Definition { hint, .. }) => *hint,
            _ => ReducibilityHint::Opaque,
        }
    }

    // ---- proof irrelevance ----

    /// Two proofs of one proposition are equal.
    fn nb_proof_irrel(&mut self, fuel: u32, depth: u32, x: ValId, y: ValId) -> (r: Result<bool, TcError>)
        requires
            old(self).wf(),
            old(self).v_ok(x),
            old(self).v_ok(y),
            old(self).v(x).bvb() <= depth,
            old(self).v(y).bvb() <= depth,
        ensures
            final(self).wf(),
            final(self).ext(old(self)),
            r matches Ok(true) ==> final(self).g().eq(old(self).v(x), old(self).v(y)),
            r matches Ok(false) ==> final(self).unproved(x, y) && final(self).irrel_fails(old(self), x, y),
            r matches Err(err) ==> final(self).accounts(old(self), err),
        decreases fuel,
    {
        if fuel == 0 {
            return Err(self.out_of_depth(0));
        }
        let ghost o = *self;
        let r = self.nb_proof_irrel_go(fuel - 1, depth, x, y)?;
        if !r {
            let ghost f = *self;
            self.unprove(x, y, Ghost(o));
            proof {
                self.lemma_irrel_grow(&f, &o, x, y);
            }
        }
        Ok(r)
    }

    fn nb_proof_irrel_go(&mut self, fuel: u32, depth: u32, x: ValId, y: ValId) -> (r: Result<bool, TcError>)
        requires
            old(self).wf(),
            old(self).v_ok(x),
            old(self).v_ok(y),
            old(self).v(x).bvb() <= depth,
            old(self).v(y).bvb() <= depth,
        ensures
            final(self).wf(),
            final(self).ext(old(self)),
            r matches Ok(true) ==> final(self).g().eq(old(self).v(x), old(self).v(y)),
            r matches Ok(false) ==> final(self).irrel_fails(old(self), x, y),
            r matches Err(err) ==> final(self).accounts(old(self), err),
        decreases fuel,
    {
        if fuel == 0 {
            return Err(self.out_of_depth(0));
        }
        let ghost g = self.g();
        let ghost a = self.v(x);
        let ghost b = self.v(y);
        let vx = self.get(x);
        let vy = self.get(y);
        match (vx, vy) {
            (Value::Lam { .. }, _) => {
                return self.nb_proof_irrel_lam(fuel - 1, depth, x, y, x);
            },
            (_, Value::Lam { .. }) => {
                return self.nb_proof_irrel_lam(fuel - 1, depth, x, y, y);
            },
            _ => {},
        }
        match vx {
            Value::Rigid { .. } => {},
            Value::Unfold { .. } => {},
            _ => {
                return Ok(false);
            },
        }
        match vy {
            Value::Rigid { .. } => {},
            Value::Unfold { .. } => {},
            _ => {
                return Ok(false);
            },
        }
        let tx = self.nb_type(fuel - 1, depth, x)?;
        let ghost ta = self.v(tx);
        let la = match self.nb_is_prop(fuel - 1, depth, tx)? {
            Some(l) => l,
            None => {
                proof {
                    assert(self.types(a, tx));
                }
                return Ok(false);
            },
        };
        let ghost ua = self.ctx.st.l(la);
        let ty = self.nb_type(fuel - 1, depth, y)?;
        let ghost tb = self.v(ty);
        let lb = match self.nb_is_prop(fuel - 1, depth, ty)? {
            Some(l) => l,
            None => {
                proof {
                    assert(self.types(a, tx) && self.types(b, ty));
                }
                return Ok(false);
            },
        };
        let ghost ub = self.ctx.st.l(lb);
        let r = self.nb_unify(fuel - 1, depth, true, tx, ty)?;
        proof {
            if r {
                Sig::e_irrel(g, a, ta, ua, b, tb, ub);
            } else {
                assert(self.types(a, tx) && self.types(b, ty));
            }
        }
        Ok(r)
    }

    /// A function into a proposition is pointwise a proof, so compare the
    /// two under a fresh variable.
    fn nb_proof_irrel_lam(&mut self, fuel: u32, depth: u32, x: ValId, y: ValId, lam: ValId)
        -> (r: Result<bool, TcError>)
        requires
            old(self).wf(),
            old(self).v_ok(x),
            old(self).v_ok(y),
            old(self).v(x).bvb() <= depth,
            old(self).v(y).bvb() <= depth,
            lam == x || lam == y,
        ensures
            final(self).wf(),
            final(self).ext(old(self)),
            r matches Ok(true) ==> final(self).g().eq(old(self).v(x), old(self).v(y)),
            r matches Ok(false) ==> exists|c: ValId, d: ValId, z: Term| #[trigger]
                final(self).at_argument(c, d, z, old(self).v(x), old(self).v(y)) && final(self).unproved(c, d),
            r matches Err(err) ==> final(self).accounts(old(self), err),
        decreases fuel,
    {
        if fuel == 0 {
            return Err(self.out_of_depth(0));
        }
        if depth == u32::MAX {
            return Err(self.out_of_depth(0));
        }
        let ghost g = self.g();
        let ghost tx = self.v(x);
        let ghost ty = self.v(y);
        let domain = self.nb_lam_domain(fuel - 1, depth, lam)?;
        let fresh = self.nb_fresh(depth, domain)?;
        let ghost z = self.v(fresh);
        let xb = self.nb_apply(fuel - 1, depth + 1, x, fresh)?;
        let ghost a2 = self.v(xb);
        let yb = self.nb_apply(fuel - 1, depth + 1, y, fresh)?;
        let ghost b2 = self.v(yb);
        let r = self.nb_proof_irrel(fuel - 1, depth + 1, xb, yb)?;
        proof {
            if r {
                Sig::e_ext(g, tx, ty, z, a2, b2);
            } else {
                assert(self.at_argument(xb, yb, z, tx, ty));
            }
        }
        Ok(r)
    }

    /// The universe of `ty`, where that is the universe of propositions.
    fn nb_is_prop(&mut self, fuel: u32, depth: u32, ty: ValId) -> (r: Result<Option<LevelPtr>, TcError>)
        requires
            old(self).wf(),
            old(self).v_ok(ty),
            old(self).v(ty).bvb() <= depth,
        ensures
            final(self).wf(),
            final(self).ext(old(self)),
            r matches Ok(Some(l)) ==> final(self).ctx.st.l_ok(l) && final(self).g().univ(
                old(self).v(ty),
                final(self).ctx.st.l(l),
            ) && final(self).ctx.st.l(l).is_zero(),
            r matches Ok(None) ==> final(self).no_prop(old(self).v(ty)),
            r matches Err(err) ==> final(self).accounts(old(self), err),
        decreases fuel,
    {
        if fuel == 0 {
            return Err(self.out_of_depth(0));
        }
        match self.nb_type_level(fuel - 1, depth, ty)? {
            Some(l) => if self.is_zero(l)? {
                Ok(Some(l))
            } else {
                Ok(None)
            },
            None => Ok(None),
        }
    }

    /// Whether the universe of `ty` may be zero: a universe parameter counts,
    /// since an instantiation may send it there.
    pub fn nb_may_be_prop(&mut self, fuel: u32, depth: u32, ty: ValId) -> (r: Result<bool, TcError>)
        requires
            old(self).wf(),
            old(self).v_ok(ty),
            old(self).v(ty).bvb() <= depth,
        ensures
            final(self).wf(),
            final(self).ext(old(self)),
            r matches Ok(true) ==> exists|l: Lvl| #[trigger] final(self).g().univ(old(self).v(ty), l)
                && l.may_be_zero(),
            r matches Err(err) ==> final(self).accounts(old(self), err),
        decreases fuel,
    {
        if fuel == 0 {
            return Err(self.out_of_depth(0));
        }
        match self.nb_type_level(fuel - 1, depth, ty)? {
            Some(l) => {
                proof {
                    self.lemma_base();
                }
                Ok(self.ctx.st.may_be_prop(l))
            },
            None => Ok(false),
        }
    }

    // ---- structures ----

    /// A value of a structure type is the constructor applied to its
    /// projections, and a structure with one field-free constructor has one
    /// value.
    fn nb_struct_eta(&mut self, fuel: u32, depth: u32, x: ValId, y: ValId) -> (r: Result<bool, TcError>)
        requires
            old(self).wf(),
            old(self).v_ok(x),
            old(self).v_ok(y),
            old(self).v(x).bvb() <= depth,
            old(self).v(y).bvb() <= depth,
        ensures
            final(self).wf(),
            final(self).ext(old(self)),
            r matches Ok(true) ==> final(self).g().eq(old(self).v(x), old(self).v(y)),
            r matches Err(err) ==> final(self).accounts(old(self), err),
        decreases fuel,
    {
        if fuel == 0 {
            return Err(self.out_of_depth(0));
        }
        let ghost g = self.g();
        if self.nb_struct_eta_at(fuel - 1, depth, x, y)? {
            return Ok(true);
        }
        let r = self.nb_struct_eta_at(fuel - 1, depth, y, x)?;
        proof {
            if r {
                Sig::e_sym(g, self.v(y), self.v(x));
            }
        }
        Ok(r)
    }

    /// Structure eta, the type read off `x`.
    fn nb_struct_eta_at(&mut self, fuel: u32, depth: u32, x: ValId, y: ValId) -> (r: Result<bool, TcError>)
        requires
            old(self).wf(),
            old(self).v_ok(x),
            old(self).v_ok(y),
            old(self).v(x).bvb() <= depth,
            old(self).v(y).bvb() <= depth,
        ensures
            final(self).wf(),
            final(self).ext(old(self)),
            r matches Ok(true) ==> final(self).g().eq(old(self).v(x), old(self).v(y)),
            r matches Err(err) ==> final(self).accounts(old(self), err),
        decreases fuel,
    {
        if fuel == 0 {
            return Err(self.out_of_depth(0));
        }
        let ghost g = self.g();
        let ghost a = self.v(x);
        let ghost b = self.v(y);
        match self.get(x) {
            Value::Pi { .. } => {
                return Ok(false);
            },
            Value::Lam { .. } => {
                return Ok(false);
            },
            _ => {},
        }
        let ty0 = self.nb_type(fuel - 1, depth, x)?;
        let ghost ta = self.v(ty0);
        let ty = self.nb_whnf(fuel - 1, depth, ty0)?;
        let (ind_name, levels, args) = match self.nb_as_inductive(ty) {
            Some(r) => r,
            None => {
                return Ok(false);
            },
        };
        if self.nb_is_unit(ind_name) {
            proof {
                Sig::e_unit(g, a, ta, ind_name, self.ctx.st.ls(levels), self.vs(args@), b);
            }
            return Ok(true);
        }
        proof {
            self.lemma_env();
        }
        if !self.env.can_be_struct(ind_name) {
            return Ok(false);
        }
        if self.nb_eta_struct(fuel - 1, depth, ind_name, x, y)? {
            return Ok(true);
        }
        let r = self.nb_eta_struct(fuel - 1, depth, ind_name, y, x)?;
        proof {
            if r {
                Sig::e_sym(g, b, a);
            }
        }
        Ok(r)
    }

    /// `y` is a constructor application; compare each of its fields with the
    /// corresponding projection of `x`.
    fn nb_eta_struct(&mut self, fuel: u32, depth: u32, ind_name: NamePtr, x: ValId, y: ValId)
        -> (r: Result<bool, TcError>)
        requires
            old(self).wf(),
            old(self).v_ok(x),
            old(self).v_ok(y),
            old(self).v(x).bvb() <= depth,
            old(self).v(y).bvb() <= depth,
            old(self).g().is_struct(ind_name),
        ensures
            final(self).wf(),
            final(self).ext(old(self)),
            r matches Ok(true) ==> final(self).g().eq(old(self).v(x), old(self).v(y)),
            r matches Err(err) ==> final(self).accounts(old(self), err),
        decreases fuel,
    {
        if fuel == 0 {
            return Err(self.out_of_depth(0));
        }
        let ghost o = *self;
        let ghost g = self.g();
        let ghost a = self.v(x);
        let ghost b = self.v(y);
        let (ctor, levels, spine) = match self.get(y) {
            Value::Rigid { head: RigidHead::Const(ConstKind::Ctor, ctor, levels), spine } => (ctor, levels, spine),
            _ => {
                return Ok(false);
            },
        };
        proof {
            self.lemma_env();
        }
        let (num_params, num_fields): (usize, u32) = match self.env.get_constructor(ctor) {
            Some(cd) => {
                if cd.inductive_name != ind_name {
                    return Ok(false);
                }
                (cd.num_params as usize, cd.num_fields as u32)
            },
            None => {
                return Ok(false);
            },
        };
        let args = match self.spine_args(spine) {
            Some(args) => args,
            None => {
                return Ok(false);
            },
        };
        if args.len() != num_params + num_fields as usize {
            return Ok(false);
        }
        let ghost cls = self.ctx.st.ls(levels);
        let ghost cs = self.vs(args@);
        proof {
            assert(g.decls[ctor] == self.env.find(ctor)->0.g(&self.ctx.st));
            ElimT::lemma_spine_args(Term::Const(ctor, cls), cs);
            Term::lemma_apps_bvb(Term::Const(ctor, cls), cs, depth as nat);
        }
        let total: usize = args.len();
        let mut i: u32 = 0;
        while i < num_fields
            invariant
                o == *old(self),
                o.wf(),
                self.wf(),
                self.ext(&o),
                g == o.g(),
                fuel > 0,
                o.v_ok(x),
                a == o.v(x),
                a.bvb() <= depth,
                i <= num_fields,
                o.vs_ok(args@),
                cs == o.vs(args@),
                args@.len() == num_params + num_fields,
                total == num_params + num_fields,
                Term::bvb_seq(cs, depth as nat),
                forall|j: int| 0 <= j < i ==> #[trigger] g.field_eq(a, cs, ind_name, num_params as nat, j),
            decreases num_fields - i,
        {
            let proj = self.nb_proj(fuel - 1, depth, ind_name, i, x)?;
            let ghost u = self.v(proj);
            proof {
                assert(cs[num_params + i] == self.v(args@[num_params + i]));
            }
            if !self.nb_unify(fuel - 1, depth, true, proj, args[num_params + i as usize])? {
                return Ok(false);
            }
            proof {
                Sig::eq_left(g, Term::proj(ind_name, i as nat, a), u, cs[num_params + i]);
                assert(g.field_eq(a, cs, ind_name, num_params as nat, i as int));
            }
            i += 1;
        }
        proof {
            Sig::e_struct(g, a, ctor, cls, cs);
        }
        Ok(true)
    }

    /// Whether `ind_name` is a structure without fields.
    fn nb_is_unit(&self, ind_name: NamePtr) -> (r: bool)
        requires
            self.wf(),
        ensures
            r ==> self.g().is_struct(ind_name) && self.g().ctor(self.g().ind(ind_name).ctors[0]).num_fields == 0,
    {
        proof {
            self.lemma_env();
        }
        match self.env.get_structure(ind_name, false) {
            Some(ind) => {
                if ind.all_ctor_names.len() == 0 {
                    return false;
                }
                let ctor = ind.all_ctor_names[0];
                match self.env.get_constructor(ctor) {
                    Some(cd) => {
                        proof {
                            assert(self.g().decls[ind_name] == self.env.find(ind_name)->0.g(&self.ctx.st));
                            assert(self.g().decls[ctor] == self.env.find(ctor)->0.g(&self.ctx.st));
                        }
                        cd.num_fields == 0
                    },
                    None => false,
                }
            },
            None => false,
        }
    }

    // ---- the literal extensions ----

    /// `Nat.succ a` and `Nat.succ b` are equal exactly when `a` and `b` are,
    /// which settles a pair of literals-as-constructors without unfolding
    /// either into a tower.
    fn nb_conv_nat(&mut self, fuel: u32, depth: u32, rigid: bool, x: ValId, y: ValId)
        -> (r: Result<Option<bool>, TcError>)
        requires
            old(self).wf(),
            old(self).v_ok(x),
            old(self).v_ok(y),
            old(self).v(x).bvb() <= depth,
            old(self).v(y).bvb() <= depth,
        ensures
            final(self).wf(),
            final(self).ext(old(self)),
            r matches Ok(Some(true)) ==> final(self).g().eq(old(self).v(x), old(self).v(y)),
            r matches Ok(Some(false)) ==> final(self).apart(old(self).v(x), old(self).v(y)),
            r matches Ok(Some(false)) ==> final(self).tells(old(self), rigid, old(self).v(x), old(self).v(y)),
            r matches Ok(Some(false)) ==> final(self).preds_apart(old(self).v(x), old(self).v(y)),
            r matches Err(err) ==> final(self).accounts(old(self), err),
        decreases fuel,
    {
        if fuel == 0 {
            return Err(self.out_of_depth(0));
        }
        let ghost o = *self;
        let ghost g = self.g();
        let ghost tx = self.v(x);
        let ghost ty = self.v(y);
        if !self.nb_may_be_nat(x) && !self.nb_may_be_nat(y) {
            return Ok(None);
        }
        if let (Value::NatLit { .. }, Value::NatLit { .. }) = (self.get(x), self.get(y)) {
            return Ok(None);
        }
        let xz = self.nb_is_nat_zero(x);
        let yz = self.nb_is_nat_zero(y);
        if xz && yz {
            proof {
                Sig::eq_refl(g, Term::Nat(0));
                Sig::e_red(g, tx, Term::Nat(0), ty, Term::Nat(0));
            }
            return Ok(Some(true));
        }
        let px = self.nb_nat_pred(x)?;
        let py = self.nb_nat_pred(y)?;
        match (px, py) {
            (Some((a, lx)), Some((b, ly))) => {
                let ghost ta = self.v(a);
                let ghost tb = self.v(b);
                let r = self.nb_unify(fuel - 1, depth, rigid, a, b)?;
                let ghost f = *self;
                proof {
                    self.lemma_base();
                    if !r {
                        Sig::steps_refl(g, tx);
                        Sig::steps_refl(g, ty);
                        assert(self.came_down(a, b, lx@, ly@, tx, ty));
                        assert(self.preds_apart(tx, ty));
                        self.lemma_came_down(&o, rigid, x, y, a, b, lx@, ly@);
                    }
                    if r {
                        let n = g.names@.nat_succ->0;
                        Sig::e_succ(g, n, lx@, ly@, ta, tb);
                        Sig::e_red(
                            g,
                            tx,
                            Term::app(Term::Const(n, lx@), ta),
                            ty,
                            Term::app(Term::Const(n, ly@), tb),
                        );
                    }
                }
                let r = self.answer(r, Ghost(tx), Ghost(ty));
                proof {
                    if !r {
                        self.lemma_tells(&f, &o, &o, rigid, tx, ty, tx, ty);
                        self.lemma_moved_grow(&f, tx, ty, x, y);
                    }
                }
                Ok(Some(r))
            },
            _ => Ok(None),
        }
    }

    /// A string literal and the constructor application it denotes stand
    /// for the same string, so `"ab"` meets `String.mk ['a', 'b']` as the
    /// list of characters it spells out.
    fn nb_conv_str(&mut self, fuel: u32, depth: u32, rigid: bool, x: ValId, y: ValId)
        -> (r: Result<Option<bool>, TcError>)
        requires
            old(self).wf(),
            old(self).v_ok(x),
            old(self).v_ok(y),
            old(self).v(x).bvb() <= depth,
            old(self).v(y).bvb() <= depth,
        ensures
            final(self).wf(),
            final(self).ext(old(self)),
            r matches Ok(Some(true)) ==> final(self).g().eq(old(self).v(x), old(self).v(y)),
            r matches Ok(Some(false)) ==> final(self).apart(old(self).v(x), old(self).v(y)),
            r matches Ok(Some(false)) ==> final(self).tells(old(self), rigid, old(self).v(x), old(self).v(y)),
            r matches Ok(Some(_)) ==> old(self).v(x) is Str || old(self).v(y) is Str,
            r matches Err(err) ==> final(self).accounts(old(self), err),
        decreases fuel,
    {
        if fuel == 0 {
            return Err(self.out_of_depth(0));
        }
        let ghost o = *self;
        let ghost g = self.g();
        match (self.get(x), self.get(y)) {
            (Value::StrLit { .. }, Value::StrLit { .. }) => Ok(None),
            (Value::StrLit { ptr }, _) => self.nb_conv_str_lit(fuel - 1, depth, rigid, x, ptr, y),
            (_, Value::StrLit { ptr }) => {
                let r = self.nb_conv_str_lit(fuel - 1, depth, rigid, y, ptr, x)?;
                proof {
                    if r == Some(true) {
                        Sig::e_sym(g, self.v(y), self.v(x));
                    }
                }
                match r {
                    Some(b) => {
                        let ghost f = *self;
                        let ghost tx = self.v(x);
                        let ghost ty = self.v(y);
                        let c = self.answer(b, Ghost(tx), Ghost(ty));
                        proof {
                            if !c {
                                f.lemma_tells_back(&o, rigid, tx, ty);
                                Sig::steps_refl(g, tx);
                                Sig::steps_refl(g, ty);
                                self.lemma_tells(&f, &o, &o, rigid, tx, ty, tx, ty);
                            }
                        }
                        Ok(Some(c))
                    },
                    None => Ok(None),
                }
            },
            _ => Ok(None),
        }
    }

    /// The string literal `x` against `y`.
    fn nb_conv_str_lit(&mut self, fuel: u32, depth: u32, rigid: bool, x: ValId, ptr: crate::expr::StringPtr, y: ValId)
        -> (r: Result<
        Option<bool>,
        TcError,
    >)
        requires
            old(self).wf(),
            old(self).v_ok(x),
            old(self).v_ok(y),
            old(self).v(x).bvb() <= depth,
            old(self).v(y).bvb() <= depth,
            old(self).ctx.st.s_ok(ptr),
            old(self).v(x) == Term::Str(old(self).ctx.st.s(ptr)),
        ensures
            final(self).wf(),
            final(self).ext(old(self)),
            r matches Ok(Some(true)) ==> final(self).g().eq(old(self).v(x), old(self).v(y)),
            r matches Ok(Some(false)) ==> final(self).apart(old(self).v(x), old(self).v(y)),
            r matches Ok(Some(false)) ==> final(self).tells(old(self), rigid, old(self).v(x), old(self).v(y)),
            r matches Err(err) ==> final(self).accounts(old(self), err),
        decreases fuel,
    {
        if fuel == 0 {
            return Err(self.out_of_depth(0));
        }
        let ghost o = *self;
        let ghost g = self.g();
        let ghost tx = self.v(x);
        let ghost ty = self.v(y);
        if !self.nb_is_string_ctor(y) {
            return Ok(None);
        }
        let c = match self.nb_str_to_ctor(fuel - 1, depth, ptr)? {
            Some(c) => c,
            None => {
                return Ok(None);
            },
        };
        let ghost u = self.v(c);
        let ghost q = *self;
        let r = self.nb_unify(fuel - 1, depth, rigid, c, y)?;
        let ghost f = *self;
        proof {
            if r {
                Sig::eq_left(g, tx, u, ty);
            }
        }
        let r = self.answer(r, Ghost(tx), Ghost(ty));
        proof {
            if !r {
                Sig::steps_refl(g, ty);
                self.lemma_tells(&f, &q, &o, rigid, tx, ty, u, ty);
            }
        }
        Ok(Some(r))
    }

    /// Whether a constructor of `String` heads a value.
    fn nb_is_string_ctor(&self, v: ValId) -> (r: bool)
        requires
            self.wf(),
            self.v_ok(v),
        ensures
            r ==> exists|n: NamePtr, ls: Seq<Lvl>, es: Seq<ElimT>|
                self.v(v) == #[trigger] ElimT::spine(Term::Const(n, ls), es) && (self.ctx.names@.string_mk == Some(n)
                    || self.ctx.names@.string_of_list == Some(n)),
    {
        let (name, levels, spine) = match self.get(v) {
            Value::Rigid { head: RigidHead::Const(_, name, levels), spine } => (name, levels, spine),
            Value::Unfold { name, levels, spine, .. } => (name, levels, spine),
            _ => {
                return false;
            },
        };
        proof {
            assert(self.v(v) == ElimT::spine(Term::Const(name, self.ctx.st.ls(levels)), self.ctx.w@.s(spine)));
        }
        self.is_name(self.ctx.names.get().string_mk, name) || self.is_name(self.ctx.names.get().string_of_list, name)
    }

    /// Whether a value is a literal or headed by a constructor of `Nat`.
    fn nb_may_be_nat(&self, v: ValId) -> (r: bool)
        requires
            self.wf(),
            self.v_ok(v),
        ensures
            self.v(v) is Nat ==> r || self.ctx.nb.vals@[v as int] is Thunk,
    {
        match self.get(v) {
            Value::NatLit { .. } => true,
            Value::Rigid { head, spine } => {
                proof {
                    ElimT::lemma_spine_not_lit(self.ctx.w@.head(&self.ctx.st, head), self.ctx.w@.s(spine));
                }
                match head {
                    RigidHead::Const(ConstKind::Ctor, name, _) => self.is_name(self.ctx.names.get().nat_zero, name)
                        || self.is_name(self.ctx.names.get().nat_succ, name),
                    _ => false,
                }
            },
            Value::Unfold { name, levels, spine, .. } => {
                proof {
                    ElimT::lemma_spine_not_lit(Term::Const(name, self.ctx.st.ls(levels)), self.ctx.w@.s(spine));
                }
                false
            },
            _ => false,
        }
    }

    /// Whether a value is `Nat.zero` or the literal 0.
    fn nb_is_nat_zero(&self, v: ValId) -> (r: bool)
        requires
            self.wf(),
            self.v_ok(v),
        ensures
            r ==> self.g().red(self.v(v), Term::Nat(0)),
    {
        proof {
            self.lemma_base();
        }
        match self.get(v) {
            Value::Rigid { head: RigidHead::Const(ConstKind::Ctor, name, levels), spine } => {
                let r = self.is_name(self.ctx.names.get().nat_zero, name) && self.spine_len(spine) == 0;
                proof {
                    if r {
                        Sig::r_zero(self.g(), name, self.ctx.st.ls(levels));
                    }
                }
                r
            },
            Value::NatLit { ptr } => {
                let n = self.read_bignum(ptr);
                proof {
                    Sig::steps_refl(self.g(), self.v(v));
                }
                n.is_zero()
            },
            _ => false,
        }
    }

    /// The predecessor of a successor: of an application of `Nat.succ`, or of a
    /// positive literal.
    fn nb_nat_pred(&mut self, v: ValId) -> (r: Result<Option<(ValId, Ghost<Seq<Lvl>>)>, TcError>)
        requires
            old(self).wf(),
            old(self).v_ok(v),
        ensures
            final(self).wf(),
            final(self).ext(old(self)),
            r matches Ok(Some(p))
                ==> final(self).v_ok(p.0) && final(self).ctx.names@.nat_succ is Some
                && final(self).v(p.0).bvb() <= old(self).v(v).bvb() && final(self).g().red(
                old(self).v(v),
                Term::app(Term::Const(final(self).ctx.names@.nat_succ->0, p.1@), final(self).v(p.0)),
            ),
            r matches Err(err) ==> err == TcError::Full,
            r matches Err(err) ==> !(err is Reject) && final(self).ran_out(old(self)),
    {
        let ghost g = self.g();
        let ghost t = self.v(v);
        proof {
            self.lemma_base();
            Sig::steps_refl(g, t);
        }
        let succ = match self.ctx.names.get().nat_succ {
            Some(n) => n,
            None => {
                return Ok(None);
            },
        };
        match self.get(v) {
            Value::Rigid { head: RigidHead::Const(ConstKind::Ctor, name, levels), spine } => {
                if name != succ || self.spine_len(spine) != 1 {
                    return Ok(None);
                }
                match self.spine_get(spine, 0) {
                    Some(Elim::App(a)) => {
                        let ghost ls = self.ctx.st.ls(levels);
                        proof {
                            let es = self.ctx.w@.s(spine);
                            let x = self.v(a);
                            assert(es =~= Seq::<ElimT>::empty().push(ElimT::App(x)));
                            ElimT::lemma_spine_push(Term::Const(name, ls), Seq::empty(), ElimT::App(x));
                        }
                        Ok(Some((a, Ghost(ls))))
                    },
                    _ => Ok(None),
                }
            },
            Value::NatLit { ptr } => {
                let n = self.read_bignum(ptr);
                if n.is_zero() {
                    return Ok(None);
                }
                let ghost k = n@;
                let one = Nat::from_u32(1);
                let p = self.alloc_bignum(&n.minus(&one))?;
                let r = self.mk_nat(p)?;
                proof {
                    Sig::r_lit_succ(g, succ, (k - 1) as nat);
                    assert(Term::Nat(((k - 1) as nat + 1) as nat) == Term::Nat(k));
                    assert(Term::Nat((k - 1) as nat).bvb() == 0);
                }
                Ok(Some((r, Ghost(Seq::empty()))))
            },
            _ => Ok(None),
        }
    }
}

impl ElimT {
    /// An applied variable or constant is no literal.
    pub proof fn lemma_spine_not_lit(f: Term, es: Seq<ElimT>)
        requires
            !(f is Nat),
        ensures
            !(ElimT::spine(f, es) is Nat),
    {
    }
}

} // verus!
