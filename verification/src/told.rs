//! Why a comparison of two values answers no.
use crate::nbe::{ValId, Value};
use crate::tc::TypeChecker;
use crate::term::{Lvl, Term};
use crate::theory::Sig;
use vstd::prelude::*;

verus! {

broadcast use crate::tc::group_tc;

impl<'x> TypeChecker<'x> {
    /// A state of the check between `o` and `f`.
    pub open spec fn between(&self, o: &TypeChecker, f: &TypeChecker) -> bool {
        self.wf() && self.ext(o) && f.ext(self)
    }

    /// A comparison of `x` with `y` may answer no on its own: it is a guess, is
    /// part of one, or was made before.
    pub open spec fn excused(&self, rigid: bool, x: ValId, y: ValId) -> bool {
        ||| !rigid
        ||| self.ctx.nb.probe.depth > 0
        ||| self.ctx.nb.memo.conv_neg@.contains_key((x, y, 0, 0))
        ||| self.ctx.nb.memo.conv_neg@.contains_key((y, x, 0, 0))
    }

    /// Values `c` and `d` that `a` and `b` reduce to, not both as they were, were
    /// found to differ.  A string literal counts as moved.
    pub open spec fn moved(&self, ta: Term, tb: Term, a: ValId, b: ValId) -> bool {
        exists|c: ValId, d: ValId| #[trigger] self.came_to(c, d, ta, tb) && (c != a || d != b || ta is Str || tb is Str)
    }

    /// The values `c` and `d`, which were found to differ, are reducts of `ta`
    /// and `tb`.
    pub open spec fn came_to(&self, c: ValId, d: ValId, ta: Term, tb: Term) -> bool {
        &&& self.unlike(c, d) || self.unlike(d, c)
        &&& self.v_ok(c) && self.v_ok(d)
        &&& self.g().steps(ta, self.v(c)) && self.g().steps(tb, self.v(d))
    }

    /// Values were found to differ whose successors `ta` and `tb` reduce to.
    pub open spec fn preds_apart(&self, ta: Term, tb: Term) -> bool {
        exists|c: ValId, d: ValId, lc: Seq<Lvl>, ld: Seq<Lvl>| #[trigger]
            self.came_down(c, d, lc, ld, ta, tb)
    }

    pub open spec fn came_down(&self, c: ValId, d: ValId, lc: Seq<Lvl>, ld: Seq<Lvl>, ta: Term, tb: Term) -> bool {
        &&& self.unlike(c, d) || self.unlike(d, c)
        &&& self.v_ok(c) && self.v_ok(d)
        &&& self.g().names@.nat_succ is Some
        &&& self.g().red(ta, Term::app(Term::Const(self.g().names@.nat_succ->0, lc), self.v(c)))
        &&& self.g().red(tb, Term::app(Term::Const(self.g().names@.nat_succ->0, ld), self.v(d)))
    }

    /// Value `x` of the state `s`, where it is a folded constant, has nothing to
    /// unfold to.
    pub open spec fn fold_rests(&self, s: &TypeChecker, x: ValId) -> bool {
        s.ctx.nb.vals@[x as int] matches Value::Unfold { name, levels, spine, .. } ==> s.g().idle(
            s.ctx.nat_ext,
            name,
            s.ctx.st.ls(levels),
            s.ctx.w@.s(spine),
            s.v(x),
        )
    }

    /// Value `x` of the state `s`, where it stands on a recursor or a quotient
    /// eliminator, has nothing to compute.
    pub open spec fn iota_rests(&self, s: &TypeChecker, x: ValId) -> bool {
        s.ctx.nb.vals@[x as int] matches Value::Rigid { head, .. } ==> (head.is_iota() ==> self.iota_stuck(s.v(x)))
    }

    /// Neither side can move on: no folded constant unfolds, or where there is
    /// none, no recursor computes.
    pub open spec fn sides_rest(&self, s: &TypeChecker, a: ValId, r: &TypeChecker, b: ValId) -> bool {
        if s.ctx.nb.vals@[a as int] is Unfold || r.ctx.nb.vals@[b as int] is Unfold {
            self.fold_rests(s, a) && self.fold_rests(r, b)
        } else {
            self.iota_rests(s, a) && self.iota_rests(r, b)
        }
    }

    /// Values of one form differ in their parts: two function types in their
    /// domains or in their bodies, two lambdas in their bodies, two neutrals in
    /// their heads or in their spines, two literals in what they spell.
    pub open spec fn forms_apart(&self, s: &TypeChecker, a: ValId, r: &TypeChecker, b: ValId) -> bool {
        match (s.ctx.nb.vals@[a as int], r.ctx.nb.vals@[b as int]) {
            (Value::Pi { domain: da, .. }, Value::Pi { domain: db, .. }) => match (s.v(a), r.v(b)) {
                (Term::Pi(_, _, _, p), Term::Pi(_, _, _, q)) => {
                    ||| self.apart(s.v(da), r.v(db)) || self.apart(r.v(db), s.v(da))
                    ||| self.bodies_apart(*p, *q) || self.bodies_apart(*q, *p)
                },
                _ => true,
            },
            (Value::Lam { .. }, Value::Lam { .. }) => match (s.v(a), r.v(b)) {
                (Term::Lam(_, _, _, p), Term::Lam(_, _, _, q)) => self.bodies_apart(*p, *q) || self.bodies_apart(*q, *p),
                _ => true,
            },
            (Value::Rigid { head: ha, spine: sa }, Value::Rigid { head: hb, spine: sb }) => {
                ||| ha.is_iota() || hb.is_iota() || ha != hb
                ||| self.spines_apart(s.ctx.w@.s(sa), r.ctx.w@.s(sb)) || self.spines_apart(r.ctx.w@.s(sb), s.ctx.w@.s(sa))
            },
            (Value::NatLit { .. }, Value::NatLit { .. }) => s.v(a) != r.v(b),
            (Value::StrLit { .. }, Value::StrLit { .. }) => s.v(a) != r.v(b),
            _ => true,
        }
    }

    /// Since `o` the terms `tx` and `ty` were found to differ because of `a`, a
    /// value of the state `s`, and `b`, one of the state `r`, that they reduce to.
    pub open spec fn told(
        &self,
        o: &TypeChecker,
        rigid: bool,
        tx: Term,
        ty: Term,
        s: TypeChecker,
        a: ValId,
        r: TypeChecker,
        b: ValId,
    ) -> bool {
        &&& s.between(o, self) && r.between(o, self)
        &&& s.v_ok(a) && r.v_ok(b)
        &&& self.g().steps(tx, s.v(a)) && self.g().steps(ty, r.v(b))
        &&& {
            ||| s.excused(rigid, a, b) || r.excused(rigid, a, b)
            ||| self.moved(s.v(a), r.v(b), a, b)
            ||| self.preds_apart(s.v(a), r.v(b))
            ||| self.sides_rest(&s, a, &r, b) && self.forms_apart(&s, a, &r, b)
        }
    }

    /// Since `o` the terms `tx` and `ty` were found to differ for a cause.
    #[verifier::opaque]
    pub open spec fn tells(&self, o: &TypeChecker, rigid: bool, tx: Term, ty: Term) -> bool {
        exists|s: TypeChecker, a: ValId, r: TypeChecker, b: ValId| #[trigger] self.told(o, rigid, tx, ty, s, a, r, b)
    }

    /// The type `t` is no proposition: its universe is not zero, or none was
    /// found for it.
    pub open spec fn no_prop(&self, t: Term) -> bool {
        self.unsorted(t) || exists|l: Lvl| #[trigger] self.g().univ(t, l) && !l.is_zero()
    }

    /// The terms `ta` and `tb` are not proofs of one proposition: the type of one
    /// is no proposition, or their types were found to differ.
    pub open spec fn no_proofs(&self, ta: Term, tb: Term) -> bool {
        exists|t: ValId| #[trigger] self.types(ta, t) && (self.no_prop(self.v(t)) || exists|u: ValId| #[trigger]
            self.types(tb, u) && (self.no_prop(self.v(u)) || self.unlike(t, u)))
    }

    /// Value `t` is a type of `ta`.
    pub open spec fn types(&self, ta: Term, t: ValId) -> bool {
        self.v_ok(t) && self.g().has(ta, self.v(t))
    }

    /// The values `c` and `d` are what `ta` and `tb` reduce to at one argument.
    pub open spec fn at_argument(&self, c: ValId, d: ValId, z: Term, ta: Term, tb: Term) -> bool {
        &&& self.v_ok(c) && self.v_ok(d)
        &&& self.g().red(Term::app(ta, z), self.v(c))
        &&& self.g().red(Term::app(tb, z), self.v(d))
    }

    /// What two functions give at an argument was found to differ.
    pub open spec fn eta_apart(&self, ta: Term, tb: Term) -> bool {
        exists|c: ValId, d: ValId, z: Term| #[trigger]
            self.at_argument(c, d, z, ta, tb) && (self.unlike(c, d) || self.unlike(d, c))
    }

    /// Why the values `x` and `y` of `o` are not equal for being proofs of one
    /// proposition: two functions because of what they give at an argument, two
    /// neutrals because of their types.
    pub open spec fn irrel_fails(&self, o: &TypeChecker, x: ValId, y: ValId) -> bool {
        let a = o.ctx.nb.vals@[x as int];
        let b = o.ctx.nb.vals@[y as int];
        if a is Lam || b is Lam {
            exists|c: ValId, d: ValId, z: Term| #[trigger]
                self.at_argument(c, d, z, o.v(x), o.v(y)) && self.unproved(c, d)
        } else {
            (a is Rigid || a is Unfold) && (b is Rigid || b is Unfold) ==> self.no_proofs(o.v(x), o.v(y))
        }
    }

    /// What keeps two values from being proofs of one proposition stays.
    pub proof fn lemma_irrel_grow(&self, p: &TypeChecker, o: &TypeChecker, x: ValId, y: ValId)
        requires
            self.ext(p),
            p.irrel_fails(o, x, y),
        ensures
            self.irrel_fails(o, x, y),
    {
        let a = o.ctx.nb.vals@[x as int];
        let b = o.ctx.nb.vals@[y as int];
        let ta = o.v(x);
        let tb = o.v(y);
        if a is Lam || b is Lam {
            let (c, d, z) = choose|c: ValId, d: ValId, z: Term| #[trigger]
                p.at_argument(c, d, z, ta, tb) && p.unproved(c, d);
            assert(self.at_argument(c, d, z, ta, tb));
        } else if (a is Rigid || a is Unfold) && (b is Rigid || b is Unfold) {
            let t = choose|t: ValId| #[trigger] p.types(ta, t) && (p.no_prop(p.v(t)) || exists|u: ValId| #[trigger]
                p.types(tb, u) && (p.no_prop(p.v(u)) || p.unlike(t, u)));
            assert(self.types(ta, t));
            if !p.no_prop(p.v(t)) {
                let u = choose|u: ValId| #[trigger] p.types(tb, u) && (p.no_prop(p.v(u)) || p.unlike(t, u));
                assert(self.types(tb, u));
            }
        }
    }

    /// What tells two functions apart at an argument stays.
    pub proof fn lemma_eta_grow(&self, p: &TypeChecker, ta: Term, tb: Term)
        requires
            self.ext(p),
            p.eta_apart(ta, tb),
        ensures
            self.eta_apart(ta, tb),
    {
        let (c, d, z) = choose|c: ValId, d: ValId, z: Term| #[trigger]
            p.at_argument(c, d, z, ta, tb) && (p.unlike(c, d) || p.unlike(d, c));
        assert(self.at_argument(c, d, z, ta, tb));
    }

    pub proof fn lemma_moved_grow(&self, p: &TypeChecker, ta: Term, tb: Term, a: ValId, b: ValId)
        requires
            self.ext(p),
        ensures
            p.moved(ta, tb, a, b) ==> self.moved(ta, tb, a, b),
            p.preds_apart(ta, tb) ==> self.preds_apart(ta, tb),
    {
        if p.moved(ta, tb, a, b) {
            let (c, d) = choose|c: ValId, d: ValId| #[trigger]
                p.came_to(c, d, ta, tb) && (c != a || d != b || ta is Str || tb is Str);
            assert(self.came_to(c, d, ta, tb));
        }
        if p.preds_apart(ta, tb) {
            let (c, d, lc, ld) = choose|c: ValId, d: ValId, lc: Seq<Lvl>, ld: Seq<Lvl>| #[trigger]
                p.came_down(c, d, lc, ld, ta, tb);
            assert(self.came_down(c, d, lc, ld, ta, tb));
        }
    }

    /// A cause stays a cause, as the check goes on and where it is looked at from
    /// earlier on, for terms that reduce to those it was found for.
    pub proof fn lemma_tells(&self, p: &TypeChecker, q: &TypeChecker, o: &TypeChecker, rigid: bool, tx: Term, ty: Term,
        ux: Term, uy: Term)
        requires
            p.tells(q, rigid, ux, uy),
            self.ext(p),
            q.ext(o),
            self.g().steps(tx, ux),
            self.g().steps(ty, uy),
        ensures
            self.tells(o, rigid, tx, ty),
    {
        reveal(TypeChecker::tells);
        let (s, a, r, b) = choose|s: TypeChecker, a: ValId, r: TypeChecker, b: ValId| #[trigger]
            p.told(q, rigid, ux, uy, s, a, r, b);
        self.lemma_moved_grow(p, s.v(a), r.v(b), a, b);
        Sig::steps_trans(self.g(), tx, ux, s.v(a));
        Sig::steps_trans(self.g(), ty, uy, r.v(b));
        assert(s.ext(o) && r.ext(o) && self.ext(&s) && self.ext(&r));
        assert(self.told(o, rigid, tx, ty, s, a, r, b));
    }

    /// What tells two terms apart tells them apart the other way round.
    pub proof fn lemma_tells_back(&self, o: &TypeChecker, rigid: bool, tx: Term, ty: Term)
        requires
            self.tells(o, rigid, ty, tx),
        ensures
            self.tells(o, rigid, tx, ty),
    {
        reveal(TypeChecker::tells);
        let (s, a, r, b) = choose|s: TypeChecker, a: ValId, r: TypeChecker, b: ValId| #[trigger]
            self.told(o, rigid, ty, tx, s, a, r, b);
        let ta = s.v(a);
        let tb = r.v(b);
        if self.moved(ta, tb, a, b) {
            let (c, d) = choose|c: ValId, d: ValId| #[trigger]
                self.came_to(c, d, ta, tb) && (c != a || d != b || ta is Str || tb is Str);
            assert(self.came_to(d, c, tb, ta));
        }
        if self.preds_apart(ta, tb) {
            let (c, d, lc, ld) = choose|c: ValId, d: ValId, lc: Seq<Lvl>, ld: Seq<Lvl>| #[trigger]
                self.came_down(c, d, lc, ld, ta, tb);
            assert(self.came_down(d, c, ld, lc, tb, ta));
        }
        assert(self.told(o, rigid, tx, ty, r, b, s, a));
    }

    /// A comparison that may answer no on its own.
    pub proof fn lemma_excused(&self, o: &TypeChecker, s: &TypeChecker, rigid: bool, x: ValId, y: ValId)
        requires
            s.between(o, self),
            o.v_ok(x),
            o.v_ok(y),
            s.excused(rigid, x, y),
        ensures
            self.tells(o, rigid, o.v(x), o.v(y)),
    {
        reveal(TypeChecker::tells);
        Sig::steps_refl(self.g(), o.v(x));
        Sig::steps_refl(self.g(), o.v(y));
        assert(self.told(o, rigid, o.v(x), o.v(y), *s, x, *s, y));
    }

    /// The values `x` and `y` differ because `c` and `d` do, which they reduce to.
    pub proof fn lemma_came(&self, o: &TypeChecker, rigid: bool, x: ValId, y: ValId, c: ValId, d: ValId)
        requires
            o.wf(),
            self.ext(o),
            o.v_ok(x),
            o.v_ok(y),
            self.came_to(c, d, o.v(x), o.v(y)),
            c != x || d != y || o.v(x) is Str || o.v(y) is Str,
        ensures
            self.tells(o, rigid, o.v(x), o.v(y)),
    {
        reveal(TypeChecker::tells);
        Sig::steps_refl(self.g(), o.v(x));
        Sig::steps_refl(self.g(), o.v(y));
        assert(self.moved(o.v(x), o.v(y), x, y));
        assert(self.told(o, rigid, o.v(x), o.v(y), *o, x, *o, y));
    }

    /// The values `x` and `y` differ because `c` and `d` do, whose successors they
    /// reduce to.
    pub proof fn lemma_came_down(&self, o: &TypeChecker, rigid: bool, x: ValId, y: ValId, c: ValId, d: ValId, lc: Seq<Lvl>,
        ld: Seq<Lvl>)
        requires
            o.wf(),
            self.ext(o),
            o.v_ok(x),
            o.v_ok(y),
            self.came_down(c, d, lc, ld, o.v(x), o.v(y)),
        ensures
            self.tells(o, rigid, o.v(x), o.v(y)),
    {
        reveal(TypeChecker::tells);
        Sig::steps_refl(self.g(), o.v(x));
        Sig::steps_refl(self.g(), o.v(y));
        assert(self.preds_apart(o.v(x), o.v(y)));
        assert(self.told(o, rigid, o.v(x), o.v(y), *o, x, *o, y));
    }

    /// The values `x` and `y` differ, and neither can move on.
    pub proof fn lemma_rests(&self, o: &TypeChecker, rigid: bool, s: &TypeChecker, x: ValId, r: &TypeChecker, y: ValId)
        requires
            s.between(o, self),
            r.between(o, self),
            o.v_ok(x),
            o.v_ok(y),
            self.sides_rest(s, x, r, y),
            self.forms_apart(s, x, r, y),
        ensures
            self.tells(o, rigid, o.v(x), o.v(y)),
    {
        reveal(TypeChecker::tells);
        Sig::steps_refl(self.g(), o.v(x));
        Sig::steps_refl(self.g(), o.v(y));
        assert(self.told(o, rigid, o.v(x), o.v(y), *s, x, *r, y));
    }
}

} // verus!
