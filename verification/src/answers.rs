//! What holds of the answers that a check gives.
use crate::ctx::TcCtx;
use crate::env::Declar;
use crate::error::Reason;
use crate::expr::Store;
use crate::level::LevelsPtr;
use crate::nbe::{ConstKind, RigidHead, SpineId, ValId, Value};
use crate::tc::TypeChecker;
use crate::term::{BinderStyle, Lvl, Term};
use crate::theory::{ElimT, Sig};
use vstd::prelude::*;

verus! {

// ---- weak head normal forms ----

/// A recursor at the head of a weak head normal form, with as many levels as it
/// declares and a major premise, has nothing to compute on: the major premise
/// reduces to a weak head normal form that is, or reduces further to, a term
/// with no redex at its head to which no rule applies.  That term is no
/// application of a constructor with as many arguments as the rule for that
/// constructor takes fields, and no literal that stands for one.
pub proof fn law_stuck_recursor(tc: &TypeChecker, x: ValId, n: u32, l: LevelsPtr, s: SpineId, ls: Seq<Lvl>,
    args: Seq<Term>, major: int)
    requires
        tc.at_rest(x),
        tc.ctx.nb.vals@[x as int] == (Value::Rigid { head: RigidHead::Const(ConstKind::Recursor, n, l), spine: s }),
        tc.v(x) == Term::apps(Term::Const(n, ls), args),
        tc.g().is_rec(n),
        ls.len() == tc.g().decls[n].uparams.len(),
        major == tc.g().rec(n).num_params + tc.g().rec(n).num_motives + tc.g().rec(n).num_minors + tc.g().rec(
            n,
        ).num_indices,
        major < args.len(),
    ensures
        exists|y: ValId, w: Term|
            {
                &&& tc.settled(y)
                &&& tc.g().red(args[major], tc.v(y))
                &&& #[trigger] tc.g().red(tc.v(y), w)
                &&& w.headed()
                &&& forall|j: int, cls: Seq<Lvl>, cargs: Seq<Term>|
                    0 <= j < tc.g().rec(n).rules.len() && tc.g().rec(n).rules[j].nfields <= cargs.len() && (forall|i: int|
                        0 <= i < j ==> (#[trigger] tc.g().rec(n).rules[i]).ctor != tc.g().rec(n).rules[j].ctor) ==> w
                        != #[trigger] Term::apps(Term::Const(tc.g().rec(n).rules[j].ctor, cls), cargs)
                &&& w is Nat && tc.g().nat_ext ==> (w == Term::Nat(0) && tc.g().names@.nat_zero is None) || (w
                    != Term::Nat(0) && tc.g().names@.nat_succ is None)
                &&& w is Str ==> tc.g().str_ctor(w->Str_0) is None
            },
{
    reveal(TypeChecker::iota_stuck);
    let g = tc.g();
    assert(tc.no_rule_for(n, args[major]));
    let (y, w) = choose|y: ValId, w: Term|
        tc.settled(y) && tc.v_ok(y) && g.red(args[major], tc.v(y)) && #[trigger] g.red(tc.v(y), w) && w.headed()
            && g.no_fire(n, w);
    assert(g.red(tc.v(y), w));
}

/// An eliminator of quotients at the head of a weak head normal form has no
/// class to compute on: what it scrutinizes reduces to a weak head normal form
/// that is not `Quot.mk` with its three arguments.
pub proof fn law_stuck_quotient(tc: &TypeChecker, x: ValId, n: u32, l: LevelsPtr, s: SpineId, ls: Seq<Lvl>,
    args: Seq<Term>, major: int, mk: u32)
    requires
        tc.at_rest(x),
        tc.ctx.nb.vals@[x as int] == (Value::Rigid { head: RigidHead::Const(ConstKind::QuotConst, n, l), spine: s }),
        tc.v(x) == Term::apps(Term::Const(n, ls), args),
        tc.g().is_quot(n),
        tc.g().names@.quot_mk == Some(mk),
        tc.g().names@.quot_lift == Some(n) && major == 5 || tc.g().names@.quot_lift != Some(n)
            && tc.g().names@.quot_ind == Some(n) && major == 4,
        major < args.len(),
    ensures
        exists|y: ValId| #[trigger]
            tc.settled(y) && tc.g().red(args[major], tc.v(y)) && forall|mls: Seq<Lvl>, a: Term, r: Term, b: Term|
                tc.v(y) != #[trigger] Term::app(Term::app(Term::app(Term::Const(mk, mls), a), r), b),
{
    reveal(TypeChecker::iota_stuck);
    let g = tc.g();
    assert(tc.no_class_for(args[major]));
    let y = choose|y: ValId| #[trigger]
        tc.settled(y) && tc.v_ok(y) && g.red(args[major], tc.v(y)) && g.no_mk(tc.v(y));
    assert forall|mls: Seq<Lvl>, a: Term, r: Term, b: Term| tc.v(y) != #[trigger] Term::app(
        Term::app(Term::app(Term::Const(mk, mls), a), r),
        b,
    ) by {
        let m = seq![a, r, b];
        reveal_with_fuel(Term::apps, 4);
        assert(m.drop_last() =~= seq![a, r]);
        assert(m.drop_last().drop_last() =~= seq![a]);
        assert(m.drop_last().drop_last().drop_last() =~= Seq::empty());
        assert(Term::apps(Term::Const(mk, mls), m) == Term::app(Term::app(Term::app(Term::Const(mk, mls), a), r), b));
    }
}

/// A folded constant at the head of a weak head normal form has no body at its
/// levels, unless its name is that of a primitive on numbers or unfolding it
/// leads back to where it was.
pub proof fn law_folded_at_rest(tc: &TypeChecker, x: ValId, n: u32, l: LevelsPtr, s: SpineId, f: Option<ValId>, b: Term)
    requires
        tc.at_rest(x),
        tc.ctx.nb.vals@[x as int] == (Value::Unfold { name: n, levels: l, spine: s, forced: f }),
        tc.g().body_of(n, tc.ctx.st.ls(l)) == Some(b),
        !tc.ctx.nat_ext || !tc.g().names@.is_prim(n),
    ensures
        tc.g().red(ElimT::spine(b, tc.ctx.w@.s(s)), tc.v(x)),
{
}

/// Nothing in weak head normal form is a delayed expression.
pub proof fn law_rest_is_evaluated(tc: &TypeChecker, x: ValId)
    requires
        tc.at_rest(x),
    ensures
        !(tc.ctx.nb.vals@[x as int] is Thunk),
{
}

// ---- definitional equality ----

/// A comparison that answers no has a cause: the two terms reduce to values for
/// which there is one.
pub proof fn law_no_has_a_cause(tc: &TypeChecker, o: &TypeChecker, tx: Term, ty: Term)
    requires
        tc.tells(o, true, tx, ty),
    ensures
        exists|s: TypeChecker, a: ValId, r: TypeChecker, b: ValId|
            {
                &&& #[trigger] tc.told(o, true, tx, ty, s, a, r, b)
                &&& s.wf() && s.ext(o) && tc.ext(&s)
                &&& r.wf() && r.ext(o) && tc.ext(&r)
                &&& tc.g().red(tx, s.v(a)) && tc.g().red(ty, r.v(b))
            },
{
    reveal(TypeChecker::tells);
    let (s, a, r, b) = choose|s: TypeChecker, a: ValId, r: TypeChecker, b: ValId| #[trigger]
        tc.told(o, true, tx, ty, s, a, r, b);
    assert(tc.told(o, true, tx, ty, s, a, r, b));
}

/// Two folded constants that have bodies at their levels, and are no primitives
/// on numbers, are told apart only because values that they reduce to, at least
/// one of them another value than before, were told apart, or values were whose
/// successors they reduce to.  It is otherwise only where the body of each leads
/// back to it, in a guess, or where the pair was told apart before.
pub proof fn law_unfolded_before_no(tc: &TypeChecker, o: &TypeChecker, tx: Term, ty: Term, s: TypeChecker, a: ValId,
    r: TypeChecker, b: ValId, n: u32, m: u32, p: Term, q: Term) -> (w: (ValId, ValId))
    requires
        tc.told(o, true, tx, ty, s, a, r, b),
        s.ctx.nb.vals@[a as int] matches Value::Unfold { name, levels, .. } && name == n && s.g().body_of(
            n,
            s.ctx.st.ls(levels),
        ) == Some(p),
        r.ctx.nb.vals@[b as int] matches Value::Unfold { name, levels, .. } && name == m && r.g().body_of(
            m,
            r.ctx.st.ls(levels),
        ) == Some(q),
        !tc.g().names@.is_prim(n) || !tc.g().names@.is_prim(m),
        s.ctx.nb.probe.depth == 0 && r.ctx.nb.probe.depth == 0,
        !s.ctx.nb.memo.conv_neg@.contains_key((a, b, 0, 0)) && !s.ctx.nb.memo.conv_neg@.contains_key((b, a, 0, 0)),
        !r.ctx.nb.memo.conv_neg@.contains_key((a, b, 0, 0)) && !r.ctx.nb.memo.conv_neg@.contains_key((b, a, 0, 0)),
        !tc.g().names@.is_prim(n) ==> !tc.g().red(
            ElimT::spine(p, s.ctx.w@.s(s.ctx.nb.vals@[a as int]->Unfold_spine)),
            s.v(a),
        ),
        !tc.g().names@.is_prim(m) ==> !tc.g().red(
            ElimT::spine(q, r.ctx.w@.s(r.ctx.nb.vals@[b as int]->Unfold_spine)),
            r.v(b),
        ),
    ensures
        tc.unlike(w.0, w.1) || tc.unlike(w.1, w.0),
        ((w.0 != a || w.1 != b) && tc.g().red(s.v(a), tc.v(w.0)) && tc.g().red(r.v(b), tc.v(w.1))) || (exists|
            u: u32,
            lc: Seq<Lvl>,
            ld: Seq<Lvl>,
        |
            tc.g().names@.nat_succ == Some(u) && #[trigger] tc.g().red(s.v(a), Term::app(Term::Const(u, lc), tc.v(w.0)))
                && #[trigger] tc.g().red(r.v(b), Term::app(Term::Const(u, ld), tc.v(w.1)))),
{
    broadcast use crate::tc::group_tc;

    let ta = s.v(a);
    let tb = r.v(b);
    assert(tc.g() == s.g() && tc.g() == r.g());
    s.lemma_folded(a);
    r.lemma_folded(b);
    assert(!tc.sides_rest(&s, a, &r, b));
    if tc.moved(ta, tb, a, b) {
        choose|c: ValId, d: ValId| #[trigger]
            tc.came_to(c, d, ta, tb) && (c != a || d != b || ta is Str || tb is Str)
    } else {
        assert(tc.preds_apart(ta, tb));
        let (c, d, lc, ld) = choose|c: ValId, d: ValId, lc: Seq<Lvl>, ld: Seq<Lvl>| #[trigger]
            tc.came_down(c, d, lc, ld, ta, tb);
        let u = tc.g().names@.nat_succ->0;
        assert(tc.g().names@.nat_succ == Some(u) && tc.g().red(ta, Term::app(Term::Const(u, lc), tc.v(c)))
            && tc.g().red(tb, Term::app(Term::Const(u, ld), tc.v(d))));
        (c, d)
    }
}

impl<'x> TypeChecker<'x> {
    /// A folded constant stands for no string.
    proof fn lemma_folded(&self, x: ValId)
        requires
            self.wf(),
            self.v_ok(x),
            self.ctx.nb.vals@[x as int] is Unfold,
        ensures
            !(self.v(x) is Str),
    {
        self.lemma_ctx();
        reveal(TcCtx::wf);
        assert(self.ctx.w@.val_ok(&self.ctx.st, x, self.ctx.nb.vals@[x as int]));
        let y = self.ctx.nb.vals@[x as int];
        let es = self.ctx.w@.s(y->Unfold_spine);
        if es.len() == 0 {
            assert(ElimT::spine(Term::Const(y->Unfold_name, self.ctx.st.ls(y->Unfold_levels)), es) is Const);
        }
    }
}

// ---- inference ----

/// A `let` whose type is a type, whose value is of that type, and whose body at
/// the value has a type, has the type of that body.
pub proof fn law_let_typed(g: Sig, n: u32, d: bool, a: Term, v: Term, b: Term, s: Term, u: Lvl, vt: Term, t: Term)
    requires
        g.ty(true, a, s),
        g.red(s, Term::Sort(u)),
        g.ty(true, v, vt),
        g.eq(vt, a),
        v.nl() == 0,
        g.ty(true, b.inst(0, seq![v]), t),
    ensures
        g.ty(true, Term::let_in(n, d, a, v, b), t),
{
    Sig::t_let(g, true, n, d, a, v, b, t, s, u, vt);
}

/// A `let` is refused a type only where a premise of its typing rule fails: its
/// type is refused one, or has one that evaluates to no sort; its value is
/// refused one, or has one that was told from the declared type; or its body at
/// the value is refused one.  Evaluating or comparing may itself be rejected.
pub proof fn law_let_refused(tc: &TypeChecker, w: Reason, n: u32, d: bool, a: Term, v: Term, b: Term)
    requires
        tc.grounds(true, w, Term::let_in(n, d, a, v, b)),
    ensures
        tc.refuses(true, w, a) || tc.refuses(true, w, v) || tc.refuses(true, w, b.inst(0, seq![v])) || (exists|s: Term|
            #[trigger] tc.g().ty(true, a, s) && tc.trips(w, s)) || (exists|s: Term, y: Term| #[trigger]
            tc.g().ty(true, a, s) && #[trigger] tc.g().red(s, y) && w == Reason::NotASort && y.headed() && !(y is Sort))
            || (exists|s: Term| #[trigger] tc.g().ty(true, v, s) && (tc.trips(w, s) || tc.trips(w, a))) || (exists|s: Term|
            #[trigger] tc.g().ty(true, v, s) && w == Reason::ValueMismatch && (tc.apart(s, a) || tc.apart(a, s))),
{
    reveal(TypeChecker::grounds);
}

/// A function type is refused a type only where its domain or, at a variable of
/// the domain, its codomain is refused one, or has one that is no sort.
pub proof fn law_pi_refused(tc: &TypeChecker, w: Reason, n: u32, s: BinderStyle, a: Term, b: Term)
    requires
        tc.grounds(true, w, Term::pi(n, s, a, b)),
    ensures
        tc.no_type(true, w, a) || exists|x: Term| #[trigger] x.is_var_of(a) && tc.no_type(true, w, b.inst(0, seq![x])),
{
    reveal(TypeChecker::grounds);
}

/// What has no parts is refused a type only for what it is: a constant that is
/// not declared, or not with that many levels, or a level parameter that is not
/// in scope, or a literal without its extension.
pub proof fn law_leaf_refused(tc: &TypeChecker, w: Reason, t: Term)
    requires
        tc.grounds(true, w, t),
        t is Local || t is Sort || t is Const || t is Nat || t is Str,
    ensures
        !(t is Local),
        t matches Term::Sort(l) ==> w == Reason::LevelParam && !tc.g().level_ok(l),
        t matches Term::Const(n, ls) ==> (w == Reason::UnknownConst && !tc.g().decls.contains_key(n)) || (w
            == Reason::LevelCount && tc.g().decls.contains_key(n) && ls.len() != tc.g().decls[n].uparams.len()) || (w
            == Reason::LevelParam && !tc.g().levels_ok(ls)),
        t is Nat ==> w == Reason::Literal && !(tc.g().nat_ext && tc.g().names@.nat is Some),
        t is Str ==> w == Reason::Literal && !(tc.g().str_ext && tc.g().names@.string is Some),
{
    reveal(TypeChecker::grounds);
}

/// An application is refused a type only where its head is, or one of its
/// arguments is at fault.
pub proof fn law_app_refused(tc: &TypeChecker, w: Reason, f: Term, x: Term)
    requires
        tc.grounds(true, w, Term::app(f, x)),
    ensures
        exists|h: Term, xs: Seq<Term>|
            Term::app(f, x) == #[trigger] Term::apps(h, xs) && xs.len() > 0 && (tc.refuses(true, w, h) || exists|i: int|
                0 <= i < xs.len() && #[trigger] tc.no_arg(true, w, h, xs, i)),
{
    reveal(TypeChecker::grounds);
}

/// An argument is at fault only where what it is passed to has a type that
/// evaluates to no function type, or where it is refused a type, or has one that
/// was told from the domain.  Evaluating or comparing may itself be rejected.
pub proof fn law_argument_at_fault(tc: &TypeChecker, w: Reason, h: Term, xs: Seq<Term>, i: int) -> (ft: Term)
    requires
        tc.no_arg(true, w, h, xs, i),
    ensures
        tc.g().ty(true, Term::apps(h, xs.take(i)), ft),
        tc.trips(w, ft) || tc.refuses(true, w, xs[i]) || (w == Reason::NotAFunction && (exists|y: Term| #[trigger]
            tc.g().red(ft, y) && y.headed() && !(y is Pi))) || (exists|xt: Term| #[trigger]
            tc.g().ty(true, xs[i], xt) && tc.trips(w, xt)) || (exists|n: u32, s: BinderStyle, a: Term, b: Term, xt: Term|
            #[trigger] tc.g().red(ft, Term::pi(n, s, a, b)) && #[trigger] tc.g().ty(true, xs[i], xt) && (tc.trips(w, a)
                || (w == Reason::ArgMismatch && (tc.apart(xt, a) || tc.apart(a, xt))))),
{
    let g = tc.g();
    let ft = choose|ft: Term| #[trigger] g.ty(true, Term::apps(h, xs.take(i)), ft) && {
        ||| tc.trips(w, ft)
        ||| w is NotAFunction && exists|y: Term| #[trigger] g.red(ft, y) && y.headed() && !(y is Pi)
        ||| exists|n: u32, s: BinderStyle, a: Term, b: Term| #[trigger]
            g.red(ft, Term::pi(n, s, a, b)) && tc.no_term(true, w, xs[i], a, Reason::ArgMismatch)
    };
    ft
}

// ---- declarations ----

/// A declaration whose level parameters are distinct parameters, whose type has
/// no free variables, and whose type was neither refused a type nor has one
/// that is no sort, fails the preliminary checks only as a theorem the sort of
/// whose type is not zero, whatever the number of its level parameters.
pub proof fn law_only_theorems_refused(tc: &TypeChecker, d: &Declar, st: &Store, w: Reason)
    requires
        tc.info_refused(d, st, w),
        st.ls(d.info_spec().uparams).no_duplicates(),
        forall|i: int|
            0 <= i < st.ls(d.info_spec().uparams).len() ==> #[trigger] st.ls(d.info_spec().uparams)[i] is Param,
        !st.e(d.info_spec().ty).has_fv(),
        !tc.refuses(true, w, st.e(d.info_spec().ty)),
        forall|s: Term| #[trigger] tc.g().ty(true, st.e(d.info_spec().ty), s) ==> !tc.trips(w, s),
        forall|s: Term, y: Term| #[trigger]
            tc.g().ty(true, st.e(d.info_spec().ty), s) && #[trigger] tc.g().red(s, y) && y.headed() ==> (y is Sort),
    ensures
        w == Reason::NotAProp,
        d is Theorem,
        exists|s: Term, l: Lvl, v: spec_fn(u32) -> nat| #[trigger]
            tc.g().ty(true, st.e(d.info_spec().ty), s) && tc.g().red(s, Term::Sort(l)) && #[trigger] l.eval(v) != 0,
{
    let ty = st.e(d.info_spec().ty);
    assert(d.params_ok(st));
    let l = choose|l: Lvl| #[trigger] tc.g().is_type(ty, l) && !l.is_zero();
    let s = choose|s: Term| #[trigger] tc.g().ty(true, ty, s) && tc.g().red(s, Term::Sort(l));
    let v = choose|v: spec_fn(u32) -> nat| #[trigger] l.eval(v) != 0;
    assert(tc.g().ty(true, ty, s) && tc.g().red(s, Term::Sort(l)) && l.eval(v) != 0);
}

} // verus!
