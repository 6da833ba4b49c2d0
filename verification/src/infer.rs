//! Type inference, and the questions a checker is asked.
use crate::counters::{DEF_EQ, INFER, INF_CONST, INF_HIT, INF_LOCAL, INF_MISS, INF_SORT, INF_VAR_NEU, INF_VAR_VAL};
use crate::bignum::Nat;
use crate::closure::{Clo, Entry, EnvId, ENV_NIL};
use crate::ctx::TcCtx;
use crate::error::{Reason, TcError};
use crate::expr::{Expr, ExprPtr};
use crate::level::{LevelPtr, LevelsPtr, NamePtr};
use crate::nbe::{ValId, Value};
use crate::reify::ANONYMOUS;
use crate::tc::{InferFlag, TypeChecker};
use crate::term::{BinderStyle, FVarId, Lvl, Term};
use crate::theory::Sig;
use vstd::prelude::*;

verus! {

broadcast use crate::tc::group_tc;

impl InferFlag {
    /// Whether the additional checks are made.
    pub open spec fn checks(self) -> bool {
        self is Check
    }
}

impl Term {
    /// A term without parts to infer: a free variable, a sort, a constant or a
    /// literal.
    pub open spec fn is_leaf(self) -> bool {
        self is Local || self is Sort || self is Const || self is Nat || self is Str
    }
}

impl Sig {
    /// The type of a leaf, or why it has none; its levels are checked where
    /// `k` says so.
    pub open spec fn leaf_type(self, k: bool, t: Term) -> Result<Term, TcError> {
        match t {
            Term::Local(_, _, _, ty) => Ok(*ty),
            Term::Sort(l) => if k && !self.level_ok(l) {
                Err(TcError::Reject(Reason::LevelParam))
            } else {
                Ok(Term::Sort(Lvl::succ(l)))
            },
            Term::Const(n, ls) => if !self.decls.contains_key(n) {
                Err(TcError::Reject(Reason::UnknownConst))
            } else if ls.len() != self.decls[n].uparams.len() {
                Err(TcError::Reject(Reason::LevelCount))
            } else if k && !self.levels_ok(ls) {
                Err(TcError::Reject(Reason::LevelParam))
            } else {
                Ok(self.decls[n].ty.tsubst(self.decls[n].uparams, ls))
            },
            Term::Nat(_) => match (self.nat_ext, self.names@.nat) {
                (true, Some(n)) => Ok(Term::Const(n, Seq::empty())),
                _ => Err(TcError::Reject(Reason::Literal)),
            },
            Term::Str(_) => match (self.str_ext, self.names@.string) {
                (true, Some(n)) => Ok(Term::Const(n, Seq::empty())),
                _ => Err(TcError::Reject(Reason::Literal)),
            },
            _ => Err(TcError::Reject(Reason::BadValue)),
        }
    }
}

impl TcCtx {
    /// An environment without evaluated entries holds no conversion variables.
    pub proof fn lemma_plain_bvb(&self, env: EnvId)
        requires
            self.wf(),
            self.w@.n_ok(env),
            self.w@.plain(env),
        ensures
            Term::bvb_seq(self.w@.n(env), 0),
        decreases self.w@.ntime(env),
    {
        self.lemma_wf();
        self.lemma_env(env);
        assert forall|j: int| 0 <= j < self.w@.n(env).len() implies self.w@.n(env)[j].bvb() <= 0 by {
            let x = self.w@.ents(env)[j];
            assert(self.w@.entry_at(&self.st, env, x, j));
            match x {
                Entry::Val(e, n) => {
                    self.lemma_plain_bvb(n);
                    self.st.lemma_no_bv(e);
                    Term::lemma_inst_bvb(self.st.e(e), 0, self.w@.n(n), 0);
                },
                Entry::Neu(e) => {
                    self.st.lemma_no_bv(e);
                },
                Entry::V(_) => {},
            }
        }
    }
}

impl Term {
    /// `self` is a lambda, and `u` its body at a variable of its domain.
    pub open spec fn opens_to(self, u: Term) -> bool {
        self matches Term::Lam(_, _, a, b) && exists|x: Term| #[trigger] x.is_var_of(*a) && u == b.inst(0, seq![x])
    }
}

impl<'x> TypeChecker<'x> {
    /// The type `s` of something is no sort: bringing it to weak head normal
    /// form was rejected, or ended in what is no sort.
    pub open spec fn no_sort(&self, w: Reason, s: Term) -> bool {
        self.trips(w, s) || w is NotASort && exists|y: Term| #[trigger]
            self.g().red(s, y) && y.headed() && !(y is Sort)
    }

    /// The term `a` is no type: it was refused a type, or its type is no sort.
    pub open spec fn no_type(&self, k: bool, w: Reason, a: Term) -> bool {
        self.refuses(k, w, a) || exists|s: Term| #[trigger] self.g().ty(k, a, s) && self.no_sort(w, s)
    }

    /// The term `v` is not of the type `a`: it was refused a type, or its type
    /// was told from `a`, for the reason `m`, or could not be compared with it.
    pub open spec fn no_term(&self, k: bool, w: Reason, v: Term, a: Term, m: Reason) -> bool {
        self.refuses(k, w, v) || exists|s: Term| #[trigger]
            self.g().ty(k, v, s) && (self.trips(w, s) || self.trips(w, a) || w == m && (self.apart(s, a) || self.apart(
                a,
                s,
            )))
    }

    /// Argument `i` of `h` under `xs` is why that has no type: what it is applied
    /// to is no function, or it is not of the domain.
    pub open spec fn no_arg(&self, k: bool, w: Reason, h: Term, xs: Seq<Term>, i: int) -> bool {
        exists|ft: Term| #[trigger] self.g().ty(k, Term::apps(h, xs.take(i)), ft) && {
            ||| self.trips(w, ft)
            ||| w is NotAFunction && exists|y: Term| #[trigger] self.g().red(ft, y) && y.headed() && !(y is Pi)
            ||| k && exists|n: u32, s: BinderStyle, a: Term, b: Term| #[trigger]
                self.g().red(ft, Term::pi(n, s, a, b)) && self.no_term(k, w, xs[i], a, Reason::ArgMismatch)
        }
    }

    /// Why the term `t` has no type: a premise of its typing rule fails.
    #[verifier::opaque]
    pub open spec fn grounds(&self, k: bool, w: Reason, t: Term) -> bool {
        !k && self.trips(w, t) || match t {
            Term::Let(_, _, a, v, b) => {
                ||| k && self.no_type(true, w, *a)
                ||| k && self.no_term(true, w, *v, *a, Reason::ValueMismatch)
                ||| self.refuses(k, w, b.inst(0, seq![*v]))
            },
            Term::Pi(_, _, a, b) => {
                ||| self.no_type(k, w, *a)
                ||| exists|x: Term| #[trigger] x.is_var_of(*a) && self.no_type(k, w, b.inst(0, seq![x]))
            },
            Term::Lam(_, _, a, _) => exists|ts: Seq<Term>|
                {
                    &&& ts.len() > 0 && ts[0] == t
                    &&& forall|i: int| 0 <= i < ts.len() - 1 ==> (#[trigger] ts[i]).opens_to(ts[i + 1])
                    &&& #[trigger] ts.last() is Lam && k && self.no_type(true, w, *ts.last()->Lam_2) || ts.len() > 1
                        && self.refuses(k, w, ts.last())
                },
            Term::App(_, _) => exists|h: Term, xs: Seq<Term>| t == #[trigger] Term::apps(h, xs) && xs.len() > 0 && (
            self.refuses(k, w, h) || exists|i: int| 0 <= i < xs.len() && #[trigger] self.no_arg(k, w, h, xs, i)),
            Term::Proj(_, _, s) => {
                ||| self.refuses(k, w, *s)
                ||| w is NotAStructure
                ||| w is PropProjection
                ||| self.trips(w, t)
            },
            _ => t.is_leaf() && self.g().leaf_type(k, t) == Err::<Term, TcError>(TcError::Reject(w)),
        }
    }

    /// A closure over an environment without evaluated entries.
    pub open spec fn plain_clo(&self, c: Clo) -> bool {
        self.ctx.clo_ok(c) && self.ctx.w@.plain(c.env)
    }

    /// Such a closure is closed and holds no conversion variables.
    pub proof fn lemma_plain_clo(&self, c: Clo)
        requires
            self.wf(),
            self.plain_clo(c),
        ensures
            self.ctx.clo(c).bvb() == 0,
            self.ctx.clo(c).nl() == 0,
            Term::ml_seq(self.ctx.w@.n(c.env), self.ctx.w@.nlevel(c.env)),
            Term::closed_seq(self.ctx.w@.n(c.env)),
    {
        self.lemma_ctx();
        self.lemma_ntime(c.env);
        self.ctx.lemma_plain_bvb(c.env);
        self.ctx.st.lemma_no_bv(c.e);
        Term::lemma_inst_bvb(self.ctx.st.e(c.e), 0, self.ctx.w@.n(c.env), 0);
        Term::lemma_inst_nl(self.ctx.st.e(c.e), 0, self.ctx.w@.n(c.env));
    }

    /// A closure whose type can be asked for: it holds no conversion variables.
    pub open spec fn infers(&self, c: Clo) -> bool {
        self.ctx.clo_ok(c) && self.ctx.clo(c).bvb() == 0
    }

    /// A closure is closed.
    pub proof fn lemma_clo(&self, c: Clo)
        requires
            self.wf(),
            self.ctx.clo_ok(c),
        ensures
            self.ctx.clo(c).nl() == 0,
            Term::closed_seq(self.ctx.w@.n(c.env)),
    {
        self.lemma_ctx();
        self.lemma_ntime(c.env);
        Term::lemma_inst_nl(self.ctx.st.e(c.e), 0, self.ctx.w@.n(c.env));
    }

    /// A closed expression, as a closure.
    pub proof fn lemma_clo_of(&self, e: ExprPtr)
        requires
            self.wf(),
            self.ctx.st.e_ok(e),
            self.ctx.st.e(e).nl() == 0,
        ensures
            self.plain_clo(Clo { e, env: ENV_NIL }),
            self.infers(Clo { e, env: ENV_NIL }),
            self.ctx.clo(Clo { e, env: ENV_NIL }) == self.ctx.st.e(e),
            self.ctx.st.e(e).bvb() == 0,
    {
        self.lemma_base();
        self.ctx.st.lemma_no_bv(e);
        Term::lemma_inst_closed(self.ctx.st.e(e), 0, self.ctx.w@.n(0));
    }

    /// `r` is the answer `want`, unless the store is full.
    pub open spec fn answers(&self, r: Result<ExprPtr, TcError>, want: Result<Term, TcError>) -> bool {
        match want {
            Ok(u) => match r {
                Ok(y) => self.ctx.st.e(y) == u,
                Err(e) => e == TcError::Full,
            },
            Err(e) => r == Err::<ExprPtr, TcError>(e),
        }
    }

    /// Change whether comparisons reduce eagerly.
    pub fn set_eager(&mut self, b: bool)
        requires
            old(self).wf(),
        ensures
            final(self).wf(),
            *final(self) == old(self).with_eager(b),
    {
        let ghost o = *self;
        self.ctx.eager_mode = b;
        proof {
            reveal(TypeChecker::wf);
            reveal(TcCtx::wf);
        }
    }

    /// The same check with comparisons that reduce eagerly, or not.
    pub open spec fn with_eager(self, b: bool) -> Self {
        TypeChecker { ctx: TcCtx { eager_mode: b, ..self.ctx }, ..self }
    }

    /// What holds of a comparison made in another mode holds once the mode is as
    /// it was: `self` is `s2` in the mode of `s0`, and `s1` is `s0` in that of `s2`.
    pub proof fn lemma_eager(&self, s0: &TypeChecker, s1: &TypeChecker, s2: &TypeChecker)
        requires
            *s1 == s0.with_eager(s1.ctx.eager_mode),
            s2.ext(s1),
            *self == s2.with_eager(s0.ctx.eager_mode),
        ensures
            self.ext(s0),
            forall|e: TcError| s2.accounts(s1, e) ==> #[trigger] self.accounts(s0, e),
            forall|a: Term, b: Term| s2.apart(a, b) ==> #[trigger] self.apart(a, b),
            forall|w: Reason, t: Term| s2.trips(w, t) ==> #[trigger] self.trips(w, t),
    {
        self.lemma_log(s2);
        reveal(TypeChecker::ext);
        reveal(TypeChecker::apart);
        reveal(TypeChecker::ran_out);
        reveal(TypeChecker::accounts);
        assert forall|e: TcError| s2.accounts(s1, e) implies #[trigger] self.accounts(s0, e) by {
            if let TcError::Reject(w) = e {
                let i = choose|i: int|
                    s1.faults@.len() <= i < s2.faults@.len() && (#[trigger] s2.faults@[i]).0 == w && s2.at_fault(
                        w,
                        s2.faults@[i].1,
                        s2.faults@[i].2,
                    );
                assert(self.faults@[i].0 == w);
            }
        }
    }

    // ---- values of closures ----

    /// The value denoted by a closure: evaluation reads the checker's own
    /// environment, so nothing is translated.  Memoized on the closure: the
    /// same term recurs at many questions, and this is the one place a whole
    /// skeleton would otherwise be rewalked.
    pub fn nb_of_clo(&mut self, fuel: u32, c: Clo) -> (r: Result<ValId, TcError>)
        requires
            old(self).wf(),
            old(self).ctx.clo_ok(c),
            old(self).ctx.clo(c).bvb() == 0,
        ensures
            final(self).wf(),
            final(self).ext(old(self)),
            r matches Ok(x) ==> final(self).v_ok(x) && final(self).g().steps(old(self).ctx.clo(c), final(self).v(x)),
            r matches Ok(x) ==> final(self).done(x),
            r matches Err(err) ==> final(self).accounts(old(self), err),
        decreases fuel,
    {
        if fuel == 0 {
            return Err(self.out_of_depth(0));
        }
        match self.recall_clo(c.e, c.env) {
            Some(v) => {
                let ghost g = self.g();
                let ghost t = self.ctx.clo(c);
                let ghost u = self.v(v);
                let r = self.nb_force(fuel - 1, 0, v)?;
                proof {
                    Sig::steps_trans(g, t, u, self.v(r));
                }
                return Ok(r);
            },
            None => {},
        }
        let v = self.nb_eval(fuel - 1, 0, c.env, c.e)?;
        self.note_clo(c.e, c.env, v);
        Ok(v)
    }

    /// The weak head normal form of a closure.
    pub fn nb_whnf_clo(&mut self, fuel: u32, c: Clo) -> (r: Result<ValId, TcError>)
        requires
            old(self).wf(),
            old(self).ctx.clo_ok(c),
            old(self).ctx.clo(c).bvb() == 0,
        ensures
            final(self).wf(),
            final(self).ext(old(self)),
            r matches Ok(x) ==> final(self).v_ok(x) && final(self).g().steps(old(self).ctx.clo(c), final(self).v(x))
                && final(self).v(x).headed(),
            r matches Ok(x) ==> final(self).done(x),
            r matches Ok(x) ==> final(self).at_rest(x),
            r matches Err(TcError::Reject(w)) ==> final(self).trips(w, old(self).ctx.clo(c)),
            r matches Err(err) ==> final(self).accounts(old(self), err),
        decreases fuel,
    {
        if fuel == 0 {
            return Err(self.out_of_depth(0));
        }
        let ghost o = *self;
        let r = self.nb_whnf_clo_go(fuel - 1, c);
        if let Err(TcError::Reject(w)) = r {
            self.trip(w, Ghost(o.ctx.clo(c)), Ghost(o));
        }
        r
    }

    fn nb_whnf_clo_go(&mut self, fuel: u32, c: Clo) -> (r: Result<ValId, TcError>)
        requires
            old(self).wf(),
            old(self).ctx.clo_ok(c),
            old(self).ctx.clo(c).bvb() == 0,
        ensures
            final(self).wf(),
            final(self).ext(old(self)),
            r matches Ok(x) ==> final(self).v_ok(x) && final(self).g().steps(old(self).ctx.clo(c), final(self).v(x))
                && final(self).v(x).headed(),
            r matches Ok(x) ==> final(self).done(x),
            r matches Ok(x) ==> final(self).at_rest(x),
            r matches Err(err) ==> final(self).accounts(old(self), err),
        decreases fuel,
    {
        if fuel == 0 {
            return Err(self.out_of_depth(0));
        }
        let ghost g = self.g();
        let ghost t = self.ctx.clo(c);
        let v = self.nb_of_clo(fuel - 1, c)?;
        let ghost a = self.v(v);
        let v = self.nb_whnf(fuel - 1, 0, v)?;
        proof {
            Sig::steps_trans(g, t, a, self.v(v));
        }
        Ok(v)
    }

    // ---- sorts ----

    /// The level of the sort a type is.
    fn ensure_sort_clo(&mut self, fuel: u32, ty: ExprPtr) -> (r: Result<LevelPtr, TcError>)
        requires
            old(self).wf(),
            old(self).ctx.st.e_ok(ty),
            old(self).ctx.st.e(ty).nl() == 0,
        ensures
            final(self).wf(),
            final(self).ext(old(self)),
            r matches Ok(l) ==> final(self).ctx.st.l_ok(l) && final(self).g().red(
                old(self).ctx.st.e(ty),
                Term::Sort(final(self).ctx.st.l(l)),
            ),
            r matches Err(TcError::Reject(w)) ==> final(self).no_sort(w, old(self).ctx.st.e(ty)),
            r matches Err(err) ==> final(self).accounts(old(self), err),
        decreases fuel,
    {
        if fuel == 0 {
            return Err(self.out_of_depth(0));
        }
        let ghost g = self.g();
        proof {
            self.lemma_clo_of(ty);
            Sig::steps_refl(g, self.ctx.st.e(ty));
        }
        if let Expr::Sort { level } = self.read_expr(ty) {
            return Ok(level);
        }
        let v = self.nb_whnf_clo(fuel - 1, Clo { e: ty, env: ENV_NIL })?;
        match self.get(v) {
            Value::Sort { level } => Ok(level),
            _ => Err(self.blame(Reason::NotASort, Ghost(self.ctx.st.e(ty)), Ghost(self.v(v)))),
        }
    }

    /// Could `ty` be a proposition?  A universe parameter stands for a level
    /// that an instantiation may send to zero, so it counts.
    pub fn may_be_prop_of(&mut self, fuel: u32, ty: ExprPtr) -> (r: Result<bool, TcError>)
        requires
            old(self).wf(),
            old(self).ctx.st.e_ok(ty),
            old(self).ctx.st.e(ty).nl() == 0,
        ensures
            final(self).wf(),
            final(self).ext(old(self)),
            r matches Ok(b) ==> exists|sk: Term, w: Term| #[trigger]
                final(self).g().ty(false, old(self).ctx.st.e(ty), sk) && #[trigger] final(self).g().red(sk, w)
                    && (b == (
                w matches Term::Sort(l) && l.may_be_zero())),
            r matches Err(err) ==> final(self).accounts(old(self), err),
        decreases fuel,
    {
        if fuel == 0 {
            return Err(self.out_of_depth(0));
        }
        let ghost t = self.ctx.st.e(ty);
        proof {
            self.lemma_clo_of(ty);
        }
        let sort = self.infer_clo(fuel - 1, Clo { e: ty, env: ENV_NIL }, InferFlag::InferOnly)?;
        let ghost sk = self.ctx.st.e(sort);
        proof {
            self.lemma_clo_of(sort);
        }
        let v = self.nb_whnf_clo(fuel - 1, Clo { e: sort, env: ENV_NIL })?;
        let ghost w = self.v(v);
        proof {
            self.lemma_base();
            assert(self.g().red(sk, w));
        }
        match self.get(v) {
            Value::Sort { level } => {
                let b = self.ctx.st.may_be_prop(level);
                proof {
                    assert(w == Term::Sort(self.ctx.st.l(level)));
                    assert(self.g().ty(false, t, sk) && self.g().red(sk, w));
                }
                Ok(b)
            },
            n => {
                proof {
                    self.lemma_not_sort(v, n);
                    assert(self.g().ty(false, t, sk) && self.g().red(sk, w));
                }
                Ok(false)
            },
        }
    }

    /// Only a sort, or a thunk over one, stands for a sort.
    proof fn lemma_not_sort(&self, v: ValId, n: Value)
        requires
            self.ctx.is_node(v, n),
            !(n is Sort),
        ensures
            self.v(v) is Sort ==> n is Thunk,
    {
    }

    /// Whether a type is a proposition.
    pub fn is_prop_of(&mut self, fuel: u32, e: ExprPtr) -> (r: Result<bool, TcError>)
        requires
            old(self).wf(),
            old(self).ctx.st.e_ok(e),
            old(self).ctx.st.e(e).nl() == 0,
        ensures
            final(self).wf(),
            final(self).ext(old(self)),
            r matches Ok(b) ==> final(self).ctx.w@.prop_answer(old(self).ctx.st.e(e), b),
            r matches Err(err) ==> final(self).accounts(old(self), err),
        decreases fuel,
    {
        if fuel == 0 {
            return Err(self.out_of_depth(0));
        }
        match self.recall_prop(e) {
            Some(b) => {
                return Ok(b);
            },
            None => {},
        }
        let b = self.is_prop_of_uncached(fuel - 1, e)?;
        self.note_prop(e, b);
        Ok(b)
    }

    fn is_prop_of_uncached(&mut self, fuel: u32, e: ExprPtr) -> (r: Result<bool, TcError>)
        requires
            old(self).wf(),
            old(self).ctx.st.e_ok(e),
            old(self).ctx.st.e(e).nl() == 0,
        ensures
            final(self).wf(),
            final(self).ext(old(self)),
            r matches Ok(b) ==> final(self).ctx.w@.prop_answer(old(self).ctx.st.e(e), b),
            r matches Err(err) ==> final(self).accounts(old(self), err),
        decreases fuel,
    {
        if fuel == 0 {
            return Err(self.out_of_depth(0));
        }
        let ghost t = self.ctx.st.e(e);
        proof {
            self.lemma_clo_of(e);
        }
        let sort = self.infer_clo(fuel - 1, Clo { e, env: ENV_NIL }, InferFlag::InferOnly)?;
        let ghost sk = self.ctx.st.e(sort);
        proof {
            self.lemma_clo_of(sort);
        }
        let v = self.nb_whnf_clo(fuel - 1, Clo { e: sort, env: ENV_NIL })?;
        match self.get(v) {
            Value::Sort { level } => {
                let ghost l = self.ctx.st.l(level);
                let b = self.is_zero(level)?;
                proof {
                    if b {
                        assert(self.g().ty(false, t, sk) && self.g().red(sk, Term::Sort(l)) && l.is_zero());
                    } else {
                        assert(self.g().ty(false, t, sk) && self.g().red(sk, Term::Sort(l)) && l != Lvl::Zero);
                    }
                }
                Ok(b)
            },
            n => {
                proof {
                    self.lemma_not_sort(v, n);
                    assert(self.g().ty(false, t, sk) && self.g().red(sk, self.v(v)));
                }
                Ok(false)
            },
        }
    }

    // ---- definitional equality ----

    /// Whether two closures are definitionally equal.
    pub fn is_def_eq(&mut self, fuel: u32, t: Clo, s: Clo) -> (r: Result<bool, TcError>)
        requires
            old(self).wf(),
            old(self).ctx.clo_ok(t),
            old(self).ctx.clo_ok(s),
            old(self).ctx.clo(t).bvb() == 0,
            old(self).ctx.clo(s).bvb() == 0,
        ensures
            final(self).wf(),
            final(self).ext(old(self)),
            r matches Ok(true) ==> final(self).g().eq(old(self).ctx.clo(t), old(self).ctx.clo(s)),
            r matches Ok(false) ==> final(self).apart(old(self).ctx.clo(t), old(self).ctx.clo(s)),
            r matches Ok(false) ==> final(self).tells(old(self), true, old(self).ctx.clo(t), old(self).ctx.clo(s)),
            fuel > 0 && old(self).plain_clo(t) && old(self).plain_clo(s) && old(self).ctx.clo(t) == old(self).ctx.clo(s)
                ==> r == Ok::<bool, TcError>(true),
            r matches Err(TcError::Reject(w)) ==> final(self).trips(w, old(self).ctx.clo(t)),
            r matches Err(err) ==> final(self).accounts(old(self), err),
        decreases fuel,
    {
        if fuel == 0 {
            return Err(self.out_of_depth(0));
        }
        let ghost o = *self;
        let r = self.is_def_eq_go(fuel, t, s);
        if let Err(TcError::Reject(w)) = r {
            self.trip(w, Ghost(o.ctx.clo(t)), Ghost(o));
        }
        r
    }

    fn is_def_eq_go(&mut self, fuel: u32, t: Clo, s: Clo) -> (r: Result<bool, TcError>)
        requires
            fuel > 0,
            old(self).wf(),
            old(self).ctx.clo_ok(t),
            old(self).ctx.clo_ok(s),
            old(self).ctx.clo(t).bvb() == 0,
            old(self).ctx.clo(s).bvb() == 0,
        ensures
            final(self).wf(),
            final(self).ext(old(self)),
            r matches Ok(true) ==> final(self).g().eq(old(self).ctx.clo(t), old(self).ctx.clo(s)),
            r matches Ok(false) ==> final(self).apart(old(self).ctx.clo(t), old(self).ctx.clo(s)),
            r matches Ok(false) ==> final(self).tells(old(self), true, old(self).ctx.clo(t), old(self).ctx.clo(s)),
            old(self).plain_clo(t) && old(self).plain_clo(s) && old(self).ctx.clo(t) == old(self).ctx.clo(s)
                ==> r == Ok::<bool, TcError>(true),
            r matches Err(err) ==> final(self).accounts(old(self), err),
        decreases fuel,
    {
        let ghost o = *self;
        self.tick(DEF_EQ);
        let ghost g = self.g();
        let ghost x = self.ctx.clo(t);
        let ghost y = self.ctx.clo(s);
        // syntactically equal modulo substitution: answered without
        // evaluating either side
        if self.eq_mod(t.e, t.env, 0, s.e, s.env, 0) {
            proof {
                Sig::e_same(g, x, y);
            }
            return Ok(true);
        }
        let a = self.nb_of_clo(fuel - 1, t)?;
        let ghost ta = self.v(a);
        let b = self.nb_of_clo(fuel - 1, s)?;
        let ghost tb = self.v(b);
        let ghost q = *self;
        let r = self.nb_conv(fuel - 1, 0, a, b)?;
        let ghost f = *self;
        proof {
            if r {
                Sig::e_red(g, x, ta, y, tb);
            }
        }
        let r = self.answer(r, Ghost(x), Ghost(y));
        proof {
            if !r {
                self.lemma_tells(&f, &q, &o, true, x, y, ta, tb);
            }
        }
        Ok(r)
    }

    // ---- inference ----

    /// The type of a closure.
    pub fn infer_clo(&mut self, fuel: u32, c: Clo, flag: InferFlag) -> (r: Result<ExprPtr, TcError>)
        requires
            old(self).wf(),
            old(self).infers(c),
        ensures
            final(self).wf(),
            final(self).ext(old(self)),
            r matches Ok(y) ==> final(self).ctx.st.e_ok(y) && final(self).ctx.st.e(y).nl() == 0
                && final(self).g().ty(flag.checks(), old(self).ctx.clo(c), final(self).ctx.st.e(y)),
            fuel > 1 && old(self).ctx.st.e(c.e).is_leaf() ==> final(self).answers(
                r,
                old(self).g().leaf_type(flag.checks(), old(self).ctx.st.e(c.e)),
            ),
            // a rejection has its grounds, and is remembered
            r matches Err(TcError::Reject(w)) ==> final(self).grounds(flag.checks(), w, old(self).ctx.clo(c))
                && final(self).refuses(flag.checks(), w, old(self).ctx.clo(c)),
            r matches Err(err) ==> final(self).accounts(old(self), err),
        decreases fuel,
    {
        if fuel == 0 {
            return Err(self.out_of_depth(0));
        }
        let ghost t = self.ctx.clo(c);
        let r = self.infer_go(fuel - 1, c, flag);
        if let Err(TcError::Reject(w)) = r {
            let ghost s = *self;
            self.refuse(w, Ghost(flag.checks()), Ghost(t));
            proof {
                self.lemma_grounds(&s, flag.checks(), w, t);
            }
        }
        r
    }

    /// Grounds stay grounds.
    pub proof fn lemma_grounds(&self, o: &TypeChecker, k: bool, w: Reason, t: Term)
        requires
            self.ext(o),
            o.grounds(k, w, t),
        ensures
            self.grounds(k, w, t),
    {
        reveal(TypeChecker::grounds);
        let g = o.g();
        assert(self.g() == g);
        assert forall|j: bool, u: Reason, a: Term| #[trigger] o.no_type(j, u, a) implies self.no_type(j, u, a) by {
            if !o.refuses(j, u, a) {
                let s = choose|s: Term| #[trigger] g.ty(j, a, s) && o.no_sort(u, s);
                assert(g.ty(j, a, s) && self.no_sort(u, s));
            }
        }
        assert forall|j: bool, u: Reason, v: Term, a: Term, m: Reason| #[trigger] o.no_term(j, u, v, a, m) implies self.no_term(
            j,
            u,
            v,
            a,
            m,
        ) by {
            if !o.refuses(j, u, v) {
                let s = choose|s: Term| #[trigger]
                    g.ty(j, v, s) && (o.trips(u, s) || o.trips(u, a) || u == m && (o.apart(s, a) || o.apart(a, s)));
                assert(g.ty(j, v, s));
            }
        }
        match t {
            Term::Lam(_, _, _, _) => {
                if !(!k && o.trips(w, t)) {
                    let ts = choose|ts: Seq<Term>|
                        {
                            &&& ts.len() > 0 && ts[0] == t
                            &&& forall|i: int| 0 <= i < ts.len() - 1 ==> (#[trigger] ts[i]).opens_to(ts[i + 1])
                            &&& #[trigger] ts.last() is Lam && k && o.no_type(true, w, *ts.last()->Lam_2) || ts.len() > 1
                                && o.refuses(k, w, ts.last())
                        };
                    assert(ts.last() is Lam && k && self.no_type(true, w, *ts.last()->Lam_2) || ts.len() > 1
                        && self.refuses(k, w, ts.last()));
                }
            },
            Term::App(_, _) => {
                if !(!k && o.trips(w, t)) {
                    let (h, xs) = choose|h: Term, xs: Seq<Term>| t == #[trigger] Term::apps(h, xs) && xs.len() > 0 && (
                    o.refuses(k, w, h) || exists|i: int| 0 <= i < xs.len() && #[trigger] o.no_arg(k, w, h, xs, i));
                    if !o.refuses(k, w, h) {
                        let i = choose|i: int| 0 <= i < xs.len() && #[trigger] o.no_arg(k, w, h, xs, i);
                        let ft = choose|ft: Term| #[trigger] g.ty(k, Term::apps(h, xs.take(i)), ft) && {
                            ||| o.trips(w, ft)
                            ||| w is NotAFunction && exists|y: Term| #[trigger] g.red(ft, y) && y.headed() && !(y is Pi)
                            ||| k && exists|n: u32, s: BinderStyle, a: Term, b: Term| #[trigger]
                                g.red(ft, Term::pi(n, s, a, b)) && o.no_term(k, w, xs[i], a, Reason::ArgMismatch)
                        };
                        assert(g.ty(k, Term::apps(h, xs.take(i)), ft));
                        assert(self.no_arg(k, w, h, xs, i));
                    }
                    assert(t == Term::apps(h, xs));
                }
            },
            _ => {},
        }
    }

    fn infer_go(&mut self, fuel: u32, c: Clo, flag: InferFlag) -> (r: Result<ExprPtr, TcError>)
        requires
            old(self).wf(),
            old(self).infers(c),
        ensures
            final(self).wf(),
            final(self).ext(old(self)),
            r matches Ok(y) ==> final(self).ctx.st.e_ok(y) && final(self).ctx.st.e(y).nl() == 0
                && final(self).g().ty(flag.checks(), old(self).ctx.clo(c), final(self).ctx.st.e(y)),
            fuel > 0 && old(self).ctx.st.e(c.e).is_leaf() ==> final(self).answers(
                r,
                old(self).g().leaf_type(flag.checks(), old(self).ctx.st.e(c.e)),
            ),
            r matches Err(TcError::Reject(w)) ==> final(self).grounds(flag.checks(), w, old(self).ctx.clo(c)),
            r matches Err(err) ==> final(self).accounts(old(self), err),
        decreases fuel,
    {
        if fuel == 0 {
            return Err(self.out_of_depth(0));
        }
        self.tick(INFER);
        let ghost g = self.g();
        let ghost k = flag.checks();
        let ghost t = self.ctx.clo(c);
        proof {
            self.lemma_clo(c);
            self.lemma_base();
        }
        match self.read_expr(c.e) {
            Expr::Var { dbj_idx } => match self.lookup(c.env, dbj_idx) {
                Entry::Neu(fv) => {
                    self.tick(INF_VAR_NEU);
                    let ghost x = self.ctx.st.e(fv);
                    let ty = self.fvar_type(fv);
                    proof {
                        Sig::t_local(g, k, x->Local_0, x->Local_1, x->Local_2, self.ctx.st.e(ty));
                    }
                    Ok(ty)
                },
                Entry::Val(e2, env2) => {
                    self.tick(INF_VAR_VAL);
                    self.infer_clo(fuel - 1, Clo { e: e2, env: env2 }, flag)
                },
                Entry::V(v) => {
                    self.tick(INF_VAR_VAL);
                    proof {
                        self.lemma_vtime(v);
                    }
                    if flag == InferFlag::Check {
                        // its parts were checked before it was evaluated, and
                        // are checked as they now stand
                        let e = self.nb_readback(v)?;
                        proof {
                            self.lemma_clo_of(e);
                        }
                        return self.infer_clo(fuel - 1, Clo { e, env: ENV_NIL }, flag);
                    }
                    let ghost o = *self;
                    let ty = match self.nb_type(fuel - 1, 0, v) {
                        Ok(ty) => ty,
                        Err(x) => {
                            if let TcError::Reject(w) = x {
                                self.trip(w, Ghost(t), Ghost(o));
                                assert(self.grounds(k, w, t)) by {
                                    reveal(TypeChecker::grounds);
                                }
                            }
                            return Err(x);
                        },
                    };
                    proof {
                        self.lemma_vtime(ty);
                    }
                    self.nb_readback(ty)
                },
            },
            Expr::Lambda { .. } | Expr::Pi { .. } | Expr::Let { .. } | Expr::App { .. } | Expr::Proj { .. } => self.infer_cached(
                fuel - 1,
                c,
                flag,
            ),
            _ => self.infer_leaf(c, flag),
        }
    }

    /// The type of what has no parts to infer: a free variable, a sort, a
    /// constant or a literal.
    pub fn infer_leaf(&mut self, c: Clo, flag: InferFlag) -> (r: Result<ExprPtr, TcError>)
        requires
            old(self).wf(),
            old(self).infers(c),
        ensures
            final(self).wf(),
            final(self).ext(old(self)),
            r matches Ok(y) ==> final(self).ctx.st.e_ok(y) && final(self).ctx.st.e(y).nl() == 0
                && final(self).g().ty(flag.checks(), old(self).ctx.clo(c), final(self).ctx.st.e(y)),
            old(self).ctx.st.e(c.e).is_leaf() ==> final(self).answers(
                r,
                old(self).g().leaf_type(flag.checks(), old(self).ctx.st.e(c.e)),
            ),
            !old(self).ctx.st.e(c.e).is_leaf() ==> r == Err::<ExprPtr, TcError>(TcError::Reject(Reason::BadValue)),
            old(self).ctx.st.e(c.e).is_leaf() ==> (r matches Err(TcError::Reject(w)) ==> final(self).grounds(
                flag.checks(),
                w,
                old(self).ctx.clo(c),
            )),
            r matches Err(err) ==> final(self).accounts(old(self), err),
    {
        let ghost g = self.g();
        let ghost k = flag.checks();
        proof {
            self.lemma_clo(c);
            self.lemma_base();
            reveal(TypeChecker::grounds);
        }
        match self.read_expr(c.e) {
            Expr::Local { binder_type, binder_name, binder_style, id } => {
                self.tick(INF_LOCAL);
                proof {
                    Sig::t_local(g, k, id, binder_name, binder_style, self.ctx.st.e(binder_type));
                }
                Ok(binder_type)
            },
            Expr::Sort { level } => {
                self.tick(INF_SORT);
                if flag == InferFlag::Check {
                    if self.check_level(level).is_err() {
                        let ghost x = Term::Sort(self.ctx.st.l(level));
                        return Err(self.blame(Reason::LevelParam, Ghost(x), Ghost(x)));
                    }
                }
                let ghost l = self.ctx.st.l(level);
                let l2 = self.succ(level)?;
                proof {
                    Sig::t_sort(g, k, l, self.ctx.st.l(l2));
                }
                self.mk(Expr::Sort { level: l2 })
            },
            Expr::Const { name, levels } => {
                self.tick(INF_CONST);
                self.infer_const_at(c.e, name, levels, flag)
            },
            Expr::NatLit { ptr } => {
                if !self.ctx.nat_ext {
                    return Err(self.reject(Reason::Literal));
                }
                match self.ctx.names.get().nat {
                    Some(n) => {
                        proof {
                            Sig::t_nat(g, k, self.ctx.st.n(ptr), n);
                        }
                        let levels = self.no_levels()?;
                        self.mk(Expr::Const { name: n, levels })
                    },
                    None => Err(self.reject(Reason::Literal)),
                }
            },
            Expr::StringLit { ptr } => {
                if !self.ctx.str_ext {
                    return Err(self.reject(Reason::Literal));
                }
                match self.ctx.names.get().string {
                    Some(n) => {
                        proof {
                            Sig::t_str(g, k, self.ctx.st.s(ptr), n);
                        }
                        let levels = self.no_levels()?;
                        self.mk(Expr::Const { name: n, levels })
                    },
                    None => Err(self.reject(Reason::Literal)),
                }
            },
            _ => Err(self.reject(Reason::BadValue)),
        }
    }

    /// Inference of what has parts, remembered under the key of the closure.
    fn infer_cached(&mut self, fuel: u32, c: Clo, flag: InferFlag) -> (r: Result<ExprPtr, TcError>)
        requires
            old(self).wf(),
            old(self).infers(c),
        ensures
            final(self).wf(),
            final(self).ext(old(self)),
            r matches Ok(y) ==> final(self).ctx.st.e_ok(y) && final(self).ctx.st.e(y).nl() == 0
                && final(self).g().ty(flag.checks(), old(self).ctx.clo(c), final(self).ctx.st.e(y)),
            old(self).ctx.st.e(c.e) is Lam || old(self).ctx.st.e(c.e) is Pi || old(self).ctx.st.e(c.e) is Let || old(self).ctx.st.e(c.e) is App || old(self).ctx.st.e(c.e) is Proj ==> (r matches Err(TcError::Reject(w)) ==> final(self).grounds(
                flag.checks(),
                w,
                old(self).ctx.clo(c),
            )),
            r matches Err(err) ==> final(self).accounts(old(self), err),
        decreases fuel,
    {
        if fuel == 0 {
            return Err(self.out_of_depth(0));
        }
        let ghost g = self.g();
        let ghost k = flag.checks();
        let ghost t = self.ctx.clo(c);
        let ghost e0 = self.ctx.st.e(c.e);
        let ghost s0 = self.ctx.w@.n(c.env);
        let key = self.key(c)?;
        let cached = match flag {
            InferFlag::Check => self.recall_infer_check(key.e, key.env),
            InferFlag::InferOnly => self.recall_infer_only(key.e, key.env),
        };
        match cached {
            Some(r) => {
                proof {
                    let s = choose|s: Seq<Term>| #[trigger]
                        Term::key_of(e0, s) == self.ctx.w@.n(key.env) && e0.nl() <= s.len() && g.ty(
                            k,
                            e0.inst(0, s),
                            self.ctx.st.e(r),
                        );
                    Term::lemma_key(e0, s, s0);
                }
                self.tick(INF_HIT);
                return Ok(r);
            },
            None => {
                self.tick(INF_MISS);
            },
        }
        let r = match self.read_expr(c.e) {
            Expr::Lambda { .. } => self.infer_lambda(fuel - 1, c, flag)?,
            Expr::Pi { .. } => self.infer_pi(fuel - 1, c, flag)?,
            Expr::Let { .. } => self.infer_let(fuel - 1, c, flag)?,
            Expr::App { .. } => {
                let s = self.mk_sclo(c);
                proof {
                    self.lemma_sclo(c, &s);
                }
                self.infer_s(fuel - 1, &s, flag)?
            },
            Expr::Proj { ty_name, idx, structure } => self.infer_proj(
                fuel - 1,
                ty_name,
                idx,
                Clo { e: structure, env: c.env },
                flag,
            )?,
            _ => {
                return Err(self.reject(Reason::BadValue));
            },
        };
        proof {
            assert(Term::key_of(e0, s0) == self.ctx.w@.n(key.env));
        }
        match flag {
            InferFlag::Check => {
                self.note_infer_check(key.e, key.env, r);
            },
            InferFlag::InferOnly => {
                self.note_infer_only(key.e, key.env, r);
            },
        }
        Ok(r)
    }

    /// Every level parameter must be bound in the enclosing declaration.
    fn check_level(&self, l: LevelPtr) -> (r: Result<(), TcError>)
        requires
            self.wf(),
            self.ctx.st.l_ok(l),
        ensures
            r == (if self.g().level_ok(self.ctx.st.l(l)) {
                Ok::<(), TcError>(())
            } else {
                Err::<(), TcError>(TcError::Reject(Reason::LevelParam))
            }),
    {
        proof {
            self.lemma_env();
            self.lemma_base();
        }
        match self.declar_info {
            Some(di) => if self.ctx.st.all_uparams_defined(l, di.uparams) {
                Ok(())
            } else {
                Err(TcError::Reject(Reason::LevelParam))
            },
            None => Ok(()),
        }
    }

    /// Every level parameter of a list must be bound.
    fn check_levels(&self, ls: LevelsPtr) -> (r: Result<(), TcError>)
        requires
            self.wf(),
            self.ctx.st.ls_ok(ls),
        ensures
            r == (if self.g().levels_ok(self.ctx.st.ls(ls)) {
                Ok::<(), TcError>(())
            } else {
                Err::<(), TcError>(TcError::Reject(Reason::LevelParam))
            }),
    {
        proof {
            self.lemma_base();
        }
        let v = self.ctx.st.read_levels(ls);
        let mut i: usize = 0;
        while i < v.len()
            invariant
                self.wf(),
                self.ctx.st.list_is(v@, self.ctx.st.ls(ls)),
                i <= v@.len(),
                forall|j: int| 0 <= j < i ==> self.g().level_ok(#[trigger] self.ctx.st.ls(ls)[j]),
            decreases v@.len() - i,
        {
            let r = self.check_level(v[i]);
            proof {
                assert(self.ctx.st.l(v@[i as int]) == self.ctx.st.ls(ls)[i as int]);
            }
            if r.is_err() {
                return r;
            }
            i += 1;
        }
        Ok(())
    }

    /// The type of a constant, its instantiation remembered.
    fn infer_const_at(&mut self, e: ExprPtr, name: NamePtr, levels: LevelsPtr, flag: InferFlag) -> (r: Result<
        ExprPtr,
        TcError,
    >)
        requires
            old(self).wf(),
            old(self).ctx.st.e_ok(e),
            old(self).ctx.st.ls_ok(levels),
            old(self).ctx.st.e(e) == Term::Const(name, old(self).ctx.st.ls(levels)),
        ensures
            final(self).wf(),
            final(self).ext(old(self)),
            r matches Ok(y) ==> final(self).ctx.st.e_ok(y) && final(self).ctx.st.e(y).nl() == 0
                && final(self).g().ty(flag.checks(), old(self).ctx.st.e(e), final(self).ctx.st.e(y)),
            final(self).answers(r, old(self).g().leaf_type(flag.checks(), old(self).ctx.st.e(e))),
            r matches Err(err) ==> final(self).accounts(old(self), err),
    {
        let ghost g = self.g();
        let ghost k = flag.checks();
        let ghost ls = self.ctx.st.ls(levels);
        if !self.env.has_temp_ext() {
            match self.recall_g_inst_ty(e) {
                Some(r) => {
                    // checks still run per occurrence, instantiation reused
                    if flag == InferFlag::Check {
                        if self.check_levels(levels).is_err() {
                            let ghost x = Term::Const(name, self.ctx.st.ls(levels));
                            return Err(self.blame(Reason::LevelParam, Ghost(x), Ghost(x)));
                        }
                    }
                    proof {
                        Sig::t_const(g, k, name, ls);
                    }
                    return Ok(r);
                },
                None => {},
            }
            let r = self.infer_const(name, levels, flag)?;
            self.note_g_inst_ty(e, r);
            return Ok(r);
        }
        self.infer_const(name, levels, flag)
    }

    pub fn infer_const(&mut self, name: NamePtr, levels: LevelsPtr, flag: InferFlag) -> (r: Result<ExprPtr, TcError>)
        requires
            old(self).wf(),
            old(self).ctx.st.ls_ok(levels),
        ensures
            final(self).wf(),
            final(self).ext(old(self)),
            r matches Ok(y) ==> final(self).ctx.st.e_ok(y) && final(self).ctx.st.e(y).nl() == 0
                && final(self).g().ty(flag.checks(), Term::Const(name, old(self).ctx.st.ls(levels)),
                final(self).ctx.st.e(y)),
            r matches Ok(y) ==> final(self).ctx.w@.type_fact(
                Term::Const(name, old(self).ctx.st.ls(levels)),
                final(self).ctx.st.e(y),
            ),
            final(self).answers(
                r,
                old(self).g().leaf_type(flag.checks(), Term::Const(name, old(self).ctx.st.ls(levels))),
            ),
            r matches Err(err) ==> final(self).accounts(old(self), err),
    {
        let ghost g = self.g();
        let ghost k = flag.checks();
        let ghost ls = self.ctx.st.ls(levels);
        proof {
            self.lemma_env();
            self.lemma_base();
        }
        let info = match self.env.get_declar(name) {
            Some(d) => d.info(),
            None => {
                let ghost x = Term::Const(name, self.ctx.st.ls(levels));
                return Err(self.blame(Reason::UnknownConst, Ghost(x), Ghost(x)));
            },
        };
        if self.ctx.st.levels_len(levels) != self.ctx.st.levels_len(info.uparams) {
            return Err(self.reject(Reason::LevelCount));
        }
        if flag == InferFlag::Check {
            if self.check_levels(levels).is_err() {
                let ghost x = Term::Const(name, self.ctx.st.ls(levels));
                return Err(self.blame(Reason::LevelParam, Ghost(x), Ghost(x)));
            }
        }
        proof {
            assert(g.decls.contains_key(name));
            assert(g.decls[name] == self.env.find(name)->0.g(&self.ctx.st));
            Sig::t_const(g, k, name, ls);
            Term::lemma_tsubst_vars(self.ctx.st.e(info.ty), self.ctx.st.ls(info.uparams), ls);
        }
        self.subst_expr_levels(info.ty, info.uparams, levels)
    }

    // ---- binders ----

    /// Open a binder of type `d` over the closure it binds in: the variable
    /// standing for it, and the environment extended with that variable.
    pub fn open_binder(&mut self, c: Clo, d: ExprPtr) -> (r: Result<(u32, ExprPtr, EnvId), TcError>)
        requires
            old(self).wf(),
            old(self).ctx.clo_ok(c),
            old(self).ctx.st.e_ok(d),
            old(self).ctx.st.e(d).nl() == 0,
        ensures
            final(self).wf(),
            final(self).ext(old(self)),
            r matches Ok(x) ==> final(self).ctx.st.e_ok(x.1) && final(self).ctx.st.e(x.1) == Term::local(
                FVarId::DbjLevel(x.0),
                ANONYMOUS,
                BinderStyle::Default,
                old(self).ctx.st.e(d),
            ) && final(self).ctx.w@.n_ok(x.2) && (old(self).ctx.w@.plain(c.env) ==> final(self).ctx.w@.plain(x.2)) && final(self).ctx.w@.n(x.2) == seq![
                final(self).ctx.st.e(x.1),
            ] + old(self).ctx.w@.n(c.env) && old(self).ctx.st.e(d).ml() <= x.0 && old(self).ctx.st.e(c.e).ml() <= x.0
                && old(self).ctx.w@.nlevel(c.env) <= x.0,
            r matches Err(err) ==> err == TcError::Full,
            r matches Err(err) ==> !(err is Reject) && final(self).ran_out(old(self)),
    {
        let a = self.next_level(c.e, c.env)?;
        let b = self.max_level(d)?;
        let level: u32 = if a >= b {
            a
        } else {
            b
        };
        let fv = self.fvar_at(level, d)?;
        let env2 = self.push_entry(c.env, Entry::Neu(fv))?;
        Ok((level, fv, env2))
    }

    /// What is known of binder `i` of a run opened at the levels from `start`
    /// on: the term it heads, the body, and the term that body opens to.
    pub open spec fn binder_ok(g: Sig, k: bool, t: Term, n: u32, s: BinderStyle, d: Term, b: Term, l: u32, t2: Term)
        -> bool {
        &&& t == Term::lam(n, s, d, b)
        &&& t2 == b.inst(0, seq![Term::local(FVarId::DbjLevel(l), ANONYMOUS, BinderStyle::Default, d)])
        &&& d.nl() == 0
        &&& d.ml() <= l
        &&& b.ml() <= l
        &&& k ==> exists|ak: Term, u: Lvl| #[trigger] g.ty(k, d, ak) && #[trigger] g.red(ak, Term::Sort(u))
    }

    fn infer_lambda(&mut self, fuel: u32, c: Clo, flag: InferFlag) -> (r: Result<ExprPtr, TcError>)
        requires
            old(self).wf(),
            old(self).infers(c),
        ensures
            final(self).wf(),
            final(self).ext(old(self)),
            r matches Ok(y) ==> final(self).ctx.st.e_ok(y) && final(self).ctx.st.e(y).nl() == 0
                && final(self).g().ty(flag.checks(), old(self).ctx.clo(c), final(self).ctx.st.e(y)),
            r matches Err(TcError::Reject(w)) ==> final(self).grounds(flag.checks(), w, old(self).ctx.clo(c)),
            r matches Err(err) ==> final(self).accounts(old(self), err),
        decreases fuel,
    {
        if fuel == 0 {
            return Err(self.out_of_depth(0));
        }
        if !self.env_plain(c.env) {
            // the variable that stands for the binder has to be new to the
            // evaluated entries too
            let e = self.reify(c)?;
            proof {
                self.lemma_clo_of(e);
            }
            return self.infer_clo(fuel - 1, Clo { e, env: ENV_NIL }, flag);
        }
        // The whole run of binders is opened before the body is inferred, so
        // the variables standing for them are abstracted out of the inferred
        // type in one traversal rather than one traversal per binder.
        let ghost o = *self;
        let ghost g = self.g();
        let ghost k = flag.checks();
        let mut env: EnvId = c.env;
        let mut e: ExprPtr = c.e;
        let mut binders: Vec<(NamePtr, BinderStyle, ExprPtr)> = Vec::new();
        let mut start: u32 = 0;
        // the term at each binder, the innermost body last, and the bodies
        let ghost mut ts: Seq<Term> = seq![self.ctx.clo(c)];
        let ghost mut bs: Seq<Term> = Seq::empty();
        loop
            invariant
                o == *old(self),
                o.wf(),
                o.plain_clo(c),
                self.wf(),
                self.ext(&o),
                g == o.g(),
                k == flag.checks(),
                fuel > 0,
                self.plain_clo(Clo { e, env }),
                ts.len() == binders@.len() + 1,
                bs.len() == binders@.len(),
                ts[0] == o.ctx.clo(c),
                ts.last() == self.ctx.clo(Clo { e, env }),
                start + binders@.len() <= u32::MAX,
                forall|i: int|
                    0 <= i < binders@.len() ==> self.ctx.st.e_ok((#[trigger] binders@[i]).2) && TypeChecker::binder_ok(
                        g,
                        k,
                        ts[i],
                        binders@[i].0,
                        binders@[i].1,
                        self.ctx.st.e(binders@[i].2),
                        bs[i],
                        (start + i) as u32,
                        ts[i + 1],
                    ),
                forall|i: int| 0 <= i < ts.len() - 1 ==> (#[trigger] ts[i]).opens_to(ts[i + 1]),
            decreases e,
        {
            let (binder_name, binder_style, binder_type, body) = match self.read_expr(e) {
                Expr::Lambda { binder_name, binder_style, binder_type, body } => (
                    binder_name,
                    binder_style,
                    binder_type,
                    body,
                ),
                _ => {
                    break;
                },
            };
            let ghost before = *self;
            let ghost n = self.ctx.w@.n(env);
            let ghost b = self.ctx.st.e(body).inst(1, n);
            let ghost t = self.ctx.clo(Clo { e, env });
            proof {
                self.lemma_plain_clo(Clo { e, env });
                self.lemma_plain_clo(Clo { e: binder_type, env });
            }
            let d = self.reify(Clo { e: binder_type, env })?;
            let ghost dt = self.ctx.st.e(d);
            if flag == InferFlag::Check {
                match self.ensure_type(fuel - 1, d) {
                    Ok(_) => {},
                    Err(x) => {
                        proof {
                            if let TcError::Reject(w) = x {
                                assert(t == Term::lam(binder_name, binder_style, dt, b));
                                self.lemma_run_grounds(k, w, ts);
                            }
                        }
                        return Err(x);
                    },
                }
            }
            let (level, fv, env2) = self.open_binder(Clo { e, env }, d)?;
            if binders.len() == 0 {
                start = level;
            }
            let count: usize = binders.len();
            if level == u32::MAX || level < start || (level - start) as usize != count {
                return Err(self.over_limit());
            }
            let ghost x = self.ctx.st.e(fv);
            let ghost t2 = b.inst(0, seq![x]);
            proof {
                let m = Term::max(before.ctx.st.e(e).ml(), before.ctx.w@.nlevel(env));
                assert(Term::ml_seq(n, m));
                Term::lemma_inst_ml(before.ctx.st.e(body), 1, n, m);
                Term::lemma_inst_open(before.ctx.st.e(body), x, n);
                assert(TypeChecker::binder_ok(g, k, t, binder_name, binder_style, dt, b, level, t2));
                assert(self.ctx.clo(Clo { e: body, env: env2 }) == t2);
            }
            let ghost ob = binders@;
            binders.push((binder_name, binder_style, d));
            proof {
                let ots = ts;
                let obs = bs;
                assert(x.is_var_of(dt));
                assert(t.opens_to(t2));
                ts = ts.push(t2);
                assert forall|i: int| 0 <= i < ts.len() - 1 implies (#[trigger] ts[i]).opens_to(ts[i + 1]) by {
                    if i < ots.len() - 1 {
                        assert(ots[i].opens_to(ots[i + 1]));
                    }
                }
                bs = bs.push(b);
                assert forall|i: int| 0 <= i < binders@.len() implies self.ctx.st.e_ok((#[trigger] binders@[i]).2)
                    && TypeChecker::binder_ok(
                    g,
                    k,
                    ts[i],
                    binders@[i].0,
                    binders@[i].1,
                    self.ctx.st.e(binders@[i].2),
                    bs[i],
                    (start + i) as u32,
                    ts[i + 1],
                ) by {
                    if i < ob.len() {
                        assert(ob[i] == binders@[i]);
                        assert(ots[i + 1] == ts[i + 1]);
                    }
                }
            }
            env = env2;
            e = body;
        }
        proof {
            self.lemma_plain_clo(Clo { e, env });
        }
        let bt0 = match self.infer_clo(fuel - 1, Clo { e, env }, flag) {
            Ok(bt0) => bt0,
            Err(x) => {
                proof {
                    if let TcError::Reject(w) = x {
                        if ts.len() > 1 {
                            self.lemma_run_grounds(k, w, ts);
                        }
                    }
                }
                return Err(x);
            },
        };
        let ghost q0 = self.ctx.st.e(bt0);
        let bt = self.cheap_beta_reduce(bt0)?;
        let ghost q = self.ctx.st.e(bt);
        proof {
            Sig::t_red(g, k, ts.last(), q0, q);
        }
        self.close_binders(bt, start, &binders, Ghost(k), Ghost(ts), Ghost(bs))
    }

    /// Why a run of lambdas has no type: the domain of the innermost one is no
    /// type, or its body was refused one.
    proof fn lemma_run_grounds(&self, k: bool, w: Reason, ts: Seq<Term>)
        requires
            ts.len() > 0,
            ts[0] is Lam,
            forall|i: int| 0 <= i < ts.len() - 1 ==> (#[trigger] ts[i]).opens_to(ts[i + 1]),
            ts.last() is Lam && k && self.no_type(true, w, *ts.last()->Lam_2) || ts.len() > 1 && self.refuses(
                k,
                w,
                ts.last(),
            ),
        ensures
            self.grounds(k, w, ts[0]),
    {
        reveal(TypeChecker::grounds);
    }

    /// Abstract the variables of a run of binders out of the type of its
    /// innermost body.
    fn close_binders(
        &mut self,
        bt: ExprPtr,
        start: u32,
        binders: &Vec<(NamePtr, BinderStyle, ExprPtr)>,
        Ghost(k): Ghost<bool>,
        Ghost(ts): Ghost<Seq<Term>>,
        Ghost(bs): Ghost<Seq<Term>>,
    ) -> (r: Result<ExprPtr, TcError>)
        requires
            old(self).wf(),
            old(self).ctx.st.e_ok(bt),
            old(self).ctx.st.e(bt).nl() == 0,
            start + binders@.len() <= u32::MAX,
            ts.len() == binders@.len() + 1,
            bs.len() == binders@.len(),
            old(self).g().ty(k, ts.last(), old(self).ctx.st.e(bt)),
            forall|i: int|
                0 <= i < binders@.len() ==> old(self).ctx.st.e_ok((#[trigger] binders@[i]).2) && TypeChecker::binder_ok(
                    old(self).g(),
                    k,
                    ts[i],
                    binders@[i].0,
                    binders@[i].1,
                    old(self).ctx.st.e(binders@[i].2),
                    bs[i],
                    (start + i) as u32,
                    ts[i + 1],
                ),
        ensures
            final(self).wf(),
            final(self).ext(old(self)),
            r matches Ok(y) ==> final(self).ctx.st.e_ok(y) && final(self).ctx.st.e(y).nl() == 0 && final(self).g().ty(
                k,
                ts[0],
                final(self).ctx.st.e(y),
            ),
            r matches Err(err) ==> err == TcError::Full,
            r matches Err(err) ==> !(err is Reject) && final(self).ran_out(old(self)),
    {
        let ghost o = *self;
        let ghost g = self.g();
        let n: usize = binders.len();
        let mut r = self.abstr_levels_at(bt, start, start + n as u32)?;
        let ghost mut q: Term = self.ctx.st.e(bt);
        let mut i: usize = n;
        proof {
            Term::lemma_abstr_nl(q, start as nat, (start + n) as nat, 0);
        }
        while i > 0
            invariant
                o == *old(self),
                o.wf(),
                self.wf(),
                self.ext(&o),
                g == o.g(),
                n == binders@.len(),
                i <= n,
                start + n <= u32::MAX,
                ts.len() == n + 1,
                bs.len() == n,
                forall|j: int|
                    0 <= j < n ==> o.ctx.st.e_ok((#[trigger] binders@[j]).2) && TypeChecker::binder_ok(
                        g,
                        k,
                        ts[j],
                        binders@[j].0,
                        binders@[j].1,
                        o.ctx.st.e(binders@[j].2),
                        bs[j],
                        (start + j) as u32,
                        ts[j + 1],
                    ),
                self.ctx.st.e_ok(r),
                self.ctx.st.e(r) == q.abstr(start as nat, (start + i) as nat, 0),
                self.ctx.st.e(r).nl() <= i,
                g.ty(k, ts[i as int], q),
            decreases i,
        {
            i -= 1;
            let (binder_name, binder_style, d0) = binders[i];
            let ghost dt = self.ctx.st.e(d0);
            let ghost l = (start + i) as u32;
            let ghost rt = self.ctx.st.e(r);
            proof {
                assert(binders@[i as int].2 == d0);
                assert(o.ctx.st.e_ok(d0));
                let x = Term::local(FVarId::DbjLevel(l), ANONYMOUS, BinderStyle::Default, dt);
                let t = ts[i as int];
                let b = bs[i as int];
                if k {
                    let (ak, u) = choose|ak: Term, u: Lvl| #[trigger] g.ty(k, dt, ak)
                        && #[trigger] g.red(ak, Term::Sort(u));
                    Sig::t_lam(g, k, binder_name, binder_style, dt, b, x, l, q, ak, u);
                } else {
                    Sig::t_lam(g, k, binder_name, binder_style, dt, b, x, l, q, dt, Lvl::Zero);
                }
                Term::lemma_abstr_split(q, start as nat, l as nat, 0);
                Term::lemma_abstr_nl(dt, start as nat, l as nat, 0);
            }
            let d = self.abstr_levels_at(d0, start, start + i as u32)?;
            r = self.mk(Expr::Pi { binder_name, binder_style, binder_type: d, body: r })?;
            proof {
                q = Term::pi(binder_name, binder_style, dt, q.abstr(l as nat, l as nat + 1, 0));
            }
        }
        proof {
            Term::lemma_abstr_empty(q, start as nat, 0);
        }
        Ok(r)
    }

    /// A type has a sort.
    pub fn ensure_type(&mut self, fuel: u32, d: ExprPtr) -> (r: Result<LevelPtr, TcError>)
        requires
            old(self).wf(),
            old(self).ctx.st.e_ok(d),
            old(self).ctx.st.e(d).nl() == 0,
        ensures
            final(self).wf(),
            final(self).ext(old(self)),
            r matches Ok(l) ==> final(self).ctx.st.l_ok(l) && exists|ak: Term| #[trigger]
                final(self).g().ty(true, old(self).ctx.st.e(d), ak) && final(self).g().red(
                    ak,
                    Term::Sort(final(self).ctx.st.l(l)),
                ),
            r matches Err(TcError::Reject(w)) ==> final(self).no_type(true, w, old(self).ctx.st.e(d)),
            r matches Err(err) ==> final(self).accounts(old(self), err),
        decreases fuel,
    {
        if fuel == 0 {
            return Err(self.out_of_depth(0));
        }
        proof {
            self.lemma_clo_of(d);
        }
        let dty = self.infer_clo(fuel - 1, Clo { e: d, env: ENV_NIL }, InferFlag::Check)?;
        self.ensure_sort_clo(fuel - 1, dty)
    }

    fn infer_pi(&mut self, fuel: u32, c: Clo, flag: InferFlag) -> (r: Result<ExprPtr, TcError>)
        requires
            old(self).wf(),
            old(self).infers(c),
        ensures
            final(self).wf(),
            final(self).ext(old(self)),
            r matches Ok(y) ==> final(self).ctx.st.e_ok(y) && final(self).ctx.st.e(y).nl() == 0
                && final(self).g().ty(flag.checks(), old(self).ctx.clo(c), final(self).ctx.st.e(y)),
            old(self).ctx.st.e(c.e) is Pi ==> (r matches Err(TcError::Reject(w)) ==> final(self).grounds(
                flag.checks(),
                w,
                old(self).ctx.clo(c),
            )),
            r matches Err(err) ==> final(self).accounts(old(self), err),
        decreases fuel,
    {
        if fuel == 0 {
            return Err(self.out_of_depth(0));
        }
        if !self.env_plain(c.env) {
            // the variable that stands for the binder has to be new to the
            // evaluated entries too
            let e = self.reify(c)?;
            proof {
                self.lemma_clo_of(e);
            }
            return self.infer_clo(fuel - 1, Clo { e, env: ENV_NIL }, flag);
        }
        let ghost o = *self;
        let ghost g = self.g();
        let ghost k = flag.checks();
        let (binder_name, binder_style, binder_type, body) = match self.read_expr(c.e) {
            Expr::Pi { binder_name, binder_style, binder_type, body } => (binder_name, binder_style, binder_type, body),
            _ => {
                return Err(self.reject(Reason::BadValue));
            },
        };
        let ghost n = self.ctx.w@.n(c.env);
        let ghost b = self.ctx.st.e(body).inst(1, n);
        proof {
            self.lemma_plain_clo(c);
            self.lemma_plain_clo(Clo { e: binder_type, env: c.env });
            reveal(TypeChecker::grounds);
        }
        let d = self.reify(Clo { e: binder_type, env: c.env })?;
        let ghost a = self.ctx.st.e(d);
        proof {
            self.lemma_clo_of(d);
        }
        let dty = self.infer_clo(fuel - 1, Clo { e: d, env: ENV_NIL }, flag)?;
        let ghost ak = self.ctx.st.e(dty);
        let u = self.ensure_sort_clo(fuel - 1, dty)?;
        let (level, fv, env2) = self.open_binder(c, d)?;
        let ghost x = self.ctx.st.e(fv);
        proof {
            let m = Term::max(o.ctx.st.e(c.e).ml(), o.ctx.w@.nlevel(c.env));
            assert(Term::ml_seq(n, m));
            Term::lemma_inst_ml(o.ctx.st.e(body), 1, n, m);
            Term::lemma_inst_open(o.ctx.st.e(body), x, n);
            assert(x.is_var_of(a));
        }
        proof {
            self.lemma_plain_clo(Clo { e: body, env: env2 });
        }
        let bt = self.infer_clo(fuel - 1, Clo { e: body, env: env2 }, flag)?;
        let ghost bk = self.ctx.st.e(bt);
        let s = self.ensure_sort_clo(fuel - 1, bt)?;
        let lvl = self.imax(u, s)?;
        let lvl = self.simplify(lvl)?;
        proof {
            Sig::t_pi(
                g,
                k,
                binder_name,
                binder_style,
                a,
                b,
                x,
                ak,
                self.ctx.st.l(u),
                bk,
                self.ctx.st.l(s),
                self.ctx.st.l(lvl),
            );
        }
        self.mk(Expr::Sort { level: lvl })
    }

    fn infer_let(&mut self, fuel: u32, c: Clo, flag: InferFlag) -> (r: Result<ExprPtr, TcError>)
        requires
            old(self).wf(),
            old(self).infers(c),
        ensures
            final(self).wf(),
            final(self).ext(old(self)),
            r matches Ok(y) ==> final(self).ctx.st.e_ok(y) && final(self).ctx.st.e(y).nl() == 0
                && final(self).g().ty(flag.checks(), old(self).ctx.clo(c), final(self).ctx.st.e(y)),
            old(self).ctx.st.e(c.e) is Let ==> (r matches Err(TcError::Reject(w)) ==> final(self).grounds(
                flag.checks(),
                w,
                old(self).ctx.clo(c),
            )),
            r matches Err(err) ==> final(self).accounts(old(self), err),
        decreases fuel,
    {
        if fuel == 0 {
            return Err(self.out_of_depth(0));
        }
        let ghost o = *self;
        let ghost g = self.g();
        let ghost k = flag.checks();
        let (binder_name, binder_type, val, body, nondep) = match self.read_expr(c.e) {
            Expr::Let { binder_name, binder_type, val, body, nondep } => (binder_name, binder_type, val, body, nondep),
            _ => {
                return Err(self.reject(Reason::BadValue));
            },
        };
        let ghost n = self.ctx.w@.n(c.env);
        let ghost b = self.ctx.st.e(body).inst(1, n);
        let ghost v = self.ctx.clo(Clo { e: val, env: c.env });
        proof {
            self.lemma_clo(c);
            self.lemma_clo(Clo { e: binder_type, env: c.env });
            self.lemma_clo(Clo { e: val, env: c.env });
            reveal(TypeChecker::grounds);
        }
        let ghost mut ak: Term = v;
        let ghost mut u: Lvl = Lvl::Zero;
        let ghost mut vt: Term = v;
        let t = self.reify(Clo { e: binder_type, env: c.env })?;
        let ghost a = self.ctx.st.e(t);
        if flag == InferFlag::Check {
            let l = self.ensure_type(fuel - 1, t)?;
            proof {
                u = self.ctx.st.l(l);
                ak = choose|ak: Term| #[trigger] g.ty(true, a, ak) && g.red(ak, Term::Sort(u));
            }
            let vty = self.infer_clo(fuel - 1, Clo { e: val, env: c.env }, flag)?;
            proof {
                vt = self.ctx.st.e(vty);
                self.lemma_clo_of(vty);
                self.lemma_clo_of(t);
            }
            if !self.is_def_eq(fuel - 1, Clo { e: vty, env: ENV_NIL }, Clo { e: t, env: ENV_NIL })? {
                return Err(self.blame(Reason::ValueMismatch, Ghost(vt), Ghost(a)));
            }
        }
        proof {
            self.lemma_ntime(c.env);
        }
        let env2 = self.push_entry(c.env, Entry::Val(val, c.env))?;
        proof {
            Term::lemma_inst_open(o.ctx.st.e(body), v, n);
            Term::lemma_inst_bvb(b, 0, seq![v], 0);
        }
        let r = self.infer_clo(fuel - 1, Clo { e: body, env: env2 }, flag)?;
        proof {
            Sig::t_let(g, k, binder_name, nondep, a, v, b, self.ctx.st.e(r), ak, u, vt);
        }
        Ok(r)
    }
}

} // verus!
