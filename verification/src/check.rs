//! What a checker is asked, and the check of a declaration.
use crate::closure::{Clo, ENV_NIL};
use crate::ctx::TcCtx;
use crate::env::{Declar, DeclarInfo, Declars, Env};
use crate::error::{Reason, TcError};
use crate::expr::{Expr, ExprPtr, Store};
use crate::level::{LevelPtr, NamePtr};
use crate::names::NameTable;
use crate::nbe::{ValId, Value};
use crate::rapier::RapierSt;
use crate::tc::{InferFlag, Log, TypeChecker, DEPTH_LIMIT};
use crate::term::{Lvl, Term};
use crate::theory::{NameCache, Names, Sig};
use vstd::prelude::*;

verus! {

broadcast use crate::tc::group_tc;

impl<'x> TypeChecker<'x> {
    /// A checker over the state `ctx`, against the declarations of `env`.
    pub fn new(ctx: TcCtx, env: &'x Env<'x>, name_tab: &'x NameTable, declar_info: Option<DeclarInfo>)
        -> (r: TypeChecker<'x>)
        requires
            ctx.wf(),
            env.models(&ctx.st, ctx.w@.g),
            match declar_info {
                Some(d) => ctx.st.ls_ok(d.uparams) && ctx.w@.g.uparams == Some(ctx.st.ls(d.uparams)),
                None => ctx.w@.g.uparams is None,
            },
        ensures
            r.wf(),
            r.ctx == ctx,
            r.env == env,
            r.declar_info == declar_info,
            r.name_tab == name_tab,
            r.st0@ == ctx.st,
    {
        let ghost st0 = ctx.st;
        let r = TypeChecker { ctx, env, declar_info, name_tab, rs: RapierSt::new(), st0: Ghost(st0), gone: Ghost(0),
            no: Ghost(Set::empty()), faults: Ghost(Seq::empty()),
            log: Log::new() };
        proof {
            r.rs.lemma_empty(r.ctx.w@, &r.ctx.st);
            reveal(TypeChecker::wf);
            st0.lemma_ext_refl();
        }
        r
    }

    /// The type of `e`.
    pub fn infer(&mut self, e: ExprPtr, flag: InferFlag) -> (r: Result<ExprPtr, TcError>)
        requires
            old(self).wf(),
            old(self).ctx.st.e_ok(e),
            old(self).ctx.st.e(e).nl() == 0,
        ensures
            final(self).wf(),
            final(self).ext(old(self)),
            r matches Ok(y) ==> final(self).ctx.st.e_ok(y) && final(self).ctx.st.e(y).nl() == 0
                && final(self).g().ty(flag.checks(), old(self).ctx.st.e(e), final(self).ctx.st.e(y)),
            old(self).ctx.st.e(e).is_leaf() ==> final(self).answers(
                r,
                old(self).g().leaf_type(flag.checks(), old(self).ctx.st.e(e)),
            ),
            // a rejection has its grounds in a premise of the typing rule
            r matches Err(TcError::Reject(w)) ==> final(self).grounds(flag.checks(), w, old(self).ctx.st.e(e))
                && final(self).refuses(flag.checks(), w, old(self).ctx.st.e(e)),
            r matches Err(err) ==> final(self).accounts(old(self), err),
    {
        proof {
            self.lemma_clo_of(e);
        }
        self.infer_clo(DEPTH_LIMIT, Clo { e, env: ENV_NIL }, flag)
    }

    /// Term `t` is what a value in weak head normal form stands for.
    pub open spec fn rests_at(&self, t: Term) -> bool {
        exists|x: ValId| #[trigger] self.v_ok(x) && self.v(x) == t && self.at_rest(x)
    }

    /// The weak head normal form of `e`, the level of a sort simplified.  A
    /// lambda, a literal and a free variable are their own.
    pub fn whnf(&mut self, e: ExprPtr) -> (r: Result<ExprPtr, TcError>)
        requires
            old(self).wf(),
            old(self).ctx.st.e_ok(e),
            old(self).ctx.st.e(e).nl() == 0,
        ensures
            final(self).wf(),
            final(self).ext(old(self)),
            r matches Ok(y) ==> final(self).ctx.st.e_ok(y) && final(self).ctx.st.e(y).nl() == 0 && final(self).g().red(
                old(self).ctx.st.e(e),
                final(self).ctx.st.e(y),
            ) && final(self).ctx.st.e(y).headed(),
            old(self).ctx.st.e(e).is_whnf() ==> r == Ok::<ExprPtr, TcError>(e),
            old(self).ctx.st.e(e) matches Term::Sort(l) ==> match r {
                Ok(y) => final(self).ctx.st.e(y) == Term::Sort(l.simp()),
                Err(x) => x == TcError::Full,
            },
            r matches Ok(y) ==> (final(self).ctx.st.e(y) matches Term::Sort(m) ==> m.simp() == m),
            old(self).ctx.st.e(e) is Pi ==> (r matches Ok(y) ==> final(self).ctx.st.e(y) is Pi),
            // of what can reduce, nothing is left to reduce at the head
            old(self).ctx.st.e(e) is App || old(self).ctx.st.e(e) is Const || old(self).ctx.st.e(e) is Proj || old(
                self,
            ).ctx.st.e(e) is Let ==> (r matches Ok(y) ==> final(self).ctx.st.e(y) is Sort || final(self).rests_at(
                final(self).ctx.st.e(y),
            )),
            r matches Err(TcError::Reject(w)) ==> final(self).trips(w, old(self).ctx.st.e(e)),
            r matches Err(err) ==> final(self).accounts(old(self), err),
    {
        let ghost o = *self;
        let ghost g = self.g();
        let ghost t = self.ctx.st.e(e);
        proof {
            self.lemma_clo_of(e);
            Sig::steps_refl(g, t);
        }
        match self.read_expr(e) {
            Expr::Lambda { .. } | Expr::NatLit { .. } | Expr::StringLit { .. } | Expr::Local { .. } => {
                return Ok(e);
            },
            Expr::Pi { .. } => {
                let v = match self.nb_eval(DEPTH_LIMIT, 0, ENV_NIL, e) {
                    Ok(v) => v,
                    Err(x) => {
                        if let TcError::Reject(w) = x {
                            self.trip(w, Ghost(t), Ghost(o));
                        }
                        return Err(x);
                    },
                };
                proof {
                    self.lemma_vtime(v);
                }
                return self.nb_readback(v);
            },
            Expr::Sort { level } => {
                let ghost l = self.ctx.st.l(level);
                let level2 = self.simplify(level)?;
                proof {
                    Sig::r_level(g, l, self.ctx.st.l(level2));
                }
                return self.mk(Expr::Sort { level: level2 });
            },
            _ => {},
        }
        let v = self.nb_whnf_clo(DEPTH_LIMIT, Clo { e, env: ENV_NIL })?;
        proof {
            self.lemma_vtime(v);
        }
        let node = self.get(v);
        let ghost s = *self;
        let out = self.nb_readback(v)?;
        let ghost u = self.ctx.st.e(out);
        proof {
            if let Value::Unfold { levels, .. } = node {
                assert(s.ctx.st.ls_ok(levels));
            }
            assert(self.at_rest(v));
            assert(self.v_ok(v));
        }
        match self.read_expr(out) {
            Expr::Sort { level } => {
                let ghost l = self.ctx.st.l(level);
                let level2 = self.simplify(level)?;
                proof {
                    Sig::r_level(g, l, self.ctx.st.l(level2));
                    Sig::r_trans(g, t, u, Term::Sort(self.ctx.st.l(level2)));
                }
                self.mk(Expr::Sort { level: level2 })
            },
            _ => Ok(out),
        }
    }

    /// Whether `x` and `y` are definitionally equal.  Equal expressions are,
    /// whatever else is in scope, and different literals of a kind are not.
    pub fn def_eq(&mut self, x: ExprPtr, y: ExprPtr) -> (r: Result<bool, TcError>)
        requires
            old(self).wf(),
            old(self).ctx.st.e_ok(x),
            old(self).ctx.st.e(x).nl() == 0,
            old(self).ctx.st.e_ok(y),
            old(self).ctx.st.e(y).nl() == 0,
        ensures
            final(self).wf(),
            final(self).ext(old(self)),
            r matches Ok(true) ==> final(self).g().eq(old(self).ctx.st.e(x), old(self).ctx.st.e(y)),
            r matches Ok(false) ==> final(self).apart(old(self).ctx.st.e(x), old(self).ctx.st.e(y)),
            old(self).ctx.st.e(x) == old(self).ctx.st.e(y) ==> r == Ok::<bool, TcError>(true),
            Term::both_literals(old(self).ctx.st.e(x), old(self).ctx.st.e(y)) ==> r == Ok::<bool, TcError>(
                old(self).ctx.st.e(x) == old(self).ctx.st.e(y),
            ),
            // a no has its cause in what the two reduce to
            r matches Ok(false) ==> Term::both_literals(old(self).ctx.st.e(x), old(self).ctx.st.e(y)) || final(self).tells(
                old(self),
                true,
                old(self).ctx.st.e(x),
                old(self).ctx.st.e(y),
            ),
            r matches Err(TcError::Reject(w)) ==> final(self).trips(w, old(self).ctx.st.e(x)),
            r matches Err(err) ==> final(self).accounts(old(self), err),
    {
        proof {
            self.lemma_clo_of(x);
            self.lemma_clo_of(y);
            self.lemma_base();
            if self.ctx.st.e(x) == self.ctx.st.e(y) {
                self.ctx.st.lemma_e_injective(x, y);
            }
            Sig::eq_refl(self.g(), self.ctx.st.e(x));
        }
        match (self.read_expr(x), self.read_expr(y)) {
            (Expr::NatLit { .. }, Expr::NatLit { .. }) | (Expr::StringLit { .. }, Expr::StringLit { .. }) => {
                return Ok(self.answer(x == y, Ghost(self.ctx.st.e(x)), Ghost(self.ctx.st.e(y))));
            },
            _ => {},
        }
        self.is_def_eq(DEPTH_LIMIT, Clo { e: x, env: ENV_NIL }, Clo { e: y, env: ENV_NIL })
    }

    /// `u` and `v` must be definitionally equal.
    pub fn assert_def_eq(&mut self, u: ExprPtr, v: ExprPtr) -> (r: Result<(), TcError>)
        requires
            old(self).wf(),
            old(self).ctx.st.e_ok(u),
            old(self).ctx.st.e(u).nl() == 0,
            old(self).ctx.st.e_ok(v),
            old(self).ctx.st.e(v).nl() == 0,
        ensures
            final(self).wf(),
            final(self).ext(old(self)),
            r is Ok ==> final(self).g().eq(old(self).ctx.st.e(u), old(self).ctx.st.e(v)),
            old(self).ctx.st.e(u) == old(self).ctx.st.e(v) ==> r is Ok,
            r matches Err(TcError::Reject(w)) ==> final(self).trips(w, old(self).ctx.st.e(u)) || w is NotEqual
                && final(self).apart(old(self).ctx.st.e(u), old(self).ctx.st.e(v)),
            r matches Err(err) ==> final(self).accounts(old(self), err),
    {
        if self.def_eq(u, v)? {
            Ok(())
        } else {
            Err(self.blame(Reason::NotEqual, Ghost(self.ctx.st.e(u)), Ghost(self.ctx.st.e(v))))
        }
    }

    /// The type of `e`, reduced.
    pub fn infer_then_whnf(&mut self, e: ExprPtr, flag: InferFlag) -> (r: Result<ExprPtr, TcError>)
        requires
            old(self).wf(),
            old(self).ctx.st.e_ok(e),
            old(self).ctx.st.e(e).nl() == 0,
        ensures
            final(self).wf(),
            final(self).ext(old(self)),
            r matches Ok(y) ==> final(self).ctx.st.e_ok(y) && final(self).ctx.st.e(y).nl() == 0
                && final(self).g().ty(flag.checks(), old(self).ctx.st.e(e), final(self).ctx.st.e(y))
                && final(self).ctx.st.e(y).headed(),
            r matches Err(err) ==> final(self).accounts(old(self), err),
    {
        let ghost g = self.g();
        let ghost t = self.ctx.st.e(e);
        let ty = self.infer(e, flag)?;
        let ghost a = self.ctx.st.e(ty);
        let r = self.whnf(ty)?;
        proof {
            Sig::t_red(g, flag.checks(), t, a, self.ctx.st.e(r));
        }
        Ok(r)
    }

    /// Whether `e` is a proposition, and its type.
    pub fn is_prop(&mut self, e: ExprPtr) -> (r: Result<(bool, ExprPtr), TcError>)
        requires
            old(self).wf(),
            old(self).ctx.st.e_ok(e),
            old(self).ctx.st.e(e).nl() == 0,
        ensures
            final(self).wf(),
            final(self).ext(old(self)),
            r matches Ok(x) ==> final(self).ctx.st.e_ok(x.1) && final(self).ctx.st.e(x.1).nl() == 0
                && final(self).g().ty(
                false,
                old(self).ctx.st.e(e),
                final(self).ctx.st.e(x.1),
            ) && final(self).ctx.st.e(x.1).headed() && (x.0 ==> (final(self).ctx.st.e(x.1) matches Term::Sort(l)
                && l.is_zero()))
                && (final(self).ctx.st.e(x.1)
                == Term::Sort(Lvl::Zero) ==> x.0),
            r matches Err(err) ==> final(self).accounts(old(self), err),
    {
        let ty = self.infer_then_whnf(e, InferFlag::InferOnly)?;
        match self.read_expr(ty) {
            Expr::Sort { level } => {
                let b = self.is_zero(level)?;
                Ok((b, ty))
            },
            _ => Ok((false, ty)),
        }
    }

    /// Whether `e` is a proof, and its type.
    pub fn is_proof(&mut self, e: ExprPtr) -> (r: Result<(bool, ExprPtr), TcError>)
        requires
            old(self).wf(),
            old(self).ctx.st.e_ok(e),
            old(self).ctx.st.e(e).nl() == 0,
        ensures
            final(self).wf(),
            final(self).ext(old(self)),
            r matches Ok(x) ==> final(self).ctx.st.e_ok(x.1) && final(self).ctx.st.e(x.1).nl() == 0
                && final(self).g().ty(
                false,
                old(self).ctx.st.e(e),
                final(self).ctx.st.e(x.1),
            ) && final(self).ctx.w@.prop_answer(final(self).ctx.st.e(x.1), x.0),
            r matches Err(err) ==> final(self).accounts(old(self), err),
    {
        let infd = self.infer(e, InferFlag::InferOnly)?;
        let ghost t = self.ctx.st.e(infd);
        let (b, k) = self.is_prop(infd)?;
        proof {
            let w = self.ctx.st.e(k);
            Term::lemma_same_refl(w);
            Sig::r_same(self.g(), w, w);
            assert(self.g().ty(false, t, w) && self.g().red(w, w));
            if b {
                assert(w == Term::Sort(w->Sort_0) && w->Sort_0.is_zero());
            }
        }
        Ok((b, infd))
    }

    /// The level of the sort `e` reduces to.
    pub fn ensure_sort(&mut self, e: ExprPtr) -> (r: Result<LevelPtr, TcError>)
        requires
            old(self).wf(),
            old(self).ctx.st.e_ok(e),
            old(self).ctx.st.e(e).nl() == 0,
        ensures
            final(self).wf(),
            final(self).ext(old(self)),
            r matches Ok(l) ==> final(self).ctx.st.l_ok(l) && final(self).g().red(
                old(self).ctx.st.e(e),
                Term::Sort(final(self).ctx.st.l(l)),
            ),
            old(self).ctx.st.e(e) is Sort
                ==> (r matches Ok(l) && final(self).ctx.st.l(l) == old(self).ctx.st.e(e)->Sort_0),
            r matches Err(TcError::Reject(w)) ==> final(self).no_sort(w, old(self).ctx.st.e(e)),
            r matches Err(err) ==> final(self).accounts(old(self), err),
    {
        let ghost t = self.ctx.st.e(e);
        match self.read_expr(e) {
            Expr::Sort { level } => {
                proof {
                    Sig::steps_refl(self.g(), t);
                }
                return Ok(level);
            },
            _ => {},
        }
        let whnfd = self.whnf(e)?;
        match self.read_expr(whnfd) {
            Expr::Sort { level } => Ok(level),
            _ => Err(self.blame(Reason::NotASort, Ghost(t), Ghost(self.ctx.st.e(whnfd)))),
        }
    }

    /// The level of the sort `e` lives in.
    pub fn ensure_infers_as_sort(&mut self, e: ExprPtr) -> (r: Result<LevelPtr, TcError>)
        requires
            old(self).wf(),
            old(self).ctx.st.e_ok(e),
            old(self).ctx.st.e(e).nl() == 0,
        ensures
            final(self).wf(),
            final(self).ext(old(self)),
            r matches Ok(l) ==> final(self).ctx.st.l_ok(l) && final(self).g().is_type(
                old(self).ctx.st.e(e),
                final(self).ctx.st.l(l),
            ),
            old(self).ctx.st.e(e) matches Term::Sort(l) ==> match r {
                Ok(_) => old(self).g().level_ok(l),
                Err(x) => x == TcError::Full || x == TcError::Reject(Reason::LevelParam) && !old(self).g().level_ok(l),
            },
            r matches Err(TcError::Reject(w)) ==> final(self).no_type(true, w, old(self).ctx.st.e(e)),
            r matches Err(err) ==> final(self).accounts(old(self), err),
    {
        let ghost t = self.ctx.st.e(e);
        let infd = self.infer(e, InferFlag::Check)?;
        let ghost s = self.ctx.st.e(infd);
        let l = self.ensure_sort(infd)?;
        proof {
            assert(self.g().ty(true, t, s) && self.g().red(s, Term::Sort(self.ctx.st.l(l))));
        }
        Ok(l)
    }

    /// Why a declaration fails the preliminary checks: its level parameters are
    /// out of order, its type has free variables or is no type, or it is a
    /// theorem and the sort of its type is not zero.
    pub open spec fn info_refused(&self, d: &Declar, st: &Store, w: Reason) -> bool {
        let ty = st.e(d.info_spec().ty);
        ||| w is DuplicateParam && !d.params_ok(st)
        ||| w is FreeVar && ty.has_fv()
        ||| self.no_type(true, w, ty)
        ||| w is NotAProp && d is Theorem && exists|l: Lvl| #[trigger] self.g().is_type(ty, l) && !l.is_zero()
    }

    /// Why a declaration is rejected: it fails the preliminary checks, or its
    /// value is not of its type.
    pub open spec fn declar_refused(&self, d: &Declar, st: &Store, w: Reason) -> bool {
        self.info_refused(d, st, w) || (d.value() matches Some(v) && self.no_term(
            true,
            w,
            st.e(v),
            st.e(d.info_spec().ty),
            Reason::NotEqual,
        ))
    }

    /// The preliminary checks done on all declarations: a declaration must not
    /// repeat a level parameter, must not have free variables, and must have
    /// an ascribed type that is actually a type.  The type of a theorem must
    /// be a proposition.
    pub fn check_declar_info(&mut self, d: &Declar) -> (r: Result<(), TcError>)
        requires
            old(self).wf(),
            d.ok(&old(self).ctx.st),
        ensures
            final(self).wf(),
            final(self).ext(old(self)),
            r is Ok ==> d.info_checked(&old(self).ctx.st, final(self).g()),
            !d.params_ok(&old(self).ctx.st) ==> r == Err::<(), TcError>(TcError::Reject(Reason::DuplicateParam)),
            d.params_ok(&old(self).ctx.st) && old(self).ctx.st.e(d.info_spec().ty).has_fv() ==> r == Err::<(), TcError>(
                TcError::Reject(Reason::FreeVar),
            ),
            d.of_sort(&old(self).ctx.st, old(self).g()) ==> r is Ok || r == Err::<(), TcError>(TcError::Full),
            r matches Err(TcError::Reject(w)) ==> final(self).info_refused(d, &old(self).ctx.st, w),
            r matches Err(err) ==> final(self).accounts(old(self), err),
    {
        let info = d.info();
        proof {
            self.lemma_ctx();
        }
        if !self.ctx.st.no_dupes_all_params(info.uparams) {
            let ghost x = Term::Const(info.name, self.ctx.st.ls(info.uparams));
            return Err(self.blame(Reason::DuplicateParam, Ghost(x), Ghost(x)));
        }
        if self.ctx.st.has_fvars(info.ty) {
            let ghost x = self.ctx.st.e(info.ty);
            return Err(self.blame(Reason::FreeVar, Ghost(x), Ghost(x)));
        }
        let sort = self.ensure_infers_as_sort(info.ty)?;
        // A soft check as far as soundness goes: theorems are propositions.
        match d {
            Declar::Theorem { .. } => {
                if !self.is_zero(sort)? {
                    let ghost x = self.ctx.st.e(info.ty);
                    let ghost y = Term::Sort(self.ctx.st.l(sort));
                    proof {
                        assert(self.g().is_type(x, self.ctx.st.l(sort)));
                    }
                    return Err(self.blame(Reason::NotAProp, Ghost(x), Ghost(y)));
                }
            },
            _ => {},
        }
        Ok(())
    }
}

impl Term {
    /// Two numbers, or two strings.
    pub open spec fn both_literals(a: Term, b: Term) -> bool {
        (a is Nat && b is Nat) || (a is Str && b is Str)
    }

    /// A lambda, a literal or a free variable.
    pub open spec fn is_whnf(self) -> bool {
        self is Lam || self is Nat || self is Str || self is Local
    }
}

impl Sig {
    /// `t` is a type of the universe `l`.
    pub open spec fn is_type(self, t: Term, l: Lvl) -> bool {
        exists|s: Term| #[trigger] self.ty(true, t, s) && self.red(s, Term::Sort(l))
    }

    /// `v` is a term of the type `t`.
    pub open spec fn is_term(self, v: Term, t: Term) -> bool {
        exists|s: Term| #[trigger] self.ty(true, v, s) && self.eq(s, t)
    }
}

impl Declar {
    /// The level parameters are parameters, none of them twice.
    pub open spec fn params_ok(&self, st: &Store) -> bool {
        let ls = st.ls(self.info_spec().uparams);
        ls.no_duplicates() && forall|i: int| 0 <= i < ls.len() ==> #[trigger] ls[i] is Param
    }

    /// The preliminary checks hold.
    pub open spec fn info_checked(&self, st: &Store, g: Sig) -> bool {
        let ty = st.e(self.info_spec().ty);
        &&& self.params_ok(st)
        &&& !ty.has_fv()
        &&& exists|l: Lvl| #[trigger] g.is_type(ty, l) && (self is Theorem ==> l.is_zero())
    }

    /// A declaration, no theorem, whose parameters are in order and whose type
    /// is a sort over them.
    pub open spec fn of_sort(&self, st: &Store, g: Sig) -> bool {
        &&& !(self is Theorem)
        &&& self.params_ok(st)
        &&& st.e(self.info_spec().ty) matches Term::Sort(l) && g.level_ok(l)
    }

    /// A declaration of a sort over its parameters, with no value or with a
    /// leaf of that type.
    pub open spec fn plain(&self, st: &Store, g: Sig) -> bool {
        &&& self.of_sort(st, g)
        &&& self.value() matches Some(v) ==> st.e(v).is_leaf() && g.leaf_type(true, st.e(v)) == Ok::<Term, TcError>(
            st.e(self.info_spec().ty),
        )
    }

    /// The value of a declaration that has one.
    pub open spec fn value(&self) -> Option<ExprPtr> {
        match self {
            Declar::Definition { val, .. } => Some(*val),
            Declar::Theorem { val, .. } => Some(*val),
            Declar::Opaque { val, .. } => Some(*val),
            _ => None,
        }
    }

    /// What the declaration names is declared.
    pub open spec fn refers(&self, ds: &Declars) -> bool {
        match self {
            Declar::Constructor(d) => ds.pos(d.inductive_name) is Some,
            Declar::Recursor(d) => forall|i: int|
                0 <= i < d.all_inductives@.len() ==> ds.pos(#[trigger] d.all_inductives@[i]) is Some,
            _ => true,
        }
    }
}

/// How an export file is to be checked.
#[derive(Clone, Copy)]
pub struct Config {
    pub nat_extension: bool,
    pub string_extension: bool,
    pub num_threads: usize,
}

/// Declarations to check, with the expressions they are made of.
pub struct ExportFile {
    pub st: Store,
    pub declars: Declars,
    pub names: NameCache,
    pub name_tab: NameTable,
    pub config: Config,
}

/// Which declarations of a file a run checks, and how often.
#[derive(Clone, Copy)]
pub struct Window {
    /// Declarations before this one are left out.
    pub skip: usize,
    /// Declarations after this one are left out.
    pub stop_after: Option<usize>,
    /// How often each one is checked; once is the least.
    pub repeat: usize,
}

impl Window {
    /// How often declaration `i` is checked.
    pub fn runs(&self, i: usize) -> (r: usize)
        ensures
            r == (if i < self.skip || (self.stop_after matches Some(s) && i > s) {
                0
            } else if self.repeat < 1 {
                1
            } else {
                self.repeat as int
            }),
    {
        if i < self.skip {
            return 0;
        }
        if let Some(s) = self.stop_after {
            if i > s {
                return 0;
            }
        }
        if self.repeat < 1 {
            1
        } else {
            self.repeat
        }
    }
}

/// What became of a declaration that was not rejected.
#[derive(Clone, Copy, PartialEq, Eq, Structural, Debug)]
pub enum Verdict {
    /// Every check passed.
    Accepted,
    /// An inductive type: the check of its block is still to be made.
    Inductive,
    /// A quotient primitive: the check of its form is still to be made.
    Quot,
}

impl ExportFile {
    /// The declarations are named once, and made of expressions of the file.
    pub open spec fn wf(&self) -> bool {
        &&& self.st.wf()
        &&& self.declars.wf()
        &&& forall|i: int| 0 <= i < self.declars@.len() ==> (#[trigger] self.declars@[i]).ok(&self.st)
    }

    /// The signature of the first `n` declarations.
    pub open spec fn sig(&self, n: int, uparams: Option<Seq<Lvl>>) -> Sig {
        Sig {
            decls: Map::new(
                |m: u32| Env::find_in(&self.declars, n, m) is Some,
                |m: u32| Env::find_in(&self.declars, n, m)->0.g(&self.st),
            ),
            names: Names::of(self.names),
            nat_ext: self.config.nat_extension,
            str_ext: self.config.string_extension,
            uparams,
        }
    }

    /// The signature declaration `i` is checked against: what comes before
    /// it, and its own level parameters.
    pub open spec fn sig_of(&self, i: int) -> Sig {
        self.sig(i, Some(self.st.ls(self.declars@[i].info_spec().uparams)))
    }

    /// Declaration `i` is well formed over what comes before it.
    pub open spec fn accepts(&self, i: int) -> bool {
        let d = self.declars@[i];
        let g = self.sig_of(i);
        &&& d.info_checked(&self.st, g)
        &&& d.value() matches Some(v) ==> g.is_term(self.st.e(v), self.st.e(d.info_spec().ty))
        &&& d.refers(&self.declars)
    }

    /// A verdict that is true of declaration `i`.
    pub open spec fn verdict_ok(&self, i: int, v: Verdict) -> bool {
        match v {
            Verdict::Accepted => self.accepts(i) && !(self.declars@[i] is Inductive) && !(self.declars@[i] is Quot),
            Verdict::Inductive => self.declars@[i] is Inductive,
            Verdict::Quot => self.declars@[i] is Quot,
        }
    }

    /// What the answer `r` on declaration `i`, no inductive type and no quotient
    /// primitive, has to be where its parameters are out of order, where its
    /// type has free variables, and where its type is a sort and its value, if
    /// it has one, a leaf of that type.  An error is one that came up in the check.
    pub open spec fn settles(&self, i: int, r: Result<Verdict, TcError>) -> bool {
        let d = self.declars@[i];
        &&& !d.params_ok(&self.st) ==> r == Err::<Verdict, TcError>(TcError::Reject(Reason::DuplicateParam))
        &&& d.params_ok(&self.st) && self.st.e(d.info_spec().ty).has_fv() ==> r == Err::<Verdict, TcError>(
            TcError::Reject(Reason::FreeVar),
        )
        &&& d.plain(&self.st, self.sig_of(i)) && d.refers(&self.declars) ==> r == Ok::<Verdict, TcError>(
            Verdict::Accepted,
        ) || r == Err::<Verdict, TcError>(TcError::Full)
        &&& r is Err ==> (r->Err_0 == TcError::Reject(Reason::BadName) && !d.refers(&self.declars)) || self.accounted(
            i,
            r->Err_0,
        )
    }

    /// The error `e` came up between two states of a check of declaration `i`,
    /// for a reason to reject the declaration where it is a rejection.
    pub open spec fn accounted(&self, i: int, e: TcError) -> bool {
        exists|a: TypeChecker, b: TypeChecker|
            a.g() == self.sig_of(i) && b.ext(&a) && #[trigger] b.accounts(&a, e) && (e matches TcError::Reject(w)
                ==> b.declar_refused(&self.declars@[i], &self.st, w))
    }

    /// The check's state holds the expressions of the file.
    pub open spec fn serves(&self, ctx: &TcCtx) -> bool {
        &&& ctx.wf()
        &&& ctx.st.ext(&self.st)
        &&& ctx.names == Names::of(self.names)
        &&& ctx.nat_ext == self.config.nat_extension
        &&& ctx.str_ext == self.config.string_extension
    }

    /// Whether every declaration is made of closed expressions of the file.
    pub fn is_wf(&self) -> (r: bool)
        requires
            self.st.wf(),
            self.declars.wf(),
        ensures
            r == self.wf(),
    {
        let mut i: usize = 0;
        while i < self.declars.len()
            invariant
                self.st.wf(),
                self.declars.wf(),
                i <= self.declars@.len(),
                forall|j: int| 0 <= j < i ==> (#[trigger] self.declars@[j]).ok(&self.st),
            decreases self.declars@.len() - i,
        {
            if !self.declars.at(i).is_ok(&self.st) {
                assert(!self.declars@[i as int].ok(&self.st));
                return false;
            }
            i += 1;
        }
        true
    }

    /// A fresh checking context over a copy of the file's expressions.
    pub fn new_ctx(&self) -> (r: TcCtx)
        requires
            self.wf(),
        ensures
            self.serves(&r),
            r.w@.g == self.sig(self.declars@.len() as int, None),
    {
        TcCtx::make(
            self.st.copy(),
            Names::new(self.names),
            self.config.nat_extension,
            self.config.string_extension,
            Ghost(self.sig(self.declars@.len() as int, None)),
        )
    }

    /// A checker over all the declarations of the file, in the scope of none.
    pub fn checker<'x>(&'x self, env: &'x Env<'x>) -> (r: TypeChecker<'x>)
        requires
            self.wf(),
            env.wf(),
            forall|m: NamePtr| #[trigger] env.find(m) == Env::find_in(&self.declars, self.declars@.len() as int, m),
        ensures
            r.wf(),
            r.g() == self.sig(self.declars@.len() as int, None),
            r.ctx.st.ext(&self.st),
    {
        let ctx = self.new_ctx();
        proof {
            self.lemma_models(env, self.declars@.len() as int, &ctx.st, ctx.w@.g);
        }
        TypeChecker::new(ctx, env, &self.name_tab, None)
    }

    /// The entry point for checking a declaration `d`, creating a fresh
    /// checking context, and with it fresh expressions: everything the check
    /// interns is released when `d` is done.  The expressions of the file are
    /// unaffected.
    pub fn check_declar(&self, d: &Declar) -> (r: Result<Verdict, TcError>)
        requires
            self.wf(),
            self.declars@.contains(*d),
        ensures
            r matches Ok(v) ==> self.verdict_ok(self.declars@.index_of(*d), v),
            d is Inductive ==> r == Ok::<Verdict, TcError>(Verdict::Inductive),
            d is Quot ==> r == Ok::<Verdict, TcError>(Verdict::Quot),
            !(d is Inductive) && !(d is Quot) ==> self.settles(self.declars@.index_of(*d), r),
    {
        let mut ctx = self.new_ctx();
        self.check_declar_in(&mut ctx, d)
    }

    /// Check a declaration in an existing context.
    pub fn check_declar_in(&self, ctx: &mut TcCtx, d: &Declar) -> (r: Result<Verdict, TcError>)
        requires
            self.wf(),
            self.declars@.contains(*d),
            self.serves(old(ctx)),
        ensures
            self.serves(final(ctx)),
            r matches Ok(v) ==> self.verdict_ok(self.declars@.index_of(*d), v),
            d is Inductive ==> r == Ok::<Verdict, TcError>(Verdict::Inductive),
            d is Quot ==> r == Ok::<Verdict, TcError>(Verdict::Quot),
            !(d is Inductive) && !(d is Quot) ==> self.settles(self.declars@.index_of(*d), r),
    {
        let ghost i = self.declars@.index_of(*d);
        proof {
            self.declars.lemma_wf();
            assert(self.declars@[i] == *d);
        }
        match d {
            Declar::Inductive(_) => {
                return Ok(Verdict::Inductive);
            },
            Declar::Quot { .. } => {
                return Ok(Verdict::Quot);
            },
            _ => {},
        }
        let info = d.info();
        let limit: u32 = match self.declars.index_of(info.name) {
            Some(j) => j,
            None => 0,
        };
        let ghost g = self.sig_of(i);
        let env = Env::new(&self.declars, limit);
        let mut own = TcCtx::make(Store::new(), Names::new(self.names), self.config.nat_extension, self.config.string_extension,
            Ghost(g));
        std::mem::swap(ctx, &mut own);
        own.start_over(Ghost(g));
        proof {
            d.lemma_ext(&self.st, &own.st);
            self.lemma_models(&env, limit as int, &own.st, g);
        }
        let mut tc = TypeChecker::new(own, &env, &self.name_tab, Some(info));
        let ghost first = tc;
        let r = tc.check_declar_value(d);
        let ghost last = tc;
        proof {
            last.lemma_ctx();
            last.lemma_st(&own.st);
            last.lemma_base();
        }
        let TypeChecker { ctx: done, .. } = tc;
        *ctx = done;
        match r {
            Ok(()) => {},
            Err(e) => {
                proof {
                    assert(self.declars@[i].ok(&self.st));
                    assert(own.st.ext(&self.st));
                    if let TcError::Reject(w) = e {
                        assert(last.declar_refused(d, &first.ctx.st, w));
                        assert(last.declar_refused(&self.declars@[i], &self.st, w));
                    }
                    assert(last.accounts(&first, e));
                }
                return Err(e);
            },
        }
        if !self.names_declared(d) {
            return Err(TcError::Reject(Reason::BadName));
        }
        Ok(Verdict::Accepted)
    }

    /// The first declarations of the file stand for their signature.
    proof fn lemma_models(&self, env: &Env, n: int, st: &Store, g: Sig)
        requires
            self.wf(),
            env.wf(),
            st.ext(&self.st),
            0 <= n <= self.declars@.len(),
            forall|m: NamePtr| #[trigger] env.find(m) == Env::find_in(&self.declars, n, m),
            g == self.sig(n, g.uparams),
        ensures
            env.models(st, g),
    {
        self.declars.lemma_wf();
        assert forall|m: NamePtr| (#[trigger] env.find(m)) is Some implies env.find(m)->0.ok(st) && g.decls[m]
            == env.find(m)->0.g(st) by {
            let i = self.declars.pos(m)->0;
            assert(self.declars@[i as int].ok(&self.st));
            self.declars@[i as int].lemma_ext(&self.st, st);
        }
    }

    /// Whether what a declaration names is declared.
    fn names_declared(&self, d: &Declar) -> (r: bool)
        ensures
            r == d.refers(&self.declars),
    {
        match d {
            Declar::Constructor(c) => self.declars.index_of(c.inductive_name).is_some(),
            Declar::Recursor(rec) => {
                let mut i: usize = 0;
                while i < rec.all_inductives.len()
                    invariant
                        i <= rec.all_inductives@.len(),
                        *d == Declar::Recursor(*rec),
                        forall|j: int| 0 <= j < i ==> self.declars.pos(#[trigger] rec.all_inductives@[j]) is Some,
                    decreases rec.all_inductives@.len() - i,
                {
                    if self.declars.index_of(rec.all_inductives[i]).is_none() {
                        assert(self.declars.pos(rec.all_inductives@[i as int]) is None);
                        return false;
                    }
                    i += 1;
                }
                true
            },
            _ => true,
        }
    }

    /// Check all declarations of the file, in order, each in a context of its
    /// own, as far as the first one rejected.
    pub fn check_all_declars(&self) -> (r: Result<Vec<Verdict>, (usize, TcError)>)
        requires
            self.wf(),
        ensures
            match r {
                Ok(vs) => vs@.len() == self.declars@.len() && forall|i: int|
                    0 <= i < vs@.len() ==> self.verdict_ok(i, #[trigger] vs@[i]),
                Err(x) => x.0 < self.declars@.len() && !(self.declars@[x.0 as int] is Inductive)
                    && !(self.declars@[x.0 as int] is Quot),
            },
            // the one that ends it did not pass
            r matches Err(x) ==> self.settles(x.0 as int, Err(x.1)),
    {
        let mut vs: Vec<Verdict> = Vec::new();
        let mut i: usize = 0;
        while i < self.declars.len()
            invariant
                self.wf(),
                i <= self.declars@.len(),
                vs@.len() == i,
                forall|j: int| 0 <= j < i ==> self.verdict_ok(j, #[trigger] vs@[j]),
            decreases self.declars@.len() - i,
        {
            let d = self.declars.at(i);
            proof {
                self.lemma_index(i as int);
            }
            match self.check_declar(d) {
                Ok(v) => {
                    vs.push(v);
                },
                Err(e) => {
                    return Err((i, e));
                },
            }
            i += 1;
        }
        Ok(vs)
    }

    /// A declaration stands at one position.
    proof fn lemma_index(&self, i: int)
        requires
            self.wf(),
            0 <= i < self.declars@.len(),
        ensures
            self.declars@.contains(self.declars@[i]),
            self.declars@.index_of(self.declars@[i]) == i,
    {
        self.declars.lemma_wf();
        let d = self.declars@[i];
        let j = self.declars@.index_of(d);
        assert(self.declars@[j] == d);
        assert(self.declars.pos(self.declars@[i].info_spec().name) == Some(i as u32));
        assert(self.declars.pos(self.declars@[j].info_spec().name) == Some(j as u32));
    }
}

impl<'x> TypeChecker<'x> {
    /// Check the type of a declaration, and the value of one that has one.
    fn check_declar_value(&mut self, d: &Declar) -> (r: Result<(), TcError>)
        requires
            old(self).wf(),
            d.ok(&old(self).ctx.st),
        ensures
            final(self).wf(),
            final(self).ext(old(self)),
            r is Ok ==> d.info_checked(&old(self).ctx.st, final(self).g())
                && (d.value() matches Some(v) ==> final(self).g().is_term(
                old(self).ctx.st.e(v),
                old(self).ctx.st.e(d.info_spec().ty),
            )),
            !d.params_ok(&old(self).ctx.st) ==> r == Err::<(), TcError>(TcError::Reject(Reason::DuplicateParam)),
            d.params_ok(&old(self).ctx.st) && old(self).ctx.st.e(d.info_spec().ty).has_fv() ==> r == Err::<(), TcError>(
                TcError::Reject(Reason::FreeVar),
            ),
            d.plain(&old(self).ctx.st, old(self).g()) ==> r is Ok || r == Err::<(), TcError>(TcError::Full),
            r matches Err(TcError::Reject(w)) ==> final(self).declar_refused(d, &old(self).ctx.st, w),
            r matches Err(err) ==> final(self).accounts(old(self), err),
    {
        self.check_declar_info(d)?;
        let val = match d {
            Declar::Definition { val, .. } => *val,
            Declar::Theorem { val, .. } => *val,
            Declar::Opaque { val, .. } => *val,
            _ => {
                return Ok(());
            },
        };
        let ghost v = self.ctx.st.e(val);
        let inferred_type = self.infer(val, InferFlag::Check)?;
        let ghost s = self.ctx.st.e(inferred_type);
        let ty = d.info().ty;
        self.assert_def_eq(inferred_type, ty)?;
        proof {
            assert(self.g().ty(true, v, s) && self.g().eq(s, self.ctx.st.e(ty)));
        }
        Ok(())
    }

    /// The state holds what the environment was read against.
    proof fn lemma_st(&self, st: &Store)
        requires
            self.wf(),
            self.st0@ == *st,
        ensures
            self.ctx.st.ext(st),
    {
        reveal(TypeChecker::wf);
    }
}

} // verus!
