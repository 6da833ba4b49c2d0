//! The steps of the state, taken from within a check.
use crate::bignum::Nat;
use crate::closure::{Clo, Entry, EnvId, ENV_NIL};
use crate::ctx::World;
use crate::error::TcError;
use crate::expr::{BigUintPtr, Expr, ExprPtr, StringPtr};
use crate::level::{LevelPtr, LevelsPtr, NamePtr};
use crate::nbe::{Elim, Probe, RigidHead, SpineId, SpineNode, ValId, Value, VEnvId};
use crate::reify::ANONYMOUS;
use crate::spine::{SClo, SpineVec};
use crate::tc::TypeChecker;
use crate::term::{BinderStyle, FVarId, Lvl, Term};
use crate::theory::ElimT;
use vstd::prelude::*;

verus! {

impl<'x> TypeChecker<'x> {
    /// A thunk over the closure `(e, env)`, shared by every closure of `e` that
    /// agrees on what `e` reads.
    pub fn mk_thunk(&mut self, env: VEnvId, e: ExprPtr) -> (r: Result<ValId, TcError>)
        requires
            old(self).wf(),
            old(self).ctx.clo_ok(Clo { e, env }),
        ensures
            final(self).wf(),
            final(self).ext(old(self)),
            r matches Ok(v) ==> final(self).ctx.w@.v_ok(v)
                && final(self).ctx.w@.v(v) == old(self).ctx.clo(Clo { e, env }),
            r is Err ==> r == Err::<ValId, TcError>(TcError::Full),
            r matches Err(err) ==> !(err is Reject) && final(self).ran_out(old(self)),
    {
        let ghost o = *self;
        proof {
            self.lemma_ctx();
        }
        let r = self.ctx.mk_thunk(env, e);
        proof {
            if r is Err {
                reveal(TypeChecker::ran_out);
                self.gone@ = self.gone@ + 1;
            }
            self.lemma_step(&o);
        }
        r
    }

    /// A stuck value.
    pub fn mk_rigid(&mut self, head: RigidHead, spine: SpineId) -> (r: Result<ValId, TcError>)
        requires
            old(self).wf(),
            old(self).ctx.w@.head_ok(&old(self).ctx.st, head, old(self).ctx.w@.clock),
            old(self).ctx.w@.s_ok(spine),
        ensures
            final(self).wf(),
            final(self).ext(old(self)),
            r matches Ok(v) ==> final(self).ctx.w@.v_ok(v)
                && final(self).ctx.w@.v(v) == old(self).ctx.w@.val(&old(self).ctx.st, Value::Rigid { head, spine })
                && final(self).ctx.w@.v(v)
                == ElimT::spine(old(self).ctx.w@.head(&old(self).ctx.st, head), old(self).ctx.w@.s(spine)),
            r matches Ok(v) ==> !(final(self).ctx.nb.vals@[v as int] is Thunk),
            r is Err ==> r == Err::<ValId, TcError>(TcError::Full),
            r matches Err(err) ==> !(err is Reject) && final(self).ran_out(old(self)),
    {
        let ghost o = *self;
        proof {
            self.lemma_ctx();
        }
        let r = self.ctx.mk_rigid(head, spine);
        proof {
            if r is Err {
                reveal(TypeChecker::ran_out);
                self.gone@ = self.gone@ + 1;
            }
            self.lemma_step(&o);
        }
        r
    }

    /// A constant applied, kept folded.
    pub fn mk_unfold(&mut self, name: NamePtr, levels: LevelsPtr, spine: SpineId) -> (r: Result<ValId, TcError>)
        requires
            old(self).wf(),
            old(self).ctx.st.ls_ok(levels),
            old(self).ctx.w@.s_ok(spine),
        ensures
            final(self).wf(),
            final(self).ext(old(self)),
            r matches Ok(v) ==> final(self).ctx.w@.v_ok(v)
                && final(self).ctx.w@.v(v)
                == ElimT::spine(Term::Const(name, old(self).ctx.st.ls(levels)), old(self).ctx.w@.s(spine)),
            r matches Ok(v) ==> !(final(self).ctx.nb.vals@[v as int] is Thunk),
            r is Err ==> r == Err::<ValId, TcError>(TcError::Full),
            r matches Err(err) ==> !(err is Reject) && final(self).ran_out(old(self)),
    {
        let ghost o = *self;
        proof {
            self.lemma_ctx();
        }
        let r = self.ctx.mk_unfold(name, levels, spine);
        proof {
            if r is Err {
                reveal(TypeChecker::ran_out);
                self.gone@ = self.gone@ + 1;
            }
            self.lemma_step(&o);
        }
        r
    }

    /// A lambda over `env`.
    pub fn mk_lam(&mut self, binder_name: NamePtr, binder_style: BinderStyle, binder_type: ExprPtr, env: VEnvId,
        body: ExprPtr) -> (r: Result<ValId, TcError>)
        requires
            old(self).wf(),
            old(self).ctx.st.e_ok(binder_type),
            old(self).ctx.st.e_ok(body),
            old(self).ctx.w@.n_ok(env),
            old(self).ctx.st.e(binder_type).nl() <= old(self).ctx.w@.n(env).len(),
            old(self).ctx.st.e(body).nl() <= old(self).ctx.w@.n(env).len() + 1,
        ensures
            final(self).wf(),
            final(self).ext(old(self)),
            r matches Ok(v) ==> final(self).ctx.w@.v_ok(v)
                && World::alike(Term::lam(binder_name, binder_style,
                old(self).ctx.st.e(binder_type).inst(0, old(self).ctx.w@.n(env)),
                old(self).ctx.st.e(body).inst(1, old(self).ctx.w@.n(env))), final(self).ctx.w@.v(v)),
            r matches Ok(v) ==> !(final(self).ctx.nb.vals@[v as int] is Thunk),
            r is Err ==> r == Err::<ValId, TcError>(TcError::Full),
            r matches Err(err) ==> !(err is Reject) && final(self).ran_out(old(self)),
    {
        let ghost o = *self;
        proof {
            self.lemma_ctx();
        }
        let r = self.ctx.mk_lam(binder_name, binder_style, binder_type, env, body);
        proof {
            if r is Err {
                reveal(TypeChecker::ran_out);
                self.gone@ = self.gone@ + 1;
            }
            self.lemma_step(&o);
        }
        r
    }

    /// A function type over `env`.
    pub fn mk_pi_val(&mut self, binder_name: NamePtr, binder_style: BinderStyle, domain: ValId, env: VEnvId,
        body: ExprPtr) -> (r: Result<ValId, TcError>)
        requires
            old(self).wf(),
            old(self).ctx.w@.v_ok(domain),
            old(self).ctx.st.e_ok(body),
            old(self).ctx.w@.n_ok(env),
            old(self).ctx.st.e(body).nl() <= old(self).ctx.w@.n(env).len() + 1,
        ensures
            final(self).wf(),
            final(self).ext(old(self)),
            r matches Ok(v) ==> final(self).ctx.w@.v_ok(v)
                && World::alike(Term::pi(binder_name, binder_style, old(self).ctx.w@.v(domain),
                old(self).ctx.st.e(body).inst(1, old(self).ctx.w@.n(env))), final(self).ctx.w@.v(v)),
            r matches Ok(v) ==> !(final(self).ctx.nb.vals@[v as int] is Thunk),
            r is Err ==> r == Err::<ValId, TcError>(TcError::Full),
            r matches Err(err) ==> !(err is Reject) && final(self).ran_out(old(self)),
    {
        let ghost o = *self;
        proof {
            self.lemma_ctx();
        }
        let r = self.ctx.mk_pi_val(binder_name, binder_style, domain, env, body);
        proof {
            if r is Err {
                reveal(TypeChecker::ran_out);
                self.gone@ = self.gone@ + 1;
            }
            self.lemma_step(&o);
        }
        r
    }

    /// A sort, its level simplified.
    pub fn mk_sort_val(&mut self, level: LevelPtr) -> (r: Result<ValId, TcError>)
        requires
            old(self).wf(),
            old(self).ctx.st.l_ok(level),
            old(self).ctx.st.l(level).simp() == old(self).ctx.st.l(level),
        ensures
            final(self).wf(),
            final(self).ext(old(self)),
            r matches Ok(v) ==> final(self).ctx.w@.v_ok(v)
                && final(self).ctx.w@.v(v) == Term::Sort(old(self).ctx.st.l(level)),
            r matches Ok(v) ==> !(final(self).ctx.nb.vals@[v as int] is Thunk),
            r is Err ==> r == Err::<ValId, TcError>(TcError::Full),
            r matches Err(err) ==> !(err is Reject) && final(self).ran_out(old(self)),
    {
        let ghost o = *self;
        proof {
            self.lemma_ctx();
        }
        let r = self.ctx.mk_sort_val(level);
        proof {
            if r is Err {
                reveal(TypeChecker::ran_out);
                self.gone@ = self.gone@ + 1;
            }
            self.lemma_step(&o);
        }
        r
    }

    /// A natural number literal.
    pub fn mk_nat(&mut self, ptr: BigUintPtr) -> (r: Result<ValId, TcError>)
        requires
            old(self).wf(),
            old(self).ctx.st.n_ok(ptr),
        ensures
            final(self).wf(),
            final(self).ext(old(self)),
            r matches Ok(v) ==> final(self).ctx.w@.v_ok(v)
                && final(self).ctx.w@.v(v) == Term::Nat(old(self).ctx.st.n(ptr)),
            r matches Ok(v) ==> !(final(self).ctx.nb.vals@[v as int] is Thunk),
            r is Err ==> r == Err::<ValId, TcError>(TcError::Full),
            r matches Err(err) ==> !(err is Reject) && final(self).ran_out(old(self)),
    {
        let ghost o = *self;
        proof {
            self.lemma_ctx();
        }
        let r = self.ctx.mk_nat(ptr);
        proof {
            if r is Err {
                reveal(TypeChecker::ran_out);
                self.gone@ = self.gone@ + 1;
            }
            self.lemma_step(&o);
        }
        r
    }

    /// A string literal.
    pub fn mk_str(&mut self, ptr: StringPtr) -> (r: Result<ValId, TcError>)
        requires
            old(self).wf(),
            old(self).ctx.st.s_ok(ptr),
        ensures
            final(self).wf(),
            final(self).ext(old(self)),
            r matches Ok(v) ==> final(self).ctx.w@.v_ok(v)
                && final(self).ctx.w@.v(v) == Term::Str(old(self).ctx.st.s(ptr)),
            r matches Ok(v) ==> !(final(self).ctx.nb.vals@[v as int] is Thunk),
            r is Err ==> r == Err::<ValId, TcError>(TcError::Full),
            r matches Err(err) ==> !(err is Reject) && final(self).ran_out(old(self)),
    {
        let ghost o = *self;
        proof {
            self.lemma_ctx();
        }
        let r = self.ctx.mk_str(ptr);
        proof {
            if r is Err {
                reveal(TypeChecker::ran_out);
                self.gone@ = self.gone@ + 1;
            }
            self.lemma_step(&o);
        }
        r
    }

    /// Extend a spine.
    pub fn spine_snoc(&mut self, parent: SpineId, elim: Elim) -> (r: Result<SpineId, TcError>)
        requires
            old(self).wf(),
            old(self).ctx.w@.s_ok(parent),
            old(self).ctx.w@.elim_ok(elim, old(self).ctx.w@.clock),
        ensures
            final(self).wf(),
            final(self).ext(old(self)),
            r matches Ok(s) ==> final(self).ctx.w@.s_ok(s)
                && final(self).ctx.w@.s(s) == old(self).ctx.w@.s(parent).push(
                old(self).ctx.w@.elim(elim),
            ),
            r is Err ==> r == Err::<SpineId, TcError>(TcError::Full),
            r matches Err(err) ==> !(err is Reject) && final(self).ran_out(old(self)),
    {
        let ghost o = *self;
        proof {
            self.lemma_ctx();
        }
        let r = self.ctx.spine_snoc(parent, elim);
        proof {
            if r is Err {
                reveal(TypeChecker::ran_out);
                self.gone@ = self.gone@ + 1;
            }
            self.lemma_step(&o);
        }
        r
    }

    /// Extend an environment with an evaluated entry.
    pub fn push_entry_v(&mut self, env: EnvId, v: ValId) -> (r: Result<EnvId, TcError>)
        requires
            old(self).wf(),
            old(self).ctx.w@.n_ok(env),
            old(self).ctx.w@.v_ok(v),
        ensures
            final(self).wf(),
            final(self).ext(old(self)),
            r matches Ok(n) ==> final(self).ctx.w@.n_ok(n)
                && final(self).ctx.w@.n(n) == seq![old(self).ctx.w@.v(v)] + old(self).ctx.w@.n(env),
            r is Err ==> r == Err::<EnvId, TcError>(TcError::Full),
            r matches Err(err) ==> !(err is Reject) && final(self).ran_out(old(self)),
    {
        let ghost o = *self;
        proof {
            self.lemma_ctx();
        }
        let r = self.ctx.push_entry_v(env, v);
        proof {
            if r is Err {
                reveal(TypeChecker::ran_out);
                self.gone@ = self.gone@ + 1;
            }
            self.lemma_step(&o);
        }
        r
    }

    /// Extend an environment.  The entry is part of the identity of every
    /// environment built on top of it, so it enters in normal form: a value
    /// that reads nothing from its own environment carries none, and a value
    /// that is a variable is replaced by what that variable stands for.
    pub fn push_entry(&mut self, env: EnvId, entry: Entry) -> (r: Result<EnvId, TcError>)
        requires
            old(self).wf(),
            old(self).ctx.w@.n_ok(env),
            old(self).ctx.w@.entry_ok(&old(self).ctx.st, entry, old(self).ctx.w@.clock),
        ensures
            final(self).wf(),
            final(self).ext(old(self)),
            r matches Ok(n) ==> final(self).ctx.w@.n_ok(n) && n > 0 && final(self).ctx.w@.n(n) == seq![
                old(self).ctx.w@.entry(&old(self).ctx.st, entry),
            ] + old(self).ctx.w@.n(env) && (old(self).ctx.w@.plain(env) && old(self).ctx.w@.entry_plain(entry)
                ==> final(self).ctx.w@.plain(n)),
            r is Err ==> r == Err::<EnvId, TcError>(TcError::Full),
            r matches Err(err) ==> !(err is Reject) && final(self).ran_out(old(self)),
    {
        let ghost o = *self;
        proof {
            self.lemma_ctx();
        }
        let r = self.ctx.push_entry(env, entry);
        proof {
            if r is Err {
                reveal(TypeChecker::ran_out);
                self.gone@ = self.gone@ + 1;
            }
            self.lemma_step(&o);
        }
        r
    }

    /// Record what a thunk or a folded constant evaluated to.
    pub fn set_forced(&mut self, v: ValId, f: ValId)
        requires
            old(self).wf(),
            old(self).ctx.w@.v_ok(v),
            old(self).ctx.w@.v_ok(f),
            old(self).ctx.w@.g.steps(old(self).ctx.w@.v(v), old(self).ctx.w@.v(f)),
        ensures
            final(self).wf(),
            final(self).ext(old(self)),
            forall|u: ValId| old(self).v_ok(u) ==> #[trigger] final(self).done(u) == old(self).done(u),
    {
        let ghost o = *self;
        proof {
            self.lemma_ctx();
            self.ctx.lemma_wf_live();
        }
        self.ctx.set_forced(v, f);
        proof {
            self.lemma_step(&o);
        }
    }

    /// Record the value of a lambda's domain.
    pub fn set_domain(&mut self, v: ValId, d: ValId)
        requires
            old(self).wf(),
            old(self).ctx.w@.v_ok(v),
            old(self).ctx.w@.v_ok(d),
            old(self).ctx.w@.v(v) matches Term::Lam(_, _, a, _) ==> old(self).ctx.w@.g.steps(*a, old(self).ctx.w@.v(d)),
        ensures
            final(self).wf(),
            final(self).ext(old(self)),
            forall|u: ValId| old(self).v_ok(u) ==> #[trigger] final(self).done(u) == old(self).done(u),
    {
        let ghost o = *self;
        proof {
            self.lemma_ctx();
            self.ctx.lemma_wf_live();
        }
        self.ctx.set_domain(v, d);
        proof {
            self.lemma_step(&o);
        }
    }

    /// An equivalent level without superfluous structure.
    pub fn simplify(&mut self, l: LevelPtr) -> (r: Result<u32, TcError>)
        requires
            old(self).wf(),
            old(self).ctx.st.l_ok(l),
        ensures
            final(self).wf(),
            final(self).ext(old(self)),
            r matches Ok(i) ==> final(self).ctx.st.l_ok(i) && final(self).ctx.st.l(i) == old(self).ctx.st.l(l).simp(),
            r matches Ok(i) ==> final(self).ctx.st.l(i).equiv(old(self).ctx.st.l(l))
                && final(self).ctx.st.l(i).simp() == final(self).ctx.st.l(i),
            r is Err ==> r == Err::<u32, TcError>(TcError::Full),
            r matches Err(err) ==> !(err is Reject) && final(self).ran_out(old(self)),
    {
        let ghost o = *self;
        proof {
            self.lemma_ctx();
        }
        let r = self.ctx.simplify(l);
        proof {
            if r is Err {
                reveal(TypeChecker::ran_out);
                self.gone@ = self.gone@ + 1;
            }
            self.lemma_step(&o);
        }
        r
    }

    /// The successor of a level.
    pub fn succ(&mut self, a: LevelPtr) -> (r: Result<u32, TcError>)
        requires
            old(self).wf(),
            old(self).ctx.st.l_ok(a),
        ensures
            final(self).wf(),
            final(self).ext(old(self)),
            r matches Ok(i) ==> final(self).ctx.st.l_ok(i)
                && final(self).ctx.st.l(i) == Lvl::succ(old(self).ctx.st.l(a)),
            r is Err ==> r == Err::<u32, TcError>(TcError::Full),
            r matches Err(err) ==> !(err is Reject) && final(self).ran_out(old(self)),
    {
        let ghost o = *self;
        proof {
            self.lemma_ctx();
        }
        let r = self.ctx.succ(a);
        proof {
            if r is Err {
                reveal(TypeChecker::ran_out);
                self.gone@ = self.gone@ + 1;
            }
            self.lemma_step(&o);
        }
        r
    }

    /// The impredicative maximum of two levels.
    pub fn imax(&mut self, a: LevelPtr, b: LevelPtr) -> (r: Result<u32, TcError>)
        requires
            old(self).wf(),
            old(self).ctx.st.l_ok(a),
            old(self).ctx.st.l_ok(b),
        ensures
            final(self).wf(),
            final(self).ext(old(self)),
            r matches Ok(i) ==> final(self).ctx.st.l_ok(i)
                && final(self).ctx.st.l(i) == Lvl::imax(old(self).ctx.st.l(a), old(self).ctx.st.l(b)),
            r is Err ==> r == Err::<u32, TcError>(TcError::Full),
            r matches Err(err) ==> !(err is Reject) && final(self).ran_out(old(self)),
    {
        let ghost o = *self;
        proof {
            self.lemma_ctx();
        }
        let r = self.ctx.imax(a, b);
        proof {
            if r is Err {
                reveal(TypeChecker::ran_out);
                self.gone@ = self.gone@ + 1;
            }
            self.lemma_step(&o);
        }
        r
    }

    /// The level zero.
    pub fn zero(&mut self) -> (r: Result<u32, TcError>)
        requires
            old(self).wf(),
        ensures
            final(self).wf(),
            final(self).ext(old(self)),
            r matches Ok(i) ==> final(self).ctx.st.l_ok(i) && final(self).ctx.st.l(i) == Lvl::Zero,
            r is Err ==> r == Err::<u32, TcError>(TcError::Full),
            r matches Err(err) ==> !(err is Reject) && final(self).ran_out(old(self)),
    {
        let ghost o = *self;
        proof {
            self.lemma_ctx();
        }
        let r = self.ctx.zero();
        proof {
            if r is Err {
                reveal(TypeChecker::ran_out);
                self.gone@ = self.gone@ + 1;
            }
            self.lemma_step(&o);
        }
        r
    }

    /// The empty list of levels.
    pub fn no_levels(&mut self) -> (r: Result<LevelsPtr, TcError>)
        requires
            old(self).wf(),
        ensures
            final(self).wf(),
            final(self).ext(old(self)),
            r matches Ok(i) ==> final(self).ctx.st.ls_ok(i) && final(self).ctx.st.ls(i) == Seq::<Lvl>::empty(),
            r is Err ==> r == Err::<u32, TcError>(TcError::Full),
            r matches Err(err) ==> !(err is Reject) && final(self).ran_out(old(self)),
    {
        let ghost o = *self;
        proof {
            self.lemma_ctx();
        }
        let r = self.ctx.no_levels();
        proof {
            if r is Err {
                reveal(TypeChecker::ran_out);
                self.gone@ = self.gone@ + 1;
            }
            self.lemma_step(&o);
        }
        r
    }

    /// The name of a natural number.
    pub fn alloc_bignum(&mut self, n: &Nat) -> (r: Result<u32, TcError>)
        requires
            old(self).wf(),
            n.wf(),
        ensures
            final(self).wf(),
            final(self).ext(old(self)),
            r matches Ok(p) ==> final(self).ctx.st.n_ok(p) && final(self).ctx.st.n(p) == n@,
            r is Err ==> r == Err::<u32, TcError>(TcError::Full),
            r matches Err(err) ==> !(err is Reject) && final(self).ran_out(old(self)),
    {
        let ghost o = *self;
        proof {
            self.lemma_ctx();
        }
        let r = self.ctx.alloc_bignum(n);
        proof {
            if r is Err {
                reveal(TypeChecker::ran_out);
                self.gone@ = self.gone@ + 1;
            }
            self.lemma_step(&o);
        }
        r
    }

    /// `e` with the level parameters `ks` replaced by the levels `vs`.
    pub fn subst_expr_levels(&mut self, e: ExprPtr, ks: LevelsPtr, vs: LevelsPtr) -> (r: Result<u32, TcError>)
        requires
            old(self).wf(),
            old(self).ctx.st.e_ok(e),
            old(self).ctx.st.ls_ok(ks),
            old(self).ctx.st.ls_ok(vs),
        ensures
            final(self).wf(),
            final(self).ext(old(self)),
            r matches Ok(y) ==> final(self).ctx.st.e_ok(y)
                && final(self).ctx.st.e(y)
                == old(self).ctx.st.e(e).tsubst(old(self).ctx.st.ls(ks), old(self).ctx.st.ls(vs)),
            r is Err ==> r == Err::<u32, TcError>(TcError::Full),
            r matches Err(err) ==> !(err is Reject) && final(self).ran_out(old(self)),
    {
        let ghost o = *self;
        proof {
            self.lemma_ctx();
        }
        let r = self.ctx.subst_expr_levels(e, ks, vs);
        proof {
            if r is Err {
                reveal(TypeChecker::ran_out);
                self.gone@ = self.gone@ + 1;
            }
            self.lemma_step(&o);
        }
        r
    }

    /// The name of an expression of the form `x`.
    pub fn mk(&mut self, x: Expr) -> (r: Result<u32, TcError>)
        requires
            old(self).wf(),
            old(self).ctx.st.parts_ok(x),
        ensures
            final(self).wf(),
            final(self).ext(old(self)),
            r matches Ok(y) ==> final(self).ctx.st.e_ok(y) && final(self).ctx.st.e(y) == old(self).ctx.st.meaning(x),
            r is Err ==> r == Err::<u32, TcError>(TcError::Full),
            r matches Err(err) ==> !(err is Reject) && final(self).ran_out(old(self)),
    {
        let ghost o = *self;
        proof {
            self.lemma_ctx();
        }
        let r = self.ctx.mk(x);
        proof {
            if r is Err {
                reveal(TypeChecker::ran_out);
                self.gone@ = self.gone@ + 1;
            }
            self.lemma_step(&o);
        }
        r
    }

    /// `e` with the free variables of levels `lo..hi` turned into loose ones.
    pub fn abstr_levels_at(&mut self, e: ExprPtr, lo: u32, hi: u32) -> (r: Result<u32, TcError>)
        requires
            old(self).wf(),
            old(self).ctx.st.e_ok(e),
        ensures
            final(self).wf(),
            final(self).ext(old(self)),
            r matches Ok(y) ==> final(self).ctx.st.e_ok(y)
                && final(self).ctx.st.e(y) == old(self).ctx.st.e(e).abstr(lo as nat, hi as nat, 0),
            r is Err ==> r == Err::<u32, TcError>(TcError::Full),
            r matches Err(err) ==> !(err is Reject) && final(self).ran_out(old(self)),
    {
        let ghost o = *self;
        proof {
            self.lemma_ctx();
        }
        let r = self.ctx.abstr_levels_at(e, lo, hi);
        proof {
            if r is Err {
                reveal(TypeChecker::ran_out);
                self.gone@ = self.gone@ + 1;
            }
            self.lemma_step(&o);
        }
        r
    }

    /// `f` applied to the arguments `v` from position `from` on.
    pub fn foldl_apps(&mut self, f: ExprPtr, v: &Vec<ExprPtr>, from: usize) -> (r: Result<u32, TcError>)
        requires
            old(self).wf(),
            old(self).ctx.st.e_ok(f),
            old(self).ctx.st.es_ok(v@),
            from <= v@.len(),
        ensures
            final(self).wf(),
            final(self).ext(old(self)),
            r matches Ok(y) ==> final(self).ctx.st.e_ok(y)
                && final(self).ctx.st.e(y)
                == Term::apps(old(self).ctx.st.e(f), old(self).ctx.st.es(v@).skip(from as int)),
            r is Err ==> r == Err::<u32, TcError>(TcError::Full),
            r matches Err(err) ==> !(err is Reject) && final(self).ran_out(old(self)),
    {
        let ghost o = *self;
        proof {
            self.lemma_ctx();
        }
        let r = self.ctx.foldl_apps(f, v, from);
        proof {
            if r is Err {
                reveal(TypeChecker::ran_out);
                self.gone@ = self.gone@ + 1;
            }
            self.lemma_step(&o);
        }
        r
    }

    /// The free variable standing for a binder opened over an environment of
    /// `level` entries.  Naming it by that level, rather than by a counter,
    /// makes two openings of the same binder produce the same variable.  The
    /// binder type is part of the variable's identity, so a level shared by two
    /// binders of different types still gives two variables.
    pub fn fvar_at(&mut self, level: u32, ty: ExprPtr) -> (r: Result<ExprPtr, TcError>)
        requires
            old(self).wf(),
            old(self).ctx.st.e_ok(ty),
            old(self).ctx.st.e(ty).nl() == 0,
        ensures
            final(self).wf(),
            final(self).ext(old(self)),
            r matches Ok(x) ==> final(self).ctx.st.e_ok(x) && final(self).ctx.st.e(x) == Term::local(
                FVarId::DbjLevel(level),
                ANONYMOUS,
                BinderStyle::Default,
                old(self).ctx.st.e(ty),
            ),
            r is Err ==> r == Err::<ExprPtr, TcError>(TcError::Full),
            r matches Err(err) ==> !(err is Reject) && final(self).ran_out(old(self)),
    {
        let ghost o = *self;
        proof {
            self.lemma_ctx();
        }
        let r = self.ctx.fvar_at(level, ty);
        proof {
            if r is Err {
                reveal(TypeChecker::ran_out);
                self.gone@ = self.gone@ + 1;
            }
            self.lemma_step(&o);
        }
        r
    }

    /// The identity of a closure as a question: the expression together with
    /// the bindings that expression reads.
    pub fn key(&mut self, c: Clo) -> (r: Result<Clo, TcError>)
        requires
            old(self).wf(),
            old(self).ctx.clo_ok(c),
        ensures
            final(self).wf(),
            final(self).ext(old(self)),
            r matches Ok(k) ==> k.e == c.e && final(self).ctx.w@.n_ok(k.env)
                && final(self).ctx.w@.n(k.env) == Term::key_of(
                old(self).ctx.st.e(c.e),
                old(self).ctx.w@.n(c.env),
            ),
            r is Err ==> r == Err::<Clo, TcError>(TcError::Full),
            r matches Err(err) ==> !(err is Reject) && final(self).ran_out(old(self)),
    {
        let ghost o = *self;
        proof {
            self.lemma_ctx();
        }
        let r = self.ctx.key(c);
        proof {
            if r is Err {
                reveal(TypeChecker::ran_out);
                self.gone@ = self.gone@ + 1;
            }
            self.lemma_step(&o);
        }
        r
    }

    /// The de Bruijn level to give a binder opened inside the closure
    /// `(e, env)`: one past every level reachable from it, so the variable that
    /// names that binder cannot be confused with one already in scope.
    pub fn next_level(&mut self, e: ExprPtr, env: EnvId) -> (r: Result<u32, TcError>)
        requires
            old(self).wf(),
            old(self).ctx.st.e_ok(e),
            old(self).ctx.w@.n_ok(env),
        ensures
            final(self).wf(),
            final(self).ext(old(self)),
            r matches Ok(l) ==> l == Term::max(old(self).ctx.st.e(e).ml(), old(self).ctx.w@.nlevel(env)),
            r is Err ==> r == Err::<u32, TcError>(TcError::Full),
            r matches Err(err) ==> !(err is Reject) && final(self).ran_out(old(self)),
    {
        let ghost o = *self;
        proof {
            self.lemma_ctx();
        }
        let r = self.ctx.next_level(e, env);
        proof {
            if r is Err {
                reveal(TypeChecker::ran_out);
                self.gone@ = self.gone@ + 1;
            }
            self.lemma_step(&o);
        }
        r
    }

    /// One past the highest de Bruijn level carried by a free variable in `e`.
    pub fn max_level(&mut self, e: ExprPtr) -> (r: Result<u32, TcError>)
        requires
            old(self).wf(),
            old(self).ctx.st.e_ok(e),
        ensures
            final(self).wf(),
            final(self).ext(old(self)),
            r matches Ok(l) ==> l == old(self).ctx.st.e(e).ml(),
            r is Err ==> r == Err::<u32, TcError>(TcError::Full),
            r matches Err(err) ==> !(err is Reject) && final(self).ran_out(old(self)),
    {
        let ghost o = *self;
        proof {
            self.lemma_ctx();
        }
        let r = self.ctx.max_level(e);
        proof {
            if r is Err {
                reveal(TypeChecker::ran_out);
                self.gone@ = self.gone@ + 1;
            }
            self.lemma_step(&o);
        }
        r
    }

    /// Whether two levels are equivalent.
    pub fn eq_antisymm(&mut self, a: LevelPtr, b: LevelPtr) -> (r: Result<bool, TcError>)
        requires
            old(self).wf(),
            old(self).ctx.st.l_ok(a),
            old(self).ctx.st.l_ok(b),
        ensures
            final(self).wf(),
            final(self).ext(old(self)),
            r matches Ok(true) ==> old(self).ctx.st.l(a).equiv(old(self).ctx.st.l(b)),
            a == b ==> r == Ok::<bool, TcError>(true),
            r matches Err(err) ==> !(err is Reject) && final(self).ran_out(old(self)),
    {
        let ghost o = *self;
        proof {
            self.lemma_ctx();
        }
        let r = self.ctx.eq_antisymm(a, b);
        proof {
            if r is Err {
                reveal(TypeChecker::ran_out);
                self.gone@ = self.gone@ + 1;
            }
            self.lemma_step(&o);
        }
        r
    }

    /// Whether two lists are equivalent level by level.
    pub fn eq_antisymm_many(&mut self, a: LevelsPtr, b: LevelsPtr) -> (r: Result<bool, TcError>)
        requires
            old(self).wf(),
            old(self).ctx.st.ls_ok(a),
            old(self).ctx.st.ls_ok(b),
        ensures
            final(self).wf(),
            final(self).ext(old(self)),
            r matches Ok(true) ==> Lvl::equiv_seq(old(self).ctx.st.ls(a), old(self).ctx.st.ls(b)),
            a == b ==> r == Ok::<bool, TcError>(true),
            r matches Err(err) ==> !(err is Reject) && final(self).ran_out(old(self)),
    {
        let ghost o = *self;
        proof {
            self.lemma_ctx();
        }
        let r = self.ctx.eq_antisymm_many(a, b);
        proof {
            if r is Err {
                reveal(TypeChecker::ran_out);
                self.gone@ = self.gone@ + 1;
            }
            self.lemma_step(&o);
        }
        r
    }

    /// Whether a level is zero whatever its parameters stand for.
    pub fn is_zero(&mut self, l: LevelPtr) -> (r: Result<bool, TcError>)
        requires
            old(self).wf(),
            old(self).ctx.st.l_ok(l),
        ensures
            final(self).wf(),
            final(self).ext(old(self)),
            r matches Ok(b) ==> b == old(self).ctx.st.l(l).is_zero(),
            old(self).ctx.st.l(l) == Lvl::Zero ==> r == Ok::<bool, TcError>(true),
            r matches Err(err) ==> !(err is Reject) && final(self).ran_out(old(self)),
    {
        let ghost o = *self;
        proof {
            self.lemma_ctx();
        }
        let r = self.ctx.is_zero(l);
        proof {
            if r is Err {
                reveal(TypeChecker::ran_out);
                self.gone@ = self.gone@ + 1;
            }
            self.lemma_step(&o);
        }
        r
    }

    /// The constructor application a string literal spells, or `None` without
    /// the extension or the declarations it needs.
    pub fn str_lit_to_constructor(&mut self, s: StringPtr) -> (r: Result<Option<ExprPtr>, TcError>)
        requires
            old(self).wf(),
            old(self).ctx.st.s_ok(s),
        ensures
            final(self).wf(),
            final(self).ext(old(self)),
            match r {
                Ok(Some(e)) => final(self).ctx.st.e_ok(e) && old(self).ctx.w@.g.str_ctor(old(self).ctx.st.s(s)) == Some(
                    final(self).ctx.st.e(e),
                ) && final(self).ctx.st.e(e).nl() == 0,
                Ok(None) => old(self).ctx.w@.g.str_ctor(old(self).ctx.st.s(s)) is None,
                Err(_) => true,
            },
            r matches Err(err) ==> !(err is Reject) && final(self).ran_out(old(self)),
    {
        let ghost o = *self;
        proof {
            self.lemma_ctx();
        }
        let r = self.ctx.str_lit_to_constructor(s);
        proof {
            if r is Err {
                reveal(TypeChecker::ran_out);
                self.gone@ = self.gone@ + 1;
            }
            self.lemma_step(&o);
        }
        r
    }

    /// Forget the pairs found different under speculation.
    pub fn drop_conv_neg_probe(&mut self)
        requires
            old(self).wf(),
        ensures
            final(self).wf(),
            final(self).ext(old(self)),
    {
        let ghost o = *self;
        proof {
            self.lemma_ctx();
        }
        self.ctx.drop_conv_neg_probe();
        proof {
            self.lemma_step(&o);
        }
    }

    /// Change the state of speculation.
    pub fn set_probe(&mut self, p: Probe)
        requires
            old(self).wf(),
        ensures
            final(self).wf(),
            final(self).ext(old(self)),
            final(self).ctx.nb.probe == p,
            final(self).ctx.nb.vals == old(self).ctx.nb.vals,
    {
        let ghost o = *self;
        proof {
            self.lemma_ctx();
        }
        self.ctx.set_probe(p);
        proof {
            self.lemma_step(&o);
        }
    }

    /// The expression a closure stands for.
    pub fn reify(&mut self, c: Clo) -> (r: Result<ExprPtr, TcError>)
        requires
            old(self).wf(),
            old(self).ctx.clo_ok(c),
            old(self).ctx.clo(c).bvb() == 0,
        ensures
            final(self).wf(),
            final(self).ext(old(self)),
            r matches Ok(y) ==> final(self).ctx.st.e_ok(y) && final(self).ctx.st.e(y) == old(self).ctx.clo(c)
                && final(self).ctx.st.e(
                y,
            ).nl() == 0,
            r is Err ==> r == Err::<ExprPtr, TcError>(TcError::Full),
            r matches Err(err) ==> !(err is Reject) && final(self).ran_out(old(self)),
    {
        let ghost o = *self;
        proof {
            self.lemma_ctx();
        }
        let r = self.ctx.reify(c);
        proof {
            if r is Err {
                reveal(TypeChecker::ran_out);
                self.gone@ = self.gone@ + 1;
            }
            self.lemma_step(&o);
        }
        r
    }

    /// The expression a value stands for, folded where the value is: an
    /// unforced constant reads back as the constant applied, and a thunk as
    /// its own expression under its environment.  The value holds no conversion
    /// variables.
    pub fn nb_readback(&mut self, v: ValId) -> (r: Result<ExprPtr, TcError>)
        requires
            old(self).wf(),
            old(self).ctx.w@.v_ok(v),
            old(self).ctx.w@.v(v).bvb() == 0,
        ensures
            final(self).wf(),
            final(self).ext(old(self)),
            final(self).ctx.same_nodes(&old(self).ctx),
            r matches Ok(y) ==> final(self).ctx.st.e_ok(y) && final(self).ctx.st.e(y) == old(self).ctx.w@.v(v),
            r is Err ==> r == Err::<ExprPtr, TcError>(TcError::Full),
            r matches Err(err) ==> !(err is Reject) && final(self).ran_out(old(self)),
    {
        let ghost o = *self;
        proof {
            self.lemma_ctx();
        }
        let r = self.ctx.nb_readback(v);
        proof {
            if r is Err {
                reveal(TypeChecker::ran_out);
                self.gone@ = self.gone@ + 1;
            }
            self.lemma_step(&o);
        }
        r
    }

    /// Whether two sides are one term, up to binder names.  Sides that read no
    /// evaluated entry are told apart exactly when they are different terms.
    pub fn eq_mod(&mut self, ae: ExprPtr, aenv: EnvId, aoff: u32, be: ExprPtr, benv: EnvId, boff: u32) -> (r: bool)
        requires
            old(self).wf(),
            old(self).ctx.side_ok(ae, aenv, aoff),
            old(self).ctx.side_ok(be, benv, boff),
        ensures
            final(self).wf(),
            final(self).ext(old(self)),
            r ==> old(self).ctx.side(ae, aenv, aoff).same(old(self).ctx.side(be, benv, boff)),
            !r && old(self).ctx.side_plain(ae, aenv, aoff) && old(self).ctx.side_plain(be, benv, boff)
                ==> old(self).ctx.side(
                ae,
                aenv,
                aoff,
            ) != old(self).ctx.side(be, benv, boff),
    {
        let ghost o = *self;
        proof {
            self.lemma_ctx();
        }
        let r = self.ctx.eq_mod(ae, aenv, aoff, be, benv, boff);
        proof {
            self.lemma_step(&o);
        }
        r
    }

    pub fn note_clo(&mut self, e: ExprPtr, env: EnvId, v: ValId)
        requires
            old(self).wf(),
            old(self).ctx.clo_ok(Clo { e, env }) && old(self).ctx.w@.v_ok(v)
                && old(self).ctx.w@.g.steps(old(self).ctx.clo(Clo { e, env }), old(self).ctx.w@.v(v)),
        ensures
            final(self).wf(),
            final(self).ext(old(self)),
            final(self).ctx.nb.vals == old(self).ctx.nb.vals,
    {
        let ghost o = *self;
        proof {
            self.lemma_ctx();
        }
        self.ctx.note_clo(e, env, v);
        proof {
            self.lemma_step(&o);
        }
    }

    pub fn note_unfolding(&mut self, name: NamePtr, levels: LevelsPtr, u: Option<ValId>)
        requires
            old(self).wf(),
            old(self).ctx.st.ls_ok(levels),
            match u {
                Some(v) => old(self).ctx.w@.v_ok(v)
                    && old(self).ctx.w@.g.unfolds(name, old(self).ctx.st.ls(levels), old(self).ctx.w@.v(v)),
                None => old(self).ctx.w@.g.body_of(name, old(self).ctx.st.ls(levels)) is None,
            },
        ensures
            final(self).wf(),
            final(self).ext(old(self)),
            final(self).ctx.nb.vals == old(self).ctx.nb.vals,
    {
        let ghost o = *self;
        proof {
            self.lemma_ctx();
        }
        self.ctx.note_unfolding(name, levels, u);
        proof {
            self.lemma_step(&o);
        }
    }

    pub fn note_const_val(&mut self, name: NamePtr, levels: LevelsPtr, v: ValId)
        requires
            old(self).wf(),
            old(self).ctx.st.ls_ok(levels) && old(self).ctx.w@.v_ok(v)
                && old(self).ctx.w@.v(v) == Term::Const(name, old(self).ctx.st.ls(levels)),
        ensures
            final(self).wf(),
            final(self).ext(old(self)),
            final(self).ctx.nb.vals == old(self).ctx.nb.vals,
    {
        let ghost o = *self;
        proof {
            self.lemma_ctx();
        }
        self.ctx.note_const_val(name, levels, v);
        proof {
            self.lemma_step(&o);
        }
    }

    pub fn note_const_ty(&mut self, name: NamePtr, levels: LevelsPtr, v: ValId)
        requires
            old(self).wf(),
            old(self).ctx.st.ls_ok(levels) && old(self).ctx.w@.v_ok(v)
                && old(self).ctx.w@.g.has(Term::Const(name, old(self).ctx.st.ls(levels)), old(self).ctx.w@.v(v)),
        ensures
            final(self).wf(),
            final(self).ext(old(self)),
            final(self).ctx.nb.vals == old(self).ctx.nb.vals,
    {
        let ghost o = *self;
        proof {
            self.lemma_ctx();
        }
        self.ctx.note_const_ty(name, levels, v);
        proof {
            self.lemma_step(&o);
        }
    }

    pub fn note_const_lvl(&mut self, name: NamePtr, levels: LevelsPtr, u: Option<LevelPtr>)
        requires
            old(self).wf(),
            u matches Some(v) ==> old(self).ctx.st.ls_ok(levels) && old(self).ctx.st.l_ok(v)
                && old(self).ctx.w@.const_level(name, old(self).ctx.st.ls(levels), old(self).ctx.st.l(v)),
        ensures
            final(self).wf(),
            final(self).ext(old(self)),
    {
        let ghost o = *self;
        proof {
            self.lemma_ctx();
        }
        self.ctx.note_const_lvl(name, levels, u);
        proof {
            self.lemma_step(&o);
        }
    }

    pub fn note_rec_rule(&mut self, e: ExprPtr, up: LevelsPtr, levels: LevelsPtr, v: ValId)
        requires
            old(self).wf(),
            old(self).ctx.st.e_ok(e) && old(self).ctx.st.ls_ok(up) && old(self).ctx.st.ls_ok(levels)
                && old(self).ctx.w@.v_ok(v)
                && old(self).ctx.w@.g.steps(old(self).ctx.st.e(e).tsubst(old(self).ctx.st.ls(up),
                old(self).ctx.st.ls(levels)), old(self).ctx.w@.v(v)),
        ensures
            final(self).wf(),
            final(self).ext(old(self)),
            final(self).ctx.nb.vals == old(self).ctx.nb.vals,
    {
        let ghost o = *self;
        proof {
            self.lemma_ctx();
        }
        self.ctx.note_rec_rule(e, up, levels, v);
        proof {
            self.lemma_step(&o);
        }
    }

    pub fn note_iota(&mut self, x: ValId, u: Option<ValId>)
        requires
            old(self).wf(),
            u matches Some(v) ==> old(self).ctx.w@.v_ok(x) && old(self).ctx.w@.v_ok(v)
                && old(self).ctx.w@.g.steps(old(self).ctx.w@.v(x), old(self).ctx.w@.v(v)),
        ensures
            final(self).wf(),
            final(self).ext(old(self)),
            final(self).ctx.nb.vals == old(self).ctx.nb.vals,
    {
        let ghost o = *self;
        proof {
            self.lemma_ctx();
        }
        self.ctx.note_iota(x, u);
        proof {
            self.lemma_step(&o);
        }
    }

    pub fn note_struct_eta(&mut self, x: ValId, ind: NamePtr, u: Option<ValId>)
        requires
            old(self).wf(),
            u matches Some(v) ==> old(self).ctx.w@.v_ok(x) && old(self).ctx.w@.v_ok(v)
                && old(self).ctx.w@.g.steps(old(self).ctx.w@.v(x), old(self).ctx.w@.v(v)),
        ensures
            final(self).wf(),
            final(self).ext(old(self)),
    {
        let ghost o = *self;
        proof {
            self.lemma_ctx();
        }
        self.ctx.note_struct_eta(x, ind, u);
        proof {
            self.lemma_step(&o);
        }
    }

    pub fn note_type_of(&mut self, x: ValId, v: ValId)
        requires
            old(self).wf(),
            old(self).ctx.w@.v_ok(x) && old(self).ctx.w@.v_ok(v)
                && old(self).ctx.w@.g.has(old(self).ctx.w@.v(x), old(self).ctx.w@.v(v)),
        ensures
            final(self).wf(),
            final(self).ext(old(self)),
    {
        let ghost o = *self;
        proof {
            self.lemma_ctx();
        }
        self.ctx.note_type_of(x, v);
        proof {
            self.lemma_step(&o);
        }
    }

    pub fn note_local(&mut self, e: ExprPtr, v: ValId)
        requires
            old(self).wf(),
            old(self).ctx.st.e_ok(e) && old(self).ctx.w@.v_ok(v) && old(self).ctx.w@.v(v) == old(self).ctx.st.e(e),
        ensures
            final(self).wf(),
            final(self).ext(old(self)),
            final(self).ctx.nb.vals == old(self).ctx.nb.vals,
    {
        let ghost o = *self;
        proof {
            self.lemma_ctx();
        }
        self.ctx.note_local(e, v);
        proof {
            self.lemma_step(&o);
        }
    }

    /// Whether a variable is found in a value.
    pub fn recall_open(&self, x: ValId) -> (r: Option<bool>)
        requires
            self.wf(),
        ensures
            r matches Some(b) ==> self.ctx.w@.v_ok(x) && self.ctx.w@.open_answer(self.ctx.w@.v(x), b),
    {
        proof {
            self.lemma_ctx();
        }
        self.ctx.recall_open(x)
    }

    /// Whether a variable occurs in a value.
    pub fn note_open(&mut self, x: ValId, v: bool)
        requires
            old(self).wf(),
            old(self).ctx.w@.v_ok(x),
            old(self).ctx.w@.open_answer(old(self).ctx.w@.v(x), v),
        ensures
            final(self).wf(),
            final(self).ext(old(self)),
    {
        let ghost o = *self;
        proof {
            self.lemma_ctx();
        }
        self.ctx.note_open(x, v);
        proof {
            self.lemma_step(&o);
        }
    }

    /// Pairs found different.
    pub fn note_conv_neg(&mut self, x: ValId, y: ValId, v: bool)
        requires
            old(self).wf(),
        ensures
            final(self).wf(),
            final(self).ext(old(self)),
    {
        let ghost o = *self;
        proof {
            self.lemma_ctx();
        }
        self.ctx.note_conv_neg(x, y, v);
        proof {
            self.lemma_step(&o);
        }
    }

    /// Pairs found different under speculation.
    pub fn note_conv_neg_probe(&mut self, x: ValId, y: ValId, v: bool)
        requires
            old(self).wf(),
        ensures
            final(self).wf(),
            final(self).ext(old(self)),
    {
        let ghost o = *self;
        proof {
            self.lemma_ctx();
        }
        self.ctx.note_conv_neg_probe(x, y, v);
        proof {
            self.lemma_step(&o);
        }
    }

    /// Spines whose speculative comparison failed.
    pub fn note_probe_fail(&mut self, x: SpineId, y: SpineId, v: bool)
        requires
            old(self).wf(),
        ensures
            final(self).wf(),
            final(self).ext(old(self)),
    {
        let ghost o = *self;
        proof {
            self.lemma_ctx();
        }
        self.ctx.note_probe_fail(x, y, v);
        proof {
            self.lemma_step(&o);
        }
    }

    pub fn note_conv(&mut self, x: ValId, y: ValId)
        requires
            old(self).wf(),
            old(self).ctx.w@.v_ok(x),
            old(self).ctx.w@.v_ok(y),
            old(self).ctx.w@.g.eq(old(self).ctx.w@.v(x), old(self).ctx.w@.v(y)),
        ensures
            final(self).wf(),
            final(self).ext(old(self)),
    {
        let ghost o = *self;
        proof {
            self.lemma_ctx();
        }
        self.ctx.note_conv(x, y);
        proof {
            self.lemma_step(&o);
        }
    }

    pub fn note_infer_check(&mut self, e: ExprPtr, n: EnvId, v: ExprPtr)
        requires
            old(self).wf(),
            old(self).ctx.w@.infer_fact(&old(self).ctx.st, true, e, n, v),
        ensures
            final(self).wf(),
            final(self).ext(old(self)),
    {
        let ghost o = *self;
        proof {
            self.lemma_ctx();
        }
        self.ctx.note_infer_check(e, n, v);
        proof {
            self.lemma_step(&o);
        }
    }

    pub fn note_infer_only(&mut self, e: ExprPtr, n: EnvId, v: ExprPtr)
        requires
            old(self).wf(),
            old(self).ctx.w@.infer_fact(&old(self).ctx.st, false, e, n, v),
        ensures
            final(self).wf(),
            final(self).ext(old(self)),
    {
        let ghost o = *self;
        proof {
            self.lemma_ctx();
        }
        self.ctx.note_infer_only(e, n, v);
        proof {
            self.lemma_step(&o);
        }
    }

    pub fn note_prop(&mut self, e: ExprPtr, v: bool)
        requires
            old(self).wf(),
            old(self).ctx.st.e_ok(e) && old(self).ctx.w@.prop_answer(old(self).ctx.st.e(e), v),
        ensures
            final(self).wf(),
            final(self).ext(old(self)),
    {
        let ghost o = *self;
        proof {
            self.lemma_ctx();
        }
        self.ctx.note_prop(e, v);
        proof {
            self.lemma_step(&o);
        }
    }

    pub fn note_g_unfold(&mut self, e: ExprPtr, v: ExprPtr)
        requires
            old(self).wf(),
            old(self).ctx.st.e_ok(e) && old(self).ctx.st.e_ok(v)
                && old(self).ctx.w@.unfold_fact(old(self).ctx.st.e(e), old(self).ctx.st.e(v)),
        ensures
            final(self).wf(),
            final(self).ext(old(self)),
    {
        let ghost o = *self;
        proof {
            self.lemma_ctx();
        }
        self.ctx.note_g_unfold(e, v);
        proof {
            self.lemma_step(&o);
        }
    }

    pub fn note_g_inst_ty(&mut self, e: ExprPtr, v: ExprPtr)
        requires
            old(self).wf(),
            old(self).ctx.st.e_ok(e) && old(self).ctx.st.e_ok(v)
                && old(self).ctx.w@.type_fact(old(self).ctx.st.e(e), old(self).ctx.st.e(v)),
        ensures
            final(self).wf(),
            final(self).ext(old(self)),
    {
        let ghost o = *self;
        proof {
            self.lemma_ctx();
        }
        self.ctx.note_g_inst_ty(e, v);
        proof {
            self.lemma_step(&o);
        }
    }

    /// Follow variables to what they stand for.  A neutral entry resolves to
    /// its free variable, and a variable bound to an evaluated entry stays.
    pub fn chase(&self, e0: ExprPtr, env0: EnvId) -> (r: (ExprPtr, EnvId))
        requires
            self.wf(),
            self.ctx.clo_ok(Clo { e: e0, env: env0 }),
        ensures
            self.ctx.clo_ok(Clo { e: r.0, env: r.1 }),
            self.ctx.clo(Clo { e: r.0, env: r.1 }) == self.ctx.clo(Clo { e: e0, env: env0 }),
            self.ctx.w@.plain(env0) ==> self.ctx.w@.plain(r.1),
            self.ctx.w@.plain(env0) ==> !(self.ctx.st.e(r.0) is Var),
            self.ctx.w@.ntime(r.1) < self.ctx.w@.clock,
    {
        proof {
            self.lemma_ctx();
        }
        self.ctx.chase(e0, env0)
    }

    /// Cache-key normalization: resolve a variable to what it stands for; a
    /// closed result drops its environment.
    pub fn norm_clo(&self, c: Clo) -> (r: Clo)
        requires
            self.wf(),
            self.ctx.clo_ok(c),
        ensures
            self.ctx.clo_ok(r),
            self.ctx.clo(r) == self.ctx.clo(c),
            self.ctx.w@.plain(c.env) ==> self.ctx.w@.plain(r.env),
            self.ctx.st.e(r.e).nl() == 0 ==> r.env == ENV_NIL,
    {
        proof {
            self.lemma_ctx();
        }
        self.ctx.norm_clo(c)
    }

    /// Whether no entry of an environment is evaluated.
    pub fn env_plain(&self, env: EnvId) -> (r: bool)
        requires
            self.wf(),
            self.ctx.w@.n_ok(env),
        ensures
            r == self.ctx.w@.plain(env),
    {
        proof {
            self.lemma_ctx();
        }
        self.ctx.env_plain(env)
    }

    /// Entry for de Bruijn index `i` (0 is innermost).
    pub fn lookup(&self, env: EnvId, i: u16) -> (r: Entry)
        requires
            self.wf(),
            self.ctx.w@.n_ok(env),
            i < self.ctx.w@.n(env).len(),
        ensures
            r == self.ctx.w@.ents(env)[i as int],
            self.ctx.w@.entry_ok(&self.ctx.st, r, self.ctx.w@.ntime(env)),
            self.ctx.w@.entry(&self.ctx.st, r) == self.ctx.w@.n(env)[i as int],
            self.ctx.w@.plain(env) ==> self.ctx.w@.entry_plain(r),
    {
        proof {
            self.lemma_ctx();
        }
        self.ctx.lookup(env, i)
    }

    /// The form of `e`.
    pub fn read_expr(&self, e: ExprPtr) -> (r: Expr)
        requires
            self.wf(),
            self.ctx.st.e_ok(e),
        ensures
            self.ctx.st.shape(e, r),
    {
        proof {
            self.lemma_ctx();
        }
        self.ctx.read_expr(e)
    }

    /// One past the highest loose variable of `e`.
    pub fn lbr(&self, e: ExprPtr) -> (r: u16)
        requires
            self.wf(),
            self.ctx.st.e_ok(e),
        ensures
            r == self.ctx.st.e(e).nl(),
    {
        proof {
            self.lemma_ctx();
        }
        self.ctx.lbr(e)
    }

    /// Whether a free variable occurs in `e`.
    pub fn has_fvars(&self, e: ExprPtr) -> (r: bool)
        requires
            self.wf(),
            self.ctx.st.e_ok(e),
        ensures
            r == self.ctx.st.e(e).has_fv(),
    {
        proof {
            self.lemma_ctx();
        }
        self.ctx.has_fvars(e)
    }

    pub fn spine_len(&self, s: SpineId) -> (r: u32)
        requires
            self.wf(),
            self.ctx.w@.s_ok(s),
        ensures
            r == self.ctx.w@.s(s).len(),
    {
        proof {
            self.lemma_ctx();
        }
        self.ctx.spine_len(s)
    }

    /// The eliminations of a spine, outermost last.
    pub fn spine_to_vec(&self, s: SpineId) -> (r: Vec<Elim>)
        requires
            self.wf(),
            self.ctx.w@.s_ok(s),
        ensures
            self.ctx.elims(r@) == self.ctx.w@.s(s),
            r@.len() == self.ctx.w@.s(s).len(),
            forall|i: int| 0 <= i < r@.len() ==> self.ctx.w@.elim_ok(#[trigger] r@[i], self.ctx.w@.stime(s)),
    {
        proof {
            self.lemma_ctx();
        }
        self.ctx.spine_to_vec(s)
    }

    /// The arguments of a spine of applications, or `None` if a projection
    /// stands anywhere in it.
    pub fn spine_args(&self, s: SpineId) -> (r: Option<Vec<ValId>>)
        requires
            self.wf(),
            self.ctx.w@.s_ok(s),
        ensures
            match r {
                Some(v) => self.ctx.vs_ok(v@) && self.ctx.w@.s(s) == ElimT::of_args(self.ctx.vs(v@))
                    && v@.len() == self.ctx.w@.s(s).len(),
                None => exists|i: int| 0 <= i < self.ctx.w@.s(s).len() && #[trigger] self.ctx.w@.s(s)[i] is Proj,
            },
    {
        proof {
            self.lemma_ctx();
        }
        self.ctx.spine_args(s)
    }

    /// The `i`th elimination counting from the innermost application.
    pub fn spine_get(&self, s: SpineId, i: usize) -> (r: Option<Elim>)
        requires
            self.wf(),
            self.ctx.w@.s_ok(s),
        ensures
            match r {
                Some(x) => i < self.ctx.w@.s(s).len() && self.ctx.w@.s(s)[i as int] == self.ctx.w@.elim(x)
                    && self.ctx.w@.elim_ok(
                    x,
                    self.ctx.w@.stime(s),
                ),
                None => i >= self.ctx.w@.s(s).len(),
            },
    {
        proof {
            self.lemma_ctx();
        }
        self.ctx.spine_get(s, i)
    }

    /// The last elimination of a spine and the spine before it.
    pub fn spine_node(&self, s: SpineId) -> (r: SpineNode)
        requires
            self.wf(),
            self.ctx.w@.s_ok(s),
        ensures
            s > 0 ==> r.parent < s && self.ctx.w@.s_ok(r.parent) && self.ctx.w@.elim_ok(r.elim, self.ctx.w@.stime(s))
                && self.ctx.w@.s(s)
                == self.ctx.w@.s(r.parent).push(self.ctx.w@.elim(r.elim)),
            s == 0 ==> self.ctx.w@.s(s).len() == 0,
    {
        proof {
            self.lemma_ctx();
        }
        self.ctx.spine_node(s)
    }

    /// The number `p` names.
    pub fn read_bignum(&self, p: BigUintPtr) -> (r: Nat)
        requires
            self.wf(),
            self.ctx.st.n_ok(p),
        ensures
            r.wf(),
            r@ == self.ctx.st.n(p),
    {
        proof {
            self.lemma_ctx();
        }
        self.ctx.read_bignum(p)
    }

    /// The type recorded on a free variable.
    pub fn fvar_type(&self, fv: ExprPtr) -> (r: ExprPtr)
        requires
            self.wf(),
            self.ctx.st.e_ok(fv),
            self.ctx.st.e(fv) is Local,
        ensures
            self.ctx.st.e_ok(r),
            self.ctx.st.e(r) == *self.ctx.st.e(fv)->Local_3,
            self.ctx.st.e(r).nl() == 0,
    {
        proof {
            self.lemma_ctx();
        }
        self.ctx.fvar_type(fv)
    }

    /// The arguments of an application, the last one first, and its head.
    pub fn peel_apps(&self, c: Clo) -> (r: (ExprPtr, SpineVec))
        requires
            self.wf(),
            self.ctx.st.e_ok(c.e),
        ensures
            self.ctx.st.e_ok(r.0),
            !(self.ctx.st.e(r.0) is App),
            self.ctx.items_ok(r.1@, c.env),
            self.ctx.st.e(c.e) == Term::apps(self.ctx.st.e(r.0), self.ctx.items(r.1@.reverse())),
            r.0 <= c.e,
            forall|i: int| 0 <= i < r.1@.len() ==> (#[trigger] r.1@[i]).0 < c.e,
    {
        proof {
            self.lemma_ctx();
        }
        self.ctx.peel_apps(c)
    }

    /// An application taken apart.
    pub fn mk_sclo(&self, c: Clo) -> (r: SClo)
        requires
            self.wf(),
            self.ctx.st.e_ok(c.e),
        ensures
            r.head.env == c.env,
            self.ctx.st.e_ok(r.head.e),
            !(self.ctx.st.e(r.head.e) is App),
            self.ctx.items_ok(r.spine@, c.env),
            self.ctx.st.e(c.e) == Term::apps(self.ctx.st.e(r.head.e), self.ctx.items(r.spine@)),
            r.head.e <= c.e,
            forall|i: int| 0 <= i < r.spine@.len() ==> (#[trigger] r.spine@[i]).0 < c.e,
    {
        proof {
            self.lemma_ctx();
        }
        self.ctx.mk_sclo(c)
    }

    /// The value of a closure.
    pub fn recall_clo(&self, e: ExprPtr, env: EnvId) -> (r: Option<ValId>)
        requires
            self.wf(),
        ensures
            r matches Some(v) ==> self.ctx.clo_ok(Clo { e, env }) && self.ctx.w@.v_ok(v)
                && self.ctx.w@.g.steps(self.ctx.clo(Clo { e, env }), self.ctx.w@.v(v)),
    {
        proof {
            self.lemma_ctx();
        }
        self.ctx.recall_clo(e, env)
    }

    /// The value of the body of a constant.
    pub fn recall_unfolding(&self, name: NamePtr, levels: LevelsPtr) -> (r: Option<Option<ValId>>)
        requires
            self.wf(),
        ensures
            r matches Some(Some(v))
                ==> self.ctx.st.ls_ok(levels) && self.ctx.w@.v_ok(v)
                && self.ctx.w@.g.unfolds(name, self.ctx.st.ls(levels), self.ctx.w@.v(v)),
            r == Some(None::<ValId>) ==> self.ctx.st.ls_ok(levels) && self.ctx.w@.g.body_of(name, self.ctx.st.ls(levels)) is None,
    {
        proof {
            self.lemma_ctx();
        }
        self.ctx.recall_unfolding(name, levels)
    }

    /// The value of a constant.
    pub fn recall_const_val(&self, name: NamePtr, levels: LevelsPtr) -> (r: Option<ValId>)
        requires
            self.wf(),
        ensures
            r matches Some(v) ==> self.ctx.st.ls_ok(levels) && self.ctx.w@.v_ok(v)
                && self.ctx.w@.v(v) == Term::Const(name, self.ctx.st.ls(levels)),
    {
        proof {
            self.lemma_ctx();
        }
        self.ctx.recall_const_val(name, levels)
    }

    /// The value of the type of a constant.
    pub fn recall_const_ty(&self, name: NamePtr, levels: LevelsPtr) -> (r: Option<ValId>)
        requires
            self.wf(),
        ensures
            r matches Some(v) ==> self.ctx.st.ls_ok(levels) && self.ctx.w@.v_ok(v)
                && self.ctx.w@.g.has(Term::Const(name, self.ctx.st.ls(levels)), self.ctx.w@.v(v)),
    {
        proof {
            self.lemma_ctx();
        }
        self.ctx.recall_const_ty(name, levels)
    }

    /// The sort the type of a constant ends in.
    pub fn recall_const_lvl(&self, name: NamePtr, levels: LevelsPtr) -> (r: Option<Option<LevelPtr>>)
        requires
            self.wf(),
        ensures
            r matches Some(Some(v))
                ==> self.ctx.st.ls_ok(levels) && self.ctx.st.l_ok(v)
                && self.ctx.w@.const_level(name, self.ctx.st.ls(levels), self.ctx.st.l(v)),
    {
        proof {
            self.lemma_ctx();
        }
        self.ctx.recall_const_lvl(name, levels)
    }

    /// The value of a recursor rule.
    pub fn recall_rec_rule(&self, e: ExprPtr, up: LevelsPtr, levels: LevelsPtr) -> (r: Option<ValId>)
        requires
            self.wf(),
        ensures
            r matches Some(v) ==> self.ctx.st.e_ok(e) && self.ctx.st.ls_ok(up) && self.ctx.st.ls_ok(levels)
                && self.ctx.w@.v_ok(v)
                && self.ctx.w@.g.steps(self.ctx.st.e(e).tsubst(self.ctx.st.ls(up), self.ctx.st.ls(levels)),
                self.ctx.w@.v(v)),
    {
        proof {
            self.lemma_ctx();
        }
        self.ctx.recall_rec_rule(e, up, levels)
    }

    /// What a stuck application reduces to.
    pub fn recall_iota(&self, x: ValId) -> (r: Option<Option<ValId>>)
        requires
            self.wf(),
        ensures
            r matches Some(Some(v))
                ==> self.ctx.w@.v_ok(x) && self.ctx.w@.v_ok(v)
                && self.ctx.w@.g.steps(self.ctx.w@.v(x), self.ctx.w@.v(v)),
    {
        proof {
            self.lemma_ctx();
        }
        self.ctx.recall_iota(x)
    }

    /// The constructor application a value expands to.
    pub fn recall_struct_eta(&self, x: ValId, ind: NamePtr) -> (r: Option<Option<ValId>>)
        requires
            self.wf(),
        ensures
            r matches Some(Some(v))
                ==> self.ctx.w@.v_ok(x) && self.ctx.w@.v_ok(v)
                && self.ctx.w@.g.steps(self.ctx.w@.v(x), self.ctx.w@.v(v)),
    {
        proof {
            self.lemma_ctx();
        }
        self.ctx.recall_struct_eta(x, ind)
    }

    /// The value of the type of a value.
    pub fn recall_type_of(&self, x: ValId) -> (r: Option<ValId>)
        requires
            self.wf(),
        ensures
            r matches Some(v) ==> self.ctx.w@.v_ok(x) && self.ctx.w@.v_ok(v)
                && self.ctx.w@.g.has(self.ctx.w@.v(x), self.ctx.w@.v(v)),
    {
        proof {
            self.lemma_ctx();
        }
        self.ctx.recall_type_of(x)
    }

    /// The value of a free variable.
    pub fn recall_local(&self, e: ExprPtr) -> (r: Option<ValId>)
        requires
            self.wf(),
        ensures
            r matches Some(v) ==> self.ctx.st.e_ok(e) && self.ctx.w@.v_ok(v) && self.ctx.w@.v(v) == self.ctx.st.e(e),
    {
        proof {
            self.lemma_ctx();
        }
        self.ctx.recall_local(e)
    }

    /// Pairs found equal.
    pub fn recall_conv(&self, x: ValId, y: ValId) -> (r: bool)
        requires
            self.wf(),
        ensures
            r ==> self.ctx.w@.v_ok(x) && self.ctx.w@.v_ok(y) && self.ctx.w@.g.eq(self.ctx.w@.v(x), self.ctx.w@.v(y)),
    {
        proof {
            self.lemma_ctx();
        }
        self.ctx.recall_conv(x, y)
    }

    /// The type found for a key while checking.
    pub fn recall_infer_check(&self, e: ExprPtr, n: EnvId) -> (r: Option<ExprPtr>)
        requires
            self.wf(),
        ensures
            r matches Some(v) ==> self.ctx.w@.infer_fact(&self.ctx.st, true, e, n, v),
    {
        proof {
            self.lemma_ctx();
        }
        self.ctx.recall_infer_check(e, n)
    }

    /// The type inferred for a key.
    pub fn recall_infer_only(&self, e: ExprPtr, n: EnvId) -> (r: Option<ExprPtr>)
        requires
            self.wf(),
        ensures
            r matches Some(v) ==> self.ctx.w@.infer_fact(&self.ctx.st, false, e, n, v),
    {
        proof {
            self.lemma_ctx();
        }
        self.ctx.recall_infer_only(e, n)
    }

    /// Whether a type is a proposition.
    pub fn recall_prop(&self, e: ExprPtr) -> (r: Option<bool>)
        requires
            self.wf(),
        ensures
            r matches Some(v) ==> self.ctx.st.e_ok(e) && self.ctx.w@.prop_answer(self.ctx.st.e(e), v),
    {
        proof {
            self.lemma_ctx();
        }
        self.ctx.recall_prop(e)
    }

    /// The definition of a constant.
    pub fn recall_g_unfold(&self, e: ExprPtr) -> (r: Option<ExprPtr>)
        requires
            self.wf(),
        ensures
            r matches Some(v) ==> self.ctx.st.e_ok(e) && self.ctx.st.e_ok(v)
                && self.ctx.w@.unfold_fact(self.ctx.st.e(e), self.ctx.st.e(v)),
    {
        proof {
            self.lemma_ctx();
        }
        self.ctx.recall_g_unfold(e)
    }

    /// The type of a constant.
    pub fn recall_g_inst_ty(&self, e: ExprPtr) -> (r: Option<ExprPtr>)
        requires
            self.wf(),
        ensures
            r matches Some(v) ==> self.ctx.st.e_ok(e) && self.ctx.st.e_ok(v)
                && self.ctx.w@.type_fact(self.ctx.st.e(e), self.ctx.st.e(v)),
    {
        proof {
            self.lemma_ctx();
        }
        self.ctx.recall_g_inst_ty(e)
    }

    /// The number of entries of an environment.
    pub fn env_len(&self, env: EnvId) -> (r: u32)
        requires
            self.wf(),
            self.ctx.w@.n_ok(env),
        ensures
            r == self.ctx.w@.n(env).len(),
    {
        proof {
            self.lemma_ctx();
        }
        self.ctx.env_len(env)
    }

}

} // verus!
