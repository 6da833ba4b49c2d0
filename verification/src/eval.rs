//! Evaluation of expressions to values.
//!
//! `nb_eval` reads an expression under an environment and produces a value.
//! It never rebuilds an expression: entering a binder records the argument in
//! the environment, and an argument is recorded unevaluated so that one that
//! is never looked at is never evaluated.  Applying a value that is stuck
//! extends its spine rather than reconstructing the application.
use crate::closure::{Clo, Entry, EnvId, ENV_NIL};
use crate::ctx::World;
use crate::env::Declar;
use crate::error::{Reason, TcError};
use crate::expr::{Expr, ExprPtr};
use crate::level::{LevelsPtr, NamePtr};
use crate::nbe::{ConstKind, Elim, RigidHead, SpineId, ValId, Value, SPINE_EMPTY};
use crate::spine::SpineVec;
use crate::tc::TypeChecker;
use crate::term::Term;
use crate::theory::{ElimT, Sig};
use vstd::prelude::*;

verus! {

broadcast use crate::tc::group_tc;

impl Term {
    /// Evaluation makes a value of it without looking further.
    pub open spec fn evaluates(self) -> bool {
        self is Sort || self is Nat || self is Str || self is Local || self is Const || self is Lam
    }
}

impl<'x> TypeChecker<'x> {
    // ---- leaves ----

    /// The value an environment entry stands for: an evaluated entry is
    /// itself, a delayed one becomes a thunk, an opened binder its neutral.
    pub fn entry_val(&mut self, entry: Entry) -> (r: Result<ValId, TcError>)
        requires
            old(self).wf(),
            old(self).ctx.w@.entry_ok(&old(self).ctx.st, entry, old(self).ctx.w@.clock),
        ensures
            final(self).wf(),
            final(self).ext(old(self)),
            r matches Ok(x) ==> final(self).v_ok(x)
                && final(self).v(x) == old(self).ctx.w@.entry(&old(self).ctx.st, entry),
            r matches Err(err) ==> err == TcError::Full,
            r matches Err(err) ==> !(err is Reject) && final(self).ran_out(old(self)),
    {
        match entry {
            Entry::V(v) => Ok(v),
            Entry::Val(e, env) => {
                let env2: EnvId = if self.lbr(e) == 0 {
                    ENV_NIL
                } else {
                    env
                };
                proof {
                    self.lemma_base();
                    if self.ctx.st.e(e).nl() == 0 {
                        Term::lemma_inst_closed(self.ctx.st.e(e), 0, self.ctx.w@.n(env));
                        Term::lemma_inst_closed(self.ctx.st.e(e), 0, self.ctx.w@.n(env2));
                    }
                }
                self.mk_thunk(env2, e)
            },
            Entry::Neu(fv) => self.nb_local(fv),
        }
    }

    /// Whether a value is an expression still to be evaluated.
    pub fn delayed(&self, v: ValId) -> (r: bool)
        requires
            self.wf(),
            self.v_ok(v),
        ensures
            r == !self.done(v),
    {
        match self.get(v) {
            Value::Thunk { .. } => true,
            _ => false,
        }
    }

    /// The value of a free variable.
    pub fn nb_local(&mut self, e: ExprPtr) -> (r: Result<ValId, TcError>)
        requires
            old(self).wf(),
            old(self).ctx.st.e_ok(e),
            old(self).ctx.st.e(e) is Local,
        ensures
            final(self).wf(),
            final(self).ext(old(self)),
            r matches Ok(x) ==> final(self).v_ok(x) && final(self).v(x) == old(self).ctx.st.e(e),
            r matches Ok(x) ==> final(self).done(x),
            r matches Err(x) ==> x == TcError::Full,
            r matches Err(err) ==> !(err is Reject) && final(self).ran_out(old(self)),
    {
        match self.recall_local(e) {
            Some(v) => {
                if !self.delayed(v) {
                    return Ok(v);
                }
            },
            None => {},
        }
        proof {
            self.lemma_base();
        }
        let v = self.mk_rigid(RigidHead::Local(e), SPINE_EMPTY)?;
        self.note_local(e, v);
        Ok(v)
    }

    /// The value denoting a constant: one with a body stays folded, anything
    /// else is a neutral carrying the kind that decides how it reduces.
    pub fn nb_const(&mut self, name: NamePtr, levels: LevelsPtr) -> (r: Result<ValId, TcError>)
        requires
            old(self).wf(),
            old(self).ctx.st.ls_ok(levels),
        ensures
            final(self).wf(),
            final(self).ext(old(self)),
            r matches Ok(x) ==> final(self).v_ok(x)
                && final(self).v(x) == Term::Const(name, old(self).ctx.st.ls(levels)),
            r matches Ok(x) ==> final(self).done(x),
            r matches Err(x) ==> x == TcError::Full,
            r matches Err(err) ==> !(err is Reject) && final(self).ran_out(old(self)),
    {
        match self.recall_const_val(name, levels) {
            Some(v) => {
                if !self.delayed(v) {
                    return Ok(v);
                }
            },
            None => {},
        }
        proof {
            self.lemma_base();
            self.lemma_env();
        }
        let kind: Option<ConstKind> = match self.env.get_declar(name) {
            Some(Declar::Definition { .. }) => None,
            Some(Declar::Theorem { .. }) => None,
            Some(Declar::Constructor(_)) => Some(ConstKind::Ctor),
            Some(Declar::Recursor(_)) => Some(ConstKind::Recursor),
            Some(Declar::Quot { .. }) => Some(ConstKind::QuotConst),
            Some(Declar::Inductive(_)) => Some(ConstKind::Inductive),
            _ => Some(ConstKind::Axiom),
        };
        let v = match kind {
            None => self.mk_unfold(name, levels, SPINE_EMPTY)?,
            Some(k) => self.mk_rigid(RigidHead::Const(k, name, levels), SPINE_EMPTY)?,
        };
        self.note_const_val(name, levels, v);
        Ok(v)
    }

    // ---- evaluation ----

    /// The value of `e` under `env`.  There is no memo over this: a closed
    /// expression evaluates under the empty environment and interns to one
    /// value, a delayed argument evaluates through its thunk's forced cell,
    /// and an unfolded constant through its folded node, so the sharing an
    /// evaluation memo would buy already lives in the values themselves.
    pub fn nb_eval(&mut self, fuel: u32, depth: u32, env: EnvId, e: ExprPtr) -> (r: Result<ValId, TcError>)
        requires
            old(self).wf(),
            old(self).ctx.clo_ok(Clo { e, env }),
            old(self).ctx.clo(Clo { e, env }).bvb() <= depth,
        ensures
            final(self).wf(),
            final(self).ext(old(self)),
            r matches Ok(x) ==> final(self).v_ok(x)
                && final(self).g().steps(old(self).ctx.clo(Clo { e, env }), final(self).v(x)),
            fuel > 1 && old(self).ctx.st.e(e).evaluates() ==> r is Ok || r == Err::<ValId, TcError>(TcError::Full),
            r matches Ok(x) ==> final(self).done(x),
            old(self).ctx.st.e(e) is Pi ==> (r matches Ok(x) ==> final(self).v(x) is Pi),
            r matches Err(err) ==> final(self).accounts(old(self), err),
        decreases fuel,
    {
        if fuel == 0 {
            return Err(self.out_of_depth(0));
        }
        let env2: EnvId = if self.lbr(e) == 0 {
            ENV_NIL
        } else {
            env
        };
        proof {
            self.lemma_base();
            if self.ctx.st.e(e).nl() == 0 {
                Term::lemma_inst_closed(self.ctx.st.e(e), 0, self.ctx.w@.n(env));
                Term::lemma_inst_closed(self.ctx.st.e(e), 0, self.ctx.w@.n(env2));
            }
        }
        self.nb_eval_go(fuel - 1, depth, env2, e)
    }

    fn nb_eval_go(&mut self, fuel: u32, depth: u32, env: EnvId, e: ExprPtr) -> (r: Result<ValId, TcError>)
        requires
            old(self).wf(),
            old(self).ctx.clo_ok(Clo { e, env }),
            old(self).ctx.clo(Clo { e, env }).bvb() <= depth,
        ensures
            final(self).wf(),
            final(self).ext(old(self)),
            r matches Ok(x) ==> final(self).v_ok(x)
                && final(self).g().steps(old(self).ctx.clo(Clo { e, env }), final(self).v(x)),
            fuel > 0 && old(self).ctx.st.e(e).evaluates() ==> r is Ok || r == Err::<ValId, TcError>(TcError::Full),
            r matches Ok(x) ==> final(self).done(x),
            old(self).ctx.st.e(e) is Pi ==> (r matches Ok(x) ==> final(self).v(x) is Pi),
            r matches Err(err) ==> final(self).accounts(old(self), err),
        decreases fuel,
    {
        if fuel == 0 {
            return Err(self.out_of_depth(0));
        }
        let ghost g = self.g();
        let ghost t = self.ctx.clo(Clo { e, env });
        proof {
            Sig::steps_refl(g, t);
            self.lemma_ntime(env);
        }
        match self.read_expr(e) {
            Expr::Var { dbj_idx } => {
                let entry = self.lookup(env, dbj_idx);
                let v = self.entry_val(entry)?;
                self.nb_force(fuel - 1, depth, v)
            },
            Expr::Sort { level } => {
                let ghost l = self.ctx.st.l(level);
                let level = self.simplify(level)?;
                proof {
                    Sig::r_level(g, l, self.ctx.st.l(level));
                }
                self.mk_sort_val(level)
            },
            Expr::NatLit { ptr } => self.mk_nat(ptr),
            Expr::StringLit { ptr } => self.mk_str(ptr),
            Expr::Local { .. } => self.nb_local(e),
            Expr::Const { name, levels } => self.nb_const(name, levels),
            Expr::App { .. } => self.nb_eval_app(fuel - 1, depth, env, e),
            Expr::Lambda { binder_name, binder_style, binder_type, body } => {
                let r = self.mk_lam(binder_name, binder_style, binder_type, env, body)?;
                proof {
                    World::lemma_alike(g, t, self.v(r));
                }
                Ok(r)
            },
            Expr::Pi { binder_name, binder_style, binder_type, body } => {
                let ghost a = self.ctx.clo(Clo { e: binder_type, env });
                let ghost b = self.ctx.st.e(body).inst(1, self.ctx.w@.n(env));
                let domain = self.nb_delay(fuel - 1, depth, env, binder_type)?;
                let ghost d = self.v(domain);
                let r = self.mk_pi_val(binder_name, binder_style, domain, env, body)?;
                proof {
                    Sig::r_pi(g, binder_name, binder_style, a, d, b);
                    let u = Term::pi(binder_name, binder_style, d, b);
                    World::lemma_alike(g, u, self.v(r));
                    Sig::steps_trans(g, t, u, self.v(r));
                }
                Ok(r)
            },
            Expr::Let { .. } => self.nb_eval_let(fuel - 1, depth, env, e),
            Expr::Proj { ty_name, idx, structure } => {
                let ghost s = self.ctx.clo(Clo { e: structure, env });
                let v = self.nb_eval(fuel - 1, depth, env, structure)?;
                let ghost u = self.v(v);
                let r = self.nb_proj(fuel - 1, depth, ty_name, idx, v)?;
                proof {
                    Sig::steps_proj(g, ty_name, idx as nat, s, u);
                    Sig::steps_trans(g, t, Term::proj(ty_name, idx as nat, u), self.v(r));
                }
                Ok(r)
            },
        }
    }

    /// A chain of `let`s: each value is evaluated and bound in turn.
    fn nb_eval_let(&mut self, fuel: u32, depth: u32, env: EnvId, e: ExprPtr) -> (r: Result<ValId, TcError>)
        requires
            old(self).wf(),
            old(self).ctx.clo_ok(Clo { e, env }),
            old(self).ctx.clo(Clo { e, env }).bvb() <= depth,
        ensures
            final(self).wf(),
            final(self).ext(old(self)),
            r matches Ok(x) ==> final(self).v_ok(x)
                && final(self).g().steps(old(self).ctx.clo(Clo { e, env }), final(self).v(x)),
            r matches Ok(x) ==> final(self).done(x),
            r matches Err(err) ==> final(self).accounts(old(self), err),
        decreases fuel,
    {
        if fuel == 0 {
            return Err(self.out_of_depth(0));
        }
        let ghost o = *self;
        let ghost g = self.g();
        let ghost t = self.ctx.clo(Clo { e, env });
        let mut cur: EnvId = env;
        let mut cursor: ExprPtr = e;
        proof {
            Sig::steps_refl(g, t);
        }
        loop
            invariant
                o == *old(self),
                o.wf(),
                self.wf(),
                self.ext(&o),
                g == o.g(),
                fuel > 0,
                self.ctx.clo_ok(Clo { e: cursor, env: cur }),
                g.steps(t, self.ctx.clo(Clo { e: cursor, env: cur })),
                t == o.ctx.clo(Clo { e, env }),
                t.bvb() <= depth,
            decreases cursor,
        {
            match self.read_expr(cursor) {
                Expr::Let { binder_name, binder_type, val, body, nondep } => {
                    let ghost n = self.ctx.w@.n(cur);
                    let ghost u = self.ctx.clo(Clo { e: cursor, env: cur });
                    let ghost a = self.ctx.st.e(binder_type).inst(0, n);
                    let ghost x = self.ctx.clo(Clo { e: val, env: cur });
                    let ghost b = self.ctx.st.e(body);
                    proof {
                        self.lemma_ntime(cur);
                    }
                    let v = self.nb_eval(fuel - 1, depth, cur, val)?;
                    let ghost y = self.v(v);
                    proof {
                        self.lemma_vtime(v);
                    }
                    let env2 = self.push_entry_v(cur, v)?;
                    proof {
                        Sig::r_let_val(g, binder_name, nondep, a, x, y, b.inst(1, n));
                        Sig::r_zeta(g, binder_name, nondep, a, y, b.inst(1, n));
                        Term::lemma_inst_open(b, y, n);
                        let m = Term::let_in(binder_name, nondep, a, y, b.inst(1, n));
                        Sig::r_trans(g, u, m, b.inst(1, n).inst(0, seq![y]));
                        Term::lemma_inst_bvb(b.inst(1, n), 0, seq![y], u.bvb());
                        Sig::steps_trans(g, t, u, self.ctx.clo(Clo { e: body, env: env2 }));
                    }
                    cur = env2;
                    cursor = body;
                },
                _ => {
                    let ghost u = self.ctx.clo(Clo { e: cursor, env: cur });
                    let r = self.nb_eval(fuel - 1, depth, cur, cursor)?;
                    proof {
                        Sig::steps_trans(g, t, u, self.v(r));
                    }
                    return Ok(r);
                },
            }
        }
    }

    /// The whole application chain at once: a lambda head consumes arguments
    /// through the environment, and the first stuck head takes every remaining
    /// argument onto its spine as one value.
    fn nb_eval_app(&mut self, fuel: u32, depth: u32, env: EnvId, e: ExprPtr) -> (r: Result<ValId, TcError>)
        requires
            old(self).wf(),
            old(self).ctx.clo_ok(Clo { e, env }),
            old(self).ctx.clo(Clo { e, env }).bvb() <= depth,
        ensures
            final(self).wf(),
            final(self).ext(old(self)),
            r matches Ok(x) ==> final(self).v_ok(x)
                && final(self).g().steps(old(self).ctx.clo(Clo { e, env }), final(self).v(x)),
            r matches Ok(x) ==> final(self).done(x),
            r matches Err(err) ==> final(self).accounts(old(self), err),
        decreases fuel,
    {
        if fuel == 0 {
            return Err(self.out_of_depth(0));
        }
        let ghost o = *self;
        let ghost g = self.g();
        let ghost s = self.ctx.w@.n(env);
        let ghost t = self.ctx.clo(Clo { e, env });
        let (head, args) = self.peel_apps(Clo { e, env });
        let ghost items = args@.reverse();
        let ghost ts = Term::inst_seq(self.ctx.items(items), 0, s);
        let ghost h = self.ctx.clo(Clo { e: head, env });
        proof {
            Term::lemma_inst_apps(self.ctx.st.e(head), self.ctx.items(items), 0, s);
            Term::lemma_apps_bvb(h, ts, depth as nat);
            Term::lemma_apps_scope(self.ctx.st.e(head), self.ctx.items(items), s.len());
            assert forall|i: int| 0 <= i < args@.len() implies self.ctx.st.e_ok((#[trigger] args@[i]).0)
                && self.ctx.st.e(
                args@[i].0,
            ).nl() <= s.len() && ts[args@.len() - 1 - i] == self.ctx.st.e(args@[i].0).inst(0, s) by {
                assert(items[args@.len() - 1 - i] == args@[i]);
                assert(self.ctx.items(items)[args@.len() - 1 - i] == self.ctx.st.e(args@[i].0));
            }
        }
        let mut f = self.nb_eval(fuel - 1, depth, env, head)?;
        let mut i: usize = args.len();
        proof {
            Sig::steps_apps(g, h, self.v(f), ts);
            assert(ts.skip(0) =~= ts);
        }
        while i > 0
            invariant
                o == *old(self),
                o.wf(),
                self.wf(),
                self.ext(&o),
                g == o.g(),
                fuel > 0,
                o.ctx.w@.n_ok(env),
                s == o.ctx.w@.n(env),
                t == o.ctx.clo(Clo { e, env }),
                t.bvb() <= depth,
                i <= args@.len(),
                ts.len() == args@.len(),
                forall|j: int| 0 <= j < args@.len() ==> o.ctx.st.e_ok((#[trigger] args@[j]).0) && o.ctx.st.e(
                    args@[j].0,
                ).nl() <= s.len() && ts[args@.len() - 1 - j] == o.ctx.st.e(args@[j].0).inst(0, s),
                self.v_ok(f),
                self.done(f),
                g.steps(t, Term::apps(self.v(f), ts.skip(args@.len() - i))),
            decreases i,
        {
            let ghost rest = ts.skip(args@.len() - i);
            if self.batchable(f) {
                let r = self.nb_eval_batch(fuel - 1, depth, env, f, &args, i, Ghost(rest))?;
                proof {
                    Sig::steps_trans(g, t, Term::apps(self.v(f), rest), self.v(r));
                }
                return Ok(r);
            }
            i -= 1;
            let ghost a0 = ts[args@.len() - 1 - i];
            let ghost tail = ts.skip(args@.len() - i);
            proof {
                assert(rest =~= seq![a0] + tail);
                Term::lemma_apps_cons(self.v(f), a0, tail);
                Term::lemma_apps_bvb(Term::app(self.v(f), a0), tail, depth as nat);
            }
            let a = self.nb_delay(fuel - 1, depth, env, args.get(i).e)?;
            let ghost f0 = self.v(f);
            let ghost x = self.v(a);
            let f2 = self.nb_apply(fuel - 1, depth, f, a)?;
            proof {
                Sig::steps_refl(g, f0);
                Sig::steps_app(g, f0, a0, f0, x);
                Sig::steps_trans(g, Term::app(f0, a0), Term::app(f0, x), self.v(f2));
                Sig::steps_apps(g, Term::app(f0, a0), self.v(f2), tail);
                Sig::steps_trans(g, t, Term::apps(f0, rest), Term::apps(self.v(f2), tail));
            }
            f = f2;
        }
        proof {
            assert(ts.skip(args@.len() as int) =~= Seq::empty());
        }
        Ok(f)
    }

    /// Whether every further argument only extends the spine of `f`.
    fn batchable(&self, f: ValId) -> (r: bool)
        requires
            self.wf(),
            self.v_ok(f),
        ensures
            r ==> self.ctx.nb.vals@[f as int] is Rigid || self.ctx.nb.vals@[f as int] is Unfold,
    {
        match self.get(f) {
            Value::Rigid { head, .. } => {
                match head {
                    RigidHead::Const(ConstKind::Ctor, name, _) => !(self.ctx.nat_ext && self.is_name(
                        self.ctx.names.get().nat_succ,
                        name,
                    )),
                    _ => true,
                }
            },
            Value::Unfold { name, .. } => !(self.ctx.nat_ext && self.nb_is_nat_prim(name)),
            _ => false,
        }
    }

    /// Whether `n` is the name in `o`.
    pub fn is_name(&self, o: Option<u32>, n: NamePtr) -> (r: bool)
        ensures
            r == (o == Some(n)),
    {
        match o {
            Some(m) => m == n,
            None => false,
        }
    }

    /// The first `n` arguments, taken from the end of the list, onto the spine
    /// of a stuck value.
    fn nb_eval_batch(&mut self, fuel: u32, depth: u32, env: EnvId, f: ValId, args: &SpineVec, n: usize,
        Ghost(rest): Ghost<Seq<Term>>) -> (r: Result<
        ValId,
        TcError,
    >)
        requires
            old(self).wf(),
            old(self).v_ok(f),
            old(self).ctx.nb.vals@[f as int] is Rigid || old(self).ctx.nb.vals@[f as int] is Unfold,
            old(self).ctx.w@.n_ok(env),
            n <= args@.len(),
            rest.len() == n,
            forall|j: int|
                0 <= j < n ==> old(self).ctx.st.e_ok((#[trigger] args@[j]).0) && old(self).ctx.st.e(args@[j].0).nl()
                    <= old(self).ctx.w@.n(env).len() && rest[n - 1 - j] == old(self).ctx.st.e(args@[j].0).inst(
                    0,
                    old(self).ctx.w@.n(env),
                ),
            Term::apps(old(self).v(f), rest).bvb() <= depth,
        ensures
            final(self).wf(),
            final(self).ext(old(self)),
            r matches Ok(x) ==> final(self).v_ok(x)
                && final(self).g().steps(Term::apps(old(self).v(f), rest), final(self).v(x)),
            r matches Ok(x) ==> final(self).done(x),
            r matches Err(err) ==> final(self).accounts(old(self), err),
        decreases fuel,
    {
        if fuel == 0 {
            return Err(self.out_of_depth(0));
        }
        let ghost o = *self;
        let ghost g = self.g();
        let ghost s = self.ctx.w@.n(env);
        let node = self.get(f);
        let ghost hd = match node {
            Value::Rigid { head, .. } => self.ctx.w@.head(&self.ctx.st, head),
            Value::Unfold { name, levels, .. } => Term::Const(name, self.ctx.st.ls(levels)),
            _ => self.v(f),
        };
        let mut spine: SpineId = match node {
            Value::Rigid { spine, .. } => spine,
            Value::Unfold { spine, .. } => spine,
            _ => {
                return Err(self.reject(Reason::BadValue));
            },
        };
        let ghost t = Term::apps(self.v(f), rest);
        let mut i: usize = n;
        proof {
            assert(rest.skip(0) =~= rest);
            Sig::steps_refl(g, t);
            Term::lemma_apps_bvb(self.v(f), rest, depth as nat);
        }
        while i > 0
            invariant
                o == *old(self),
                o.wf(),
                self.wf(),
                self.ext(&o),
                g == o.g(),
                fuel > 0,
                o.ctx.w@.n_ok(env),
                s == o.ctx.w@.n(env),
                i <= n <= args@.len(),
                rest.len() == n,
                Term::bvb_seq(rest, depth as nat),
                forall|j: int|
                    0 <= j < n ==> o.ctx.st.e_ok((#[trigger] args@[j]).0) && o.ctx.st.e(args@[j].0).nl() <= s.len()
                        && rest[n - 1 - j] == o.ctx.st.e(args@[j].0).inst(0, s),
                self.ctx.w@.s_ok(spine),
                g.steps(t, Term::apps(ElimT::spine(hd, self.ctx.w@.s(spine)), rest.skip(n - i))),
            decreases i,
        {
            let ghost tail0 = rest.skip(n - i);
            let ghost sp = ElimT::spine(hd, self.ctx.w@.s(spine));
            i -= 1;
            let ghost a0 = rest[n - 1 - i];
            let ghost tail = rest.skip(n - i);
            proof {
                assert(tail0 =~= seq![a0] + tail);
                Term::lemma_apps_cons(sp, a0, tail);
            }
            let a = self.nb_delay(fuel - 1, depth, env, args.get(i).e)?;
            proof {
                self.lemma_vtime(a);
            }
            let ghost x = self.v(a);
            let ghost es = self.ctx.w@.s(spine);
            spine = self.spine_snoc(spine, Elim::App(a))?;
            proof {
                ElimT::lemma_spine_push(hd, es, ElimT::App(x));
                Sig::steps_refl(g, sp);
                Sig::steps_app(g, sp, a0, sp, x);
                Sig::steps_apps(g, Term::app(sp, a0), Term::app(sp, x), tail);
                Sig::steps_trans(g, t, Term::apps(sp, tail0), Term::apps(Term::app(sp, x), tail));
            }
        }
        proof {
            assert(rest.skip(n as int) =~= Seq::empty());
        }
        match node {
            Value::Rigid { head, .. } => {
                proof {
                    o.lemma_vtime(f);
                }
                self.mk_rigid(head, spine)
            },
            Value::Unfold { name, levels, .. } => self.mk_unfold(name, levels, spine),
            _ => Err(self.reject(Reason::BadValue)),
        }
    }

    /// Record a subterm without evaluating it.  Something already in normal
    /// form is evaluated straight away, since a thunk over it would cost more
    /// than the value.
    fn nb_delay(&mut self, fuel: u32, depth: u32, env: EnvId, e: ExprPtr) -> (r: Result<ValId, TcError>)
        requires
            old(self).wf(),
            old(self).ctx.clo_ok(Clo { e, env }),
            old(self).ctx.clo(Clo { e, env }).bvb() <= depth,
        ensures
            final(self).wf(),
            final(self).ext(old(self)),
            r matches Ok(x) ==> final(self).v_ok(x)
                && final(self).g().steps(old(self).ctx.clo(Clo { e, env }), final(self).v(x)),
            r matches Err(err) ==> final(self).accounts(old(self), err),
        decreases fuel,
    {
        if fuel == 0 {
            return Err(self.out_of_depth(0));
        }
        match self.read_expr(e) {
            Expr::Var { .. } => self.nb_eval(fuel - 1, depth, env, e),
            Expr::Sort { .. } => self.nb_eval(fuel - 1, depth, env, e),
            Expr::NatLit { .. } => self.nb_eval(fuel - 1, depth, env, e),
            Expr::StringLit { .. } => self.nb_eval(fuel - 1, depth, env, e),
            Expr::Local { .. } => self.nb_eval(fuel - 1, depth, env, e),
            Expr::Const { .. } => self.nb_eval(fuel - 1, depth, env, e),
            _ => {
                let env2: EnvId = if self.lbr(e) == 0 {
                    ENV_NIL
                } else {
                    env
                };
                proof {
                    self.lemma_base();
                    Sig::steps_refl(self.g(), self.ctx.clo(Clo { e, env }));
                    if self.ctx.st.e(e).nl() == 0 {
                        Term::lemma_inst_closed(self.ctx.st.e(e), 0, self.ctx.w@.n(env));
                        Term::lemma_inst_closed(self.ctx.st.e(e), 0, self.ctx.w@.n(env2));
                    }
                }
                self.mk_thunk(env2, e)
            },
        }
    }

    /// Force a thunk, remembering the result in it.
    pub fn nb_force(&mut self, fuel: u32, depth: u32, v: ValId) -> (r: Result<ValId, TcError>)
        requires
            old(self).wf(),
            old(self).v_ok(v),
            old(self).v(v).bvb() <= depth,
        ensures
            final(self).wf(),
            final(self).ext(old(self)),
            r matches Ok(x) ==> final(self).v_ok(x) && final(self).g().steps(old(self).v(v), final(self).v(x)),
            !(old(self).ctx.nb.vals@[v as int] is Thunk) ==> r == Ok::<ValId, TcError>(v) && *final(self) == *old(self),
            r matches Ok(x) ==> final(self).done(x),
            r matches Err(err) ==> final(self).accounts(old(self), err),
        decreases fuel,
    {
        let ghost g = self.g();
        let ghost t = self.v(v);
        proof {
            Sig::steps_refl(g, t);
        }
        match self.get(v) {
            Value::Thunk { env, expr, forced } => {
                match forced {
                    Some(f) => {
                        if !self.delayed(f) {
                            return Ok(f);
                        }
                        if fuel == 0 {
                            return Err(self.out_of_depth(0));
                        }
                        let ghost u = self.v(f);
                        let f = self.nb_force(fuel - 1, depth, f)?;
                        proof {
                            Sig::steps_trans(g, t, u, self.v(f));
                        }
                        return Ok(f);
                    },
                    None => {},
                }
                if fuel == 0 {
                    return Err(self.out_of_depth(0));
                }
                let f = self.nb_eval(fuel - 1, depth, env, expr)?;
                let ghost u = self.v(f);
                let f = self.nb_force(fuel - 1, depth, f)?;
                proof {
                    Sig::steps_trans(g, t, u, self.v(f));
                }
                self.set_forced(v, f);
                Ok(f)
            },
            _ => Ok(v),
        }
    }

    /// Apply a value to an argument.
    pub fn nb_apply(&mut self, fuel: u32, depth: u32, f: ValId, a: ValId) -> (r: Result<ValId, TcError>)
        requires
            old(self).wf(),
            old(self).v_ok(f),
            old(self).v_ok(a),
            old(self).v(f).bvb() <= depth,
            old(self).v(a).bvb() <= depth,
        ensures
            final(self).wf(),
            final(self).ext(old(self)),
            r matches Ok(x) ==> final(self).v_ok(x)
                && final(self).g().steps(Term::app(old(self).v(f), old(self).v(a)), final(self).v(x)),
            r matches Ok(x) ==> final(self).done(x),
            r matches Ok(x) ==> (old(self).ctx.nb.vals@[f as int] is Lam ==> final(self).g().red(
                old(self).v(f)->Lam_3.inst(0, seq![old(self).v(a)]),
                final(self).v(x),
            )),
            r matches Err(err) ==> final(self).accounts(old(self), err),
        decreases fuel,
    {
        if fuel == 0 {
            return Err(self.out_of_depth(0));
        }
        let ghost g = self.g();
        let ghost tf = self.v(f);
        let ghost ta = self.v(a);
        let ghost t = Term::app(tf, ta);
        proof {
            Sig::steps_refl(g, t);
            self.lemma_vtime(a);
        }
        match self.get(f) {
            Value::Lam { binder_name, binder_style, binder_type, env, body, .. } => {
                let ghost n = self.ctx.w@.n(env);
                let ghost b = self.ctx.st.e(body);
                let ghost d = self.ctx.st.e(binder_type).inst(0, n);
                proof {
                    self.lemma_ntime(env);
                    Term::lemma_inst_open(b, ta, n);
                    Sig::r_beta(g, binder_name, binder_style, d, b.inst(1, n), ta);
                    Term::lemma_inst_bvb(b.inst(1, n), 0, seq![ta], t.bvb());
                }
                let env2 = self.push_entry_v(env, a)?;
                let ghost u = self.ctx.clo(Clo { e: body, env: env2 });
                let r = self.nb_eval(fuel - 1, depth, env2, body)?;
                proof {
                    Sig::steps_trans(g, t, u, self.v(r));
                }
                Ok(r)
            },
            Value::Rigid { head, spine } => self.nb_apply_rigid(fuel - 1, depth, f, head, spine, a),
            Value::Unfold { name, levels, spine, .. } => {
                let ghost es = self.ctx.w@.s(spine);
                let ghost hd = Term::Const(name, self.ctx.st.ls(levels));
                proof {
                    ElimT::lemma_spine_push(hd, es, ElimT::App(ta));
                }
                let spine = self.spine_snoc(spine, Elim::App(a))?;
                // A `Nat` primitive whose arguments are already literals is
                // answered here, so the recursive definition never unfolds.
                if self.ctx.nat_ext && self.nb_is_nat_prim(name) {
                    match self.spine_args(spine) {
                        Some(args) => {
                            proof {
                                ElimT::lemma_spine_args(hd, self.vs(args@));
                                Term::lemma_apps_bvb(hd, self.vs(args@), depth as nat);
                            }
                            let ghost ls = self.ctx.st.ls(levels);
                            match self.nb_nat_red(fuel - 1, depth, name, &args, false, Ghost(ls))? {
                                Some(x) => {
                                    let ghost u = self.v(x);
                                    let r = self.nb_force(fuel - 1, depth, x)?;
                                    proof {
                                        Sig::steps_trans(g, t, u, self.v(r));
                                    }
                                    return Ok(r);
                                },
                                None => {},
                            }
                        },
                        None => {},
                    }
                }
                self.mk_unfold(name, levels, spine)
            },
            Value::Thunk { .. } => {
                let f2 = self.nb_force(fuel - 1, depth, f)?;
                let ghost u = self.v(f2);
                let r = self.nb_apply(fuel - 1, depth, f2, a)?;
                proof {
                    Sig::steps_fun(g, tf, ta, u);
                    Sig::steps_trans(g, t, Term::app(u, ta), self.v(r));
                }
                Ok(r)
            },
            _ => Err(self.reject(Reason::NotAFunction)),
        }
    }

    /// Apply a stuck value.
    fn nb_apply_rigid(&mut self, fuel: u32, depth: u32, f: ValId, head: RigidHead, spine: SpineId, a: ValId)
        -> (r: Result<
        ValId,
        TcError,
    >)
        requires
            old(self).wf(),
            old(self).v_ok(f),
            old(self).v_ok(a),
            old(self).v(f).bvb() <= depth,
            old(self).v(a).bvb() <= depth,
            old(self).ctx.is_node(f, Value::Rigid { head, spine }),
        ensures
            final(self).wf(),
            final(self).ext(old(self)),
            r matches Ok(x) ==> final(self).v_ok(x)
                && final(self).g().steps(Term::app(old(self).v(f), old(self).v(a)), final(self).v(x)),
            r matches Ok(x) ==> final(self).done(x),
            r matches Err(err) ==> final(self).accounts(old(self), err),
        decreases fuel,
    {
        if fuel == 0 {
            return Err(self.out_of_depth(0));
        }
        let ghost g = self.g();
        let ghost tf = self.v(f);
        let ghost ta = self.v(a);
        let ghost t = Term::app(tf, ta);
        let ghost hd = self.ctx.w@.head(&self.ctx.st, head);
        let ghost es = self.ctx.w@.s(spine);
        proof {
            Sig::steps_refl(g, t);
            self.lemma_vtime(a);
            self.lemma_vtime(f);
            self.lemma_base();
            ElimT::lemma_spine_push(hd, es, ElimT::App(ta));
        }
        let spine2 = self.spine_snoc(spine, Elim::App(a))?;
        // `Nat.succ` of a literal is a literal, so a chain of them does not
        // grow a unary spine.
        if let RigidHead::Const(ConstKind::Ctor, name, levels) = head {
            if self.ctx.nat_ext && self.is_name(self.ctx.names.get().nat_succ, name) && self.spine_len(spine) == 0 {
                match self.nb_bignum(fuel - 1, depth, a, false)? {
                    Some(n) => {
                        let one = crate::bignum::Nat::from_u32(1);
                        let p = self.alloc_bignum(&n.plus(&one))?;
                        proof {
                            self.lemma_base();
                            Sig::r_succ(g, name, self.ctx.st.ls(levels), ta, n@);
                        }
                        return self.mk_nat(p);
                    },
                    None => {},
                }
            }
        }
        self.mk_rigid(head, spine2)
    }

    /// Apply a value to the arguments at positions `from..to`.
    pub fn nb_apply_args(&mut self, fuel: u32, depth: u32, f: ValId, args: &Vec<ValId>, from: usize, to: usize)
        -> (r: Result<
        ValId,
        TcError,
    >)
        requires
            old(self).wf(),
            old(self).v_ok(f),
            old(self).vs_ok(args@),
            from <= to <= args@.len(),
            old(self).v(f).bvb() <= depth,
            Term::bvb_seq(old(self).vs(args@), depth as nat),
        ensures
            final(self).wf(),
            final(self).ext(old(self)),
            r matches Ok(x) ==> final(self).v_ok(x)
                && final(self).g().steps(Term::apps(old(self).v(f),
                old(self).vs(args@).subrange(from as int, to as int)), final(self).v(x)),
            r matches Ok(x) ==> (from < to ==> final(self).done(x)),
            r matches Err(err) ==> final(self).accounts(old(self), err),
        decreases fuel,
    {
        if fuel == 0 {
            return Err(self.out_of_depth(0));
        }
        let ghost o = *self;
        let ghost g = self.g();
        let ghost ts = self.vs(args@);
        let ghost f0 = self.v(f);
        let mut cur: ValId = f;
        let mut i: usize = from;
        proof {
            assert(ts.subrange(from as int, from as int) =~= Seq::empty());
            Sig::steps_refl(g, f0);
        }
        while i < to
            invariant
                o == *old(self),
                o.wf(),
                self.wf(),
                self.ext(&o),
                g == o.g(),
                fuel > 0,
                from <= i <= to <= args@.len(),
                o.vs_ok(args@),
                ts == o.vs(args@),
                Term::bvb_seq(ts, depth as nat),
                f0.bvb() <= depth,
                self.v_ok(cur),
                from < i ==> self.done(cur),
                g.steps(Term::apps(f0, ts.subrange(from as int, i as int)), self.v(cur)),
            decreases to - i,
        {
            let ghost pre = ts.subrange(from as int, i as int);
            let ghost u = self.v(cur);
            proof {
                assert(self.v(args@[i as int]) == ts[i as int]);
                assert(ts.subrange(from as int, i + 1) =~= pre.push(ts[i as int]));
                Term::lemma_apps_push(f0, pre, ts[i as int]);
                Term::lemma_apps_bvb(f0, pre, depth as nat);
                assert(Term::bvb_seq(pre, depth as nat));
            }
            cur = self.nb_apply(fuel - 1, depth, cur, args[i])?;
            proof {
                Sig::steps_fun(g, Term::apps(f0, pre), ts[i as int], u);
                Sig::steps_trans(
                    g,
                    Term::app(Term::apps(f0, pre), ts[i as int]),
                    Term::app(u, ts[i as int]),
                    self.v(cur),
                );
            }
            i += 1;
        }
        Ok(cur)
    }

    /// The domain of a lambda or function type, evaluated once.
    pub fn nb_lam_domain(&mut self, fuel: u32, depth: u32, v: ValId) -> (r: Result<ValId, TcError>)
        requires
            old(self).wf(),
            old(self).v_ok(v),
            old(self).v(v).bvb() <= depth,
        ensures
            final(self).wf(),
            final(self).ext(old(self)),
            r matches Ok(d) ==> final(self).v_ok(d) && match old(self).v(v) {
                Term::Lam(_, _, a, _) => final(self).g().steps(*a, final(self).v(d)),
                Term::Pi(_, _, a, _) => final(self).g().steps(*a, final(self).v(d)),
                _ => false,
            },
            r matches Ok(x) ==> final(self).done(x),
            r matches Err(err) ==> final(self).accounts(old(self), err),
        decreases fuel,
    {
        if fuel == 0 {
            return Err(self.out_of_depth(0));
        }
        match self.get(v) {
            Value::Lam { binder_type, domain, env, .. } => {
                match domain {
                    Some(d) => {
                        let ghost g = self.g();
                        let ghost u = self.v(d);
                        let ghost a = self.ctx.st.e(binder_type).inst(0, self.ctx.w@.n(env));
                        let r = self.nb_force(fuel - 1, depth, d)?;
                        proof {
                            Sig::steps_trans(g, a, u, self.v(r));
                        }
                        return Ok(r);
                    },
                    None => {},
                }
                let d = self.nb_eval(fuel - 1, depth, env, binder_type)?;
                self.set_domain(v, d);
                Ok(d)
            },
            Value::Pi { domain, .. } => self.nb_force(fuel - 1, depth, domain),
            _ => Err(self.reject(Reason::BadValue)),
        }
    }

    /// Instantiate a binder's body at `a`.
    pub fn nb_open(&mut self, fuel: u32, depth: u32, binder: ValId, a: ValId) -> (r: Result<ValId, TcError>)
        requires
            old(self).wf(),
            old(self).v_ok(binder),
            old(self).v_ok(a),
            old(self).v(binder).bvb() <= depth,
            old(self).v(a).bvb() <= depth,
        ensures
            final(self).wf(),
            final(self).ext(old(self)),
            r matches Ok(x) ==> final(self).v_ok(x) && final(self).v(x).bvb() <= Term::max(
                old(self).v(binder).bvb(),
                old(self).v(a).bvb(),
            ) && match old(self).v(binder) {
                Term::Lam(_, _, _, b) => final(self).g().red(b.inst(0, seq![old(self).v(a)]), final(self).v(x)),
                Term::Pi(_, _, _, b) => final(self).g().red(b.inst(0, seq![old(self).v(a)]), final(self).v(x)),
                _ => false,
            },
            r matches Ok(x) ==> final(self).done(x),
            r matches Err(err) ==> final(self).accounts(old(self), err),
        decreases fuel,
    {
        if fuel == 0 {
            return Err(self.out_of_depth(0));
        }
        let ghost ta = self.v(a);
        let ghost m = Term::max(self.v(binder).bvb(), ta.bvb());
        let (env, body): (EnvId, ExprPtr) = match self.get(binder) {
            Value::Lam { env, body, .. } => (env, body),
            Value::Pi { env, body, .. } => (env, body),
            _ => {
                return Err(self.reject(Reason::BadValue));
            },
        };
        proof {
            let n = self.ctx.w@.n(env);
            let b = self.ctx.st.e(body);
            self.lemma_ntime(env);
            Term::lemma_inst_open(b, ta, n);
            Term::lemma_inst_bvb(b.inst(1, n), 0, seq![ta], m);
        }
        let env2 = self.push_entry_v(env, a)?;
        self.nb_eval(fuel - 1, depth, env2, body)
    }
}

} // verus!
