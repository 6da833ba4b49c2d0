//! Type inference on the delayed-instantiation core.
use crate::closure::{Clo, Entry, ENV_NIL};
use crate::error::{Reason, TcError};
use crate::expr::{Expr, ExprPtr};
use crate::level::{LevelPtr, NamePtr};
use crate::rapier::RClo;
use crate::tc::{InferFlag, TypeChecker};
use crate::term::{Lvl, Term};
use crate::theory::{Field, Sig};
use vstd::prelude::*;

verus! {

broadcast use {crate::tc::group_tc, crate::rp_core::group_rc};

impl<'x> TypeChecker<'x> {
    /// The type of a closure.
    pub fn rp_infer(&mut self, fuel: u32, c: Clo, flag: InferFlag) -> (r: Result<ExprPtr, TcError>)
        requires
            old(self).wf(),
            old(self).plain_clo(c),
        ensures
            final(self).wf(),
            final(self).ext(old(self)),
            r matches Ok(y) ==> final(self).ctx.st.e_ok(y) && final(self).ctx.st.e(y).nl() == 0
                && final(self).g().ty(flag.checks(), old(self).ctx.clo(c), final(self).ctx.st.e(y)),
            fuel > 0 && old(self).ctx.st.e(c.e).is_leaf() ==> final(self).answers(
                r,
                old(self).g().leaf_type(flag.checks(), old(self).ctx.st.e(c.e)),
            ),
            r matches Err(TcError::Reject(w)) ==> final(self).grounds(flag.checks(), w, old(self).ctx.clo(c))
                && final(self).refuses(flag.checks(), w, old(self).ctx.clo(c)),
            r matches Err(err) ==> final(self).accounts(old(self), err),
        decreases fuel,
    {
        if fuel == 0 {
            return Err(self.out_of_depth(0));
        }
        let ghost o = *self;
        let ghost g = self.g();
        let ghost k = flag.checks();
        let ghost t = self.ctx.clo(c);
        proof {
            self.lemma_plain_clo(c);
        }
        let r = match self.read_expr(c.e) {
            Expr::Var { dbj_idx } => match self.lookup(c.env, dbj_idx) {
                Entry::Neu(fv) => {
                    let ghost x = self.ctx.st.e(fv);
                    let ty = self.fvar_type(fv);
                    proof {
                        Sig::t_local(g, k, x->Local_0, x->Local_1, x->Local_2, self.ctx.st.e(ty));
                    }
                    Ok(ty)
                },
                Entry::Val(e2, env2) => self.rp_infer(fuel - 1, Clo { e: e2, env: env2 }, flag),
                Entry::V(_) => Err(self.reject(Reason::BadValue)),
            },
            Expr::Lambda { .. } | Expr::Pi { .. } | Expr::Let { .. } | Expr::App { .. } | Expr::Proj { .. } => self.rp_infer_cached(
                fuel - 1,
                c,
                flag,
            ),
            _ => self.infer_leaf(c, flag),
        };
        if let Err(TcError::Reject(w)) = r {
            let ghost s = *self;
            self.refuse(w, Ghost(k), Ghost(t));
            proof {
                self.lemma_grounds(&s, k, w, t);
            }
        }
        r
    }

    fn rp_infer_cached(&mut self, fuel: u32, c: Clo, flag: InferFlag) -> (r: Result<ExprPtr, TcError>)
        requires
            old(self).wf(),
            old(self).plain_clo(c),
        ensures
            final(self).wf(),
            final(self).ext(old(self)),
            r matches Ok(y) ==> final(self).ctx.st.e_ok(y) && final(self).ctx.st.e(y).nl() == 0
                && final(self).g().ty(flag.checks(), old(self).ctx.clo(c), final(self).ctx.st.e(y)),
            old(self).ctx.st.e(c.e) is Lam || old(self).ctx.st.e(c.e) is Pi || old(self).ctx.st.e(c.e) is Let || old(self).ctx.st.e(c.e) is App || old(self).ctx.st.e(c.e) is Proj ==> (r matches Err(TcError::Reject(w)) ==> final(self).grounds(flag.checks(), w, old(self).ctx.clo(c))),
            r matches Err(err) ==> final(self).accounts(old(self), err),
        decreases fuel,
    {
        if fuel == 0 {
            return Err(self.out_of_depth(0));
        }
        let ghost g = self.g();
        let ghost k = flag.checks();
        let ghost e0 = self.ctx.st.e(c.e);
        let ghost s0 = self.ctx.w@.n(c.env);
        let key = self.key(c)?;
        let cached = match flag {
            InferFlag::Check => self.recall_infer_check(key.e, key.env),
            InferFlag::InferOnly => self.recall_infer_only(key.e, key.env),
        };
        match cached {
            Some(r) => {
                proof {
                    let s = choose|s: Seq<Term>| #[trigger]
                        Term::key_of(e0, s) == self.ctx.w@.n(key.env) && e0.nl() <= s.len() && g.ty(
                            k,
                            e0.inst(0, s),
                            self.ctx.st.e(r),
                        );
                    Term::lemma_key(e0, s, s0);
                }
                return Ok(r);
            },
            None => {},
        }
        let r = match self.read_expr(c.e) {
            Expr::Lambda { .. } => self.rp_infer_lambda(fuel - 1, c, flag)?,
            Expr::Pi { .. } => self.rp_infer_pi(fuel - 1, c, flag)?,
            Expr::Let { .. } => self.rp_infer_let(fuel - 1, c, flag)?,
            Expr::App { .. } => {
                let s = self.rp_mk_sclo(c);
                self.rp_infer_s(fuel - 1, &s, flag)?
            },
            Expr::Proj { ty_name, idx, structure } => self.rp_infer_proj(
                fuel - 1,
                ty_name,
                idx,
                Clo { e: structure, env: c.env },
                flag,
            )?,
            _ => {
                return Err(self.reject(Reason::BadValue));
            },
        };
        proof {
            assert(Term::key_of(e0, s0) == self.ctx.w@.n(key.env));
        }
        match flag {
            InferFlag::Check => {
                self.note_infer_check(key.e, key.env, r);
            },
            InferFlag::InferOnly => {
                self.note_infer_only(key.e, key.env, r);
            },
        }
        Ok(r)
    }

    /// The level of the sort a type is.
    fn rp_ensure_sort(&mut self, fuel: u32, ty: ExprPtr) -> (r: Result<LevelPtr, TcError>)
        requires
            old(self).wf(),
            old(self).ctx.st.e_ok(ty),
            old(self).ctx.st.e(ty).nl() == 0,
        ensures
            final(self).wf(),
            final(self).ext(old(self)),
            r matches Ok(l) ==> final(self).ctx.st.l_ok(l) && final(self).g().red(
                old(self).ctx.st.e(ty),
                Term::Sort(final(self).ctx.st.l(l)),
            ),
            r matches Err(TcError::Reject(w)) ==> final(self).no_sort(w, old(self).ctx.st.e(ty)),
            r matches Err(err) ==> final(self).accounts(old(self), err),
        decreases fuel,
    {
        if fuel == 0 {
            return Err(self.out_of_depth(0));
        }
        proof {
            self.lemma_clo_of(ty);
            Sig::steps_refl(self.g(), self.ctx.st.e(ty));
        }
        if let Expr::Sort { level } = self.read_expr(ty) {
            return Ok(level);
        }
        let ghost o = *self;
        let w = match self.rp_whnf_clo(fuel - 1, Clo { e: ty, env: ENV_NIL }) {
            Ok(w) => w,
            Err(e) => {
                if let TcError::Reject(w) = e {
                    self.trip(w, Ghost(o.ctx.st.e(ty)), Ghost(o));
                }
                return Err(e);
            },
        };
        if w.spine.len() == 0 {
            proof {
                assert(self.cs(w.spine@) =~= Seq::empty());
            }
            match self.read_expr(w.head.e) {
                Expr::Sort { level } => {
                    return Ok(level);
                },
                Expr::Var { .. } => {
                    proof {
                        self.lemma_plain_clo(w.head);
                    }
                    let h = self.reify(w.head)?;
                    if let Expr::Sort { level } = self.read_expr(h) {
                        return Ok(level);
                    }
                },
                _ => {},
            }
        }
        Err(self.blame(Reason::NotASort, Ghost(self.ctx.st.e(ty)), Ghost(self.rc(w))))
    }

    fn rp_infer_lambda(&mut self, fuel: u32, c: Clo, flag: InferFlag) -> (r: Result<ExprPtr, TcError>)
        requires
            old(self).wf(),
            old(self).plain_clo(c),
        ensures
            final(self).wf(),
            final(self).ext(old(self)),
            r matches Ok(y) ==> final(self).ctx.st.e_ok(y) && final(self).ctx.st.e(y).nl() == 0
                && final(self).g().ty(flag.checks(), old(self).ctx.clo(c), final(self).ctx.st.e(y)),
            old(self).ctx.st.e(c.e) is Lam ==> (r matches Err(TcError::Reject(w)) ==> final(self).grounds(flag.checks(), w, old(self).ctx.clo(c))),
            r matches Err(err) ==> final(self).accounts(old(self), err),
        decreases fuel,
    {
        if fuel == 0 {
            return Err(self.out_of_depth(0));
        }
        let ghost o = *self;
        let ghost g = self.g();
        let ghost k = flag.checks();
        let (binder_name, binder_style, binder_type, body) = match self.read_expr(c.e) {
            Expr::Lambda { binder_name, binder_style, binder_type, body } => (binder_name, binder_style, binder_type,
                body),
            _ => {
                return Err(self.reject(Reason::BadValue));
            },
        };
        let ghost n = self.ctx.w@.n(c.env);
        let ghost b = self.ctx.st.e(body).inst(1, n);
        proof {
            self.lemma_plain_clo(c);
            self.lemma_plain_clo(Clo { e: binder_type, env: c.env });
            reveal(TypeChecker::grounds);
        }
        let d = self.reify(Clo { e: binder_type, env: c.env })?;
        let ghost a = self.ctx.st.e(d);
        let ghost mut ak: Term = a;
        let ghost mut u: Lvl = Lvl::Zero;
        if flag == InferFlag::Check {
            proof {
                self.lemma_clo_of(d);
            }
            proof {
                let ts = seq![o.ctx.clo(c)];
                assert(ts[0] == o.ctx.clo(c) && ts.last() == o.ctx.clo(c));
            }
            let dty = self.rp_infer(fuel - 1, Clo { e: d, env: ENV_NIL }, flag)?;
            proof {
                ak = self.ctx.st.e(dty);
            }
            let l = self.rp_ensure_sort(fuel - 1, dty)?;
            proof {
                u = self.ctx.st.l(l);
            }
        }
        let (level, fv, env2) = self.open_binder(c, d)?;
        let ghost x = self.ctx.st.e(fv);
        proof {
            let m = Term::max(o.ctx.st.e(c.e).ml(), o.ctx.w@.nlevel(c.env));
            assert(Term::ml_seq(n, m));
            Term::lemma_inst_ml(o.ctx.st.e(body), 1, n, m);
            Term::lemma_inst_open(o.ctx.st.e(body), x, n);
            assert(x.is_var_of(a));
        }
        proof {
            let ts = seq![o.ctx.clo(c), b.inst(0, seq![x])];
            assert(ts[0].opens_to(ts[1]));
            assert(ts.last() == b.inst(0, seq![x]));
        }
        let bt0 = self.rp_infer(fuel - 1, Clo { e: body, env: env2 }, flag)?;
        let ghost q0 = self.ctx.st.e(bt0);
        let bt = self.cheap_beta_reduce(bt0)?;
        let ghost q = self.ctx.st.e(bt);
        if level == u32::MAX {
            return Err(self.over_limit());
        }
        proof {
            Sig::t_red(g, k, b.inst(0, seq![x]), q0, q);
            Sig::t_lam(g, k, binder_name, binder_style, a, b, x, level, q, ak, u);
            Term::lemma_abstr_nl(q, level as nat, level as nat + 1, 0);
        }
        let bt_abs = self.abstr_levels_at(bt, level, level + 1)?;
        self.mk(Expr::Pi { binder_name, binder_style, binder_type: d, body: bt_abs })
    }

    fn rp_infer_pi(&mut self, fuel: u32, c: Clo, flag: InferFlag) -> (r: Result<ExprPtr, TcError>)
        requires
            old(self).wf(),
            old(self).plain_clo(c),
        ensures
            final(self).wf(),
            final(self).ext(old(self)),
            r matches Ok(y) ==> final(self).ctx.st.e_ok(y) && final(self).ctx.st.e(y).nl() == 0
                && final(self).g().ty(flag.checks(), old(self).ctx.clo(c), final(self).ctx.st.e(y)),
            old(self).ctx.st.e(c.e) is Pi ==> (r matches Err(TcError::Reject(w)) ==> final(self).grounds(flag.checks(), w, old(self).ctx.clo(c))),
            r matches Err(err) ==> final(self).accounts(old(self), err),
        decreases fuel,
    {
        if fuel == 0 {
            return Err(self.out_of_depth(0));
        }
        let ghost o = *self;
        let ghost g = self.g();
        let ghost k = flag.checks();
        let (binder_name, binder_style, binder_type, body) = match self.read_expr(c.e) {
            Expr::Pi { binder_name, binder_style, binder_type, body } => (binder_name, binder_style, binder_type, body),
            _ => {
                return Err(self.reject(Reason::BadValue));
            },
        };
        let ghost n = self.ctx.w@.n(c.env);
        let ghost b = self.ctx.st.e(body).inst(1, n);
        proof {
            self.lemma_plain_clo(c);
            self.lemma_plain_clo(Clo { e: binder_type, env: c.env });
            reveal(TypeChecker::grounds);
        }
        let d = self.reify(Clo { e: binder_type, env: c.env })?;
        let ghost a = self.ctx.st.e(d);
        proof {
            self.lemma_clo_of(d);
        }
        let dty = self.rp_infer(fuel - 1, Clo { e: d, env: ENV_NIL }, flag)?;
        let ghost ak = self.ctx.st.e(dty);
        let u = self.rp_ensure_sort(fuel - 1, dty)?;
        let (level, fv, env2) = self.open_binder(c, d)?;
        let ghost x = self.ctx.st.e(fv);
        proof {
            let m = Term::max(o.ctx.st.e(c.e).ml(), o.ctx.w@.nlevel(c.env));
            assert(Term::ml_seq(n, m));
            Term::lemma_inst_ml(o.ctx.st.e(body), 1, n, m);
            Term::lemma_inst_open(o.ctx.st.e(body), x, n);
            assert(x.is_var_of(a));
        }
        let bt = self.rp_infer(fuel - 1, Clo { e: body, env: env2 }, flag)?;
        let ghost bk = self.ctx.st.e(bt);
        let s = self.rp_ensure_sort(fuel - 1, bt)?;
        let lvl = self.imax(u, s)?;
        let lvl = self.simplify(lvl)?;
        proof {
            Sig::t_pi(
                g,
                k,
                binder_name,
                binder_style,
                a,
                b,
                x,
                ak,
                self.ctx.st.l(u),
                bk,
                self.ctx.st.l(s),
                self.ctx.st.l(lvl),
            );
        }
        self.mk(Expr::Sort { level: lvl })
    }

    fn rp_infer_let(&mut self, fuel: u32, c: Clo, flag: InferFlag) -> (r: Result<ExprPtr, TcError>)
        requires
            old(self).wf(),
            old(self).plain_clo(c),
        ensures
            final(self).wf(),
            final(self).ext(old(self)),
            r matches Ok(y) ==> final(self).ctx.st.e_ok(y) && final(self).ctx.st.e(y).nl() == 0
                && final(self).g().ty(flag.checks(), old(self).ctx.clo(c), final(self).ctx.st.e(y)),
            old(self).ctx.st.e(c.e) is Let ==> (r matches Err(TcError::Reject(w)) ==> final(self).grounds(flag.checks(), w, old(self).ctx.clo(c))),
            r matches Err(err) ==> final(self).accounts(old(self), err),
        decreases fuel,
    {
        if fuel == 0 {
            return Err(self.out_of_depth(0));
        }
        let ghost o = *self;
        let ghost g = self.g();
        let ghost k = flag.checks();
        let (binder_name, binder_type, val, body, nondep) = match self.read_expr(c.e) {
            Expr::Let { binder_name, binder_type, val, body, nondep } => (binder_name, binder_type, val, body, nondep),
            _ => {
                return Err(self.reject(Reason::BadValue));
            },
        };
        let ghost n = self.ctx.w@.n(c.env);
        let ghost b = self.ctx.st.e(body).inst(1, n);
        let ghost v = self.ctx.clo(Clo { e: val, env: c.env });
        proof {
            self.lemma_plain_clo(c);
            self.lemma_plain_clo(Clo { e: binder_type, env: c.env });
            self.lemma_plain_clo(Clo { e: val, env: c.env });
            reveal(TypeChecker::grounds);
        }
        let ghost mut ak: Term = v;
        let ghost mut u: Lvl = Lvl::Zero;
        let ghost mut vt: Term = v;
        let t = self.reify(Clo { e: binder_type, env: c.env })?;
        let ghost a = self.ctx.st.e(t);
        if flag == InferFlag::Check {
            proof {
                self.lemma_clo_of(t);
            }
            let tty = self.rp_infer(fuel - 1, Clo { e: t, env: ENV_NIL }, flag)?;
            proof {
                ak = self.ctx.st.e(tty);
            }
            let l = self.rp_ensure_sort(fuel - 1, tty)?;
            proof {
                u = self.ctx.st.l(l);
            }
            let vty = self.rp_infer(fuel - 1, Clo { e: val, env: c.env }, flag)?;
            proof {
                vt = self.ctx.st.e(vty);
                self.lemma_clo_of(vty);
                self.lemma_clo_of(t);
            }
            let ghost q = *self;
            let same = match self.rp_is_def_eq(fuel - 1, Clo { e: vty, env: ENV_NIL }, Clo { e: t, env: ENV_NIL }) {
                Ok(same) => same,
                Err(e) => {
                    if let TcError::Reject(w) = e {
                        self.trip(w, Ghost(vt), Ghost(q));
                    }
                    return Err(e);
                },
            };
            if !same {
                return Err(self.blame(Reason::ValueMismatch, Ghost(vt), Ghost(self.ctx.st.e(t))));
            }
        }
        proof {
            self.lemma_ntime(c.env);
        }
        let env2 = self.push_entry(c.env, Entry::Val(val, c.env))?;
        proof {
            Term::lemma_inst_open(o.ctx.st.e(body), v, n);
        }
        let r = self.rp_infer(fuel - 1, Clo { e: body, env: env2 }, flag)?;
        proof {
            Sig::t_let(g, k, binder_name, nondep, a, v, b, self.ctx.st.e(r), ak, u, vt);
        }
        Ok(r)
    }

    /// The type of an application of closures, remembered.
    pub fn rp_infer_s(&mut self, fuel: u32, s: &RClo, flag: InferFlag) -> (r: Result<ExprPtr, TcError>)
        requires
            old(self).wf(),
            old(self).rc_ok(*s),
        ensures
            final(self).wf(),
            final(self).ext(old(self)),
            r matches Ok(y) ==> final(self).ctx.st.e_ok(y) && final(self).ctx.st.e(y).nl() == 0
                && final(self).g().ty(flag.checks(), old(self).rc(*s), final(self).ctx.st.e(y)),
            r matches Err(TcError::Reject(w)) ==> final(self).grounds(flag.checks(), w, old(self).rc(*s)),
            r matches Err(err) ==> final(self).accounts(old(self), err),
        decreases fuel,
    {
        if fuel == 0 {
            return Err(self.out_of_depth(0));
        }
        let ghost t = self.rc(*s);
        if s.spine.len() == 0 {
            proof {
                assert(self.cs(s.spine@) =~= Seq::empty());
            }
            return self.rp_infer(fuel - 1, s.head, flag);
        }
        match self.rp_key_id(s) {
            Some(id) => match self.recall_infer_s(id, flag, Ghost(t)) {
                Some(r) => {
                    return Ok(r);
                },
                None => {},
            },
            None => {},
        }
        let r = self.rp_infer_spine(fuel - 1, s, flag)?;
        self.note_infer_s(s, flag, r);
        Ok(r)
    }

    fn rp_infer_spine(&mut self, fuel: u32, s: &RClo, flag: InferFlag) -> (r: Result<ExprPtr, TcError>)
        requires
            old(self).wf(),
            old(self).rc_ok(*s),
        ensures
            final(self).wf(),
            final(self).ext(old(self)),
            r matches Ok(y) ==> final(self).ctx.st.e_ok(y) && final(self).ctx.st.e(y).nl() == 0
                && final(self).g().ty(flag.checks(), old(self).rc(*s), final(self).ctx.st.e(y)),
            s.spine@.len() > 0 ==> (r matches Err(TcError::Reject(w)) ==> final(self).grounds(
                flag.checks(),
                w,
                old(self).rc(*s),
            )),
            r matches Err(err) ==> final(self).accounts(old(self), err),
        decreases fuel,
    {
        if fuel == 0 {
            return Err(self.out_of_depth(0));
        }
        let ghost o = *self;
        let ghost g = self.g();
        let ghost k = flag.checks();
        let ghost h = self.ctx.clo(s.head);
        let ghost xs = self.cs(s.spine@);
        let n: usize = s.spine.len();
        proof {
            reveal(TypeChecker::grounds);
            if n > 0 {
                assert(Term::apps(h, xs) is App);
            }
        }
        let h_ty = self.rp_infer(fuel - 1, s.head, flag)?;
        let mut f_ty: Clo = Clo { e: h_ty, env: ENV_NIL };
        let mut i: usize = 0;
        proof {
            self.lemma_clo_of(h_ty);
            assert(xs.take(0) =~= Seq::empty());
        }
        while i < n
            invariant
                o == *old(self),
                o.wf(),
                o.rc_ok(*s),
                self.wf(),
                self.ext(&o),
                g == o.g(),
                k == flag.checks(),
                fuel > 0,
                n == s.spine@.len(),
                i <= n,
                xs == o.cs(s.spine@),
                h == o.ctx.clo(s.head),
                self.plain_clo(f_ty),
                g.ty(k, Term::apps(h, xs.take(i as int)), self.ctx.clo(f_ty)),
            decreases n - i,
        {
            let arg = s.spine[i];
            let ghost f = Term::apps(h, xs.take(i as int));
            proof {
                o.lemma_cs(s.spine@, i as int);
                assert(xs.take(i + 1) =~= xs.take(i as int).push(xs[i as int]));
                Term::lemma_apps_push(h, xs.take(i as int), xs[i as int]);
            }
            f_ty = match self.rp_infer_arg(fuel - 1, f_ty, arg, flag, Ghost(f)) {
                Ok(c) => c,
                Err(y) => {
                    proof {
                        if let TcError::Reject(w) = y {
                            reveal(TypeChecker::grounds);
                            assert(Term::apps(h, xs) is App);
                            assert(self.no_arg(k, w, h, xs, i as int));
                            assert(o.rc(*s) == Term::apps(h, xs));
                        }
                    }
                    return Err(y);
                },
            };
            i += 1;
        }
        proof {
            assert(xs.take(n as int) =~= xs);
            self.lemma_plain_clo(f_ty);
        }
        self.reify(f_ty)
    }

    /// The function type a closure reduces to: its domain and body over one
    /// environment.
    fn rp_pi(&mut self, fuel: u32, c: Clo, err: Reason)
        -> (r: Result<(Clo, ExprPtr, Ghost<(u32, crate::term::BinderStyle)>), TcError>)
        requires
            old(self).wf(),
            old(self).plain_clo(c),
            err is NotAFunction || err is NotAStructure,
        ensures
            final(self).wf(),
            final(self).ext(old(self)),
            r matches Ok(x) ==> final(self).plain_clo(x.0) && final(self).ctx.st.e_ok(x.1)
                && final(self).ctx.st.e(x.1).nl() <= 1
                + final(self).ctx.w@.n(x.0.env).len() && final(self).g().red(
                old(self).ctx.clo(c),
                Term::pi(
                    x.2@.0,
                    x.2@.1,
                    final(self).ctx.clo(x.0),
                    final(self).ctx.st.e(x.1).inst(1, final(self).ctx.w@.n(x.0.env)),
                ),
            ),
            r matches Err(TcError::Reject(w)) ==> final(self).trips(w, old(self).ctx.clo(c)) || w == err && exists|y: Term|
                #[trigger] final(self).g().red(old(self).ctx.clo(c), y) && y.headed() && !(y is Pi),
            r matches Err(err) ==> final(self).accounts(old(self), err),
        decreases fuel,
    {
        if fuel == 0 {
            return Err(self.out_of_depth(0));
        }
        let ghost o = *self;
        let ghost g = self.g();
        let ghost t = self.ctx.clo(c);
        proof {
            Sig::steps_refl(g, t);
        }
        if let Expr::Pi { binder_name, binder_style, binder_type, body } = self.read_expr(c.e) {
            return Ok((Clo { e: binder_type, env: c.env }, body, Ghost((binder_name, binder_style))));
        }
        let w = match self.rp_whnf_clo(fuel - 1, c) {
            Ok(w) => w,
            Err(e) => {
                if let TcError::Reject(r) = e {
                    self.trip(r, Ghost(t), Ghost(o));
                }
                return Err(e);
            },
        };
        if w.spine.len() != 0 {
            proof {
                assert(g.red(t, self.rc(w)) && self.rc(w).headed() && !(self.rc(w) is Pi));
            }
            return Err(self.reject(err));
        }
        proof {
            assert(self.cs(w.spine@) =~= Seq::empty());
        }
        match self.read_expr(w.head.e) {
            Expr::Pi { binder_name, binder_style, binder_type, body } => Ok(
                (Clo { e: binder_type, env: w.head.env }, body, Ghost((binder_name, binder_style))),
            ),
            Expr::Var { .. } => {
                let e = self.reject(err);
                self.trip(err, Ghost(t), Ghost(o));
                Err(e)
            },
            _ => {
                proof {
                    assert(g.red(t, self.rc(w)) && self.rc(w).headed() && !(self.rc(w) is Pi));
                }
                Err(self.reject(err))
            },
        }
    }

    /// The type `f_ty` of `f` once `f` is applied to `arg`.
    fn rp_infer_arg(&mut self, fuel: u32, f_ty: Clo, arg: Clo, flag: InferFlag, Ghost(f): Ghost<Term>)
        -> (r: Result<Clo, TcError>)
        requires
            old(self).wf(),
            old(self).plain_clo(arg),
            old(self).plain_clo(f_ty),
            old(self).g().ty(flag.checks(), f, old(self).ctx.clo(f_ty)),
        ensures
            final(self).wf(),
            final(self).ext(old(self)),
            r matches Ok(c) ==> final(self).plain_clo(c) && final(self).g().ty(
                flag.checks(),
                Term::app(f, old(self).ctx.clo(arg)),
                final(self).ctx.clo(c),
            ),
            r matches Err(TcError::Reject(w)) ==> forall|h: Term, xs: Seq<Term>, i: int|
                0 <= i < xs.len() && f == Term::apps(h, xs.take(i)) && xs[i] == old(self).ctx.clo(arg)
                    ==> #[trigger] final(self).no_arg(flag.checks(), w, h, xs, i),
            r matches Err(err) ==> final(self).accounts(old(self), err),
        decreases fuel,
    {
        if fuel == 0 {
            return Err(self.out_of_depth(0));
        }
        let ghost g = self.g();
        let ghost k = flag.checks();
        let ghost ft = self.ctx.clo(f_ty);
        let ghost x = self.ctx.clo(arg);
        proof {
            self.lemma_plain_clo(arg);
        }
        let (dom, body, Ghost(bi)) = self.rp_pi(fuel - 1, f_ty, Reason::NotAFunction)?;
        let ghost a = self.ctx.clo(dom);
        let ghost n = self.ctx.w@.n(dom.env);
        let ghost b = self.ctx.st.e(body).inst(1, n);
        let ghost mut xt: Term = x;
        if flag == InferFlag::Check {
            let a_ty = self.rp_infer(fuel - 1, arg, flag)?;
            proof {
                xt = self.ctx.st.e(a_ty);
                self.lemma_clo_of(a_ty);
            }
            let ghost q = *self;
            let same = match self.rp_is_def_eq(fuel - 1, dom, Clo { e: a_ty, env: ENV_NIL }) {
                Ok(same) => same,
                Err(e) => {
                    if let TcError::Reject(w) = e {
                        self.trip(w, Ghost(xt), Ghost(q));
                    }
                    return Err(e);
                },
            };
            if !same {
                return Err(self.blame(Reason::ArgMismatch, Ghost(a), Ghost(xt)));
            }
        }
        proof {
            Sig::t_app(g, k, f, ft, bi.0, bi.1, a, b, x, xt);
            self.lemma_ntime(arg.env);
            self.lemma_ntime(dom.env);
            Term::lemma_inst_open(self.ctx.st.e(body), x, n);
        }
        let env2 = self.push_entry(dom.env, Entry::Val(arg.e, arg.env))?;
        Ok(Clo { e: body, env: env2 })
    }

    /// Whether `ty` is a proposition.
    pub fn rp_is_prop(&mut self, fuel: u32, ty: ExprPtr) -> (r: Result<bool, TcError>)
        requires
            old(self).wf(),
            old(self).ctx.st.e_ok(ty),
            old(self).ctx.st.e(ty).nl() == 0,
        ensures
            final(self).wf(),
            final(self).ext(old(self)),
            r matches Ok(true) ==> final(self).ctx.w@.is_prop(old(self).ctx.st.e(ty)),
            r matches Err(err) ==> final(self).accounts(old(self), err),
        decreases fuel,
    {
        if fuel == 0 {
            return Err(self.out_of_depth(0));
        }
        let ghost t = self.ctx.st.e(ty);
        proof {
            self.lemma_clo_of(ty);
        }
        let sort = self.rp_infer(fuel - 1, Clo { e: ty, env: ENV_NIL }, InferFlag::InferOnly)?;
        let ghost sk = self.ctx.st.e(sort);
        proof {
            self.lemma_clo_of(sort);
        }
        let w = self.rp_whnf_clo(fuel - 1, Clo { e: sort, env: ENV_NIL })?;
        if w.spine.len() != 0 {
            return Ok(false);
        }
        proof {
            assert(self.cs(w.spine@) =~= Seq::empty());
        }
        match self.read_expr(w.head.e) {
            Expr::Sort { level } => {
                let ghost l = self.ctx.st.l(level);
                let b = self.is_zero(level)?;
                proof {
                    if b {
                        assert(self.g().ty(false, t, sk) && self.g().red(sk, Term::Sort(l)) && l.is_zero());
                    }
                }
                Ok(b)
            },
            _ => Ok(false),
        }
    }

    /// The type of a projection.
    fn rp_infer_proj(&mut self, fuel: u32, ty_name: NamePtr, idx: u32, strukt: Clo, flag: InferFlag) -> (r: Result<
        ExprPtr,
        TcError,
    >)
        requires
            old(self).wf(),
            old(self).plain_clo(strukt),
        ensures
            final(self).wf(),
            final(self).ext(old(self)),
            r matches Ok(y) ==> final(self).ctx.st.e_ok(y) && final(self).ctx.st.e(y).nl() == 0
                && final(self).g().ty(flag.checks(), Term::proj(ty_name, idx as nat, old(self).ctx.clo(strukt)),
                final(self).ctx.st.e(y)),
            r matches Err(TcError::Reject(w)) ==> final(self).grounds(flag.checks(), w, Term::proj(ty_name, idx as nat, old(self).ctx.clo(strukt))),
            r matches Err(err) ==> final(self).accounts(old(self), err),
        decreases fuel,
    {
        if fuel == 0 {
            return Err(self.out_of_depth(0));
        }
        let ghost o = *self;
        let ghost t = Term::proj(ty_name, idx as nat, self.ctx.clo(strukt));
        let r = self.rp_infer_proj_go(fuel - 1, ty_name, idx, strukt, flag);
        if let Err(TcError::Reject(w)) = r {
            self.trip(w, Ghost(t), Ghost(o));
            assert(self.grounds(flag.checks(), w, t)) by {
                reveal(TypeChecker::grounds);
            }
        }
        r
    }

    fn rp_infer_proj_go(&mut self, fuel: u32, ty_name: NamePtr, idx: u32, strukt: Clo, flag: InferFlag) -> (r: Result<
        ExprPtr,
        TcError,
    >)
        requires
            old(self).wf(),
            old(self).plain_clo(strukt),
        ensures
            final(self).wf(),
            final(self).ext(old(self)),
            r matches Ok(y) ==> final(self).ctx.st.e_ok(y) && final(self).ctx.st.e(y).nl() == 0
                && final(self).g().ty(flag.checks(), Term::proj(ty_name, idx as nat, old(self).ctx.clo(strukt)),
                final(self).ctx.st.e(y)),
            r matches Err(err) ==> final(self).accounts(old(self), err),
        decreases fuel,
    {
        if fuel == 0 {
            return Err(self.out_of_depth(0));
        }
        let ghost g = self.g();
        let ghost k = flag.checks();
        let ghost s = self.ctx.clo(strukt);
        let s_ty = self.rp_infer(fuel - 1, strukt, flag)?;
        let ghost st = self.ctx.st.e(s_ty);
        proof {
            self.lemma_clo_of(s_ty);
        }
        let st_w = self.rp_whnf_clo(fuel - 1, Clo { e: s_ty, env: ENV_NIL })?;
        let (i_name, i_levels) = match self.read_expr(st_w.head.e) {
            Expr::Const { name, levels } => (name, levels),
            _ => {
                return Err(self.reject(Reason::NotAStructure));
            },
        };
        if i_name != ty_name {
            return Err(self.reject(Reason::NotAStructure));
        }
        let ghost ls = self.ctx.st.ls(i_levels);
        let ghost xs = self.cs(st_w.spine@);
        proof {
            self.lemma_env();
        }
        let env = self.env;
        let (num_params, ctor_name): (usize, NamePtr) = match env.get_inductive(i_name) {
            Some(ind) => {
                if ind.all_ctor_names.len() != 1
                    || st_w.spine.len() as u64 != ind.num_params as u64 + ind.num_indices as u64 {
                    return Err(self.reject(Reason::NotAStructure));
                }
                (ind.num_params as usize, ind.all_ctor_names[0])
            },
            None => {
                return Err(self.reject(Reason::NotAStructure));
            },
        };
        let ghost c = Term::Const(ctor_name, ls);
        proof {
            assert(g.decls[i_name] == self.env.find(i_name)->0.g(&self.ctx.st));
        }
        let c_ty = self.infer_const(ctor_name, i_levels, InferFlag::InferOnly)?;
        proof {
            self.lemma_clo_of(c_ty);
        }
        let r = self.rp_proj_params(fuel - 1, Clo { e: c_ty, env: ENV_NIL }, &st_w.spine, num_params, Ghost(c))?;
        // A universe parameter stands for a level that an instantiation may
        // send to zero, so what may be a proposition counts as one.
        let is_prop_ty = self.may_be_prop_of(fuel - 1, s_ty)?;
        let ghost (sk, w) = choose|sk: Term, w: Term| #[trigger]
            g.ty(false, st, sk) && #[trigger] g.red(sk, w)
                && (is_prop_ty == (w matches Term::Sort(l) && l.may_be_zero()));
        let ghost pre = Term::apps(c, xs.take(num_params as int));
        let (r, Ghost(fs)) = self.rp_proj_fields(fuel - 1, r, i_name, idx, strukt, is_prop_ty, Ghost(pre))?;
        let ghost ft = self.ctx.clo(r);
        let (dom, body, Ghost(bi)) = self.rp_pi(fuel - 1, r, Reason::NotAStructure)?;
        let ghost a = self.ctx.clo(dom);
        let ghost b = self.ctx.st.e(body).inst(1, self.ctx.w@.n(dom.env));
        proof {
            self.lemma_plain_clo(dom);
        }
        let d = self.reify(dom)?;
        if is_prop_ty {
            if !self.rp_is_prop(fuel - 1, d)? {
                return Err(self.reject(Reason::PropProjection));
            }
        }
        proof {
            let ps = Term::projs(i_name, s, idx as nat);
            Term::lemma_apps_append(c, xs.take(num_params as int), ps);
            let (q, z) = if is_prop_ty {
                choose|q: Term, z: Lvl| #[trigger] g.ty(false, a, q) && #[trigger] g.red(q, Term::Sort(z))
                    && z.is_zero()
            } else {
                (a, Lvl::Zero)
            };
            if is_prop_ty {
                assert forall|m: int| 0 <= m < idx implies g.ty(
                    false,
                    Term::apps(c, xs.take(num_params as int) + Term::projs(i_name, s, m as nat)),
                    (#[trigger] fs[m]).ft,
                ) by {
                    Term::lemma_apps_append(c, xs.take(num_params as int), Term::projs(i_name, s, m as nat));
                }
            }
            Sig::t_proj(g, k, i_name, idx as nat, s, st, ls, xs, num_params as nat, ft, bi.0, bi.1, a, b, q, z, w, sk,
                fs);
        }
        Ok(d)
    }

    /// The type `r` of `c` once `c` is applied to the parameters.
    fn rp_proj_params(&mut self, fuel: u32, r: Clo, args: &Vec<Clo>, n: usize, Ghost(c): Ghost<Term>)
        -> (out: Result<Clo, TcError>)
        requires
            old(self).wf(),
            old(self).plain_clo(r),
            old(self).cs_ok(args@),
            n <= args@.len(),
            old(self).g().ty(false, c, old(self).ctx.clo(r)),
        ensures
            final(self).wf(),
            final(self).ext(old(self)),
            out matches Ok(r2) ==> final(self).plain_clo(r2) && final(self).g().ty(
                false,
                Term::apps(c, old(self).cs(args@).take(n as int)),
                final(self).ctx.clo(r2),
            ),
            out matches Err(err) ==> final(self).accounts(old(self), err),
        decreases fuel,
    {
        if fuel == 0 {
            return Err(self.out_of_depth(0));
        }
        let ghost o = *self;
        let ghost g = self.g();
        let ghost xs = self.cs(args@);
        let mut cur: Clo = r;
        let mut i: usize = 0;
        proof {
            assert(xs.take(0) =~= Seq::empty());
        }
        while i < n
            invariant
                o == *old(self),
                o.wf(),
                self.wf(),
                self.ext(&o),
                g == o.g(),
                fuel > 0,
                i <= n <= args@.len(),
                o.cs_ok(args@),
                xs == o.cs(args@),
                self.plain_clo(cur),
                g.ty(false, Term::apps(c, xs.take(i as int)), self.ctx.clo(cur)),
            decreases n - i,
        {
            let ghost u = Term::apps(c, xs.take(i as int));
            let a = args[i];
            proof {
                o.lemma_cs(args@, i as int);
                assert(xs.take(i + 1) =~= xs.take(i as int).push(xs[i as int]));
                Term::lemma_apps_push(c, xs.take(i as int), xs[i as int]);
            }
            cur = self.rp_infer_arg(fuel - 1, cur, a, InferFlag::InferOnly, Ghost(u))?;
            i += 1;
        }
        Ok(cur)
    }

    /// The type `r` of `c` once `c` is applied to the first `n` projections of
    /// a structure.
    fn rp_proj_fields(&mut self, fuel: u32, r: Clo, i_name: NamePtr, n: u32, strukt: Clo, is_prop_ty: bool,
        Ghost(c): Ghost<Term>) -> (out: Result<
        (Clo, Ghost<Seq<Field>>),
        TcError,
    >)
        requires
            old(self).wf(),
            old(self).plain_clo(strukt),
            old(self).plain_clo(r),
            old(self).g().ty(false, c, old(self).ctx.clo(r)),
        ensures
            final(self).wf(),
            final(self).ext(old(self)),
            out matches Ok(x) ==> final(self).plain_clo(x.0) && final(self).g().ty(
                false,
                Term::apps(c, Term::projs(i_name, old(self).ctx.clo(strukt), n as nat)),
                final(self).ctx.clo(x.0),
            ) && (is_prop_ty ==> x.1@.len() == n && forall|m: int|
                0 <= m < n ==> TypeChecker::field_ok(final(self).g(), c, i_name, old(self).ctx.clo(strukt), m,
                    #[trigger] x.1@[m])),
            out matches Err(err) ==> final(self).accounts(old(self), err),
        decreases fuel,
    {
        if fuel == 0 {
            return Err(self.out_of_depth(0));
        }
        let ghost o = *self;
        let ghost g = self.g();
        let ghost s = self.ctx.clo(strukt);
        let mut cur: Clo = r;
        let ghost mut fs: Seq<Field> = Seq::empty();
        let mut i: u32 = 0;
        proof {
            assert(Term::projs(i_name, s, 0) =~= Seq::empty());
        }
        while i < n
            invariant
                o == *old(self),
                o.wf(),
                self.wf(),
                self.ext(&o),
                g == o.g(),
                fuel > 0,
                i <= n,
                o.plain_clo(strukt),
                s == o.ctx.clo(strukt),
                self.plain_clo(cur),
                g.ty(false, Term::apps(c, Term::projs(i_name, s, i as nat)), self.ctx.clo(cur)),
                is_prop_ty ==> fs.len() == i && forall|m: int|
                    0 <= m < i ==> TypeChecker::field_ok(g, c, i_name, s, m, #[trigger] fs[m]),
            decreases n - i,
        {
            let ghost pre = Term::projs(i_name, s, i as nat);
            let ghost u = Term::apps(c, pre);
            let ghost x = Term::proj(i_name, i as nat, s);
            let (next, Ghost(f)) = self.rp_proj_field(fuel - 1, cur, i_name, i, strukt, is_prop_ty, Ghost(u))?;
            proof {
                assert(Term::projs(i_name, s, (i + 1) as nat) =~= pre.push(x));
                Term::lemma_apps_push(c, pre, x);
                fs = fs.push(f);
            }
            cur = next;
            i += 1;
        }
        Ok((cur, Ghost(fs)))
    }

    /// The type `cur` of `u` once `u` is applied to projection `i` of a
    /// structure.
    fn rp_proj_field(&mut self, fuel: u32, cur: Clo, i_name: NamePtr, i: u32, strukt: Clo, is_prop_ty: bool,
        Ghost(u): Ghost<Term>) -> (out: Result<
        (Clo, Ghost<Field>),
        TcError,
    >)
        requires
            old(self).wf(),
            old(self).plain_clo(strukt),
            old(self).plain_clo(cur),
            old(self).g().ty(false, u, old(self).ctx.clo(cur)),
        ensures
            final(self).wf(),
            final(self).ext(old(self)),
            out matches Ok(x) ==> final(self).plain_clo(x.0) && final(self).g().ty(
                false,
                Term::app(u, Term::proj(i_name, i as nat, old(self).ctx.clo(strukt))),
                final(self).ctx.clo(x.0),
            ) && x.1@.ft == old(self).ctx.clo(cur) && final(self).g().red(x.1@.ft, x.1@.pi())
                && (is_prop_ty && x.1@.b.nl() > 0
                ==> final(self).g().ty(false, x.1@.a, x.1@.q) && final(self).g().red(x.1@.q, Term::Sort(x.1@.z))
                && x.1@.z.is_zero()),
            out matches Err(err) ==> final(self).accounts(old(self), err),
        decreases fuel,
    {
        if fuel == 0 {
            return Err(self.out_of_depth(0));
        }
        let ghost g = self.g();
        let ghost s = self.ctx.clo(strukt);
        let ghost ft = self.ctx.clo(cur);
        let ghost x = Term::proj(i_name, i as nat, s);
        proof {
            self.lemma_plain_clo(strukt);
        }
        let (dom, body, Ghost(bi)) = self.rp_pi(fuel - 1, cur, Reason::NotAStructure)?;
        let ghost a = self.ctx.clo(dom);
        let ghost n = self.ctx.w@.n(dom.env);
        let ghost b = self.ctx.st.e(body).inst(1, n);
        let ghost mut q: Term = a;
        let ghost mut z: Lvl = Lvl::Zero;
        proof {
            self.lemma_plain_clo(dom);
            self.lemma_ntime(dom.env);
            if self.ctx.st.e(body).nl() == 0 {
                Term::lemma_inst_closed(self.ctx.st.e(body), 1, n);
            }
        }
        if self.lbr(body) > 0 && is_prop_ty {
            let d = self.reify(dom)?;
            if !self.rp_is_prop(fuel - 1, d)? {
                return Err(self.reject(Reason::PropProjection));
            }
            proof {
                let (q0, z0) = choose|q: Term, z: Lvl| #[trigger]
                    g.ty(false, a, q) && #[trigger] g.red(q, Term::Sort(z)) && z.is_zero();
                q = q0;
                z = z0;
            }
        }
        let p = self.rp_proj_clo(i_name, i, strukt)?;
        proof {
            Sig::t_app(g, false, u, ft, bi.0, bi.1, a, b, x, x);
            Term::lemma_inst_open(self.ctx.st.e(body), x, n);
            self.lemma_ntime(p.env);
        }
        let env2 = self.push_entry(dom.env, Entry::Val(p.e, p.env))?;
        Ok((Clo { e: body, env: env2 }, Ghost(Field { ft, n: bi.0, bs: bi.1, a, b, q, z })))
    }

    /// The expression an application of closures stands for.
    pub fn rp_sclo_to_expr(&mut self, s: &RClo) -> (r: Result<ExprPtr, TcError>)
        requires
            old(self).wf(),
            old(self).rc_ok(*s),
        ensures
            final(self).wf(),
            final(self).ext(old(self)),
            r matches Ok(e) ==> final(self).ctx.st.e_ok(e) && final(self).ctx.st.e(e) == old(self).rc(*s),
            r matches Err(err) ==> err == TcError::Full,
            r matches Err(err) ==> !(err is Reject) && final(self).ran_out(old(self)),
    {
        let ghost o = *self;
        let ghost h = self.ctx.clo(s.head);
        let ghost xs = self.cs(s.spine@);
        proof {
            self.lemma_rc(*s);
        }
        let mut out = self.reify(s.head)?;
        let mut i: usize = 0;
        proof {
            assert(xs.take(0) =~= Seq::empty());
        }
        while i < s.spine.len()
            invariant
                o == *old(self),
                o.wf(),
                o.rc_ok(*s),
                self.wf(),
                self.ext(&o),
                xs == o.cs(s.spine@),
                i <= s.spine@.len(),
                self.ctx.st.e_ok(out),
                self.ctx.st.e(out) == Term::apps(h, xs.take(i as int)),
            decreases s.spine@.len() - i,
        {
            proof {
                o.lemma_cs(s.spine@, i as int);
                self.lemma_plain_clo(s.spine@[i as int]);
                assert(xs.take(i + 1) =~= xs.take(i as int).push(xs[i as int]));
                Term::lemma_apps_push(h, xs.take(i as int), xs[i as int]);
            }
            let a = self.reify(s.spine[i])?;
            out = self.mk(Expr::App { fun: out, arg: a })?;
            i += 1;
        }
        proof {
            assert(xs.take(xs.len() as int) =~= xs);
        }
        Ok(out)
    }
}

} // verus!
