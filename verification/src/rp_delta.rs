//! Lazy unfolding, literals, eta and unit types on the delayed-instantiation
//! core.
use crate::bignum::Nat;
use crate::closure::{Clo, Entry, ENV_NIL};
use crate::env::ReducibilityHint;
use crate::error::{Reason, TcError};
use crate::expr::{Expr, ExprPtr};
use crate::level::NamePtr;
use crate::rapier::RClo;
use crate::rp_conv::LazyDelta;
use crate::tc::{InferFlag, TypeChecker};
use crate::term::{Lvl, Term};
use crate::theory::Sig;
use vstd::prelude::*;

verus! {

broadcast use {crate::tc::group_tc, crate::rp_core::group_rc};

impl<'x> TypeChecker<'x> {
    /// Whether natural number reduction would look at this head.
    pub fn rp_nat_op_head(&self, s: &RClo) -> (r: bool)
        requires
            self.wf(),
            self.rc_ok(*s),
        ensures
            r == (self.ctx.st.e(s.head.e) matches Term::Const(n, ls) && ls.len() == 0 && ((s.spine@.len() == 1
                && self.ctx.names@.nat_succ == Some(n)) || (s.spine@.len() == 2 && self.ctx.names@.op_of(n) is Some))),
    {
        proof {
            self.lemma_base();
        }
        match self.read_expr(s.head.e) {
            Expr::Const { name, levels } => {
                if self.ctx.st.levels_len(levels) != 0 {
                    return false;
                }
                if s.spine.len() == 1 {
                    self.is_name(self.ctx.names.get().nat_succ, name)
                } else if s.spine.len() == 2 {
                    self.nat_op(name).is_some()
                } else {
                    false
                }
            },
            _ => false,
        }
    }

    /// Whether an application is zero.
    fn rp_nat_zero_s(&self, t: &RClo) -> (r: bool)
        requires
            self.wf(),
            self.rc_ok(*t),
        ensures
            r ==> self.g().red(self.rc(*t), Term::Nat(0)),
    {
        proof {
            self.lemma_base();
            assert(t.spine@.len() == 0 ==> self.cs(t.spine@) =~= Seq::empty());
        }
        if t.spine.len() != 0 {
            return false;
        }
        match self.read_expr(t.head.e) {
            Expr::NatLit { ptr } => {
                let n = self.read_bignum(ptr);
                proof {
                    Sig::steps_refl(self.g(), Term::Nat(n@));
                }
                n.is_zero()
            },
            Expr::Const { name, levels } => {
                proof {
                    if self.ctx.names@.nat_zero == Some(name) {
                        Sig::r_zero(self.g(), name, self.ctx.st.ls(levels));
                    }
                }
                self.is_name(self.ctx.names.get().nat_zero, name)
            },
            _ => false,
        }
    }

    /// `t` is the successor of `p`.
    pub open spec fn succ_of(&self, t: Term, p: Term) -> bool {
        exists|n: u32, ls: Seq<Lvl>| self.g().names@.nat_succ == Some(n)
            && #[trigger] self.g().red(t, Term::app(Term::Const(n, ls), p))
    }

    /// What an application is the successor of.
    fn rp_nat_succ_of(&mut self, t: &RClo) -> (r: Result<Option<RClo>, TcError>)
        requires
            old(self).wf(),
            old(self).rc_ok(*t),
        ensures
            final(self).wf(),
            final(self).ext(old(self)),
            r matches Ok(Some(p)) ==> final(self).rc_ok(p) && final(self).succ_of(old(self).rc(*t), final(self).rc(p)),
            r matches Err(err) ==> err == TcError::Full,
            r matches Err(err) ==> !(err is Reject) && final(self).ran_out(old(self)),
    {
        let ghost g = self.g();
        let ghost x = self.rc(*t);
        proof {
            self.lemma_base();
            Sig::steps_refl(g, x);
        }
        if t.spine.len() == 0 {
            proof {
                assert(self.cs(t.spine@) =~= Seq::empty());
            }
            if let Expr::NatLit { ptr } = self.read_expr(t.head.e) {
                let n = self.read_bignum(ptr);
                match self.ctx.names.get().nat_succ {
                    Some(s) => {
                        if !n.is_zero() {
                            let one = Nat::from_u32(1);
                            let m = n.minus(&one);
                            proof {
                                Sig::r_lit_succ(g, s, m@);
                                assert(g.red(x, Term::app(Term::Const(s, Seq::empty()), Term::Nat(m@))));
                            }
                            let r = self.rp_mk_nat_sclo(&m)?;
                            return Ok(Some(r));
                        }
                    },
                    None => {},
                }
            }
            return Ok(None);
        }
        if t.spine.len() == 1 {
            if let Expr::Const { name, levels } = self.read_expr(t.head.e) {
                if self.is_name(self.ctx.names.get().nat_succ, name) {
                    proof {
                        self.lemma_cs(t.spine@, 0);
                        reveal_with_fuel(Term::apps, 2);
                        assert(self.cs(t.spine@).drop_last() =~= Seq::empty());
                        assert(x == Term::app(Term::Const(name, self.ctx.st.ls(levels)), self.ctx.clo(t.spine@[0])));
                    }
                    let r = self.rp_mk_sclo(t.spine[0]);
                    return Ok(Some(r));
                }
            }
        }
        Ok(None)
    }

    /// Literals and successors, compared one step at a time.
    pub fn rp_def_eq_offset(&mut self, fuel: u32, t: &RClo, s: &RClo) -> (r: Result<Option<bool>, TcError>)
        requires
            old(self).wf(),
            old(self).rc_ok(*t),
            old(self).rc_ok(*s),
        ensures
            final(self).wf(),
            final(self).ext(old(self)),
            r matches Ok(Some(true)) ==> final(self).g().eq(old(self).rc(*t), old(self).rc(*s)),
            r matches Err(err) ==> final(self).accounts(old(self), err),
        decreases fuel,
    {
        if fuel == 0 {
            return Err(self.out_of_depth(0));
        }
        let ghost g = self.g();
        let ghost x = self.rc(*t);
        let ghost y = self.rc(*s);
        if self.rp_nat_zero_s(t) && self.rp_nat_zero_s(s) {
            proof {
                Sig::eq_refl(g, Term::Nat(0));
                Sig::e_red(g, x, Term::Nat(0), y, Term::Nat(0));
            }
            return Ok(Some(true));
        }
        let t2 = match self.rp_nat_succ_of(t)? {
            Some(p) => p,
            None => {
                return Ok(None);
            },
        };
        let ghost p1 = self.rc(t2);
        let s2 = match self.rp_nat_succ_of(s)? {
            Some(p) => p,
            None => {
                return Ok(None);
            },
        };
        let ghost p2 = self.rc(s2);
        let b = self.rp_is_def_eq_s(fuel - 1, t2, s2)?;
        proof {
            if b {
                let (n, ls) = choose|n: u32, ls: Seq<Lvl>| g.names@.nat_succ == Some(n) && #[trigger] g.red(
                    x,
                    Term::app(Term::Const(n, ls), p1),
                );
                let (m, ms) = choose|n: u32, ls: Seq<Lvl>| g.names@.nat_succ == Some(n) && #[trigger] g.red(
                    y,
                    Term::app(Term::Const(n, ls), p2),
                );
                Sig::e_succ(g, n, ls, ms, p1, p2);
                Sig::e_red(g, x, Term::app(Term::Const(n, ls), p1), y, Term::app(Term::Const(m, ms), p2));
            }
        }
        Ok(Some(b))
    }

    /// The expression `e` names a definition or a theorem.
    pub open spec fn names_body(&self, e: ExprPtr) -> bool {
        self.ctx.st.e(e) matches Term::Const(n, _) && (self.env.find(n) matches Some(d) && (d is Definition
            || d is Theorem))
    }

    /// Unfold the definitions at the heads of two applications, the higher
    /// one first, until the comparison is decided or neither head unfolds.
    pub fn rp_lazy_delta(&mut self, fuel: u32, tn: RClo, sn: RClo, steps: u32) -> (r: Result<LazyDelta, TcError>)
        requires
            old(self).wf(),
            old(self).rc_ok(tn),
            old(self).rc_ok(sn),
        ensures
            final(self).wf(),
            final(self).ext(old(self)),
            match r {
                Ok(LazyDelta::Decided(b)) => b ==> final(self).g().eq(old(self).rc(tn), old(self).rc(sn)),
                Ok(LazyDelta::Stuck(t2, s2)) => final(self).rc_ok(t2) && final(self).rc_ok(s2) && final(self).g().red(
                    old(self).rc(tn),
                    final(self).rc(t2),
                ) && final(self).g().red(old(self).rc(sn), final(self).rc(s2)) && !final(self).names_body(t2.head.e)
                    && !final(self).names_body(s2.head.e),
                Err(_) => true,
            },
            r matches Err(err) ==> final(self).accounts(old(self), err),
        decreases fuel,
    {
        if fuel == 0 {
            return Err(self.out_of_depth(0));
        }
        let ghost o = *self;
        let ghost g = self.g();
        let ghost x0 = self.rc(tn);
        let ghost y0 = self.rc(sn);
        let mut t: RClo = tn;
        let mut s: RClo = sn;
        let mut left: u32 = steps;
        proof {
            Sig::steps_refl(g, x0);
            Sig::steps_refl(g, y0);
        }
        loop
            invariant
                o == *old(self),
                o.wf(),
                self.wf(),
                self.ext(&o),
                g == o.g(),
                fuel > 0,
                x0 == o.rc(tn),
                y0 == o.rc(sn),
                self.rc_ok(t),
                self.rc_ok(s),
                g.red(x0, self.rc(t)),
                g.red(y0, self.rc(s)),
            decreases left,
        {
            if left == 0 {
                return Err(self.out_of_depth(0));
            }
            left -= 1;
            let ghost x = self.rc(t);
            let ghost y = self.rc(s);
            match self.rp_delta_decide(fuel - 1, &t, &s)? {
                Some(b) => {
                    proof {
                        if b {
                            Sig::e_red(g, x0, x, y0, y);
                        }
                    }
                    return Ok(LazyDelta::Decided(b));
                },
                None => {},
            }
            if self.rp_check_native(&t).is_err() || self.rp_check_native(&s).is_err() {
                return Err(self.reject(Reason::Native));
            }
            let dt = self.rp_delta_hint(t.head.e);
            let ds = self.rp_delta_hint(s.head.e);
            match (dt, ds) {
                (None, None) => {
                    return Ok(LazyDelta::Stuck(t, s));
                },
                (Some(_), None) => {
                    match self.rp_try_unfold_proj_app(fuel - 1, &s)? {
                        Some(s2) => {
                            s = s2;
                        },
                        None => {
                            t = self.rp_delta1(fuel - 1, &t)?;
                        },
                    }
                },
                (None, Some(_)) => {
                    match self.rp_try_unfold_proj_app(fuel - 1, &t)? {
                        Some(t2) => {
                            t = t2;
                        },
                        None => {
                            s = self.rp_delta1(fuel - 1, &s)?;
                        },
                    }
                },
                (Some(ht), Some(hs)) => {
                    if ht.is_lt(&hs) {
                        s = self.rp_delta1(fuel - 1, &s)?;
                    } else if hs.is_lt(&ht) {
                        t = self.rp_delta1(fuel - 1, &t)?;
                    } else {
                        if self.rp_same_const(fuel - 1, &t, &s, ht)? {
                            proof {
                                Sig::e_red(g, x0, x, y0, y);
                            }
                            return Ok(LazyDelta::Decided(true));
                        }
                        t = self.rp_delta1(fuel - 1, &t)?;
                        s = self.rp_delta1(fuel - 1, &s)?;
                    }
                },
            }
            proof {
                Sig::steps_refl(g, x);
                Sig::steps_refl(g, y);
                Sig::r_trans(g, x0, x, self.rc(t));
                Sig::r_trans(g, y0, y, self.rc(s));
            }
        }
    }

    /// What is decided without unfolding: equal applications, offsets, and
    /// primitives on closed arguments.
    fn rp_delta_decide(&mut self, fuel: u32, tn: &RClo, sn: &RClo) -> (r: Result<Option<bool>, TcError>)
        requires
            old(self).wf(),
            old(self).rc_ok(*tn),
            old(self).rc_ok(*sn),
        ensures
            final(self).wf(),
            final(self).ext(old(self)),
            r matches Ok(Some(true)) ==> final(self).g().eq(old(self).rc(*tn), old(self).rc(*sn)),
            r matches Err(err) ==> final(self).accounts(old(self), err),
        decreases fuel,
    {
        if fuel == 0 {
            return Err(self.out_of_depth(0));
        }
        let ghost g = self.g();
        let ghost x = self.rc(*tn);
        let ghost y = self.rc(*sn);
        if self.rp_s_quick_eq(tn, sn) {
            return Ok(Some(true));
        }
        if let Some(b) = self.rp_def_eq_offset(fuel - 1, tn, sn)? {
            return Ok(Some(b));
        }
        if (self.rp_nat_op_head(tn) || self.rp_nat_op_head(sn)) && !self.rp_sclo_has_fvar(fuel - 1, tn)?
            && !self.rp_sclo_has_fvar(fuel - 1, sn)? {
            if let Some(t2) = self.rp_reduce_nat(fuel - 1, tn)? {
                let ghost x2 = self.rc(t2);
                let b = self.rp_is_def_eq_s(fuel - 1, t2, sn.copy())?;
                proof {
                    if b {
                        Sig::eq_left(g, x, x2, y);
                    }
                }
                return Ok(Some(b));
            }
            if let Some(s2) = self.rp_reduce_nat(fuel - 1, sn)? {
                let ghost y2 = self.rc(s2);
                let b = self.rp_is_def_eq_s(fuel - 1, tn.copy(), s2)?;
                proof {
                    if b {
                        Sig::eq_right(g, x, y, y2);
                    }
                }
                return Ok(Some(b));
            }
        }
        Ok(None)
    }

    /// Applications of one regular definition to equal arguments.
    fn rp_same_const(&mut self, fuel: u32, tn: &RClo, sn: &RClo, hint: ReducibilityHint) -> (r: Result<bool, TcError>)
        requires
            old(self).wf(),
            old(self).rc_ok(*tn),
            old(self).rc_ok(*sn),
        ensures
            final(self).wf(),
            final(self).ext(old(self)),
            r matches Ok(true) ==> final(self).g().eq(old(self).rc(*tn), old(self).rc(*sn)),
            r matches Err(err) ==> final(self).accounts(old(self), err),
        decreases fuel,
    {
        if fuel == 0 {
            return Err(self.out_of_depth(0));
        }
        let ghost g = self.g();
        let ghost h1 = self.ctx.clo(tn.head);
        let ghost h2 = self.ctx.clo(sn.head);
        if tn.spine.len() == 0 || sn.spine.len() == 0 {
            return Ok(false);
        }
        match hint {
            ReducibilityHint::Regular(_) => {},
            _ => {
                return Ok(false);
            },
        }
        match (self.read_expr(tn.head.e), self.read_expr(sn.head.e)) {
            (Expr::Const { name: c1, levels: l1 }, Expr::Const { name: c2, levels: l2 }) => {
                if c1 != c2 || !self.rp_lvl_eq_list(l1, l2)? {
                    return Ok(false);
                }
                proof {
                    Sig::e_const(g, c1, self.ctx.st.ls(l1), self.ctx.st.ls(l2));
                }
            },
            _ => {
                return Ok(false);
            },
        }
        self.rp_def_eq_spines(fuel - 1, tn, sn, Ghost(h1), Ghost(h2))
    }

    /// A projection at the head, resolved by full reduction.
    fn rp_try_unfold_proj_app(&mut self, fuel: u32, s: &RClo) -> (r: Result<Option<RClo>, TcError>)
        requires
            old(self).wf(),
            old(self).rc_ok(*s),
        ensures
            final(self).wf(),
            final(self).ext(old(self)),
            r matches Ok(Some(x)) ==> final(self).rc_ok(x) && final(self).g().red(old(self).rc(*s), final(self).rc(x)),
            r matches Err(err) ==> final(self).accounts(old(self), err),
        decreases fuel,
    {
        if fuel == 0 {
            return Err(self.out_of_depth(0));
        }
        match self.read_expr(s.head.e) {
            Expr::Proj { .. } => {},
            _ => {
                return Ok(None);
            },
        }
        let r = self.rp_whnf_core(fuel - 1, s.copy())?;
        if self.rp_unchanged(&r, s) {
            Ok(None)
        } else {
            Ok(Some(r))
        }
    }

    /// One unfolding.
    fn rp_delta1(&mut self, fuel: u32, x: &RClo) -> (r: Result<RClo, TcError>)
        requires
            old(self).wf(),
            old(self).rc_ok(*x),
        ensures
            final(self).wf(),
            final(self).ext(old(self)),
            r matches Ok(y) ==> final(self).rc_ok(y) && final(self).g().red(old(self).rc(*x), final(self).rc(y)),
            r matches Err(err) ==> final(self).accounts(old(self), err),
        decreases fuel,
    {
        if fuel == 0 {
            return Err(self.out_of_depth(0));
        }
        let ghost g = self.g();
        let ghost t = self.rc(*x);
        match self.rp_unfold_definition(x)? {
            Some(u) => {
                let ghost v = self.rc(u);
                let r = self.rp_whnf_core_ext(fuel - 1, &u, false, true)?;
                proof {
                    Sig::r_trans(g, t, v, self.rc(r));
                }
                Ok(r)
            },
            None => Err(self.reject(Reason::LevelCount)),
        }
    }

    /// Native reduction is not supported.
    fn rp_check_native(&self, s: &RClo) -> (r: Result<(), TcError>)
        requires
            self.wf(),
            self.rc_ok(*s),
        ensures
            r == (if self.ctx.st.e(s.head.e) matches Term::Const(n, _) && (self.ctx.names@.reduce_bool == Some(n)
                || self.ctx.names@.reduce_nat == Some(n)) {
                Err::<(), TcError>(TcError::Reject(Reason::Native))
            } else {
                Ok::<(), TcError>(())
            }),
    {
        match self.read_expr(s.head.e) {
            Expr::Const { name, .. } => if self.is_name(self.ctx.names.get().reduce_bool, name) || self.is_name(
                self.ctx.names.get().reduce_nat,
                name,
            ) {
                Err(TcError::Reject(Reason::Native))
            } else {
                Ok(())
            },
            _ => Ok(()),
        }
    }

    // ---- eta ----

    pub fn rp_try_eta_expansion(&mut self, fuel: u32, t: &RClo, s: &RClo) -> (r: Result<bool, TcError>)
        requires
            old(self).wf(),
            old(self).rc_ok(*t),
            old(self).rc_ok(*s),
        ensures
            final(self).wf(),
            final(self).ext(old(self)),
            r matches Ok(true) ==> final(self).g().eq(old(self).rc(*t), old(self).rc(*s)),
            r matches Err(err) ==> final(self).accounts(old(self), err),
        decreases fuel,
    {
        if fuel == 0 {
            return Err(self.out_of_depth(0));
        }
        let ghost x = self.rc(*t);
        let ghost y = self.rc(*s);
        if self.rp_try_eta_core(fuel - 1, t, s)? {
            return Ok(true);
        }
        let r = self.rp_try_eta_core(fuel - 1, s, t)?;
        proof {
            if r {
                Sig::e_sym(self.g(), y, x);
            }
        }
        Ok(r)
    }

    /// A function against something that is no function literal: compare the
    /// body with the other side applied.
    fn rp_try_eta_core(&mut self, fuel: u32, t: &RClo, s: &RClo) -> (r: Result<bool, TcError>)
        requires
            old(self).wf(),
            old(self).rc_ok(*t),
            old(self).rc_ok(*s),
        ensures
            final(self).wf(),
            final(self).ext(old(self)),
            r matches Ok(true) ==> final(self).g().eq(old(self).rc(*t), old(self).rc(*s)),
            r matches Err(err) ==> final(self).accounts(old(self), err),
        decreases fuel,
    {
        if fuel == 0 {
            return Err(self.out_of_depth(0));
        }
        let ghost o = *self;
        let ghost g = self.g();
        let ghost x0 = self.rc(*t);
        let ghost y0 = self.rc(*s);
        let t_body = match self.read_expr(t.head.e) {
            Expr::Lambda { body, .. } => body,
            _ => {
                return Ok(false);
            },
        };
        let s_is_lam = match self.read_expr(s.head.e) {
            Expr::Lambda { .. } => s.spine.len() == 0,
            _ => false,
        };
        if t.spine.len() != 0 || s_is_lam {
            return Ok(false);
        }
        proof {
            assert(self.cs(t.spine@) =~= Seq::empty());
        }
        let s_ty = self.rp_infer_s(fuel - 1, s, InferFlag::InferOnly)?;
        proof {
            self.lemma_clo_of(s_ty);
        }
        let s_ty_w = self.rp_whnf_clo(fuel - 1, Clo { e: s_ty, env: ENV_NIL })?;
        if s_ty_w.spine.len() != 0 {
            return Ok(false);
        }
        let dom = match self.read_expr(s_ty_w.head.e) {
            Expr::Pi { binder_type, .. } => binder_type,
            _ => {
                return Ok(false);
            },
        };
        let dc = Clo { e: dom, env: s_ty_w.head.env };
        proof {
            self.lemma_plain_clo(dc);
        }
        let d = self.reify(dc)?;
        let sc = self.rp_sclo_as_clo(s)?;
        let fv = self.rp_fresh_fvar(t.head, sc, d)?;
        let ghost x = self.ctx.st.e(fv);
        let ghost l = x->Local_0->DbjLevel_0 as nat;
        let ghost n = self.ctx.w@.n(t.head.env);
        proof {
            self.lemma_clo_of(fv);
            self.lemma_ntime(t.head.env);
            self.lemma_ntime(sc.env);
            assert(Term::ml_seq(n, l));
            Term::lemma_inst_ml(self.ctx.st.e(t.head.e), 0, n, l);
            assert(Term::ml_seq(self.ctx.w@.n(sc.env), l));
            Term::lemma_inst_ml(self.ctx.st.e(sc.e), 0, self.ctx.w@.n(sc.env), l);
            Term::lemma_inst_open(self.ctx.st.e(t_body), x, n);
        }
        let tenv = self.push_entry(t.head.env, Entry::Neu(fv))?;
        let mut s_applied = s.copy();
        let fc = Clo { e: fv, env: ENV_NIL };
        proof {
            self.lemma_clo_of(fv);
            self.lemma_cs_push(s_applied.spine@, fc);
            Term::lemma_apps_push(self.ctx.clo(s.head), self.cs(s.spine@), x);
        }
        s_applied.spine.push(fc);
        let lhs = self.rp_mk_sclo(Clo { e: t_body, env: tenv });
        let ghost a2 = self.rc(lhs);
        let ghost b2 = self.rc(s_applied);
        let r = self.rp_is_def_eq_s(fuel - 1, lhs, s_applied)?;
        proof {
            if r {
                Sig::r_beta(g, x0->Lam_0, x0->Lam_1, *x0->Lam_2, *x0->Lam_3, x);
                Sig::steps_refl(g, Term::app(y0, x));
                Sig::e_ext(g, x0, y0, x, a2, b2);
            }
        }
        Ok(r)
    }

    pub fn rp_try_eta_struct(&mut self, fuel: u32, t: &RClo, s: &RClo) -> (r: Result<bool, TcError>)
        requires
            old(self).wf(),
            old(self).rc_ok(*t),
            old(self).rc_ok(*s),
        ensures
            final(self).wf(),
            final(self).ext(old(self)),
            r matches Ok(true) ==> final(self).g().eq(old(self).rc(*t), old(self).rc(*s)),
            r matches Err(err) ==> final(self).accounts(old(self), err),
        decreases fuel,
    {
        if fuel == 0 {
            return Err(self.out_of_depth(0));
        }
        let ghost x = self.rc(*t);
        let ghost y = self.rc(*s);
        if self.rp_try_eta_struct_core(fuel - 1, t, s)? {
            return Ok(true);
        }
        let r = self.rp_try_eta_struct_core(fuel - 1, s, t)?;
        proof {
            if r {
                Sig::e_sym(self.g(), y, x);
            }
        }
        Ok(r)
    }

    /// A value of a structure type against a constructor application: compare
    /// its projections with the fields.
    fn rp_try_eta_struct_core(&mut self, fuel: u32, t: &RClo, s: &RClo) -> (r: Result<bool, TcError>)
        requires
            old(self).wf(),
            old(self).rc_ok(*t),
            old(self).rc_ok(*s),
        ensures
            final(self).wf(),
            final(self).ext(old(self)),
            r matches Ok(true) ==> final(self).g().eq(old(self).rc(*t), old(self).rc(*s)),
            r matches Err(err) ==> final(self).accounts(old(self), err),
        decreases fuel,
    {
        if fuel == 0 {
            return Err(self.out_of_depth(0));
        }
        let ghost o = *self;
        let ghost g = self.g();
        let ghost a = self.rc(*t);
        let ghost cargs = self.cs(s.spine@);
        let (ctor, ctor_levels) = match self.read_expr(s.head.e) {
            Expr::Const { name, levels } => (name, levels),
            _ => {
                return Ok(false);
            },
        };
        let ghost cls = self.ctx.st.ls(ctor_levels);
        proof {
            self.lemma_env();
        }
        let env = self.env;
        let (induct, num_params, num_fields): (NamePtr, usize, usize) = match env.get_constructor(ctor) {
            Some(cd) => (cd.inductive_name, cd.num_params as usize, cd.num_fields as usize),
            None => {
                return Ok(false);
            },
        };
        if s.spine.len() != num_params + num_fields || !env.can_be_struct(induct) {
            return Ok(false);
        }
        let t_ty = self.rp_infer_s(fuel - 1, t, InferFlag::InferOnly)?;
        let s_ty = self.rp_infer_s(fuel - 1, s, InferFlag::InferOnly)?;
        proof {
            self.lemma_clo_of(t_ty);
            self.lemma_clo_of(s_ty);
        }
        if !self.rp_is_def_eq(fuel - 1, Clo { e: t_ty, env: ENV_NIL }, Clo { e: s_ty, env: ENV_NIL })? {
            return Ok(false);
        }
        let t_clo = self.rp_sclo_as_clo(t)?;
        let mut i: usize = 0;
        while i < num_fields
            invariant
                o == *old(self),
                o.wf(),
                o.rc_ok(*t),
                o.rc_ok(*s),
                self.wf(),
                self.ext(&o),
                g == o.g(),
                fuel > 0,
                a == o.rc(*t),
                cargs == o.cs(s.spine@),
                self.plain_clo(t_clo),
                self.ctx.clo(t_clo) == a,
                s.spine@.len() == num_params + num_fields,
                num_fields <= u16::MAX,
                num_params <= u16::MAX,
                i <= num_fields,
                forall|j: int| 0 <= j < i ==> #[trigger] g.field_eq(a, cargs, induct, num_params as nat, j),
            decreases num_fields - i,
        {
            let p = self.rp_proj_clo(induct, i as u32, t_clo)?;
            let f = s.spine[num_params + i];
            proof {
                o.lemma_cs(s.spine@, num_params + i);
            }
            let ghost pt = self.ctx.clo(p);
            if !self.rp_is_def_eq(fuel - 1, p, f)? {
                return Ok(false);
            }
            proof {
                Sig::steps_refl(g, pt);
                assert(g.field_eq(a, cargs, induct, num_params as nat, i as int));
            }
            i += 1;
        }
        proof {
            self.lemma_env();
            assert(g.decls[ctor] == self.env.find(ctor)->0.g(&self.ctx.st));
            assert(g.decls[induct] == self.env.find(induct)->0.g(&self.ctx.st));
            Sig::e_struct(g, a, ctor, cls, cargs);
        }
        Ok(true)
    }

    // ---- string literals and unit types ----

    pub fn rp_def_eq_string_lit(&mut self, fuel: u32, t: &RClo, s: &RClo) -> (r: Result<bool, TcError>)
        requires
            old(self).wf(),
            old(self).rc_ok(*t),
            old(self).rc_ok(*s),
        ensures
            final(self).wf(),
            final(self).ext(old(self)),
            r matches Ok(true) ==> final(self).g().eq(old(self).rc(*t), old(self).rc(*s)),
            r matches Err(err) ==> final(self).accounts(old(self), err),
        decreases fuel,
    {
        if fuel == 0 {
            return Err(self.out_of_depth(0));
        }
        let ghost x = self.rc(*t);
        let ghost y = self.rc(*s);
        if self.rp_string_lit_core(fuel - 1, t, s)? {
            return Ok(true);
        }
        let r = self.rp_string_lit_core(fuel - 1, s, t)?;
        proof {
            if r {
                Sig::e_sym(self.g(), y, x);
            }
        }
        Ok(r)
    }

    /// A string literal against an application of a string constructor.
    fn rp_string_lit_core(&mut self, fuel: u32, t: &RClo, s: &RClo) -> (r: Result<bool, TcError>)
        requires
            old(self).wf(),
            old(self).rc_ok(*t),
            old(self).rc_ok(*s),
        ensures
            final(self).wf(),
            final(self).ext(old(self)),
            r matches Ok(true) ==> final(self).g().eq(old(self).rc(*t), old(self).rc(*s)),
            r matches Err(err) ==> final(self).accounts(old(self), err),
        decreases fuel,
    {
        if fuel == 0 {
            return Err(self.out_of_depth(0));
        }
        let ghost g = self.g();
        let ghost x = self.rc(*t);
        let ghost y = self.rc(*s);
        if t.spine.len() != 0 {
            return Ok(false);
        }
        proof {
            assert(self.cs(t.spine@) =~= Seq::empty());
        }
        let sp = match self.read_expr(t.head.e) {
            Expr::StringLit { ptr } => ptr,
            _ => {
                return Ok(false);
            },
        };
        let s_head_ok = match self.read_expr(s.head.e) {
            Expr::Const { name, .. } => self.is_name(self.ctx.names.get().string_of_list, name) || self.is_name(
                self.ctx.names.get().string_mk,
                name,
            ),
            _ => false,
        };
        if !s_head_ok {
            return Ok(false);
        }
        let e = match self.str_lit_to_constructor(sp)? {
            Some(e) => e,
            None => {
                return Ok(false);
            },
        };
        proof {
            self.lemma_clo_of(e);
            Sig::r_str(g, self.ctx.st.s(sp), self.ctx.st.e(e));
        }
        let lhs = self.rp_mk_sclo(Clo { e, env: ENV_NIL });
        let ghost u = self.rc(lhs);
        let r = self.rp_is_def_eq_s(fuel - 1, lhs, s.copy())?;
        proof {
            if r {
                Sig::eq_left(g, x, u, y);
            }
        }
        Ok(r)
    }

    /// Two values of a structure without fields.
    pub fn rp_def_eq_unit_like(&mut self, fuel: u32, t: &RClo, s: &RClo) -> (r: Result<bool, TcError>)
        requires
            old(self).wf(),
            old(self).rc_ok(*t),
            old(self).rc_ok(*s),
        ensures
            final(self).wf(),
            final(self).ext(old(self)),
            r matches Ok(true) ==> final(self).g().eq(old(self).rc(*t), old(self).rc(*s)),
            r matches Err(err) ==> final(self).accounts(old(self), err),
        decreases fuel,
    {
        if fuel == 0 {
            return Err(self.out_of_depth(0));
        }
        let ghost g = self.g();
        let ghost x = self.rc(*t);
        let ghost y = self.rc(*s);
        let t_ty = self.rp_infer_s(fuel - 1, t, InferFlag::InferOnly)?;
        let ghost ta = self.ctx.st.e(t_ty);
        proof {
            self.lemma_clo_of(t_ty);
        }
        let ty_w = self.rp_whnf_clo(fuel - 1, Clo { e: t_ty, env: ENV_NIL })?;
        let (i, levels) = match self.read_expr(ty_w.head.e) {
            Expr::Const { name, levels } => (name, levels),
            _ => {
                return Ok(false);
            },
        };
        proof {
            self.lemma_env();
        }
        let env = self.env;
        if !env.can_be_struct(i) {
            return Ok(false);
        }
        let ctor0: NamePtr = match env.get_inductive(i) {
            Some(ind) => {
                if ind.all_ctor_names.len() == 0 {
                    return Ok(false);
                }
                ind.all_ctor_names[0]
            },
            None => {
                return Ok(false);
            },
        };
        match env.get_constructor(ctor0) {
            Some(cd) => {
                if cd.num_fields != 0 {
                    return Ok(false);
                }
            },
            None => {
                return Ok(false);
            },
        }
        proof {
            assert(g.decls[i] == self.env.find(i)->0.g(&self.ctx.st));
            assert(g.decls[ctor0] == self.env.find(ctor0)->0.g(&self.ctx.st));
            Sig::e_unit(g, x, ta, i, self.ctx.st.ls(levels), self.cs(ty_w.spine@), y);
        }
        let ty_clo = self.rp_sclo_as_clo(&ty_w)?;
        let s_ty = self.rp_infer_s(fuel - 1, s, InferFlag::InferOnly)?;
        proof {
            self.lemma_clo_of(s_ty);
        }
        self.rp_is_def_eq(fuel - 1, ty_clo, Clo { e: s_ty, env: ENV_NIL })
    }
}

} // verus!
