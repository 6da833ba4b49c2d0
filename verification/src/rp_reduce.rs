//! Weak head reduction of applications of closures.
use crate::bignum::Nat;
use crate::closure::{Clo, Entry, EnvId, ENV_NIL};
use crate::env::{Declar, ReducibilityHint};
use crate::error::{Reason, TcError};
use crate::expr::{BigUintPtr, Expr, ExprPtr};
use crate::rapier::RClo;
use crate::tc::TypeChecker;
use crate::term::Term;
use crate::theory::{NatOp, Sig};
use vstd::prelude::*;

verus! {

broadcast use {crate::tc::group_tc, crate::rp_core::group_rc};

/// Reductions of one weak head normal form.
pub const RP_WHNF_FUEL: u32 = 100_000;

impl Term {
    /// Reduction without unfolding ends on this head, given `n` arguments.
    pub open spec fn stops(self, n: nat) -> bool {
        !(self is App) && !(self is Var) && !(self is Let) && (self is Lam ==> n == 0)
    }

    proof fn lemma_stops(h: Term, n: Seq<Term>, xs: Seq<Term>)
        requires
            h.stops(xs.len()),
        ensures
            Term::apps(h.inst(0, n), xs).headed(),
            xs.len() > 0 ==> !(Term::apps(h.inst(0, n), xs) is Lam),
        decreases xs.len(),
    {
        let f = h.inst(0, n);
        assert(!(f is App) && !(f is Let) && (f is Lam ==> h is Lam));
        assert(f.headed());
        if xs.len() > 0 {
            if xs.len() > 1 {
                Term::lemma_stops(h, n, xs.drop_last());
            } else {
                assert(xs.drop_last() =~= Seq::empty());
                assert(Term::apps(f, Seq::empty()) == f);
            }
        }
    }
}

impl<'x> TypeChecker<'x> {
    /// The weak head normal form of a closure, remembered.
    pub fn rp_whnf_clo(&mut self, fuel: u32, c: Clo) -> (r: Result<RClo, TcError>)
        requires
            old(self).wf(),
            old(self).plain_clo(c),
        ensures
            final(self).wf(),
            final(self).ext(old(self)),
            r matches Ok(x) ==> final(self).rc_ok(x) && final(self).g().red(old(self).ctx.clo(c), final(self).rc(x)),
            r matches Ok(x) ==> final(self).rc(x).headed(),
            r matches Err(err) ==> final(self).accounts(old(self), err),
        decreases fuel,
    {
        if fuel == 0 {
            return Err(self.out_of_depth(0));
        }
        let ghost g = self.g();
        let ghost t = self.ctx.clo(c);
        let c = self.norm_clo(c);
        match self.read_expr(c.e) {
            Expr::NatLit { .. } | Expr::StringLit { .. } | Expr::Sort { .. } | Expr::Pi { .. } | Expr::Lambda { .. }
            | Expr::Local { .. } => {
                let r = RClo::of(c);
                proof {
                    assert(self.cs(r.spine@) =~= Seq::empty());
                    Sig::steps_refl(g, t);
                }
                return Ok(r);
            },
            _ => {},
        }
        match self.recall_whnf(c) {
            Some(r) => {
                return Ok(r);
            },
            None => {},
        }
        let s = self.rp_mk_sclo(c);
        let r = self.rp_whnf(fuel - 1, s)?;
        self.note_whnf(c, &r);
        Ok(r)
    }

    /// The weak head normal form of an application.
    pub fn rp_whnf(&mut self, fuel: u32, s: RClo) -> (r: Result<RClo, TcError>)
        requires
            old(self).wf(),
            old(self).rc_ok(s),
        ensures
            final(self).wf(),
            final(self).ext(old(self)),
            r matches Ok(x) ==> final(self).rc_ok(x) && final(self).g().red(old(self).rc(s), final(self).rc(x)),
            r matches Ok(x) ==> final(self).rc(x).headed(),
            // no definition is left to unfold
            r matches Ok(x) ==> !(final(self).ctx.st.e(x.head.e) matches Term::Const(n, ls)
                && final(self).g().body_of(n, ls) is Some),
            r matches Err(err) ==> final(self).accounts(old(self), err),
        decreases fuel,
    {
        if fuel == 0 {
            return Err(self.out_of_depth(0));
        }
        let ghost o = *self;
        let ghost g = self.g();
        let ghost t0 = self.rc(s);
        let mut t = self.rp_whnf_core(fuel - 1, s)?;
        let mut left: u32 = RP_WHNF_FUEL;
        loop
            invariant
                o == *old(self),
                o.wf(),
                o.rc_ok(s),
                self.wf(),
                self.ext(&o),
                g == o.g(),
                fuel > 0,
                t0 == o.rc(s),
                self.rc_ok(t),
                g.red(t0, self.rc(t)),
                self.rc(t).headed(),
            decreases left,
        {
            if left == 0 {
                return Err(self.out_of_depth(0));
            }
            left -= 1;
            let ghost t1 = self.rc(t);
            let t2 = match self.rp_reduce_nat(fuel - 1, &t)? {
                Some(x) => x,
                None => match self.rp_unfold_definition(&t)? {
                    Some(x) => x,
                    None => {
                        return Ok(t);
                    },
                },
            };
            let ghost u = self.rc(t2);
            t = self.rp_whnf_core(fuel - 1, t2)?;
            proof {
                Sig::r_trans(g, t0, t1, u);
                Sig::r_trans(g, t0, u, self.rc(t));
            }
        }
    }

    pub fn rp_whnf_core(&mut self, fuel: u32, s: RClo) -> (r: Result<RClo, TcError>)
        requires
            old(self).wf(),
            old(self).rc_ok(s),
        ensures
            final(self).wf(),
            final(self).ext(old(self)),
            r matches Ok(x) ==> final(self).rc_ok(x) && final(self).g().red(old(self).rc(s), final(self).rc(x)),
            r matches Ok(x) ==> final(self).rc(x).headed(),
            r matches Err(err) ==> final(self).accounts(old(self), err),
        decreases fuel,
    {
        if fuel == 0 {
            return Err(self.out_of_depth(0));
        }
        self.rp_whnf_core_ext(fuel - 1, &s, false, false)
    }

    /// Weak head reduction without unfolding definitions.  With `cheap_rec`
    /// and `cheap_proj`, recursors and projections look no further for what
    /// they scrutinize, so that a comparison can look at stuck applications
    /// of one head before forcing them.
    pub fn rp_whnf_core_ext(&mut self, fuel: u32, s: &RClo, cheap_rec: bool, cheap_proj: bool)
        -> (r: Result<RClo, TcError>)
        requires
            old(self).wf(),
            old(self).rc_ok(*s),
        ensures
            final(self).wf(),
            final(self).ext(old(self)),
            r matches Ok(x) ==> final(self).rc_ok(x) && final(self).g().red(old(self).rc(*s), final(self).rc(x))
                && final(self).rc(x).headed(),
            fuel > 0 && old(self).ctx.st.e(s.head.e).stops(s.spine@.len()) && !(old(self).ctx.st.e(s.head.e) is Const)
                && !(old(self).ctx.st.e(s.head.e) is Proj) ==> (r matches Ok(x) && final(self).rc(x) == old(self).rc(*s)),
            r matches Err(err) ==> final(self).accounts(old(self), err),
        decreases fuel,
    {
        if fuel == 0 {
            return Err(self.out_of_depth(0));
        }
        let ghost o = *self;
        let ghost g = self.g();
        let ghost t0 = self.rc(*s);
        let mut e: ExprPtr = s.head.e;
        let mut env: EnvId = s.head.env;
        // reversed spine: the last element is the next argument
        let mut rsp: Vec<Clo> = self.rp_reversed(&s.spine);
        let mut left: u64 = u64::MAX;
        proof {
            Sig::steps_refl(g, t0);
        }
        loop
            invariant_except_break
                o.ctx.st.e(s.head.e).stops(s.spine@.len()) && !(o.ctx.st.e(s.head.e) is Const) && !(o.ctx.st.e(s.head.e)
                    is Proj) ==> left == u64::MAX,
            invariant
                o == *old(self),
                o.wf(),
                o.rc_ok(*s),
                self.wf(),
                self.ext(&o),
                g == o.g(),
                fuel > 0,
                t0 == o.rc(*s),
                self.plain_clo(Clo { e, env }),
                self.cs_ok(rsp@),
                o.ctx.st.e(s.head.e).stops(s.spine@.len()) && !(o.ctx.st.e(s.head.e) is Const) && !(o.ctx.st.e(s.head.e)
                    is Proj) ==> *self == o && e == s.head.e && env == s.head.env && rsp@.len()
                    == s.spine@.len() && self.rt(Clo { e, env }, rsp@) == t0,
                g.red(t0, self.rt(Clo { e, env }, rsp@)),
            ensures
                self.ctx.st.e(e).stops(rsp@.len()),
            decreases left,
        {
            if left == 0 {
                return Err(self.out_of_depth(0));
            }
            left -= 1;
            let ghost t1 = self.rt(Clo { e, env }, rsp@);
            match self.read_expr(e) {
                Expr::App { fun, arg } => {
                    let a = Clo { e: arg, env };
                    proof {
                        self.lemma_rt_push(Clo { e: fun, env }, rsp@, a);
                        self.lemma_cs_push(rsp@, a);
                    }
                    rsp.push(a);
                    e = fun;
                },
                Expr::Var { .. } => {
                    let (e2, env2) = self.chase(e, env);
                    e = e2;
                    env = env2;
                },
                Expr::Lambda { .. } => {
                    let ghost sp = rsp@;
                    match rsp.pop() {
                        Some(arg) => {
                            let (e2, env2) = self.rp_beta(Clo { e, env }, arg, Ghost(rsp@), Ghost(sp))?;
                            proof {
                                Sig::r_trans(g, t0, t1, self.rt(Clo { e: e2, env: env2 }, rsp@));
                            }
                            e = e2;
                            env = env2;
                        },
                        None => {
                            break;
                        },
                    }
                },
                Expr::Let { .. } => {
                    let (e2, env2) = self.rp_zeta(Clo { e, env }, Ghost(rsp@))?;
                    proof {
                        Sig::r_trans(g, t0, t1, self.rt(Clo { e: e2, env: env2 }, rsp@));
                    }
                    e = e2;
                    env = env2;
                },
                Expr::Proj { .. } => {
                    match self.rp_proj(fuel - 1, Clo { e, env }, cheap_rec, cheap_proj)? {
                        Some(fld) => {
                            proof {
                                Sig::red_apps(g, self.ctx.clo(Clo { e, env }), self.ctx.clo(fld),
                                    self.cs(rsp@).reverse());
                                Sig::r_trans(g, t0, t1, self.rt(fld, rsp@));
                            }
                            e = fld.e;
                            env = fld.env;
                        },
                        None => {
                            break;
                        },
                    }
                },
                Expr::Const { name, .. } => {
                    proof {
                        self.lemma_env();
                    }
                    let is_quot_op = self.is_name(self.ctx.names.get().quot_lift, name) || self.is_name(
                        self.ctx.names.get().quot_ind,
                        name,
                    );
                    let reducible = match self.env.get_declar(name) {
                        Some(Declar::Quot { .. }) => is_quot_op,
                        Some(Declar::Recursor(_)) => true,
                        _ => false,
                    };
                    if !reducible {
                        break;
                    }
                    match self.rp_reduce_recursor(fuel - 1, Clo { e, env }, &rsp, cheap_rec, cheap_proj)? {
                        Some(r) => {
                            proof {
                                Sig::r_trans(g, t0, t1, self.rc(r));
                            }
                            e = r.head.e;
                            env = r.head.env;
                            rsp = self.rp_reversed(&r.spine);
                        },
                        None => {
                            break;
                        },
                    }
                },
                _ => {
                    break;
                },
            }
        }
        let r = self.rp_turn(Clo { e, env }, &rsp);
        proof {
            Term::lemma_stops(self.ctx.st.e(e), self.ctx.w@.n(env), self.cs(r.spine@));
        }
        Ok(r)
    }

    /// A function entered with its argument.
    fn rp_beta(&mut self, c: Clo, arg: Clo, Ghost(rsp): Ghost<Seq<Clo>>, Ghost(sp): Ghost<Seq<Clo>>) -> (r: Result<
        (ExprPtr, EnvId),
        TcError,
    >)
        requires
            old(self).wf(),
            old(self).plain_clo(c),
            old(self).ctx.st.e(c.e) is Lam,
            old(self).cs_ok(sp),
            sp.len() > 0,
            rsp == sp.drop_last(),
            arg == sp.last(),
        ensures
            final(self).wf(),
            final(self).ext(old(self)),
            r matches Ok(x) ==> final(self).plain_clo(Clo { e: x.0, env: x.1 }) && final(self).cs_ok(rsp)
                && final(self).g().red(
                old(self).rt(c, sp),
                final(self).rt(Clo { e: x.0, env: x.1 }, rsp),
            ),
            r matches Err(err) ==> err == TcError::Full,
            r matches Err(err) ==> final(self).accounts(old(self), err),
    {
        let ghost g = self.g();
        let ghost n = self.ctx.w@.n(c.env);
        proof {
            self.lemma_cs(sp, sp.len() - 1);
            self.lemma_cs_sub(sp, 0, sp.len() - 1);
            assert(sp.subrange(0, sp.len() - 1) =~= rsp);
            assert(sp =~= rsp.push(arg));
            self.lemma_rt_push(c, rsp, arg);
            self.lemma_plain_clo(arg);
            self.lemma_ntime(c.env);
            self.lemma_ntime(arg.env);
        }
        match self.read_expr(c.e) {
            Expr::Lambda { binder_name, binder_style, binder_type, body } => {
                let ghost a = self.ctx.clo(arg);
                let ghost d = self.ctx.st.e(binder_type).inst(0, n);
                let ghost b = self.ctx.st.e(body).inst(1, n);
                let ghost rest = self.cs(rsp).reverse();
                proof {
                    Sig::r_beta(g, binder_name, binder_style, d, b, a);
                    Term::lemma_inst_open(self.ctx.st.e(body), a, n);
                    Sig::red_apps(g, Term::app(self.ctx.clo(c), a), b.inst(0, seq![a]), rest);
                }
                let env2 = self.push_entry(c.env, Entry::Val(arg.e, arg.env))?;
                Ok((body, env2))
            },
            _ => Err(self.reject(Reason::BadValue)),
        }
    }

    /// A `let` entered with its value.
    fn rp_zeta(&mut self, c: Clo, Ghost(rsp): Ghost<Seq<Clo>>) -> (r: Result<(ExprPtr, EnvId), TcError>)
        requires
            old(self).wf(),
            old(self).plain_clo(c),
            old(self).ctx.st.e(c.e) is Let,
            old(self).cs_ok(rsp),
        ensures
            final(self).wf(),
            final(self).ext(old(self)),
            r matches Ok(x) ==> final(self).plain_clo(Clo { e: x.0, env: x.1 }) && final(self).g().red(
                old(self).rt(c, rsp),
                final(self).rt(Clo { e: x.0, env: x.1 }, rsp),
            ),
            r matches Err(err) ==> err == TcError::Full,
            r matches Err(err) ==> final(self).accounts(old(self), err),
    {
        let ghost g = self.g();
        let ghost n = self.ctx.w@.n(c.env);
        proof {
            self.lemma_ntime(c.env);
        }
        match self.read_expr(c.e) {
            Expr::Let { binder_name, binder_type, val, body, nondep } => {
                let ghost a = self.ctx.st.e(binder_type).inst(0, n);
                let ghost v = self.ctx.clo(Clo { e: val, env: c.env });
                let ghost b = self.ctx.st.e(body).inst(1, n);
                proof {
                    self.lemma_plain_clo(Clo { e: val, env: c.env });
                    Sig::r_zeta(g, binder_name, nondep, a, v, b);
                    Term::lemma_inst_open(self.ctx.st.e(body), v, n);
                    Sig::red_apps(g, self.ctx.clo(c), b.inst(0, seq![v]), self.cs(rsp).reverse());
                }
                let env2 = self.push_entry(c.env, Entry::Val(val, c.env))?;
                Ok((body, env2))
            },
            _ => Err(self.reject(Reason::BadValue)),
        }
    }

    /// The field a projection reads, once its structure is a constructor
    /// application.
    fn rp_proj(&mut self, fuel: u32, c: Clo, cheap_rec: bool, cheap_proj: bool) -> (r: Result<Option<Clo>, TcError>)
        requires
            old(self).wf(),
            old(self).plain_clo(c),
            old(self).ctx.st.e(c.e) is Proj,
        ensures
            final(self).wf(),
            final(self).ext(old(self)),
            r matches Ok(Some(x)) ==> final(self).plain_clo(x) && final(self).g().red(
                old(self).ctx.clo(c),
                final(self).ctx.clo(x),
            ),
            r matches Err(err) ==> final(self).accounts(old(self), err),
        decreases fuel,
    {
        if fuel == 0 {
            return Err(self.out_of_depth(0));
        }
        let ghost g = self.g();
        let (ty_name, idx, structure) = match self.read_expr(c.e) {
            Expr::Proj { ty_name, idx, structure } => (ty_name, idx, structure),
            _ => {
                return Ok(None);
            },
        };
        let sc = Clo { e: structure, env: c.env };
        let ghost s = self.ctx.clo(sc);
        let sb = if cheap_proj {
            let s0 = self.rp_mk_sclo(sc);
            self.rp_whnf_core_ext(fuel - 1, &s0, cheap_rec, cheap_proj)?
        } else {
            self.rp_whnf_clo(fuel - 1, sc)?
        };
        let ghost s1 = self.rc(sb);
        let sb = self.rp_lit_to_ctor(fuel - 1, sb)?;
        proof {
            Sig::r_trans(g, s, s1, self.rc(sb));
            self.lemma_env();
        }
        match self.read_expr(sb.head.e) {
            Expr::Const { name, levels } => {
                let env = self.env;
                match env.get_constructor(name) {
                    Some(ctor) => {
                        let at: u64 = ctor.num_params as u64 + idx as u64;
                        if at >= sb.spine.len() as u64 {
                            return Ok(None);
                        }
                        let fld = sb.spine[at as usize];
                        proof {
                            self.lemma_cs(sb.spine@, at as int);
                            assert(g.decls[name] == self.env.find(name)->0.g(&self.ctx.st));
                            Sig::r_projc(g, ty_name, idx as nat, s, name, self.ctx.st.ls(levels), self.cs(sb.spine@));
                        }
                        Ok(Some(fld))
                    },
                    None => Ok(None),
                }
            },
            _ => Ok(None),
        }
    }

    /// The constructor application of a natural number literal.
    fn rp_nat_ctor(&mut self, ptr: BigUintPtr) -> (r: Result<Option<ExprPtr>, TcError>)
        requires
            old(self).wf(),
            old(self).ctx.st.n_ok(ptr),
        ensures
            final(self).wf(),
            final(self).ext(old(self)),
            r matches Ok(Some(e))
                ==> final(self).ctx.st.e_ok(e) && final(self).ctx.st.e(e).nl() == 0 && final(self).g().red(
                Term::Nat(old(self).ctx.st.n(ptr)),
                final(self).ctx.st.e(e),
            ),
            r matches Err(err) ==> err == TcError::Full,
            r matches Err(err) ==> !(err is Reject) && final(self).ran_out(old(self)),
    {
        let ghost g = self.g();
        let ghost k = self.ctx.st.n(ptr);
        proof {
            self.lemma_base();
        }
        if !self.ctx.nat_ext {
            return Ok(None);
        }
        let n = self.read_bignum(ptr);
        if n.is_zero() {
            match self.ctx.names.get().nat_zero {
                Some(z) => {
                    proof {
                        Sig::r_lit_zero(g, z);
                    }
                    let levels = self.no_levels()?;
                    let e = self.mk(Expr::Const { name: z, levels })?;
                    Ok(Some(e))
                },
                None => Ok(None),
            }
        } else {
            match self.ctx.names.get().nat_succ {
                Some(s) => {
                    let one = Nat::from_u32(1);
                    let p = n.minus(&one);
                    proof {
                        Sig::r_lit_succ(g, s, (k - 1) as nat);
                        assert(p@ == k - 1);
                    }
                    let levels = self.no_levels()?;
                    let f = self.mk(Expr::Const { name: s, levels })?;
                    let q = self.alloc_bignum(&p)?;
                    let a = self.mk(Expr::NatLit { ptr: q })?;
                    let e = self.mk(Expr::App { fun: f, arg: a })?;
                    proof {
                        reveal_with_fuel(Term::nl, 2);
                    }
                    Ok(Some(e))
                },
                None => Ok(None),
            }
        }
    }

    /// A literal as the constructor application it stands for.
    pub fn rp_lit_to_ctor(&mut self, fuel: u32, s: RClo) -> (r: Result<RClo, TcError>)
        requires
            old(self).wf(),
            old(self).rc_ok(s),
        ensures
            final(self).wf(),
            final(self).ext(old(self)),
            r matches Ok(x) ==> final(self).rc_ok(x) && final(self).g().red(old(self).rc(s), final(self).rc(x)),
            r matches Err(err) ==> final(self).accounts(old(self), err),
        decreases fuel,
    {
        if fuel == 0 {
            return Err(self.out_of_depth(0));
        }
        let ghost g = self.g();
        let ghost t = self.rc(s);
        proof {
            Sig::steps_refl(g, t);
            self.lemma_base();
        }
        if s.spine.len() != 0 {
            return Ok(s);
        }
        proof {
            assert(self.cs(s.spine@) =~= Seq::empty());
        }
        match self.read_expr(s.head.e) {
            Expr::NatLit { ptr } => match self.rp_nat_ctor(ptr)? {
                Some(e) => {
                    proof {
                        self.lemma_clo_of(e);
                    }
                    Ok(self.rp_mk_sclo(Clo { e, env: ENV_NIL }))
                },
                None => Ok(s),
            },
            Expr::StringLit { ptr } => match self.str_lit_to_constructor(ptr)? {
                Some(e) => {
                    proof {
                        self.lemma_clo_of(e);
                        Sig::r_str(g, self.ctx.st.s(ptr), self.ctx.st.e(e));
                    }
                    let m = self.rp_mk_sclo(Clo { e, env: ENV_NIL });
                    let ghost u = self.rc(m);
                    let r = self.rp_whnf(fuel - 1, m)?;
                    proof {
                        Sig::r_trans(g, t, u, self.rc(r));
                    }
                    Ok(r)
                },
                None => Ok(s),
            },
            _ => Ok(s),
        }
    }

    /// How eagerly the constant `e` is unfolded, if it is.
    pub fn rp_delta_hint(&self, e: ExprPtr) -> (r: Option<ReducibilityHint>)
        requires
            self.wf(),
            self.ctx.st.e_ok(e),
        ensures
            r == (match self.ctx.st.e(e) {
                Term::Const(n, _) => match self.env.find(n) {
                    Some(Declar::Definition { hint, .. }) => Some(hint),
                    Some(Declar::Theorem { .. }) => Some(ReducibilityHint::Opaque),
                    _ => None,
                },
                _ => None,
            }),
    {
        proof {
            self.lemma_env();
        }
        match self.read_expr(e) {
            Expr::Const { name, .. } => match self.env.get_declar(name) {
                Some(Declar::Definition { hint, .. }) => Some(*hint),
                Some(Declar::Theorem { .. }) => Some(ReducibilityHint::Opaque),
                _ => None,
            },
            _ => None,
        }
    }

    /// The definition at the head of an application, unfolded.
    pub fn rp_unfold_definition(&mut self, s: &RClo) -> (r: Result<Option<RClo>, TcError>)
        requires
            old(self).wf(),
            old(self).rc_ok(*s),
        ensures
            final(self).wf(),
            final(self).ext(old(self)),
            r matches Ok(Some(x)) ==> final(self).rc_ok(x) && final(self).g().red(old(self).rc(*s), final(self).rc(x)),
            match r {
                Ok(x) => (x is Some) == (old(self).ctx.st.e(s.head.e) matches Term::Const(n, ls)
                    && old(self).g().body_of(n, ls) is Some),
                Err(e) => e == TcError::Full,
            },
            r matches Err(err) ==> !(err is Reject) && final(self).ran_out(old(self)),
    {
        let ghost g = self.g();
        let ghost xs = self.cs(s.spine@);
        let (name, levels) = match self.read_expr(s.head.e) {
            Expr::Const { name, levels } => (name, levels),
            _ => {
                return Ok(None);
            },
        };
        let ghost hd = self.ctx.clo(s.head);
        match self.const_body(name, levels)? {
            Some(e) => {
                proof {
                    self.lemma_clo_of(e);
                    Sig::red_apps(g, hd, self.ctx.st.e(e), xs);
                }
                let r = self.rp_apply(Clo { e, env: ENV_NIL }, &s.spine);
                Ok(Some(r))
            },
            None => Ok(None),
        }
    }

    /// A closure taken apart and applied to more closures.
    pub fn rp_apply(&self, c: Clo, args: &Vec<Clo>) -> (r: RClo)
        requires
            self.wf(),
            self.plain_clo(c),
            self.cs_ok(args@),
        ensures
            self.rc_ok(r),
            self.rc(r) == Term::apps(self.ctx.clo(c), self.cs(args@)),
    {
        let m = self.rp_mk_sclo(c);
        let RClo { head, spine } = m;
        let mut spine = spine;
        let ghost m0 = self.cs(spine@);
        self.rp_extend(&mut spine, args, 0, args.len());
        proof {
            assert(self.cs(args@).subrange(0, args@.len() as int) =~= self.cs(args@));
            Term::lemma_apps_append(self.ctx.clo(head), m0, self.cs(args@));
        }
        RClo { head, spine }
    }

    // ---- natural numbers ----

    /// The literal a closure reduces to.
    pub fn rp_nat_lit(&mut self, fuel: u32, c: Clo) -> (r: Result<Option<Nat>, TcError>)
        requires
            old(self).wf(),
            old(self).plain_clo(c),
        ensures
            final(self).wf(),
            final(self).ext(old(self)),
            r matches Ok(Some(n)) ==> n.wf() && final(self).g().red(old(self).ctx.clo(c), Term::Nat(n@)),
            fuel > 0 && old(self).ctx.st.e(c.e) is Nat ==> (r matches Ok(Some(n)) && old(self).ctx.st.e(c.e)
                == Term::Nat(n@)) && *final(self) == *old(self),
            r matches Err(err) ==> final(self).accounts(old(self), err),
        decreases fuel,
    {
        if fuel == 0 {
            return Err(self.out_of_depth(0));
        }
        let ghost g = self.g();
        let ghost t = self.ctx.clo(c);
        proof {
            self.lemma_base();
            Sig::steps_refl(g, t);
        }
        match self.rp_lit_of(c.e) {
            Some(n) => {
                proof {
                    Sig::r_trans(g, t, t, Term::Nat(n@));
                }
                return Ok(Some(n));
            },
            None => {},
        }
        let w = self.rp_whnf_clo(fuel - 1, c)?;
        if w.spine.len() != 0 {
            return Ok(None);
        }
        proof {
            assert(self.cs(w.spine@) =~= Seq::empty());
        }
        match self.rp_lit_of(w.head.e) {
            Some(n) => {
                proof {
                    Sig::r_trans(g, t, self.rc(w), Term::Nat(n@));
                }
                Ok(Some(n))
            },
            None => Ok(None),
        }
    }

    /// The number a literal or `Nat.zero` stands for.
    fn rp_lit_of(&self, e: ExprPtr) -> (r: Option<Nat>)
        requires
            self.wf(),
            self.ctx.st.e_ok(e),
        ensures
            r matches Some(n) ==> n.wf()
                && forall|s: Seq<Term>| #[trigger] self.g().red(self.ctx.st.e(e).inst(0, s), Term::Nat(n@)),
            self.ctx.st.e(e) is Nat ==> (r matches Some(n) && self.ctx.st.e(e) == Term::Nat(n@)),
    {
        let ghost g = self.g();
        proof {
            self.lemma_base();
        }
        match self.read_expr(e) {
            Expr::NatLit { ptr } => {
                let n = self.read_bignum(ptr);
                proof {
                    Sig::steps_refl(g, Term::Nat(n@));
                }
                Some(n)
            },
            Expr::Const { name, levels } => if self.is_name(self.ctx.names.get().nat_zero, name) {
                proof {
                    Sig::r_zero(g, name, self.ctx.st.ls(levels));
                }
                Some(Nat::from_u32(0))
            } else {
                None
            },
            _ => None,
        }
    }

    pub fn rp_mk_nat_sclo(&mut self, n: &Nat) -> (r: Result<RClo, TcError>)
        requires
            old(self).wf(),
            n.wf(),
        ensures
            final(self).wf(),
            final(self).ext(old(self)),
            r matches Ok(s) ==> final(self).rc_ok(s) && final(self).rc(s) == Term::Nat(n@),
            r matches Err(e) ==> e == TcError::Full,
            r matches Err(err) ==> !(err is Reject) && final(self).ran_out(old(self)),
    {
        let p = self.alloc_bignum(n)?;
        let e = self.mk(Expr::NatLit { ptr: p })?;
        let r = RClo::of(Clo { e, env: ENV_NIL });
        proof {
            self.lemma_clo_of(e);
            assert(self.cs(r.spine@) =~= Seq::empty());
        }
        Ok(r)
    }

    pub fn rp_mk_bool_sclo(&mut self, b: bool) -> (r: Result<Option<RClo>, TcError>)
        requires
            old(self).wf(),
        ensures
            final(self).wf(),
            final(self).ext(old(self)),
            match r {
                Ok(Some(s)) => final(self).rc_ok(s) && final(self).g().bool_const(b) == Some(final(self).rc(s)),
                Ok(None) => final(self).g().bool_const(b) is None,
                Err(e) => e == TcError::Full,
            },
            r matches Err(err) ==> !(err is Reject) && final(self).ran_out(old(self)),
    {
        proof {
            self.lemma_base();
        }
        let o = if b {
            self.ctx.names.get().bool_true
        } else {
            self.ctx.names.get().bool_false
        };
        match o {
            Some(name) => {
                let levels = self.no_levels()?;
                let e = self.mk(Expr::Const { name, levels })?;
                let r = RClo::of(Clo { e, env: ENV_NIL });
                proof {
                    self.lemma_clo_of(e);
                    assert(self.cs(r.spine@) =~= Seq::empty());
                }
                Ok(Some(r))
            },
            None => Ok(None),
        }
    }

    /// A primitive on natural numbers applied to literals, computed.
    pub fn rp_reduce_nat(&mut self, fuel: u32, s: &RClo) -> (r: Result<Option<RClo>, TcError>)
        requires
            old(self).wf(),
            old(self).rc_ok(*s),
        ensures
            final(self).wf(),
            final(self).ext(old(self)),
            r matches Ok(Some(x)) ==> final(self).rc_ok(x) && final(self).g().red(old(self).rc(*s), final(self).rc(x)),
            fuel > 0 && (!old(self).ctx.nat_ext || !(old(self).ctx.st.e(s.head.e) is Const) || s.spine@.len() == 0
                || s.spine@.len() > 2) ==> (r matches Ok(x) && x is None),
            fuel > 1 && old(self).ctx.nat_ext && s.spine@.len() == 2 && old(self).ctx.st.e(s.spine@[0].e) is Nat && old(
                self,
            ).ctx.st.e(s.spine@[1].e) is Nat && old(self).ctx.st.e(s.head.e) is Const
                && old(self).ctx.st.e(s.head.e)->Const_1.len() == 0 ==> {
                let want = old(self).g().nat_answer(
                    old(self).ctx.st.e(s.head.e)->Const_0,
                    old(self).ctx.st.e(s.spine@[0].e),
                    old(self).ctx.st.e(s.spine@[1].e),
                );
                match r {
                    Ok(Some(x)) => want == Some(final(self).rc(x)),
                    Ok(None) => want is None || (old(self).ctx.names@.op_of(old(self).ctx.st.e(s.head.e)->Const_0) == Some(
                        NatOp::Shr,
                    ) && (old(self).ctx.st.e(s.spine@[1].e) matches Term::Nat(n) && n >= 0x1_0000_0000_0000_0000)),
                    Err(e) => e == TcError::Full,
                }
            },
            // the successor of a literal
            fuel > 1 && old(self).ctx.nat_ext && s.spine@.len() == 1 && old(self).ctx.st.e(s.spine@[0].e) is Nat && old(
                self,
            ).ctx.st.e(s.head.e) is Const && old(self).ctx.st.e(s.head.e)->Const_1.len() == 0 && old(
                self,
            ).ctx.names@.nat_succ == Some(old(self).ctx.st.e(s.head.e)->Const_0) ==> match r {
                Ok(Some(x)) => old(self).ctx.st.e(s.spine@[0].e) matches Term::Nat(n) && final(self).rc(x) == Term::Nat(
                    n + 1,
                ),
                Ok(None) => false,
                Err(e) => e == TcError::Full,
            },
            // an exponent or a left shift past the bound, whatever the base
            fuel > 1 && s.spine@.len() == 2 && old(self).ctx.st.e(s.head.e) is Const && Sig::past_bound(
                old(self).ctx.names@.op_of(old(self).ctx.st.e(s.head.e)->Const_0),
                old(self).ctx.st.e(s.spine@[1].e),
            ) ==> (r matches Ok(x) && x is None),
            r matches Err(err) ==> final(self).accounts(old(self), err),
        decreases fuel,
    {
        if fuel == 0 {
            return Err(self.out_of_depth(0));
        }
        let ghost g = self.g();
        let ghost xs = self.cs(s.spine@);
        proof {
            self.lemma_base();
        }
        if !self.ctx.nat_ext {
            return Ok(None);
        }
        let (name, levels) = match self.read_expr(s.head.e) {
            Expr::Const { name, levels } => (name, levels),
            _ => {
                return Ok(None);
            },
        };
        if self.ctx.st.levels_len(levels) != 0 {
            return Ok(None);
        }
        let ghost ls = self.ctx.st.ls(levels);
        let ghost hd = Term::Const(name, ls);
        if s.spine.len() == 1 {
            if self.is_name(self.ctx.names.get().nat_succ, name) {
                proof {
                    self.lemma_cs(s.spine@, 0);
                    assert(xs.drop_last() =~= Seq::empty());
                    reveal_with_fuel(Term::apps, 2);
                }
                if let Some(v) = self.rp_nat_lit(fuel - 1, s.spine[0])? {
                    let one = Nat::from_u32(1);
                    proof {
                        Sig::r_succ(g, name, ls, xs[0], v@);
                    }
                    let r = self.rp_mk_nat_sclo(&v.plus(&one))?;
                    return Ok(Some(r));
                }
            }
            return Ok(None);
        }
        if s.spine.len() != 2 {
            return Ok(None);
        }
        let op = match self.nat_op(name) {
            Some(op) => op,
            None => {
                return Ok(None);
            },
        };
        proof {
            self.lemma_cs(s.spine@, 0);
            self.lemma_cs(s.spine@, 1);
            assert(xs.drop_last().drop_last() =~= Seq::empty());
            assert(Term::apps(hd, xs) == Term::app(Term::app(hd, xs[0]), xs[1])) by {
                reveal_with_fuel(Term::apps, 3);
                assert(xs.drop_last().last() == xs[0]);
            }
        }
        let y = match self.rp_nat_lit(fuel - 1, s.spine[1])? {
            Some(n) => n,
            None => {
                return Ok(None);
            },
        };
        if op == NatOp::Pow || op == NatOp::Shl {
            let bound = Nat::from_u32(0x100_0000);
            if !y.le(&bound) {
                return Ok(None);
            }
        }
        let x = match self.rp_nat_lit(fuel - 1, s.spine[0])? {
            Some(n) => n,
            None => {
                return Ok(None);
            },
        };
        let r = self.rp_op_result(op, &x, &y)?;
        proof {
            if r is Some {
                Sig::r_natop(g, name, ls, op, xs[0], xs[1], x@, y@, self.rc(r->0));
            }
        }
        Ok(r)
    }

    /// What a primitive gives on two numbers.
    fn rp_op_result(&mut self, op: NatOp, x: &Nat, y: &Nat) -> (r: Result<Option<RClo>, TcError>)
        requires
            old(self).wf(),
            x.wf(),
            y.wf(),
            (op is Pow || op is Shl) ==> y@ <= 0x100_0000,
        ensures
            final(self).wf(),
            final(self).ext(old(self)),
            match r {
                Ok(Some(s)) => final(self).rc_ok(s) && final(self).g().op_result(op, x@, y@) == Some(final(self).rc(s)),
                Ok(None) => final(self).g().op_result(op, x@, y@) is None || op is Shr && y@
                    >= 0x1_0000_0000_0000_0000,
                Err(e) => e == TcError::Full,
            },
            r matches Err(err) ==> !(err is Reject) && final(self).ran_out(old(self)),
    {
        let n: Nat = match op {
            NatOp::Add => x.plus(y),
            NatOp::Sub => x.minus(y),
            NatOp::Mul => x.times(y),
            NatOp::Pow => match y.to_u64() {
                Some(e) => x.power(e as u32),
                None => {
                    return Ok(None);
                },
            },
            NatOp::Div => x.quotient(y),
            NatOp::Mod => x.remainder(y),
            NatOp::Gcd => x.gcd(y),
            NatOp::LAnd => x.land(y),
            NatOp::LOr => x.lor(y),
            NatOp::XOr => x.xor(y),
            NatOp::Shl => match y.to_u64() {
                Some(e) => x.shl(e as u32),
                None => {
                    return Ok(None);
                },
            },
            NatOp::Shr => match x.shr(y) {
                Some(n) => n,
                None => {
                    return Ok(None);
                },
            },
            NatOp::Beq => {
                return self.rp_mk_bool_sclo(x.same(y));
            },
            NatOp::Ble => {
                return self.rp_mk_bool_sclo(x.le(y));
            },
        };
        let r = self.rp_mk_nat_sclo(&n)?;
        Ok(Some(r))
    }
}

} // verus!
