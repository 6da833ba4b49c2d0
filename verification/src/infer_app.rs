//! Inference of applications and projections.
use crate::closure::{Clo, Entry, EnvId, ENV_NIL};
use crate::error::{Reason, TcError};
use crate::expr::{Expr, ExprPtr};
use crate::level::NamePtr;
use crate::nbe::{ValId, Value};
use crate::spine::SClo;
use crate::tc::{InferFlag, TypeChecker};
use crate::term::{BinderStyle, Lvl, Term};
use crate::theory::{Field, Sig};
use vstd::prelude::*;

verus! {

broadcast use crate::tc::group_tc;

impl Term {
    /// `@eagerReduce A a`.
    pub open spec fn is_eager_reduce(self, n: Option<u32>) -> bool {
        n matches Some(n) && (self matches Term::App(f, _)
            && (*f matches Term::App(h, _) && (*h matches Term::Const(m, _)
            && m == n)))
    }
}

impl<'x> TypeChecker<'x> {
    /// The arguments of a head are closures whose types can be asked for.
    pub open spec fn args_ok(&self, v: Seq<(u32, u32)>) -> bool {
        forall|i: int| 0 <= i < v.len() ==> self.infers(Clo { e: (#[trigger] v[i]).0, env: v[i].1 })
    }

    /// What the arguments stand for.
    pub open spec fn args(&self, v: Seq<(u32, u32)>) -> Seq<Term> {
        Seq::new(v.len(), |i: int| self.ctx.clo(Clo { e: v[i].0, env: v[i].1 }))
    }

    /// An application taken apart has parts whose types can be asked for.
    pub open spec fn sclo_ok(&self, s: &SClo) -> bool {
        self.infers(s.head) && self.args_ok(s.spine@)
    }

    /// The application a head and its arguments stand for.
    pub open spec fn sclo(&self, s: &SClo) -> Term {
        Term::apps(self.ctx.clo(s.head), self.args(s.spine@))
    }

    /// Taking an application apart keeps what it stands for.
    pub proof fn lemma_sclo(&self, c: Clo, s: &SClo)
        requires
            self.wf(),
            self.infers(c),
            s.head.env == c.env,
            self.ctx.st.e_ok(s.head.e),
            self.ctx.items_ok(s.spine@, c.env),
            self.ctx.st.e(c.e) == Term::apps(self.ctx.st.e(s.head.e), self.ctx.items(s.spine@)),
        ensures
            self.sclo_ok(s),
            self.sclo(s) == self.ctx.clo(c),
    {
        let n = self.ctx.w@.n(c.env);
        let xs = self.ctx.items(s.spine@);
        Term::lemma_apps_scope(self.ctx.st.e(s.head.e), xs, n.len());
        Term::lemma_inst_apps(self.ctx.st.e(s.head.e), xs, 0, n);
        assert(Term::inst_seq(xs, 0, n) =~= self.args(s.spine@));
        Term::lemma_apps_bvb(self.ctx.clo(s.head), self.args(s.spine@), 0);
        assert forall|i: int| 0 <= i < s.spine@.len() implies self.infers(
            Clo { e: (#[trigger] s.spine@[i]).0, env: s.spine@[i].1 },
        ) by {
            assert(xs[i].nl() <= n.len());
            assert(self.args(s.spine@)[i].bvb() <= 0);
        }
    }

    /// Whether `e` is an application of `eagerReduce` to two arguments.
    fn is_eager_reduce_app(&self, e: ExprPtr) -> (r: bool)
        requires
            self.wf(),
            self.ctx.st.e_ok(e),
        ensures
            r == self.ctx.st.e(e).is_eager_reduce(self.ctx.names@.eager_reduce),
    {
        match self.ctx.names.get().eager_reduce {
            Some(n) => match self.read_expr(e) {
                Expr::App { fun, .. } => match self.read_expr(fun) {
                    Expr::App { fun: h, .. } => match self.read_expr(h) {
                        Expr::Const { name, .. } => name == n,
                        _ => false,
                    },
                    _ => false,
                },
                _ => false,
            },
            None => false,
        }
    }

    /// The type of a head applied to its arguments.
    pub fn infer_s(&mut self, fuel: u32, s: &SClo, flag: InferFlag) -> (r: Result<ExprPtr, TcError>)
        requires
            old(self).wf(),
            old(self).sclo_ok(s),
        ensures
            final(self).wf(),
            final(self).ext(old(self)),
            r matches Ok(y) ==> final(self).ctx.st.e_ok(y) && final(self).ctx.st.e(y).nl() == 0
                && final(self).g().ty(flag.checks(), old(self).sclo(s), final(self).ctx.st.e(y)),
            r matches Err(TcError::Reject(w)) ==> final(self).grounds(flag.checks(), w, old(self).sclo(s)),
            r matches Err(err) ==> final(self).accounts(old(self), err),
        decreases fuel,
    {
        if fuel == 0 {
            return Err(self.out_of_depth(0));
        }
        let ghost o = *self;
        let ghost g = self.g();
        let ghost k = flag.checks();
        let ghost h = self.ctx.clo(s.head);
        let ghost xs = self.args(s.spine@);
        let n: usize = s.spine.len();
        if n == 0 {
            return self.infer_clo(fuel - 1, s.head, flag);
        }
        proof {
            reveal(TypeChecker::grounds);
            assert(Term::apps(h, xs) is App);
        }
        let h_ty = self.infer_clo(fuel - 1, s.head, flag)?;
        let mut f_ty: Clo = Clo { e: h_ty, env: ENV_NIL };
        let mut i: usize = 0;
        proof {
            self.lemma_clo_of(h_ty);
            assert(xs.take(0) =~= Seq::empty());
        }
        while i < n
            invariant
                o == *old(self),
                o.wf(),
                o.sclo_ok(s),
                self.wf(),
                self.ext(&o),
                g == o.g(),
                k == flag.checks(),
                fuel > 0,
                n == s.spine@.len(),
                i <= n,
                xs == o.args(s.spine@),
                h == o.ctx.clo(s.head),
                n > 0,
                self.ctx.clo_ok(f_ty),
                self.ctx.clo(f_ty).bvb() == 0,
                g.ty(k, Term::apps(h, xs.take(i as int)), self.ctx.clo(f_ty)),
            decreases n - i,
        {
            let arg = s.spine.get(i);
            let ghost x = xs[i as int];
            let ghost f = Term::apps(h, xs.take(i as int));
            proof {
                assert(o.infers(Clo { e: s.spine@[i as int].0, env: s.spine@[i as int].1 }));
                assert(x == o.ctx.clo(arg));
                assert(xs.take(i + 1) =~= xs.take(i as int).push(x));
                Term::lemma_apps_push(h, xs.take(i as int), x);
                self.lemma_clo(arg);
            }
            f_ty = match self.infer_arg(fuel - 1, f_ty, arg, flag, Ghost(f)) {
                Ok(c) => c,
                Err(y) => {
                    proof {
                        if let TcError::Reject(w) = y {
                            reveal(TypeChecker::grounds);
                            assert(Term::apps(h, xs) is App);
                            assert(self.no_arg(k, w, h, xs, i as int));
                            assert(o.sclo(s) == Term::apps(h, xs));
                        }
                    }
                    return Err(y);
                },
            };
            i += 1;
        }
        proof {
            assert(xs.take(n as int) =~= xs);
        }
        self.reify(f_ty)
    }

    /// The type `f_ty` of `f` once `f` is applied to `arg`.
    fn infer_arg(&mut self, fuel: u32, f_ty: Clo, arg: Clo, flag: InferFlag, Ghost(f): Ghost<Term>)
        -> (r: Result<Clo, TcError>)
        requires
            old(self).wf(),
            old(self).infers(arg),
            old(self).ctx.clo_ok(f_ty),
            old(self).ctx.clo(f_ty).bvb() == 0,
            old(self).g().ty(flag.checks(), f, old(self).ctx.clo(f_ty)),
        ensures
            final(self).wf(),
            final(self).ext(old(self)),
            r matches Ok(c) ==> final(self).ctx.clo_ok(c) && final(self).ctx.clo(c).bvb() == 0 && final(self).g().ty(
                flag.checks(),
                Term::app(f, old(self).ctx.clo(arg)),
                final(self).ctx.clo(c),
            ),
            r matches Err(TcError::Reject(w)) ==> forall|h: Term, xs: Seq<Term>, i: int|
                0 <= i < xs.len() && f == Term::apps(h, xs.take(i)) && xs[i] == old(self).ctx.clo(arg)
                    ==> #[trigger] final(self).no_arg(flag.checks(), w, h, xs, i),
            r matches Err(err) ==> final(self).accounts(old(self), err),
        decreases fuel,
    {
        if fuel == 0 {
            return Err(self.out_of_depth(0));
        }
        let ghost g = self.g();
        let ghost k = flag.checks();
        let ghost ft = self.ctx.clo(f_ty);
        let ghost x = self.ctx.clo(arg);
        proof {
            self.lemma_clo(arg);
            Sig::steps_refl(g, ft);
        }
        // A syntactic binder is peeled without evaluating its domain; anything
        // else is forced to a function type.  The domain is an expression over
        // the environment of the binder, or a value.
        let (dom_e, dom_v, pi_env, body): (ExprPtr, Option<ValId>, EnvId, ExprPtr);
        let ghost pn: u32;
        let ghost ps: BinderStyle;
        let ghost pa: Term;
        match self.read_expr(f_ty.e) {
            Expr::Pi { binder_name, binder_style, binder_type, body: b } => {
                dom_e = binder_type;
                dom_v = None;
                pi_env = f_ty.env;
                body = b;
                proof {
                    pn = binder_name;
                    ps = binder_style;
                    pa = self.ctx.clo(Clo { e: binder_type, env: f_ty.env });
                }
            },
            _ => {
                let fv = self.nb_whnf_clo(fuel - 1, f_ty)?;
                match self.get(fv) {
                    Value::Pi { binder_name, binder_style, domain, env, body: b } => {
                        dom_e = b;
                        dom_v = Some(domain);
                        pi_env = env;
                        body = b;
                        proof {
                            pn = binder_name;
                            ps = binder_style;
                            pa = self.v(domain);
                        }
                    },
                    _ => {
                        proof {
                            assert(g.red(ft, self.v(fv)) && self.v(fv).headed() && !(self.v(fv) is Pi));
                        }
                        return Err(self.reject(Reason::NotAFunction));
                    },
                }
            },
        }
        let ghost n = self.ctx.w@.n(pi_env);
        let ghost b = self.ctx.st.e(body).inst(1, n);
        proof {
            assert(g.red(ft, Term::pi(pn, ps, pa, b)) && Term::pi(pn, ps, pa, b).bvb() == 0);
            self.lemma_ntime(pi_env);
        }
        let ghost mut xt: Term = x;
        if flag == InferFlag::Check {
            let a_ty = self.infer_clo(fuel - 1, arg, flag)?;
            proof {
                xt = self.ctx.st.e(a_ty);
                self.lemma_clo_of(a_ty);
            }
            if !self.arg_fits(fuel - 1, arg.e, Clo { e: dom_e, env: pi_env }, dom_v, a_ty)? {
                return Err(self.blame(Reason::ArgMismatch, Ghost(pa), Ghost(xt)));
            }
        }
        proof {
            Sig::t_app(g, k, f, ft, pn, ps, pa, b, x, xt);
            self.lemma_ntime(arg.env);
            Term::lemma_inst_open(self.ctx.st.e(body), x, n);
            Term::lemma_inst_bvb(b, 0, seq![x], 0);
        }
        let env2 = self.push_entry(pi_env, Entry::Val(arg.e, arg.env))?;
        Ok(Clo { e: body, env: env2 })
    }

    /// Whether the type `a_ty` of the argument `arg` is the domain it is passed at:
    /// the closure `dom`, or the value `dom_v` where there is one.  `@eagerReduce A a`
    /// in argument position asks for the comparison to reduce without waiting for
    /// both sides to be free of free variables.
    fn arg_fits(&mut self, fuel: u32, arg: ExprPtr, dom: Clo, dom_v: Option<ValId>, a_ty: ExprPtr)
        -> (r: Result<bool, TcError>)
        requires
            old(self).wf(),
            old(self).ctx.st.e_ok(arg),
            old(self).ctx.st.e_ok(a_ty),
            old(self).ctx.st.e(a_ty).nl() == 0,
            old(self).ctx.st.e(a_ty).bvb() == 0,
            match dom_v {
                Some(d) => old(self).v_ok(d) && old(self).v(d).bvb() == 0,
                None => old(self).ctx.clo_ok(dom) && old(self).ctx.clo(dom).bvb() == 0,
            },
        ensures
            final(self).wf(),
            final(self).ext(old(self)),
            r matches Ok(true) ==> final(self).g().eq(old(self).at(dom, dom_v), old(self).ctx.st.e(a_ty)),
            r matches Ok(false) ==> final(self).apart(old(self).at(dom, dom_v), old(self).ctx.st.e(a_ty)),
            r matches Err(TcError::Reject(w)) ==> final(self).trips(w, old(self).at(dom, dom_v)) || final(self).trips(
                w,
                old(self).ctx.st.e(a_ty),
            ),
            r matches Err(err) ==> final(self).accounts(old(self), err),
        decreases fuel,
    {
        if fuel == 0 {
            return Err(self.out_of_depth(0));
        }
        let ghost s0 = *self;
        let outer_eager = self.ctx.eager_mode;
        let eager = self.is_eager_reduce_app(arg) || outer_eager;
        self.set_eager(eager);
        let ghost s1 = *self;
        proof {
            self.lemma_clo_of(a_ty);
        }
        let r = match dom_v {
            None => self.is_def_eq(fuel - 1, dom, Clo { e: a_ty, env: ENV_NIL }),
            Some(d) => self.fits_value(fuel - 1, Clo { e: a_ty, env: ENV_NIL }, d),
        };
        let ghost s2 = *self;
        self.set_eager(outer_eager);
        proof {
            self.lemma_eager(&s0, &s1, &s2);
        }
        r
    }

    /// The domain an argument is passed at.
    pub open spec fn at(&self, dom: Clo, dom_v: Option<ValId>) -> Term {
        match dom_v {
            Some(d) => self.v(d),
            None => self.ctx.clo(dom),
        }
    }

    /// Whether the type `c` is the value `d`.
    fn fits_value(&mut self, fuel: u32, c: Clo, d: ValId) -> (r: Result<bool, TcError>)
        requires
            old(self).wf(),
            old(self).ctx.clo_ok(c),
            old(self).ctx.clo(c).bvb() == 0,
            old(self).v_ok(d),
            old(self).v(d).bvb() == 0,
        ensures
            final(self).wf(),
            final(self).ext(old(self)),
            r matches Ok(true) ==> final(self).g().eq(old(self).v(d), old(self).ctx.clo(c)),
            r matches Ok(false) ==> final(self).apart(old(self).v(d), old(self).ctx.clo(c)),
            r matches Err(TcError::Reject(w)) ==> final(self).trips(w, old(self).ctx.clo(c)),
            r matches Err(err) ==> final(self).accounts(old(self), err),
        decreases fuel,
    {
        if fuel == 0 {
            return Err(self.out_of_depth(0));
        }
        let ghost o = *self;
        let ghost g = self.g();
        let ghost x = self.ctx.clo(c);
        let ghost y = self.v(d);
        let v = match self.nb_of_clo(fuel - 1, c) {
            Ok(v) => v,
            Err(e) => {
                if let TcError::Reject(w) = e {
                    self.trip(w, Ghost(x), Ghost(o));
                }
                return Err(e);
            },
        };
        let ghost u = self.v(v);
        let r = match self.nb_conv(fuel - 1, 0, v, d) {
            Ok(r) => r,
            Err(e) => {
                if let TcError::Reject(w) = e {
                    self.trip(w, Ghost(x), Ghost(o));
                }
                return Err(e);
            },
        };
        proof {
            if r {
                Sig::eq_left(g, x, u, y);
                Sig::e_sym(g, x, y);
            }
        }
        Ok(self.answer(r, Ghost(y), Ghost(x)))
    }

    // ---- projections ----

    /// The type of a projection.
    pub fn infer_proj(&mut self, fuel: u32, ty_name: NamePtr, idx: u32, strukt: Clo, flag: InferFlag) -> (r: Result<
        ExprPtr,
        TcError,
    >)
        requires
            old(self).wf(),
            old(self).infers(strukt),
        ensures
            final(self).wf(),
            final(self).ext(old(self)),
            r matches Ok(y) ==> final(self).ctx.st.e_ok(y) && final(self).ctx.st.e(y).nl() == 0
                && final(self).g().ty(flag.checks(), Term::proj(ty_name, idx as nat, old(self).ctx.clo(strukt)),
                final(self).ctx.st.e(y)),
            r matches Err(TcError::Reject(w)) ==> final(self).grounds(
                flag.checks(),
                w,
                Term::proj(ty_name, idx as nat, old(self).ctx.clo(strukt)),
            ),
            r matches Err(err) ==> final(self).accounts(old(self), err),
        decreases fuel,
    {
        if fuel == 0 {
            return Err(self.out_of_depth(0));
        }
        let ghost o = *self;
        let ghost t = Term::proj(ty_name, idx as nat, self.ctx.clo(strukt));
        let r = self.infer_proj_go(fuel - 1, ty_name, idx, strukt, flag);
        if let Err(TcError::Reject(w)) = r {
            self.trip(w, Ghost(t), Ghost(o));
            assert(self.grounds(flag.checks(), w, t)) by {
                reveal(TypeChecker::grounds);
            }
        }
        r
    }

    fn infer_proj_go(&mut self, fuel: u32, ty_name: NamePtr, idx: u32, strukt: Clo, flag: InferFlag) -> (r: Result<
        ExprPtr,
        TcError,
    >)
        requires
            old(self).wf(),
            old(self).infers(strukt),
        ensures
            final(self).wf(),
            final(self).ext(old(self)),
            r matches Ok(y) ==> final(self).ctx.st.e_ok(y) && final(self).ctx.st.e(y).nl() == 0
                && final(self).g().ty(flag.checks(), Term::proj(ty_name, idx as nat, old(self).ctx.clo(strukt)),
                final(self).ctx.st.e(y)),
            r matches Err(err) ==> final(self).accounts(old(self), err),
        decreases fuel,
    {
        if fuel == 0 {
            return Err(self.out_of_depth(0));
        }
        let ghost g = self.g();
        let ghost k = flag.checks();
        let ghost s = self.ctx.clo(strukt);
        let s_ty = self.infer_clo(fuel - 1, strukt, flag)?;
        let ghost st = self.ctx.st.e(s_ty);
        proof {
            self.lemma_clo_of(s_ty);
        }
        let st_v = self.nb_whnf_clo(fuel - 1, Clo { e: s_ty, env: ENV_NIL })?;
        let (i_name, i_levels, st_args) = match self.nb_as_inductive(st_v) {
            Some(x) => x,
            None => {
                return Err(self.reject(Reason::NotAStructure));
            },
        };
        if i_name != ty_name {
            return Err(self.reject(Reason::NotAStructure));
        }
        let ghost ls = self.ctx.st.ls(i_levels);
        let ghost xs = self.vs(st_args@);
        proof {
            self.lemma_env();
        }
        let env = self.env;
        let (num_params, ctor_name): (usize, NamePtr) = match env.get_inductive(i_name) {
            Some(ind) => {
                if ind.all_ctor_names.len() != 1
                    || st_args.len() as u64 != ind.num_params as u64 + ind.num_indices as u64 {
                    return Err(self.reject(Reason::NotAStructure));
                }
                (ind.num_params as usize, ind.all_ctor_names[0])
            },
            None => {
                return Err(self.reject(Reason::NotAStructure));
            },
        };
        let ghost c = Term::Const(ctor_name, ls);
        proof {
            assert(g.decls[i_name] == self.env.find(i_name)->0.g(&self.ctx.st));
            Term::lemma_apps_bvb(Term::Const(i_name, ls), xs, 0);
        }
        let c_ty = self.infer_const(ctor_name, i_levels, InferFlag::InferOnly)?;
        proof {
            self.lemma_clo_of(c_ty);
            assert(self.vs(st_args@) =~= xs);
        }
        let r = self.proj_params(fuel - 1, Clo { e: c_ty, env: ENV_NIL }, &st_args, num_params, Ghost(c))?;
        let is_prop_ty = self.may_be_prop_of(fuel - 1, s_ty)?;
        let ghost (sk, w) = choose|sk: Term, w: Term| #[trigger]
            g.ty(false, st, sk) && #[trigger] g.red(sk, w)
                && (is_prop_ty == (w matches Term::Sort(l) && l.may_be_zero()));
        let ghost pre = Term::apps(c, xs.take(num_params as int));
        let (r, Ghost(fs)) = self.proj_fields(fuel - 1, r, i_name, idx, strukt, is_prop_ty, Ghost(pre))?;
        let ghost ft = self.ctx.clo(r);
        let rv = self.nb_whnf_clo(fuel - 1, r)?;
        let (domain, Ghost(bn), Ghost(bs), Ghost(b)) = match self.get(rv) {
            Value::Pi { binder_name, binder_style, domain, env: penv, body } => (
                domain,
                Ghost(binder_name),
                Ghost(binder_style),
                Ghost(self.ctx.st.e(body).inst(1, self.ctx.w@.n(penv))),
            ),
            _ => {
                return Err(self.reject(Reason::NotAStructure));
            },
        };
        let ghost a = self.v(domain);
        proof {
            assert(self.v(rv) == Term::pi(bn, bs, a, b));
            self.lemma_vtime(domain);
        }
        let d = self.nb_readback(domain)?;
        if is_prop_ty {
            if !self.is_prop_of(fuel - 1, d)? {
                return Err(self.reject(Reason::PropProjection));
            }
        }
        proof {
            let ps = Term::projs(i_name, s, idx as nat);
            Term::lemma_apps_append(c, xs.take(num_params as int), ps);
            let (q, z) = if is_prop_ty {
                choose|q: Term, z: Lvl| #[trigger] g.ty(false, a, q) && #[trigger] g.red(q, Term::Sort(z))
                    && z.is_zero()
            } else {
                (a, Lvl::Zero)
            };
            if is_prop_ty {
                assert forall|m: int| 0 <= m < idx implies g.ty(
                    false,
                    Term::apps(c, xs.take(num_params as int) + Term::projs(i_name, s, m as nat)),
                    (#[trigger] fs[m]).ft,
                ) by {
                    Term::lemma_apps_append(c, xs.take(num_params as int), Term::projs(i_name, s, m as nat));
                }
            }
            Sig::t_proj(g, k, i_name, idx as nat, s, st, ls, xs, num_params as nat, ft, bn, bs, a, b, q, z, w, sk, fs);
        }
        Ok(d)
    }

    /// The type `r` of `c` once `c` is applied to the parameters.
    fn proj_params(&mut self, fuel: u32, r: Clo, args: &Vec<ValId>, n: usize, Ghost(c): Ghost<Term>)
        -> (out: Result<Clo, TcError>)
        requires
            old(self).wf(),
            old(self).ctx.clo_ok(r),
            old(self).ctx.clo(r).bvb() == 0,
            old(self).vs_ok(args@),
            Term::bvb_seq(old(self).vs(args@), 0),
            n <= args@.len(),
            old(self).g().ty(false, c, old(self).ctx.clo(r)),
        ensures
            final(self).wf(),
            final(self).ext(old(self)),
            out matches Ok(r2) ==> final(self).ctx.clo_ok(r2) && final(self).ctx.clo(r2).bvb() == 0
                && final(self).g().ty(
                false,
                Term::apps(c, old(self).vs(args@).take(n as int)),
                final(self).ctx.clo(r2),
            ),
            out matches Err(err) ==> final(self).accounts(old(self), err),
        decreases fuel,
    {
        if fuel == 0 {
            return Err(self.out_of_depth(0));
        }
        let ghost o = *self;
        let ghost g = self.g();
        let ghost xs = self.vs(args@);
        let mut cur: Clo = r;
        let mut i: usize = 0;
        proof {
            assert(xs.take(0) =~= Seq::empty());
        }
        while i < n
            invariant
                o == *old(self),
                o.wf(),
                self.wf(),
                self.ext(&o),
                g == o.g(),
                fuel > 0,
                i <= n <= args@.len(),
                o.vs_ok(args@),
                xs == o.vs(args@),
                Term::bvb_seq(xs, 0),
                self.ctx.clo_ok(cur),
                self.ctx.clo(cur).bvb() == 0,
                g.ty(false, Term::apps(c, xs.take(i as int)), self.ctx.clo(cur)),
            decreases n - i,
        {
            let ghost ft = self.ctx.clo(cur);
            let ghost x = xs[i as int];
            let ghost u = Term::apps(c, xs.take(i as int));
            let rv = self.nb_whnf_clo(fuel - 1, cur)?;
            match self.get(rv) {
                Value::Pi { binder_name, binder_style, domain, env, body } => {
                    let a = args[i];
                    let ghost b = self.ctx.st.e(body).inst(1, self.ctx.w@.n(env));
                    proof {
                        assert(x == self.v(a));
                        assert(x.bvb() == 0);
                        self.lemma_vtime(a);
                        self.lemma_ntime(env);
                        Sig::t_app(g, false, u, ft, binder_name, binder_style, self.v(domain), b, x, x);
                        Term::lemma_inst_open(self.ctx.st.e(body), x, self.ctx.w@.n(env));
                        Term::lemma_inst_bvb(b, 0, seq![x], 0);
                        assert(xs.take(i + 1) =~= xs.take(i as int).push(x));
                        Term::lemma_apps_push(c, xs.take(i as int), x);
                    }
                    let env2 = self.push_entry_v(env, a)?;
                    cur = Clo { e: body, env: env2 };
                },
                _ => {
                    return Err(self.reject(Reason::NotAStructure));
                },
            }
            i += 1;
        }
        Ok(cur)
    }

    /// What is known of field `m` of `s`, whose constructor at its parameters
    /// is `c`.
    pub open spec fn field_ok(g: Sig, c: Term, i: u32, s: Term, m: int, f: Field) -> bool {
        &&& g.ty(false, Term::apps(c, Term::projs(i, s, m as nat)), f.ft)
        &&& g.red(f.ft, f.pi())
        &&& f.b.nl() > 0 ==> g.ty(false, f.a, f.q) && g.red(f.q, Term::Sort(f.z)) && f.z.is_zero()
    }

    /// The type `r` of `c` once `c` is applied to the first `n` projections of
    /// a structure.  Out of what may be a proposition, a field that a later
    /// one depends on must be a proof.
    fn proj_fields(&mut self, fuel: u32, r: Clo, i_name: NamePtr, n: u32, strukt: Clo, is_prop_ty: bool,
        Ghost(c): Ghost<Term>) -> (out: Result<
        (Clo, Ghost<Seq<Field>>),
        TcError,
    >)
        requires
            old(self).wf(),
            old(self).infers(strukt),
            old(self).ctx.clo_ok(r),
            old(self).ctx.clo(r).bvb() == 0,
            old(self).g().ty(false, c, old(self).ctx.clo(r)),
        ensures
            final(self).wf(),
            final(self).ext(old(self)),
            out matches Ok(x) ==> final(self).ctx.clo_ok(x.0) && final(self).ctx.clo(x.0).bvb() == 0
                && final(self).g().ty(
                false,
                Term::apps(c, Term::projs(i_name, old(self).ctx.clo(strukt), n as nat)),
                final(self).ctx.clo(x.0),
            ) && (is_prop_ty ==> x.1@.len() == n && forall|m: int|
                0 <= m < n ==> TypeChecker::field_ok(final(self).g(), c, i_name, old(self).ctx.clo(strukt), m,
                    #[trigger] x.1@[m])),
            out matches Err(err) ==> final(self).accounts(old(self), err),
        decreases fuel,
    {
        if fuel == 0 {
            return Err(self.out_of_depth(0));
        }
        let ghost o = *self;
        let ghost g = self.g();
        let ghost s = self.ctx.clo(strukt);
        let mut cur: Clo = r;
        let ghost mut fs: Seq<Field> = Seq::empty();
        let mut i: u32 = 0;
        proof {
            assert(Term::projs(i_name, s, 0) =~= Seq::empty());
        }
        while i < n
            invariant
                o == *old(self),
                o.wf(),
                self.wf(),
                self.ext(&o),
                g == o.g(),
                fuel > 0,
                i <= n,
                o.infers(strukt),
                s == o.ctx.clo(strukt),
                self.ctx.clo_ok(cur),
                self.ctx.clo(cur).bvb() == 0,
                g.ty(false, Term::apps(c, Term::projs(i_name, s, i as nat)), self.ctx.clo(cur)),
                is_prop_ty ==> fs.len() == i && forall|m: int|
                    0 <= m < i ==> TypeChecker::field_ok(g, c, i_name, s, m, #[trigger] fs[m]),
            decreases n - i,
        {
            let ghost pre = Term::projs(i_name, s, i as nat);
            let ghost u = Term::apps(c, pre);
            let ghost x = Term::proj(i_name, i as nat, s);
            let (next, Ghost(f)) = self.proj_field(fuel - 1, cur, i_name, i, strukt, is_prop_ty, Ghost(u))?;
            proof {
                assert(Term::projs(i_name, s, (i + 1) as nat) =~= pre.push(x));
                Term::lemma_apps_push(c, pre, x);
                fs = fs.push(f);
            }
            cur = next;
            i += 1;
        }
        Ok((cur, Ghost(fs)))
    }

    /// The type `cur` of `u` once `u` is applied to projection `i` of a
    /// structure.
    fn proj_field(&mut self, fuel: u32, cur: Clo, i_name: NamePtr, i: u32, strukt: Clo, is_prop_ty: bool,
        Ghost(u): Ghost<Term>) -> (out: Result<
        (Clo, Ghost<Field>),
        TcError,
    >)
        requires
            old(self).wf(),
            old(self).infers(strukt),
            old(self).ctx.clo_ok(cur),
            old(self).ctx.clo(cur).bvb() == 0,
            old(self).g().ty(false, u, old(self).ctx.clo(cur)),
        ensures
            final(self).wf(),
            final(self).ext(old(self)),
            out matches Ok(x) ==> final(self).ctx.clo_ok(x.0) && final(self).ctx.clo(x.0).bvb() == 0
                && final(self).g().ty(
                false,
                Term::app(u, Term::proj(i_name, i as nat, old(self).ctx.clo(strukt))),
                final(self).ctx.clo(x.0),
            ) && x.1@.ft == old(self).ctx.clo(cur) && final(self).g().red(x.1@.ft, x.1@.pi())
                && (is_prop_ty && x.1@.b.nl() > 0
                ==> final(self).g().ty(false, x.1@.a, x.1@.q) && final(self).g().red(x.1@.q, Term::Sort(x.1@.z))
                && x.1@.z.is_zero()),
            out matches Err(err) ==> final(self).accounts(old(self), err),
        decreases fuel,
    {
        if fuel == 0 {
            return Err(self.out_of_depth(0));
        }
        let ghost g = self.g();
        let ghost s = self.ctx.clo(strukt);
        let ghost ft = self.ctx.clo(cur);
        let ghost x = Term::proj(i_name, i as nat, s);
        proof {
            self.lemma_clo(strukt);
        }
        let rv = self.nb_whnf_clo(fuel - 1, cur)?;
        let (bn, bs, domain, penv, body) = match self.get(rv) {
            Value::Pi { binder_name, binder_style, domain, env, body } => (binder_name, binder_style, domain, env,
                body),
            _ => {
                return Err(self.reject(Reason::NotAStructure));
            },
        };
        let ghost a = self.v(domain);
        let ghost n = self.ctx.w@.n(penv);
        let ghost b = self.ctx.st.e(body).inst(1, n);
        let ghost mut q: Term = a;
        let ghost mut z: Lvl = Lvl::Zero;
        proof {
            assert(self.v(rv) == Term::pi(bn, bs, a, b));
            self.lemma_vtime(domain);
            self.lemma_ntime(penv);
            if self.ctx.st.e(body).nl() == 0 {
                Term::lemma_inst_closed(self.ctx.st.e(body), 1, n);
            }
        }
        if self.lbr(body) > 0 && is_prop_ty {
            let d = self.nb_readback(domain)?;
            if !self.is_prop_of(fuel - 1, d)? {
                return Err(self.reject(Reason::PropProjection));
            }
            proof {
                let (q0, z0) = choose|q: Term, z: Lvl| #[trigger]
                    g.ty(false, a, q) && #[trigger] g.red(q, Term::Sort(z)) && z.is_zero();
                q = q0;
                z = z0;
            }
        }
        proof {
            self.lemma_base();
            self.lemma_ntime(strukt.env);
            Sig::t_app(g, false, u, ft, bn, bs, a, b, x, x);
            Term::lemma_inst_open(self.ctx.st.e(body), x, n);
            Term::lemma_inst_bvb(b, 0, seq![x], 0);
        }
        let bv = self.mk(Expr::Var { dbj_idx: 0 })?;
        let proj = self.mk(Expr::Proj { ty_name: i_name, idx: i, structure: bv })?;
        let senv = self.push_entry(ENV_NIL, Entry::Val(strukt.e, strukt.env))?;
        proof {
            assert(self.ctx.w@.n(senv) =~= seq![s]);
            self.lemma_ntime(senv);
            assert(self.ctx.st.e(bv).nl() == 1);
            assert(self.ctx.st.e(bv).inst(0, seq![s]) == s);
            assert(self.ctx.st.e(proj).inst(0, seq![s]) == x);
        }
        let env2 = self.push_entry(penv, Entry::Val(proj, senv))?;
        Ok((Clo { e: body, env: env2 }, Ghost(Field { ft, n: bn, bs, a, b, q, z })))
    }
}

} // verus!
