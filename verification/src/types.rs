//! Types and universes of values.
use crate::closure::ENV_NIL;
use crate::error::{Reason, TcError};
use crate::expr::ExprPtr;
use crate::level::{LevelPtr, LevelsPtr, NamePtr};
use crate::nbe::{ConstKind, Elim, RigidHead, SpineId, ValId, Value, SPINE_EMPTY};
use crate::tc::TypeChecker;
use crate::term::{Lvl, Term};
use crate::theory::{ElimT, Sig};
use vstd::prelude::*;

verus! {

broadcast use crate::tc::group_tc;

impl<'x> TypeChecker<'x> {
    /// The type of a value.  Defined for everything a conversion question can
    /// stand on: a neutral, a literal or a sort.
    pub fn nb_type(&mut self, fuel: u32, depth: u32, v: ValId) -> (r: Result<ValId, TcError>)
        requires
            old(self).wf(),
            old(self).v_ok(v),
            old(self).v(v).bvb() <= depth,
        ensures
            final(self).wf(),
            final(self).ext(old(self)),
            r matches Ok(t) ==> final(self).v_ok(t) && final(self).g().has(old(self).v(v), final(self).v(t)),
            r matches Err(err) ==> final(self).accounts(old(self), err),
        decreases fuel,
    {
        if fuel == 0 {
            return Err(self.out_of_depth(0));
        }
        match self.recall_type_of(v) {
            Some(t) => {
                return Ok(t);
            },
            None => {},
        }
        let t = self.nb_type_go(fuel - 1, depth, v)?;
        self.note_type_of(v, t);
        Ok(t)
    }

    fn nb_type_go(&mut self, fuel: u32, depth: u32, v: ValId) -> (r: Result<ValId, TcError>)
        requires
            old(self).wf(),
            old(self).v_ok(v),
            old(self).v(v).bvb() <= depth,
        ensures
            final(self).wf(),
            final(self).ext(old(self)),
            r matches Ok(t) ==> final(self).v_ok(t) && final(self).g().has(old(self).v(v), final(self).v(t)),
            r matches Err(err) ==> final(self).accounts(old(self), err),
        decreases fuel,
    {
        if fuel == 0 {
            return Err(self.out_of_depth(0));
        }
        let ghost g = self.g();
        proof {
            self.lemma_base();
            self.lemma_vtime(v);
        }
        match self.get(v) {
            Value::Sort { level } => {
                let s = self.succ(level)?;
                let s = self.simplify(s)?;
                proof {
                    Sig::t_sort(g, false, self.ctx.st.l(level), self.ctx.st.l(s));
                }
                self.mk_sort_val(s)
            },
            Value::NatLit { ptr } => {
                match self.ctx.names.get().nat {
                    Some(n) => {
                        let levels = self.no_levels()?;
                        proof {
                            self.lemma_base();
                            Sig::t_nat(g, false, self.ctx.st.n(ptr), n);
                        }
                        self.mk_rigid(RigidHead::Const(ConstKind::Inductive, n, levels), SPINE_EMPTY)
                    },
                    None => Err(self.reject(Reason::Literal)),
                }
            },
            Value::StrLit { ptr } => {
                match self.ctx.names.get().string {
                    Some(n) => {
                        let levels = self.no_levels()?;
                        proof {
                            self.lemma_base();
                            Sig::t_str(g, false, self.ctx.st.s(ptr), n);
                        }
                        self.mk_rigid(RigidHead::Const(ConstKind::Inductive, n, levels), SPINE_EMPTY)
                    },
                    None => Err(self.reject(Reason::Literal)),
                }
            },
            Value::Rigid { head, spine } => {
                let ghost hd = self.ctx.w@.head(&self.ctx.st, head);
                proof {
                    ElimT::lemma_spine_bvb(hd, self.ctx.w@.s(spine));
                }
                let head_ty = self.nb_head_type(fuel - 1, depth, head)?;
                proof {
                    self.lemma_base();
                }
                let base = self.mk_rigid(head, SPINE_EMPTY)?;
                self.nb_spine_type(fuel - 1, depth, head_ty, base, spine)
            },
            Value::Unfold { name, levels, spine, .. } => {
                let ghost hd = Term::Const(name, self.ctx.st.ls(levels));
                let head_ty = self.nb_const_type(fuel - 1, name, levels)?;
                proof {
                    self.lemma_base();
                }
                let base = self.mk_unfold(name, levels, SPINE_EMPTY)?;
                self.nb_spine_type(fuel - 1, depth, head_ty, base, spine)
            },
            _ => Err(self.reject(Reason::BadValue)),
        }
    }

    fn nb_head_type(&mut self, fuel: u32, depth: u32, head: RigidHead) -> (r: Result<ValId, TcError>)
        requires
            old(self).wf(),
            old(self).ctx.w@.head_ok(&old(self).ctx.st, head, old(self).ctx.w@.clock),
            old(self).ctx.w@.head(&old(self).ctx.st, head).bvb() <= depth,
        ensures
            final(self).wf(),
            final(self).ext(old(self)),
            r matches Ok(t) ==> final(self).v_ok(t) && final(self).g().has(
                old(self).ctx.w@.head(&old(self).ctx.st, head),
                final(self).v(t),
            ),
            r matches Err(err) ==> final(self).accounts(old(self), err),
        decreases fuel,
    {
        if fuel == 0 {
            return Err(self.out_of_depth(0));
        }
        let ghost g = self.g();
        match head {
            RigidHead::BVar(l, ty) => {
                proof {
                    Sig::t_bv(g, l as nat, self.v(ty));
                }
                Ok(ty)
            },
            RigidHead::Local(e) => {
                let ghost x = self.ctx.st.e(e);
                let ty = self.fvar_type(e);
                let ghost a = self.ctx.st.e(ty);
                proof {
                    self.lemma_base();
                    self.ctx.st.lemma_no_bv(ty);
                    Term::lemma_inst_closed(a, 0, self.ctx.w@.n(ENV_NIL));
                    Sig::t_local(g, false, x->Local_0, x->Local_1, x->Local_2, a);
                }
                let t = self.nb_eval(fuel - 1, depth, ENV_NIL, ty)?;
                proof {
                    Sig::t_red(g, false, x, a, self.v(t));
                }
                Ok(t)
            },
            RigidHead::Const(_, n, ls) => self.nb_const_type(fuel - 1, n, ls),
        }
    }

    /// The type a constant's declaration gives it, with its level parameters
    /// replaced, evaluated once per constant.
    pub fn nb_const_type(&mut self, fuel: u32, name: NamePtr, levels: LevelsPtr) -> (r: Result<ValId, TcError>)
        requires
            old(self).wf(),
            old(self).ctx.st.ls_ok(levels),
        ensures
            final(self).wf(),
            final(self).ext(old(self)),
            r matches Ok(t) ==> final(self).v_ok(t) && final(self).g().has(
                Term::Const(name, old(self).ctx.st.ls(levels)),
                final(self).v(t),
            ),
            r matches Err(err) ==> final(self).accounts(old(self), err),
        decreases fuel,
    {
        if fuel == 0 {
            return Err(self.out_of_depth(0));
        }
        match self.recall_const_ty(name, levels) {
            Some(v) => {
                return Ok(v);
            },
            None => {},
        }
        let ghost g = self.g();
        let ghost ls = self.ctx.st.ls(levels);
        let ghost t = Term::Const(name, ls);
        let ty = self.const_type_expr(name, levels)?;
        let ghost a = self.ctx.st.e(ty);
        proof {
            self.lemma_base();
            self.ctx.st.lemma_no_bv(ty);
            Term::lemma_inst_closed(a, 0, self.ctx.w@.n(ENV_NIL));
        }
        let v = self.nb_eval(fuel - 1, 0, ENV_NIL, ty)?;
        proof {
            Sig::t_red(g, false, t, a, self.v(v));
        }
        self.note_const_ty(name, levels, v);
        Ok(v)
    }

    /// The declared type of a constant at given levels.
    pub fn const_type_expr(&mut self, name: NamePtr, levels: LevelsPtr) -> (r: Result<ExprPtr, TcError>)
        requires
            old(self).wf(),
            old(self).ctx.st.ls_ok(levels),
        ensures
            final(self).wf(),
            final(self).ext(old(self)),
            r matches Ok(ty) ==> final(self).ctx.st.e_ok(ty) && final(self).ctx.st.e(ty).nl() == 0
                && final(self).g().ty(
                false,
                Term::Const(name, old(self).ctx.st.ls(levels)),
                final(self).ctx.st.e(ty),
            ),
            old(self).env.find(name) is None ==> r == Err::<ExprPtr, TcError>(TcError::Reject(Reason::UnknownConst)),
            r matches Err(err) ==> final(self).accounts(old(self), err),
    {
        let ghost g = self.g();
        let ghost ls = self.ctx.st.ls(levels);
        proof {
            self.lemma_env();
        }
        let info = match self.env.get_declar(name) {
            Some(d) => d.info(),
            None => {
                let ghost x = Term::Const(name, ls);
                return Err(self.blame(Reason::UnknownConst, Ghost(x), Ghost(x)));
            },
        };
        proof {
            assert(g.decls.contains_key(name));
            assert(g.decls[name] == self.env.find(name)->0.g(&self.ctx.st));
            Sig::t_const(g, false, name, ls);
            Term::lemma_tsubst_vars(self.ctx.st.e(info.ty), self.ctx.st.ls(info.uparams), ls);
        }
        self.subst_expr_levels(info.ty, info.uparams, levels)
    }

    /// The type of `base` after the eliminations in `spine`: an application
    /// instantiates the function type's codomain, a projection reads the
    /// corresponding field's type off the structure's constructor.
    fn nb_spine_type(&mut self, fuel: u32, depth: u32, ty: ValId, base: ValId, spine: SpineId)
        -> (r: Result<ValId, TcError>)
        requires
            old(self).wf(),
            old(self).v_ok(ty),
            old(self).v_ok(base),
            old(self).ctx.w@.s_ok(spine),
            old(self).g().has(old(self).v(base), old(self).v(ty)),
            ElimT::spine(old(self).v(base), old(self).ctx.w@.s(spine)).bvb() <= depth,
        ensures
            final(self).wf(),
            final(self).ext(old(self)),
            r matches Ok(t) ==> final(self).v_ok(t) && final(self).g().has(
                ElimT::spine(old(self).v(base), old(self).ctx.w@.s(spine)),
                final(self).v(t),
            ),
            r matches Err(err) ==> final(self).accounts(old(self), err),
        decreases fuel,
    {
        if fuel == 0 {
            return Err(self.out_of_depth(0));
        }
        let ghost o = *self;
        let ghost g = self.g();
        let ghost hd = self.v(base);
        let ghost es = self.ctx.w@.s(spine);
        let elims = self.spine_to_vec(spine);
        let mut ty: ValId = ty;
        let mut prev: ValId = base;
        let mut i: usize = 0;
        proof {
            ElimT::lemma_spine_bvb(hd, es);
            assert(es.take(0) =~= Seq::empty());
            Sig::steps_refl(g, hd);
            self.lemma_vtime(base);
        }
        while i < elims.len()
            invariant
                o == *old(self),
                o.wf(),
                self.wf(),
                self.ext(&o),
                g == o.g(),
                fuel > 0,
                es == o.ctx.w@.s(spine),
                o.ctx.elims(elims@) == es,
                elims@.len() == es.len(),
                forall|j: int|
                    0 <= j < elims@.len() ==> o.ctx.w@.elim_ok(#[trigger] elims@[j], o.ctx.w@.stime(spine)),
                forall|j: int|
                    0 <= j < es.len() ==> (#[trigger] es[j] matches ElimT::App(a) ==> a.bvb() <= depth),
                i <= elims@.len(),
                self.v_ok(ty),
                self.v_ok(prev),
                ElimT::spine(hd, es.take(i as int)).bvb() <= depth,
                ElimT::spine(hd, es.take(i as int)).nl() == 0,
                g.has(ElimT::spine(hd, es.take(i as int)), self.v(ty)),
                g.steps(ElimT::spine(hd, es.take(i as int)), self.v(prev)),
            decreases elims@.len() - i,
        {
            let ghost u = ElimT::spine(hd, es.take(i as int));
            let ghost w = self.v(prev);
            proof {
                assert(es[i as int] == o.ctx.w@.elim(elims@[i as int]));
                assert(es.take(i + 1) =~= es.take(i as int).push(es[i as int]));
                ElimT::lemma_spine_push(hd, es.take(i as int), es[i as int]);
                assert(o.ctx.w@.elim_ok(elims@[i as int], o.ctx.w@.stime(spine)));
            }
            match elims[i] {
                Elim::App(a) => {
                    let ghost x = self.v(a);
                    let ghost ft = self.v(ty);
                    proof {
                        self.lemma_vtime(a);
                    }
                    let ty_f = self.nb_whnf(fuel - 1, depth, ty)?;
                    let ghost fw = self.v(ty_f);
                    ty = self.nb_pi_at(fuel - 1, depth, ty_f, a)?;
                    proof {
                        if let Term::Pi(pn, ps, pa, pb) = fw {
                            Sig::t_app(g, false, u, ft, pn, ps, *pa, *pb, x, x);
                            Sig::t_red(g, false, Term::app(u, x), pb.inst(0, seq![x]), self.v(ty));
                        }
                    }
                    prev = self.nb_apply(fuel - 1, depth, prev, a)?;
                    proof {
                        Sig::steps_fun(g, u, x, w);
                        Sig::steps_trans(g, Term::app(u, x), Term::app(w, x), self.v(prev));
                    }
                },
                Elim::Proj { ty_name, idx } => {
                    ty = match self.nb_field_type(fuel - 1, depth, prev, ty, ty_name, idx, Ghost(u))? {
                        Some(t) => t,
                        None => {
                            return Err(self.reject(Reason::NotAStructure));
                        },
                    };
                    prev = self.nb_proj(fuel - 1, depth, ty_name, idx, prev)?;
                    proof {
                        Sig::steps_proj(g, ty_name, idx as nat, u, w);
                        Sig::steps_trans(
                            g,
                            Term::proj(ty_name, idx as nat, u),
                            Term::proj(ty_name, idx as nat, w),
                            self.v(prev),
                        );
                    }
                },
            }
            i += 1;
        }
        proof {
            assert(es.take(es.len() as int) =~= es);
        }
        Ok(ty)
    }

    /// The codomain of a function type at `a`.
    fn nb_pi_at(&mut self, fuel: u32, depth: u32, pi: ValId, a: ValId) -> (r: Result<ValId, TcError>)
        requires
            old(self).wf(),
            old(self).v_ok(pi),
            old(self).v_ok(a),
            old(self).v(pi).bvb() <= depth,
            old(self).v(a).bvb() <= depth,
        ensures
            final(self).wf(),
            final(self).ext(old(self)),
            r matches Ok(x) ==> final(self).v_ok(x) && final(self).v(x).bvb() <= Term::max(
                old(self).v(pi).bvb(),
                old(self).v(a).bvb(),
            ) && match old(self).v(pi) {
                Term::Pi(_, _, _, b) => final(self).g().red(b.inst(0, seq![old(self).v(a)]), final(self).v(x)),
                _ => false,
            },
            r matches Err(err) ==> final(self).accounts(old(self), err),
        decreases fuel,
    {
        if fuel == 0 {
            return Err(self.out_of_depth(0));
        }
        match self.get(pi) {
            Value::Pi { .. } => self.nb_open(fuel - 1, depth, pi, a),
            _ => Err(self.reject(Reason::NotAFunction)),
        }
    }

    /// The type of field `idx` of `struct_value`, whose type is `struct_ty`.
    /// Earlier fields are supplied as projections of `struct_value`, since a
    /// later field's type may mention them.
    fn nb_field_type(&mut self, fuel: u32, depth: u32, struct_value: ValId, struct_ty: ValId, ty_name: NamePtr,
        idx: u32, Ghost(s): Ghost<Term>) -> (r: Result<
        Option<ValId>,
        TcError,
    >)
        requires
            old(self).wf(),
            old(self).v_ok(struct_value),
            old(self).v_ok(struct_ty),
            s.bvb() <= depth,
            s.nl() == 0,
            old(self).g().has(s, old(self).v(struct_ty)),
            old(self).g().steps(s, old(self).v(struct_value)),
        ensures
            final(self).wf(),
            final(self).ext(old(self)),
            r matches Ok(Some(t)) ==> final(self).v_ok(t) && final(self).g().has(
                Term::proj(ty_name, idx as nat, s),
                final(self).v(t),
            ),
            r matches Err(err) ==> final(self).accounts(old(self), err),
        decreases fuel,
    {
        if fuel == 0 {
            return Err(self.out_of_depth(0));
        }
        let ghost o = *self;
        let ghost g = self.g();
        let ghost st = self.v(struct_ty);
        let struct_ty2 = self.nb_whnf(fuel - 1, depth, struct_ty)?;
        let (ind_name, ind_levels, args) = match self.nb_as_inductive(struct_ty2) {
            Some(x) => x,
            None => {
                return Ok(None);
            },
        };
        if ind_name != ty_name {
            return Ok(None);
        }
        let ghost ls = self.ctx.st.ls(ind_levels);
        let ghost xs = self.vs(args@);
        proof {
            self.lemma_env();
        }
        let env = self.env;
        let (num_params, ctor_name): (usize, NamePtr) = match env.get_structure(ind_name, true) {
            Some(ind) => {
                if ind.all_ctor_names.len() == 0 {
                    return Ok(None);
                }
                (ind.num_params as usize, ind.all_ctor_names[0])
            },
            None => {
                return Ok(None);
            },
        };
        if num_params > args.len() {
            return Ok(None);
        }
        if env.get_declar(ctor_name).is_none() {
            return Ok(None);
        }
        let ghost c = Term::Const(ctor_name, ls);
        proof {
            assert(g.decls[ind_name] == self.env.find(ind_name)->0.g(&self.ctx.st));
            Term::lemma_apps_bvb(Term::Const(ind_name, ls), xs, s.bvb());
        }
        let ctor_ty = self.const_type_expr(ctor_name, ind_levels)?;
        let ghost ct = self.ctx.st.e(ctor_ty);
        proof {
            self.lemma_base();
            self.ctx.st.lemma_no_bv(ctor_ty);
            Term::lemma_inst_closed(ct, 0, self.ctx.w@.n(ENV_NIL));
        }
        let cur0 = self.nb_eval(fuel - 1, depth, ENV_NIL, ctor_ty)?;
        proof {
            Sig::t_red(g, false, c, ct, self.v(cur0));
            assert(self.vs(args@) =~= xs);
        }
        let cur1 = match self.nb_instantiate(fuel - 1, depth, cur0, &args, num_params, Ghost(c), Ghost(s.bvb()))? {
            Some(x) => x,
            None => {
                return Ok(None);
            },
        };
        let ghost pre = Term::apps(c, xs.take(num_params as int));
        let cur2 = match self.nb_instantiate_fields(
            fuel - 1,
            depth,
            cur1,
            struct_value,
            ty_name,
            idx,
            Ghost(pre),
            Ghost(s),
        )? {
            Some(x) => x,
            None => {
                return Ok(None);
            },
        };
        let ghost ft = self.v(cur2);
        let cur_f = self.nb_whnf(fuel - 1, depth, cur2)?;
        match self.get(cur_f) {
            Value::Pi { binder_name, binder_style, domain, env: penv, body } => {
                let ghost a = self.v(domain);
                let ghost b = self.ctx.st.e(body).inst(1, self.ctx.w@.n(penv));
                let r = self.nb_force(fuel - 1, depth, domain)?;
                proof {
                    Term::lemma_apps_append(c, xs.take(num_params as int), Term::projs(ty_name, s, idx as nat));
                    Sig::t_proj(
                        g,
                        false,
                        ind_name,
                        idx as nat,
                        s,
                        st,
                        ls,
                        xs,
                        num_params as nat,
                        ft,
                        binder_name,
                        binder_style,
                        a,
                        b,
                        a,
                        Lvl::Zero,
                        a,
                        a,
                        Seq::empty(),
                    );
                    Sig::t_red(g, false, Term::proj(ty_name, idx as nat, s), a, self.v(r));
                }
                Ok(Some(r))
            },
            _ => Ok(None),
        }
    }

    /// The type `cur` of `c` once `c` is applied to the first `n` values.
    fn nb_instantiate(&mut self, fuel: u32, depth: u32, cur: ValId, args: &Vec<ValId>, n: usize, Ghost(c): Ghost<Term>,
        Ghost(m): Ghost<nat>) -> (r: Result<
        Option<ValId>,
        TcError,
    >)
        requires
            old(self).wf(),
            old(self).v_ok(cur),
            old(self).vs_ok(args@),
            n <= args@.len(),
            m <= depth,
            Term::bvb_seq(old(self).vs(args@), m),
            old(self).g().ty(false, c, old(self).v(cur)),
            old(self).v(cur).bvb() <= m,
        ensures
            final(self).wf(),
            final(self).ext(old(self)),
            r matches Ok(Some(t)) ==> final(self).v_ok(t) && final(self).v(t).bvb() <= m && final(self).g().ty(
                false,
                Term::apps(c, old(self).vs(args@).take(n as int)),
                final(self).v(t),
            ),
            r matches Err(err) ==> final(self).accounts(old(self), err),
        decreases fuel,
    {
        if fuel == 0 {
            return Err(self.out_of_depth(0));
        }
        let ghost o = *self;
        let ghost g = self.g();
        let ghost xs = self.vs(args@);
        let mut cur: ValId = cur;
        let mut i: usize = 0;
        proof {
            assert(xs.take(0) =~= Seq::empty());
        }
        while i < n
            invariant
                o == *old(self),
                o.wf(),
                self.wf(),
                self.ext(&o),
                g == o.g(),
                fuel > 0,
                i <= n <= args@.len(),
                o.vs_ok(args@),
                xs == o.vs(args@),
                m <= depth,
                Term::bvb_seq(xs, m),
                self.v_ok(cur),
                self.v(cur).bvb() <= m,
                g.ty(false, Term::apps(c, xs.take(i as int)), self.v(cur)),
            decreases n - i,
        {
            let ghost u = Term::apps(c, xs.take(i as int));
            let ghost ft = self.v(cur);
            let ghost x = xs[i as int];
            proof {
                assert(x == self.v(args@[i as int]));
                self.lemma_vtime(args@[i as int]);
                assert(xs.take(i + 1) =~= xs.take(i as int).push(x));
                Term::lemma_apps_push(c, xs.take(i as int), x);
            }
            let cur_f = self.nb_whnf(fuel - 1, depth, cur)?;
            let ghost fw = self.v(cur_f);
            match self.get(cur_f) {
                Value::Pi { .. } => {},
                _ => {
                    return Ok(None);
                },
            }
            cur = self.nb_open(fuel - 1, depth, cur_f, args[i])?;
            proof {
                if let Term::Pi(pn, ps, pa, pb) = fw {
                    Sig::t_app(g, false, u, ft, pn, ps, *pa, *pb, x, x);
                    Sig::t_red(g, false, Term::app(u, x), pb.inst(0, seq![x]), self.v(cur));
                }
            }
            i += 1;
        }
        Ok(Some(cur))
    }

    /// The type `cur` of `c` once `c` is applied to the first `n` projections
    /// of a structure.
    fn nb_instantiate_fields(
        &mut self,
        fuel: u32,
        depth: u32,
        cur: ValId,
        strukt: ValId,
        ty_name: NamePtr,
        n: u32,
        Ghost(c): Ghost<Term>,
        Ghost(s): Ghost<Term>,
    ) -> (r: Result<Option<ValId>, TcError>)
        requires
            old(self).wf(),
            old(self).v_ok(cur),
            old(self).v_ok(strukt),
            s.bvb() <= depth,
            s.nl() == 0,
            old(self).g().steps(s, old(self).v(strukt)),
            old(self).g().ty(false, c, old(self).v(cur)),
            old(self).v(cur).bvb() <= s.bvb(),
        ensures
            final(self).wf(),
            final(self).ext(old(self)),
            r matches Ok(Some(t)) ==> final(self).v_ok(t) && final(self).v(t).bvb() <= s.bvb() && final(self).g().ty(
                false,
                Term::apps(c, Term::projs(ty_name, s, n as nat)),
                final(self).v(t),
            ),
            r matches Err(err) ==> final(self).accounts(old(self), err),
        decreases fuel,
    {
        if fuel == 0 {
            return Err(self.out_of_depth(0));
        }
        let ghost o = *self;
        let ghost g = self.g();
        let ghost w = self.v(strukt);
        let mut cur: ValId = cur;
        let mut i: u32 = 0;
        proof {
            assert(Term::projs(ty_name, s, 0) =~= Seq::empty());
        }
        while i < n
            invariant
                o == *old(self),
                o.wf(),
                self.wf(),
                self.ext(&o),
                g == o.g(),
                fuel > 0,
                i <= n,
                o.v_ok(strukt),
                w == o.v(strukt),
                s.bvb() <= depth,
                s.nl() == 0,
                g.steps(s, w),
                self.v_ok(cur),
                self.v(cur).bvb() <= s.bvb(),
                g.ty(false, Term::apps(c, Term::projs(ty_name, s, i as nat)), self.v(cur)),
            decreases n - i,
        {
            let ghost pre = Term::projs(ty_name, s, i as nat);
            let ghost u = Term::apps(c, pre);
            let ghost ft = self.v(cur);
            let ghost q = Term::proj(ty_name, i as nat, s);
            proof {
                assert(Term::projs(ty_name, s, (i + 1) as nat) =~= pre.push(q));
                Term::lemma_apps_push(c, pre, q);
            }
            let cur_f = self.nb_whnf(fuel - 1, depth, cur)?;
            let ghost fw = self.v(cur_f);
            match self.get(cur_f) {
                Value::Pi { .. } => {},
                _ => {
                    return Ok(None);
                },
            }
            let prior = self.nb_proj(fuel - 1, depth, ty_name, i, strukt)?;
            let ghost x = self.v(prior);
            proof {
                Sig::steps_proj(g, ty_name, i as nat, s, w);
                Sig::steps_trans(g, q, Term::proj(ty_name, i as nat, w), x);
                self.lemma_vtime(prior);
            }
            cur = self.nb_open(fuel - 1, depth, cur_f, prior)?;
            proof {
                if let Term::Pi(pn, ps, pa, pb) = fw {
                    Sig::t_app(g, false, u, ft, pn, ps, *pa, *pb, q, q);
                    Sig::r_subst(g, *pb, q, x);
                    Sig::t_red(g, false, Term::app(u, q), pb.inst(0, seq![q]), pb.inst(0, seq![x]));
                    Sig::t_red(g, false, Term::app(u, q), pb.inst(0, seq![x]), self.v(cur));
                }
            }
            i += 1;
        }
        Ok(Some(cur))
    }

    // ---- universes ----

    /// The universe a type lives in, when it can be read off without
    /// inferring the type of the type.
    pub fn nb_type_level(&mut self, fuel: u32, depth: u32, ty: ValId) -> (r: Result<Option<LevelPtr>, TcError>)
        requires
            old(self).wf(),
            old(self).v_ok(ty),
            old(self).v(ty).bvb() <= depth,
        ensures
            final(self).wf(),
            final(self).ext(old(self)),
            r matches Ok(Some(l)) ==> final(self).ctx.st.l_ok(l) && final(self).g().univ(
                old(self).v(ty),
                final(self).ctx.st.l(l),
            ),
            r matches Ok(None) ==> final(self).unsorted(old(self).v(ty)),
            r matches Err(err) ==> final(self).accounts(old(self), err),
        decreases fuel,
    {
        if fuel == 0 {
            return Err(self.out_of_depth(0));
        }
        let ghost g = self.g();
        let ghost t0 = self.v(ty);
        let ty = self.nb_force(fuel - 1, depth, ty)?;
        let ghost t = self.v(ty);
        let r: Option<LevelPtr> = match self.get(ty) {
            Value::Sort { level } => {
                let s = self.succ(level)?;
                let l = self.simplify(s)?;
                proof {
                    Sig::u_sort(g, self.ctx.st.l(level), self.ctx.st.l(l));
                }
                Some(l)
            },
            Value::Pi { .. } => self.nb_pi_level(fuel - 1, depth, ty)?,
            Value::Rigid { head, spine } => {
                match head {
                    RigidHead::Const(_, n, ls) => match self.nb_const_level(fuel - 1, n, ls)? {
                        Some(l) => {
                            proof {
                                assert(g.univ(t, self.ctx.st.l(l)));
                            }
                            Some(l)
                        },
                        None => self.nb_sort_of(fuel - 1, depth, ty)?,
                    },
                    _ => self.nb_sort_of(fuel - 1, depth, ty)?,
                }
            },
            Value::Unfold { name, levels, .. } => {
                match self.nb_sort_of(fuel - 1, depth, ty)? {
                    Some(l) => Some(l),
                    None => self.nb_const_level(fuel - 1, name, levels)?,
                }
            },
            _ => None,
        };
        proof {
            if r is Some {
                Sig::u_red(g, t0, t, self.ctx.st.l(r->0));
            }
        }
        if r.is_none() {
            self.unsort(Ghost(t0));
        }
        Ok(r)
    }

    /// The universe of a function type.
    fn nb_pi_level(&mut self, fuel: u32, depth: u32, ty: ValId) -> (r: Result<Option<LevelPtr>, TcError>)
        requires
            old(self).wf(),
            old(self).v_ok(ty),
            old(self).v(ty).bvb() <= depth,
        ensures
            final(self).wf(),
            final(self).ext(old(self)),
            r matches Ok(Some(l)) ==> final(self).ctx.st.l_ok(l) && final(self).g().univ(
                old(self).v(ty),
                final(self).ctx.st.l(l),
            ),
            r matches Err(err) ==> final(self).accounts(old(self), err),
        decreases fuel,
    {
        if fuel == 0 {
            return Err(self.out_of_depth(0));
        }
        let ghost g = self.g();
        if depth == u32::MAX {
            return Err(self.out_of_depth(0));
        }
        match self.get(ty) {
            Value::Pi { binder_name, binder_style, domain, env, body } => {
                let ghost a = self.v(domain);
                let ghost b = self.ctx.st.e(body).inst(1, self.ctx.w@.n(env));
                let l_dom = match self.nb_type_level(fuel - 1, depth, domain)? {
                    Some(l) => l,
                    None => {
                        return Ok(None);
                    },
                };
                let dom = self.nb_force(fuel - 1, depth, domain)?;
                let fresh = self.nb_fresh(depth, dom)?;
                let ghost x = self.v(fresh);
                let cod = self.nb_open(fuel - 1, depth + 1, ty, fresh)?;
                let ghost c1 = self.v(cod);
                let cod = self.nb_whnf(fuel - 1, depth + 1, cod)?;
                let ghost c2 = self.v(cod);
                let l_cod = match self.nb_type_level(fuel - 1, depth + 1, cod)? {
                    Some(l) => l,
                    None => {
                        return Ok(None);
                    },
                };
                let l = self.imax(l_dom, l_cod)?;
                let l = self.simplify(l)?;
                proof {
                    Sig::r_trans(g, b.inst(0, seq![x]), c1, c2);
                    Sig::u_pi(
                        g,
                        binder_name,
                        binder_style,
                        a,
                        b,
                        x,
                        c2,
                        self.ctx.st.l(l_dom),
                        self.ctx.st.l(l_cod),
                        self.ctx.st.l(l),
                    );
                }
                Ok(Some(l))
            },
            _ => Ok(None),
        }
    }

    /// The conversion variable of level `depth` and type `dom`.
    pub fn nb_fresh(&mut self, depth: u32, dom: ValId) -> (r: Result<ValId, TcError>)
        requires
            old(self).wf(),
            old(self).v_ok(dom),
        ensures
            final(self).wf(),
            final(self).ext(old(self)),
            r matches Ok(x) ==> final(self).v_ok(x) && final(self).v(x) == Term::bv(depth as nat, old(self).v(dom))
                && final(self).v(x).nl() == 0,
            r matches Err(err) ==> err == TcError::Full,
            r matches Err(err) ==> !(err is Reject) && final(self).ran_out(old(self)),
    {
        proof {
            self.lemma_base();
            self.lemma_vtime(dom);
        }
        self.mk_rigid(RigidHead::BVar(depth, dom), SPINE_EMPTY)
    }

    /// The universe read off the type of a type.
    fn nb_sort_of(&mut self, fuel: u32, depth: u32, ty: ValId) -> (r: Result<Option<LevelPtr>, TcError>)
        requires
            old(self).wf(),
            old(self).v_ok(ty),
            old(self).v(ty).bvb() <= depth,
        ensures
            final(self).wf(),
            final(self).ext(old(self)),
            r matches Ok(Some(l)) ==> final(self).ctx.st.l_ok(l) && final(self).g().univ(
                old(self).v(ty),
                final(self).ctx.st.l(l),
            ),
            r matches Err(err) ==> final(self).accounts(old(self), err),
        decreases fuel,
    {
        if fuel == 0 {
            return Err(self.out_of_depth(0));
        }
        let ghost g = self.g();
        let ghost u = self.v(ty);
        let t = self.nb_type(fuel - 1, depth, ty)?;
        let ghost t1 = self.v(t);
        let t = self.nb_whnf(fuel - 1, depth, t)?;
        let ghost t2 = self.v(t);
        match self.get(t) {
            Value::Sort { level } => {
                let ghost l0 = self.ctx.st.l(level);
                let l = self.simplify(level)?;
                proof {
                    let l1 = self.ctx.st.l(l);
                    Sig::r_level(g, l0, l1);
                    Sig::r_trans(g, t1, t2, Term::Sort(l1));
                    Sig::u_type(g, u, t1, l1);
                }
                Ok(Some(l))
            },
            _ => Ok(None),
        }
    }

    /// The universe a constant's type ends in, walking off its telescope.
    fn nb_const_level(&mut self, fuel: u32, name: NamePtr, levels: LevelsPtr) -> (r: Result<Option<LevelPtr>, TcError>)
        requires
            old(self).wf(),
            old(self).ctx.st.ls_ok(levels),
        ensures
            final(self).wf(),
            final(self).ext(old(self)),
            r matches Ok(Some(l)) ==> final(self).ctx.st.l_ok(l) && final(self).ctx.w@.const_level(
                name,
                old(self).ctx.st.ls(levels),
                final(self).ctx.st.l(l),
            ),
            r matches Err(err) ==> final(self).accounts(old(self), err),
        decreases fuel,
    {
        if fuel == 0 {
            return Err(self.out_of_depth(0));
        }
        match self.recall_const_lvl(name, levels) {
            Some(l) => {
                return Ok(l);
            },
            None => {},
        }
        let r = self.nb_const_level_go(fuel - 1, name, levels)?;
        self.note_const_lvl(name, levels, r);
        Ok(r)
    }

    fn nb_const_level_go(&mut self, fuel: u32, name: NamePtr, levels: LevelsPtr)
        -> (r: Result<Option<LevelPtr>, TcError>)
        requires
            old(self).wf(),
            old(self).ctx.st.ls_ok(levels),
        ensures
            final(self).wf(),
            final(self).ext(old(self)),
            r matches Ok(Some(l)) ==> final(self).ctx.st.l_ok(l) && final(self).ctx.w@.const_level(
                name,
                old(self).ctx.st.ls(levels),
                final(self).ctx.st.l(l),
            ),
            r matches Err(err) ==> final(self).accounts(old(self), err),
        decreases fuel,
    {
        if fuel == 0 {
            return Err(self.out_of_depth(0));
        }
        let ghost o = *self;
        let ghost g = self.g();
        let ghost ls = self.ctx.st.ls(levels);
        let ghost c = Term::Const(name, ls);
        let mut cur = self.nb_const_type(fuel - 1, name, levels)?;
        let mut d: u32 = 0;
        let ghost mut xs: Seq<Term> = Seq::empty();
        loop
            invariant
                o == *old(self),
                o.wf(),
                self.wf(),
                self.ext(&o),
                g == o.g(),
                fuel > 0,
                c == Term::Const(name, ls),
                ls == o.ctx.st.ls(levels),
                self.v_ok(cur),
                self.v(cur).bvb() <= d,
                g.ty(false, Term::apps(c, xs), self.v(cur)),
            decreases u32::MAX - d,
        {
            if d == u32::MAX {
                return Err(self.out_of_depth(0));
            }
            let ghost ft = self.v(cur);
            let cur_f = self.nb_whnf(fuel - 1, d, cur)?;
            let ghost fw = self.v(cur_f);
            match self.get(cur_f) {
                Value::Pi { domain, .. } => {
                    let dom = self.nb_force(fuel - 1, d, domain)?;
                    let fresh = self.nb_fresh(d, dom)?;
                    let ghost x = self.v(fresh);
                    cur = self.nb_open(fuel - 1, d + 1, cur_f, fresh)?;
                    proof {
                        if let Term::Pi(pn, ps, pa, pb) = fw {
                            Sig::t_app(g, false, Term::apps(c, xs), ft, pn, ps, *pa, *pb, x, x);
                            Sig::t_red(g, false, Term::app(Term::apps(c, xs), x), pb.inst(0, seq![x]), self.v(cur));
                        }
                        Term::lemma_apps_push(c, xs, x);
                        xs = xs.push(x);
                    }
                    d += 1;
                },
                Value::Sort { level } => {
                    let ghost l0 = self.ctx.st.l(level);
                    let l = self.simplify(level)?;
                    proof {
                        let l1 = self.ctx.st.l(l);
                        Sig::r_level(g, l0, l1);
                        Sig::r_trans(g, ft, fw, Term::Sort(l1));
                        assert forall|es: Seq<ElimT>| #[trigger] g.univ(ElimT::spine(Term::Const(name, ls), es),
                            l1) by {
                            Sig::u_const(g, name, ls, xs, ft, l1, es);
                        }
                    }
                    return Ok(Some(l));
                },
                _ => {
                    return Ok(None);
                },
            }
        }
    }
}

} // verus!
