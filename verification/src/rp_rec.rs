//! Recursors and quotients on applications of closures.
use crate::closure::{Clo, Entry, ENV_NIL};
use crate::env::{Declar, RecursorData};
use crate::error::TcError;
use crate::expr::Expr;
use crate::level::{LevelsPtr, NamePtr};
use crate::rapier::RClo;
use crate::tc::{InferFlag, TypeChecker};
use crate::term::Term;
use crate::theory::Sig;
use vstd::prelude::*;

verus! {

broadcast use {crate::tc::group_tc, crate::rp_core::group_rc};

impl<'x> TypeChecker<'x> {
    /// What the major premise `m` reduces to has no `let` and no applied lambda
    /// at its head, and what that is as a constructor application, if it is one,
    /// is none that a rule of the recursor fires on.
    pub open spec fn no_rule(&self, rec: &RecursorData, m: Term) -> bool {
        exists|w: Term, x: RClo| #[trigger]
            self.g().red(w, self.rc(x)) && self.g().red(m, w) && w.headed() && self.rc_ok(x) && !(
            self.ctx.st.e(x.head.e) matches Term::Const(c, _) && rec.fires(c, x.spine@.len()))
    }

    /// What `m` reduces to has no `let` and no applied lambda at its head, and
    /// is no class of a quotient.
    pub open spec fn no_class(&self, m: Term) -> bool {
        exists|x: RClo| #[trigger]
            self.rc_ok(x) && self.g().red(m, self.rc(x)) && self.rc(x).headed() && !(self.ctx.st.e(x.head.e)
                matches Term::Const(c, _) && self.ctx.names@.quot_mk == Some(c) && x.spine@.len() == 3)
    }

    /// Why the constant `h`, applied to `xs`, does not reduce: it is neither a
    /// recursor nor a quotient primitive, its levels or its arguments are too
    /// few, or what it scrutinizes has no rule.
    pub open spec fn recursor_stuck(&self, h: Term, xs: Seq<Term>) -> bool {
        match h {
            Term::Const(n, ls) => match self.env.find(n) {
                Some(Declar::Quot { .. }) => match self.g().quot_pos(n) {
                    Some(p) => p < xs.len() ==> self.no_class(xs[p as int]),
                    None => true,
                },
                Some(Declar::Recursor(rec)) => ls.len() == self.ctx.st.ls(rec.info.uparams).len() && rec.major_nat()
                    < xs.len() ==> self.no_rule(&rec, xs[rec.major_nat() as int]),
                _ => true,
            },
            _ => true,
        }
    }

    /// The reduct of a recursor or a quotient operation applied to the
    /// closures of `rsp`, the first one last.  With `cheap_rec`, what is
    /// scrutinized is reduced without unfolding only, and the constructor
    /// conversions that infer types are skipped.
    pub fn rp_reduce_recursor(&mut self, fuel: u32, head: Clo, rsp: &Vec<Clo>, cheap_rec: bool, cheap_proj: bool)
        -> (r: Result<
        Option<RClo>,
        TcError,
    >)
        requires
            old(self).wf(),
            old(self).plain_clo(head),
            old(self).cs_ok(rsp@),
        ensures
            final(self).wf(),
            final(self).ext(old(self)),
            r matches Ok(Some(x))
                ==> final(self).rc_ok(x) && final(self).g().red(old(self).rt(head, rsp@), final(self).rc(x)),
            fuel > 0 && !(old(self).ctx.st.e(head.e) matches Term::Const(n, _) && (old(self).env.find(n) matches Some(d)
                && (d is Quot || d is Recursor))) ==> (r matches Ok(x) && x is None),
            r matches Ok(x) ==> (x is None ==> final(self).recursor_stuck(
                old(self).ctx.st.e(head.e),
                old(self).cs(rsp@).reverse(),
            )),
            r matches Err(err) ==> final(self).accounts(old(self), err),
        decreases fuel,
    {
        if fuel == 0 {
            return Err(self.out_of_depth(0));
        }
        let (fname, ls) = match self.read_expr(head.e) {
            Expr::Const { name, levels } => (name, levels),
            _ => {
                return Ok(None);
            },
        };
        let args = self.rp_turn(head, rsp).spine;
        proof {
            self.lemma_env();
            self.lemma_base();
        }
        let env = self.env;
        match env.get_declar(fname) {
            Some(Declar::Quot { .. }) => self.rp_reduce_quot(fuel - 1, fname, ls, &args, cheap_rec, cheap_proj),
            Some(Declar::Recursor(rec)) => {
                if self.ctx.st.levels_len(rec.info.uparams) != self.ctx.st.levels_len(ls)
                    || rec.major_idx() >= args.len() {
                    return Ok(None);
                }
                self.rp_reduce_rec(fuel - 1, fname, rec, ls, &args, cheap_rec, cheap_proj)
            },
            _ => Ok(None),
        }
    }

    /// What is scrutinized, reduced.
    fn rp_major(&mut self, fuel: u32, c: Clo, cheap_rec: bool, cheap_proj: bool) -> (r: Result<RClo, TcError>)
        requires
            old(self).wf(),
            old(self).plain_clo(c),
        ensures
            final(self).wf(),
            final(self).ext(old(self)),
            r matches Ok(x) ==> final(self).rc_ok(x) && final(self).g().red(old(self).ctx.clo(c), final(self).rc(x)),
            r matches Ok(x) ==> final(self).rc(x).headed(),
            r matches Err(err) ==> final(self).accounts(old(self), err),
        decreases fuel,
    {
        if fuel == 0 {
            return Err(self.out_of_depth(0));
        }
        if cheap_rec {
            let s0 = self.rp_mk_sclo(c);
            self.rp_whnf_core_ext(fuel - 1, &s0, cheap_rec, cheap_proj)
        } else {
            self.rp_whnf_clo(fuel - 1, c)
        }
    }

    /// `Quot.lift` and `Quot.ind` on `Quot.mk`.
    fn rp_reduce_quot(&mut self, fuel: u32, fname: NamePtr, levels: LevelsPtr, args: &Vec<Clo>, cheap_rec: bool,
        cheap_proj: bool) -> (r: Result<
        Option<RClo>,
        TcError,
    >)
        requires
            old(self).wf(),
            old(self).ctx.st.ls_ok(levels),
            old(self).cs_ok(args@),
        ensures
            final(self).wf(),
            final(self).ext(old(self)),
            r matches Ok(Some(x))
                ==> final(self).rc_ok(x)
                && final(self).g().red(Term::apps(Term::Const(fname, old(self).ctx.st.ls(levels)),
                old(self).cs(args@)), final(self).rc(x)),
            r matches Ok(x) ==> (x is None && (old(self).g().quot_pos(fname) matches Some(p) && p < args@.len())
                ==> final(self).no_class(old(self).cs(args@)[old(self).g().quot_pos(fname)->0 as int])),
            r matches Err(err) ==> final(self).accounts(old(self), err),
        decreases fuel,
    {
        if fuel == 0 {
            return Err(self.out_of_depth(0));
        }
        let ghost g = self.g();
        let ghost ls = self.ctx.st.ls(levels);
        let ghost xs = self.cs(args@);
        proof {
            self.lemma_base();
        }
        let pos: usize = if self.is_name(self.ctx.names.get().quot_lift, fname) {
            5
        } else if self.is_name(self.ctx.names.get().quot_ind, fname) {
            4
        } else {
            return Ok(None);
        };
        if pos >= args.len() {
            return Ok(None);
        }
        proof {
            self.lemma_cs(args@, pos as int);
            self.lemma_cs(args@, 3);
        }
        let mk = self.rp_major(fuel - 1, args[pos], cheap_rec, cheap_proj)?;
        let (mk_name, mk_levels) = match self.read_expr(mk.head.e) {
            Expr::Const { name, levels } => (name, levels),
            _ => {
                return Ok(None);
            },
        };
        proof {
            self.lemma_base();
        }
        if !self.is_name(self.ctx.names.get().quot_mk, mk_name) || mk.spine.len() != 3 {
            return Ok(None);
        }
        let ghost ms = self.cs(mk.spine@);
        let m = self.rp_mk_sclo(args[3]);
        let RClo { head, spine } = m;
        let mut spine = spine;
        let ghost m0 = self.cs(spine@);
        let ghost h = self.ctx.clo(head);
        let ghost rest = xs.subrange(pos + 1, xs.len() as int);
        proof {
            Sig::r_quot(g, fname, ls, xs, mk_name, self.ctx.st.ls(mk_levels), ms);
            assert(xs.skip(pos + 1) =~= rest);
            self.lemma_cs(mk.spine@, 2);
            self.lemma_cs_push(spine@, mk.spine@[2]);
        }
        spine.push(mk.spine[2]);
        let ghost sp1 = self.cs(spine@);
        self.rp_extend(&mut spine, args, pos + 1, args.len());
        proof {
            assert(self.cs(args@) == xs);
            Term::lemma_apps_push(h, m0, ms[2]);
            Term::lemma_apps_append(h, sp1, rest);
        }
        Ok(Some(RClo { head, spine }))
    }

    /// A recursor on a constructor application.
    fn rp_reduce_rec(
        &mut self,
        fuel: u32,
        fname: NamePtr,
        rec: &RecursorData,
        levels: LevelsPtr,
        args: &Vec<Clo>,
        cheap_rec: bool,
        cheap_proj: bool,
    ) -> (r: Result<Option<RClo>, TcError>)
        requires
            old(self).wf(),
            old(self).env.find(fname) == Some(Declar::Recursor(*rec)),
            old(self).ctx.st.ls_ok(levels),
            old(self).ctx.st.ls(levels).len() == old(self).ctx.st.ls(rec.info.uparams).len(),
            old(self).cs_ok(args@),
            rec.major_nat() < args@.len(),
        ensures
            final(self).wf(),
            final(self).ext(old(self)),
            r matches Ok(Some(x))
                ==> final(self).rc_ok(x)
                && final(self).g().red(Term::apps(Term::Const(fname, old(self).ctx.st.ls(levels)),
                old(self).cs(args@)), final(self).rc(x)),
            r matches Ok(x) ==> (x is None ==> final(self).no_rule(
                rec,
                old(self).cs(args@)[rec.major_nat() as int],
            )),
            r matches Err(err) ==> final(self).accounts(old(self), err),
        decreases fuel,
    {
        if fuel == 0 {
            return Err(self.out_of_depth(0));
        }
        let ghost g = self.g();
        let major_idx: usize = rec.major_idx();
        let ghost m = self.cs(args@)[major_idx as int];
        proof {
            self.lemma_env();
            self.lemma_base();
            self.lemma_cs(args@, major_idx as int);
        }
        let major_induct = self.ctx.st.get_major_induct(rec);
        let mut mj = self.rp_major(fuel - 1, args[major_idx], cheap_rec, cheap_proj)?;
        let ghost w = self.rc(mj);
        proof {
            Sig::steps_refl(g, w);
        }
        if rec.is_k && !cheap_rec {
            if let Some(mi) = major_induct {
                let ghost m1 = self.rc(mj);
                mj = self.rp_to_ctor_when_k(fuel - 1, fname, rec, mi, mj)?;
                proof {
                    Sig::r_trans(g, m, m1, self.rc(mj));
                    Sig::r_trans(g, w, m1, self.rc(mj));
                }
            }
        }
        let ghost m2 = self.rc(mj);
        mj = self.rp_lit_to_ctor(fuel - 1, mj)?;
        proof {
            Sig::r_trans(g, m, m2, self.rc(mj));
            Sig::r_trans(g, w, m2, self.rc(mj));
        }
        if !cheap_rec {
            if let Some(mi) = major_induct {
                let ghost m3 = self.rc(mj);
                mj = self.rp_to_ctor_when_struct(fuel - 1, mi, mj)?;
                proof {
                    Sig::r_trans(g, m, m3, self.rc(mj));
                    Sig::r_trans(g, w, m3, self.rc(mj));
                }
            }
        }
        let r = self.rp_fire(fname, rec, levels, args, &mj)?;
        proof {
            assert(g.red(w, self.rc(mj)));
        }
        Ok(r)
    }

    /// The rule of a recursor for the constructor at hand.
    fn rp_fire(&mut self, fname: NamePtr, rec: &RecursorData, levels: LevelsPtr, args: &Vec<Clo>, mj: &RClo)
        -> (r: Result<
        Option<RClo>,
        TcError,
    >)
        requires
            old(self).wf(),
            old(self).env.find(fname) == Some(Declar::Recursor(*rec)),
            old(self).ctx.st.ls_ok(levels),
            old(self).ctx.st.ls(levels).len() == old(self).ctx.st.ls(rec.info.uparams).len(),
            old(self).cs_ok(args@),
            rec.major_nat() < args@.len(),
            old(self).rc_ok(*mj),
            old(self).g().red(old(self).cs(args@)[rec.major_nat() as int], old(self).rc(*mj)),
        ensures
            final(self).wf(),
            final(self).ext(old(self)),
            r matches Ok(Some(x))
                ==> final(self).rc_ok(x)
                && final(self).g().red(Term::apps(Term::Const(fname, old(self).ctx.st.ls(levels)),
                old(self).cs(args@)), final(self).rc(x)),
            match r {
                Ok(x) => (x is Some) == (old(self).ctx.st.e(mj.head.e) matches Term::Const(c, _)
                    && rec.fires(c, mj.spine@.len())),
                Err(e) => e == TcError::Full,
            },
            r matches Err(err) ==> !(err is Reject) && final(self).ran_out(old(self)),
    {
        let ghost g = self.g();
        let ghost ls = self.ctx.st.ls(levels);
        let ghost xs = self.cs(args@);
        let ghost cs = self.cs(mj.spine@);
        proof {
            self.lemma_env();
            self.lemma_base();
        }
        let (ctor, ctor_levels) = match self.read_expr(mj.head.e) {
            Expr::Const { name, levels } => (name, levels),
            _ => {
                return Ok(None);
            },
        };
        let ri: usize = match rec.rule_for(ctor) {
            Some(i) => i,
            None => {
                return Ok(None);
            },
        };
        let rule = rec.rec_rules[ri];
        let nfields: usize = rule.ctor_telescope_size_wo_params as usize;
        if nfields > mj.spine.len() {
            return Ok(None);
        }
        let first: usize = mj.spine.len() - nfields;
        let ghost gr = g.rec(fname);
        let ghost val = self.ctx.st.e(rule.val).tsubst(self.ctx.st.ls(rec.info.uparams), ls);
        let ghost p1 = xs.subrange(0, gr.prefix() as int);
        let ghost p2 = cs.subrange(first as int, cs.len() as int);
        let ghost p3 = xs.subrange(gr.major() as int + 1, xs.len() as int);
        proof {
            assert(g.decls[fname] == self.env.find(fname)->0.g(&self.ctx.st));
            Sig::r_iota(g, fname, ls, xs, ri as int, self.ctx.st.ls(ctor_levels), cs);
            assert(p1 =~= xs.take(gr.prefix() as int));
            assert(p2 =~= cs.skip(cs.len() - nfields));
            assert(p3 =~= xs.skip(gr.major() as int + 1));
            Term::lemma_tsubst_vars(self.ctx.st.e(rule.val), self.ctx.st.ls(rec.info.uparams), ls);
        }
        let rhs = self.subst_expr_levels(rule.val, rec.info.uparams, levels)?;
        proof {
            self.lemma_clo_of(rhs);
        }
        let m = self.rp_mk_sclo(Clo { e: rhs, env: ENV_NIL });
        let RClo { head, spine } = m;
        let mut spine = spine;
        let ghost h = self.ctx.clo(head);
        let ghost q0 = self.cs(spine@);
        self.rp_extend(&mut spine, args, 0, rec.prefix());
        self.rp_extend(&mut spine, &mj.spine, first, mj.spine.len());
        self.rp_extend(&mut spine, args, rec.major_idx() + 1, args.len());
        proof {
            assert(self.cs(spine@) == ((q0 + p1) + p2) + p3);
            assert(((q0 + p1) + p2) + p3 =~= q0 + (p1 + p2 + p3));
            Term::lemma_apps_append(h, q0, p1 + p2 + p3);
        }
        Ok(Some(RClo { head, spine }))
    }

    /// A proof of an inductive proposition with a K recursor, as its
    /// constructor.
    fn rp_to_ctor_when_k(&mut self, fuel: u32, rec_name: NamePtr, rec: &RecursorData, major_induct: NamePtr, mj: RClo)
        -> (r: Result<
        RClo,
        TcError,
    >)
        requires
            old(self).wf(),
            old(self).env.find(rec_name) == Some(Declar::Recursor(*rec)),
            rec.is_k,
            rec.g(&old(self).ctx.st).major_ind == Some(major_induct),
            old(self).rc_ok(mj),
        ensures
            final(self).wf(),
            final(self).ext(old(self)),
            r matches Ok(x) ==> final(self).rc_ok(x) && final(self).g().red(old(self).rc(mj), final(self).rc(x)),
            r matches Err(err) ==> final(self).accounts(old(self), err),
        decreases fuel,
    {
        if fuel == 0 {
            return Err(self.out_of_depth(0));
        }
        let ghost g = self.g();
        let ghost m = self.rc(mj);
        let ghost st = self.ctx.st;
        proof {
            Sig::steps_refl(g, m);
            self.lemma_env();
            assert(g.decls[rec_name] == self.env.find(rec_name)->0.g(&self.ctx.st));
        }
        let ty = self.rp_infer_s(fuel - 1, &mj, InferFlag::InferOnly)?;
        let ghost mt = self.ctx.st.e(ty);
        proof {
            self.lemma_clo_of(ty);
        }
        let app_type = self.rp_whnf_clo(fuel - 1, Clo { e: ty, env: ENV_NIL })?;
        let (i, ils) = match self.read_expr(app_type.head.e) {
            Expr::Const { name, levels } => (name, levels),
            _ => {
                return Ok(mj);
            },
        };
        if i != major_induct {
            return Ok(mj);
        }
        proof {
            self.lemma_env();
        }
        let env = self.env;
        let ctor: NamePtr = match env.get_inductive(i) {
            Some(ind) => {
                if ind.all_ctor_names.len() == 0 {
                    return Ok(mj);
                }
                ind.all_ctor_names[0]
            },
            None => {
                return Ok(mj);
            },
        };
        let ghost ls = self.ctx.st.ls(ils);
        let ghost xs = self.cs(app_type.spine@);
        let take: usize = if rec.num_params as usize <= app_type.spine.len() {
            rec.num_params as usize
        } else {
            app_type.spine.len()
        };
        proof {
            assert(g.decls[i] == self.env.find(i)->0.g(&self.ctx.st));
        }
        let new_ctor = self.rp_ctor_app(ctor, ils, &app_type.spine, take)?;
        let ghost nc = self.rc(new_ctor);
        let new_ty = self.rp_infer_s(fuel - 1, &new_ctor, InferFlag::InferOnly)?;
        let ghost nt = self.ctx.st.e(new_ty);
        proof {
            self.lemma_clo_of(new_ty);
        }
        let app_clo = self.rp_sclo_as_clo(&app_type)?;
        if self.rp_is_def_eq(fuel - 1, app_clo, Clo { e: new_ty, env: ENV_NIL })? {
            proof {
                assert(xs.take(take as int) =~= xs.subrange(0, take as int));
                Sig::r_k(g, m, mt, rec_name, i, ls, xs, take as nat, nt);
            }
            return Ok(new_ctor);
        }
        Ok(mj)
    }

    /// A constructor applied to the first `n` closures of a list.
    fn rp_ctor_app(&mut self, ctor: NamePtr, levels: LevelsPtr, args: &Vec<Clo>, n: usize) -> (r: Result<RClo, TcError>)
        requires
            old(self).wf(),
            old(self).ctx.st.ls_ok(levels),
            old(self).cs_ok(args@),
            n <= args@.len(),
        ensures
            final(self).wf(),
            final(self).ext(old(self)),
            r matches Ok(s) ==> final(self).rc_ok(s) && final(self).rc(s) == Term::apps(
                Term::Const(ctor, old(self).ctx.st.ls(levels)),
                old(self).cs(args@).subrange(0, n as int),
            ) && final(self).cs(s.spine@) == old(self).cs(args@).subrange(0, n as int)
                && final(self).ctx.clo(s.head) == Term::Const(
                ctor,
                old(self).ctx.st.ls(levels),
            ),
            r matches Err(err) ==> err == TcError::Full,
            r matches Err(err) ==> !(err is Reject) && final(self).ran_out(old(self)),
    {
        let e = self.mk(Expr::Const { name: ctor, levels })?;
        proof {
            self.lemma_clo_of(e);
        }
        let mut spine: Vec<Clo> = Vec::new();
        proof {
            assert(self.cs(spine@) =~= Seq::empty());
        }
        self.rp_extend(&mut spine, args, 0, n);
        proof {
            assert(self.cs(spine@) =~= self.cs(args@).subrange(0, n as int));
        }
        Ok(RClo { head: Clo { e, env: ENV_NIL }, spine })
    }

    /// A value of a structure type, as its constructor applied to its
    /// projections.
    fn rp_to_ctor_when_struct(&mut self, fuel: u32, induct: NamePtr, mj: RClo) -> (r: Result<RClo, TcError>)
        requires
            old(self).wf(),
            old(self).rc_ok(mj),
        ensures
            final(self).wf(),
            final(self).ext(old(self)),
            r matches Ok(x) ==> final(self).rc_ok(x) && final(self).g().red(old(self).rc(mj), final(self).rc(x)),
            r matches Err(err) ==> final(self).accounts(old(self), err),
        decreases fuel,
    {
        if fuel == 0 {
            return Err(self.out_of_depth(0));
        }
        let ghost g = self.g();
        let ghost m = self.rc(mj);
        proof {
            Sig::steps_refl(g, m);
            self.lemma_env();
        }
        let env = self.env;
        if !env.can_be_struct(induct) {
            return Ok(mj);
        }
        match self.read_expr(mj.head.e) {
            Expr::Const { name, .. } => {
                if env.get_constructor(name).is_some() {
                    return Ok(mj);
                }
            },
            _ => {},
        }
        let ty = self.rp_infer_s(fuel - 1, &mj, InferFlag::InferOnly)?;
        let ghost mt = self.ctx.st.e(ty);
        proof {
            self.lemma_clo_of(ty);
        }
        let e_type = self.rp_whnf_clo(fuel - 1, Clo { e: ty, env: ENV_NIL })?;
        let (i, ils) = match self.read_expr(e_type.head.e) {
            Expr::Const { name, levels } => (name, levels),
            _ => {
                return Ok(mj);
            },
        };
        if i != induct {
            return Ok(mj);
        }
        // not for propositions
        let tyty = self.rp_infer_s(fuel - 1, &e_type, InferFlag::InferOnly)?;
        proof {
            self.lemma_clo_of(tyty);
        }
        let tyty_w = self.rp_whnf_clo(fuel - 1, Clo { e: tyty, env: ENV_NIL })?;
        match self.read_expr(tyty_w.head.e) {
            Expr::Sort { level } => {
                if tyty_w.spine.len() == 0 && self.is_zero(level)? {
                    return Ok(mj);
                }
            },
            _ => {},
        }
        proof {
            self.lemma_env();
        }
        let ctor: NamePtr = match env.get_inductive(i) {
            Some(ind) => {
                if ind.all_ctor_names.len() == 0 {
                    return Ok(mj);
                }
                ind.all_ctor_names[0]
            },
            None => {
                return Ok(mj);
            },
        };
        let (num_params, num_fields): (usize, u16) = match env.get_constructor(ctor) {
            Some(cd) => (cd.num_params as usize, cd.num_fields),
            None => {
                return Ok(mj);
            },
        };
        let ghost ls = self.ctx.st.ls(ils);
        let ghost xs = self.cs(e_type.spine@);
        let take: usize = if num_params <= e_type.spine.len() {
            num_params
        } else {
            e_type.spine.len()
        };
        proof {
            assert(g.decls[i] == self.env.find(i)->0.g(&self.ctx.st));
            assert(g.decls[ctor] == self.env.find(ctor)->0.g(&self.ctx.st));
            Sig::r_struct(g, m, mt, i, ls, xs, take as nat);
        }
        let c = self.rp_ctor_app(ctor, ils, &e_type.spine, take)?;
        let mj_clo = self.rp_sclo_as_clo(&mj)?;
        let r = self.rp_add_projs(c, i, mj_clo, num_fields)?;
        proof {
            assert(xs.take(take as int) =~= xs.subrange(0, take as int));
        }
        Ok(r)
    }

    /// An application to the first `n` projections of a closure.
    fn rp_add_projs(&mut self, c: RClo, i: NamePtr, m: Clo, n: u16) -> (r: Result<RClo, TcError>)
        requires
            old(self).wf(),
            old(self).rc_ok(c),
            old(self).plain_clo(m),
        ensures
            final(self).wf(),
            final(self).ext(old(self)),
            r matches Ok(s) ==> final(self).rc_ok(s) && final(self).rc(s) == Term::apps(
                old(self).ctx.clo(c.head),
                old(self).cs(c.spine@) + Term::projs(i, old(self).ctx.clo(m), n as nat),
            ),
            r matches Err(err) ==> err == TcError::Full,
            r matches Err(err) ==> !(err is Reject) && final(self).ran_out(old(self)),
    {
        let ghost o = *self;
        let ghost t = self.ctx.clo(m);
        let ghost xs = self.cs(c.spine@);
        let RClo { head, spine } = c;
        let mut spine = spine;
        let mut fi: u16 = 0;
        proof {
            assert(xs + Term::projs(i, t, 0) =~= xs);
        }
        while fi < n
            invariant
                o == *old(self),
                o.wf(),
                o.rc_ok(c),
                o.plain_clo(m),
                self.wf(),
                self.ext(&o),
                t == o.ctx.clo(m),
                xs == o.cs(c.spine@),
                head == c.head,
                fi <= n,
                self.cs_ok(spine@),
                self.cs(spine@) == xs + Term::projs(i, t, fi as nat),
            decreases n - fi,
        {
            let p = self.rp_proj_clo(i, fi as u32, m)?;
            proof {
                self.lemma_cs_push(spine@, p);
                assert((xs + Term::projs(i, t, fi as nat)).push(self.ctx.clo(p)) =~= xs + Term::projs(i, t,
                    (fi + 1) as nat));
            }
            spine.push(p);
            fi += 1;
        }
        Ok(RClo { head, spine })
    }

    /// The projection of a closure.
    pub fn rp_proj_clo(&mut self, i: NamePtr, idx: u32, m: Clo) -> (r: Result<Clo, TcError>)
        requires
            old(self).wf(),
            old(self).plain_clo(m),
        ensures
            final(self).wf(),
            final(self).ext(old(self)),
            r matches Ok(c) ==> final(self).plain_clo(c) && final(self).ctx.clo(c) == Term::proj(
                i,
                idx as nat,
                old(self).ctx.clo(m),
            ),
            r matches Err(err) ==> err == TcError::Full,
            r matches Err(err) ==> !(err is Reject) && final(self).ran_out(old(self)),
    {
        let ghost t = self.ctx.clo(m);
        let bv = self.mk(Expr::Var { dbj_idx: 0 })?;
        let proj = self.mk(Expr::Proj { ty_name: i, idx, structure: bv })?;
        proof {
            self.lemma_base();
            self.lemma_ntime(m.env);
        }
        let env = self.push_entry(ENV_NIL, Entry::Val(m.e, m.env))?;
        proof {
            assert(self.ctx.w@.n(env) =~= seq![t]);
            assert(self.ctx.st.e(bv).nl() == 1);
            assert(self.ctx.st.e(bv).inst(0, seq![t]) == t);
            assert(self.ctx.st.e(proj).inst(0, seq![t]) == Term::proj(i, idx as nat, t));
        }
        Ok(Clo { e: proj, env })
    }

    /// A closure denoting the same term as `s`: head and spine go through a
    /// fresh environment of variables.
    pub fn rp_sclo_as_clo(&mut self, s: &RClo) -> (r: Result<Clo, TcError>)
        requires
            old(self).wf(),
            old(self).rc_ok(*s),
        ensures
            final(self).wf(),
            final(self).ext(old(self)),
            r matches Ok(c) ==> final(self).plain_clo(c) && final(self).ctx.clo(c) == old(self).rc(*s),
            r matches Err(err) ==> err == TcError::Full,
            r matches Err(err) ==> !(err is Reject) && final(self).ran_out(old(self)),
    {
        let n: usize = s.spine.len();
        if n == 0 {
            proof {
                assert(self.cs(s.spine@) =~= Seq::empty());
            }
            return Ok(s.head);
        }
        if n >= 0xffff {
            return Err(self.over_limit());
        }
        let ghost o = *self;
        let ghost h = self.ctx.clo(s.head);
        let ghost xs = self.cs(s.spine@);
        proof {
            self.lemma_base();
            self.lemma_ntime(s.head.env);
            self.lemma_plain_clo(s.head);
        }
        let mut env = self.push_entry(ENV_NIL, Entry::Val(s.head.e, s.head.env))?;
        let mut e = self.mk(Expr::Var { dbj_idx: n as u16 })?;
        let ghost hv = self.ctx.st.e(e);
        let ghost vs = Seq::new(n as nat, |j: int| Term::Var((n - 1 - j) as nat));
        let mut i: usize = 0;
        proof {
            assert(self.ctx.w@.n(env) =~= seq![h]);
            assert(xs.take(0).reverse() + seq![h] =~= seq![h]);
            assert(vs.take(0) =~= Seq::empty());
        }
        while i < n
            invariant
                o == *old(self),
                o.wf(),
                o.rc_ok(*s),
                self.wf(),
                self.ext(&o),
                n == s.spine@.len(),
                n < 0xffff,
                xs == o.cs(s.spine@),
                i <= n,
                vs == Seq::new(n as nat, |j: int| Term::Var((n - 1 - j) as nat)),
                hv == Term::Var(n as nat),
                self.ctx.w@.n_ok(env),
                self.ctx.w@.plain(env),
                self.ctx.w@.n(env) == xs.take(i as int).reverse() + seq![h],
                self.ctx.st.e_ok(e),
                self.ctx.st.e(e) == Term::apps(hv, vs.take(i as int)),
            decreases n - i,
        {
            let arg = s.spine[i];
            proof {
                o.lemma_cs(s.spine@, i as int);
                self.lemma_ntime(arg.env);
            }
            env = self.push_entry(env, Entry::Val(arg.e, arg.env))?;
            let bv = self.mk(Expr::Var { dbj_idx: (n - 1 - i) as u16 })?;
            e = self.mk(Expr::App { fun: e, arg: bv })?;
            proof {
                assert(xs.take(i + 1).reverse() + seq![h] =~= seq![xs[i as int]] + (xs.take(i as int).reverse() + seq![h]));
                assert(vs.take(i + 1) =~= vs.take(i as int).push(vs[i as int]));
                Term::lemma_apps_push(hv, vs.take(i as int), vs[i as int]);
            }
            i += 1;
        }
        proof {
            let sub = self.ctx.w@.n(env);
            assert(vs.take(n as int) =~= vs);
            assert(xs.take(n as int) =~= xs);
            Term::lemma_inst_apps(hv, vs, 0, sub);
            assert forall|j: int| 0 <= j < n implies #[trigger] vs[j].inst(0, sub) == xs[j] && vs[j].nl() <= n + 1 by {
                assert(vs[j] == Term::Var((n - 1 - j) as nat));
                assert(sub[n - 1 - j] == xs[j]);
            }
            assert(Term::inst_seq(vs, 0, sub) =~= xs);
            assert(hv.inst(0, sub) == h) by {
                assert(sub[n as int] == h);
            }
            assert(hv.nl() == n + 1);
            Term::lemma_apps_scope(hv, vs, (n + 1) as nat);
        }
        Ok(Clo { e, env })
    }
}

} // verus!
