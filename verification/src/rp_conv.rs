//! Definitional equality on the delayed-instantiation core.
use crate::closure::{Clo, Entry, ENV_NIL};
use crate::error::{Reason, TcError};
use crate::expr::{Expr, ExprPtr};
use crate::rapier::RClo;
use crate::tc::{InferFlag, TypeChecker};
use crate::term::{Lvl, Term};
use crate::theory::Sig;
use vstd::prelude::*;

verus! {

broadcast use {crate::tc::group_tc, crate::rp_core::group_rc};

/// Unfoldings one comparison may make.
pub const RP_DELTA_FUEL: u32 = 10_000;

/// How lazy unfolding ends: decided, or with both sides irreducible.
pub enum LazyDelta {
    Decided(bool),
    Stuck(RClo, RClo),
}

impl Sig {
    /// Applications of equal heads to equal arguments are equal.
    pub proof fn eq_apps(g: Sig, f: Term, f2: Term, xs: Seq<Term>, ys: Seq<Term>)
        requires
            g.eq(f, f2),
            xs.len() == ys.len(),
            forall|i: int| 0 <= i < xs.len() ==> g.eq(#[trigger] xs[i], ys[i]),
        ensures
            g.eq(Term::apps(f, xs), Term::apps(f2, ys)),
        decreases xs.len(),
    {
        if xs.len() > 0 {
            Sig::eq_apps(g, f, f2, xs.drop_last(), ys.drop_last());
            assert(g.eq(xs[xs.len() - 1], ys[ys.len() - 1]));
            Sig::e_app(g, Term::apps(f, xs.drop_last()), xs.last(), Term::apps(f2, ys.drop_last()), ys.last());
        }
    }
}

impl<'x> TypeChecker<'x> {
    /// Arguments that differ in number, or in one that a comparison has answered
    /// no to.
    pub open spec fn args_apart(&self, xs: Seq<Term>, ys: Seq<Term>) -> bool {
        xs.len() != ys.len() || exists|i: int| 0 <= i < xs.len() && #[trigger] self.apart(xs[i], ys[i])
    }

    /// Whether two closures are the same up to binder names.
    fn rp_clo_eq(&mut self, t: Clo, s: Clo) -> (r: bool)
        requires
            old(self).wf(),
            old(self).plain_clo(t),
            old(self).plain_clo(s),
        ensures
            final(self).wf(),
            final(self).ext(old(self)),
            r ==> final(self).g().eq(old(self).ctx.clo(t), old(self).ctx.clo(s)),
            old(self).ctx.clo(t) == old(self).ctx.clo(s) ==> r,
    {
        let ghost x = self.ctx.clo(t);
        let ghost y = self.ctx.clo(s);
        let r = self.eq_mod(t.e, t.env, 0, s.e, s.env, 0);
        proof {
            if r {
                Sig::e_same(self.g(), x, y);
            }
        }
        r
    }

    /// Whether two applications are the same up to binder names.
    pub fn rp_s_quick_eq(&mut self, t: &RClo, s: &RClo) -> (r: bool)
        requires
            old(self).wf(),
            old(self).rc_ok(*t),
            old(self).rc_ok(*s),
        ensures
            final(self).wf(),
            final(self).ext(old(self)),
            r ==> final(self).g().eq(old(self).rc(*t), old(self).rc(*s)),
            old(self).ctx.clo(t.head) == old(self).ctx.clo(s.head) && old(self).cs(t.spine@) == old(self).cs(s.spine@)
                ==> r,
    {
        let ghost o = *self;
        let ghost g = self.g();
        let ghost xs = self.cs(t.spine@);
        let ghost ys = self.cs(s.spine@);
        if !self.rp_clo_eq(t.head, s.head) || t.spine.len() != s.spine.len() {
            return false;
        }
        let mut i: usize = 0;
        while i < t.spine.len()
            invariant
                o == *old(self),
                o.wf(),
                o.rc_ok(*t),
                o.rc_ok(*s),
                self.wf(),
                self.ext(&o),
                g == o.g(),
                xs == o.cs(t.spine@),
                ys == o.cs(s.spine@),
                t.spine@.len() == s.spine@.len(),
                i <= t.spine@.len(),
                forall|j: int| 0 <= j < i ==> g.eq(#[trigger] xs[j], ys[j]),
            decreases t.spine@.len() - i,
        {
            proof {
                o.lemma_cs(t.spine@, i as int);
                o.lemma_cs(s.spine@, i as int);
            }
            if !self.rp_clo_eq(t.spine[i], s.spine[i]) {
                return false;
            }
            i += 1;
        }
        proof {
            Sig::eq_apps(g, o.ctx.clo(t.head), o.ctx.clo(s.head), xs, ys);
        }
        true
    }

    /// Whether two closures are definitionally equal.
    pub fn rp_is_def_eq(&mut self, fuel: u32, t: Clo, s: Clo) -> (r: Result<bool, TcError>)
        requires
            old(self).wf(),
            old(self).plain_clo(t),
            old(self).plain_clo(s),
        ensures
            final(self).wf(),
            final(self).ext(old(self)),
            r matches Ok(true) ==> final(self).g().eq(old(self).ctx.clo(t), old(self).ctx.clo(s)),
            r matches Ok(false) ==> final(self).apart(old(self).ctx.clo(t), old(self).ctx.clo(s)),
            fuel > 0 && old(self).ctx.clo(t) == old(self).ctx.clo(s) ==> r == Ok::<bool, TcError>(true),
            r matches Err(err) ==> final(self).accounts(old(self), err),
        decreases fuel,
    {
        if fuel == 0 {
            return Err(self.out_of_depth(0));
        }
        let ghost x = self.ctx.clo(t);
        let ghost y = self.ctx.clo(s);
        if self.rp_clo_eq(t, s) {
            return Ok(true);
        }
        let tk = self.norm_clo(t);
        let sk = self.norm_clo(s);
        match self.recall_eq(tk, sk) {
            Some(b) => {
                return Ok(self.answer(b, Ghost(x), Ghost(y)));
            },
            None => {},
        }
        let ts = self.rp_mk_sclo(t);
        let ss = self.rp_mk_sclo(s);
        let r = self.rp_is_def_eq_s(fuel - 1, ts, ss)?;
        self.note_eq(tk, sk, r);
        Ok(self.answer(r, Ghost(x), Ghost(y)))
    }

    /// Whether two applications are definitionally equal.
    pub fn rp_is_def_eq_s(&mut self, fuel: u32, t: RClo, s: RClo) -> (r: Result<bool, TcError>)
        requires
            old(self).wf(),
            old(self).rc_ok(t),
            old(self).rc_ok(s),
        ensures
            final(self).wf(),
            final(self).ext(old(self)),
            r matches Ok(true) ==> final(self).g().eq(old(self).rc(t), old(self).rc(s)),
            r matches Ok(false) ==> final(self).apart(old(self).rc(t), old(self).rc(s)),
            r matches Err(err) ==> final(self).accounts(old(self), err),
        decreases fuel,
    {
        if fuel == 0 {
            return Err(self.out_of_depth(0));
        }
        let ghost g = self.g();
        let ghost x = self.rc(t);
        let ghost y = self.rc(s);
        let tn = self.rp_whnf_core_ext(fuel - 1, &t, false, false)?;
        let ghost xn = self.rc(tn);
        let sn = self.rp_whnf_core_ext(fuel - 1, &s, false, false)?;
        let ghost yn = self.rc(sn);
        let r = self.rp_is_def_eq_n(fuel - 1, tn, sn)?;
        proof {
            if r {
                Sig::e_red(g, x, xn, y, yn);
            }
        }
        Ok(self.answer(r, Ghost(x), Ghost(y)))
    }

    /// Whether two reduced applications are equal, remembered.
    fn rp_is_def_eq_n(&mut self, fuel: u32, tn: RClo, sn: RClo) -> (r: Result<bool, TcError>)
        requires
            old(self).wf(),
            old(self).rc_ok(tn),
            old(self).rc_ok(sn),
        ensures
            final(self).wf(),
            final(self).ext(old(self)),
            r matches Ok(true) ==> final(self).g().eq(old(self).rc(tn), old(self).rc(sn)),
            r matches Ok(false) ==> final(self).apart(old(self).rc(tn), old(self).rc(sn)),
            fuel > 0 && old(self).ctx.clo(tn.head) == old(self).ctx.clo(sn.head) && old(self).cs(tn.spine@) == old(
                self,
            ).cs(sn.spine@) ==> r == Ok::<bool, TcError>(true),
            r matches Err(err) ==> final(self).accounts(old(self), err),
        decreases fuel,
    {
        if fuel == 0 {
            return Err(self.out_of_depth(0));
        }
        let ghost x = self.rc(tn);
        let ghost y = self.rc(sn);
        if self.rp_s_quick_eq(&tn, &sn) {
            return Ok(true);
        }
        match self.recall_eq_s(&tn, &sn) {
            Some(b) => {
                return Ok(self.answer(b, Ghost(x), Ghost(y)));
            },
            None => {},
        }
        let t2 = tn.copy();
        let s2 = sn.copy();
        let r = self.rp_is_def_eq_s_core(fuel - 1, tn, sn)?;
        self.note_eq_s(&t2, &s2, r);
        Ok(self.answer(r, Ghost(x), Ghost(y)))
    }

    /// The comparison proper of two reduced applications.
    fn rp_is_def_eq_s_core(&mut self, fuel: u32, tn: RClo, sn: RClo) -> (r: Result<bool, TcError>)
        requires
            old(self).wf(),
            old(self).rc_ok(tn),
            old(self).rc_ok(sn),
        ensures
            final(self).wf(),
            final(self).ext(old(self)),
            r matches Ok(true) ==> final(self).g().eq(old(self).rc(tn), old(self).rc(sn)),
            r matches Ok(false) ==> final(self).apart(old(self).rc(tn), old(self).rc(sn)),
            r matches Err(err) ==> final(self).accounts(old(self), err),
        decreases fuel,
    {
        if fuel == 0 {
            return Err(self.out_of_depth(0));
        }
        let ghost g = self.g();
        let ghost x = self.rc(tn);
        let ghost y = self.rc(sn);
        if let Some(b) = self.rp_quick_heads(fuel - 1, &tn, &sn)? {
            return Ok(self.answer(b, Ghost(x), Ghost(y)));
        }
        if let Some(b) = self.rp_def_eq_offset(fuel - 1, &tn, &sn)? {
            return Ok(self.answer(b, Ghost(x), Ghost(y)));
        }
        if self.rp_proof_irrel(fuel - 1, &tn, &sn)? {
            return Ok(true);
        }
        match self.rp_lazy_delta(fuel - 1, tn, sn, RP_DELTA_FUEL)? {
            LazyDelta::Decided(b) => Ok(self.answer(b, Ghost(x), Ghost(y))),
            LazyDelta::Stuck(tn, sn) => {
                let ghost xn = self.rc(tn);
                let ghost yn = self.rc(sn);
                let r = self.rp_stuck(fuel - 1, &tn, &sn)?;
                proof {
                    if r {
                        Sig::e_red(g, x, xn, y, yn);
                    }
                }
                Ok(self.answer(r, Ghost(x), Ghost(y)))
            },
        }
    }

    /// Two proofs of one proposition are equal.
    fn rp_proof_irrel(&mut self, fuel: u32, tn: &RClo, sn: &RClo) -> (r: Result<bool, TcError>)
        requires
            old(self).wf(),
            old(self).rc_ok(*tn),
            old(self).rc_ok(*sn),
        ensures
            final(self).wf(),
            final(self).ext(old(self)),
            r matches Ok(true) ==> final(self).g().eq(old(self).rc(*tn), old(self).rc(*sn)),
            r matches Err(err) ==> final(self).accounts(old(self), err),
        decreases fuel,
    {
        if fuel == 0 {
            return Err(self.out_of_depth(0));
        }
        let ghost g = self.g();
        let ghost x = self.rc(*tn);
        let ghost y = self.rc(*sn);
        let t_ty = self.rp_infer_s(fuel - 1, tn, InferFlag::InferOnly)?;
        let ghost tt = self.ctx.st.e(t_ty);
        if !self.rp_is_prop(fuel - 1, t_ty)? {
            return Ok(false);
        }
        let s_ty = self.rp_infer_s(fuel - 1, sn, InferFlag::InferOnly)?;
        let ghost ts = self.ctx.st.e(s_ty);
        proof {
            self.lemma_clo_of(t_ty);
            self.lemma_clo_of(s_ty);
        }
        let r = self.rp_is_def_eq(fuel - 1, Clo { e: t_ty, env: ENV_NIL }, Clo { e: s_ty, env: ENV_NIL })?;
        proof {
            if r {
                let (q, z) = choose|q: Term, z: Lvl| #[trigger] g.ty(false, tt, q)
                    && #[trigger] g.red(q, Term::Sort(z)) && z.is_zero();
                Sig::u_type(g, tt, q, z);
                Sig::e_irrel_t(g, x, tt, z, y, ts);
            }
        }
        Ok(r)
    }

    /// Two applications neither side of which unfolds further.
    fn rp_stuck(&mut self, fuel: u32, tn: &RClo, sn: &RClo) -> (r: Result<bool, TcError>)
        requires
            old(self).wf(),
            old(self).rc_ok(*tn),
            old(self).rc_ok(*sn),
        ensures
            final(self).wf(),
            final(self).ext(old(self)),
            r matches Ok(true) ==> final(self).g().eq(old(self).rc(*tn), old(self).rc(*sn)),
            r matches Ok(false) ==> final(self).apart(old(self).rc(*tn), old(self).rc(*sn)),
            r matches Err(err) ==> final(self).accounts(old(self), err),
        decreases fuel,
    {
        if fuel == 0 {
            return Err(self.out_of_depth(0));
        }
        let ghost g = self.g();
        let ghost x = self.rc(*tn);
        let ghost y = self.rc(*sn);
        if let Some(b) = self.rp_quick_heads(fuel - 1, tn, sn)? {
            return Ok(self.answer(b, Ghost(x), Ghost(y)));
        }
        if self.rp_same_heads(fuel - 1, tn, sn)? {
            return Ok(true);
        }
        if self.rp_try_eta_expansion(fuel - 1, tn, sn)? {
            return Ok(true);
        }
        if self.rp_try_eta_struct(fuel - 1, tn, sn)? {
            return Ok(true);
        }
        if self.rp_def_eq_string_lit(fuel - 1, tn, sn)? {
            return Ok(true);
        }
        if self.rp_def_eq_unit_like(fuel - 1, tn, sn)? {
            return Ok(true);
        }
        // last resort: reduce fully and retry if either side changed
        let tf = self.rp_whnf_core(fuel - 1, tn.copy())?;
        let ghost xf = self.rc(tf);
        let sf = self.rp_whnf_core(fuel - 1, sn.copy())?;
        let ghost yf = self.rc(sf);
        if self.rp_unchanged(&tf, tn) && self.rp_unchanged(&sf, sn) {
            return Ok(self.answer(false, Ghost(x), Ghost(y)));
        }
        let r = self.rp_is_def_eq_s(fuel - 1, tf, sf)?;
        proof {
            if r {
                Sig::e_red(g, x, xf, y, yf);
            }
        }
        Ok(self.answer(r, Ghost(x), Ghost(y)))
    }

    /// Whether two applications are made of the same closures.
    pub fn rp_unchanged(&self, a: &RClo, b: &RClo) -> (r: bool)
        ensures
            r == (a.head == b.head && a.spine@ == b.spine@),
    {
        if a.head != b.head || a.spine.len() != b.spine.len() {
            return false;
        }
        let mut i: usize = 0;
        while i < a.spine.len()
            invariant
                a.spine@.len() == b.spine@.len(),
                i <= a.spine@.len(),
                forall|j: int| 0 <= j < i ==> #[trigger] a.spine@[j] == b.spine@[j],
            decreases a.spine@.len() - i,
        {
            if a.spine[i] != b.spine[i] {
                assert(a.spine@[i as int] != b.spine@[i as int]);
                return false;
            }
            i += 1;
        }
        assert(a.spine@ =~= b.spine@);
        true
    }

    /// Applications of one constant, variable or projection to equal
    /// arguments.
    fn rp_same_heads(&mut self, fuel: u32, tn: &RClo, sn: &RClo) -> (r: Result<bool, TcError>)
        requires
            old(self).wf(),
            old(self).rc_ok(*tn),
            old(self).rc_ok(*sn),
        ensures
            final(self).wf(),
            final(self).ext(old(self)),
            r matches Ok(true) ==> final(self).g().eq(old(self).rc(*tn), old(self).rc(*sn)),
            r matches Err(err) ==> final(self).accounts(old(self), err),
        decreases fuel,
    {
        if fuel == 0 {
            return Err(self.out_of_depth(0));
        }
        let ghost g = self.g();
        let ghost h1 = self.ctx.clo(tn.head);
        let ghost h2 = self.ctx.clo(sn.head);
        match (self.read_expr(tn.head.e), self.read_expr(sn.head.e)) {
            (Expr::Const { name: c1, levels: l1 }, Expr::Const { name: c2, levels: l2 }) => {
                if c1 != c2 || !self.rp_lvl_eq_list(l1, l2)? {
                    return Ok(false);
                }
                proof {
                    Sig::e_const(g, c1, self.ctx.st.ls(l1), self.ctx.st.ls(l2));
                }
            },
            (
                Expr::Local { id: i1, binder_type: t1, binder_name: n1, binder_style: s1 },
                Expr::Local { id: i2, binder_type: t2, binder_name: n2, binder_style: s2 },
            ) => {
                if tn.head.e == sn.head.e {
                    proof {
                        Sig::eq_refl(g, h1);
                    }
                } else {
                    if i1 != i2 {
                        return Ok(false);
                    }
                    proof {
                        self.lemma_clo_of(t1);
                        self.lemma_clo_of(t2);
                    }
                    if !self.rp_is_def_eq(fuel - 1, Clo { e: t1, env: ENV_NIL }, Clo { e: t2, env: ENV_NIL })? {
                        return Ok(false);
                    }
                    proof {
                        Sig::e_local(g, i1, n1, s1, self.ctx.st.e(t1), n2, s2, self.ctx.st.e(t2));
                    }
                }
            },
            (
                Expr::Proj { ty_name: n1, idx: i1, structure: e1 },
                Expr::Proj { ty_name: n2, idx: i2, structure: e2 },
            ) => {
                let c1 = Clo { e: e1, env: tn.head.env };
                let c2 = Clo { e: e2, env: sn.head.env };
                if n1 != n2 || i1 != i2 || !self.rp_is_def_eq(fuel - 1, c1, c2)? {
                    return Ok(false);
                }
                proof {
                    Sig::e_proj(g, n1, i1 as nat, self.ctx.clo(c1), self.ctx.clo(c2));
                }
            },
            _ => {
                return Ok(false);
            },
        }
        self.rp_def_eq_spines(fuel - 1, tn, sn, Ghost(h1), Ghost(h2))
    }

    /// Whether the arguments of two applications are equal.
    pub fn rp_def_eq_spines(&mut self, fuel: u32, t: &RClo, s: &RClo, Ghost(f): Ghost<Term>, Ghost(f2): Ghost<Term>)
        -> (r: Result<bool, TcError>)
        requires
            old(self).wf(),
            old(self).rc_ok(*t),
            old(self).rc_ok(*s),
            old(self).g().eq(f, f2),
        ensures
            final(self).wf(),
            final(self).ext(old(self)),
            r matches Ok(true) ==> final(self).g().eq(
                Term::apps(f, old(self).cs(t.spine@)),
                Term::apps(f2, old(self).cs(s.spine@)),
            ),
            r matches Ok(false) ==> final(self).args_apart(old(self).cs(t.spine@), old(self).cs(s.spine@)),
            r matches Err(err) ==> final(self).accounts(old(self), err),
        decreases fuel,
    {
        if fuel == 0 {
            return Err(self.out_of_depth(0));
        }
        let ghost o = *self;
        let ghost g = self.g();
        let ghost xs = self.cs(t.spine@);
        let ghost ys = self.cs(s.spine@);
        if t.spine.len() != s.spine.len() {
            return Ok(false);
        }
        let mut i: usize = 0;
        while i < t.spine.len()
            invariant
                o == *old(self),
                o.wf(),
                o.rc_ok(*t),
                o.rc_ok(*s),
                self.wf(),
                self.ext(&o),
                g == o.g(),
                fuel > 0,
                xs == o.cs(t.spine@),
                ys == o.cs(s.spine@),
                t.spine@.len() == s.spine@.len(),
                i <= t.spine@.len(),
                forall|j: int| 0 <= j < i ==> g.eq(#[trigger] xs[j], ys[j]),
            decreases t.spine@.len() - i,
        {
            proof {
                o.lemma_cs(t.spine@, i as int);
                o.lemma_cs(s.spine@, i as int);
            }
            if !self.rp_is_def_eq(fuel - 1, t.spine[i], s.spine[i])? {
                assert(self.apart(xs[i as int], ys[i as int]));
                return Ok(false);
            }
            i += 1;
        }
        proof {
            Sig::eq_apps(g, f, f2, xs, ys);
        }
        Ok(true)
    }

    /// What the heads alone decide.
    fn rp_quick_heads(&mut self, fuel: u32, tn: &RClo, sn: &RClo) -> (r: Result<Option<bool>, TcError>)
        requires
            old(self).wf(),
            old(self).rc_ok(*tn),
            old(self).rc_ok(*sn),
        ensures
            final(self).wf(),
            final(self).ext(old(self)),
            r matches Ok(Some(true)) ==> final(self).g().eq(old(self).rc(*tn), old(self).rc(*sn)),
            r matches Err(err) ==> final(self).accounts(old(self), err),
        decreases fuel,
    {
        if fuel == 0 {
            return Err(self.out_of_depth(0));
        }
        let ghost g = self.g();
        if tn.spine.len() != 0 || sn.spine.len() != 0 {
            return Ok(None);
        }
        proof {
            assert(self.cs(tn.spine@) =~= Seq::empty());
            assert(self.cs(sn.spine@) =~= Seq::empty());
            Sig::eq_refl(g, self.rc(*tn));
        }
        match (self.read_expr(tn.head.e), self.read_expr(sn.head.e)) {
            (Expr::Lambda { .. }, Expr::Lambda { .. }) => {
                let b = self.rp_def_eq_binding(fuel - 1, tn.head, sn.head)?;
                Ok(Some(b))
            },
            (Expr::Pi { .. }, Expr::Pi { .. }) => {
                let b = self.rp_def_eq_binding(fuel - 1, tn.head, sn.head)?;
                Ok(Some(b))
            },
            (Expr::Sort { level: l1 }, Expr::Sort { level: l2 }) => {
                let b = self.rp_lvl_eq1(l1, l2)?;
                proof {
                    if b {
                        Sig::e_sort(g, self.ctx.st.l(l1), self.ctx.st.l(l2));
                    }
                }
                Ok(Some(b))
            },
            (Expr::NatLit { ptr: a }, Expr::NatLit { ptr: b }) => Ok(Some(a == b)),
            (Expr::StringLit { ptr: a }, Expr::StringLit { ptr: b }) => Ok(Some(a == b)),
            _ => Ok(None),
        }
    }

    /// A fresh variable for the binders of two closures.
    pub fn rp_fresh_fvar(&mut self, t: Clo, s: Clo, ty: ExprPtr) -> (r: Result<ExprPtr, TcError>)
        requires
            old(self).wf(),
            old(self).plain_clo(t),
            old(self).plain_clo(s),
            old(self).ctx.st.e_ok(ty),
            old(self).ctx.st.e(ty).nl() == 0,
        ensures
            final(self).wf(),
            final(self).ext(old(self)),
            r matches Ok(fv) ==> final(self).ctx.st.e_ok(fv) && final(self).ctx.st.e(fv) is Local
                && final(self).ctx.st.e(fv).nl()
                == 0 && final(self).ctx.st.e(fv)->Local_0 is DbjLevel
                    && old(self).ctx.st.e(t.e).ml() <= final(self).ctx.st.e(fv)->Local_0->DbjLevel_0
                && old(self).ctx.w@.nlevel(t.env) <= final(self).ctx.st.e(fv)->Local_0->DbjLevel_0
                    && old(self).ctx.st.e(s.e).ml()
                <= final(self).ctx.st.e(fv)->Local_0->DbjLevel_0 && old(self).ctx.w@.nlevel(s.env)
                <= final(self).ctx.st.e(fv)->Local_0->DbjLevel_0,
            r matches Err(err) ==> err == TcError::Full,
            r matches Err(err) ==> !(err is Reject) && final(self).ran_out(old(self)),
    {
        let a = self.next_level(t.e, t.env)?;
        let b = self.next_level(s.e, s.env)?;
        let c = self.max_level(ty)?;
        let d: u32 = if a >= b {
            a
        } else {
            b
        };
        let level: u32 = if c >= d {
            c
        } else {
            d
        };
        self.fvar_at(level, ty)
    }

    /// Two functions or two function types, compared under their binders.
    fn rp_def_eq_binding(&mut self, fuel: u32, t: Clo, s: Clo) -> (r: Result<bool, TcError>)
        requires
            old(self).wf(),
            old(self).plain_clo(t),
            old(self).plain_clo(s),
        ensures
            final(self).wf(),
            final(self).ext(old(self)),
            r matches Ok(true) ==> final(self).g().eq(old(self).ctx.clo(t), old(self).ctx.clo(s)),
            r matches Err(err) ==> final(self).accounts(old(self), err),
        decreases fuel,
    {
        if fuel == 0 {
            return Err(self.out_of_depth(0));
        }
        let ghost o = *self;
        let ghost g = self.g();
        let ghost x0 = self.ctx.clo(t);
        let ghost y0 = self.ctx.clo(s);
        let (td, tb, sd, sb, is_pi) = match (self.read_expr(t.e), self.read_expr(s.e)) {
            (
                Expr::Lambda { binder_type: td, body: tb, .. },
                Expr::Lambda { binder_type: sd, body: sb, .. },
            ) => (td, tb, sd, sb, false),
            (Expr::Pi { binder_type: td, body: tb, .. }, Expr::Pi { binder_type: sd, body: sb, .. }) => (
                td,
                tb,
                sd,
                sb,
                true,
            ),
            _ => {
                return self.rp_is_def_eq(fuel - 1, t, s);
            },
        };
        let tdc = Clo { e: td, env: t.env };
        let sdc = Clo { e: sd, env: s.env };
        if !self.rp_is_def_eq(fuel - 1, tdc, sdc)? {
            return Ok(false);
        }
        proof {
            self.lemma_plain_clo(sdc);
            self.lemma_plain_clo(t);
            self.lemma_plain_clo(s);
            self.lemma_ntime(t.env);
            self.lemma_ntime(s.env);
        }
        let d = self.reify(sdc)?;
        let fv = self.rp_fresh_fvar(t, s, d)?;
        let ghost x = self.ctx.st.e(fv);
        let ghost l = x->Local_0->DbjLevel_0 as nat;
        let ghost nt = self.ctx.w@.n(t.env);
        let ghost ns = self.ctx.w@.n(s.env);
        let ghost b1 = self.ctx.st.e(tb).inst(1, nt);
        let ghost b2 = self.ctx.st.e(sb).inst(1, ns);
        let ghost a1 = self.ctx.clo(tdc);
        let ghost a2 = self.ctx.clo(sdc);
        proof {
            self.lemma_fresh_clo(t, td, tb, l);
            self.lemma_fresh_clo(s, sd, sb, l);
            Term::lemma_inst_open(self.ctx.st.e(tb), x, nt);
            Term::lemma_inst_open(self.ctx.st.e(sb), x, ns);
        }
        let tenv = self.push_entry(t.env, Entry::Neu(fv))?;
        let senv = self.push_entry(s.env, Entry::Neu(fv))?;
        let r = self.rp_def_eq_binding(fuel - 1, Clo { e: tb, env: tenv }, Clo { e: sb, env: senv })?;
        proof {
            if r {
                if is_pi {
                    Sig::e_pi(g, x0->Pi_0, x0->Pi_1, a1, b1, y0->Pi_0, y0->Pi_1, a2, b2, x);
                } else {
                    Sig::r_beta(g, x0->Lam_0, x0->Lam_1, a1, b1, x);
                    Sig::r_beta(g, y0->Lam_0, y0->Lam_1, a2, b2, x);
                    Sig::e_ext(g, x0, y0, x, b1.inst(0, seq![x]), b2.inst(0, seq![x]));
                }
            }
        }
        Ok(r)
    }

    /// A binder whose levels lie below `l`: so do those of its parts.
    proof fn lemma_fresh_clo(&self, c: Clo, d: ExprPtr, b: ExprPtr, l: nat)
        requires
            self.wf(),
            self.plain_clo(c),
            self.ctx.st.e_ok(d),
            self.ctx.st.e_ok(b),
            (self.ctx.st.e(c.e) matches Term::Lam(_, _, x, y) && *x == self.ctx.st.e(d) && *y == self.ctx.st.e(b)) || (
            self.ctx.st.e(c.e) matches Term::Pi(_, _, x, y) && *x == self.ctx.st.e(d) && *y == self.ctx.st.e(b)),
            self.ctx.st.e(c.e).ml() <= l,
            self.ctx.w@.nlevel(c.env) <= l,
        ensures
            self.ctx.st.e(b).inst(1, self.ctx.w@.n(c.env)).ml() <= l,
            self.ctx.clo(c).ml() <= l,
    {
        let n = self.ctx.w@.n(c.env);
        self.lemma_ntime(c.env);
        assert(Term::ml_seq(n, l));
        Term::lemma_inst_ml(self.ctx.st.e(b), 1, n, l);
        Term::lemma_inst_ml(self.ctx.st.e(c.e), 0, n, l);
    }

    // ---- free variables ----

    /// Whether the term a closure stands for has a free variable.
    pub fn rp_clo_has_fvar(&mut self, fuel: u32, e: ExprPtr, env: u32) -> (r: Result<bool, TcError>)
        requires
            old(self).wf(),
            old(self).plain_clo(Clo { e, env }),
        ensures
            final(self).wf(),
            final(self).ext(old(self)),
            r matches Ok(b) ==> b == old(self).ctx.clo(Clo { e, env }).has_fv(),
            r matches Err(err) ==> !(err is Reject) && final(self).ran_out(old(self)),
        decreases fuel,
    {
        if fuel == 0 {
            return Err(self.out_of_depth(0));
        }
        self.rp_clo_has_fvar_go(fuel - 1, e, env, 0)
    }

    /// The same under `offset` binders: the answer is the one the substituted
    /// expression would give.
    fn rp_clo_has_fvar_go(&mut self, fuel: u32, e: ExprPtr, env: u32, offset: u32) -> (r: Result<bool, TcError>)
        requires
            old(self).wf(),
            old(self).ctx.st.e_ok(e),
            old(self).ctx.w@.n_ok(env),
            old(self).ctx.w@.plain(env),
            old(self).ctx.st.e(e).nl() <= offset + old(self).ctx.w@.n(env).len(),
        ensures
            final(self).wf(),
            final(self).ext(old(self)),
            r matches Ok(b) ==> b == old(self).ctx.st.e(e).inst(offset as nat, old(self).ctx.w@.n(env)).has_fv(),
            r matches Err(err) ==> !(err is Reject) && final(self).ran_out(old(self)),
        decreases fuel,
    {
        if fuel == 0 {
            return Err(self.out_of_depth(0));
        }
        let ghost t = self.ctx.st.e(e);
        let ghost n = self.ctx.w@.n(env);
        let ghost k = offset as nat;
        if self.has_fvars(e) {
            proof {
                Term::lemma_inst_fv(t, k, n);
            }
            return Ok(true);
        }
        if self.lbr(e) as u32 <= offset {
            proof {
                Term::lemma_inst_closed(t, k, n);
            }
            return Ok(false);
        }
        if offset >= 0xffff_fff0 {
            return Err(self.over_limit());
        }
        match self.recall_fvar(e, env, offset) {
            Some(b) => {
                return Ok(b);
            },
            None => {},
        }
        let r: bool = match self.read_expr(e) {
            Expr::Var { dbj_idx } => {
                if (dbj_idx as u32) < offset {
                    return Ok(false);
                }
                match self.lookup(env, (dbj_idx as u32 - offset) as u16) {
                    Entry::Neu(_) => true,
                    Entry::Val(e2, env2) => self.rp_clo_has_fvar_go(fuel - 1, e2, env2, 0)?,
                    Entry::V(_) => {
                        return Err(self.reject(Reason::BadValue));
                    },
                }
            },
            Expr::App { fun, arg } => self.rp_clo_has_fvar_go(fuel - 1, fun, env, offset)? || self.rp_clo_has_fvar_go(
                fuel - 1,
                arg,
                env,
                offset,
            )?,
            Expr::Lambda { binder_type, body, .. } => self.rp_clo_has_fvar_go(fuel - 1, binder_type, env, offset)?
                || self.rp_clo_has_fvar_go(fuel - 1, body, env, offset + 1)?,
            Expr::Pi { binder_type, body, .. } => self.rp_clo_has_fvar_go(fuel - 1, binder_type, env, offset)?
                || self.rp_clo_has_fvar_go(fuel - 1, body, env, offset + 1)?,
            Expr::Let { binder_type, val, body, .. } => self.rp_clo_has_fvar_go(fuel - 1, binder_type, env, offset)?
                || self.rp_clo_has_fvar_go(fuel - 1, val, env, offset)? || self.rp_clo_has_fvar_go(
                fuel - 1,
                body,
                env,
                offset + 1,
            )?,
            Expr::Proj { structure, .. } => self.rp_clo_has_fvar_go(fuel - 1, structure, env, offset)?,
            _ => false,
        };
        self.note_fvar(e, env, offset, r);
        Ok(r)
    }

    /// Whether an application has a free variable.
    pub fn rp_sclo_has_fvar(&mut self, fuel: u32, s: &RClo) -> (r: Result<bool, TcError>)
        requires
            old(self).wf(),
            old(self).rc_ok(*s),
        ensures
            final(self).wf(),
            final(self).ext(old(self)),
            r matches Ok(b) ==> b == old(self).rc(*s).has_fv(),
            r matches Err(err) ==> !(err is Reject) && final(self).ran_out(old(self)),
        decreases fuel,
    {
        if fuel == 0 {
            return Err(self.out_of_depth(0));
        }
        let ghost o = *self;
        let ghost h = self.ctx.clo(s.head);
        let ghost xs = self.cs(s.spine@);
        proof {
            Term::lemma_apps_fv(h, xs);
        }
        if self.rp_clo_has_fvar(fuel - 1, s.head.e, s.head.env)? {
            return Ok(true);
        }
        let mut i: usize = 0;
        while i < s.spine.len()
            invariant
                o == *old(self),
                o.wf(),
                o.rc_ok(*s),
                self.wf(),
                self.ext(&o),
                fuel > 0,
                h == o.ctx.clo(s.head),
                xs == o.cs(s.spine@),
                !h.has_fv(),
                Term::apps(h, xs).has_fv()
                    == (h.has_fv() || exists|j: int| 0 <= j < xs.len() && (#[trigger] xs[j]).has_fv()),
                i <= s.spine@.len(),
                forall|j: int| 0 <= j < i ==> !(#[trigger] xs[j]).has_fv(),
            decreases s.spine@.len() - i,
        {
            proof {
                o.lemma_cs(s.spine@, i as int);
            }
            if self.rp_clo_has_fvar(fuel - 1, s.spine[i].e, s.spine[i].env)? {
                assert(xs[i as int].has_fv());
                return Ok(true);
            }
            i += 1;
        }
        Ok(false)
    }
}

impl Term {
    /// A free variable stays when something is substituted elsewhere.
    pub proof fn lemma_inst_fv(t: Term, k: nat, s: Seq<Term>)
        requires
            t.has_fv(),
        ensures
            t.inst(k, s).has_fv(),
        decreases t,
    {
        match t {
            Term::App(f, a) => {
                if f.has_fv() {
                    Term::lemma_inst_fv(*f, k, s);
                } else {
                    Term::lemma_inst_fv(*a, k, s);
                }
            },
            Term::Lam(_, _, a, b) => {
                if a.has_fv() {
                    Term::lemma_inst_fv(*a, k, s);
                } else {
                    Term::lemma_inst_fv(*b, k + 1, s);
                }
            },
            Term::Pi(_, _, a, b) => {
                if a.has_fv() {
                    Term::lemma_inst_fv(*a, k, s);
                } else {
                    Term::lemma_inst_fv(*b, k + 1, s);
                }
            },
            Term::Let(_, _, a, v, b) => {
                if a.has_fv() {
                    Term::lemma_inst_fv(*a, k, s);
                } else if v.has_fv() {
                    Term::lemma_inst_fv(*v, k, s);
                } else {
                    Term::lemma_inst_fv(*b, k + 1, s);
                }
            },
            Term::Proj(_, _, e) => {
                Term::lemma_inst_fv(*e, k, s);
            },
            _ => {},
        }
    }

    /// An application has a free variable when one of its parts has one.
    pub proof fn lemma_apps_fv(f: Term, xs: Seq<Term>)
        ensures
            Term::apps(f, xs).has_fv()
                == (f.has_fv() || exists|j: int| 0 <= j < xs.len() && (#[trigger] xs[j]).has_fv()),
        decreases xs.len(),
    {
        if xs.len() > 0 {
            let ys = xs.drop_last();
            Term::lemma_apps_fv(f, ys);
            if xs.last().has_fv() {
                assert(xs[xs.len() - 1].has_fv());
            }
            if exists|j: int| 0 <= j < ys.len() && (#[trigger] ys[j]).has_fv() {
                let j = choose|j: int| 0 <= j < ys.len() && (#[trigger] ys[j]).has_fv();
                assert(xs[j].has_fv());
            }
            if exists|j: int| 0 <= j < xs.len() && (#[trigger] xs[j]).has_fv() {
                let j = choose|j: int| 0 <= j < xs.len() && (#[trigger] xs[j]).has_fv();
                if j < ys.len() {
                    assert(ys[j].has_fv());
                }
            }
        }
    }
}

} // verus!
