//! From closures and values back to expressions, and structural equality
//! modulo substitution.
use crate::counters::{EQM_FAST, EQM_HIT, EQM_MISS, EQM_NOMEMO, EQ_MOD};
use crate::closure::{Clo, CloMemos, Entry, EnvId, ENV_NIL};
use crate::ctx::TcCtx;
use crate::error::TcError;
use crate::expr::{Expr, ExprPtr};
use crate::nbe::{Elim, RigidHead, SpineId, ValId, Value};
use crate::table::Key;
use crate::term::{BinderStyle, FVarId, Term};
use crate::theory::ElimT;
use vstd::prelude::*;

verus! {

/// The name given to variables without one.
pub const ANONYMOUS: u32 = 0;

impl TcCtx {
    /// The nodes of the check and what they stand for are those of `o`.
    pub open spec fn same_nodes(&self, o: &TcCtx) -> bool {
        &&& self.w == o.w
        &&& self.nb == o.nb
        &&& self.rp.envs == o.rp.envs
        &&& self.rp.memo.views == o.rp.memo.views
        &&& self.eager_mode == o.eager_mode
    }

    // ---- free variables ----

    /// The free variable standing for a binder opened over an environment of
    /// `level` entries.  Naming it by that level, rather than by a counter,
    /// makes two openings of the same binder produce the same variable.  The
    /// binder type is part of the variable's identity, so a level shared by two
    /// binders of different types still gives two variables.
    pub fn fvar_at(&mut self, level: u32, ty: ExprPtr) -> (r: Result<ExprPtr, TcError>)
        requires
            old(self).wf(),
            old(self).st.e_ok(ty),
            old(self).st.e(ty).nl() == 0,
        ensures
            final(self).wf(),
            final(self).ext(old(self)),
            final(self).same_heap(old(self)),
            r matches Ok(x) ==> final(self).st.e_ok(x) && final(self).st.e(x) == Term::local(
                FVarId::DbjLevel(level),
                ANONYMOUS,
                BinderStyle::Default,
                old(self).st.e(ty),
            ),
            r is Err ==> r == Err::<ExprPtr, TcError>(TcError::Full),
    {
        self.mk(
            Expr::Local {
                binder_name: ANONYMOUS,
                binder_style: BinderStyle::Default,
                binder_type: ty,
                id: FVarId::DbjLevel(level),
            },
        )
    }

    /// The type recorded on a free variable.
    pub fn fvar_type(&self, fv: ExprPtr) -> (r: ExprPtr)
        requires
            self.wf(),
            self.st.e_ok(fv),
            self.st.e(fv) is Local,
        ensures
            self.st.e_ok(r),
            self.st.e(r) == *self.st.e(fv)->Local_3,
            self.st.e(r).nl() == 0,
    {
        match self.read_expr(fv) {
            Expr::Local { binder_type, .. } => binder_type,
            _ => fv,
        }
    }

    // ---- reify ----

    /// The expression a closure stands for.
    pub fn reify(&mut self, c: Clo) -> (r: Result<ExprPtr, TcError>)
        requires
            old(self).wf(),
            old(self).clo_ok(c),
            old(self).clo(c).bvb() == 0,
        ensures
            final(self).wf(),
            final(self).ext(old(self)),
            final(self).same_nodes(old(self)),
            r matches Ok(y) ==> final(self).st.e_ok(y) && final(self).st.e(y) == old(self).clo(c) && final(self).st.e(
                y,
            ).nl() == 0,
            r is Err ==> r == Err::<ExprPtr, TcError>(TcError::Full),
        decreases old(self).w@.ntime(c.env), c.e, 2int,
    {
        proof {
            self.lemma_wf();
            self.lemma_ntime(c.env);
            Term::lemma_inst_nl(self.st.e(c.e), 0, self.w@.n(c.env));
        }
        if c.env == ENV_NIL || self.lbr(c.e) == 0 {
            proof {
                Term::lemma_inst_closed(self.st.e(c.e), 0, self.w@.n(c.env));
            }
            return Ok(c.e);
        }
        self.reify_go(c.env, 0, c.e)
    }

    /// `e` with its loose variables past `offset` read in `env`.
    pub fn reify_go(&mut self, env: EnvId, offset: u16, e: ExprPtr) -> (r: Result<ExprPtr, TcError>)
        requires
            old(self).wf(),
            old(self).st.e_ok(e),
            old(self).w@.n_ok(env),
            old(self).st.e(e).nl() <= offset + old(self).w@.n(env).len(),
            old(self).st.e(e).inst(offset as nat, old(self).w@.n(env)).bvb() == 0,
        ensures
            final(self).wf(),
            final(self).ext(old(self)),
            final(self).same_nodes(old(self)),
            r matches Ok(y) ==> final(self).st.e_ok(y) && final(self).st.e(y) == old(self).st.e(e).inst(
                offset as nat,
                old(self).w@.n(env),
            ),
            r is Err ==> r == Err::<ExprPtr, TcError>(TcError::Full),
        decreases old(self).w@.ntime(env), e, 1int,
    {
        if self.lbr(e) <= offset {
            proof {
                Term::lemma_inst_closed(self.st.e(e), offset as nat, self.w@.n(env));
            }
            return Ok(e);
        }
        match self.reify_recall(env, offset, e) {
            Some(y) => {
                return Ok(y);
            },
            None => {},
        }
        let y = self.reify_parts(env, offset, e)?;
        self.reify_note(env, offset, e, y);
        Ok(y)
    }

    /// What is remembered of a reification.
    fn reify_recall(&mut self, env: EnvId, offset: u16, e: ExprPtr) -> (r: Option<ExprPtr>)
        requires
            old(self).wf(),
        ensures
            final(self).wf(),
            final(self).ext(old(self)),
            final(self).same_nodes(old(self)),
            final(self).st == old(self).st,
            r matches Some(y) ==> old(self).st.e_ok(y) && old(self).st.e(y) == old(self).st.e(e).inst(
                offset as nat,
                old(self).w@.n(env),
            ),
    {
        let ghost o = *self;
        proof {
            self.lemma_memo();
        }
        let hit = self.rp.memo.reify_go.get((e, env, offset as u32, 0));
        proof {
            assert(self.rp.memo.ok(self.w@, &self.st)) by {
                reveal(CloMemos::ok);
            }
            self.lemma_memo_step(&o);
            if hit is Some {
                reveal(CloMemos::ok);
                assert(self.rp.memo.reify_go.holds((e, env, offset as u32, 0), hit->0));
            }
        }
        hit
    }

    /// Remember a reification.
    fn reify_note(&mut self, env: EnvId, offset: u16, e: ExprPtr, y: ExprPtr)
        requires
            old(self).wf(),
            old(self).st.e_ok(e),
            old(self).w@.n_ok(env),
            old(self).st.e_ok(y),
            old(self).st.e(y) == old(self).st.e(e).inst(offset as nat, old(self).w@.n(env)),
        ensures
            final(self).wf(),
            final(self).ext(old(self)),
            final(self).same_nodes(old(self)),
            final(self).st == old(self).st,
    {
        let ghost o = *self;
        proof {
            self.lemma_memo();
        }
        self.rp.memo.reify_go.insert((e, env, offset as u32, 0), y);
        proof {
            assert(self.rp.memo.ok(self.w@, &self.st)) by {
                reveal(CloMemos::ok);
            }
            self.lemma_memo_step(&o);
        }
    }

    /// Reification part by part.
    fn reify_parts(&mut self, env: EnvId, offset: u16, e: ExprPtr) -> (r: Result<ExprPtr, TcError>)
        requires
            old(self).wf(),
            old(self).st.e_ok(e),
            old(self).w@.n_ok(env),
            offset < old(self).st.e(e).nl() <= offset + old(self).w@.n(env).len(),
            offset < 0xffff,
            old(self).st.e(e).inst(offset as nat, old(self).w@.n(env)).bvb() == 0,
        ensures
            final(self).wf(),
            final(self).ext(old(self)),
            final(self).same_nodes(old(self)),
            r matches Ok(y) ==> final(self).st.e_ok(y) && final(self).st.e(y) == old(self).st.e(e).inst(
                offset as nat,
                old(self).w@.n(env),
            ),
            r is Err ==> r == Err::<ExprPtr, TcError>(TcError::Full),
        decreases old(self).w@.ntime(env), e, 0int,
    {
        match self.read_expr(e) {
            Expr::Var { dbj_idx } => {
                match self.lookup(env, dbj_idx - offset) {
                    Entry::V(v) => self.nb_readback(v),
                    Entry::Neu(fv) => Ok(fv),
                    Entry::Val(e2, env2) => {
                        if env2 == ENV_NIL {
                            proof {
                                self.lemma_wf();
                                Term::lemma_inst_empty(self.st.e(e2), 0);
                            }
                            Ok(e2)
                        } else {
                            self.reify(Clo { e: e2, env: env2 })
                        }
                    },
                }
            },
            Expr::App { fun, arg } => {
                let f2 = self.reify_go(env, offset, fun)?;
                let x2 = self.reify_go(env, offset, arg)?;
                self.mk(Expr::App { fun: f2, arg: x2 })
            },
            Expr::Lambda { binder_name, binder_style, binder_type, body } => {
                let d2 = self.reify_go(env, offset, binder_type)?;
                let b2 = self.reify_go(env, offset + 1, body)?;
                self.mk(Expr::Lambda { binder_name, binder_style, binder_type: d2, body: b2 })
            },
            Expr::Pi { binder_name, binder_style, binder_type, body } => {
                let d2 = self.reify_go(env, offset, binder_type)?;
                let b2 = self.reify_go(env, offset + 1, body)?;
                self.mk(Expr::Pi { binder_name, binder_style, binder_type: d2, body: b2 })
            },
            Expr::Let { binder_name, binder_type, val, body, nondep } => {
                let t2 = self.reify_go(env, offset, binder_type)?;
                let v2 = self.reify_go(env, offset, val)?;
                let b2 = self.reify_go(env, offset + 1, body)?;
                self.mk(Expr::Let { binder_name, binder_type: t2, val: v2, body: b2, nondep })
            },
            Expr::Proj { ty_name, idx, structure } => {
                let x2 = self.reify_go(env, offset, structure)?;
                self.mk(Expr::Proj { ty_name, idx, structure: x2 })
            },
            _ => Ok(e),
        }
    }

    /// The expression a value stands for, folded where the value is: an
    /// unforced constant reads back as the constant applied, and a thunk as
    /// its own expression under its environment.  The value holds no conversion
    /// variables.
    pub fn nb_readback(&mut self, v: ValId) -> (r: Result<ExprPtr, TcError>)
        requires
            old(self).wf(),
            old(self).w@.v_ok(v),
            old(self).w@.v(v).bvb() == 0,
        ensures
            final(self).wf(),
            final(self).ext(old(self)),
            final(self).same_nodes(old(self)),
            r matches Ok(y) ==> final(self).st.e_ok(y) && final(self).st.e(y) == old(self).w@.v(v),
            r is Err ==> r == Err::<ExprPtr, TcError>(TcError::Full),
        decreases old(self).w@.vtime(v), 0int, 0int,
    {
        proof {
            self.lemma_vtime(v);
        }
        match self.get(v) {
            Value::Thunk { env, expr, .. } => self.reify(Clo { e: expr, env }),
            Value::NatLit { ptr } => self.mk(Expr::NatLit { ptr }),
            Value::StrLit { ptr } => self.mk(Expr::StringLit { ptr }),
            Value::Sort { level } => {
                let level = self.simplify(level)?;
                self.mk(Expr::Sort { level })
            },
            Value::Lam { binder_name, binder_style, binder_type, env, body, .. } => {
                let lam = self.mk(Expr::Lambda { binder_name, binder_style, binder_type, body })?;
                self.reify(Clo { e: lam, env })
            },
            Value::Pi { binder_name, binder_style, domain, env, body } => {
                // the read-back domain has no loose variables, so reifying
                // the rebuilt binder touches only the body
                proof {
                    self.lemma_vtime(domain);
                }
                let d = self.nb_readback(domain)?;
                let pi = self.mk(Expr::Pi { binder_name, binder_style, binder_type: d, body })?;
                proof {
                    Term::lemma_inst_closed(self.st.e(d), 0, self.w@.n(env));
                }
                self.reify(Clo { e: pi, env })
            },
            Value::Unfold { name, levels, spine, .. } => {
                let head = self.mk(Expr::Const { name, levels })?;
                self.nb_readback_spine(head, spine)
            },
            Value::Rigid { head, spine } => {
                proof {
                    ElimT::lemma_spine_bvb(self.w@.head(&self.st, head), self.w@.s(spine));
                }
                let head_e = match head {
                    RigidHead::Local(e) => e,
                    RigidHead::Const(_, name, levels) => self.mk(Expr::Const { name, levels })?,
                    RigidHead::BVar(_, _) => {
                        return Err(TcError::Full);
                    },
                };
                self.nb_readback_spine(head_e, spine)
            },
        }
    }

    fn nb_readback_spine(&mut self, out: ExprPtr, spine: SpineId) -> (r: Result<ExprPtr, TcError>)
        requires
            old(self).wf(),
            old(self).st.e_ok(out),
            old(self).w@.s_ok(spine),
            ElimT::spine(old(self).st.e(out), old(self).w@.s(spine)).bvb() == 0,
        ensures
            final(self).wf(),
            final(self).ext(old(self)),
            final(self).same_nodes(old(self)),
            r matches Ok(y) ==> final(self).st.e_ok(y) && final(self).st.e(y) == ElimT::spine(
                old(self).st.e(out),
                old(self).w@.s(spine),
            ),
            r is Err ==> r == Err::<ExprPtr, TcError>(TcError::Full),
        decreases old(self).w@.stime(spine), 0int, 0int,
    {
        let ghost o = *self;
        let ghost f = self.st.e(out);
        let ghost es = self.w@.s(spine);
        let elims = self.spine_to_vec(spine);
        let mut out: ExprPtr = out;
        let mut i: usize = 0;
        proof {
            ElimT::lemma_spine_bvb(f, es);
            assert(es.take(0) =~= Seq::empty());
        }
        while i < elims.len()
            invariant
                o == *old(self),
                self.wf(),
                self.ext(&o),
                self.same_nodes(&o),
                o.w@.s_ok(spine),
                es == o.w@.s(spine),
                o.elims(elims@) == es,
                elims@.len() == es.len(),
                forall|j: int| 0 <= j < elims@.len() ==> o.w@.elim_ok(#[trigger] elims@[j], o.w@.stime(spine)),
                forall|j: int|
                    0 <= j < es.len() ==> (#[trigger] es[j] matches ElimT::App(a) ==> a.bvb() <= 0),
                i <= elims@.len(),
                self.st.e_ok(out),
                self.st.e(out) == ElimT::spine(f, es.take(i as int)),
            decreases elims@.len() - i,
        {
            proof {
                assert(es[i as int] == o.w@.elim(elims@[i as int]));
                assert(es.take(i + 1) =~= es.take(i as int).push(es[i as int]));
                ElimT::lemma_spine_push(f, es.take(i as int), es[i as int]);
                assert(o.w@.elim_ok(elims@[i as int], o.w@.stime(spine)));
            }
            out = match elims[i] {
                Elim::App(a) => {
                    let a = self.nb_readback(a)?;
                    self.mk(Expr::App { fun: out, arg: a })?
                },
                Elim::Proj { ty_name, idx } => self.mk(Expr::Proj { ty_name, idx, structure: out })?,
            };
            i += 1;
        }
        proof {
            assert(es.take(es.len() as int) =~= es);
        }
        Ok(out)
    }

    // ---- structural equality modulo substitution ----

    /// The side `(e, env, off)` of a comparison is named and in scope.
    pub open spec fn side_ok(&self, e: ExprPtr, env: EnvId, off: u32) -> bool {
        &&& self.st.e_ok(e)
        &&& self.w@.n_ok(env)
        &&& self.st.e(e).nl() <= off + self.w@.n(env).len()
        &&& off + e <= u32::MAX
    }

    /// What the side stands for.
    pub open spec fn side(&self, e: ExprPtr, env: EnvId, off: u32) -> Term {
        self.st.e(e).inst(off as nat, self.w@.n(env))
    }

    /// No evaluated entry is read by the side.
    pub open spec fn side_plain(&self, e: ExprPtr, env: EnvId, off: u32) -> bool {
        self.st.e(e).nl() <= off || self.w@.plain(env)
    }

    /// Whether two sides are one term, up to binder names.  Sides that read no
    /// evaluated entry are told apart exactly when they are different terms.
    pub fn eq_mod(&mut self, ae: ExprPtr, aenv: EnvId, aoff: u32, be: ExprPtr, benv: EnvId, boff: u32) -> (r: bool)
        requires
            old(self).wf(),
            old(self).side_ok(ae, aenv, aoff),
            old(self).side_ok(be, benv, boff),
        ensures
            final(self).wf(),
            final(self).ext(old(self)),
            final(self).same_world(old(self)),
            final(self).rp.memo.views == old(self).rp.memo.views,
            final(self).sides_kept(old(self)),
            r ==> old(self).side(ae, aenv, aoff).same(old(self).side(be, benv, boff)),
            !r && old(self).side_plain(ae, aenv, aoff) && old(self).side_plain(be, benv, boff) ==> old(self).side(
                ae,
                aenv,
                aoff,
            ) != old(self).side(be, benv, boff),
        decreases old(self).w@.ntime(aenv) + old(self).w@.ntime(benv), ae + be, 1int,
    {
        self.tick(EQ_MOD);
        let ghost ta = self.side(ae, aenv, aoff);
        let ghost tb = self.side(be, benv, boff);
        // resolve a-side head indirections
        let an = self.read_expr(ae);
        if let Expr::Var { dbj_idx: i } = an {
            if i as u32 >= aoff {
                return match self.lookup(aenv, i - aoff as u16) {
                    Entry::Val(e2, env2) => self.eq_mod(e2, env2, 0, be, benv, boff),
                    Entry::Neu(fv) => {
                        let r = self.eq_mod_neu(fv, be, benv, boff);
                        proof {
                            Term::lemma_same_refl(tb);
                        }
                        r
                    },
                    Entry::V(_) => false,
                };
            }
        }
        // resolve b-side
        let bn = self.read_expr(be);
        if let Expr::Var { dbj_idx: j } = bn {
            if j as u32 >= boff {
                return match self.lookup(benv, j - boff as u16) {
                    Entry::Val(e2, env2) => self.eq_mod(ae, aenv, aoff, e2, env2, 0),
                    Entry::Neu(fv) => {
                        let r = self.eq_mod_neu(fv, ae, aenv, aoff);
                        proof {
                            Term::lemma_same_refl(tb);
                        }
                        r
                    },
                    Entry::V(_) => false,
                };
            }
        }
        // fast paths
        let albr: u32 = self.lbr(ae) as u32;
        let blbr: u32 = self.lbr(be) as u32;
        proof {
            self.lemma_wf();
            Term::lemma_same_refl(ta);
            if albr <= aoff {
                Term::lemma_inst_closed(self.st.e(ae), aoff as nat, self.w@.n(aenv));
            }
            if blbr <= boff {
                Term::lemma_inst_closed(self.st.e(be), boff as nat, self.w@.n(benv));
            }
            if albr <= aoff && blbr <= boff && ta == tb {
                self.st.lemma_e_injective(ae, be);
            }
        }
        if albr <= aoff && blbr <= boff && aoff == boff {
            self.tick(EQM_FAST);
            return ae == be;
        }
        if ae == be && aenv == benv && aoff == boff {
            self.tick(EQM_FAST);
            return true;
        }
        if ae == be && albr <= aoff && albr <= boff {
            self.tick(EQM_FAST);
            return true;
        }
        if !TcCtx::is_composite(&an) && !TcCtx::is_composite(&bn) {
            // two variables, or two closed atoms under different names
            self.tick(EQM_NOMEMO);
            return an == bn;
        }
        // An environment and an offset are only part of the question when the
        // expression still has loose variables at that offset, so a side that
        // is closed there is keyed without them.  The comparison is symmetric,
        // so the two sides are ordered and each question is stored once.
        let (ka_env, ka_off): (EnvId, u32) = if albr <= aoff {
            (ENV_NIL, 0)
        } else {
            (aenv, aoff)
        };
        let (kb_env, kb_off): (EnvId, u32) = if blbr <= boff {
            (ENV_NIL, 0)
        } else {
            (benv, boff)
        };
        proof {
            Term::lemma_inst_empty(self.st.e(ae), 0);
            Term::lemma_inst_empty(self.st.e(be), 0);
            assert(self.w@.side(&self.st, (ae, ka_env, ka_off, 0)) == ta);
            assert(self.w@.side(&self.st, (be, kb_env, kb_off, 0)) == tb);
        }
        let sa = self.side_id(ae, ka_env, ka_off);
        let sb = self.side_id(be, kb_env, kb_off);
        let ghost ka: Key = (ae, ka_env, ka_off, 0);
        let ghost kb: Key = (be, kb_env, kb_off, 0);
        match (sa, sb) {
            (Some(ia), Some(ib)) => {
                match self.eq_recall(ia, ib, Ghost(ka), Ghost(kb)) {
                    Some(r) => {
                        self.tick(EQM_HIT);
                        return r;
                    },
                    None => {
                        self.tick(EQM_MISS);
                    },
                }
                let r = self.eq_parts(an, ae, aenv, aoff, bn, be, benv, boff);
                self.eq_note(ia, ib, r, Ghost(ka), Ghost(kb));
                r
            },
            _ => self.eq_parts(an, ae, aenv, aoff, bn, be, benv, boff),
        }
    }

    fn is_composite(n: &Expr) -> (r: bool)
        ensures
            r == (n is App || n is Lambda || n is Pi || n is Let || n is Proj),
    {
        match n {
            Expr::App { .. } => true,
            Expr::Lambda { .. } => true,
            Expr::Pi { .. } => true,
            Expr::Let { .. } => true,
            Expr::Proj { .. } => true,
            _ => false,
        }
    }

    /// The sides numbered in `o` keep their numbers.
    pub open spec fn sides_kept(&self, o: &TcCtx) -> bool {
        forall|k: Key| #[trigger]
            o.rp.memo.sides@.contains_key(k) ==> self.rp.memo.sides@.contains_key(k) && self.rp.memo.sides@[k]
                == o.rp.memo.sides@[k]
    }

    /// The number of a side, or `None` once they are used up.
    fn side_id(&mut self, e: ExprPtr, env: EnvId, off: u32) -> (r: Option<u32>)
        requires
            old(self).wf(),
        ensures
            final(self).wf(),
            final(self).ext(old(self)),
            final(self).same_world(old(self)),
            final(self).rp.memo.views == old(self).rp.memo.views,
            final(self).sides_kept(old(self)),
            r matches Some(i) ==> final(self).rp.memo.sides@.contains_key((e, env, off, 0))
                && final(self).rp.memo.sides@[(
                e,
                env,
                off,
                0,
            )] == i,
    {
        let key: Key = (e, env, off, 0);
        match self.rp.memo.sides.get(key) {
            Some(i) => {
                return Some(i);
            },
            None => {},
        }
        if self.rp.memo.num_sides == u32::MAX {
            return None;
        }
        let ghost o = *self;
        let id: u32 = self.rp.memo.num_sides;
        proof {
            self.lemma_memo();
        }
        self.rp.memo.num_sides = id + 1;
        self.rp.memo.sides.insert(key, id);
        proof {
            assert(self.rp.memo.ok(self.w@, &self.st)) by {
                reveal(CloMemos::ok);
                let m = self.rp.memo;
                let om = o.rp.memo;
                assert forall|j: Key, k: Key, v: bool|
                    #![trigger m.eq_mod.holds((m.sides@[j], m.sides@[k], 0, 0), v)]
                    m.sides@.contains_key(j) && m.sides@.contains_key(k) && m.eq_mod.holds(
                        (m.sides@[j], m.sides@[k], 0, 0),
                        v,
                    ) implies self.w@.eq_fact(&self.st, j, k, v) by {
                    assert(om.eq_mod.holds((m.sides@[j], m.sides@[k], 0, 0), v));
                    assert(j != key && k != key);
                    assert(om.sides@[j] == m.sides@[j] && om.sides@[k] == m.sides@[k]);
                    assert(om.eq_mod.holds((om.sides@[j], om.sides@[k], 0, 0), v));
                }
                assert forall|a: u32, b: u32,
                    v: bool| #[trigger] m.eq_mod.holds((a, b, 0, 0), v) implies a < m.num_sides && b
                    < m.num_sides by {
                    assert(om.eq_mod.holds((a, b, 0, 0), v));
                }
                assert forall|j: Key, k: Key|
                    #![trigger m.sides@[j], m.sides@[k]]
                    m.sides@.contains_key(j) && m.sides@.contains_key(k)
                        && m.sides@[j] == m.sides@[k] implies j == k by {
                    if j != key {
                        assert(om.sides@.contains_key(j));
                    }
                    if k != key {
                        assert(om.sides@.contains_key(k));
                    }
                    assert(j != key && k != key ==> om.sides@[j] == om.sides@[k]);
                }
            }
            self.lemma_memo_step(&o);
        }
        Some(id)
    }

    /// What is remembered of the comparison of two sides.
    fn eq_recall(&mut self, ia: u32, ib: u32, Ghost(ka): Ghost<Key>, Ghost(kb): Ghost<Key>) -> (r: Option<bool>)
        requires
            old(self).wf(),
            old(self).rp.memo.sides@.contains_key(ka),
            old(self).rp.memo.sides@.contains_key(kb),
            old(self).rp.memo.sides@[ka] == ia,
            old(self).rp.memo.sides@[kb] == ib,
        ensures
            final(self).wf(),
            final(self).ext(old(self)),
            final(self).same_world(old(self)),
            final(self).rp.memo.views == old(self).rp.memo.views,
            final(self).rp.memo.sides == old(self).rp.memo.sides,
            r matches Some(v) ==> old(self).w@.eq_fact(&old(self).st, ka, kb, v),
    {
        let ghost o = *self;
        proof {
            self.lemma_memo();
        }
        let (x, y): (u32, u32) = if ia <= ib {
            (ia, ib)
        } else {
            (ib, ia)
        };
        let r = self.rp.memo.eq_mod.get((x, y, 0, 0));
        proof {
            assert(self.rp.memo.ok(self.w@, &self.st)) by {
                reveal(CloMemos::ok);
                let m = self.rp.memo;
                assert forall|j: Key, k: Key, v: bool|
                    #![trigger m.eq_mod.holds((m.sides@[j], m.sides@[k], 0, 0), v)]
                    m.sides@.contains_key(j) && m.sides@.contains_key(k) && m.eq_mod.holds(
                        (m.sides@[j], m.sides@[k], 0, 0),
                        v,
                    ) implies self.w@.eq_fact(&self.st, j, k, v) by {
                    assert(o.rp.memo.eq_mod.holds((o.rp.memo.sides@[j], o.rp.memo.sides@[k], 0, 0), v));
                }
            }
            self.lemma_memo_step(&o);
            if r is Some {
                reveal(CloMemos::ok);
                let m = self.rp.memo;
                assert(m.eq_mod.holds((x, y, 0, 0), r->0));
                if ia <= ib {
                    assert(m.eq_mod.holds((m.sides@[ka], m.sides@[kb], 0, 0), r->0));
                } else {
                    assert(m.eq_mod.holds((m.sides@[kb], m.sides@[ka], 0, 0), r->0));
                    if r->0 {
                        Term::lemma_same_sym(self.w@.side(&self.st, kb), self.w@.side(&self.st, ka));
                    }
                }
            }
        }
        r
    }

    /// Remember the comparison of two sides.
    fn eq_note(&mut self, ia: u32, ib: u32, v: bool, Ghost(ka): Ghost<Key>, Ghost(kb): Ghost<Key>)
        requires
            old(self).wf(),
            old(self).rp.memo.sides@.contains_key(ka),
            old(self).rp.memo.sides@.contains_key(kb),
            old(self).rp.memo.sides@[ka] == ia,
            old(self).rp.memo.sides@[kb] == ib,
            old(self).w@.eq_fact(&old(self).st, ka, kb, v),
        ensures
            final(self).wf(),
            final(self).ext(old(self)),
            final(self).same_world(old(self)),
            final(self).rp.memo.views == old(self).rp.memo.views,
            final(self).rp.memo.sides == old(self).rp.memo.sides,
    {
        let ghost o = *self;
        proof {
            self.lemma_memo();
        }
        let (x, y): (u32, u32) = if ia <= ib {
            (ia, ib)
        } else {
            (ib, ia)
        };
        self.rp.memo.eq_mod.insert((x, y, 0, 0), v);
        proof {
            if v {
                Term::lemma_same_sym(self.w@.side(&self.st, ka), self.w@.side(&self.st, kb));
            }
            assert(self.rp.memo.ok(self.w@, &self.st)) by {
                reveal(CloMemos::ok);
                let m = self.rp.memo;
                let om = o.rp.memo;
                assert(om.sides@[ka] < om.num_sides && om.sides@[kb] < om.num_sides);
                assert forall|a: u32, b: u32,
                    u: bool| #[trigger] m.eq_mod.holds((a, b, 0, 0), u) implies a < m.num_sides && b
                    < m.num_sides by {
                    assert(om.eq_mod.holds((a, b, 0, 0), u) || (a == x && b == y));
                }
                assert forall|j: Key, k: Key, u: bool|
                    #![trigger m.eq_mod.holds((m.sides@[j], m.sides@[k], 0, 0), u)]
                    m.sides@.contains_key(j) && m.sides@.contains_key(k) && m.eq_mod.holds(
                        (m.sides@[j], m.sides@[k], 0, 0),
                        u,
                    ) implies self.w@.eq_fact(&self.st, j, k, u) by {
                    if !om.eq_mod.holds((om.sides@[j], om.sides@[k], 0, 0), u) {
                        assert(m.sides@[j] == x && m.sides@[k] == y && u == v);
                        if ia <= ib {
                            assert(j == ka && k == kb);
                        } else {
                            assert(j == kb && k == ka);
                        }
                    }
                }
            }
            self.lemma_memo_step(&o);
        }
    }

    /// The comparison of two sides part by part.
    fn eq_parts(
        &mut self,
        an: Expr,
        ae: ExprPtr,
        aenv: EnvId,
        aoff: u32,
        bn: Expr,
        be: ExprPtr,
        benv: EnvId,
        boff: u32,
    ) -> (r: bool)
        requires
            old(self).wf(),
            old(self).side_ok(ae, aenv, aoff),
            old(self).side_ok(be, benv, boff),
            old(self).st.shape(ae, an),
            old(self).st.shape(be, bn),
            an matches Expr::Var { dbj_idx } ==> dbj_idx < aoff,
            bn matches Expr::Var { dbj_idx } ==> dbj_idx < boff,
            an is App || an is Lambda || an is Pi || an is Let || an is Proj || bn is App || bn is Lambda || bn is Pi
                || bn is Let || bn is Proj,
        ensures
            final(self).wf(),
            final(self).ext(old(self)),
            final(self).same_world(old(self)),
            final(self).rp.memo.views == old(self).rp.memo.views,
            final(self).sides_kept(old(self)),
            r ==> old(self).side(ae, aenv, aoff).same(old(self).side(be, benv, boff)),
            !r && old(self).side_plain(ae, aenv, aoff) && old(self).side_plain(be, benv, boff) ==> old(self).side(
                ae,
                aenv,
                aoff,
            ) != old(self).side(be, benv, boff),
        decreases old(self).w@.ntime(aenv) + old(self).w@.ntime(benv), ae + be, 0int,
    {
        match (an, bn) {
            (Expr::App { fun: f1, arg: a1 }, Expr::App { fun: f2, arg: a2 }) => {
                self.eq_mod(f1, aenv, aoff, f2, benv, boff) && self.eq_mod(a1, aenv, aoff, a2, benv, boff)
            },
            (Expr::Lambda { binder_type: d1, body: b1, .. }, Expr::Lambda { binder_type: d2, body: b2, .. }) => {
                self.eq_mod(d1, aenv, aoff, d2, benv, boff) && self.eq_mod(b1, aenv, aoff + 1, b2, benv, boff + 1)
            },
            (Expr::Pi { binder_type: d1, body: b1, .. }, Expr::Pi { binder_type: d2, body: b2, .. }) => {
                self.eq_mod(d1, aenv, aoff, d2, benv, boff) && self.eq_mod(b1, aenv, aoff + 1, b2, benv, boff + 1)
            },
            (
                Expr::Let { binder_type: t1, val: v1, body: b1, .. },
                Expr::Let { binder_type: t2, val: v2, body: b2, .. },
            ) => {
                self.eq_mod(t1, aenv, aoff, t2, benv, boff) && self.eq_mod(v1, aenv, aoff, v2, benv, boff)
                    && self.eq_mod(b1, aenv, aoff + 1, b2, benv, boff + 1)
            },
            (
                Expr::Proj { ty_name: n1, idx: i1, structure: e1 },
                Expr::Proj { ty_name: n2, idx: i2, structure: e2 },
            ) => { n1 == n2 && i1 == i2 && self.eq_mod(e1, aenv, aoff, e2, benv, boff) },
            _ => false,
        }
    }

    /// Does the closure `(e, env, off)` denote exactly the free variable `fv`?
    pub fn eq_mod_neu(&self, fv: ExprPtr, e: ExprPtr, env: EnvId, off: u32) -> (r: bool)
        requires
            self.wf(),
            self.st.e_ok(fv),
            self.st.e(fv) is Local,
            self.side_ok(e, env, off),
        ensures
            r ==> self.side(e, env, off) == self.st.e(fv),
            !r && self.side_plain(e, env, off) ==> self.side(e, env, off) != self.st.e(fv),
        decreases self.w@.ntime(env),
    {
        proof {
            self.lemma_wf();
        }
        if let Expr::Var { dbj_idx: j } = self.read_expr(e) {
            if j as u32 >= off {
                return match self.lookup(env, j - off as u16) {
                    Entry::Val(e2, env2) => self.eq_mod_neu(fv, e2, env2, 0),
                    Entry::Neu(g) => {
                        proof {
                            if self.st.e(g) == self.st.e(fv) {
                                self.st.lemma_e_injective(g, fv);
                            }
                        }
                        fv == g
                    },
                    Entry::V(_) => false,
                };
            }
            return false;
        }
        proof {
            if self.st.e(e) == self.st.e(fv) {
                self.st.lemma_e_injective(e, fv);
            }
        }
        e == fv
    }
}

} // verus!
