//! The steps by which a check grows: new expressions, values, spines and
//! environments.
use crate::bignum::Nat;
use crate::closure::{Entry, EnvId};
use crate::ctx::{TcCtx, World};
use crate::error::TcError;
use crate::expr::{BigUintPtr, Expr, ExprPtr, StringPtr};
use crate::level::{LevelPtr, LevelsPtr, NamePtr};
use crate::nbe::{Elim, RigidHead, SpineId, SpineNode, ValId, Value, Vals, VEnvId};
use crate::term::{BinderStyle, Lvl, Term};
use crate::theory::ElimT;
use vstd::prelude::*;

verus! {

impl TcCtx {
    /// Count one more at counter `i`.
    pub fn tick(&mut self, i: usize)
        requires
            old(self).wf(),
        ensures
            final(self).wf(),
            final(self).ext(old(self)),
            final(self).but_ctrs(old(self)),
    {
        let ghost o = *self;
        self.ctrs.bump(i);
        proof {
            assert(self.wf()) by {
                reveal(TcCtx::wf);
            }
            o.lemma_ext_refl();
        }
    }

    /// Only the counters differ from `o`.
    pub open spec fn but_ctrs(&self, o: &TcCtx) -> bool {
        *self == (TcCtx { ctrs: self.ctrs, ..*o })
    }

    /// Only expressions differ from `o`.
    pub open spec fn same_heap(&self, o: &TcCtx) -> bool {
        &&& self.nb == o.nb
        &&& self.rp == o.rp
        &&& self.counts == o.counts
        &&& self.w == o.w
        &&& self.eager_mode == o.eager_mode
    }

    // ---- expressions, levels and literals ----

    /// The name of an expression of the form `x`.
    pub fn mk(&mut self, x: Expr) -> (r: Result<u32, TcError>)
        requires
            old(self).wf(),
            old(self).st.parts_ok(x),
        ensures
            final(self).wf(),
            final(self).ext(old(self)),
            final(self).same_heap(old(self)),
            r matches Ok(y) ==> final(self).st.e_ok(y) && final(self).st.e(y) == old(self).st.meaning(x),
            r is Err ==> r == Err::<u32, TcError>(TcError::Full),
    {
        proof {
            self.lemma_wf();
        }
        let r = self.st.mk(x);
        proof {
            self.lemma_store_step(old(self));
        }
        r
    }

    /// The level zero.
    pub fn zero(&mut self) -> (r: Result<u32, TcError>)
        requires
            old(self).wf(),
        ensures
            final(self).wf(),
            final(self).ext(old(self)),
            final(self).same_heap(old(self)),
            r matches Ok(i) ==> final(self).st.l_ok(i) && final(self).st.l(i) == Lvl::Zero,
            r is Err ==> r == Err::<u32, TcError>(TcError::Full),
    {
        proof {
            self.lemma_wf();
        }
        let r = self.st.zero();
        proof {
            self.lemma_store_step(old(self));
        }
        r
    }

    /// The successor of a level.
    pub fn succ(&mut self, a: LevelPtr) -> (r: Result<u32, TcError>)
        requires
            old(self).wf(),
            old(self).st.l_ok(a),
        ensures
            final(self).wf(),
            final(self).ext(old(self)),
            final(self).same_heap(old(self)),
            r matches Ok(i) ==> final(self).st.l_ok(i) && final(self).st.l(i) == Lvl::succ(old(self).st.l(a)),
            r is Err ==> r == Err::<u32, TcError>(TcError::Full),
    {
        proof {
            self.lemma_wf();
        }
        let r = self.st.succ(a);
        proof {
            self.lemma_store_step(old(self));
        }
        r
    }

    /// The impredicative maximum of two levels.
    pub fn imax(&mut self, a: LevelPtr, b: LevelPtr) -> (r: Result<u32, TcError>)
        requires
            old(self).wf(),
            old(self).st.l_ok(a),
            old(self).st.l_ok(b),
        ensures
            final(self).wf(),
            final(self).ext(old(self)),
            final(self).same_heap(old(self)),
            r matches Ok(i) ==> final(self).st.l_ok(i)
                && final(self).st.l(i) == Lvl::imax(old(self).st.l(a), old(self).st.l(b)),
            r is Err ==> r == Err::<u32, TcError>(TcError::Full),
    {
        proof {
            self.lemma_wf();
        }
        let r = self.st.imax(a, b);
        proof {
            self.lemma_store_step(old(self));
        }
        r
    }

    /// An equivalent level without superfluous structure.
    pub fn simplify(&mut self, l: LevelPtr) -> (r: Result<u32, TcError>)
        requires
            old(self).wf(),
            old(self).st.l_ok(l),
        ensures
            final(self).wf(),
            final(self).ext(old(self)),
            final(self).same_heap(old(self)),
            r matches Ok(i) ==> final(self).st.l_ok(i) && final(self).st.l(i) == old(self).st.l(l).simp(),
            r matches Ok(i) ==> final(self).st.l(i).equiv(old(self).st.l(l))
                && final(self).st.l(i).simp() == final(self).st.l(i),
            r is Err ==> r == Err::<u32, TcError>(TcError::Full),
    {
        proof {
            self.lemma_wf();
        }
        proof {
            Lvl::lemma_simp(self.st.l(l));
        }
        let r = self.st.simplify(l);
        proof {
            self.lemma_store_step(old(self));
        }
        r
    }

    /// The list of the levels `v`.
    pub fn alloc_levels_slice(&mut self, v: &Vec<LevelPtr>) -> (r: Result<u32, TcError>)
        requires
            old(self).wf(),
            forall|j: int| 0 <= j < v@.len() ==> old(self).st.l_ok(#[trigger] v@[j]),
        ensures
            final(self).wf(),
            final(self).ext(old(self)),
            final(self).same_heap(old(self)),
            r matches Ok(i) ==> final(self).st.ls_ok(i) && final(self).st.ls(i) == old(self).st.list(v@),
            r is Err ==> r == Err::<u32, TcError>(TcError::Full),
    {
        proof {
            self.lemma_wf();
        }
        let r = self.st.alloc_levels_slice(v);
        proof {
            self.lemma_store_step(old(self));
        }
        r
    }

    /// Whether two levels are equivalent.
    pub fn eq_antisymm(&mut self, a: LevelPtr, b: LevelPtr) -> (r: Result<bool, TcError>)
        requires
            old(self).wf(),
            old(self).st.l_ok(a),
            old(self).st.l_ok(b),
        ensures
            r matches Err(e) ==> !(e is Reject),
            final(self).wf(),
            final(self).ext(old(self)),
            final(self).same_heap(old(self)),
            r matches Ok(true) ==> old(self).st.l(a).equiv(old(self).st.l(b)),
            a == b ==> r == Ok::<bool, TcError>(true),
    {
        proof {
            self.lemma_wf();
        }
        let r = self.st.eq_antisymm(a, b);
        proof {
            self.lemma_store_step(old(self));
        }
        r
    }

    /// Whether two lists are equivalent level by level.
    pub fn eq_antisymm_many(&mut self, a: LevelsPtr, b: LevelsPtr) -> (r: Result<bool, TcError>)
        requires
            old(self).wf(),
            old(self).st.ls_ok(a),
            old(self).st.ls_ok(b),
        ensures
            r matches Err(e) ==> !(e is Reject),
            final(self).wf(),
            final(self).ext(old(self)),
            final(self).same_heap(old(self)),
            r matches Ok(true) ==> Lvl::equiv_seq(old(self).st.ls(a), old(self).st.ls(b)),
            a == b ==> r == Ok::<bool, TcError>(true),
    {
        proof {
            self.lemma_wf();
        }
        let r = self.st.eq_antisymm_many(a, b);
        proof {
            self.lemma_store_step(old(self));
        }
        r
    }

    /// Whether a level is zero whatever its parameters stand for.
    pub fn is_zero(&mut self, l: LevelPtr) -> (r: Result<bool, TcError>)
        requires
            old(self).wf(),
            old(self).st.l_ok(l),
        ensures
            r matches Err(e) ==> !(e is Reject),
            final(self).wf(),
            final(self).ext(old(self)),
            final(self).same_heap(old(self)),
            r matches Ok(b) ==> b == old(self).st.l(l).is_zero(),
            old(self).st.l(l) == Lvl::Zero ==> r == Ok::<bool, TcError>(true),
    {
        proof {
            self.lemma_wf();
        }
        let r = self.st.is_zero(l);
        proof {
            self.lemma_store_step(old(self));
        }
        r
    }

    /// The name of a natural number.
    pub fn alloc_bignum(&mut self, n: &Nat) -> (r: Result<u32, TcError>)
        requires
            old(self).wf(),
            n.wf(),
        ensures
            final(self).wf(),
            final(self).ext(old(self)),
            final(self).same_heap(old(self)),
            r matches Ok(p) ==> final(self).st.n_ok(p) && final(self).st.n(p) == n@,
            r is Err ==> r == Err::<u32, TcError>(TcError::Full),
    {
        proof {
            self.lemma_wf();
        }
        let r = self.st.alloc_bignum(n);
        proof {
            self.lemma_store_step(old(self));
        }
        r
    }

    /// `e` with the level parameters `ks` replaced by the levels `vs`.
    pub fn subst_expr_levels(&mut self, e: ExprPtr, ks: LevelsPtr, vs: LevelsPtr) -> (r: Result<u32, TcError>)
        requires
            old(self).wf(),
            old(self).st.e_ok(e),
            old(self).st.ls_ok(ks),
            old(self).st.ls_ok(vs),
        ensures
            final(self).wf(),
            final(self).ext(old(self)),
            final(self).same_heap(old(self)),
            r matches Ok(y) ==> final(self).st.e_ok(y)
                && final(self).st.e(y) == old(self).st.e(e).tsubst(old(self).st.ls(ks), old(self).st.ls(vs)),
            r is Err ==> r == Err::<u32, TcError>(TcError::Full),
    {
        proof {
            self.lemma_wf();
        }
        let r = self.st.subst_expr_levels(e, ks, vs);
        proof {
            self.lemma_store_step(old(self));
        }
        r
    }

    /// `e` with the free variables of levels `lo..hi` turned into loose ones.
    pub fn abstr_levels_at(&mut self, e: ExprPtr, lo: u32, hi: u32) -> (r: Result<u32, TcError>)
        requires
            old(self).wf(),
            old(self).st.e_ok(e),
        ensures
            final(self).wf(),
            final(self).ext(old(self)),
            final(self).same_heap(old(self)),
            r matches Ok(y) ==> final(self).st.e_ok(y)
                && final(self).st.e(y) == old(self).st.e(e).abstr(lo as nat, hi as nat, 0),
            r is Err ==> r == Err::<u32, TcError>(TcError::Full),
    {
        proof {
            self.lemma_wf();
        }
        let r = self.st.abstr_levels_at(e, lo, hi);
        proof {
            self.lemma_store_step(old(self));
        }
        r
    }

    /// `f` applied to the arguments `v` from position `from` on.
    pub fn foldl_apps(&mut self, f: ExprPtr, v: &Vec<ExprPtr>, from: usize) -> (r: Result<u32, TcError>)
        requires
            old(self).wf(),
            old(self).st.e_ok(f),
            old(self).st.es_ok(v@),
            from <= v@.len(),
        ensures
            final(self).wf(),
            final(self).ext(old(self)),
            final(self).same_heap(old(self)),
            r matches Ok(y) ==> final(self).st.e_ok(y)
                && final(self).st.e(y) == Term::apps(old(self).st.e(f), old(self).st.es(v@).skip(from as int)),
            r is Err ==> r == Err::<u32, TcError>(TcError::Full),
    {
        proof {
            self.lemma_wf();
        }
        let r = self.st.foldl_apps(f, v, from);
        proof {
            self.lemma_store_step(old(self));
        }
        r
    }

    /// The empty list of levels.
    pub fn no_levels(&mut self) -> (r: Result<LevelsPtr, TcError>)
        requires
            old(self).wf(),
        ensures
            final(self).wf(),
            final(self).ext(old(self)),
            final(self).same_heap(old(self)),
            r matches Ok(i) ==> final(self).st.ls_ok(i) && final(self).st.ls(i) == Seq::<Lvl>::empty(),
            r is Err ==> r == Err::<u32, TcError>(TcError::Full),
    {
        let v: Vec<LevelPtr> = Vec::new();
        proof {
            assert(self.st.list(v@) =~= Seq::empty());
        }
        self.alloc_levels_slice(&v)
    }

    /// The form of `e`.
    pub fn read_expr(&self, e: ExprPtr) -> (r: Expr)
        requires
            self.wf(),
            self.st.e_ok(e),
        ensures
            self.st.shape(e, r),
    {
        proof {
            self.lemma_wf();
        }
        self.st.read_expr(e)
    }

    /// One past the highest loose variable of `e`.
    pub fn num_loose_bvars(&self, e: ExprPtr) -> (r: u16)
        requires
            self.wf(),
            self.st.e_ok(e),
        ensures
            r == self.st.e(e).nl(),
    {
        proof {
            self.lemma_wf();
        }
        self.st.num_loose_bvars(e)
    }

    /// Whether a free variable occurs in `e`.
    pub fn has_fvars(&self, e: ExprPtr) -> (r: bool)
        requires
            self.wf(),
            self.st.e_ok(e),
        ensures
            r == self.st.e(e).has_fv(),
    {
        proof {
            self.lemma_wf();
        }
        self.st.has_fvars(e)
    }

    /// The number `p` names.
    pub fn read_bignum(&self, p: BigUintPtr) -> (r: Nat)
        requires
            self.wf(),
            self.st.n_ok(p),
        ensures
            r.wf(),
            r@ == self.st.n(p),
    {
        proof {
            self.lemma_wf();
        }
        self.st.read_bignum(p)
    }

    // ---- values ----

    /// Value `v` is the node `x`.
    pub open spec fn is_node(&self, v: ValId, x: Value) -> bool {
        &&& self.w@.val_parts(&self.st, x, self.w@.vtime(v))
        &&& self.w@.v(v) == self.w@.val(&self.st, x)
        &&& self.w@.cell_ok(&self.st, x)
    }

    /// The node of a value.
    pub fn get(&self, v: ValId) -> (r: Value)
        requires
            self.wf(),
            self.w@.v_ok(v),
        ensures
            self.is_node(v, r),
            r == self.nb.vals@[v as int],
    {
        proof {
            reveal(TcCtx::wf);
            assert(self.w@.val_ok(&self.st, v, self.nb.vals@[v as int]));
        }
        self.nb.get(v)
    }

    /// The parts of a new value are live.
    proof fn lemma_live(&self, x: Value)
        requires
            self.wf(),
            self.w@.val_parts(&self.st, x, self.w@.clock),
        ensures
            self.counts.live_all(x.children()),
    {
        reveal(TcCtx::wf);
        self.nb.lemma_wf(&self.counts);
        let ch = x.children();
        assert forall|i: int| 0 <= i < ch.len() implies self.counts.live((#[trigger] ch[i]).0, ch[i].1) by {
        }
    }

    /// Nodes stay what they are as one value is added.
    proof fn lemma_push_val(&self, o: &TcCtx, t: Term)
        requires
            o.wf(),
            self.w@ == (World {
                vd: o.w@.vd.push(t),
                vt: o.w@.vt.push(o.w@.clock),
                clock: o.w@.clock + 1,
                ..o.w@
            }),
            self.st == o.st,
        ensures
            self.w@.ext(o.w@),
            self.w@.sized(),
            forall|i: u32|
                i < o.nb.vals@.len() ==> self.w@.val_ok(&self.st, i, #[trigger] o.nb.vals@[i as int]),
            forall|i: u32| i < o.nb.spines@.len() ==> self.w@.spine_ok(i, #[trigger] o.nb.spines@[i as int]),
            forall|i: u32|
                i < o.rp.envs@.len() ==> self.w@.env_ok(&self.st, i, #[trigger] o.rp.envs@[i as int]),
            o.nb.memo.ok(self.w@, &self.st),
            o.rp.memo.ok(self.w@, &self.st),
    {
        reveal(TcCtx::wf);
        let w = self.w@;
        let ow = o.w@;
        assert(w.ext(ow));
        self.st.lemma_ext_refl();
        assert forall|i: u32| i < o.nb.vals@.len() implies w.val_ok(&self.st, i, #[trigger] o.nb.vals@[i as int]) by {
            w.lemma_val_ext(ow, &self.st, &o.st, i, o.nb.vals@[i as int]);
        }
        assert forall|i: u32| i < o.nb.spines@.len() implies w.spine_ok(i, #[trigger] o.nb.spines@[i as int]) by {
            w.lemma_spine_ext(ow, i, o.nb.spines@[i as int]);
        }
        assert forall|i: u32| i < o.rp.envs@.len() implies w.env_ok(&self.st, i, #[trigger] o.rp.envs@[i as int]) by {
            w.lemma_env_ext(ow, &self.st, &o.st, i, o.rp.envs@[i as int]);
        }
        o.nb.memo.lemma_ext(w, ow, &self.st, &o.st);
        o.rp.memo.lemma_ext(w, ow, &self.st, &o.st);
    }

    /// Only values, and the counts with them, differ from `o`.
    pub open spec fn grew(&self, o: &TcCtx) -> bool {
        &&& self.st == o.st
        &&& self.rp == o.rp
        &&& self.nb.memo == o.nb.memo
        &&& self.nb.probe == o.nb.probe
        &&& self.nb.spines@ == o.nb.spines@
        &&& self.eager_mode == o.eager_mode
    }

    /// A stuck value.
    pub fn mk_rigid(&mut self, head: RigidHead, spine: SpineId) -> (r: Result<ValId, TcError>)
        requires
            old(self).wf(),
            old(self).w@.head_ok(&old(self).st, head, old(self).w@.clock),
            old(self).w@.s_ok(spine),
        ensures
            final(self).wf(),
            final(self).ext(old(self)),
            final(self).grew(old(self)),
            r matches Ok(v) ==> final(self).w@.v_ok(v)
                && final(self).w@.v(v) == old(self).w@.val(&old(self).st, Value::Rigid { head, spine })
                && final(self).w@.v(v) == ElimT::spine(old(self).w@.head(&old(self).st, head), old(self).w@.s(spine)),
            r matches Ok(v) ==> !(final(self).nb.vals@[v as int] is Thunk),
            r is Err ==> r == Err::<ValId, TcError>(TcError::Full),
    {
        let ghost o = *self;
        let ghost x = Value::Rigid { head, spine };
        proof {
            self.lemma_heap();
            self.lemma_wf();
            self.lemma_closed();
            self.lemma_head_closed(head);
            self.lemma_spine_closed(self.w@.head(&self.st, head), spine);
            self.lemma_times(spine);
            self.lemma_live(x);
        }
        let made = self.nb.mk_rigid(&mut self.counts, head, spine);
        let ghost c1 = self.counts;
        let r: Result<ValId, TcError> = match made {
            Ok(h) => Ok(h.pin(&mut self.counts)),
            Err(e) => Err(e),
        };
        proof {
            self.nb.lemma_wf(&c1);
            self.nb.lemma_wf_counts(&c1, &self.counts);
            if self.nb.vals@.len() > o.nb.vals@.len() {
                self.w@ = World {
                    vd: o.w@.vd.push(o.w@.val(&o.st, x)),
                    vt: o.w@.vt.push(o.w@.clock),
                    clock: o.w@.clock + 1,
                    ..o.w@
                };
            }
            if r is Ok {
                self.lemma_made(&o, x, 0, r->Ok_0);
            } else {
                assert(self.wf()) by {
                    reveal(TcCtx::wf);
                }
            }
        }
        r
    }

    /// A constant applied, kept folded.
    pub fn mk_unfold(&mut self, name: NamePtr, levels: LevelsPtr, spine: SpineId) -> (r: Result<ValId, TcError>)
        requires
            old(self).wf(),
            old(self).st.ls_ok(levels),
            old(self).w@.s_ok(spine),
        ensures
            final(self).wf(),
            final(self).ext(old(self)),
            final(self).grew(old(self)),
            r matches Ok(v) ==> final(self).w@.v_ok(v)
                && final(self).w@.v(v)
                == ElimT::spine(Term::Const(name, old(self).st.ls(levels)), old(self).w@.s(spine)),
            r matches Ok(v) ==> !(final(self).nb.vals@[v as int] is Thunk),
            r is Err ==> r == Err::<ValId, TcError>(TcError::Full),
    {
        let ghost o = *self;
        let ghost x = Value::Unfold { name, levels, spine, forced: None };
        proof {
            self.lemma_heap();
            self.lemma_wf();
            self.lemma_closed();
            self.lemma_spine_closed(Term::Const(name, self.st.ls(levels)), spine);
            self.lemma_times(spine);
            self.lemma_live(x);
        }
        let made = self.nb.mk_unfold(&mut self.counts, name, levels, spine);
        let ghost c1 = self.counts;
        let r: Result<ValId, TcError> = match made {
            Ok(h) => Ok(h.pin(&mut self.counts)),
            Err(e) => Err(e),
        };
        proof {
            self.nb.lemma_wf(&c1);
            self.nb.lemma_wf_counts(&c1, &self.counts);
            if self.nb.vals@.len() > o.nb.vals@.len() {
                self.w@ = World {
                    vd: o.w@.vd.push(o.w@.val(&o.st, x)),
                    vt: o.w@.vt.push(o.w@.clock),
                    clock: o.w@.clock + 1,
                    ..o.w@
                };
            }
            if r is Ok {
                self.lemma_made(&o, x, 0, r->Ok_0);
            } else {
                assert(self.wf()) by {
                    reveal(TcCtx::wf);
                }
            }
        }
        r
    }

    /// A lambda over `env`.
    pub fn mk_lam(&mut self, binder_name: NamePtr, binder_style: BinderStyle, binder_type: ExprPtr, env: VEnvId,
        body: ExprPtr) -> (r: Result<ValId, TcError>)
        requires
            old(self).wf(),
            old(self).st.e_ok(binder_type),
            old(self).st.e_ok(body),
            old(self).w@.n_ok(env),
            old(self).st.e(binder_type).nl() <= old(self).w@.n(env).len(),
            old(self).st.e(body).nl() <= old(self).w@.n(env).len() + 1,
        ensures
            final(self).wf(),
            final(self).ext(old(self)),
            final(self).grew(old(self)),
            r matches Ok(v) ==> final(self).w@.v_ok(v)
                && World::alike(Term::lam(binder_name, binder_style,
                old(self).st.e(binder_type).inst(0, old(self).w@.n(env)),
                old(self).st.e(body).inst(1, old(self).w@.n(env))), final(self).w@.v(v)),
            r matches Ok(v) ==> !(final(self).nb.vals@[v as int] is Thunk),
            r is Err ==> r == Err::<ValId, TcError>(TcError::Full),
    {
        let ghost o = *self;
        let ghost x = Value::Lam { binder_name, binder_style, binder_type, domain: None, env, body };
        proof {
            self.lemma_heap();
            self.lemma_wf();
            self.lemma_closed();
            self.lemma_ntime(env);
            Term::lemma_inst_nl(self.st.e(binder_type), 0, self.w@.n(env));
            Term::lemma_inst_nl(self.st.e(body), 1, self.w@.n(env));
            self.lemma_live(x);
        }
        let made = self.nb.mk_lam(&mut self.counts, binder_name, binder_style, binder_type, env, body);
        let ghost c1 = self.counts;
        let r: Result<ValId, TcError> = match made {
            Ok(h) => Ok(h.pin(&mut self.counts)),
            Err(e) => Err(e),
        };
        proof {
            self.nb.lemma_wf(&c1);
            self.nb.lemma_wf_counts(&c1, &self.counts);
            if self.nb.vals@.len() > o.nb.vals@.len() {
                self.w@ = World {
                    vd: o.w@.vd.push(o.w@.val(&o.st, x)),
                    vt: o.w@.vt.push(o.w@.clock),
                    clock: o.w@.clock + 1,
                    ..o.w@
                };
            }
            if r is Ok {
                self.lemma_made(&o, x, 0, r->Ok_0);
            } else {
                assert(self.wf()) by {
                    reveal(TcCtx::wf);
                }
            }
        }
        r
    }

    /// A function type over `env`.
    pub fn mk_pi_val(&mut self, binder_name: NamePtr, binder_style: BinderStyle, domain: ValId, env: VEnvId,
        body: ExprPtr) -> (r: Result<ValId, TcError>)
        requires
            old(self).wf(),
            old(self).w@.v_ok(domain),
            old(self).st.e_ok(body),
            old(self).w@.n_ok(env),
            old(self).st.e(body).nl() <= old(self).w@.n(env).len() + 1,
        ensures
            final(self).wf(),
            final(self).ext(old(self)),
            final(self).grew(old(self)),
            r matches Ok(v) ==> final(self).w@.v_ok(v)
                && World::alike(Term::pi(binder_name, binder_style, old(self).w@.v(domain),
                old(self).st.e(body).inst(1, old(self).w@.n(env))), final(self).w@.v(v)),
            r matches Ok(v) ==> !(final(self).nb.vals@[v as int] is Thunk),
            r is Err ==> r == Err::<ValId, TcError>(TcError::Full),
    {
        let ghost o = *self;
        let ghost x = Value::Pi { binder_name, binder_style, domain, env, body };
        proof {
            self.lemma_heap();
            self.lemma_wf();
            self.lemma_closed();
            self.lemma_ntime(env);
            self.lemma_vtime(domain);
            Term::lemma_inst_nl(self.st.e(body), 1, self.w@.n(env));
            self.lemma_live(x);
        }
        let made = self.nb.mk_pi(&mut self.counts, binder_name, binder_style, domain, env, body);
        let ghost c1 = self.counts;
        let r: Result<ValId, TcError> = match made {
            Ok(h) => Ok(h.pin(&mut self.counts)),
            Err(e) => Err(e),
        };
        proof {
            self.nb.lemma_wf(&c1);
            self.nb.lemma_wf_counts(&c1, &self.counts);
            if self.nb.vals@.len() > o.nb.vals@.len() {
                self.w@ = World {
                    vd: o.w@.vd.push(o.w@.val(&o.st, x)),
                    vt: o.w@.vt.push(o.w@.clock),
                    clock: o.w@.clock + 1,
                    ..o.w@
                };
            }
            if r is Ok {
                self.lemma_made(&o, x, 0, r->Ok_0);
            } else {
                assert(self.wf()) by {
                    reveal(TcCtx::wf);
                }
            }
        }
        r
    }

    /// A sort, its level simplified.
    pub fn mk_sort_val(&mut self, level: LevelPtr) -> (r: Result<ValId, TcError>)
        requires
            old(self).wf(),
            old(self).st.l_ok(level),
            old(self).st.l(level).simp() == old(self).st.l(level),
        ensures
            final(self).wf(),
            final(self).ext(old(self)),
            final(self).grew(old(self)),
            r matches Ok(v) ==> final(self).w@.v_ok(v) && final(self).w@.v(v) == Term::Sort(old(self).st.l(level)),
            r matches Ok(v) ==> !(final(self).nb.vals@[v as int] is Thunk),
            r is Err ==> r == Err::<ValId, TcError>(TcError::Full),
    {
        let ghost o = *self;
        let ghost x = Value::Sort { level };
        proof {
            self.lemma_heap();
            self.lemma_wf();
            self.lemma_closed();
            self.lemma_live(x);
        }
        let made = self.nb.mk_sort(&mut self.counts, level);
        let ghost c1 = self.counts;
        let r: Result<ValId, TcError> = match made {
            Ok(h) => Ok(h.pin(&mut self.counts)),
            Err(e) => Err(e),
        };
        proof {
            self.nb.lemma_wf(&c1);
            self.nb.lemma_wf_counts(&c1, &self.counts);
            if self.nb.vals@.len() > o.nb.vals@.len() {
                self.w@ = World {
                    vd: o.w@.vd.push(o.w@.val(&o.st, x)),
                    vt: o.w@.vt.push(o.w@.clock),
                    clock: o.w@.clock + 1,
                    ..o.w@
                };
            }
            if r is Ok {
                self.lemma_made(&o, x, 0, r->Ok_0);
            } else {
                assert(self.wf()) by {
                    reveal(TcCtx::wf);
                }
            }
        }
        r
    }

    /// A natural number literal.
    pub fn mk_nat(&mut self, ptr: BigUintPtr) -> (r: Result<ValId, TcError>)
        requires
            old(self).wf(),
            old(self).st.n_ok(ptr),
        ensures
            final(self).wf(),
            final(self).ext(old(self)),
            final(self).grew(old(self)),
            r matches Ok(v) ==> final(self).w@.v_ok(v) && final(self).w@.v(v) == Term::Nat(old(self).st.n(ptr)),
            r matches Ok(v) ==> !(final(self).nb.vals@[v as int] is Thunk),
            r is Err ==> r == Err::<ValId, TcError>(TcError::Full),
    {
        let ghost o = *self;
        let ghost x = Value::NatLit { ptr };
        proof {
            self.lemma_heap();
            self.lemma_wf();
            self.lemma_closed();
            self.lemma_live(x);
        }
        let made = self.nb.mk_nat(&mut self.counts, ptr);
        let ghost c1 = self.counts;
        let r: Result<ValId, TcError> = match made {
            Ok(h) => Ok(h.pin(&mut self.counts)),
            Err(e) => Err(e),
        };
        proof {
            self.nb.lemma_wf(&c1);
            self.nb.lemma_wf_counts(&c1, &self.counts);
            if self.nb.vals@.len() > o.nb.vals@.len() {
                self.w@ = World {
                    vd: o.w@.vd.push(o.w@.val(&o.st, x)),
                    vt: o.w@.vt.push(o.w@.clock),
                    clock: o.w@.clock + 1,
                    ..o.w@
                };
            }
            if r is Ok {
                self.lemma_made(&o, x, 0, r->Ok_0);
            } else {
                assert(self.wf()) by {
                    reveal(TcCtx::wf);
                }
            }
        }
        r
    }

    /// A string literal.
    pub fn mk_str(&mut self, ptr: StringPtr) -> (r: Result<ValId, TcError>)
        requires
            old(self).wf(),
            old(self).st.s_ok(ptr),
        ensures
            final(self).wf(),
            final(self).ext(old(self)),
            final(self).grew(old(self)),
            r matches Ok(v) ==> final(self).w@.v_ok(v) && final(self).w@.v(v) == Term::Str(old(self).st.s(ptr)),
            r matches Ok(v) ==> !(final(self).nb.vals@[v as int] is Thunk),
            r is Err ==> r == Err::<ValId, TcError>(TcError::Full),
    {
        let ghost o = *self;
        let ghost x = Value::StrLit { ptr };
        proof {
            self.lemma_heap();
            self.lemma_wf();
            self.lemma_closed();
            self.lemma_live(x);
        }
        let made = self.nb.mk_str(&mut self.counts, ptr);
        let ghost c1 = self.counts;
        let r: Result<ValId, TcError> = match made {
            Ok(h) => Ok(h.pin(&mut self.counts)),
            Err(e) => Err(e),
        };
        proof {
            self.nb.lemma_wf(&c1);
            self.nb.lemma_wf_counts(&c1, &self.counts);
            if self.nb.vals@.len() > o.nb.vals@.len() {
                self.w@ = World {
                    vd: o.w@.vd.push(o.w@.val(&o.st, x)),
                    vt: o.w@.vt.push(o.w@.clock),
                    clock: o.w@.clock + 1,
                    ..o.w@
                };
            }
            if r is Ok {
                self.lemma_made(&o, x, 0, r->Ok_0);
            } else {
                assert(self.wf()) by {
                    reveal(TcCtx::wf);
                }
            }
        }
        r
    }

    /// A thunk over `env`, interned under `key_env`, which names what `expr` reads.
    pub fn mk_thunk_keyed(&mut self, key_env: VEnvId, env: VEnvId, expr: ExprPtr) -> (r: Result<ValId, TcError>)
        requires
            old(self).wf(),
            old(self).st.e_ok(expr),
            old(self).w@.n_ok(env),
            old(self).st.e(expr).nl() <= old(self).w@.n(env).len(),
            old(self).w@.read_rel(&old(self).st, old(self).rp.memo.views@, key_env, expr, env),
        ensures
            final(self).wf(),
            final(self).ext(old(self)),
            final(self).grew(old(self)),
            r matches Ok(v) ==> final(self).w@.v_ok(v)
                && final(self).w@.v(v) == old(self).st.e(expr).inst(0, old(self).w@.n(env)),
            r is Err ==> r == Err::<ValId, TcError>(TcError::Full),
    {
        let ghost o = *self;
        let ghost x = Value::Thunk { env, expr, forced: None };
        proof {
            self.lemma_heap();
            self.lemma_wf();
            self.lemma_closed();
            self.lemma_ntime(env);
            Term::lemma_inst_nl(self.st.e(expr), 0, self.w@.n(env));
            self.lemma_live(x);
        }
        let made = self.nb.mk_thunk_keyed(&mut self.counts, key_env, env, expr);
        let ghost c1 = self.counts;
        let r: Result<ValId, TcError> = match made {
            Ok(h) => Ok(h.pin(&mut self.counts)),
            Err(e) => Err(e),
        };
        proof {
            self.nb.lemma_wf(&c1);
            self.nb.lemma_wf_counts(&c1, &self.counts);
            if self.nb.vals@.len() > o.nb.vals@.len() {
                self.w@ = World {
                    vd: o.w@.vd.push(o.w@.val(&o.st, x)),
                    vt: o.w@.vt.push(o.w@.clock),
                    clock: o.w@.clock + 1,
                    ..o.w@
                };
            }
            if r is Ok {
                self.lemma_made(&o, x, key_env, r->Ok_0);
            } else {
                assert(self.wf()) by {
                    reveal(TcCtx::wf);
                }
            }
        }
        r
    }

    /// Nodes were made in the past.
    pub proof fn lemma_times(&self, s: SpineId)
        requires
            self.wf(),
            self.w@.s_ok(s),
        ensures
            self.w@.stime(s) < self.w@.clock,
    {
        reveal(TcCtx::wf);
        assert(self.w@.spine_ok(s, self.nb.spines@[s as int]));
    }

    pub proof fn lemma_ntime(&self, n: EnvId)
        requires
            self.wf(),
            self.w@.n_ok(n),
        ensures
            self.w@.ntime(n) < self.w@.clock,
            Term::closed_seq(self.w@.n(n)),
            self.w@.ents(n).len() == self.w@.n(n).len(),
            self.w@.plain(n) ==> Term::ml_seq(self.w@.n(n), self.w@.nlevel(n)),
    {
        reveal(TcCtx::wf);
        assert(self.w@.env_ok(&self.st, n, self.rp.envs@[n as int]));
    }

    pub proof fn lemma_vtime(&self, v: ValId)
        requires
            self.wf(),
            self.w@.v_ok(v),
        ensures
            self.w@.vtime(v) < self.w@.clock,
            self.w@.v(v).nl() == 0,
    {
        reveal(TcCtx::wf);
        assert(self.w@.val_ok(&self.st, v, self.nb.vals@[v as int]));
    }

    /// A head is closed.
    proof fn lemma_head_closed(&self, h: RigidHead)
        requires
            self.wf(),
            self.w@.head_ok(&self.st, h, self.w@.clock),
        ensures
            self.w@.head(&self.st, h).nl() == 0,
    {
    }

    /// A closed head under a spine is closed.
    pub proof fn lemma_spine_closed(&self, f: Term, s: SpineId)
        requires
            self.wf(),
            self.w@.s_ok(s),
            f.nl() == 0,
        ensures
            ElimT::spine(f, self.w@.s(s)).nl() == 0,
        decreases s,
    {
        reveal(TcCtx::wf);
        let x = self.nb.spines@[s as int];
        assert(self.w@.spine_ok(s, x));
        if s > 0 {
            assert(x.parent < s) by {
                reveal(Vals::wf);
                assert(self.nb.spine_ok(s as int));
            }
            self.lemma_spine_closed(f, x.parent);
            ElimT::lemma_spine_push(f, self.w@.s(x.parent), self.w@.elim(x.elim));
            match x.elim {
                Elim::App(a) => {
                    self.lemma_vtime(a);
                },
                Elim::Proj { .. } => {},
            }
        }
    }

    // ---- spines ----

    /// What the eliminations `es` stand for.
    pub open spec fn elims(&self, es: Seq<Elim>) -> Seq<ElimT> {
        Seq::new(es.len(), |i: int| self.w@.elim(es[i]))
    }

    /// The eliminations of a spine stand for what the spine does.
    proof fn lemma_elims(&self, s: SpineId)
        requires
            self.wf(),
            self.w@.s_ok(s),
        ensures
            self.elims(Vals::elims(self.nb.spines@, s as int)) == self.w@.s(s),
            forall|i: int|
                0 <= i < Vals::elims(self.nb.spines@, s as int).len() ==> self.w@.elim_ok(
                    #[trigger] Vals::elims(self.nb.spines@, s as int)[i],
                    self.w@.stime(s),
                ),
            Vals::elims(self.nb.spines@, s as int).len() == self.w@.s(s).len(),
        decreases s,
    {
        self.lemma_heap();
        let x = self.nb.spines@[s as int];
        let es = Vals::elims(self.nb.spines@, s as int);
        assert(self.w@.spine_ok(s, x)) by {
            reveal(TcCtx::wf);
        }
        assert(self.nb.spine_ok(s as int)) by {
            reveal(Vals::wf);
        }
        if s > 0 {
            self.lemma_elims(x.parent);
            let ps = Vals::elims(self.nb.spines@, x.parent as int);
            assert(es == ps.push(x.elim));
            assert(self.elims(es) =~= self.elims(ps).push(self.w@.elim(x.elim)));
            assert forall|i: int| 0 <= i < es.len() implies self.w@.elim_ok(#[trigger] es[i], self.w@.stime(s)) by {
                if i < ps.len() {
                    assert(self.w@.elim_ok(ps[i], self.w@.stime(x.parent)));
                }
            }
        } else {
            assert(self.elims(es) =~= Seq::empty());
        }
    }

    /// The values `v` are named.
    pub open spec fn vs_ok(&self, v: Seq<ValId>) -> bool {
        forall|i: int| 0 <= i < v.len() ==> self.w@.v_ok(#[trigger] v[i])
    }

    /// What the values `v` stand for.
    pub open spec fn vs(&self, v: Seq<ValId>) -> Seq<Term> {
        Seq::new(v.len(), |i: int| self.w@.v(v[i]))
    }

    pub fn spine_len(&self, s: SpineId) -> (r: u32)
        requires
            self.wf(),
            self.w@.s_ok(s),
        ensures
            r == self.w@.s(s).len(),
    {
        proof {
            self.lemma_heap();
            self.lemma_elims(s);
            self.nb.lemma_elims_len(&self.counts, s as int);
        }
        self.nb.spine_len(s)
    }

    /// The eliminations of a spine, outermost last.
    pub fn spine_to_vec(&self, s: SpineId) -> (r: Vec<Elim>)
        requires
            self.wf(),
            self.w@.s_ok(s),
        ensures
            self.elims(r@) == self.w@.s(s),
            r@.len() == self.w@.s(s).len(),
            forall|i: int| 0 <= i < r@.len() ==> self.w@.elim_ok(#[trigger] r@[i], self.w@.stime(s)),
    {
        proof {
            self.lemma_heap();
            self.lemma_elims(s);
        }
        self.nb.spine_to_vec(&self.counts, s)
    }

    /// The arguments of a spine of applications, or `None` if a projection
    /// stands anywhere in it.
    pub fn spine_args(&self, s: SpineId) -> (r: Option<Vec<ValId>>)
        requires
            self.wf(),
            self.w@.s_ok(s),
        ensures
            match r {
                Some(v) => self.vs_ok(v@) && self.w@.s(s) == ElimT::of_args(self.vs(v@))
                    && v@.len() == self.w@.s(s).len(),
                None => exists|i: int| 0 <= i < self.w@.s(s).len() && #[trigger] self.w@.s(s)[i] is Proj,
            },
    {
        let ghost es = Vals::elims(self.nb.spines@, s as int);
        proof {
            self.lemma_heap();
            self.lemma_elims(s);
        }
        let r = self.nb.spine_args(&self.counts, s);
        proof {
            match &r {
                Some(v) => {
                    assert forall|i: int| 0 <= i < v@.len() implies self.w@.v_ok(#[trigger] v@[i]) by {
                        assert(es[i] is App);
                        assert(self.w@.elim_ok(es[i], self.w@.stime(s)));
                    }
                    assert(self.elims(es) =~= ElimT::of_args(self.vs(v@))) by {
                        assert forall|i: int| 0 <= i < es.len() implies self.elims(es)[i] == ElimT::of_args(
                            self.vs(v@),
                        )[i] by {
                            assert(es[i] is App);
                        }
                    }
                },
                None => {
                    let i = choose|i: int| 0 <= i < es.len() && !(#[trigger] es[i] is App);
                    assert(self.elims(es)[i] is Proj);
                },
            }
        }
        r
    }

    /// The `i`th elimination counting from the innermost application.
    pub fn spine_get(&self, s: SpineId, i: usize) -> (r: Option<Elim>)
        requires
            self.wf(),
            self.w@.s_ok(s),
        ensures
            match r {
                Some(x) => i < self.w@.s(s).len() && self.w@.s(s)[i as int] == self.w@.elim(x) && self.w@.elim_ok(
                    x,
                    self.w@.stime(s),
                ),
                None => i >= self.w@.s(s).len(),
            },
    {
        proof {
            self.lemma_heap();
            self.lemma_elims(s);
        }
        let r = self.nb.spine_get(&self.counts, s, i);
        proof {
            if r is Some {
                let es = Vals::elims(self.nb.spines@, s as int);
                assert(self.elims(es)[i as int] == self.w@.elim(es[i as int]));
            }
        }
        r
    }

    /// The last elimination of a spine and the spine before it.
    pub fn spine_node(&self, s: SpineId) -> (r: SpineNode)
        requires
            self.wf(),
            self.w@.s_ok(s),
        ensures
            s > 0 ==> r.parent < s && self.w@.s_ok(r.parent) && self.w@.elim_ok(r.elim, self.w@.stime(s))
                && self.w@.s(s)
                == self.w@.s(r.parent).push(self.w@.elim(r.elim)),
            s == 0 ==> self.w@.s(s).len() == 0,
    {
        proof {
            self.lemma_heap();
            assert(self.w@.spine_ok(s, self.nb.spines@[s as int])) by {
                reveal(TcCtx::wf);
            }
            assert(self.nb.spine_ok(s as int)) by {
                reveal(Vals::wf);
            }
        }
        *self.nb.spines.index(s as usize)
    }

    /// Extend a spine.
    pub fn spine_snoc(&mut self, parent: SpineId, elim: Elim) -> (r: Result<SpineId, TcError>)
        requires
            old(self).wf(),
            old(self).w@.s_ok(parent),
            old(self).w@.elim_ok(elim, old(self).w@.clock),
        ensures
            final(self).wf(),
            final(self).ext(old(self)),
            final(self).st == old(self).st,
            final(self).rp == old(self).rp,
            final(self).nb.vals@ == old(self).nb.vals@,
            final(self).nb.memo == old(self).nb.memo,
            final(self).nb.probe == old(self).nb.probe,
            final(self).eager_mode == old(self).eager_mode,
            r matches Ok(s) ==> final(self).w@.s_ok(s) && final(self).w@.s(s) == old(self).w@.s(parent).push(
                old(self).w@.elim(elim),
            ),
            r is Err ==> r == Err::<SpineId, TcError>(TcError::Full),
    {
        let ghost o = *self;
        proof {
            self.lemma_heap();
            self.lemma_times(parent);
        }
        let made = self.nb.spine_snoc(&mut self.counts, parent, elim);
        let ghost c1 = self.counts;
        let r: Result<SpineId, TcError> = match made {
            Ok(h) => Ok(h.pin(&mut self.counts)),
            Err(e) => Err(e),
        };
        proof {
            self.nb.lemma_wf(&c1);
            self.nb.lemma_wf_counts(&c1, &self.counts);
            if self.nb.spines@.len() > o.nb.spines@.len() {
                self.w@ = World {
                    sd: o.w@.sd.push(o.w@.s(parent).push(o.w@.elim(elim))),
                    spt: o.w@.spt.push(o.w@.clock),
                    clock: o.w@.clock + 1,
                    ..o.w@
                };
            }
            if r is Ok {
                self.lemma_snoced(&o, parent, elim, r->Ok_0);
            } else {
                self.lemma_unmade(&o);
            }
        }
        r
    }

    /// A failed attempt changes nothing that matters.
    proof fn lemma_unmade(&self, o: &TcCtx)
        requires
            o.wf(),
            self.st == o.st,
            self.rp == o.rp,
            self.names == o.names,
            self.nat_ext == o.nat_ext,
            self.str_ext == o.str_ext,
            self.eager_mode == o.eager_mode,
            self.nb.memo == o.nb.memo,
            self.nb.vals@ == o.nb.vals@,
            self.nb.spines@ == o.nb.spines@,
            self.nb.tabs.thunk == o.nb.tabs.thunk,
            Vals::named(o.nb.tabs, o.nb.vals@, o.nb.spines@) && o.counts.all_live() ==> Vals::named(
                self.nb.tabs,
                self.nb.vals@,
                self.nb.spines@,
            ),
            self.nb.wf(&self.counts),
            self.counts.wf(),
            self.counts.all_live(),
            self.counts.envs@.len() == o.counts.envs@.len(),
            self.w == o.w,
        ensures
            self.wf(),
    {
        reveal(TcCtx::wf);
    }

    /// A spine found or appended leaves the check well formed.
    #[verifier::spinoff_prover]
    proof fn lemma_snoced(&self, o: &TcCtx, parent: SpineId, elim: Elim, s: SpineId)
        requires
            o.wf(),
            o.w@.s_ok(parent),
            o.w@.elim_ok(elim, o.w@.clock),
            self.st == o.st,
            self.rp == o.rp,
            self.names == o.names,
            self.nat_ext == o.nat_ext,
            self.str_ext == o.str_ext,
            self.eager_mode == o.eager_mode,
            self.nb.memo == o.nb.memo,
            self.nb.vals@ == o.nb.vals@,
            self.nb.tabs.thunk == o.nb.tabs.thunk,
            Vals::named(o.nb.tabs, o.nb.vals@, o.nb.spines@) && o.counts.all_live() ==> Vals::named(
                self.nb.tabs,
                self.nb.vals@,
                self.nb.spines@,
            ),
            self.nb.wf(&self.counts),
            self.counts.wf(),
            self.counts.all_live(),
            self.counts.envs@.len() == o.counts.envs@.len(),
            0 < s < self.nb.spines@.len(),
            self.nb.spines@[s as int].parent == parent,
            self.nb.spines@[s as int].elim == elim,
            (self.nb.spines@ == o.nb.spines@ && self.w == o.w) || (exists|x: SpineNode| #[trigger]
                o.nb.spines@.push(x) == self.nb.spines@ && s == o.nb.spines@.len() && self.w@ == (World {
                    sd: o.w@.sd.push(o.w@.s(parent).push(o.w@.elim(elim))),
                    spt: o.w@.spt.push(o.w@.clock),
                    clock: o.w@.clock + 1,
                    ..o.w@
                })),
        ensures
            self.wf(),
            self.ext(o),
            self.w@.s(s) == o.w@.s(parent).push(o.w@.elim(elim)),
    {
        reveal(TcCtx::wf);
        let w = self.w@;
        let ow = o.w@;
        assert(w.ext(ow));
        self.st.lemma_ext_refl();
        if self.nb.spines@ != o.nb.spines@ {
            o.lemma_times(parent);
            assert forall|i: u32| i < self.nb.vals@.len() implies w.val_ok(
                &self.st,
                i,
                #[trigger] self.nb.vals@[i as int],
            ) by {
                w.lemma_val_ext(ow, &self.st, &o.st, i, o.nb.vals@[i as int]);
            }
            assert forall|i: u32| i < self.nb.spines@.len() implies w.spine_ok(
                i,
                #[trigger] self.nb.spines@[i as int],
            ) by {
                if i < o.nb.spines@.len() {
                    assert(o.nb.spines@[i as int] == self.nb.spines@[i as int]);
                    w.lemma_spine_ext(ow, i, o.nb.spines@[i as int]);
                }
            }
            assert forall|i: u32| i < self.rp.envs@.len() implies w.env_ok(
                &self.st,
                i,
                #[trigger] self.rp.envs@[i as int],
            ) by {
                w.lemma_env_ext(ow, &self.st, &o.st, i, o.rp.envs@[i as int]);
            }
            self.nb.memo.lemma_ext(w, ow, &self.st, &o.st);
            self.rp.memo.lemma_ext(w, ow, &self.st, &o.st);
            assert(self.thunks_ok()) by {
                assert forall|k: u32, y: u32| #[trigger] self.nb.tabs.thunk@.contains_key((k, y, 0, 0)) implies {
                    let i = self.nb.tabs.thunk@[(k, y, 0, 0)];
                    i < self.nb.vals@.len() && self.nb.vals@[i as int] is Thunk && w.read_rel(
                        &self.st,
                        self.rp.memo.views@,
                        k,
                        y,
                        self.nb.vals@[i as int]->Thunk_env,
                    )
                } by {
                    let i = o.nb.tabs.thunk@[(k, y, 0, 0)];
                    assert(ow.val_ok(&o.st, i, o.nb.vals@[i as int]));
                }
            }
        } else {
            assert(ow.spine_ok(s, o.nb.spines@[s as int]));
        }
    }

    // ---- cells ----

    /// Record what a thunk or a folded constant evaluated to.
    pub fn set_forced(&mut self, v: ValId, f: ValId)
        requires
            old(self).wf(),
            old(self).w@.v_ok(v),
            old(self).w@.v_ok(f),
            old(self).w@.g.steps(old(self).w@.v(v), old(self).w@.v(f)),
        ensures
            final(self).wf(),
            final(self).ext(old(self)),
            final(self).st == old(self).st,
            final(self).rp == old(self).rp,
            final(self).w == old(self).w,
            final(self).nb.memo == old(self).nb.memo,
            final(self).nb.probe == old(self).nb.probe,
            final(self).nb.spines@ == old(self).nb.spines@,
            final(self).eager_mode == old(self).eager_mode,
            final(self).nb.vals@.len() == old(self).nb.vals@.len(),
            forall|i: int|
                0 <= i < old(self).nb.vals@.len() ==> (#[trigger] final(self).nb.vals@[i] is Thunk) == (old(self).nb.vals@[i] is Thunk),
    {
        let ghost o = *self;
        proof {
            self.lemma_heap();
        }
        // a result that is already there stays
        match self.get(v) {
            Value::Thunk { forced: Some(_), .. } => {
                return;
            },
            Value::Unfold { forced: Some(p), .. } => {
                if p != v {
                    return;
                }
            },
            _ => {},
        }
        self.nb.set_forced(&mut self.counts, v, f);
        proof {
            self.lemma_celled(&o, v);
        }
    }

    /// Record the value of a lambda's domain.
    pub fn set_domain(&mut self, v: ValId, d: ValId)
        requires
            old(self).wf(),
            old(self).w@.v_ok(v),
            old(self).w@.v_ok(d),
            old(self).w@.v(v) matches Term::Lam(_, _, a, _) ==> old(self).w@.g.steps(*a, old(self).w@.v(d)),
        ensures
            final(self).wf(),
            final(self).ext(old(self)),
            final(self).st == old(self).st,
            final(self).rp == old(self).rp,
            final(self).w == old(self).w,
            final(self).nb.memo == old(self).nb.memo,
            final(self).nb.probe == old(self).nb.probe,
            final(self).nb.spines@ == old(self).nb.spines@,
            final(self).eager_mode == old(self).eager_mode,
            final(self).nb.vals@.len() == old(self).nb.vals@.len(),
            forall|i: int|
                0 <= i < old(self).nb.vals@.len() ==> (#[trigger] final(self).nb.vals@[i] is Thunk) == (old(self).nb.vals@[i] is Thunk),
    {
        let ghost o = *self;
        proof {
            self.lemma_heap();
        }
        // a domain that is already there stays
        if let Value::Lam { domain: Some(_), .. } = self.get(v) {
            return;
        }
        self.nb.set_domain(&mut self.counts, v, d);
        proof {
            self.lemma_celled(&o, v);
        }
    }

    /// A cell that holds what its value reduces to leaves the check well formed.
    #[verifier::spinoff_prover]
    proof fn lemma_celled(&self, o: &TcCtx, v: ValId)
        requires
            o.wf(),
            o.w@.v_ok(v),
            self.st == o.st,
            self.rp == o.rp,
            self.names == o.names,
            self.nat_ext == o.nat_ext,
            self.str_ext == o.str_ext,
            self.eager_mode == o.eager_mode,
            self.nb.memo == o.nb.memo,
            self.nb.spines@ == o.nb.spines@,
            self.nb.tabs == o.nb.tabs,
            self.nb.vals@ == o.nb.vals@.update(v as int, self.nb.vals@[v as int]),
            self.nb.vals@[v as int].bare() == o.nb.vals@[v as int].bare(),
            self.w@.cell_ok(&self.st, self.nb.vals@[v as int]),
            Vals::named(o.nb.tabs, o.nb.vals@, o.nb.spines@) && o.counts.all_live() ==> Vals::named(
                self.nb.tabs,
                self.nb.vals@,
                self.nb.spines@,
            ),
            self.nb.wf(&self.counts),
            self.counts.wf(),
            self.counts.all_live(),
            self.counts.envs@.len() == o.counts.envs@.len(),
            self.w == o.w,
        ensures
            self.wf(),
            self.ext(o),
    {
        reveal(TcCtx::wf);
        let w = self.w@;
        let x = self.nb.vals@[v as int];
        assert(w.val_ok(&o.st, v, o.nb.vals@[v as int]));
        assert(w.val(&self.st, x) == w.val(&self.st, o.nb.vals@[v as int]));
        assert(w.val_ok(&self.st, v, x));
        assert forall|i: u32| i < self.nb.vals@.len() implies w.val_ok(&self.st, i,
            #[trigger] self.nb.vals@[i as int]) by {
            if i != v {
                assert(w.val_ok(&o.st, i, o.nb.vals@[i as int]));
            }
        }
        assert(self.thunks_ok()) by {
            assert forall|k: u32, y: u32| #[trigger] self.nb.tabs.thunk@.contains_key((k, y, 0, 0)) implies {
                let i = self.nb.tabs.thunk@[(k, y, 0, 0)];
                i < self.nb.vals@.len() && self.nb.vals@[i as int] is Thunk && w.read_rel(
                    &self.st,
                    self.rp.memo.views@,
                    k,
                    y,
                    self.nb.vals@[i as int]->Thunk_env,
                )
            } by {
                let i = o.nb.tabs.thunk@[(k, y, 0, 0)];
                assert(o.nb.vals@[i as int] is Thunk);
            }
        }
    }

    /// The counts and nodes of a check.
    pub proof fn lemma_heap(&self)
        requires
            self.wf(),
        ensures
            self.nb.wf(&self.counts),
            self.counts.wf(),
            self.counts.all_live(),
            self.w@.vd.len() == self.nb.vals@.len() == self.counts.vals@.len(),
            self.w@.sd.len() == self.nb.spines@.len() == self.counts.spines@.len(),
            self.w@.nd.len() == self.rp.envs@.len() == self.counts.envs@.len(),
    {
        reveal(TcCtx::wf);
        self.nb.lemma_wf(&self.counts);
    }

    /// A value found or appended leaves the check well formed.
    #[verifier::spinoff_prover]
    proof fn lemma_made(&self, o: &TcCtx, x: Value, key_env: VEnvId, v: ValId)
        requires
            o.wf(),
            x.bare() == x,
            o.w@.val_parts(&o.st, x, o.w@.clock),
            o.w@.val(&o.st, x).nl() == 0,
            x matches Value::Thunk { env, expr, .. } ==> o.w@.read_rel(&o.st, o.rp.memo.views@, key_env, expr, env),
            self.st == o.st,
            self.rp == o.rp,
            self.names == o.names,
            self.nat_ext == o.nat_ext,
            self.str_ext == o.str_ext,
            self.eager_mode == o.eager_mode,
            self.nb.memo == o.nb.memo,
            self.nb.spines@ == o.nb.spines@,
            Vals::named(o.nb.tabs, o.nb.vals@, o.nb.spines@) && o.counts.all_live() ==> Vals::named(
                self.nb.tabs,
                self.nb.vals@,
                self.nb.spines@,
            ),
            self.nb.wf(&self.counts),
            self.counts.wf(),
            self.counts.all_live(),
            self.counts.envs@.len() == o.counts.envs@.len(),
            v < self.nb.vals@.len(),
            (self.nb.vals@ == o.nb.vals@ && self.w == o.w) || (self.nb.vals@ == o.nb.vals@.push(x) && v
                == o.nb.vals@.len() && self.w@ == (World {
                vd: o.w@.vd.push(o.w@.val(&o.st, x)),
                vt: o.w@.vt.push(o.w@.clock),
                clock: o.w@.clock + 1,
                ..o.w@
            })),
            match x {
                Value::Lam { binder_type, env, body, .. } => Vals::is_lam(
                    self.nb.vals@[v as int],
                    binder_type,
                    env,
                    body,
                ),
                Value::Pi { domain, env, body, .. } => Vals::is_pi(self.nb.vals@[v as int], domain, env, body),
                Value::Thunk { expr, .. } => Vals::is_thunk(self.nb.vals@[v as int], expr),
                _ => self.nb.vals@[v as int].bare() == x,
            },
            forall|k: u32, y: u32| #[trigger]
                self.nb.tabs.thunk@.contains_key((k, y, 0, 0)) ==> (o.nb.tabs.thunk@.contains_key((k, y, 0, 0))
                    && self.nb.tabs.thunk@[(k, y, 0, 0)] == o.nb.tabs.thunk@[(k, y, 0, 0)]) || (x is Thunk && k
                    == key_env && y == x->Thunk_expr),
            x is Thunk ==> self.nb.tabs.thunk@.contains_key((key_env, x->Thunk_expr, 0, 0)) && self.nb.tabs.thunk@[(
                key_env,
                x->Thunk_expr,
                0,
                0,
            )] == v,
            x is Thunk && self.nb.vals@ == o.nb.vals@ ==> o.nb.tabs.thunk@.contains_key((key_env, x->Thunk_expr, 0, 0))
                && o.nb.tabs.thunk@[(key_env, x->Thunk_expr, 0, 0)] == v,
        ensures
            self.wf(),
            self.ext(o),
            World::alike(o.w@.val(&o.st, x), self.w@.v(v)),
            !(x is Lam) && !(x is Pi) ==> self.w@.v(v) == o.w@.val(&o.st, x),
    {
        reveal(TcCtx::wf);
        let t = o.w@.val(&o.st, x);
        if self.nb.vals@ != o.nb.vals@ {
            self.lemma_push_val(o, t);
            let n = o.nb.vals@.len() as u32;
            assert(self.w@.v(n) == t);
            assert(self.w@.val(&self.st, x) == t);
            assert(self.w@.val_ok(&self.st, n, x));
        }
        assert(self.thunks_ok()) by {
            assert forall|k: u32, y: u32| #[trigger] self.nb.tabs.thunk@.contains_key((k, y, 0, 0)) implies {
                let i = self.nb.tabs.thunk@[(k, y, 0, 0)];
                i < self.nb.vals@.len() && self.nb.vals@[i as int] is Thunk && self.w@.read_rel(
                    &self.st,
                    self.rp.memo.views@,
                    k,
                    y,
                    self.nb.vals@[i as int]->Thunk_env,
                )
            } by {
                if o.nb.tabs.thunk@.contains_key((k, y, 0, 0)) && self.nb.tabs.thunk@[(k, y, 0, 0)]
                    == o.nb.tabs.thunk@[(k, y, 0, 0)] {
                    let i = o.nb.tabs.thunk@[(k, y, 0, 0)];
                    assert(o.w@.val_ok(&o.st, i, o.nb.vals@[i as int]));
                }
            }
        }
        let y = self.nb.vals@[v as int];
        assert(self.w@.val_ok(&self.st, v, y));
        match x {
            Value::Thunk { env, expr, .. } => {
                let n0 = y->Thunk_env;
                assert(self.nb.tabs.thunk@.contains_key((key_env, expr, 0, 0)));
                assert(self.w@.read_rel(&self.st, self.rp.memo.views@, key_env, expr, n0));
                assert(self.w@.env_ok(&self.st, n0, self.rp.envs@[n0 as int]));
                assert(self.w@.env_ok(&self.st, env, self.rp.envs@[env as int]));
                self.lemma_read_rel(key_env, expr, n0, env);
            },
            _ => {},
        }
    }

    /// One key names closures of one term.
    proof fn lemma_read_rel(&self, k: u32, x: u32, m: u32, n: u32)
        requires
            self.w@.read_rel(&self.st, self.rp.memo.views@, k, x, m),
            self.w@.read_rel(&self.st, self.rp.memo.views@, k, x, n),
            self.w@.n_ok(m),
            self.w@.n_ok(n),
            self.w@.env_ok(&self.st, m, self.rp.envs@[m as int]),
            self.w@.env_ok(&self.st, n, self.rp.envs@[n as int]),
            self.st.e(x).nl() <= self.w@.n(m).len(),
            self.st.e(x).nl() <= self.w@.n(n).len(),
        ensures
            self.st.e(x).inst(0, self.w@.n(m)) == self.st.e(x).inst(0, self.w@.n(n)),
    {
        let t = self.st.e(x);
        let w = self.w@;
        if t.nl() == 0 {
            Term::lemma_inst_closed(t, 0, w.n(m));
            Term::lemma_inst_closed(t, 0, w.n(n));
        } else {
            Entry::lemma_view_agree(t, w.ents(m), w.ents(n), t.nl());
            assert forall|i: nat| #[trigger] t.reads(i) && i >= 0 implies i - 0 < w.n(m).len() && i - 0 < w.n(n).len()
                && w.n(m)[i - 0] == w.n(n)[i - 0] by {
                Term::lemma_reads_nl(t, i);
                assert(w.entry_at(&self.st, m, w.ents(m)[i as int], i as int));
                assert(w.entry_at(&self.st, n, w.ents(n)[i as int], i as int));
            }
            Term::lemma_inst_agree(t, 0, w.n(m), w.n(n));
        }
    }
}

} // verus!
