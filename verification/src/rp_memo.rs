//! Memos of applications of closures.
use crate::closure::Clo;
use crate::ctx::World;
use crate::error::TcError;
use crate::expr::{ExprPtr, Store};
use crate::level::{LevelPtr, LevelsPtr};
use crate::rapier::{RClo, RapierSt, KEY_WORD};
use crate::tc::{InferFlag, TypeChecker};
use crate::term::{Lvl, Term};
use crate::theory::Sig;
use vstd::prelude::*;

verus! {

broadcast use {crate::tc::group_tc, crate::rp_core::group_rc};

impl RapierSt {
    /// More keys, and one of the tables with one more entry.
    pub proof fn lemma_more_keys(&self, o: &RapierSt, w: World, st: &Store)
        requires
            o.ok(w, st),
            self.keys.wf(),
            o.keys@.len() <= self.keys@.len(),
            forall|i: int| 0 <= i < o.keys@.len() ==> self.keys@[i] == o.keys@[i],
            self.whnf == o.whnf,
            self.results == o.results,
            self.eq_pos == o.eq_pos,
            self.clo_fvar == o.clo_fvar,
            self.lvl_eq == o.lvl_eq,
            self.g_fused == o.g_fused,
            forall|i: u32, j: u32| #[trigger]
                self.eq_s_pos@.contains_key((i, j, 0, 0)) ==> o.eq_s_pos@.contains_key((i, j, 0, 0)) || self.eq_s_fact(
                    w,
                    st,
                    i,
                    j,
                ),
            forall|i: u32, k: u32| #[trigger]
                self.infer_s@.contains_key((i, k, 0, 0)) ==> (o.infer_s@.contains_key((i, k, 0, 0)) && self.infer_s@[(
                    i,
                    k,
                    0,
                    0,
                )] == o.infer_s@[(i, k, 0, 0)]) || self.infer_s_fact(w, st, i, k, self.infer_s@[(i, k, 0, 0)]),
        ensures
            self.ok(w, st),
    {
        reveal(RapierSt::ok);
        assert forall|e: u32, n: u32| #[trigger] self.whnf@.contains_key((e, n, 0, 0)) implies self.whnf_fact(
            w,
            st,
            e,
            n,
            self.whnf@[(e, n, 0, 0)],
        ) by {
            assert(o.whnf_fact(w, st, e, n, o.whnf@[(e, n, 0, 0)]));
        }
        assert forall|i: u32, j: u32| #[trigger] self.eq_s_pos@.contains_key((i, j, 0, 0)) implies self.eq_s_fact(
            w,
            st,
            i,
            j,
        ) by {
            if o.eq_s_pos@.contains_key((i, j, 0, 0)) {
                assert(o.eq_s_fact(w, st, i, j));
            }
        }
        assert forall|i: u32, k: u32| #[trigger] self.infer_s@.contains_key((i, k, 0, 0)) implies self.infer_s_fact(
            w,
            st,
            i,
            k,
            self.infer_s@[(i, k, 0, 0)],
        ) by {
            if o.infer_s@.contains_key((i, k, 0, 0)) && self.infer_s@[(i, k, 0, 0)] == o.infer_s@[(i, k, 0, 0)] {
                assert(o.infer_s_fact(w, st, i, k, o.infer_s@[(i, k, 0, 0)]));
            }
        }
    }

    /// More of what is known of closures and levels.
    pub proof fn lemma_more_facts(&self, o: &RapierSt, w: World, st: &Store)
        requires
            o.ok(w, st),
            self.keys == o.keys,
            self.whnf == o.whnf,
            self.results == o.results,
            self.eq_pos == o.eq_pos,
            self.eq_s_pos == o.eq_s_pos,
            self.infer_s == o.infer_s,
            forall|e: u32, n: u32, k: u32| #[trigger]
                self.clo_fvar@.contains_key((e, n, k, 0)) ==> RapierSt::fvar_fact(
                    w,
                    st,
                    e,
                    n,
                    k,
                    self.clo_fvar@[(e, n, k, 0)],
                ),
            forall|a: u32, b: u32| #[trigger]
                self.lvl_eq@.contains_key((a, b, 0, 0)) ==> st.l_ok(a) && st.l_ok(b) && (self.lvl_eq@[(a, b, 0, 0)]
                    ==> st.l(a).equiv(st.l(b))),
            forall|e: u32| #[trigger]
                self.g_fused@.contains_key((e, 0, 0, 0))
                    ==> RapierSt::fused_fact(w, st, e, self.g_fused@[(e, 0, 0, 0)]),
        ensures
            self.ok(w, st),
    {
        reveal(RapierSt::ok);
        assert forall|e: u32, n: u32| #[trigger] self.whnf@.contains_key((e, n, 0, 0)) implies self.whnf_fact(
            w,
            st,
            e,
            n,
            self.whnf@[(e, n, 0, 0)],
        ) by {
            assert(o.whnf_fact(w, st, e, n, o.whnf@[(e, n, 0, 0)]));
        }
        assert forall|i: u32, j: u32| #[trigger] self.eq_s_pos@.contains_key((i, j, 0, 0)) implies self.eq_s_fact(
            w,
            st,
            i,
            j,
        ) by {
            assert(o.eq_s_fact(w, st, i, j));
        }
        assert forall|i: u32, k: u32| #[trigger] self.infer_s@.contains_key((i, k, 0, 0)) implies self.infer_s_fact(
            w,
            st,
            i,
            k,
            self.infer_s@[(i, k, 0, 0)],
        ) by {
            assert(o.infer_s_fact(w, st, i, k, o.infer_s@[(i, k, 0, 0)]));
        }
    }
}

impl InferFlag {
    fn code(self) -> (r: u32)
        ensures
            r == (if self.checks() { 1u32 } else { 0u32 }),
    {
        match self {
            InferFlag::Check => 1,
            InferFlag::InferOnly => 0,
        }
    }
}

impl<'x> TypeChecker<'x> {
    /// The word of a closure in a key.
    fn rp_word(&self, c: Clo) -> (r: u64)
        requires
            self.wf(),
            self.plain_clo(c),
        ensures
            self.plain_clo(World::key_clo(r)),
            self.ctx.clo(World::key_clo(r)) == self.ctx.clo(c),
    {
        let k = self.rp_key(c);
        let r: u64 = k.e as u64 + KEY_WORD * (k.env as u64);
        proof {
            assert(r % KEY_WORD == k.e as u64 && r / KEY_WORD == k.env as u64) by (nonlinear_arith)
                requires
                    r == k.e as u64 + KEY_WORD * (k.env as u64),
                    k.e < 0x1_0000_0000,
                    KEY_WORD == 0x1_0000_0000,
            ;
            assert(World::key_clo(r) == k);
        }
        r
    }

    /// The key of an application: its closures, those that read nothing from
    /// their environment without one.
    pub fn rp_sclo_key(&self, s: &RClo) -> (r: Vec<u64>)
        requires
            self.wf(),
            self.rc_ok(*s),
        ensures
            self.ctx.w@.key_ok(&self.ctx.st, r@),
            self.ctx.w@.key_term(&self.ctx.st, r@) == self.rc(*s),
    {
        let mut r: Vec<u64> = Vec::new();
        r.push(self.rp_word(s.head));
        let mut i: usize = 0;
        while i < s.spine.len()
            invariant
                self.wf(),
                self.rc_ok(*s),
                i <= s.spine@.len(),
                r@.len() == i + 1,
                self.plain_clo(World::key_clo(r@[0])),
                self.ctx.clo(World::key_clo(r@[0])) == self.ctx.clo(s.head),
                forall|j: int|
                    0 <= j < i ==> self.plain_clo(World::key_clo(#[trigger] r@[j + 1]))
                        && self.ctx.clo(World::key_clo(r@[j + 1]))
                        == self.ctx.clo(s.spine@[j]),
            decreases s.spine@.len() - i,
        {
            proof {
                self.lemma_cs(s.spine@, i as int);
            }
            let ghost before = r@;
            r.push(self.rp_word(s.spine[i]));
            i += 1;
            proof {
                assert forall|j: int| 0 <= j < i implies self.plain_clo(World::key_clo(#[trigger] r@[j + 1]))
                    && self.ctx.clo(
                    World::key_clo(r@[j + 1]),
                ) == self.ctx.clo(s.spine@[j]) by {
                    if j < i - 1 {
                        assert(r@[j + 1] == before[j + 1]);
                    }
                }
            }
        }
        proof {
            let k = World::key_clos(r@);
            let cs = self.cs(k);
            assert forall|j: int| 0 <= j < k.len() implies self.ctx.w@.pclo_ok(&self.ctx.st, #[trigger] k[j]) by {
                if j > 0 {
                    assert(self.plain_clo(World::key_clo(r@[(j - 1) + 1])));
                }
            }
            assert(cs.skip(1) =~= self.cs(s.spine@)) by {
                assert forall|j: int| 0 <= j < s.spine@.len() implies cs.skip(1)[j]
                    == #[trigger] self.cs(s.spine@)[j] by {
                    assert(self.ctx.clo(World::key_clo(r@[j + 1])) == self.ctx.clo(s.spine@[j]));
                    self.lemma_cs(s.spine@, j);
                }
            }
        }
        r
    }

    /// The number of an application.
    pub fn rp_key_id(&mut self, s: &RClo) -> (r: Option<u32>)
        requires
            old(self).wf(),
            old(self).rc_ok(*s),
        ensures
            final(self).wf(),
            final(self).ext(old(self)),
            r matches Some(i) ==> final(self).key_is(i, old(self).rc(*s)),
            forall|j: u32, t: Term| #[trigger] old(self).key_is(j, t) ==> final(self).key_is(j, t),
    {
        let ghost o = *self;
        let words = self.rp_sclo_key(s);
        let ghost ws = words@;
        proof {
            o.lemma_rs_ok();
            reveal(RapierSt::ok);
        }
        let r = self.rs.keys.intern(words);
        proof {
            self.rs.lemma_more_keys(&o.rs, self.ctx.w@, &self.ctx.st);
            self.lemma_rs(&o);
        }
        r
    }

    /// Key `i` is the application `t`.
    pub open spec fn key_is(&self, i: u32, t: Term) -> bool {
        &&& i < self.rs.keys@.len()
        &&& self.ctx.w@.key_ok(&self.ctx.st, self.rs.keys@[i as int])
        &&& self.ctx.w@.key_term(&self.ctx.st, self.rs.keys@[i as int]) == t
    }

    /// A remembered type.
    pub fn recall_infer_s(&self, i: u32, flag: InferFlag, Ghost(t): Ghost<Term>) -> (r: Option<ExprPtr>)
        requires
            self.wf(),
            self.key_is(i, t),
        ensures
            r matches Some(e) ==> self.ctx.st.e_ok(e) && self.ctx.st.e(e).nl() == 0 && self.g().ty(
                flag.checks(),
                t,
                self.ctx.st.e(e),
            ),
    {
        proof {
            self.lemma_rs_ok();
            reveal(RapierSt::ok);
        }
        let k: u32 = flag.code();
        let r = self.rs.infer_s.get((i, k, 0, 0));
        proof {
            if let Some(e) = r {
                assert(self.rs.infer_s_fact(self.ctx.w@, &self.ctx.st, i, k, e));
            }
        }
        r
    }

    pub fn note_infer_s(&mut self, s: &RClo, flag: InferFlag, e: ExprPtr)
        requires
            old(self).wf(),
            old(self).rc_ok(*s),
            old(self).ctx.st.e_ok(e),
            old(self).ctx.st.e(e).nl() == 0,
            old(self).g().ty(flag.checks(), old(self).rc(*s), old(self).ctx.st.e(e)),
        ensures
            final(self).wf(),
            final(self).ext(old(self)),
    {
        let i: u32 = match self.rp_key_id(s) {
            Some(i) => i,
            None => {
                return;
            },
        };
        let k: u32 = flag.code();
        let ghost o = *self;
        self.rs.infer_s.insert((i, k, 0, 0), e);
        proof {
            o.lemma_rs_ok();
            assert(self.rs.infer_s_fact(self.ctx.w@, &self.ctx.st, i, k, e));
            assert forall|a: u32, b: u32| #[trigger] self.rs.infer_s@.contains_key((a, b, 0, 0)) implies (
            o.rs.infer_s@.contains_key((a, b, 0, 0)) && self.rs.infer_s@[(a, b, 0, 0)] == o.rs.infer_s@[(a, b, 0, 0)])
                || self.rs.infer_s_fact(self.ctx.w@, &self.ctx.st, a, b, self.rs.infer_s@[(a, b, 0, 0)]) by {
                if (a, b) != (i, k) {
                    assert(o.rs.infer_s@.contains_key((a, b, 0, 0)));
                }
            }
            reveal(RapierSt::ok);
            self.rs.lemma_more_keys(&o.rs, self.ctx.w@, &self.ctx.st);
            self.lemma_rs(&o);
        }
    }

    /// Whether two applications have been compared, and found equal.
    pub fn recall_eq_s(&mut self, t: &RClo, s: &RClo) -> (r: Option<bool>)
        requires
            old(self).wf(),
            old(self).rc_ok(*t),
            old(self).rc_ok(*s),
        ensures
            final(self).wf(),
            final(self).ext(old(self)),
            r matches Some(true) ==> final(self).g().eq(old(self).rc(*t), old(self).rc(*s)),
    {
        let ghost x = self.rc(*t);
        let ghost y = self.rc(*s);
        let (i, j): (u32, u32) = match (self.rp_key_id(t), self.rp_key_id(s)) {
            (Some(i), Some(j)) => (i, j),
            _ => {
                return None;
            },
        };
        let (a, b): (u32, u32) = if i <= j {
            (i, j)
        } else {
            (j, i)
        };
        if self.rs.eq_s_pos.get((a, b, 0, 0)).is_some() {
            proof {
                self.lemma_rs_ok();
                reveal(RapierSt::ok);
                assert(self.rs.eq_s_fact(self.ctx.w@, &self.ctx.st, a, b));
                if i > j {
                    Sig::e_sym(self.g(), y, x);
                }
            }
            return Some(true);
        }
        if self.rs.eq_s_neg.get((a, b, 0, 0)).is_some() {
            return Some(false);
        }
        None
    }

    pub fn note_eq_s(&mut self, t: &RClo, s: &RClo, v: bool)
        requires
            old(self).wf(),
            old(self).rc_ok(*t),
            old(self).rc_ok(*s),
            v ==> old(self).g().eq(old(self).rc(*t), old(self).rc(*s)),
        ensures
            final(self).wf(),
            final(self).ext(old(self)),
    {
        let ghost x = self.rc(*t);
        let ghost y = self.rc(*s);
        let (i, j): (u32, u32) = match (self.rp_key_id(t), self.rp_key_id(s)) {
            (Some(i), Some(j)) => (i, j),
            _ => {
                return;
            },
        };
        let (a, b): (u32, u32) = if i <= j {
            (i, j)
        } else {
            (j, i)
        };
        let ghost o = *self;
        if v {
            self.rs.eq_s_pos.insert((a, b, 0, 0), true);
        } else {
            self.rs.eq_s_neg.insert((a, b, 0, 0), true);
        }
        proof {
            o.lemma_rs_ok();
            if v {
                Sig::e_sym(self.g(), x, y);
                assert(self.rs.eq_s_fact(self.ctx.w@, &self.ctx.st, a, b));
            }
            assert forall|c: u32,
                d: u32| #[trigger] self.rs.eq_s_pos@.contains_key((c, d, 0, 0)) implies o.rs.eq_s_pos@.contains_key(
                (c, d, 0, 0),
            ) || self.rs.eq_s_fact(self.ctx.w@, &self.ctx.st, c, d) by {}
            reveal(RapierSt::ok);
            self.rs.lemma_more_keys(&o.rs, self.ctx.w@, &self.ctx.st);
            self.lemma_rs(&o);
        }
    }

    /// A remembered answer on free variables.
    pub fn recall_fvar(&self, e: ExprPtr, n: u32, k: u32) -> (r: Option<bool>)
        requires
            self.wf(),
        ensures
            r matches Some(b) ==> RapierSt::fvar_fact(self.ctx.w@, &self.ctx.st, e, n, k, b),
    {
        proof {
            self.lemma_rs_ok();
            reveal(RapierSt::ok);
        }
        self.rs.clo_fvar.get((e, n, k, 0))
    }

    pub fn note_fvar(&mut self, e: ExprPtr, n: u32, k: u32, b: bool)
        requires
            old(self).wf(),
            RapierSt::fvar_fact(old(self).ctx.w@, &old(self).ctx.st, e, n, k, b),
        ensures
            final(self).wf(),
            final(self).ext(old(self)),
    {
        let ghost o = *self;
        self.rs.clo_fvar.insert((e, n, k, 0), b);
        proof {
            o.lemma_rs_ok();
            assert(self.rs.ok(self.ctx.w@, &self.ctx.st)) by {
                reveal(RapierSt::ok);
                assert forall|x: u32, y: u32, z: u32| #[trigger]
                    self.rs.clo_fvar@.contains_key((x, y, z, 0)) implies RapierSt::fvar_fact(
                    self.ctx.w@,
                    &self.ctx.st,
                    x,
                    y,
                    z,
                    self.rs.clo_fvar@[(x, y, z, 0)],
                ) by {
                    if (x, y, z) != (e, n, k) {
                        assert(o.rs.clo_fvar@.contains_key((x, y, z, 0)));
                    }
                }
                self.rs.lemma_more_facts(&o.rs, self.ctx.w@, &self.ctx.st);
            }
            self.lemma_rs(&o);
        }
    }

    /// The remembered fused value of a constant.
    pub fn recall_fused(&self, e: ExprPtr) -> (r: Option<ExprPtr>)
        requires
            self.wf(),
        ensures
            r matches Some(x) ==> RapierSt::fused_fact(self.ctx.w@, &self.ctx.st, e, x),
    {
        proof {
            self.lemma_rs_ok();
            reveal(RapierSt::ok);
        }
        self.rs.g_fused.get((e, 0, 0, 0))
    }

    pub fn note_fused(&mut self, e: ExprPtr, x: ExprPtr)
        requires
            old(self).wf(),
            RapierSt::fused_fact(old(self).ctx.w@, &old(self).ctx.st, e, x),
        ensures
            final(self).wf(),
            final(self).ext(old(self)),
    {
        let ghost o = *self;
        self.rs.g_fused.insert((e, 0, 0, 0), x);
        proof {
            o.lemma_rs_ok();
            assert(self.rs.ok(self.ctx.w@, &self.ctx.st)) by {
                reveal(RapierSt::ok);
                assert forall|y: u32| #[trigger] self.rs.g_fused@.contains_key((y, 0, 0,
                    0)) implies RapierSt::fused_fact(
                    self.ctx.w@,
                    &self.ctx.st,
                    y,
                    self.rs.g_fused@[(y, 0, 0, 0)],
                ) by {
                    if y != e {
                        assert(o.rs.g_fused@.contains_key((y, 0, 0, 0)));
                    }
                }
                self.rs.lemma_more_facts(&o.rs, self.ctx.w@, &self.ctx.st);
            }
            self.lemma_rs(&o);
        }
    }

    /// Whether two levels are equal, remembered.
    pub fn rp_lvl_eq1(&mut self, l1: LevelPtr, l2: LevelPtr) -> (r: Result<bool, TcError>)
        requires
            old(self).wf(),
            old(self).ctx.st.l_ok(l1),
            old(self).ctx.st.l_ok(l2),
        ensures
            final(self).wf(),
            final(self).ext(old(self)),
            r matches Ok(true) ==> old(self).ctx.st.l(l1).equiv(old(self).ctx.st.l(l2)),
            l1 == l2 ==> r == Ok::<bool, TcError>(true),
            r matches Err(err) ==> !(err is Reject) && final(self).ran_out(old(self)),
    {
        if l1 == l2 {
            return Ok(true);
        }
        let (a, b): (u32, u32) = if l1 <= l2 {
            (l1, l2)
        } else {
            (l2, l1)
        };
        proof {
            self.lemma_rs_ok();
            reveal(RapierSt::ok);
        }
        match self.rs.lvl_eq.get((a, b, 0, 0)) {
            Some(r) => {
                return Ok(r);
            },
            None => {},
        }
        let r = self.eq_antisymm(a, b)?;
        let ghost o = *self;
        self.rs.lvl_eq.insert((a, b, 0, 0), r);
        proof {
            o.lemma_rs_ok();
            assert(self.rs.ok(self.ctx.w@, &self.ctx.st)) by {
                reveal(RapierSt::ok);
                assert forall|x: u32,
                    y: u32| #[trigger] self.rs.lvl_eq@.contains_key((x, y, 0, 0)) implies self.ctx.st.l_ok(x)
                    && self.ctx.st.l_ok(y)
                        && (self.rs.lvl_eq@[(x, y, 0, 0)] ==> self.ctx.st.l(x).equiv(self.ctx.st.l(y))) by {
                    if (x, y) != (a, b) {
                        assert(o.rs.lvl_eq@.contains_key((x, y, 0, 0)));
                    }
                }
                self.rs.lemma_more_facts(&o.rs, self.ctx.w@, &self.ctx.st);
            }
            self.lemma_rs(&o);
        }
        Ok(r)
    }

    /// Whether two lists of levels are equal.
    pub fn rp_lvl_eq_list(&mut self, ls: LevelsPtr, rs: LevelsPtr) -> (r: Result<bool, TcError>)
        requires
            old(self).wf(),
            old(self).ctx.st.ls_ok(ls),
            old(self).ctx.st.ls_ok(rs),
        ensures
            final(self).wf(),
            final(self).ext(old(self)),
            r matches Ok(true) ==> Lvl::equiv_seq(old(self).ctx.st.ls(ls), old(self).ctx.st.ls(rs)),
            ls == rs ==> r == Ok::<bool, TcError>(true),
            old(self).ctx.st.ls(ls).len() != old(self).ctx.st.ls(rs).len() ==> r == Ok::<bool, TcError>(false),
            r matches Err(err) ==> !(err is Reject) && final(self).ran_out(old(self)),
    {
        let ghost o = *self;
        let ghost x = self.ctx.st.ls(ls);
        let ghost y = self.ctx.st.ls(rs);
        if ls == rs {
            return Ok(true);
        }
        proof {
            self.lemma_base();
        }
        let xs = self.ctx.st.read_levels(ls);
        let ys = self.ctx.st.read_levels(rs);
        if xs.len() != ys.len() {
            return Ok(false);
        }
        let mut i: usize = 0;
        while i < xs.len()
            invariant
                o == *old(self),
                o.wf(),
                self.wf(),
                self.ext(&o),
                x == o.ctx.st.ls(ls),
                y == o.ctx.st.ls(rs),
                ls != rs,
                o.ctx.st.list_is(xs@, x),
                o.ctx.st.list_is(ys@, y),
                xs@.len() == ys@.len(),
                i <= xs@.len(),
                forall|j: int| 0 <= j < i ==> (#[trigger] x[j]).equiv(y[j]),
            decreases xs@.len() - i,
        {
            proof {
                assert(o.ctx.st.l(xs@[i as int]) == x[i as int]);
                assert(o.ctx.st.l(ys@[i as int]) == y[i as int]);
            }
            if !self.rp_lvl_eq1(xs[i], ys[i])? {
                return Ok(false);
            }
            i += 1;
        }
        Ok(true)
    }
}

} // verus!
