//! Read sets of expressions, and the keys they give closures.
//!
//! The identity of a closure as a question is the expression together with the
//! bindings that expression reads.  Everything else in the environment is
//! invisible to it, so closures differing only there ask the same question and
//! share one answer.
use crate::counters::PUSH_ENTRY;
use crate::closure::{Clo, CloMemos, Entry, EnvId, EnvNode, Uses, ENV_NIL, MAX_SET_WORDS, MAX_USES_WORDS, VIEW_BIT};
use crate::ctx::{TcCtx, World};
use crate::error::TcError;
use crate::expr::{Expr, ExprPtr};
use crate::nbe::{ValId, VEnvId};
use crate::term::Term;
use vstd::prelude::*;

verus! {

impl Uses {
    /// The set is `s`, held explicitly, or past the bound when `deep`.
    pub open spec fn is_set(self, wide: Seq<Seq<u64>>, s: spec_fn(nat) -> bool, deep: bool) -> bool {
        match self {
            Uses::Mask(m) => !deep && forall|i: nat| #[trigger] s(i) <==> Uses::bit(m, i),
            Uses::Wide(id) => !deep && id < wide.len() && forall|i: nat| #[trigger] s(i) <==> Uses::wbit(
                wide[id as int],
                i,
            ),
            Uses::Deep => deep,
            Uses::Dense => false,
        }
    }

    pub proof fn lemma_zero(i: nat)
        ensures
            !Uses::bit(0, i),
    {
        if i < 64 {
            let j = i as u64;
            assert((0u64 >> j) & 1 == 0) by (bit_vector);
        }
    }

    pub proof fn lemma_wbit_one(m: u64, i: nat)
        ensures
            Uses::wbit(seq![m], i) == Uses::bit(m, i),
    {
        if i < 64 {
            assert(i / 64 == 0 && i % 64 == i);
        }
    }
}

impl World {
    /// The cut is what the term reads, when the set is.
    pub proof fn lemma_cut_pick<A>(m: Seq<u64>, t: Term, s: Seq<A>, n: nat)
        requires
            Uses::set_is(t, m),
        ensures
            World::cut(m, s, n) == Term::pick(t, s, n),
        decreases n,
    {
        if n > 0 {
            World::lemma_cut_pick(m, t, s, (n - 1) as nat);
            assert(t.reads((n - 1) as nat) <==> Uses::wbit(m, (n - 1) as nat));
        }
    }

    pub proof fn lemma_view_pick(m: Seq<u64>, t: Term, s: Seq<Entry>, n: nat)
        requires
            Uses::set_is(t, m),
        ensures
            World::view_cut(m, s, n) == Entry::view_words(t, s, n),
        decreases n,
    {
        if n > 0 {
            World::lemma_view_pick(m, t, s, (n - 1) as nat);
            assert(t.reads((n - 1) as nat) <==> Uses::wbit(m, (n - 1) as nat));
        }
    }

    /// Nothing is picked past the range of a term.
    pub proof fn lemma_pick_nl<A>(t: Term, s: Seq<A>, n: nat)
        requires
            n >= t.nl(),
        ensures
            Term::pick(t, s, n) == Term::pick(t, s, t.nl()),
        decreases n,
    {
        if n > t.nl() {
            Term::lemma_reads_nl(t, (n - 1) as nat);
            World::lemma_pick_nl(t, s, (n - 1) as nat);
        }
    }

    pub proof fn lemma_view_nl(t: Term, s: Seq<Entry>, n: nat)
        requires
            n >= t.nl(),
        ensures
            Entry::view_words(t, s, n) == Entry::view_words(t, s, t.nl()),
        decreases n,
    {
        if n > t.nl() {
            Term::lemma_reads_nl(t, (n - 1) as nat);
            World::lemma_view_nl(t, s, (n - 1) as nat);
        }
    }

    /// Cutting past the last member adds nothing.
    pub proof fn lemma_cut_top<A>(m: Seq<u64>, s: Seq<A>, k: nat, n: nat)
        requires
            k <= n,
            forall|i: nat| k <= i < n ==> !#[trigger] Uses::wbit(m, i),
        ensures
            World::cut(m, s, n) == World::cut(m, s, k),
        decreases n,
    {
        if k < n {
            World::lemma_cut_top(m, s, k, (n - 1) as nat);
        }
    }

    pub proof fn lemma_view_top(m: Seq<u64>, s: Seq<Entry>, k: nat, n: nat)
        requires
            k <= n,
            forall|i: nat| k <= i < n ==> !#[trigger] Uses::wbit(m, i),
        ensures
            World::view_cut(m, s, n) == World::view_cut(m, s, k),
        decreases n,
    {
        if k < n {
            World::lemma_view_top(m, s, k, (n - 1) as nat);
        }
    }
}

impl TcCtx {
    /// The read sets held out of line stay as they are.
    pub open spec fn keeps_wide(&self, o: &TcCtx) -> bool {
        &&& self.rp.memo.wide@.len() >= o.rp.memo.wide@.len()
        &&& forall|i: int| 0 <= i < o.rp.memo.wide@.len() ==> self.rp.memo.wide@[i] == o.rp.memo.wide@[i]
    }

    // ---- read sets ----

    /// The word vector behind a read set, canonicalized and interned: trailing
    /// zero words dropped, a set fitting one word demoted to `Mask`.
    fn intern_uses(&mut self, w: Vec<u64>) -> (r: Result<Uses, TcError>)
        requires
            old(self).wf(),
            1 <= w@.len() <= MAX_SET_WORDS,
        ensures
            final(self).wf(),
            final(self).ext(old(self)),
            final(self).same_world(old(self)),
            final(self).rp.memo.views == old(self).rp.memo.views,
            final(self).keeps_wide(old(self)),
            r matches Ok(u) ==> u.is_set(final(self).rp.memo.wide@, |i: nat| Uses::wbit(w@, i), false),
            r is Err ==> r == Err::<Uses, TcError>(TcError::Full),
    {
        let mut w = w;
        let ghost w0 = w@;
        while w.len() > 1 && w[w.len() - 1] == 0
            invariant
                1 <= w@.len() <= MAX_SET_WORDS,
                forall|i: nat| #[trigger] Uses::wbit(w@, i) == Uses::wbit(w0, i),
            decreases w@.len(),
        {
            let ghost w1 = w@;
            w.pop();
            proof {
                assert forall|i: nat| #[trigger] Uses::wbit(w@, i) == Uses::wbit(w0, i) by {
                    assert(Uses::wbit(w1, i) == Uses::wbit(w0, i));
                    if i / 64 == w@.len() {
                        Uses::lemma_zero(i % 64);
                    } else if i / 64 < w@.len() {
                        assert(w@[(i / 64) as int] == w1[(i / 64) as int]);
                    }
                }
            }
        }
        if w.len() == 1 {
            let m: u64 = w[0];
            proof {
                assert forall|i: nat| Uses::wbit(w0, i) <==> Uses::bit(m, i) by {
                    assert(Uses::wbit(w@, i) == Uses::wbit(w0, i));
                    assert(w@ =~= seq![m]);
                    Uses::lemma_wbit_one(m, i);
                }
            }
            return Ok(Uses::Mask(m));
        }
        let ghost o = *self;
        let ghost wv = w@;
        proof {
            self.lemma_memo();
            reveal(CloMemos::ok);
        }
        let r = self.rp.memo.wide.intern(w);
        proof {
            assert(Uses::wide_ok(wv));
            assert(self.keeps_wide(&o));
            assert(self.rp.memo.ok(self.w@, &self.st)) by {
                reveal(CloMemos::ok);
                assert forall|i: int| 0 <= i < self.rp.memo.wide@.len() implies Uses::wide_ok(
                    #[trigger] self.rp.memo.wide@[i],
                ) by {
                    if i < o.rp.memo.wide@.len() {
                        assert(Uses::wide_ok(o.rp.memo.wide@[i]));
                    }
                }
            }
            self.lemma_memo_step(&o);
        }
        match r {
            Some(id) => {
                proof {
                    assert forall|i: nat| Uses::wbit(w0, i) <==> Uses::wbit(self.rp.memo.wide@[id as int], i) by {
                        assert(Uses::wbit(wv, i) == Uses::wbit(w0, i));
                    }
                }
                Ok(Uses::Wide(id))
            },
            None => Err(TcError::Full),
        }
    }

    /// The words of a wide read set.
    fn wide_words(&self, id: u32) -> (r: Vec<u64>)
        requires
            self.wf(),
            id < self.rp.memo.wide@.len(),
        ensures
            r@ == self.rp.memo.wide@[id as int],
            Uses::wide_ok(r@),
    {
        proof {
            self.lemma_memo();
            reveal(CloMemos::ok);
            assert(Uses::wide_ok(self.rp.memo.wide@[id as int]));
        }
        let src = self.rp.memo.wide.get(id);
        let mut r: Vec<u64> = Vec::new();
        let mut i: usize = 0;
        while i < src.len()
            invariant
                i <= src@.len(),
                r@.len() == i,
                forall|j: int| 0 <= j < i ==> r@[j] == src@[j],
            decreases src@.len() - i,
        {
            r.push(src[i]);
            i += 1;
        }
        assert(r@ =~= src@);
        r
    }

    /// The union of two read sets.
    fn join_uses(&mut self, a: Uses, b: Uses, Ghost(s): Ghost<spec_fn(nat) -> bool>, Ghost(t): Ghost<
        spec_fn(nat) -> bool,
    >, Ghost(ds): Ghost<bool>, Ghost(dt): Ghost<bool>) -> (r: Result<Uses, TcError>)
        requires
            old(self).wf(),
            a.is_set(old(self).rp.memo.wide@, s, ds),
            b.is_set(old(self).rp.memo.wide@, t, dt),
        ensures
            final(self).wf(),
            final(self).ext(old(self)),
            final(self).same_world(old(self)),
            final(self).rp.memo.views == old(self).rp.memo.views,
            final(self).keeps_wide(old(self)),
            r matches Ok(u) ==> u.is_set(final(self).rp.memo.wide@, |i: nat| s(i) || t(i), ds || dt),
            r is Err ==> r == Err::<Uses, TcError>(TcError::Full),
    {
        match (a, b) {
            (Uses::Mask(x), Uses::Mask(y)) => {
                proof {
                    assert forall|i: nat| (s(i) || t(i)) <==> Uses::bit(x | y, i) by {
                        Uses::lemma_bit_or(x, y, i);
                    }
                }
                Ok(Uses::Mask(x | y))
            },
            (Uses::Deep, _) | (_, Uses::Deep) => Ok(Uses::Deep),
            (Uses::Dense, _) | (_, Uses::Dense) => Ok(Uses::Deep),
            (Uses::Wide(i), Uses::Mask(m)) | (Uses::Mask(m), Uses::Wide(i)) => {
                let mut w = self.wide_words(i);
                let ghost w0 = w@;
                let x: u64 = w[0] | m;
                w.set(0, x);
                proof {
                    assert forall|i: nat| #[trigger] Uses::wbit(w@, i) == (s(i) || t(i)) by {
                        assert(Uses::wbit(w0, i) || Uses::bit(m, i) <==> s(i) || t(i));
                        if i < 64 {
                            assert(i / 64 == 0 && i % 64 == i);
                            Uses::lemma_bit_or(w0[0], m, i);
                        } else {
                            assert(w@[(i / 64) as int] == w0[(i / 64) as int] || i / 64 >= w@.len());
                        }
                    }
                }
                let ghost wv = w@;
                let u = self.intern_uses(w)?;
                proof {
                    TcCtx::lemma_set_ext(u, self.rp.memo.wide@, |i: nat| Uses::wbit(wv, i), |i: nat| s(i)
                        || t(i), false);
                }
                Ok(u)
            },
            (Uses::Wide(i), Uses::Wide(j)) => {
                if i == j {
                    return Ok(a);
                }
                let x = self.wide_words(i);
                let y = self.wide_words(j);
                let mut w: Vec<u64> = Vec::new();
                let mut k: usize = 0;
                let n: usize = if x.len() >= y.len() {
                    x.len()
                } else {
                    y.len()
                };
                while k < n
                    invariant
                        k <= n,
                        n == (if x@.len() >= y@.len() {
                            x@.len()
                        } else {
                            y@.len()
                        }),
                        w@.len() == k,
                        forall|q: int|
                            0 <= q < k ==> #[trigger] w@[q] == (if q < x@.len() {
                                x@[q]
                            } else {
                                0
                            } | if q < y@.len() {
                                y@[q]
                            } else {
                                0
                            }),
                    decreases n - k,
                {
                    let a: u64 = if k < x.len() {
                        x[k]
                    } else {
                        0
                    };
                    let b: u64 = if k < y.len() {
                        y[k]
                    } else {
                        0
                    };
                    w.push(a | b);
                    k += 1;
                }
                proof {
                    assert forall|i: nat| #[trigger] Uses::wbit(w@, i) == (s(i) || t(i)) by {
                        assert(Uses::wbit(x@, i) || Uses::wbit(y@, i) <==> s(i) || t(i));
                        let q = (i / 64) as int;
                        if q < n {
                            let a: u64 = if q < x@.len() {
                                x@[q]
                            } else {
                                0
                            };
                            let b: u64 = if q < y@.len() {
                                y@[q]
                            } else {
                                0
                            };
                            assert(w@[q] == a | b);
                            Uses::lemma_bit_or(a, b, i % 64);
                            Uses::lemma_zero(i % 64);
                        }
                    }
                }
                let ghost wv = w@;
                let u = self.intern_uses(w)?;
                proof {
                    TcCtx::lemma_set_ext(u, self.rp.memo.wide@, |i: nat| Uses::wbit(wv, i), |i: nat| s(i)
                        || t(i), false);
                }
                Ok(u)
            },
        }
    }

    /// A description fits every set with the same members.
    proof fn lemma_set_ext(u: Uses, wide: Seq<Seq<u64>>, s: spec_fn(nat) -> bool, t: spec_fn(nat) -> bool, d: bool)
        requires
            u.is_set(wide, s, d),
            forall|i: nat| #[trigger] s(i) == t(i),
        ensures
            u.is_set(wide, t, d),
    {
        match u {
            Uses::Mask(m) => {
                assert forall|i: nat| #[trigger] t(i) <==> Uses::bit(m, i) by {
                    assert(s(i) == t(i));
                }
            },
            Uses::Wide(id) => {
                assert forall|i: nat| #[trigger] t(i) <==> Uses::wbit(wide[id as int], i) by {
                    assert(s(i) == t(i));
                }
            },
            _ => {},
        }
    }

    /// A read set passed out of a binder.
    fn under_uses(&mut self, u: Uses, Ghost(s): Ghost<spec_fn(nat) -> bool>, Ghost(d): Ghost<bool>) -> (r: Result<
        Uses,
        TcError,
    >)
        requires
            old(self).wf(),
            u.is_set(old(self).rp.memo.wide@, s, d),
        ensures
            final(self).wf(),
            final(self).ext(old(self)),
            final(self).same_world(old(self)),
            final(self).rp.memo.views == old(self).rp.memo.views,
            final(self).keeps_wide(old(self)),
            r matches Ok(u) ==> u.is_set(final(self).rp.memo.wide@, |i: nat| s(i + 1), d),
            r is Err ==> r == Err::<Uses, TcError>(TcError::Full),
    {
        match u {
            Uses::Mask(m) => {
                proof {
                    assert forall|i: nat| s(i + 1) <==> Uses::bit(m >> 1, i) by {
                        Uses::lemma_bit_shr(m, i);
                    }
                }
                Ok(Uses::Mask(m >> 1))
            },
            Uses::Deep => Ok(Uses::Deep),
            Uses::Dense => Ok(Uses::Deep),
            Uses::Wide(id) => {
                let src = self.wide_words(id);
                let mut w: Vec<u64> = Vec::new();
                let mut k: usize = 0;
                while k < src.len()
                    invariant
                        k <= src@.len() <= 1024,
                        w@.len() == k,
                        forall|q: int|
                            0 <= q < k ==> #[trigger] w@[q] == (src@[q] >> 1) | ((if q + 1 < src@.len() {
                                src@[q + 1]
                            } else {
                                0
                            }) << 63),
                    decreases src@.len() - k,
                {
                    let hi: u64 = if k + 1 < src.len() {
                        src[k + 1]
                    } else {
                        0
                    };
                    w.push((src[k] >> 1) | (hi << 63));
                    k += 1;
                }
                proof {
                    assert forall|i: nat| #[trigger] Uses::wbit(w@, i) == s(i + 1) by {
                        assert(s(i + 1) <==> Uses::wbit(src@, i + 1));
                        let q = (i / 64) as int;
                        if q < src@.len() {
                            let hi: u64 = if q + 1 < src@.len() {
                                src@[q + 1]
                            } else {
                                0
                            };
                            assert(w@[q] == (src@[q] >> 1) | (hi << 63));
                            Uses::lemma_bit_carry(src@[q], hi, i % 64);
                            Uses::lemma_zero(0);
                            if i % 64 < 63 {
                                assert((i + 1) / 64 == i / 64 && (i + 1) % 64 == i % 64 + 1);
                            } else {
                                assert((i + 1) / 64 == i / 64 + 1 && (i + 1) % 64 == 0);
                            }
                        } else {
                            assert((i + 1) / 64 >= i / 64);
                        }
                    }
                }
                let ghost wv = w@;
                let u = self.intern_uses(w)?;
                proof {
                    TcCtx::lemma_set_ext(u, self.rp.memo.wide@, |i: nat| Uses::wbit(wv, i), |i: nat| s(i + 1), false);
                }
                Ok(u)
            },
        }
    }

    /// The set of the first `lbr` variables.
    fn full_uses(&mut self, lbr: u16) -> (r: Result<Uses, TcError>)
        requires
            old(self).wf(),
            0 < lbr,
        ensures
            final(self).wf(),
            final(self).ext(old(self)),
            final(self).same_world(old(self)),
            final(self).rp.memo.views == old(self).rp.memo.views,
            final(self).keeps_wide(old(self)),
            r matches Ok(u) ==> u.is_set(final(self).rp.memo.wide@, |i: nat| i < lbr, false),
            r is Err ==> r == Err::<Uses, TcError>(TcError::Full),
    {
        if lbr <= 64 {
            proof {
                assert forall|i: nat|
                    #![trigger Uses::bit(u64::MAX >> ((64 - lbr) as u64), i)]
                    i < lbr <==> Uses::bit(u64::MAX >> ((64 - lbr) as u64), i) by {
                    Uses::lemma_bit_full(lbr as u64, i);
                }
            }
            return Ok(Uses::Mask(u64::MAX >> ((64 - lbr) as u64)));
        }
        let n: usize = lbr as usize / 64;
        let rest: usize = lbr as usize % 64;
        let mut w: Vec<u64> = Vec::new();
        while w.len() < n
            invariant
                w@.len() <= n <= 1023,
                forall|q: int| 0 <= q < w@.len() ==> #[trigger] w@[q] == u64::MAX,
            decreases n - w@.len(),
        {
            w.push(u64::MAX);
        }
        if rest > 0 {
            w.push(u64::MAX >> ((64 - rest) as u64));
        }
        proof {
            assert(lbr == n * 64 + rest);
            assert forall|i: nat| #[trigger] Uses::wbit(w@, i) == (i < lbr) by {
                let q = (i / 64) as int;
                assert(i == 64 * (i / 64) + i % 64);
                if q < n {
                    Uses::lemma_bit_full(64, i % 64);
                    assert(u64::MAX >> 0 == u64::MAX) by (bit_vector);
                } else if q == n && rest > 0 {
                    Uses::lemma_bit_full(rest as u64, i % 64);
                }
            }
        }
        let ghost wv = w@;
        let u = self.intern_uses(w)?;
        proof {
            TcCtx::lemma_set_ext(u, self.rp.memo.wide@, |i: nat| Uses::wbit(wv, i), |i: nat| i < lbr, false);
        }
        Ok(u)
    }

    /// The read set of a subterm with `Dense` spelled out: a parent combines
    /// its children's sets bit by bit, so a set summarized as "all of the
    /// child's range" re-enters as that explicit range.
    fn uses_undense(&mut self, e: ExprPtr) -> (r: Result<Uses, TcError>)
        requires
            old(self).wf(),
            old(self).st.e_ok(e),
        ensures
            final(self).wf(),
            final(self).ext(old(self)),
            final(self).same_world(old(self)),
            final(self).rp.memo.views == old(self).rp.memo.views,
            final(self).keeps_wide(old(self)),
            r matches Ok(u) ==> u.is_set(
                final(self).rp.memo.wide@,
                |i: nat| old(self).st.e(e).reads(i),
                false,
            ),
            r is Err ==> r == Err::<Uses, TcError>(TcError::Full),
        decreases e, 3int,
    {
        let ghost t = self.st.e(e);
        let u = self.uses_set(e)?;
        match u {
            Uses::Dense => {
                let lbr: u16 = self.lbr(e);
                proof {
                    Term::lemma_reads_nl(t, 0);
                }
                let u = self.full_uses(lbr)?;
                proof {
                    assert forall|i: nat| #[trigger] t.reads(i) == (i < lbr) by {
                        Term::lemma_reads_nl(t, i);
                    }
                    TcCtx::lemma_set_ext(u, self.rp.memo.wide@, |i: nat| i < lbr, |i: nat| t.reads(i), false);
                }
                Ok(u)
            },
            Uses::Mask(m) => {
                proof {
                    assert forall|i: nat| t.reads(i) <==> Uses::bit(m, i) by {
                        assert(t.reads(i) <==> Uses::wbit(seq![m], i));
                        Uses::lemma_wbit_one(m, i);
                    }
                }
                Ok(u)
            },
            Uses::Wide(id) => {
                proof {
                    assert forall|i: nat| t.reads(i) <==> Uses::wbit(self.rp.memo.wide@[id as int], i) by {
                        assert(t.reads(i) <==> Uses::wbit(self.rp.memo.wide@[id as int], i));
                    }
                }
                Ok(u)
            },
            Uses::Deep => Ok(u),
        }
    }

    /// Summarize an explicit set that covers everything below the range.
    fn uses_close(&self, u: Uses, lbr: u16, Ghost(t): Ghost<Term>) -> (r: Uses)
        requires
            self.wf(),
            u.is_set(self.rp.memo.wide@, |i: nat| t.reads(i), false),
            lbr == t.nl(),
            lbr > 0,
        ensures
            r.is_exact(t, self.rp.memo.wide@),
    {
        proof {
            Term::lemma_reads_nl(t, 0);
        }
        match u {
            Uses::Mask(m) => {
                proof {
                    assert forall|i: nat| #[trigger] t.reads(i) <==> Uses::wbit(seq![m], i) by {
                        Uses::lemma_wbit_one(m, i);
                        assert((|i: nat| t.reads(i))(i) <==> Uses::bit(m, i));
                    }
                    assert(t.reads((t.nl() - 1) as nat));
                    assert(Uses::bit(m, (t.nl() - 1) as nat)) by {
                        Uses::lemma_wbit_one(m, (t.nl() - 1) as nat);
                    }
                }
                let full: u64 = u64::MAX >> ((64 - lbr) as u64);
                if m == full {
                    proof {
                        assert forall|i: nat| i < t.nl() implies #[trigger] t.reads(i) by {
                            Uses::lemma_wbit_one(m, i);
                            Uses::lemma_bit_full(lbr as u64, i);
                        }
                    }
                    Uses::Dense
                } else {
                    proof {
                        if t.dense() {
                            assert forall|i: nat| i < 64 implies #[trigger] Uses::bit(m, i) == Uses::bit(full, i) by {
                                assert(t.reads(i) <==> Uses::wbit(seq![m], i));
                                Uses::lemma_wbit_one(m, i);
                                Uses::lemma_bit_full(lbr as u64, i);
                                Term::lemma_reads_nl(t, i);
                            }
                            Uses::lemma_bits_eq(m, full);
                        }
                    }
                    u
                }
            },
            Uses::Wide(id) => {
                let w = self.wide_words(id);
                proof {
                    assert forall|i: nat| #[trigger] t.reads(i) <==> Uses::wbit(w@, i) by {
                        assert((|i: nat| t.reads(i))(i) <==> Uses::wbit(w@, i));
                    }
                }
                if self.words_full(&w, lbr, Ghost(t)) {
                    Uses::Dense
                } else {
                    u
                }
            },
            Uses::Deep => u,
            Uses::Dense => u,
        }
    }

    /// Whether the words are the set of all variables below `lbr`.
    fn words_full(&self, w: &Vec<u64>, lbr: u16, Ghost(t): Ghost<Term>) -> (r: bool)
        requires
            Uses::set_is(t, w@),
            Uses::wide_ok(w@),
            lbr == t.nl(),
            lbr > 0,
        ensures
            r == t.dense(),
    {
        let n: usize = (lbr as usize + 63) / 64;
        proof {
            let i = Uses::lemma_nonzero(w@.last());
            let j = (64 * (w@.len() - 1) + i) as nat;
            assert(j / 64 == w@.len() - 1 && j % 64 == i);
            assert(Uses::wbit(w@, j));
            assert(t.reads(j));
            Term::lemma_reads_nl(t, j);
            assert(t.reads((t.nl() - 1) as nat));
            assert(Uses::wbit(w@, (t.nl() - 1) as nat));
        }
        if w.len() != n {
            assert(false);
            return false;
        }
        let mut i: usize = 0;
        while i < w.len()
            invariant
                Uses::set_is(t, w@),
                Uses::wide_ok(w@),
                lbr == t.nl(),
                lbr > 0,
                n == (lbr as usize + 63) / 64,
                w@.len() == n,
                i <= w@.len(),
                forall|j: nat| j < 64 * i && j < lbr ==> #[trigger] t.reads(j),
            decreases w@.len() - i,
        {
            let left: usize = lbr as usize - i * 64;
            let hi: u64 = if left < 64 {
                left as u64
            } else {
                64
            };
            let full: u64 = u64::MAX >> (64 - hi);
            if w[i] != full {
                proof {
                    if t.dense() {
                        assert forall|j: nat| j < 64 implies #[trigger] Uses::bit(w@[i as int], j)
                            == Uses::bit(full, j) by {
                            let k = (64 * i + j) as nat;
                            assert(k / 64 == i && k % 64 == j);
                            assert(t.reads(k) <==> Uses::wbit(w@, k));
                            Uses::lemma_bit_full(hi, j);
                            Term::lemma_reads_nl(t, k);
                        }
                        Uses::lemma_bits_eq(w@[i as int], full);
                    }
                }
                return false;
            }
            proof {
                assert forall|j: nat| j < 64 * (i + 1) && j < lbr implies #[trigger] t.reads(j) by {
                    if j >= 64 * i {
                        let k = (j - 64 * i) as nat;
                        assert(j / 64 == i && j % 64 == k);
                        Uses::lemma_bit_full(hi, k);
                        assert(Uses::wbit(w@, j));
                    }
                }
            }
            i += 1;
        }
        true
    }

    /// The variables read by `f`, or by `x` under a binder when `under`.
    spec fn two(f: Term, x: Term, under: bool) -> spec_fn(nat) -> bool {
        |i: nat|
            f.reads(i) || if under {
                x.reads(i + 1)
            } else {
                x.reads(i)
            }
    }

    /// The set of one variable.
    fn uses_var(&mut self, dbj_idx: u16, Ghost(t): Ghost<Term>) -> (r: Result<Uses, TcError>)
        requires
            old(self).wf(),
            t == Term::Var(dbj_idx as nat),
        ensures
            final(self).wf(),
            final(self).ext(old(self)),
            final(self).same_world(old(self)),
            final(self).rp.memo.views == old(self).rp.memo.views,
            final(self).keeps_wide(old(self)),
            r matches Ok(u) ==> u.is_set(final(self).rp.memo.wide@, |i: nat| t.reads(i), false),
            r is Err ==> r == Err::<Uses, TcError>(TcError::Full),
    {
        if dbj_idx < 64 {
            proof {
                assert forall|i: nat| t.reads(i) <==> Uses::bit(1u64 << (dbj_idx as u64), i) by {
                    Uses::lemma_bit_one(dbj_idx as u64, i);
                }
            }
            return Ok(Uses::Mask(1u64 << (dbj_idx as u64)));
        }
        let n: usize = dbj_idx as usize / 64;
        let d: u64 = (dbj_idx % 64) as u64;
        let mut w: Vec<u64> = Vec::new();
        while w.len() < n
            invariant
                w@.len() <= n < 1024,
                forall|q: int| 0 <= q < w@.len() ==> #[trigger] w@[q] == 0,
            decreases n - w@.len(),
        {
            w.push(0);
        }
        w.push(1u64 << d);
        proof {
            assert forall|i: nat| #[trigger] Uses::wbit(w@, i) == t.reads(i) by {
                let q = (i / 64) as int;
                assert(i == 64 * (i / 64) + i % 64);
                assert(dbj_idx == 64 * n + d);
                if q < n {
                    Uses::lemma_zero(i % 64);
                } else if q == n {
                    Uses::lemma_bit_one(d, i % 64);
                }
            }
        }
        let ghost wv = w@;
        let u = self.intern_uses(w)?;
        proof {
            TcCtx::lemma_set_ext(u, self.rp.memo.wide@, |i: nat| Uses::wbit(wv, i), |i: nat| t.reads(i), false);
        }
        Ok(u)
    }

    /// The set read by the parts `x` and `y` of `e`, the second under a binder
    /// when `under`.
    fn uses_two(&mut self, e: ExprPtr, x: ExprPtr, y: ExprPtr, under: bool) -> (r: Result<Uses, TcError>)
        requires
            old(self).wf(),
            old(self).st.e_ok(x),
            old(self).st.e_ok(y),
            x < e,
            y < e,
        ensures
            final(self).wf(),
            final(self).ext(old(self)),
            final(self).same_world(old(self)),
            final(self).rp.memo.views == old(self).rp.memo.views,
            final(self).keeps_wide(old(self)),
            r matches Ok(u) ==> u.is_set(
                final(self).rp.memo.wide@,
                TcCtx::two(old(self).st.e(x), old(self).st.e(y), under),
                false,
            ),
            r is Err ==> r == Err::<Uses, TcError>(TcError::Full),
        decreases e, 0int,
    {
        let ghost f = self.st.e(x);
        let ghost g = self.st.e(y);
        let ghost sf = |i: nat| f.reads(i);
        let ghost sg = |i: nat| g.reads(i);
        let ghost df = false;
        let ghost dg = false;
        let a = self.uses_undense(x)?;
        let ghost w1 = self.rp.memo.wide@;
        let b = self.uses_undense(y)?;
        let ghost mut sy = sg;
        let b = if under {
            let b = self.under_uses(b, Ghost(sg), Ghost(dg))?;
            proof {
                sy = |i: nat| sg(i + 1);
            }
            b
        } else {
            b
        };
        proof {
            TcCtx::lemma_set_wide(a, w1, self.rp.memo.wide@, sf, df);
        }
        let u = self.join_uses(a, b, Ghost(sf), Ghost(sy), Ghost(df), Ghost(dg))?;
        proof {
            TcCtx::lemma_set_ext(u, self.rp.memo.wide@, |i: nat| sf(i) || sy(i), TcCtx::two(f, g, under), df || dg);
        }
        Ok(u)
    }

    /// The set read by a `let`.
    fn uses_let(&mut self, e: ExprPtr, binder_type: ExprPtr, val: ExprPtr, body: ExprPtr, Ghost(t): Ghost<Term>) -> (r:
        Result<Uses, TcError>)
        requires
            old(self).wf(),
            old(self).st.e_ok(binder_type),
            old(self).st.e_ok(val),
            old(self).st.e_ok(body),
            binder_type < e,
            val < e,
            body < e,
            t.nl() > 0,
            t matches Term::Let(_, _, a, v, b) && *a == old(self).st.e(binder_type) && *v == old(self).st.e(val) && *b
                == old(self).st.e(body),
        ensures
            final(self).wf(),
            final(self).ext(old(self)),
            final(self).same_world(old(self)),
            final(self).rp.memo.views == old(self).rp.memo.views,
            final(self).keeps_wide(old(self)),
            r matches Ok(u) ==> u.is_set(final(self).rp.memo.wide@, |i: nat| t.reads(i), false),
            r is Err ==> r == Err::<Uses, TcError>(TcError::Full),
        decreases e, 1int,
    {
        let ghost f = self.st.e(binder_type);
        let ghost g = self.st.e(val);
        let ghost x = self.st.e(body);
        let ghost sx = |i: nat| x.reads(i);
        let ghost s1 = TcCtx::two(f, g, false);
        let ghost d1 = false;
        let ghost dx = false;
        let tv = self.uses_two(e, binder_type, val, false)?;
        let ghost w1 = self.rp.memo.wide@;
        let b = self.uses_undense(body)?;
        let b = self.under_uses(b, Ghost(sx), Ghost(dx))?;
        let ghost s2 = |i: nat| sx(i + 1);
        proof {
            TcCtx::lemma_set_wide(tv, w1, self.rp.memo.wide@, s1, d1);
        }
        let u = self.join_uses(tv, b, Ghost(s1), Ghost(s2), Ghost(d1), Ghost(dx))?;
        proof {
            TcCtx::lemma_set_ext(u, self.rp.memo.wide@, |i: nat| s1(i) || s2(i), |i: nat| t.reads(i), false);
        }
        Ok(u)
    }

    /// Which loose variables `e` reads: exactly, up to the bound on wide sets,
    /// and `Deep` for a set that reaches past it.
    pub fn uses_mask(&mut self, e: ExprPtr) -> (r: Result<Uses, TcError>)
        requires
            old(self).wf(),
            old(self).st.e_ok(e),
        ensures
            final(self).wf(),
            final(self).ext(old(self)),
            final(self).same_world(old(self)),
            final(self).rp.memo.views == old(self).rp.memo.views,
            final(self).keeps_wide(old(self)),
            r matches Ok(u) ==> u.is_of(old(self).st.e(e), final(self).rp.memo.wide@),
            r is Err ==> r == Err::<Uses, TcError>(TcError::Full),
    {
        proof {
            Term::lemma_deep(self.st.e(e));
        }
        if self.lbr(e) as usize > 64 * MAX_USES_WORDS {
            return Ok(Uses::Deep);
        }
        self.uses_set(e)
    }

    /// Which loose variables `e` reads.  Union at an application is a bitwise
    /// or and passing a binder is a shift, and a set covering everything below
    /// the range needs no representation.  A set past the bound is held too:
    /// passing binders takes it back.
    fn uses_set(&mut self, e: ExprPtr) -> (r: Result<Uses, TcError>)
        requires
            old(self).wf(),
            old(self).st.e_ok(e),
        ensures
            final(self).wf(),
            final(self).ext(old(self)),
            final(self).same_world(old(self)),
            final(self).rp.memo.views == old(self).rp.memo.views,
            final(self).keeps_wide(old(self)),
            r matches Ok(u) ==> u.is_exact(old(self).st.e(e), final(self).rp.memo.wide@),
            r is Err ==> r == Err::<Uses, TcError>(TcError::Full),
        decreases e, 2int,
    {
        let ghost t = self.st.e(e);
        let lbr: u16 = self.lbr(e);
        if lbr == 0 {
            proof {
                assert forall|i: nat| #[trigger] t.reads(i) <==> Uses::wbit(seq![0u64], i) by {
                    Term::lemma_reads_nl(t, i);
                    Uses::lemma_wbit_one(0, i);
                    Uses::lemma_zero(i);
                }
            }
            return Ok(Uses::Mask(0));
        }
        match self.rp.memo.umask.get((e, 0, 0, 0)) {
            Some(u) => {
                proof {
                    self.lemma_memo();
                    reveal(CloMemos::ok);
                    assert(self.rp.memo.umask@.contains_key((e, 0, 0, 0)));
                }
                return Ok(u);
            },
            None => {},
        }
        let u: Uses = match self.read_expr(e) {
            Expr::Var { dbj_idx } => self.uses_var(dbj_idx, Ghost(t))?,
            Expr::App { fun, arg } => {
                let ghost f = self.st.e(fun);
                let ghost x = self.st.e(arg);
                let u = self.uses_two(e, fun, arg, false)?;
                proof {
                    TcCtx::lemma_set_ext(
                        u,
                        self.rp.memo.wide@,
                        TcCtx::two(f, x, false),
                        |i: nat| t.reads(i),
                        false,
                    );
                }
                u
            },
            Expr::Lambda { binder_type, body, .. } | Expr::Pi { binder_type, body, .. } => {
                let ghost f = self.st.e(binder_type);
                let ghost x = self.st.e(body);
                let u = self.uses_two(e, binder_type, body, true)?;
                proof {
                    TcCtx::lemma_set_ext(
                        u,
                        self.rp.memo.wide@,
                        TcCtx::two(f, x, true),
                        |i: nat| t.reads(i),
                        false,
                    );
                }
                u
            },
            Expr::Let { binder_type, val, body, .. } => self.uses_let(e, binder_type, val, body, Ghost(t))?,
            Expr::Proj { structure, .. } => {
                let ghost x = self.st.e(structure);
                let u = self.uses_undense(structure)?;
                proof {
                    TcCtx::lemma_set_ext(
                        u,
                        self.rp.memo.wide@,
                        |i: nat| x.reads(i),
                        |i: nat| t.reads(i),
                        false,
                    );
                }
                u
            },
            _ => Uses::Mask(0),
        };
        let u: Uses = self.uses_close(u, lbr, Ghost(t));
        let ghost o = *self;
        proof {
            self.lemma_memo();
        }
        self.rp.memo.umask.insert((e, 0, 0, 0), u);
        proof {
            assert(self.rp.memo.ok(self.w@, &self.st)) by {
                reveal(CloMemos::ok);
            }
            self.lemma_memo_step(&o);
        }
        Ok(u)
    }

    /// A description stays right as more sets are held.
    proof fn lemma_set_wide(u: Uses, a: Seq<Seq<u64>>, b: Seq<Seq<u64>>, s: spec_fn(nat) -> bool, d: bool)
        requires
            u.is_set(a, s, d),
            a.len() <= b.len(),
            forall|i: int| 0 <= i < a.len() ==> b[i] == a[i],
        ensures
            u.is_set(b, s, d),
    {
    }

    // ---- extending environments ----

    /// Follow variables to what they stand for.  A neutral entry resolves to
    /// its free variable, and a variable bound to an evaluated entry stays.
    pub fn chase(&self, e0: ExprPtr, env0: EnvId) -> (r: (ExprPtr, EnvId))
        requires
            self.wf(),
            self.clo_ok(Clo { e: e0, env: env0 }),
        ensures
            self.clo_ok(Clo { e: r.0, env: r.1 }),
            self.clo(Clo { e: r.0, env: r.1 }) == self.clo(Clo { e: e0, env: env0 }),
            self.w@.plain(env0) ==> self.w@.plain(r.1),
            self.w@.plain(env0) ==> !(self.st.e(r.0) is Var),
            self.w@.ntime(r.1) < self.w@.clock,
            (Clo { e: r.0, env: r.1 }) == self.w@.chased(&self.st, Clo { e: e0, env: env0 }),
    {
        let mut e: ExprPtr = e0;
        let mut env: EnvId = env0;
        loop
            invariant_except_break
                self.w@.chased(&self.st, Clo { e, env }) == self.w@.chased(&self.st, Clo { e: e0, env: env0 }),
            invariant
                self.wf(),
                self.clo_ok(Clo { e, env }),
                self.clo(Clo { e, env }) == self.clo(Clo { e: e0, env: env0 }),
                self.w@.plain(env0) ==> self.w@.plain(env),
            ensures
                self.w@.plain(env0) ==> !(self.st.e(e) is Var),
                (Clo { e, env }) == self.w@.chased(&self.st, Clo { e: e0, env: env0 }),
            decreases self.w@.ntime(env),
        {
            let i: u16 = match self.read_expr(e) {
                Expr::Var { dbj_idx } => dbj_idx,
                _ => {
                    break;
                },
            };
            proof {
                self.lemma_env(env);
                assert(self.st.e(e) == Term::Var(i as nat));
            }
            match self.lookup(env, i) {
                Entry::Neu(fv) => {
                    proof {
                        self.lemma_wf();
                        Term::lemma_inst_closed(self.st.e(fv), 0, self.w@.n(0));
                    }
                    e = fv;
                    env = ENV_NIL;
                    break;
                },
                Entry::V(_) => {
                    break;
                },
                Entry::Val(e2, env2) => {
                    e = e2;
                    env = env2;
                },
            }
        }
        proof {
            self.lemma_ntime(env);
        }
        (e, env)
    }

    /// Cache-key normalization: resolve a variable to what it stands for; a
    /// closed result drops its environment.
    pub fn norm_clo(&self, c: Clo) -> (r: Clo)
        requires
            self.wf(),
            self.clo_ok(c),
        ensures
            self.clo_ok(r),
            self.clo(r) == self.clo(c),
            self.w@.plain(c.env) ==> self.w@.plain(r.env),
            r == self.w@.normed(&self.st, c),
    {
        let (e, env) = self.chase(c.e, c.env);
        if self.lbr(e) == 0 {
            proof {
                self.lemma_wf();
                Term::lemma_inst_closed(self.st.e(e), 0, self.w@.n(env));
                Term::lemma_inst_closed(self.st.e(e), 0, self.w@.n(0));
            }
            return Clo::of(e);
        }
        Clo { e, env }
    }

    /// Extend an environment.  The entry is part of the identity of every
    /// environment built on top of it, so it enters in normal form: a value
    /// that reads nothing from its own environment carries none, and a value
    /// that is a variable is replaced by what that variable stands for.
    pub fn push_entry(&mut self, env: EnvId, entry: Entry) -> (r: Result<EnvId, TcError>)
        requires
            old(self).wf(),
            old(self).w@.n_ok(env),
            old(self).w@.entry_ok(&old(self).st, entry, old(self).w@.clock),
        ensures
            final(self).wf(),
            final(self).ext(old(self)),
            final(self).st == old(self).st,
            final(self).nb == old(self).nb,
            final(self).rp.memo.views == old(self).rp.memo.views,
            final(self).rp.memo.wide == old(self).rp.memo.wide,
            final(self).eager_mode == old(self).eager_mode,
            r matches Ok(n) ==> final(self).w@.n_ok(n) && n > 0 && final(self).w@.n(n) == seq![
                old(self).w@.entry(&old(self).st, entry),
            ] + old(self).w@.n(env) && (old(self).w@.plain(env) && old(self).w@.entry_plain(entry)
                ==> final(self).w@.plain(n)),
            // the entry enters in normal form, above the others
            r matches Ok(n) ==> final(self).w@.ents(n) == seq![old(self).w@.normal(&old(self).st, entry)] + old(
                self,
            ).w@.ents(env),
            r matches Ok(n) ==> final(self).w@.nlevel(n) >= old(self).w@.nlevel(env),
            // one environment for each normal form
            r matches Ok(n) ==> final(self).rp.interned(env, old(self).w@.normal(&old(self).st, entry)) == Some(n),
            old(self).rp.interned(env, old(self).w@.normal(&old(self).st, entry)) matches Some(n) ==> (r matches Ok(m)
                ==> m == n),
            r is Err ==> r == Err::<EnvId, TcError>(TcError::Full),
    {
        self.tick(PUSH_ENTRY);
        let ghost o = *self;
        let ghost norm = self.w@.normal(&self.st, entry);
        let entry: Entry = match entry {
            Entry::Val(e, venv) => {
                if venv != ENV_NIL {
                    let c = self.norm_clo(Clo { e, env: venv });
                    proof {
                        self.lemma_ntime(c.env);
                    }
                    Entry::Val(c.e, c.env)
                } else {
                    entry
                }
            },
            _ => entry,
        };
        assert(entry == norm);
        let parent: u32 = self.env_next_level(env);
        let next_level: u32 = match entry {
            Entry::Neu(fv) => {
                let l: u32 = self.max_level(fv)?;
                if parent >= l {
                    parent
                } else {
                    l
                }
            },
            Entry::Val(e, venv) => {
                let l: u32 = self.next_level(e, venv)?;
                if parent >= l {
                    parent
                } else {
                    l
                }
            },
            // An evaluated entry introduces no free variable the environment
            // has not seen: every neutral inside it entered through an
            // enclosing environment, whose level this already covers.
            Entry::V(_) => parent,
        };
        proof {
            if let Entry::Val(e, venv) = entry {
                if self.w@.plain(venv) {
                    self.lemma_ntime(venv);
                    let l = Term::max(self.st.e(e).ml(), self.w@.nlevel(venv));
                    assert(Term::ml_seq(self.w@.n(venv), l));
                    Term::lemma_inst_ml(self.st.e(e), 0, self.w@.n(venv), l);
                }
            }
        }
        self.push_node(env, entry, next_level)
    }

    /// The entry an environment was extended by, and what it extends.
    pub fn env_node(&self, env: EnvId) -> (r: EnvNode)
        requires
            self.wf(),
            self.w@.n_ok(env),
            env != ENV_NIL,
        ensures
            self.w@.n_ok(r.parent),
            r.parent < env,
            self.w@.ents(env) == seq![r.entry] + self.w@.ents(r.parent),
            self.w@.n(env) == seq![self.w@.entry(&self.st, r.entry)] + self.w@.n(r.parent),
            self.w@.entry_ok(&self.st, r.entry, self.w@.ntime(env)),
            self.w@.plain(env) ==> self.w@.plain(r.parent) && self.w@.entry_plain(r.entry),
    {
        proof {
            self.lemma_env(env);
        }
        *self.rp.envs.index(env as usize)
    }

    // ---- projections ----

    /// The environment cut down to the entries a read set names, rebuilt so
    /// that environments agreeing on those entries become the same one.
    fn project_words(&mut self, m: &Vec<u64>, env: EnvId) -> (r: Result<EnvId, TcError>)
        requires
            old(self).wf(),
            old(self).w@.n_ok(env),
            1 <= m@.len() <= 1024,
            World::in_range(m@, old(self).w@.n(env).len()),
        ensures
            final(self).wf(),
            final(self).ext(old(self)),
            final(self).st == old(self).st,
            final(self).nb == old(self).nb,
            final(self).rp.memo.views == old(self).rp.memo.views,
            final(self).rp.memo.wide == old(self).rp.memo.wide,
            final(self).eager_mode == old(self).eager_mode,
            r matches Ok(n) ==> final(self).w@.proj_fact(m@, env, n),
            r is Err ==> r == Err::<EnvId, TcError>(TcError::Full),
    {
        let ghost o = *self;
        let ghost s = self.w@.n(env);
        let top: usize = m.len() * 64;
        let mut proj: EnvId = ENV_NIL;
        let mut cur: EnvId = env;
        let mut d: usize = 0;
        proof {
            self.lemma_wf();
            self.lemma_ntime(env);
            assert(s.skip(0) =~= s);
            assert(self.w@.n(0) =~= World::cut(m@, s, 0));
        }
        while d < top && cur != ENV_NIL
            invariant
                self.wf(),
                o == *old(self),
                self.ext(&o),
                self.st == o.st,
                self.nb == o.nb,
                self.rp.memo.views == o.rp.memo.views,
                self.rp.memo.wide == o.rp.memo.wide,
                self.eager_mode == o.eager_mode,
                o.w@.n_ok(env),
                s == o.w@.n(env),
                top == m@.len() * 64,
                1 <= m@.len() <= 1024,
                d <= top,
                d <= s.len(),
                self.w@.n_ok(cur),
                self.w@.n_ok(proj),
                self.w@.n(cur) == s.skip(d as int),
                self.w@.n(proj) == World::cut(m@, s, d as nat),
                o.w@.plain(env) ==> self.w@.plain(cur) && self.w@.plain(proj),
            decreases top - d,
        {
            let node = self.env_node(cur);
            let bit: bool = (m[d / 64] >> ((d % 64) as u64)) & 1 == 1;
            let ghost t = self.w@.entry(&self.st, node.entry);
            proof {
                assert(Uses::wbit(m@, d as nat) == bit);
                assert(self.w@.n(cur).len() >= 1);
                assert(s.skip(d as int).len() == s.len() - d);
                assert(self.w@.n(cur)[0] == t);
                assert(s[d as int] == t);
                assert(self.w@.n(node.parent) =~= self.w@.n(cur).skip(1));
                assert(self.w@.n(cur).skip(1) =~= s.skip(d + 1));
                self.lemma_ntime(cur);
            }
            if bit {
                proj = self.push_entry(proj, node.entry)?;
            }
            cur = node.parent;
            d += 1;
        }
        proof {
            self.lemma_wf();
            if d < top {
                assert(s.skip(d as int).len() == 0);
                assert forall|i: nat| d <= i < top implies !#[trigger] Uses::wbit(m@, i) by {
                }
                World::lemma_cut_top(m@, s, d as nat, top as nat);
            }
        }
        Ok(proj)
    }

    fn project(&mut self, mask: u64, env: EnvId) -> (r: Result<EnvId, TcError>)
        requires
            old(self).wf(),
            old(self).w@.n_ok(env),
            World::in_range(seq![mask], old(self).w@.n(env).len()),
        ensures
            final(self).wf(),
            final(self).ext(old(self)),
            final(self).st == old(self).st,
            final(self).nb == old(self).nb,
            final(self).rp.memo.views == old(self).rp.memo.views,
            final(self).rp.memo.wide == old(self).rp.memo.wide,
            final(self).eager_mode == old(self).eager_mode,
            r matches Ok(n) ==> final(self).w@.proj_fact(seq![mask], env, n),
            r is Err ==> r == Err::<EnvId, TcError>(TcError::Full),
    {
        let hi: u32 = (mask / 0x1_0000_0000) as u32;
        let lo: u32 = (mask % 0x1_0000_0000) as u32;
        proof {
            assert(World::word(hi, lo) == mask);
        }
        match self.rp.memo.proj.get((hi, lo, env, 0)) {
            Some(p) => {
                proof {
                    self.lemma_memo();
                    reveal(CloMemos::ok);
                    assert(self.rp.memo.proj@.contains_key((hi, lo, env, 0)));
                }
                return Ok(p);
            },
            None => {},
        }
        let mut m: Vec<u64> = Vec::new();
        m.push(mask);
        assert(m@ =~= seq![mask]);
        let p = self.project_words(&m, env)?;
        let ghost o = *self;
        proof {
            self.lemma_memo();
        }
        self.rp.memo.proj.insert((hi, lo, env, 0), p);
        proof {
            assert(self.rp.memo.ok(self.w@, &self.st)) by {
                reveal(CloMemos::ok);
            }
            self.lemma_memo_step(&o);
        }
        Ok(p)
    }

    /// `project` for a wide read set.
    fn project_wide(&mut self, id: u32, env: EnvId) -> (r: Result<EnvId, TcError>)
        requires
            old(self).wf(),
            old(self).w@.n_ok(env),
            id < old(self).rp.memo.wide@.len(),
            World::in_range(old(self).rp.memo.wide@[id as int], old(self).w@.n(env).len()),
        ensures
            final(self).wf(),
            final(self).ext(old(self)),
            final(self).st == old(self).st,
            final(self).nb == old(self).nb,
            final(self).rp.memo.views == old(self).rp.memo.views,
            final(self).rp.memo.wide == old(self).rp.memo.wide,
            final(self).eager_mode == old(self).eager_mode,
            r matches Ok(n) ==> final(self).w@.proj_fact(old(self).rp.memo.wide@[id as int], env, n),
            r is Err ==> r == Err::<EnvId, TcError>(TcError::Full),
    {
        match self.rp.memo.proj_w.get((id, env, 0, 0)) {
            Some(p) => {
                proof {
                    self.lemma_memo();
                    reveal(CloMemos::ok);
                    assert(self.rp.memo.proj_w@.contains_key((id, env, 0, 0)));
                }
                return Ok(p);
            },
            None => {},
        }
        let m = self.wide_words(id);
        let p = self.project_words(&m, env)?;
        let ghost o = *self;
        proof {
            self.lemma_memo();
        }
        self.rp.memo.proj_w.insert((id, env, 0, 0), p);
        proof {
            assert(self.rp.memo.ok(self.w@, &self.st)) by {
                reveal(CloMemos::ok);
            }
            self.lemma_memo_step(&o);
        }
        Ok(p)
    }

    /// A set of what a term reads lies within an environment it is in scope of.
    proof fn lemma_in_range(t: Term, m: Seq<u64>, n: nat)
        requires
            Uses::set_is(t, m),
            t.nl() <= n,
        ensures
            World::in_range(m, n),
    {
        assert forall|i: nat| #[trigger] Uses::wbit(m, i) implies i < n by {
            assert(t.reads(i));
            Term::lemma_reads_nl(t, i);
        }
    }

    /// The range of a term is covered by the words of its read set.
    proof fn lemma_covers(t: Term, m: Seq<u64>)
        requires
            Uses::set_is(t, m),
        ensures
            t.nl() <= 64 * m.len(),
    {
        if t.nl() > 0 {
            Term::lemma_reads_nl(t, 0);
            assert(Uses::wbit(m, (t.nl() - 1) as nat));
        }
    }

    /// The identity of a closure as a question: the expression together with
    /// the bindings that expression reads.
    pub fn key(&mut self, c: Clo) -> (r: Result<Clo, TcError>)
        requires
            old(self).wf(),
            old(self).clo_ok(c),
        ensures
            final(self).wf(),
            final(self).ext(old(self)),
            final(self).st == old(self).st,
            final(self).nb == old(self).nb,
            final(self).rp.memo.views == old(self).rp.memo.views,
            final(self).eager_mode == old(self).eager_mode,
            r matches Ok(k) ==> k.e == c.e && final(self).w@.n_ok(k.env) && final(self).w@.n(k.env) == Term::key_of(
                old(self).st.e(c.e),
                old(self).w@.n(c.env),
            ),
            r is Err ==> r == Err::<Clo, TcError>(TcError::Full),
    {
        let ghost t = self.st.e(c.e);
        let ghost s = self.w@.n(c.env);
        proof {
            self.lemma_wf();
        }
        if c.env == ENV_NIL {
            return Ok(c);
        }
        let u = self.uses_mask(c.e)?;
        match u {
            Uses::Mask(m) => {
                if m == 0 {
                    proof {
                        if t.nl() > 0 {
                            Term::lemma_reads_nl(t, 0);
                            Uses::lemma_wbit_one(0, (t.nl() - 1) as nat);
                            Uses::lemma_zero((t.nl() - 1) as nat);
                        }
                    }
                    return Ok(Clo::of(c.e));
                }
                proof {
                    TcCtx::lemma_in_range(t, seq![m], s.len());
                    TcCtx::lemma_covers(t, seq![m]);
                    World::lemma_cut_pick(seq![m], t, s, 64);
                    World::lemma_pick_nl(t, s, 64);
                    if t.nl() == 0 {
                        assert forall|i: nat| i < 64 implies #[trigger] Uses::bit(m, i) == Uses::bit(0, i) by {
                            Uses::lemma_wbit_one(m, i);
                            Uses::lemma_zero(i);
                            Term::lemma_reads_nl(t, i);
                            assert(t.reads(i) <==> Uses::wbit(seq![m], i));
                        }
                        Uses::lemma_bits_eq(m, 0);
                    }
                }
                let env = self.project(m, c.env)?;
                Ok(Clo { e: c.e, env })
            },
            Uses::Dense | Uses::Deep => {
                proof {
                    Term::lemma_deep(t);
                }
                Ok(c)
            },
            Uses::Wide(id) => {
                let ghost m = self.rp.memo.wide@[id as int];
                proof {
                    TcCtx::lemma_in_range(t, m, s.len());
                    TcCtx::lemma_covers(t, m);
                    World::lemma_cut_pick(m, t, s, 64 * m.len());
                    World::lemma_pick_nl(t, s, 64 * m.len());
                    self.lemma_memo();
                    reveal(CloMemos::ok);
                    assert(Uses::wide_ok(m));
                    let i = Uses::lemma_nonzero(m.last());
                    let j = (64 * (m.len() - 1) + i) as nat;
                    assert(j / 64 == m.len() - 1 && j % 64 == i);
                    assert(Uses::wbit(m, j));
                    assert(t.reads(j));
                    Term::lemma_reads_nl(t, j);
                }
                let env = self.project_wide(id, c.env)?;
                Ok(Clo { e: c.e, env })
            },
        }
    }

    // ---- views ----

    /// Intern a list of entries, given by their words.
    fn intern_view(&mut self, words: Vec<u64>) -> (r: Result<EnvId, TcError>)
        requires
            old(self).wf(),
        ensures
            final(self).wf(),
            final(self).ext(old(self)),
            final(self).same_world(old(self)),
            final(self).rp.memo.wide == old(self).rp.memo.wide,
            r matches Ok(k) ==> 0x8000_0000 <= k < 0x8000_0000 + final(self).rp.memo.views@.len() && final(
                self).rp.memo.views@[k - 0x8000_0000] == words@,
            r is Err ==> r == Err::<EnvId, TcError>(TcError::Full),
    {
        let ghost o = *self;
        proof {
            self.lemma_memo();
            reveal(CloMemos::ok);
        }
        let r = self.rp.memo.views.intern(words);
        proof {
            self.rp.memo.views.lemma_wf();
            assert(self.rp.memo.ok(self.w@, &self.st)) by {
                reveal(CloMemos::ok);
                let v = self.rp.memo.views@;
                let ov = o.rp.memo.views@;
                assert(forall|i: int| 0 <= i < ov.len() ==> v[i] == ov[i]);
            }
            self.lemma_memo_step(&o);
        }
        match r {
            Some(id) => Ok(VIEW_BIT + id),
            None => Err(TcError::Full),
        }
    }

    /// The words of the entries a read set names, walking the chain once.
    fn view_words(&self, m: &Vec<u64>, env: EnvId) -> (r: Vec<u64>)
        requires
            self.wf(),
            self.w@.n_ok(env),
            1 <= m@.len() <= 1024,
            World::in_range(m@, self.w@.n(env).len()),
        ensures
            r@ == World::view_cut(m@, self.w@.ents(env), 64 * m@.len()),
    {
        let ghost s = self.w@.ents(env);
        let top: usize = m.len() * 64;
        let mut out: Vec<u64> = Vec::new();
        let mut cur: EnvId = env;
        let mut d: usize = 0;
        proof {
            self.lemma_ntime(env);
            assert(s.skip(0) =~= s);
        }
        while d < top && cur != ENV_NIL
            invariant
                self.wf(),
                self.w@.n_ok(env),
                s == self.w@.ents(env),
                top == m@.len() * 64,
                1 <= m@.len() <= 1024,
                d <= top,
                d <= s.len(),
                self.w@.n_ok(cur),
                self.w@.ents(cur) == s.skip(d as int),
                out@ == World::view_cut(m@, s, d as nat),
            decreases top - d,
        {
            let node = self.env_node(cur);
            let bit: bool = (m[d / 64] >> ((d % 64) as u64)) & 1 == 1;
            proof {
                assert(Uses::wbit(m@, d as nat) == bit);
                assert(self.w@.ents(cur).len() >= 1);
                assert(s.skip(d as int).len() == s.len() - d);
                assert(self.w@.ents(cur)[0] == node.entry);
                assert(s[d as int] == node.entry);
                assert(self.w@.ents(node.parent) =~= self.w@.ents(cur).skip(1));
                assert(self.w@.ents(cur).skip(1) =~= s.skip(d + 1));
            }
            if bit {
                let ghost before = out@;
                match node.entry {
                    Entry::Val(e, n) => {
                        out.push(e as u64);
                        out.push(2 * (n as u64) + 1);
                    },
                    Entry::Neu(e) => {
                        out.push(e as u64);
                        out.push(0);
                    },
                    Entry::V(v) => {
                        out.push(v as u64);
                        out.push(2);
                    },
                }
                assert(out@ =~= before + node.entry.words());
            }
            cur = node.parent;
            d += 1;
        }
        proof {
            self.lemma_wf();
            self.lemma_ntime(env);
            if d < top {
                assert(s.skip(d as int).len() == 0);
                assert forall|i: nat| d <= i < top implies !#[trigger] Uses::wbit(m@, i) by {
                }
                World::lemma_view_top(m@, s, d as nat, top as nat);
            }
        }
        out
    }

    /// The interned view of the entries a one-word set names.
    fn view_of_mask(&mut self, m: u64, env: EnvId) -> (r: Result<EnvId, TcError>)
        requires
            old(self).wf(),
            old(self).w@.n_ok(env),
            World::in_range(seq![m], old(self).w@.n(env).len()),
        ensures
            final(self).wf(),
            final(self).ext(old(self)),
            final(self).same_world(old(self)),
            final(self).rp.memo.wide == old(self).rp.memo.wide,
            r matches Ok(k) ==> final(self).w@.view_fact(seq![m], env, k, final(self).rp.memo.views@),
            r is Err ==> r == Err::<EnvId, TcError>(TcError::Full),
    {
        let hi: u32 = (m / 0x1_0000_0000) as u32;
        let lo: u32 = (m % 0x1_0000_0000) as u32;
        let ghost o = *self;
        proof {
            assert(World::word(hi, lo) == m);
            self.lemma_memo();
        }
        let hit = self.rp.memo.view.get((hi, lo, env, 0));
        proof {
            assert(self.rp.memo.ok(self.w@, &self.st)) by {
                reveal(CloMemos::ok);
            }
            self.lemma_memo_step(&o);
        }
        match hit {
            Some(v) => {
                proof {
                    reveal(CloMemos::ok);
                    assert(self.rp.memo.view.holds((hi, lo, env, 0), v));
                }
                return Ok(v);
            },
            None => {},
        }
        let mut w: Vec<u64> = Vec::new();
        w.push(m);
        assert(w@ =~= seq![m]);
        let words = self.view_words(&w, env);
        let v = self.intern_view(words)?;
        let ghost o2 = *self;
        proof {
            self.lemma_memo();
        }
        self.rp.memo.view.insert((hi, lo, env, 0), v);
        proof {
            assert(self.rp.memo.ok(self.w@, &self.st)) by {
                reveal(CloMemos::ok);
            }
            self.lemma_memo_step(&o2);
        }
        Ok(v)
    }

    /// The interned view of the entries a wide set names.
    fn view_of_wide(&mut self, id: u32, env: EnvId) -> (r: Result<EnvId, TcError>)
        requires
            old(self).wf(),
            old(self).w@.n_ok(env),
            id < old(self).rp.memo.wide@.len(),
            World::in_range(old(self).rp.memo.wide@[id as int], old(self).w@.n(env).len()),
        ensures
            final(self).wf(),
            final(self).ext(old(self)),
            final(self).same_world(old(self)),
            final(self).rp.memo.wide == old(self).rp.memo.wide,
            r matches Ok(k) ==> final(self).w@.view_fact(
                old(self).rp.memo.wide@[id as int],
                env,
                k,
                final(self).rp.memo.views@,
            ),
            r is Err ==> r == Err::<EnvId, TcError>(TcError::Full),
    {
        let ghost o = *self;
        proof {
            self.lemma_memo();
        }
        let hit = self.rp.memo.view_w.get((id, env, 0, 0));
        proof {
            assert(self.rp.memo.ok(self.w@, &self.st)) by {
                reveal(CloMemos::ok);
            }
            self.lemma_memo_step(&o);
        }
        match hit {
            Some(v) => {
                proof {
                    reveal(CloMemos::ok);
                    assert(self.rp.memo.view_w.holds((id, env, 0, 0), v));
                }
                return Ok(v);
            },
            None => {},
        }
        let w = self.wide_words(id);
        let words = self.view_words(&w, env);
        let v = self.intern_view(words)?;
        let ghost o2 = *self;
        proof {
            self.lemma_memo();
        }
        self.rp.memo.view_w.insert((id, env, 0, 0), v);
        proof {
            assert(self.rp.memo.ok(self.w@, &self.st)) by {
                reveal(CloMemos::ok);
            }
            self.lemma_memo_step(&o2);
        }
        Ok(v)
    }

    /// The key naming the entries `e` reads from `env`: the empty environment
    /// for a closed term, and otherwise an interned view of the read entries,
    /// tagged with `VIEW_BIT`.  Two environments agreeing on the read entries
    /// produce the same key.
    pub fn read_key(&mut self, e: ExprPtr, env: EnvId) -> (r: Result<EnvId, TcError>)
        requires
            old(self).wf(),
            old(self).clo_ok(Clo { e, env }),
        ensures
            final(self).wf(),
            final(self).ext(old(self)),
            final(self).same_world(old(self)),
            r matches Ok(k) ==> final(self).w@.read_rel(&final(self).st, final(self).rp.memo.views@, k, e, env),
            r is Err ==> r == Err::<EnvId, TcError>(TcError::Full),
    {
        let ghost t = self.st.e(e);
        let ghost s = self.w@.n(env);
        let ghost x = self.w@.ents(env);
        proof {
            self.lemma_wf();
        }
        if env == ENV_NIL {
            return Ok(ENV_NIL);
        }
        let u = self.uses_undense(e)?;
        match u {
            Uses::Mask(m) => {
                proof {
                    assert forall|i: nat| #[trigger] t.reads(i) <==> Uses::wbit(seq![m], i) by {
                        Uses::lemma_wbit_one(m, i);
                        assert((|i: nat| t.reads(i))(i) <==> Uses::bit(m, i));
                    }
                }
                if m == 0 {
                    proof {
                        if t.nl() > 0 {
                            Term::lemma_reads_nl(t, 0);
                            Uses::lemma_wbit_one(0, (t.nl() - 1) as nat);
                            Uses::lemma_zero((t.nl() - 1) as nat);
                        }
                    }
                    return Ok(ENV_NIL);
                }
                proof {
                    TcCtx::lemma_in_range(t, seq![m], s.len());
                    TcCtx::lemma_covers(t, seq![m]);
                    World::lemma_view_pick(seq![m], t, x, 64);
                    World::lemma_view_nl(t, x, 64);
                    if t.nl() == 0 {
                        assert forall|i: nat| i < 64 implies #[trigger] Uses::bit(m, i) == Uses::bit(0, i) by {
                            Uses::lemma_wbit_one(m, i);
                            Uses::lemma_zero(i);
                            Term::lemma_reads_nl(t, i);
                            assert(t.reads(i) <==> Uses::wbit(seq![m], i));
                        }
                        Uses::lemma_bits_eq(m, 0);
                    }
                }
                self.view_of_mask(m, env)
            },
            Uses::Dense | Uses::Deep => Err(TcError::Full),
            Uses::Wide(id) => {
                let ghost m = self.rp.memo.wide@[id as int];
                proof {
                    assert forall|i: nat| #[trigger] t.reads(i) <==> Uses::wbit(m, i) by {
                        assert((|i: nat| t.reads(i))(i) <==> Uses::wbit(m, i));
                    }
                    TcCtx::lemma_in_range(t, m, s.len());
                    TcCtx::lemma_covers(t, m);
                    World::lemma_view_pick(m, t, x, 64 * m.len());
                    World::lemma_view_nl(t, x, 64 * m.len());
                    self.lemma_memo();
                    reveal(CloMemos::ok);
                    assert(Uses::wide_ok(m));
                    let i = Uses::lemma_nonzero(m.last());
                    let j = (64 * (m.len() - 1) + i) as nat;
                    assert(j / 64 == m.len() - 1 && j % 64 == i);
                    assert(Uses::wbit(m, j));
                    assert(t.reads(j));
                    Term::lemma_reads_nl(t, j);
                }
                self.view_of_wide(id, env)
            },
        }
    }

    /// Closures of one expression get one key exactly when the environments
    /// agree on what the expression reads; a closed expression gets the empty
    /// environment.
    pub proof fn law_read_key(w: World, st: &crate::expr::Store, views: Seq<Seq<u64>>, e: ExprPtr, m: EnvId, n: EnvId,
        j: EnvId, k: EnvId)
        requires
            views.no_duplicates(),
            views.len() <= crate::table::MAX_SLICES,
            w.read_rel(st, views, j, e, m),
            w.read_rel(st, views, k, e, n),
        ensures
            st.e(e).nl() == 0 ==> k == 0,
            j == k <==> forall|i: nat| #[trigger] st.e(e).reads(i) ==> w.ents(m)[i as int] == w.ents(n)[i as int],
    {
        let t = st.e(e);
        if t.nl() == 0 {
            assert forall|i: nat| !#[trigger] t.reads(i) by {
                Term::lemma_reads_nl(t, i);
            }
        } else if j == k {
            Entry::lemma_view_agree(t, w.ents(m), w.ents(n), t.nl());
            assert forall|i: nat| #[trigger] t.reads(i) implies w.ents(m)[i as int] == w.ents(n)[i as int] by {
                Term::lemma_reads_nl(t, i);
            }
        }
        if forall|i: nat| #[trigger] t.reads(i) ==> w.ents(m)[i as int] == w.ents(n)[i as int] {
            Entry::lemma_view_ext(t, w.ents(m), w.ents(n), t.nl());
        }
    }

    /// A thunk over the closure `(e, env)`, shared by every closure of `e` that
    /// agrees on what `e` reads.
    pub fn mk_thunk(&mut self, env: VEnvId, e: ExprPtr) -> (r: Result<ValId, TcError>)
        requires
            old(self).wf(),
            old(self).clo_ok(Clo { e, env }),
        ensures
            final(self).wf(),
            final(self).ext(old(self)),
            r matches Ok(v) ==> final(self).w@.v_ok(v) && final(self).w@.v(v) == old(self).clo(Clo { e, env }),
            r is Err ==> r == Err::<ValId, TcError>(TcError::Full),
    {
        let k = self.read_key(e, env)?;
        self.mk_thunk_keyed(k, env, e)
    }
}

} // verus!
