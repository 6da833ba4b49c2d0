//! Which loose variables a term reads, and what depends on them alone.
use crate::closure::{Entry, Uses};
use crate::term::Term;
use vstd::prelude::*;

verus! {

impl Term {
    /// The loose variable `i` occurs in the term.
    pub open spec fn reads(self, i: nat) -> bool
        decreases self,
    {
        match self {
            Term::Var(j) => i == j,
            Term::App(f, a) => f.reads(i) || a.reads(i),
            Term::Lam(_, _, a, b) => a.reads(i) || b.reads(i + 1),
            Term::Pi(_, _, a, b) => a.reads(i) || b.reads(i + 1),
            Term::Let(_, _, a, v, b) => a.reads(i) || v.reads(i) || b.reads(i + 1),
            Term::Proj(_, _, e) => e.reads(i),
            _ => false,
        }
    }

    /// Every variable below the range is read.
    pub open spec fn dense(self) -> bool {
        self.nl() > 0 && forall|i: nat| i < self.nl() ==> #[trigger] self.reads(i)
    }

    /// A variable past the bound on read sets is read.
    pub open spec fn deep(self) -> bool {
        exists|i: nat| i >= 512 && #[trigger] self.reads(i)
    }

    /// What the term reads is not cut out of an environment: it is all of it,
    /// or too far apart.
    pub open spec fn direct(self) -> bool {
        self.deep() || self.dense()
    }

    /// Only variables below the range are read, and the last of them is.
    pub proof fn lemma_reads_nl(t: Term, i: nat)
        ensures
            t.reads(i) ==> i < t.nl(),
            t.nl() > 0 ==> t.reads((t.nl() - 1) as nat),
        decreases t,
    {
        match t {
            Term::App(f, a) => {
                Term::lemma_reads_nl(*f, i);
                Term::lemma_reads_nl(*a, i);
            },
            Term::Lam(_, _, a, b) => {
                Term::lemma_reads_nl(*a, i);
                Term::lemma_reads_nl(*b, i + 1);
            },
            Term::Pi(_, _, a, b) => {
                Term::lemma_reads_nl(*a, i);
                Term::lemma_reads_nl(*b, i + 1);
            },
            Term::Let(_, _, a, v, b) => {
                Term::lemma_reads_nl(*a, i);
                Term::lemma_reads_nl(*v, i);
                Term::lemma_reads_nl(*b, i + 1);
            },
            Term::Proj(_, _, e) => {
                Term::lemma_reads_nl(*e, i);
            },
            _ => {},
        }
    }

    /// A variable past the bound is read exactly when the range goes past it.
    pub proof fn lemma_deep(t: Term)
        ensures
            t.deep() == (t.nl() > 512),
    {
        if t.nl() > 512 {
            Term::lemma_reads_nl(t, 0);
            assert(t.reads((t.nl() - 1) as nat));
        }
        if t.deep() {
            let i = choose|i: nat| i >= 512 && #[trigger] t.reads(i);
            Term::lemma_reads_nl(t, i);
        }
    }

    /// Two substitutions agree where `t`, below `k` binders, reads them.
    pub open spec fn agree(t: Term, k: nat, r: Seq<Term>, s: Seq<Term>) -> bool {
        forall|i: nat| #[trigger] t.reads(i) && i >= k ==> i - k < r.len() && i - k < s.len() && r[i - k] == s[i - k]
    }

    /// A term depends on a substitution only where it reads it.
    pub proof fn lemma_inst_agree(t: Term, k: nat, r: Seq<Term>, s: Seq<Term>)
        requires
            Term::agree(t, k, r, s),
        ensures
            t.inst(k, r) == t.inst(k, s),
        decreases t,
    {
        match t {
            Term::Var(i) => {
                assert(t.reads(i));
            },
            Term::App(f, a) => {
                assert forall|i: nat| #[trigger] f.reads(i) && i >= k implies i - k < r.len() && i - k < s.len() && r[i
                    - k] == s[i - k] by {
                    assert(t.reads(i));
                }
                assert forall|i: nat| #[trigger] a.reads(i) && i >= k implies i - k < r.len() && i - k < s.len() && r[i
                    - k] == s[i - k] by {
                    assert(t.reads(i));
                }
                Term::lemma_inst_agree(*f, k, r, s);
                Term::lemma_inst_agree(*a, k, r, s);
            },
            Term::Lam(_, _, a, b) => {
                Term::lemma_agree_binder(t, *a, *b, k, r, s);
                Term::lemma_inst_agree(*a, k, r, s);
                Term::lemma_inst_agree(*b, k + 1, r, s);
            },
            Term::Pi(_, _, a, b) => {
                Term::lemma_agree_binder(t, *a, *b, k, r, s);
                Term::lemma_inst_agree(*a, k, r, s);
                Term::lemma_inst_agree(*b, k + 1, r, s);
            },
            Term::Let(_, _, a, v, b) => {
                assert forall|i: nat| #[trigger] v.reads(i) && i >= k implies i - k < r.len() && i - k < s.len() && r[i
                    - k] == s[i - k] by {
                    assert(t.reads(i));
                }
                Term::lemma_agree_binder(t, *a, *b, k, r, s);
                Term::lemma_inst_agree(*a, k, r, s);
                Term::lemma_inst_agree(*v, k, r, s);
                Term::lemma_inst_agree(*b, k + 1, r, s);
            },
            Term::Proj(_, _, e) => {
                assert forall|i: nat| #[trigger] e.reads(i) && i >= k implies i - k < r.len() && i - k < s.len() && r[i
                    - k] == s[i - k] by {
                    assert(t.reads(i));
                }
                Term::lemma_inst_agree(*e, k, r, s);
            },
            _ => {},
        }
    }

    proof fn lemma_agree_binder(t: Term, a: Term, b: Term, k: nat, r: Seq<Term>, s: Seq<Term>)
        requires
            Term::agree(t, k, r, s),
            forall|i: nat| #![auto] a.reads(i) ==> t.reads(i),
            forall|i: nat| #![trigger b.reads(i + 1)] b.reads(i + 1) ==> t.reads(i),
        ensures
            Term::agree(a, k, r, s),
            Term::agree(b, k + 1, r, s),
    {
        assert forall|i: nat| #[trigger] b.reads(i) && i >= k + 1 implies i - (k + 1) < r.len() && i - (k + 1)
            < s.len() && r[i - (k + 1)] == s[i - (k + 1)] by {
            let j = (i - 1) as nat;
            assert(b.reads(j + 1));
            assert(t.reads(j));
        }
    }

    /// Instantiating with nothing changes nothing.
    pub proof fn lemma_inst_empty(t: Term, k: nat)
        ensures
            t.inst(k, Seq::empty()) == t,
        decreases t,
    {
        match t {
            Term::App(f, a) => {
                Term::lemma_inst_empty(*f, k);
                Term::lemma_inst_empty(*a, k);
            },
            Term::Lam(_, _, a, b) => {
                Term::lemma_inst_empty(*a, k);
                Term::lemma_inst_empty(*b, k + 1);
            },
            Term::Pi(_, _, a, b) => {
                Term::lemma_inst_empty(*a, k);
                Term::lemma_inst_empty(*b, k + 1);
            },
            Term::Let(_, _, a, v, b) => {
                Term::lemma_inst_empty(*a, k);
                Term::lemma_inst_empty(*v, k);
                Term::lemma_inst_empty(*b, k + 1);
            },
            Term::Proj(_, _, e) => {
                Term::lemma_inst_empty(*e, k);
            },
            _ => {},
        }
    }

    /// The entries of `s` below `n` that `t` reads, the last one first.
    pub open spec fn pick<A>(t: Term, s: Seq<A>, n: nat) -> Seq<A>
        decreases n,
    {
        if n == 0 {
            Seq::empty()
        } else if t.reads((n - 1) as nat) {
            seq![s[n - 1]] + Term::pick(t, s, (n - 1) as nat)
        } else {
            Term::pick(t, s, (n - 1) as nat)
        }
    }

    /// What was picked says what the entries were.
    pub proof fn lemma_pick_agree<A>(t: Term, r: Seq<A>, s: Seq<A>, n: nat)
        requires
            Term::pick(t, r, n) == Term::pick(t, s, n),
        ensures
            forall|i: nat| i < n && #[trigger] t.reads(i) ==> r[i as int] == s[i as int],
        decreases n,
    {
        if n > 0 {
            if t.reads((n - 1) as nat) {
                let p = Term::pick(t, r, n);
                let q = Term::pick(t, s, n);
                assert(p[0] == r[n - 1]);
                assert(q[0] == s[n - 1]);
                assert(p.skip(1) =~= Term::pick(t, r, (n - 1) as nat));
                assert(q.skip(1) =~= Term::pick(t, s, (n - 1) as nat));
            }
            Term::lemma_pick_agree(t, r, s, (n - 1) as nat);
        }
    }

    /// `p` is what identifies the closure of `t` over `s`: nothing when `t` is
    /// closed, `s` itself when `t` reads it directly, else what `t` reads of it.
    pub open spec fn key_of<A>(t: Term, s: Seq<A>) -> Seq<A> {
        if t.nl() == 0 {
            Seq::empty()
        } else if t.direct() {
            s
        } else {
            Term::pick(t, s, t.nl())
        }
    }

    /// Closures of `t` with one key are one term.
    pub proof fn lemma_key(t: Term, r: Seq<Term>, s: Seq<Term>)
        requires
            Term::key_of(t, r) == Term::key_of(t, s),
            t.nl() <= r.len(),
            t.nl() <= s.len(),
        ensures
            t.inst(0, r) == t.inst(0, s),
    {
        if t.nl() > 0 && !t.direct() {
            Term::lemma_pick_agree(t, r, s, t.nl());
        }
        assert forall|i: nat| #[trigger] t.reads(i) && i >= 0 implies i - 0 < r.len() && i - 0 < s.len() && r[i - 0]
            == s[i - 0] by {
            Term::lemma_reads_nl(t, i);
        }
        Term::lemma_inst_agree(t, 0, r, s);
    }
}

impl Uses {
    /// Bit `i` of the word `m`.
    pub open spec fn bit(m: u64, i: nat) -> bool {
        i < 64 && (m >> (i as u64)) & 1 == 1
    }

    /// Bit `i` of the words `w`.
    pub open spec fn wbit(w: Seq<u64>, i: nat) -> bool {
        i / 64 < w.len() && Uses::bit(w[(i / 64) as int], i % 64)
    }

    /// The words are the set of variables `t` reads.
    pub open spec fn set_is(t: Term, w: Seq<u64>) -> bool {
        forall|i: nat| #[trigger] t.reads(i) <==> Uses::wbit(w, i)
    }

    /// A read set past one word is held without trailing zeros.
    pub open spec fn wide_ok(w: Seq<u64>) -> bool {
        2 <= w.len() <= 1024 && w.last() != 0
    }

    /// The set is what `t` reads, whatever its size.
    pub open spec fn is_exact(self, t: Term, wide: Seq<Seq<u64>>) -> bool {
        match self {
            Uses::Dense => t.dense(),
            Uses::Mask(m) => !t.dense() && Uses::set_is(t, seq![m]),
            Uses::Wide(id) => !t.dense() && id < wide.len() && Uses::set_is(t, wide[id as int]),
            Uses::Deep => false,
        }
    }

    /// The set describes what `t` reads; `wide` holds the sets past one word.
    pub open spec fn is_of(self, t: Term, wide: Seq<Seq<u64>>) -> bool {
        match self {
            Uses::Dense => !t.deep() && t.dense(),
            Uses::Mask(m) => !t.deep() && !t.dense() && Uses::set_is(t, seq![m]),
            Uses::Wide(id) => !t.deep() && !t.dense() && id < wide.len() && Uses::set_is(t, wide[id as int]),
            Uses::Deep => t.deep(),
        }
    }

    pub proof fn lemma_bit_or(a: u64, b: u64, i: nat)
        ensures
            Uses::bit(a | b, i) == (Uses::bit(a, i) || Uses::bit(b, i)),
    {
        if i < 64 {
            let j = i as u64;
            assert(((a | b) >> j) & 1 == 1 <==> ((a >> j) & 1 == 1 || (b >> j) & 1 == 1)) by (bit_vector);
        }
    }

    pub proof fn lemma_bit_shr(a: u64, i: nat)
        ensures
            Uses::bit(a >> 1, i) == Uses::bit(a, i + 1),
    {
        if i < 64 {
            let j = i as u64;
            if i < 63 {
                assert(((a >> 1) >> j) & 1 == (a >> ((j + 1) as u64)) & 1) by (bit_vector)
                    requires
                        j < 63,
                ;
            } else {
                assert(((a >> 1) >> 63) & 1 == 0) by (bit_vector);
            }
        }
    }

    /// A word shifted down by one, the low bit of the next word moving in.
    pub proof fn lemma_bit_carry(a: u64, b: u64, i: nat)
        requires
            i < 64,
        ensures
            Uses::bit((a >> 1) | (b << 63), i) == (if i < 63 {
                Uses::bit(a, i + 1)
            } else {
                Uses::bit(b, 0)
            }),
    {
        let j = i as u64;
        if i < 63 {
            assert((((a >> 1) | (b << 63)) >> j) & 1 == (a >> ((j + 1) as u64)) & 1) by (bit_vector)
                requires
                    j < 63,
            ;
        } else {
            assert((((a >> 1) | (b << 63)) >> 63) & 1 == (b >> 0) & 1) by (bit_vector);
        }
    }

    pub proof fn lemma_bit_one(d: u64, i: nat)
        requires
            d < 64,
        ensures
            Uses::bit(1u64 << d, i) == (i == d),
    {
        if i < 64 {
            let j = i as u64;
            assert(((1u64 << d) >> j) & 1 == 1 <==> j == d) by (bit_vector)
                requires
                    d < 64,
                    j < 64,
            ;
        }
    }

    /// The word of the first `n` bits.
    pub proof fn lemma_bit_full(n: u64, i: nat)
        requires
            1 <= n <= 64,
        ensures
            Uses::bit(u64::MAX >> ((64 - n) as u64), i) == (i < n),
    {
        if i < 64 {
            let j = i as u64;
            let s = (64 - n) as u64;
            assert((u64::MAX >> s) >> j & 1 == 1 <==> j + s < 64) by (bit_vector)
                requires
                    s < 64,
                    j < 64,
            ;
        }
    }

    /// Words that agree bit by bit are equal.
    pub proof fn lemma_bits_eq(a: u64, b: u64)
        requires
            forall|i: nat| i < 64 ==> #[trigger] Uses::bit(a, i) == Uses::bit(b, i),
        ensures
            a == b,
    {
        Uses::lemma_diff(a, b, 64);
        assert(a << 0 == a && b << 0 == b) by (bit_vector);
    }

    /// Words that differ in their low `n` bits differ in one of them.
    proof fn lemma_diff(a: u64, b: u64, n: nat)
        requires
            n <= 64,
            n > 0,
            forall|i: nat| i < 64 ==> #[trigger] Uses::bit(a, i) == Uses::bit(b, i),
        ensures
            (a << ((64 - n) as u64)) == (b << ((64 - n) as u64)),
        decreases n,
    {
        let s = (64 - n) as u64;
        let j = (n - 1) as u64;
        assert(Uses::bit(a, (n - 1) as nat) == Uses::bit(b, (n - 1) as nat));
        let pa = (a >> j) & 1;
        let pb = (b >> j) & 1;
        assert(((a >> j) & 1 == 0 || (a >> j) & 1 == 1) && ((b >> j) & 1 == 0 || (b >> j) & 1 == 1)) by (bit_vector);
        if n == 1 {
            assert(a << 63 == b << 63) by (bit_vector)
                requires
                    (a >> 0) & 1 == (b >> 0) & 1,
            ;
        } else {
            Uses::lemma_diff(a, b, (n - 1) as nat);
            let t = (s + 1) as u64;
            assert(a << s == b << s) by (bit_vector)
                requires
                    s < 63,
                    j == 63 - s,
                    t == s + 1,
                    a << t == b << t,
                    (a >> j) & 1 == (b >> j) & 1,
            ;
        }
    }

    /// A word without bits is zero, and a nonzero one has a bit.
    pub proof fn lemma_nonzero(a: u64) -> (i: nat)
        requires
            a != 0,
        ensures
            i < 64,
            Uses::bit(a, i),
    {
        if forall|i: nat| i < 64 ==> !#[trigger] Uses::bit(a, i) {
            assert forall|i: nat| i < 64 implies #[trigger] Uses::bit(a, i) == Uses::bit(0, i) by {
                let j = i as u64;
                assert((0u64 >> j) & 1 == 0) by (bit_vector);
            }
            Uses::lemma_bits_eq(a, 0);
        }
        choose|i: nat| i < 64 && Uses::bit(a, i)
    }
}

impl Entry {
    /// The words standing for the entries `t` reads of `s`, in order.
    pub open spec fn view_words(t: Term, s: Seq<Entry>, n: nat) -> Seq<u64>
        decreases n,
    {
        if n == 0 {
            Seq::empty()
        } else if t.reads((n - 1) as nat) {
            Entry::view_words(t, s, (n - 1) as nat) + s[n - 1].words()
        } else {
            Entry::view_words(t, s, (n - 1) as nat)
        }
    }

    /// The two words standing for an entry.
    pub open spec fn words(self) -> Seq<u64> {
        match self {
            Entry::Val(e, n) => seq![e as u64, (2 * n + 1) as u64],
            Entry::Neu(e) => seq![e as u64, 0u64],
            Entry::V(v) => seq![v as u64, 2u64],
        }
    }

    pub proof fn lemma_words(a: Entry, b: Entry)
        requires
            a.words() == b.words(),
        ensures
            a == b,
    {
        assert(a.words()[0] == b.words()[0]);
        assert(a.words()[1] == b.words()[1]);
    }

    /// A view says what the read entries are.
    pub proof fn lemma_view_agree(t: Term, r: Seq<Entry>, s: Seq<Entry>, n: nat)
        requires
            Entry::view_words(t, r, n) == Entry::view_words(t, s, n),
        ensures
            forall|i: nat| i < n && #[trigger] t.reads(i) ==> r[i as int] == s[i as int],
        decreases n,
    {
        Entry::lemma_view_len(t, r, s, n);
        if n > 0 {
            let p = Entry::view_words(t, r, n);
            let q = Entry::view_words(t, s, n);
            let p1 = Entry::view_words(t, r, (n - 1) as nat);
            let q1 = Entry::view_words(t, s, (n - 1) as nat);
            Entry::lemma_view_len(t, r, s, (n - 1) as nat);
            if t.reads((n - 1) as nat) {
                let x = r[n - 1].words();
                let y = s[n - 1].words();
                assert(p1 =~= p.take(p1.len() as int));
                assert(q1 =~= q.take(q1.len() as int));
                assert(x =~= p.skip(p1.len() as int));
                assert(y =~= q.skip(q1.len() as int));
                Entry::lemma_words(r[n - 1], s[n - 1]);
            }
            Entry::lemma_view_agree(t, r, s, (n - 1) as nat);
        }
    }

    proof fn lemma_view_len(t: Term, r: Seq<Entry>, s: Seq<Entry>, n: nat)
        ensures
            Entry::view_words(t, r, n).len() == Entry::view_words(t, s, n).len(),
        decreases n,
    {
        if n > 0 {
            Entry::lemma_view_len(t, r, s, (n - 1) as nat);
        }
    }

    /// Reading the same entries gives the same view.
    pub proof fn lemma_view_ext(t: Term, r: Seq<Entry>, s: Seq<Entry>, n: nat)
        requires
            forall|i: nat| i < n && #[trigger] t.reads(i) ==> r[i as int] == s[i as int],
        ensures
            Entry::view_words(t, r, n) == Entry::view_words(t, s, n),
        decreases n,
    {
        if n > 0 {
            Entry::lemma_view_ext(t, r, s, (n - 1) as nat);
        }
    }
}

} // verus!
