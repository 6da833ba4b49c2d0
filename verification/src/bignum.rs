//! Natural numbers of any size, kept as digits and computed with by
//! `num_bigint`.
use crate::theory::NatOp;
use num_bigint::BigUint;
use vstd::prelude::*;

verus! {

/// The base of the digits.
pub const BASE: u64 = 0x1_0000_0000;

/// A natural number: its base 2^32 digits, least significant first, without
/// leading zeros.
pub struct Nat {
    d: Vec<u32>,
}

impl Nat {
    /// The number `s` spells.
    pub open spec fn digits(s: Seq<u32>) -> nat
        decreases s.len(),
    {
        if s.len() == 0 {
            0
        } else {
            (s[0] + BASE * Nat::digits(s.skip(1))) as nat
        }
    }

    /// No leading zero.
    pub open spec fn canonical(s: Seq<u32>) -> bool {
        s.len() == 0 || s.last() != 0
    }

    /// A digit sequence without leading zeros spells a positive number.
    proof fn lemma_positive(s: Seq<u32>)
        requires
            Nat::canonical(s),
            s.len() > 0,
        ensures
            Nat::digits(s) > 0,
        decreases s.len(),
    {
        if s.len() > 1 {
            assert(s.skip(1).last() == s.last());
            Nat::lemma_positive(s.skip(1));
        }
    }

    /// A number has one canonical spelling.
    pub proof fn lemma_unique(a: Seq<u32>, b: Seq<u32>)
        requires
            Nat::canonical(a),
            Nat::canonical(b),
            Nat::digits(a) == Nat::digits(b),
        ensures
            a == b,
        decreases a.len(),
    {
        if a.len() == 0 {
            if b.len() > 0 {
                Nat::lemma_positive(b);
            }
            assert(a =~= b);
        } else if b.len() == 0 {
            Nat::lemma_positive(a);
        } else {
            let x = Nat::digits(a.skip(1));
            let y = Nat::digits(b.skip(1));
            assert(a[0] == b[0] && x == y);
            if a.len() > 1 {
                assert(a.skip(1).last() == a.last());
            }
            if b.len() > 1 {
                assert(b.skip(1).last() == b.last());
            }
            Nat::lemma_unique(a.skip(1), b.skip(1));
            assert forall|i: int| 0 <= i < a.len() implies a[i] == b[i] by {
                if i > 0 {
                    assert(a.skip(1)[i - 1] == b.skip(1)[i - 1]);
                }
            }
            assert(a =~= b);
        }
    }

    /// The digits bound the number from above.
    proof fn lemma_bound(s: Seq<u32>)
        ensures
            Nat::digits(s) < NatOp::pow(2, 32 * s.len()),
        decreases s.len(),
    {
        if s.len() > 0 {
            Nat::lemma_bound(s.skip(1));
            Nat::lemma_pow_add(32, (32 * (s.len() - 1)) as nat);
            assert(NatOp::pow(2, 32) == BASE) by {
                reveal_with_fuel(NatOp::pow, 33);
            }
            let x = Nat::digits(s.skip(1));
            let p = NatOp::pow(2, (32 * (s.len() - 1)) as nat);
            assert(BASE * x + BASE <= BASE * p) by (nonlinear_arith)
                requires
                    x + 1 <= p,
                    BASE > 0,
            ;
            assert(32 + 32 * (s.len() - 1) == 32 * s.len());
        } else {
            assert(NatOp::pow(2, 0) == 1);
        }
    }

    proof fn lemma_pow_add(a: nat, b: nat)
        ensures
            NatOp::pow(2, a + b) == NatOp::pow(2, a) * NatOp::pow(2, b),
            NatOp::pow(2, a) > 0,
        decreases a,
    {
        if a == 0 {
            assert(NatOp::pow(2, 0) == 1);
        } else {
            Nat::lemma_pow_add((a - 1) as nat, b);
            assert(NatOp::pow(2, a + b) == 2 * NatOp::pow(2, (a - 1 + b) as nat));
            assert(2 * (NatOp::pow(2, (a - 1) as nat) * NatOp::pow(2, b)) == (2 * NatOp::pow(
                2,
                (a - 1) as nat,
            )) * NatOp::pow(2, b)) by (nonlinear_arith);
        }
    }

    /// The number.
    pub closed spec fn view(&self) -> nat {
        Nat::digits(self.d@)
    }

    /// Its digits carry no leading zero.
    pub closed spec fn wf(&self) -> bool {
        Nat::canonical(self.d@)
    }

    pub fn from_u32(n: u32) -> (r: Nat)
        ensures
            r.wf(),
            r@ == n,
    {
        reveal_with_fuel(Nat::digits, 2);
        if n == 0 {
            Nat { d: Vec::new() }
        } else {
            let mut d: Vec<u32> = Vec::new();
            d.push(n);
            Nat { d }
        }
    }

    pub fn from_u64(n: u64) -> (r: Nat)
        ensures
            r.wf(),
            r@ == n,
    {
        reveal_with_fuel(Nat::digits, 3);
        let lo: u32 = (n % BASE) as u32;
        let hi: u32 = (n / BASE) as u32;
        if hi == 0 {
            return Nat::from_u32(lo);
        }
        let mut d: Vec<u32> = Vec::new();
        d.push(lo);
        d.push(hi);
        proof {
            assert(d@.skip(1).skip(1) =~= Seq::empty());
            assert(d@.skip(1)[0] == hi);
            assert(n == lo + BASE * hi);
        }
        Nat { d }
    }

    /// The number of base 2^32 digits.
    pub fn words(&self) -> (r: Vec<u64>)
        ensures
            Nat::of_words(r@) == self@,
            self.wf() ==> Nat::words_ok(r@),
    {
        let mut r: Vec<u64> = Vec::new();
        let mut i: usize = 0;
        while i < self.d.len()
            invariant
                i <= self.d.len(),
                r.len() == i,
                forall|j: int| 0 <= j < i ==> r@[j] == self.d@[j],
            decreases self.d.len() - i,
        {
            r.push(self.d[i] as u64);
            i += 1;
        }
        proof {
            assert(Nat::narrow(r@) =~= self.d@);
        }
        r
    }

    /// The digits held in a slice of words.
    pub open spec fn narrow(w: Seq<u64>) -> Seq<u32> {
        Seq::new(w.len(), |i: int| w[i] as u32)
    }

    /// The words are digits without a leading zero.
    pub open spec fn words_ok(w: Seq<u64>) -> bool {
        Nat::canonical(Nat::narrow(w)) && forall|i: int| 0 <= i < w.len() ==> #[trigger] w[i] < BASE
    }

    /// The number a slice of words spells.
    pub open spec fn of_words(w: Seq<u64>) -> nat {
        Nat::digits(Nat::narrow(w))
    }

    /// Canonical words are determined by the number.
    pub proof fn lemma_words_unique(a: Seq<u64>, b: Seq<u64>)
        requires
            Nat::words_ok(a),
            Nat::words_ok(b),
            Nat::of_words(a) == Nat::of_words(b),
        ensures
            a == b,
    {
        Nat::lemma_unique(Nat::narrow(a), Nat::narrow(b));
        assert forall|i: int| 0 <= i < a.len() implies a[i] == b[i] by {
            assert(Nat::narrow(a)[i] == Nat::narrow(b)[i]);
        }
        assert(Nat::narrow(a).len() == Nat::narrow(b).len());
        assert(a =~= b);
    }

    /// The number spelled by canonical words.
    pub fn from_words(w: &Vec<u64>) -> (r: Nat)
        requires
            Nat::words_ok(w@),
        ensures
            r.wf(),
            r@ == Nat::of_words(w@),
    {
        let mut d: Vec<u32> = Vec::new();
        let mut i: usize = 0;
        while i < w.len()
            invariant
                i <= w.len(),
                d.len() == i,
                Nat::words_ok(w@),
                forall|j: int| 0 <= j < i ==> d@[j] == w@[j] as u32,
            decreases w.len() - i,
        {
            d.push(w[i] as u32);
            i += 1;
        }
        proof {
            assert(Nat::narrow(w@) =~= d@);
        }
        Nat { d }
    }

    pub fn is_zero(&self) -> (r: bool)
        requires
            self.wf(),
        ensures
            r == (self@ == 0),
    {
        proof {
            if self.d@.len() > 0 {
                Nat::lemma_positive(self.d@);
            }
        }
        self.d.len() == 0
    }

    /// The number as a word, where it fits one.
    pub fn to_u64(&self) -> (r: Option<u64>)
        requires
            self.wf(),
        ensures
            match r {
                Some(n) => n == self@,
                None => self@ >= 0x1_0000_0000_0000_0000,
            },
    {
        reveal_with_fuel(Nat::digits, 3);
        let n: usize = self.d.len();
        if n == 0 {
            Some(0)
        } else if n == 1 {
            assert(self.d@.skip(1) =~= Seq::empty());
            Some(self.d[0] as u64)
        } else if n == 2 {
            assert(self.d@.skip(1).skip(1) =~= Seq::empty());
            assert(self.d@.skip(1)[0] == self.d@[1]);
            Some(self.d[0] as u64 + BASE * (self.d[1] as u64))
        } else {
            proof {
                let s2 = self.d@.skip(1).skip(1);
                assert(s2.len() > 0);
                assert(s2.last() == self.d@.last());
                Nat::lemma_positive(s2);
                let x = Nat::digits(s2);
                assert(self@ >= BASE * (BASE * x));
            }
            None
        }
    }

    pub fn copy(&self) -> (r: Nat)
        ensures
            r@ == self@,
            self.wf() ==> r.wf(),
    {
        let mut d: Vec<u32> = Vec::new();
        let mut i: usize = 0;
        while i < self.d.len()
            invariant
                i <= self.d.len(),
                d.len() == i,
                forall|j: int| 0 <= j < i ==> d@[j] == self.d@[j],
            decreases self.d.len() - i,
        {
            d.push(self.d[i]);
            i += 1;
        }
        assert(d@ =~= self.d@);
        Nat { d }
    }

    pub fn same(&self, o: &Nat) -> (r: bool)
        requires
            self.wf(),
            o.wf(),
        ensures
            r == (self@ == o@),
    {
        if self.d.len() != o.d.len() {
            proof {
                if self@ == o@ {
                    Nat::lemma_unique(self.d@, o.d@);
                }
            }
            return false;
        }
        let mut i: usize = 0;
        while i < self.d.len()
            invariant
                self.wf(),
                o.wf(),
                i <= self.d.len(),
                self.d.len() == o.d.len(),
                forall|j: int| 0 <= j < i ==> self.d@[j] == o.d@[j],
            decreases self.d.len() - i,
        {
            if self.d[i] != o.d[i] {
                proof {
                    if self@ == o@ {
                        Nat::lemma_unique(self.d@, o.d@);
                    }
                }
                return false;
            }
            i += 1;
        }
        assert(self.d@ =~= o.d@);
        true
    }

    pub fn plus(&self, o: &Nat) -> (r: Nat)
        ensures
            r.wf(),
            r@ == self@ + o@,
    {
        Nat { d: big_add(&self.d, &o.d) }
    }

    /// Subtraction that stops at zero.
    pub fn minus(&self, o: &Nat) -> (r: Nat)
        ensures
            r.wf(),
            r@ == NatOp::Sub.compute(self@, o@),
    {
        if big_le(&o.d, &self.d) {
            Nat { d: big_sub(&self.d, &o.d) }
        } else {
            Nat::from_u32(0)
        }
    }

    pub fn times(&self, o: &Nat) -> (r: Nat)
        ensures
            r.wf(),
            r@ == self@ * o@,
    {
        Nat { d: big_mul(&self.d, &o.d) }
    }

    pub fn le(&self, o: &Nat) -> (r: bool)
        ensures
            r == (self@ <= o@),
    {
        big_le(&self.d, &o.d)
    }

    /// Division; zero when the divisor is.
    pub fn quotient(&self, o: &Nat) -> (r: Nat)
        requires
            o.wf(),
        ensures
            r.wf(),
            r@ == NatOp::Div.compute(self@, o@),
    {
        if o.is_zero() {
            Nat::from_u32(0)
        } else {
            Nat { d: big_div(&self.d, &o.d) }
        }
    }

    /// Remainder; the dividend when the divisor is zero.
    pub fn remainder(&self, o: &Nat) -> (r: Nat)
        requires
            self.wf(),
            o.wf(),
        ensures
            r.wf(),
            r@ == NatOp::Mod.compute(self@, o@),
    {
        if o.is_zero() {
            self.copy()
        } else {
            Nat { d: big_rem(&self.d, &o.d) }
        }
    }

    /// Euclid's algorithm.
    pub fn gcd(&self, o: &Nat) -> (r: Nat)
        requires
            self.wf(),
            o.wf(),
        ensures
            r.wf(),
            r@ == NatOp::gcd(self@, o@),
    {
        let mut a: Nat = self.copy();
        let mut b: Nat = o.copy();
        while !b.is_zero()
            invariant
                a.wf(),
                b.wf(),
                NatOp::gcd(a@, b@) == NatOp::gcd(self@, o@),
            decreases b@,
        {
            let c: Nat = a.remainder(&b);
            a = b;
            b = c;
        }
        a
    }

    pub fn power(&self, e: u32) -> (r: Nat)
        ensures
            r.wf(),
            r@ == NatOp::pow(self@, e as nat),
    {
        Nat { d: big_pow(&self.d, e) }
    }

    pub fn land(&self, o: &Nat) -> (r: Nat)
        ensures
            r.wf(),
            r@ == NatOp::land(self@, o@),
    {
        Nat { d: big_and(&self.d, &o.d) }
    }

    pub fn lor(&self, o: &Nat) -> (r: Nat)
        ensures
            r.wf(),
            r@ == NatOp::lor(self@, o@),
    {
        Nat { d: big_or(&self.d, &o.d) }
    }

    pub fn xor(&self, o: &Nat) -> (r: Nat)
        ensures
            r.wf(),
            r@ == NatOp::xor(self@, o@),
    {
        Nat { d: big_xor(&self.d, &o.d) }
    }

    pub fn shl(&self, n: u32) -> (r: Nat)
        ensures
            r.wf(),
            r@ == NatOp::Shl.compute(self@, n as nat),
    {
        Nat { d: big_shl(&self.d, n) }
    }

    proof fn lemma_pow_mono(a: nat, b: nat)
        requires
            a <= b,
        ensures
            0 < NatOp::pow(2, a) <= NatOp::pow(2, b),
        decreases b,
    {
        Nat::lemma_pow_add(a, 0);
        if a < b {
            Nat::lemma_pow_mono(a, (b - 1) as nat);
        }
    }

    /// Right shift; `None` when both the number and the distance are past
    /// what memory can hold.
    pub fn shr(&self, o: &Nat) -> (r: Option<Nat>)
        requires
            o.wf(),
        ensures
            match r {
                Some(n) => n.wf() && n@ == NatOp::Shr.compute(self@, o@),
                None => o@ >= 0x1_0000_0000_0000_0000,
            },
    {
        match o.to_u64() {
            Some(n) => Some(Nat { d: big_shr(&self.d, n) }),
            None => {
                if (self.d.len() as u64) >= 0x0400_0000_0000_0000 {
                    return None;
                }
                proof {
                    Nat::lemma_bound(self.d@);
                    Nat::lemma_pow_mono(32 * self.d@.len(), o@);
                    let x = self@;
                    let p = NatOp::pow(2, o@);
                    assert(x / p == 0) by (nonlinear_arith)
                        requires
                            0 <= x < p,
                    ;
                }
                Some(Nat::from_u32(0))
            },
        }
    }
}

/// `BigUint + BigUint`: the sum.  The digits taken and returned are
/// those of `BigUint::from_slice` and `BigUint::to_u32_digits`, least
/// significant first; the latter writes no leading zero.
#[verifier::external_body]
fn big_add(x: &Vec<u32>, y: &Vec<u32>) -> (r: Vec<u32>)
    ensures
        Nat::digits(r@) == Nat::digits(x@) + Nat::digits(y@),
        Nat::canonical(r@),
{
    (BigUint::from_slice(x) + BigUint::from_slice(y)).to_u32_digits()
}

/// `BigUint - BigUint`: the difference of numbers whose difference is natural.  The digits taken and returned are
/// those of `BigUint::from_slice` and `BigUint::to_u32_digits`, least
/// significant first; the latter writes no leading zero.
#[verifier::external_body]
fn big_sub(x: &Vec<u32>, y: &Vec<u32>) -> (r: Vec<u32>)
    requires
        Nat::digits(y@) <= Nat::digits(x@),
    ensures
        Nat::digits(r@) == Nat::digits(x@) - Nat::digits(y@),
        Nat::canonical(r@),
{
    (BigUint::from_slice(x) - BigUint::from_slice(y)).to_u32_digits()
}

/// `BigUint * BigUint`: the product.  The digits taken and returned are
/// those of `BigUint::from_slice` and `BigUint::to_u32_digits`, least
/// significant first; the latter writes no leading zero.
#[verifier::external_body]
fn big_mul(x: &Vec<u32>, y: &Vec<u32>) -> (r: Vec<u32>)
    ensures
        Nat::digits(r@) == Nat::digits(x@) * Nat::digits(y@),
        Nat::canonical(r@),
{
    (BigUint::from_slice(x) * BigUint::from_slice(y)).to_u32_digits()
}

/// `BigUint / BigUint`: the quotient by a positive number.  The digits taken and returned are
/// those of `BigUint::from_slice` and `BigUint::to_u32_digits`, least
/// significant first; the latter writes no leading zero.
#[verifier::external_body]
fn big_div(x: &Vec<u32>, y: &Vec<u32>) -> (r: Vec<u32>)
    requires
        Nat::digits(y@) > 0,
    ensures
        Nat::digits(r@) == Nat::digits(x@) / Nat::digits(y@),
        Nat::canonical(r@),
{
    (BigUint::from_slice(x) / BigUint::from_slice(y)).to_u32_digits()
}

/// `BigUint % BigUint`: the remainder by a positive number.  The digits taken and returned are
/// those of `BigUint::from_slice` and `BigUint::to_u32_digits`, least
/// significant first; the latter writes no leading zero.
#[verifier::external_body]
fn big_rem(x: &Vec<u32>, y: &Vec<u32>) -> (r: Vec<u32>)
    requires
        Nat::digits(y@) > 0,
    ensures
        Nat::digits(r@) == Nat::digits(x@) % Nat::digits(y@),
        Nat::canonical(r@),
{
    (BigUint::from_slice(x) % BigUint::from_slice(y)).to_u32_digits()
}

/// `BigUint & BigUint`: the bitwise and.  The digits taken and returned are
/// those of `BigUint::from_slice` and `BigUint::to_u32_digits`, least
/// significant first; the latter writes no leading zero.
#[verifier::external_body]
fn big_and(x: &Vec<u32>, y: &Vec<u32>) -> (r: Vec<u32>)
    ensures
        Nat::digits(r@) == NatOp::land(Nat::digits(x@), Nat::digits(y@)),
        Nat::canonical(r@),
{
    (BigUint::from_slice(x) & BigUint::from_slice(y)).to_u32_digits()
}

/// `BigUint | BigUint`: the bitwise or.  The digits taken and returned are
/// those of `BigUint::from_slice` and `BigUint::to_u32_digits`, least
/// significant first; the latter writes no leading zero.
#[verifier::external_body]
fn big_or(x: &Vec<u32>, y: &Vec<u32>) -> (r: Vec<u32>)
    ensures
        Nat::digits(r@) == NatOp::lor(Nat::digits(x@), Nat::digits(y@)),
        Nat::canonical(r@),
{
    (BigUint::from_slice(x) | BigUint::from_slice(y)).to_u32_digits()
}

/// `BigUint ^ BigUint`: the bitwise exclusive or.  The digits taken and returned are
/// those of `BigUint::from_slice` and `BigUint::to_u32_digits`, least
/// significant first; the latter writes no leading zero.
#[verifier::external_body]
fn big_xor(x: &Vec<u32>, y: &Vec<u32>) -> (r: Vec<u32>)
    ensures
        Nat::digits(r@) == NatOp::xor(Nat::digits(x@), Nat::digits(y@)),
        Nat::canonical(r@),
{
    (BigUint::from_slice(x) ^ BigUint::from_slice(y)).to_u32_digits()
}

/// `BigUint <= BigUint`: the order of the numbers two digit sequences spell.
#[verifier::external_body]
fn big_le(x: &Vec<u32>, y: &Vec<u32>) -> (r: bool)
    ensures
        r == (Nat::digits(x@) <= Nat::digits(y@)),
{
    BigUint::from_slice(x) <= BigUint::from_slice(y)
}

/// `BigUint::pow`: the power.
#[verifier::external_body]
fn big_pow(x: &Vec<u32>, e: u32) -> (r: Vec<u32>)
    ensures
        Nat::digits(r@) == NatOp::pow(Nat::digits(x@), e as nat),
        Nat::canonical(r@),
{
    BigUint::from_slice(x).pow(e).to_u32_digits()
}

/// `BigUint << u32`: the number times a power of two.
#[verifier::external_body]
fn big_shl(x: &Vec<u32>, n: u32) -> (r: Vec<u32>)
    ensures
        Nat::digits(r@) == Nat::digits(x@) * NatOp::pow(2, n as nat),
        Nat::canonical(r@),
{
    (BigUint::from_slice(x) << n).to_u32_digits()
}

/// `BigUint >> u64`: the number divided by a power of two.
#[verifier::external_body]
fn big_shr(x: &Vec<u32>, n: u64) -> (r: Vec<u32>)
    ensures
        Nat::digits(r@) == Nat::digits(x@) / NatOp::pow(2, n as nat),
        Nat::canonical(r@),
{
    (BigUint::from_slice(x) >> n).to_u32_digits()
}

} // verus!
