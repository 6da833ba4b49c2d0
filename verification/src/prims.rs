//! What the names known to the kernel stand for.
use crate::term::{Lvl, Term};
use crate::theory::{NameCache, NatOp, Sig};
use vstd::prelude::*;

verus! {

impl NameCache {
    spec fn uses(o: Option<u32>, d: u32) -> nat {
        if o == Some(d) { 1 } else { 0 }
    }

    /// `d` is the name of at most one primitive on numbers.
    pub closed spec fn lone(self, d: u32) -> bool {
        NameCache::uses(self.nat_succ, d) + NameCache::uses(self.nat_add, d) + NameCache::uses(self.nat_sub, d)
            + NameCache::uses(self.nat_mul, d) + NameCache::uses(self.nat_pow, d) + NameCache::uses(self.nat_mod, d)
            + NameCache::uses(self.nat_div, d) + NameCache::uses(self.nat_beq, d) + NameCache::uses(self.nat_ble, d)
            + NameCache::uses(self.nat_gcd, d) + NameCache::uses(self.nat_land, d) + NameCache::uses(self.nat_lor, d)
            + NameCache::uses(self.nat_xor, d) + NameCache::uses(self.nat_shl, d) + NameCache::uses(self.nat_shr, d)
            <= 1
    }
}

impl Sig {
    /// The constant `d` applied to terms that reduce to the literals `x` and
    /// `y` reduces to `v`.
    pub open spec fn reduces_to(self, d: u32, x: nat, y: nat, v: Term) -> bool {
        forall|ls: Seq<Lvl>, a: Term, b: Term| self.red(a, Term::Nat(x)) && self.red(b, Term::Nat(y)) ==> self.red(
            #[trigger] Term::app(Term::app(Term::Const(d, ls), a), b),
            v,
        )
    }

    /// `d` at the literals `x` and `y` is computed, and is `v`.
    pub open spec fn computes(self, d: u32, x: nat, y: nat, v: Term) -> bool {
        self.reduces_to(d, x, y, v) && self.nat_answer(d, Term::Nat(x), Term::Nat(y)) == Some(v)
    }

    proof fn lemma_reduces(self, d: u32, op: NatOp, x: nat, y: nat, v: Term)
        requires
            self.names@.op_of(d) == Some(op),
            self.op_result(op, x, y) == Some(v),
        ensures
            self.reduces_to(d, x, y, v),
    {
        assert forall|ls: Seq<Lvl>, a: Term, b: Term| self.red(a, Term::Nat(x)) && self.red(
            b,
            Term::Nat(y),
        ) implies self.red(#[trigger] Term::app(Term::app(Term::Const(d, ls), a), b), v) by {
            Sig::r_natop(self, d, ls, op, a, b, x, y, v);
        }
    }
}

// ---- sums, differences and products ----

/// `Nat.add` adds.
pub proof fn law_nat_add(g: Sig, d: u32, x: nat, y: nat)
    requires
        g.names@.nat_add == Some(d),
        g.names@.lone(d),
    ensures
        g.computes(d, x, y, Term::Nat(x + y)),
{
    g.lemma_reduces(d, NatOp::Add, x, y, Term::Nat(x + y));
}

/// `Nat.sub` undoes `Nat.add`, and stops at zero.
pub proof fn law_nat_sub(g: Sig, d: u32, x: nat, y: nat)
    requires
        g.names@.nat_sub == Some(d),
        g.names@.lone(d),
    ensures
        g.computes(d, x + y, y, Term::Nat(x)),
        g.computes(d, x, x + y, Term::Nat(0)),
{
    g.lemma_reduces(d, NatOp::Sub, x + y, y, Term::Nat(x));
    g.lemma_reduces(d, NatOp::Sub, x, x + y, Term::Nat(0));
}

/// `Nat.mul` multiplies.
pub proof fn law_nat_mul(g: Sig, d: u32, x: nat, y: nat)
    requires
        g.names@.nat_mul == Some(d),
        g.names@.lone(d),
    ensures
        g.computes(d, x, y, Term::Nat(x * y)),
{
    g.lemma_reduces(d, NatOp::Mul, x, y, Term::Nat(x * y));
}

/// A power with exponent zero is one, and one more in the exponent is one more
/// factor; a literal exponent beyond the bound is left alone.
pub proof fn law_nat_pow(g: Sig, d: u32, x: nat, y: nat, p: nat)
    requires
        g.names@.nat_pow == Some(d),
        g.names@.lone(d),
    ensures
        g.computes(d, x, 0, Term::Nat(1)),
        g.computes(d, x, y, Term::Nat(p)) && y < 0x100_0000 ==> g.computes(d, x, y + 1, Term::Nat(x * p)),
        y > 0x100_0000 ==> g.nat_answer(d, Term::Nat(x), Term::Nat(y)) is None,
{
    reveal_with_fuel(NatOp::pow, 2);
    g.lemma_reduces(d, NatOp::Pow, x, 0, Term::Nat(1));
    if g.computes(d, x, y, Term::Nat(p)) {
        assert(((y + 1) - 1) as nat == y);
        g.lemma_reduces(d, NatOp::Pow, x, y + 1, Term::Nat(x * p));
    }
}

// ---- quotients and remainders ----

/// `Nat.div` gives the number of times that the divisor goes into the
/// dividend, and zero for the divisor zero.
pub proof fn law_nat_div(g: Sig, d: u32, x: nat, y: nat, q: nat)
    requires
        g.names@.nat_div == Some(d),
        g.names@.lone(d),
    ensures
        q * y <= x && x < (q + 1) * y ==> g.computes(d, x, y, Term::Nat(q)),
        g.computes(d, x, 0, Term::Nat(0)),
{
    g.lemma_reduces(d, NatOp::Div, x, 0, Term::Nat(0));
    if q * y <= x && x < (q + 1) * y {
        lemma_quotient(x, y, q);
        g.lemma_reduces(d, NatOp::Div, x, y, Term::Nat(q));
    }
}

/// `Nat.mod` gives what is left of the dividend when the divisor has been taken
/// out as often as it goes, and the dividend for the divisor zero.
pub proof fn law_nat_mod(g: Sig, d: u32, x: nat, y: nat, q: nat)
    requires
        g.names@.nat_mod == Some(d),
        g.names@.lone(d),
    ensures
        q * y <= x && x < (q + 1) * y ==> g.computes(d, x, y, Term::Nat((x - q * y) as nat)),
        g.computes(d, x, 0, Term::Nat(x)),
{
    g.lemma_reduces(d, NatOp::Mod, x, 0, Term::Nat(x));
    if q * y <= x && x < (q + 1) * y {
        lemma_quotient(x, y, q);
        g.lemma_reduces(d, NatOp::Mod, x, y, Term::Nat((x - q * y) as nat));
    }
}

proof fn lemma_quotient(x: nat, y: nat, q: nat)
    requires
        q * y <= x,
        x < (q + 1) * y,
    ensures
        y > 0,
        x / y == q,
        x % y == x - q * y,
{
    assert(y > 0) by (nonlinear_arith)
        requires
            q * y <= x,
            x < (q + 1) * y,
    ;
    let r: int = x - q * y;
    assert(0 <= r < y) by (nonlinear_arith)
        requires
            r == x - q * y,
            q * y <= x,
            x < (q + 1) * y,
    ;
    vstd::arithmetic::div_mod::lemma_fundamental_div_mod_converse(x as int, y as int, q as int, r);
}

// ---- comparisons ----

/// `Nat.beq` gives the constant for true at two equal numbers, and the one for
/// false at two others.
pub proof fn law_nat_beq(g: Sig, d: u32, x: nat, y: nat, t: u32, f: u32)
    requires
        g.names@.nat_beq == Some(d),
        g.names@.lone(d),
        g.names@.bool_true == Some(t),
        g.names@.bool_false == Some(f),
    ensures
        g.computes(d, x, x, Term::Const(t, Seq::empty())),
        x != y ==> g.computes(d, x, y, Term::Const(f, Seq::empty())),
{
    g.lemma_reduces(d, NatOp::Beq, x, x, Term::Const(t, Seq::empty()));
    if x != y {
        g.lemma_reduces(d, NatOp::Beq, x, y, Term::Const(f, Seq::empty()));
    }
}

/// `Nat.ble` gives the constant for true where the first number is not the
/// greater one, and the one for false where it is.
pub proof fn law_nat_ble(g: Sig, d: u32, x: nat, y: nat, t: u32, f: u32)
    requires
        g.names@.nat_ble == Some(d),
        g.names@.lone(d),
        g.names@.bool_true == Some(t),
        g.names@.bool_false == Some(f),
    ensures
        g.computes(d, x, x + y, Term::Const(t, Seq::empty())),
        g.computes(d, x + y + 1, x, Term::Const(f, Seq::empty())),
{
    g.lemma_reduces(d, NatOp::Ble, x, x + y, Term::Const(t, Seq::empty()));
    g.lemma_reduces(d, NatOp::Ble, x + y + 1, x, Term::Const(f, Seq::empty()));
}

// ---- the greatest common divisor ----

/// `a` goes into `n` without remainder.
pub open spec fn divides(a: nat, n: nat) -> bool {
    exists|k: nat| n == #[trigger] (a * k)
}

proof fn lemma_divides_sum(a: nat, m: nat, n: nat, q: nat)
    requires
        divides(a, m),
        divides(a, n),
    ensures
        divides(a, m * q + n),
        m * q <= n ==> divides(a, (n - m * q) as nat),
{
    let i: nat = choose|k: nat| m == #[trigger] (a * k);
    let j: nat = choose|k: nat| n == #[trigger] (a * k);
    assert(m * q + n == a * (i * q + j)) by (nonlinear_arith)
        requires
            m == a * i,
            n == a * j,
    ;
    if m * q <= n {
        if a == 0 {
            assert(n - m * q == a * 0) by (nonlinear_arith)
                requires
                    m == a * i,
                    n == a * j,
                    a == 0,
            ;
        } else {
            assert(i * q <= j) by (nonlinear_arith)
                requires
                    m == a * i,
                    n == a * j,
                    m * q <= n,
                    a > 0,
            ;
            let k = (j - i * q) as nat;
            assert(n - m * q == a * k) by (nonlinear_arith)
                requires
                    m == a * i,
                    n == a * j,
                    k == j - i * q,
            ;
        }
    }
}

proof fn lemma_gcd(x: nat, y: nat)
    ensures
        divides(NatOp::gcd(x, y), x),
        divides(NatOp::gcd(x, y), y),
        forall|c: nat| divides(c, x) && divides(c, y) ==> #[trigger] divides(c, NatOp::gcd(x, y)),
    decreases y,
{
    let r = NatOp::gcd(x, y);
    if y == 0 {
        assert(x == r * 1);
        assert(y == r * 0);
    } else {
        lemma_gcd(y, x % y);
        let q: nat = x / y;
        vstd::arithmetic::div_mod::lemma_fundamental_div_mod(x as int, y as int);
        assert(x == y * q + x % y);
        lemma_divides_sum(r, y, x % y, q);
        assert forall|c: nat| divides(c, x) && divides(c, y) implies #[trigger] divides(c, r) by {
            lemma_divides_sum(c, y, x, q);
            assert((x - y * q) as nat == x % y);
        }
    }
}

/// `Nat.gcd` gives a common divisor of its two numbers, into which every other
/// one goes.
pub proof fn law_nat_gcd(g: Sig, d: u32, x: nat, y: nat) -> (r: nat)
    requires
        g.names@.nat_gcd == Some(d),
        g.names@.lone(d),
    ensures
        g.computes(d, x, y, Term::Nat(r)),
        divides(r, x),
        divides(r, y),
        forall|c: nat| divides(c, x) && divides(c, y) ==> #[trigger] divides(c, r),
{
    lemma_gcd(x, y);
    g.lemma_reduces(d, NatOp::Gcd, x, y, Term::Nat(NatOp::gcd(x, y)));
    NatOp::gcd(x, y)
}

// ---- bits ----

/// The `i`-th binary digit of `n` is one.
pub open spec fn bit(n: nat, i: nat) -> bool
    decreases i,
{
    if i == 0 { n % 2 == 1 } else { bit(n / 2, (i - 1) as nat) }
}

proof fn lemma_bits(x: nat, y: nat, f: spec_fn(bool, bool) -> bool, i: nat)
    requires
        !f(false, false),
    ensures
        bit(NatOp::bits(x, y, f), i) == f(bit(x, i), bit(y, i)),
    decreases i,
{
    let r = NatOp::bits(x, y, f);
    let lo: nat = if f(x % 2 == 1, y % 2 == 1) { 1 } else { 0 };
    let hi = NatOp::bits(x / 2, y / 2, f);
    if x == 0 && y == 0 {
        reveal_with_fuel(NatOp::bits, 2);
        assert(r == 0 && hi == 0);
    } else {
        assert(r == lo + 2 * hi);
    }
    assert(r / 2 == hi);
    if i > 0 {
        lemma_bits(x / 2, y / 2, f, (i - 1) as nat);
    }
}

/// `Nat.land` has a digit one where both numbers have one.
pub proof fn law_nat_land(g: Sig, d: u32, x: nat, y: nat) -> (r: nat)
    requires
        g.names@.nat_land == Some(d),
        g.names@.lone(d),
    ensures
        g.computes(d, x, y, Term::Nat(r)),
        forall|i: nat| #[trigger] bit(r, i) == (bit(x, i) && bit(y, i)),
{
    let r = NatOp::land(x, y);
    assert forall|i: nat| #[trigger] bit(r, i) == (bit(x, i) && bit(y, i)) by {
        lemma_bits(x, y, |a: bool, b: bool| a && b, i);
    }
    g.lemma_reduces(d, NatOp::LAnd, x, y, Term::Nat(r));
    r
}

/// `Nat.lor` has a digit one where either number has one.
pub proof fn law_nat_lor(g: Sig, d: u32, x: nat, y: nat) -> (r: nat)
    requires
        g.names@.nat_lor == Some(d),
        g.names@.lone(d),
    ensures
        g.computes(d, x, y, Term::Nat(r)),
        forall|i: nat| #[trigger] bit(r, i) == (bit(x, i) || bit(y, i)),
{
    let r = NatOp::lor(x, y);
    assert forall|i: nat| #[trigger] bit(r, i) == (bit(x, i) || bit(y, i)) by {
        lemma_bits(x, y, |a: bool, b: bool| a || b, i);
    }
    g.lemma_reduces(d, NatOp::LOr, x, y, Term::Nat(r));
    r
}

/// `Nat.xor` has a digit one where just one of the numbers has one.
pub proof fn law_nat_xor(g: Sig, d: u32, x: nat, y: nat) -> (r: nat)
    requires
        g.names@.nat_xor == Some(d),
        g.names@.lone(d),
    ensures
        g.computes(d, x, y, Term::Nat(r)),
        forall|i: nat| #[trigger] bit(r, i) == (bit(x, i) != bit(y, i)),
{
    let r = NatOp::xor(x, y);
    assert forall|i: nat| #[trigger] bit(r, i) == (bit(x, i) != bit(y, i)) by {
        lemma_bits(x, y, |a: bool, b: bool| a != b, i);
    }
    g.lemma_reduces(d, NatOp::XOr, x, y, Term::Nat(r));
    r
}

/// A shift to the left by nothing changes nothing, and by one more doubles; a
/// literal beyond the bound is left alone.
pub proof fn law_nat_shl(g: Sig, d: u32, x: nat, y: nat, s: nat)
    requires
        g.names@.nat_shl == Some(d),
        g.names@.lone(d),
    ensures
        g.computes(d, x, 0, Term::Nat(x)),
        g.computes(d, x, y, Term::Nat(s)) && y < 0x100_0000 ==> g.computes(d, x, y + 1, Term::Nat(s + s)),
        y > 0x100_0000 ==> g.nat_answer(d, Term::Nat(x), Term::Nat(y)) is None,
{
    reveal_with_fuel(NatOp::pow, 2);
    assert(NatOp::pow(2, 0) == 1);
    assert(x * 1 == x);
    g.lemma_reduces(d, NatOp::Shl, x, 0, Term::Nat(x));
    if g.computes(d, x, y, Term::Nat(s)) {
        let p = NatOp::pow(2, y);
        assert(((y + 1) - 1) as nat == y);
        assert(NatOp::pow(2, y + 1) == 2 * p);
        assert(x * (2 * p) == x * p + x * p) by (nonlinear_arith);
        g.lemma_reduces(d, NatOp::Shl, x, y + 1, Term::Nat(s + s));
    }
}

proof fn lemma_pow_two(y: nat)
    ensures
        NatOp::pow(2, y) > 0,
    decreases y,
{
    if y > 0 {
        lemma_pow_two((y - 1) as nat);
    }
}

/// A shift to the right by nothing changes nothing, and by one more drops the
/// last digit.
pub proof fn law_nat_shr(g: Sig, d: u32, x: nat, y: nat, s: nat)
    requires
        g.names@.nat_shr == Some(d),
        g.names@.lone(d),
    ensures
        g.computes(d, x, 0, Term::Nat(x)),
        g.computes(d, x, y, Term::Nat(s + s)) ==> g.computes(d, x, y + 1, Term::Nat(s)),
        g.computes(d, x, y, Term::Nat(s + s + 1)) ==> g.computes(d, x, y + 1, Term::Nat(s)),
{
    reveal_with_fuel(NatOp::pow, 2);
    assert(NatOp::pow(2, 0) == 1);
    assert(x / 1 == x);
    g.lemma_reduces(d, NatOp::Shr, x, 0, Term::Nat(x));
    let p = NatOp::pow(2, y);
    lemma_pow_two(y);
    assert(((y + 1) - 1) as nat == y);
    assert(NatOp::pow(2, y + 1) == p * 2);
    vstd::arithmetic::div_mod::lemma_div_denominator(x as int, p as int, 2);
    if g.computes(d, x, y, Term::Nat(s + s)) || g.computes(d, x, y, Term::Nat(s + s + 1)) {
        g.lemma_reduces(d, NatOp::Shr, x, y + 1, Term::Nat(s));
    }
}

// ---- zero and successors ----

/// `Nat.zero` is the literal zero, and where literals are in use, the literal
/// is the constructor; both are natural numbers.
pub proof fn law_nat_zero(g: Sig, z: u32, n: u32, ls: Seq<Lvl>, k: bool)
    requires
        g.names@.nat_zero == Some(z),
        g.names@.nat == Some(n),
    ensures
        g.red(Term::Const(z, ls), Term::Nat(0)),
        g.nat_ext ==> g.red(Term::Nat(0), Term::Const(z, Seq::empty())),
        g.ty(k, Term::Nat(0), Term::Const(n, Seq::empty())),
{
    Sig::r_zero(g, z, ls);
    if g.nat_ext {
        Sig::r_lit_zero(g, z);
    }
    Sig::t_nat(g, k, 0, n);
}

/// The successor of a term that reduces to a literal reduces to the next
/// literal, which is that successor again.
pub proof fn law_nat_succ(g: Sig, s: u32, n: u32, ls: Seq<Lvl>, a: Term, x: nat, k: bool)
    requires
        g.names@.nat_succ == Some(s),
        g.names@.nat == Some(n),
        g.red(a, Term::Nat(x)),
    ensures
        g.red(Term::app(Term::Const(s, ls), a), Term::Nat(x + 1)),
        g.red(Term::Nat(x + 1), Term::app(Term::Const(s, Seq::empty()), Term::Nat(x))),
        g.ty(k, Term::Nat(x + 1), Term::Const(n, Seq::empty())),
{
    Sig::r_succ(g, s, ls, a, x);
    Sig::r_lit_succ(g, s, x);
    Sig::t_nat(g, k, x + 1, n);
}

// ---- quotient types ----

/// `Quot.lift` at a function and a class is the function at the class's
/// representative: with type, relation, target, function and proof before it.
pub proof fn law_quot_lift(g: Sig, n: u32, mk: u32, ls: Seq<Lvl>, mls: Seq<Lvl>, a: Term, r: Term, b: Term, f: Term,
    h: Term, q: Term, a2: Term, r2: Term, x: Term)
    requires
        g.names@.quot_lift == Some(n),
        g.names@.quot_mk == Some(mk),
        g.red(q, Term::apps(Term::Const(mk, mls), seq![a2, r2, x])),
    ensures
        g.red(Term::apps(Term::Const(n, ls), seq![a, r, b, f, h, q]), Term::app(f, x)),
{
    let args = seq![a, r, b, f, h, q];
    let margs = seq![a2, r2, x];
    Sig::r_quot(g, n, ls, args, mk, mls, margs);
    assert(args.skip(6) =~= Seq::empty());
    assert(Term::apps(Term::app(f, x), Seq::empty()) == Term::app(f, x));
}

/// `Quot.ind` at a proof for representatives and a class is the proof at the
/// class's representative: with type, relation and motive before them.
pub proof fn law_quot_ind(g: Sig, n: u32, mk: u32, ls: Seq<Lvl>, mls: Seq<Lvl>, a: Term, r: Term, b: Term, f: Term,
    q: Term, a2: Term, r2: Term, x: Term)
    requires
        g.names@.quot_ind == Some(n),
        g.names@.quot_lift != Some(n),
        g.names@.quot_mk == Some(mk),
        g.red(q, Term::apps(Term::Const(mk, mls), seq![a2, r2, x])),
    ensures
        g.red(Term::apps(Term::Const(n, ls), seq![a, r, b, f, q]), Term::app(f, x)),
{
    let args = seq![a, r, b, f, q];
    let margs = seq![a2, r2, x];
    Sig::r_quot(g, n, ls, args, mk, mls, margs);
    assert(args.skip(5) =~= Seq::empty());
    assert(Term::apps(Term::app(f, x), Seq::empty()) == Term::app(f, x));
}

// ---- strings ----

/// A string literal is a `String`; the empty one is `String.mk` of the empty
/// list of characters, and one character more in front is one `List.cons` more
/// in front of the list, of the character with that code.
pub proof fn law_string_literals(g: Sig, c: u32, s: Seq<u32>, l: Term, k: bool)
    requires
        g.str_ext,
        g.names@.string is Some,
        g.names@.string_mk is Some,
        g.names@.list_nil is Some,
        g.names@.list_cons is Some,
        g.names@.char_ty is Some,
        g.names@.char_of_nat is Some,
    ensures
        g.ty(k, Term::Str(s), Term::Const(g.names@.string->0, Seq::empty())),
        g.str_ctor(Seq::empty()) == Some(Term::app(Term::Const(g.names@.string_mk->0, Seq::empty()), Term::app(
            Term::Const(g.names@.list_nil->0, seq![Lvl::Zero]),
            Term::Const(g.names@.char_ty->0, Seq::empty()),
        ))),
        g.str_ctor(s) == Some(Term::app(Term::Const(g.names@.string_mk->0, Seq::empty()), l)) ==> g.str_ctor(
            seq![c] + s,
        ) == Some(Term::app(Term::Const(g.names@.string_mk->0, Seq::empty()), Term::app(
            Term::app(
                Term::app(
                    Term::Const(g.names@.list_cons->0, seq![Lvl::Zero]),
                    Term::Const(g.names@.char_ty->0, Seq::empty()),
                ),
                Term::app(Term::Const(g.names@.char_of_nat->0, Seq::empty()), Term::Nat(c as nat)),
            ),
            l,
        ))),
        g.str_ctor(s) is Some && g.red(Term::Str(s), g.str_ctor(s)->0),
{
    Sig::t_str(g, k, s, g.names@.string->0);
    lemma_shifted(g, s, seq![c] + s, 0);
    assert((seq![c] + s)[0] == c);
    Sig::r_str(g, s, g.str_ctor(s)->0);
}

proof fn lemma_shifted(g: Sig, s: Seq<u32>, t: Seq<u32>, i: int)
    requires
        t.len() == s.len() + 1,
        forall|j: int| 0 <= j < s.len() ==> #[trigger] t[j + 1] == s[j],
        0 <= i <= s.len(),
    ensures
        g.char_list(t, i + 1) == g.char_list(s, i),
    decreases s.len() - i,
{
    if i < s.len() {
        lemma_shifted(g, s, t, i + 1);
        assert(t[i + 1] == s[i]);
    }
}

} // verus!
