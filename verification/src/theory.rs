//! The theory the checker decides: reduction, definitional equality, typing
//! and universes of terms over a signature of declarations.
//!
//! The four judgements are the least relations closed under the rules of
//! [`Rel`].  Reduction is reflexive, transitive and a congruence.  Equality is
//! the algorithmic judgement, to be read of two terms of one type: it is
//! symmetric and a congruence, and either side may be reduced first.
use crate::term::{BinderStyle, FVarId, Lvl, Term};
use vstd::prelude::*;

verus! {

/// The names with a meaning of their own, where the signature declares them.
#[derive(Clone, Copy, Default)]
pub struct NameCache {
    pub quot: Option<u32>,
    pub quot_mk: Option<u32>,
    pub quot_lift: Option<u32>,
    pub quot_ind: Option<u32>,
    pub nat: Option<u32>,
    pub nat_zero: Option<u32>,
    pub nat_succ: Option<u32>,
    pub nat_add: Option<u32>,
    pub nat_sub: Option<u32>,
    pub nat_mul: Option<u32>,
    pub nat_pow: Option<u32>,
    pub nat_mod: Option<u32>,
    pub nat_div: Option<u32>,
    pub nat_beq: Option<u32>,
    pub nat_ble: Option<u32>,
    pub nat_gcd: Option<u32>,
    pub nat_land: Option<u32>,
    pub nat_lor: Option<u32>,
    pub nat_xor: Option<u32>,
    pub nat_shl: Option<u32>,
    pub nat_shr: Option<u32>,
    pub bool_true: Option<u32>,
    pub bool_false: Option<u32>,
    pub string: Option<u32>,
    pub string_mk: Option<u32>,
    pub string_of_list: Option<u32>,
    pub list_nil: Option<u32>,
    pub list_cons: Option<u32>,
    pub char_ty: Option<u32>,
    pub char_of_nat: Option<u32>,
    pub reduce_bool: Option<u32>,
    pub reduce_nat: Option<u32>,
    pub eager_reduce: Option<u32>,
}

/// The binary primitives on natural numbers.
#[derive(Clone, Copy, PartialEq, Eq, Structural, Debug)]
pub enum NatOp {
    Add,
    Sub,
    Mul,
    Pow,
    Gcd,
    Mod,
    Div,
    Beq,
    Ble,
    LAnd,
    LOr,
    XOr,
    Shl,
    Shr,
}

/// The names of a check, held as one.
#[derive(Clone, Copy)]
pub struct Names {
    c: NameCache,
}

impl Names {
    pub closed spec fn view(&self) -> NameCache {
        self.c
    }

    /// The names of `c`.
    pub closed spec fn of(c: NameCache) -> Names {
        Names { c }
    }

    pub fn new(c: NameCache) -> (r: Names)
        ensures
            r@ == c,
            r == Names::of(c),
    {
        Names { c }
    }

    pub fn get(&self) -> (r: &NameCache)
        ensures
            *r == self@,
    {
        &self.c
    }
}

impl NameCache {
    /// The primitive a name stands for.
    pub open spec fn op_of(self, n: u32) -> Option<NatOp> {
        if self.nat_add == Some(n) {
            Some(NatOp::Add)
        } else if self.nat_sub == Some(n) {
            Some(NatOp::Sub)
        } else if self.nat_mul == Some(n) {
            Some(NatOp::Mul)
        } else if self.nat_pow == Some(n) {
            Some(NatOp::Pow)
        } else if self.nat_mod == Some(n) {
            Some(NatOp::Mod)
        } else if self.nat_div == Some(n) {
            Some(NatOp::Div)
        } else if self.nat_beq == Some(n) {
            Some(NatOp::Beq)
        } else if self.nat_ble == Some(n) {
            Some(NatOp::Ble)
        } else if self.nat_land == Some(n) {
            Some(NatOp::LAnd)
        } else if self.nat_lor == Some(n) {
            Some(NatOp::LOr)
        } else if self.nat_xor == Some(n) {
            Some(NatOp::XOr)
        } else if self.nat_gcd == Some(n) {
            Some(NatOp::Gcd)
        } else if self.nat_shl == Some(n) {
            Some(NatOp::Shl)
        } else if self.nat_shr == Some(n) {
            Some(NatOp::Shr)
        } else {
            None
        }
    }

    /// `n` is `Nat.succ` or a binary primitive.
    pub open spec fn is_prim(self, n: u32) -> bool {
        self.nat_succ == Some(n) || self.op_of(n) is Some
    }
}

impl NatOp {
    pub open spec fn pow(x: nat, y: nat) -> nat
        decreases y,
    {
        if y == 0 { 1 } else { x * NatOp::pow(x, (y - 1) as nat) }
    }

    pub open spec fn gcd(x: nat, y: nat) -> nat
        decreases y,
    {
        if y == 0 { x } else { NatOp::gcd(y, x % y) }
    }

    /// Bitwise combination of two numbers, least significant bit first.
    pub open spec fn bits(x: nat, y: nat, f: spec_fn(bool, bool) -> bool) -> nat
        decreases x + y,
    {
        if x == 0 && y == 0 {
            0
        } else {
            (if f(x % 2 == 1, y % 2 == 1) { 1nat } else { 0 }) + 2 * NatOp::bits(x / 2, y / 2, f)
        }
    }

    pub open spec fn land(x: nat, y: nat) -> nat {
        NatOp::bits(x, y, |a: bool, b: bool| a && b)
    }

    pub open spec fn lor(x: nat, y: nat) -> nat {
        NatOp::bits(x, y, |a: bool, b: bool| a || b)
    }

    pub open spec fn xor(x: nat, y: nat) -> nat {
        NatOp::bits(x, y, |a: bool, b: bool| a != b)
    }

    /// The number a numeric primitive computes; subtraction stops at zero and
    /// dividing by zero gives zero, as does the remainder its dividend.
    pub open spec fn compute(self, x: nat, y: nat) -> nat {
        match self {
            NatOp::Add => x + y,
            NatOp::Sub => if x >= y { (x - y) as nat } else { 0 },
            NatOp::Mul => x * y,
            NatOp::Pow => NatOp::pow(x, y),
            NatOp::Gcd => NatOp::gcd(x, y),
            NatOp::Mod => if y == 0 { x } else { x % y },
            NatOp::Div => if y == 0 { 0 } else { x / y },
            NatOp::LAnd => NatOp::land(x, y),
            NatOp::LOr => NatOp::lor(x, y),
            NatOp::XOr => NatOp::xor(x, y),
            NatOp::Shl => x * NatOp::pow(2, y),
            NatOp::Shr => x / NatOp::pow(2, y),
            NatOp::Beq => 0,
            NatOp::Ble => 0,
        }
    }
}

/// One elimination of a spine.
pub enum ElimT {
    App(Term),
    Proj(u32, nat),
}

impl ElimT {
    /// `f` under one elimination.
    pub open spec fn apply(self, f: Term) -> Term {
        match self {
            ElimT::App(a) => Term::app(f, a),
            ElimT::Proj(n, i) => Term::proj(n, i, f),
        }
    }

    /// `f` under a spine of eliminations, the last one outermost.
    pub open spec fn spine(f: Term, es: Seq<ElimT>) -> Term
        decreases es.len(),
    {
        if es.len() == 0 { f } else { es.last().apply(ElimT::spine(f, es.drop_last())) }
    }

    /// The spine of applications to `args`.
    pub open spec fn of_args(args: Seq<Term>) -> Seq<ElimT> {
        Seq::new(args.len(), |i: int| ElimT::App(args[i]))
    }

    pub proof fn lemma_spine_push(f: Term, es: Seq<ElimT>, e: ElimT)
        ensures
            ElimT::spine(f, es.push(e)) == e.apply(ElimT::spine(f, es)),
    {
        assert(es.push(e).drop_last() =~= es);
    }

    pub proof fn lemma_spine_args(f: Term, args: Seq<Term>)
        ensures
            ElimT::spine(f, ElimT::of_args(args)) == Term::apps(f, args),
        decreases args.len(),
    {
        if args.len() > 0 {
            ElimT::lemma_spine_args(f, args.drop_last());
            assert(ElimT::of_args(args).drop_last() =~= ElimT::of_args(args.drop_last()));
        }
    }
}

impl Term {
    pub open spec fn lam(n: u32, s: BinderStyle, a: Term, b: Term) -> Term {
        Term::Lam(n, s, Box::new(a), Box::new(b))
    }

    pub open spec fn pi(n: u32, s: BinderStyle, a: Term, b: Term) -> Term {
        Term::Pi(n, s, Box::new(a), Box::new(b))
    }

    pub open spec fn let_in(n: u32, d: bool, a: Term, v: Term, b: Term) -> Term {
        Term::Let(n, d, Box::new(a), Box::new(v), Box::new(b))
    }

    pub open spec fn proj(n: u32, i: nat, s: Term) -> Term {
        Term::Proj(n, i, Box::new(s))
    }

    pub open spec fn local(i: FVarId, n: u32, s: BinderStyle, a: Term) -> Term {
        Term::Local(i, n, s, Box::new(a))
    }

    pub open spec fn bv(d: nat, a: Term) -> Term {
        Term::BV(d, Box::new(a))
    }

    /// The first `n` projections of `m`, a value of the structure `i`.
    pub open spec fn projs(i: u32, m: Term, n: nat) -> Seq<Term> {
        Seq::new(n, |j: int| Term::proj(i, j as nat, m))
    }

    /// A free variable of level `l`.
    pub open spec fn is_level(self, l: u32) -> bool {
        self matches Term::Local(FVarId::DbjLevel(m), _, _, _) && m == l
    }

    /// A free variable of level `l` and type `a`.
    pub open spec fn is_level_of(self, l: u32, a: Term) -> bool {
        self matches Term::Local(FVarId::DbjLevel(m), _, _, b) && m == l && *b == a
    }

    /// A free variable of type `a`.
    pub open spec fn is_var_of(self, a: Term) -> bool {
        self matches Term::Local(_, _, _, b) && *b == a
    }
}

/// One computation rule of a recursor.
pub struct GRule {
    pub ctor: u32,
    pub nfields: nat,
    pub val: Term,
}

/// A recursor.
pub struct GRec {
    pub num_params: nat,
    pub num_motives: nat,
    pub num_minors: nat,
    pub num_indices: nat,
    pub rules: Seq<GRule>,
    pub k: bool,
    pub all: Seq<u32>,
    /// The inductive type of its major premise, where its type shows one.
    pub major_ind: Option<u32>,
}

impl GRec {
    /// The position of the major premise.
    pub open spec fn major(self) -> nat {
        self.num_params + self.num_motives + self.num_minors + self.num_indices
    }

    /// The number of arguments a rule takes before the constructor's fields.
    pub open spec fn prefix(self) -> nat {
        self.num_params + self.num_motives + self.num_minors
    }
}

/// A constructor.
pub struct GCtor {
    pub ind: u32,
    pub num_params: nat,
    pub num_fields: nat,
}

/// An inductive type.
pub struct GInd {
    pub num_params: nat,
    pub num_indices: nat,
    pub ctors: Seq<u32>,
    pub recursive: bool,
}

pub enum GKind {
    Axiom,
    Quot,
    Def,
    Thm,
    Opaque,
    Ind(GInd),
    Ctor(GCtor),
    Rec(GRec),
}

/// A declaration.
pub struct GDecl {
    pub uparams: Seq<Lvl>,
    pub ty: Term,
    /// The value conversion may unfold it to.
    pub val: Option<Term>,
    pub kind: GKind,
}

/// What a check is made against: the declarations, the names with a meaning,
/// the literal extensions, and the level parameters in scope.
pub struct Sig {
    pub decls: Map<u32, GDecl>,
    pub names: Names,
    pub nat_ext: bool,
    pub str_ext: bool,
    pub uparams: Option<Seq<Lvl>>,
}

impl Lvl {
    /// Every parameter of the level is among `ps`.
    pub open spec fn params_in(self, ps: Seq<Lvl>) -> bool
        decreases self,
    {
        match self {
            Lvl::Zero => true,
            Lvl::Succ(a) => a.params_in(ps),
            Lvl::Max(a, b) => a.params_in(ps) && b.params_in(ps),
            Lvl::IMax(a, b) => a.params_in(ps) && b.params_in(ps),
            Lvl::Param(_) => ps.contains(self),
        }
    }
}

impl Sig {
    pub open spec fn has_val(self, n: u32) -> bool {
        self.decls.contains_key(n) && self.decls[n].val is Some
    }

    /// What the constant `n` unfolds to at the levels `ls`.
    pub open spec fn body_of(self, n: u32, ls: Seq<Lvl>) -> Option<Term> {
        if self.has_val(n) && ls.len() == self.decls[n].uparams.len() {
            Some(self.decls[n].val->0.tsubst(self.decls[n].uparams, ls))
        } else {
            None
        }
    }

    /// `v` is what the body of the constant `n` reduces to at the levels `ls`.
    pub open spec fn unfolds(self, n: u32, ls: Seq<Lvl>, v: Term) -> bool {
        &&& self.steps(Term::Const(n, ls), v)
        &&& self.body_of(n, ls) matches Some(b) && self.steps(b, v)
    }

    pub open spec fn is_ctor(self, n: u32) -> bool {
        self.decls.contains_key(n) && self.decls[n].kind is Ctor
    }

    pub open spec fn ctor(self, n: u32) -> GCtor {
        self.decls[n].kind->Ctor_0
    }

    pub open spec fn is_ind(self, n: u32) -> bool {
        self.decls.contains_key(n) && self.decls[n].kind is Ind
    }

    pub open spec fn ind(self, n: u32) -> GInd {
        self.decls[n].kind->Ind_0
    }

    pub open spec fn is_rec(self, n: u32) -> bool {
        self.decls.contains_key(n) && self.decls[n].kind is Rec
    }

    pub open spec fn rec(self, n: u32) -> GRec {
        self.decls[n].kind->Rec_0
    }

    /// A structure: one constructor, no indices, not recursive.
    pub open spec fn is_struct(self, n: u32) -> bool {
        &&& self.is_ind(n)
        &&& self.ind(n).ctors.len() == 1
        &&& self.ind(n).num_indices == 0
        &&& !self.ind(n).recursive
    }

    /// The level parameters of `l` are in scope.
    pub open spec fn level_ok(self, l: Lvl) -> bool {
        self.uparams matches Some(ps) ==> l.params_in(ps)
    }

    pub open spec fn levels_ok(self, ls: Seq<Lvl>) -> bool {
        forall|i: int| 0 <= i < ls.len() ==> self.level_ok(#[trigger] ls[i])
    }

    /// Where a quotient eliminator takes its `Quot.mk`.
    pub open spec fn quot_pos(self, n: u32) -> Option<nat> {
        if self.names@.quot_lift == Some(n) {
            Some(5)
        } else if self.names@.quot_ind == Some(n) {
            Some(4)
        } else {
            None
        }
    }

    pub open spec fn is_quot(self, n: u32) -> bool {
        self.decls.contains_key(n) && self.decls[n].kind is Quot
    }

    /// No rule of the recursor `n` applies to `w`: it is no application of a
    /// constructor with as many arguments as the first rule for that
    /// constructor takes fields, nor a literal that stands for one.
    pub open spec fn no_fire(self, n: u32, w: Term) -> bool {
        self.no_ctor_rule(n, w) && !self.is_ctor_lit(w)
    }

    /// `w` is no application of a constructor with as many arguments as the
    /// first rule of the recursor `n` for that constructor takes fields.
    pub open spec fn no_ctor_rule(self, n: u32, w: Term) -> bool {
        forall|j: int, cls: Seq<Lvl>, cargs: Seq<Term>|
            0 <= j < self.rec(n).rules.len() && (forall|i: int|
                0 <= i < j ==> (#[trigger] self.rec(n).rules[i]).ctor != self.rec(n).rules[j].ctor) && w
                == #[trigger] Term::apps(Term::Const(self.rec(n).rules[j].ctor, cls), cargs) ==> cargs.len()
                < self.rec(n).rules[j].nfields
    }

    /// `w` is a literal that stands for a constructor application.
    pub open spec fn is_ctor_lit(self, w: Term) -> bool {
        match w {
            Term::Nat(k) => self.nat_ext && (if k == 0 { self.names@.nat_zero } else { self.names@.nat_succ }) is Some,
            Term::Str(s) => self.str_ctor(s) is Some,
            _ => false,
        }
    }

    /// `w` is no class of a quotient.
    pub open spec fn no_mk(self, w: Term) -> bool {
        forall|mk: u32, mls: Seq<Lvl>, margs: Seq<Term>|
            self.names@.quot_mk == Some(mk) && w == #[trigger] Term::apps(Term::Const(mk, mls), margs) ==> margs.len()
                != 3
    }

    /// The constant `n` under the eliminations `es` need not be unfolded to
    /// bring `t` to weak head normal form: it has no body at its levels, it is
    /// a `Nat` primitive that computes on literals, or its body leads back to `t`.
    pub open spec fn idle(self, lits: bool, n: u32, ls: Seq<Lvl>, es: Seq<ElimT>, t: Term) -> bool {
        ||| self.body_of(n, ls) is None
        ||| lits && self.names@.is_prim(n)
        ||| self.steps(ElimT::spine(self.body_of(n, ls)->0, es), t)
    }

    /// What rule `j` of a recursor gives on a constructor with `cargs`.
    pub open spec fn iota_rhs(self, n: u32, ls: Seq<Lvl>, args: Seq<Term>, j: int, cargs: Seq<Term>) -> Term {
        let rec = self.rec(n);
        Term::apps(
            rec.rules[j].val.tsubst(self.decls[n].uparams, ls),
            args.take(rec.prefix() as int) + cargs.skip(cargs.len() - rec.rules[j].nfields) + args.skip(
                rec.major() as int + 1,
            ),
        )
    }

    /// What the recursor of `Nat` gives on the literal `k`.
    pub open spec fn natrec_rhs(self, n: u32, ls: Seq<Lvl>, args: Seq<Term>, k: nat) -> Term {
        let rec = self.rec(n);
        let z = (rec.num_params + rec.num_motives) as int;
        let head = if k == 0 {
            args[z]
        } else {
            let p = Term::Nat((k - 1) as nat);
            Term::app(
                Term::app(args[z + 1], p),
                Term::apps(Term::Const(n, ls), args.take(rec.major() as int).push(p)),
            )
        };
        Term::apps(head, args.skip(rec.major() as int + 1))
    }

    /// What a binary primitive gives on two literals.
    pub open spec fn op_result(self, op: NatOp, x: nat, y: nat) -> Option<Term> {
        match op {
            NatOp::Beq => self.bool_const(x == y),
            NatOp::Ble => self.bool_const(x <= y),
            _ => Some(Term::Nat(op.compute(x, y))),
        }
    }

    pub open spec fn bool_const(self, b: bool) -> Option<Term> {
        match if b { self.names@.bool_true } else { self.names@.bool_false } {
            Some(n) => Some(Term::Const(n, Seq::empty())),
            None => None,
        }
    }

    /// The list of characters from position `i` on.
    pub open spec fn char_list(self, s: Seq<u32>, i: int) -> Term
        decreases s.len() - i,
    {
        let lz = seq![Lvl::Zero];
        let c = Term::Const(self.names@.char_ty->0, Seq::empty());
        if i < 0 || i >= s.len() {
            Term::app(Term::Const(self.names@.list_nil->0, lz), c)
        } else {
            Term::app(
                Term::app(
                    Term::app(Term::Const(self.names@.list_cons->0, lz), c),
                    Term::app(
                        Term::Const(self.names@.char_of_nat->0, Seq::empty()),
                        Term::Nat(s[i] as nat),
                    ),
                ),
                self.char_list(s, i + 1),
            )
        }
    }

    /// The constructor application a string literal stands for.
    pub open spec fn str_ctor(self, s: Seq<u32>) -> Option<Term> {
        if self.str_ext && self.names@.string_mk is Some && self.names@.list_nil is Some
            && self.names@.list_cons is Some && self.names@.char_ty is Some
            && self.names@.char_of_nat is Some {
            Some(Term::app(Term::Const(self.names@.string_mk->0, Seq::empty()), self.char_list(s, 0)))
        } else {
            None
        }
    }
}

/// A field of a structure as its constructor's type gives it: the type left
/// once the earlier fields are supplied, the function type that reduces to,
/// and a type of the domain with the level of the sort it is.
pub struct Field {
    pub ft: Term,
    pub n: u32,
    pub bs: BinderStyle,
    pub a: Term,
    pub b: Term,
    pub q: Term,
    pub z: Lvl,
}

impl Field {
    pub open spec fn pi(self) -> Term {
        Term::pi(self.n, self.bs, self.a, self.b)
    }
}

/// A candidate for the four judgements: reduction, equality, typing and
/// universes.
pub struct Rel {
    pub r: spec_fn(Term, Term) -> bool,
    pub e: spec_fn(Term, Term) -> bool,
    pub t: spec_fn(bool, Term, Term) -> bool,
    pub u: spec_fn(Term, Lvl) -> bool,
}

impl Rel {
    /// Field `j` of the constructor application with arguments `cargs` equals
    /// the projection of `a`.
    pub open spec fn field_eq(self, a: Term, cargs: Seq<Term>, i: u32, p: nat, j: int) -> bool {
        (self.e)(Term::proj(i, j as nat, a), cargs[p + j])
    }

    /// Terms that agree up to binder names and the like.
    pub open spec fn r_same(self, g: Sig, a: Term, b: Term) -> bool {
        a.same(b) ==> (self.r)(a, b)
    }

    /// Reduction is transitive.
    pub open spec fn r_trans(self, g: Sig, a: Term, b: Term, c: Term) -> bool {
        (self.r)(a, b)
        && (self.r)(b, c) ==> (self.r)(a, c)
    }

    /// Reduction under an application.
    pub open spec fn r_app(self, g: Sig, f: Term, a: Term, f2: Term, a2: Term) -> bool {
        (self.r)(f, f2)
        && (self.r)(a, a2) ==> (self.r)(Term::app(f, a), Term::app(f2, a2))
    }

    /// Reduction under a projection.
    pub open spec fn r_proj(self, g: Sig, n: u32, i: nat, s: Term, s2: Term) -> bool {
        (self.r)(s, s2) ==> (self.r)(Term::proj(n, i, s), Term::proj(n, i, s2))
    }

    /// Reduction under a lambda, its variable opened at an unused level.
    pub open spec fn r_lam(self, g: Sig, n: u32, s: BinderStyle, a: Term, b: Term, x: Term, l: u32, b2: Term) -> bool {
        x.is_level(l)
        && b.ml() <= l
        && (self.r)(b.inst(0, seq![x]), b2)
            ==> (self.r)(Term::lam(n, s, a, b), Term::lam(n, s, a, b2.abstr(l as nat, l as nat + 1, 0)))
    }

    /// Reduction under a `let`, its variable opened at an unused level.
    pub open spec fn r_let(self, g: Sig, n: u32, d: bool, a: Term, v: Term, v2: Term, b: Term, x: Term, l: u32,
        b2: Term) -> bool {
        x.is_level(l)
        && b.ml() <= l
        && (self.r)(v, v2)
        && (self.r)(b.inst(0, seq![x]), b2)
            ==> (self.r)(Term::let_in(n, d, a, v, b), Term::let_in(n, d, a, v2, b2.abstr(l as nat, l as nat + 1, 0)))
    }

    /// Reduction in the value of a `let`.
    pub open spec fn r_let_val(self, g: Sig, n: u32, d: bool, a: Term, v: Term, v2: Term, b: Term) -> bool {
        (self.r)(v, v2) ==> (self.r)(Term::let_in(n, d, a, v, b), Term::let_in(n, d, a, v2, b))
    }

    /// Reduction in the domain of a function type.
    pub open spec fn r_pi(self, g: Sig, n: u32, s: BinderStyle, a: Term, a2: Term, b: Term) -> bool {
        (self.r)(a, a2) ==> (self.r)(Term::pi(n, s, a, b), Term::pi(n, s, a2, b))
    }

    /// Reduction of a closed part, wherever it stands.
    pub open spec fn r_subst(self, g: Sig, b: Term, x: Term, y: Term) -> bool {
        x.nl() == 0
        && y.nl() == 0
        && (self.r)(x, y) ==> (self.r)(b.inst(0, seq![x]), b.inst(0, seq![y]))
    }

    /// Beta.
    pub open spec fn r_beta(self, g: Sig, n: u32, s: BinderStyle, a: Term, b: Term, x: Term) -> bool {
        x.nl() == 0 ==> (self.r)(Term::app(Term::lam(n, s, a, b), x), b.inst(0, seq![x]))
    }

    /// A `let` is its body at its value.
    pub open spec fn r_zeta(self, g: Sig, n: u32, d: bool, a: Term, v: Term, b: Term) -> bool {
        v.nl() == 0 ==> (self.r)(Term::let_in(n, d, a, v, b), b.inst(0, seq![v]))
    }

    /// Levels may be replaced by equivalent ones.
    pub open spec fn r_level(self, g: Sig, a: Lvl, b: Lvl) -> bool {
        a.equiv(b) ==> (self.r)(Term::Sort(a), Term::Sort(b))
    }

    /// A definition is its value.
    pub open spec fn r_delta(self, g: Sig, n: u32, ls: Seq<Lvl>) -> bool {
        g.has_val(n)
        && ls.len() == g.decls[n].uparams.len()
            ==> (self.r)(Term::Const(n, ls), g.decls[n].val->0.tsubst(g.decls[n].uparams, ls))
    }

    /// A projection of a constructor application is the field.
    pub open spec fn r_projc(self, g: Sig, n: u32, i: nat, s: Term, c: u32, cls: Seq<Lvl>, cargs: Seq<Term>) -> bool {
        g.is_ctor(c)
        && (self.r)(s, Term::apps(Term::Const(c, cls), cargs))
        && g.ctor(c).num_params + i < cargs.len()
            ==> (self.r)(Term::proj(n, i, s), cargs[(g.ctor(c).num_params + i) as int])
    }

    /// A recursor fires on a constructor application.
    pub open spec fn r_iota(self, g: Sig, n: u32, ls: Seq<Lvl>, args: Seq<Term>, j: int, cls: Seq<Lvl>,
        cargs: Seq<Term>) -> bool {
        g.is_rec(n)
        && 0 <= j < g.rec(n).rules.len()
        && g.rec(n).major() < args.len()
        && (self.r)(args[g.rec(n).major() as int], Term::apps(Term::Const(g.rec(n).rules[j].ctor, cls), cargs))
        && g.rec(n).rules[j].nfields <= cargs.len()
            ==> (self.r)(Term::apps(Term::Const(n, ls), args), g.iota_rhs(n, ls, args, j, cargs))
    }

    /// The recursor of `Nat` steps on a literal.
    pub open spec fn r_natrec(self, g: Sig, n: u32, ls: Seq<Lvl>, args: Seq<Term>, k: nat) -> bool {
        g.is_rec(n)
        && g.nat_ext
        && g.rec(n).all.len() > 0
        && g.names@.nat == Some(g.rec(n).all[0])
        && g.rec(n).major() < args.len()
        && (self.r)(args[g.rec(n).major() as int], Term::Nat(k))
            ==> (self.r)(Term::apps(Term::Const(n, ls), args), g.natrec_rhs(n, ls, args, k))
    }

    /// `Quot.lift` and `Quot.ind` compute on `Quot.mk`.
    pub open spec fn r_quot(self, g: Sig, n: u32, ls: Seq<Lvl>, args: Seq<Term>, mk: u32, mls: Seq<Lvl>,
        margs: Seq<Term>) -> bool {
        (g.quot_pos(n) is Some)
        && g.quot_pos(n)->0 < args.len()
        && g.names@.quot_mk == Some(mk)
        && margs.len() == 3
        && (self.r)(args[g.quot_pos(n)->0 as int], Term::apps(Term::Const(mk, mls), margs))
            ==> (self.r)(Term::apps(Term::Const(n, ls), args),
            Term::apps(Term::app(args[3], margs[2]), args.skip(g.quot_pos(n)->0 as int + 1)))
    }

    /// `Nat.zero` is the literal 0.
    pub open spec fn r_zero(self, g: Sig, n: u32, ls: Seq<Lvl>) -> bool {
        g.names@.nat_zero == Some(n) ==> (self.r)(Term::Const(n, ls), Term::Nat(0))
    }

    /// `Nat.succ` of a literal is a literal.
    pub open spec fn r_succ(self, g: Sig, n: u32, ls: Seq<Lvl>, a: Term, k: nat) -> bool {
        g.names@.nat_succ == Some(n)
        && (self.r)(a, Term::Nat(k)) ==> (self.r)(Term::app(Term::Const(n, ls), a), Term::Nat(k + 1))
    }

    /// The literal 0 is `Nat.zero`.
    pub open spec fn r_lit_zero(self, g: Sig, n: u32) -> bool {
        g.nat_ext
        && g.names@.nat_zero == Some(n) ==> (self.r)(Term::Nat(0), Term::Const(n, Seq::empty()))
    }

    /// A positive literal is a successor.
    pub open spec fn r_lit_succ(self, g: Sig, n: u32, k: nat) -> bool {
        g.names@.nat_succ == Some(n)
            ==> (self.r)(Term::Nat(k + 1), Term::app(Term::Const(n, Seq::empty()), Term::Nat(k)))
    }

    /// A `Nat` primitive computes on literals.
    pub open spec fn r_natop(self, g: Sig, n: u32, ls: Seq<Lvl>, op: NatOp, a: Term, b: Term, x: nat, y: nat, v: Term)
        -> bool {
        g.names@.op_of(n) == Some(op)
        && (self.r)(a, Term::Nat(x))
        && (self.r)(b, Term::Nat(y))
        && g.op_result(op, x, y) == Some(v) ==> (self.r)(Term::app(Term::app(Term::Const(n, ls), a), b), v)
    }

    /// A string literal is the constructor application it spells.
    pub open spec fn r_str(self, g: Sig, s: Seq<u32>, v: Term) -> bool {
        g.str_ctor(s) == Some(v) ==> (self.r)(Term::Str(s), v)
    }

    /// The K rule: a proof of an inductive proposition with a K recursor is its constructor.
    pub open spec fn r_k(self, g: Sig, m: Term, mt: Term, rc: u32, i: u32, ls: Seq<Lvl>, args: Seq<Term>, k: nat,
        nt: Term) -> bool {
        g.is_rec(rc)
        && g.rec(rc).k
        && g.rec(rc).major_ind == Some(i)
        && g.is_ind(i)
        && g.ind(i).ctors.len() > 0
        && k <= args.len()
        && (self.t)(false, m, mt)
        && (self.r)(mt, Term::apps(Term::Const(i, ls), args))
        && (self.t)(false, Term::apps(Term::Const(g.ind(i).ctors[0], ls), args.take(k as int)), nt)
        && (self.e)(Term::apps(Term::Const(i, ls), args), nt)
            ==> (self.r)(m, Term::apps(Term::Const(g.ind(i).ctors[0], ls), args.take(k as int)))
    }

    /// A value of a structure type is its constructor applied to its projections.
    pub open spec fn r_struct(self, g: Sig, m: Term, mt: Term, i: u32, ls: Seq<Lvl>, args: Seq<Term>, k: nat) -> bool {
        g.is_struct(i)
        && k <= args.len()
        && (self.t)(false, m, mt)
        && (self.r)(mt, Term::apps(Term::Const(i, ls), args))
            ==> (self.r)(m, Term::apps(Term::Const(g.ind(i).ctors[0], ls),
            args.take(k as int) + Term::projs(i, m, g.ctor(g.ind(i).ctors[0]).num_fields)))
    }

    /// Terms that agree up to binder names and the like.
    pub open spec fn e_same(self, g: Sig, a: Term, b: Term) -> bool {
        a.same(b) ==> (self.e)(a, b)
    }

    /// Equality is symmetric.
    pub open spec fn e_sym(self, g: Sig, a: Term, b: Term) -> bool {
        (self.e)(a, b) ==> (self.e)(b, a)
    }

    /// Either side may be reduced first.
    pub open spec fn e_red(self, g: Sig, a: Term, a2: Term, b: Term, b2: Term) -> bool {
        (self.r)(a, a2)
        && (self.r)(b, b2)
        && (self.e)(a2, b2) ==> (self.e)(a, b)
    }

    /// Sorts of equivalent levels.
    pub open spec fn e_sort(self, g: Sig, a: Lvl, b: Lvl) -> bool {
        a.equiv(b) ==> (self.e)(Term::Sort(a), Term::Sort(b))
    }

    /// One constant at equivalent levels.
    pub open spec fn e_const(self, g: Sig, n: u32, a: Seq<Lvl>, b: Seq<Lvl>) -> bool {
        Lvl::equiv_seq(a, b) ==> (self.e)(Term::Const(n, a), Term::Const(n, b))
    }

    /// Congruence of application.
    pub open spec fn e_app(self, g: Sig, f: Term, a: Term, f2: Term, a2: Term) -> bool {
        (self.e)(f, f2)
        && (self.e)(a, a2) ==> (self.e)(Term::app(f, a), Term::app(f2, a2))
    }

    /// Congruence of projection.
    pub open spec fn e_proj(self, g: Sig, n: u32, i: nat, s: Term, s2: Term) -> bool {
        (self.e)(s, s2) ==> (self.e)(Term::proj(n, i, s), Term::proj(n, i, s2))
    }

    /// A free variable is known by its identity once its types agree.
    pub open spec fn e_local(self, g: Sig, i: FVarId, n: u32, s: BinderStyle, a: Term, n2: u32, s2: BinderStyle,
        a2: Term) -> bool {
        (self.e)(a, a2) ==> (self.e)(Term::local(i, n, s, a), Term::local(i, n2, s2, a2))
    }

    /// Function types with equal domains and, at an unused variable, equal codomains.
    pub open spec fn e_pi(self, g: Sig, n: u32, s: BinderStyle, a: Term, b: Term, n2: u32, s2: BinderStyle, a2: Term,
        b2: Term, x: Term) -> bool {
        (self.e)(a, a2)
        && Term::fresh(x, b)
        && Term::fresh(x, b2)
        && x.nl() == 0
        && (self.e)(b.inst(0, seq![x]), b2.inst(0, seq![x]))
            ==> (self.e)(Term::pi(n, s, a, b), Term::pi(n2, s2, a2, b2))
    }

    /// Functions that are equal at an unused variable.
    pub open spec fn e_ext(self, g: Sig, a: Term, b: Term, x: Term, a2: Term, b2: Term) -> bool {
        Term::fresh(x, a)
        && Term::fresh(x, b)
        && x.nl() == 0
        && (self.r)(Term::app(a, x), a2)
        && (self.r)(Term::app(b, x), b2)
        && (self.e)(a2, b2) ==> (self.e)(a, b)
    }

    /// Successors of equal numbers.
    pub open spec fn e_succ(self, g: Sig, n: u32, ls: Seq<Lvl>, ls2: Seq<Lvl>, a: Term, b: Term) -> bool {
        g.names@.nat_succ == Some(n)
        && (self.e)(a, b) ==> (self.e)(Term::app(Term::Const(n, ls), a), Term::app(Term::Const(n, ls2), b))
    }

    /// Proof irrelevance.
    pub open spec fn e_irrel(self, g: Sig, a: Term, ta: Term, la: Lvl, b: Term, tb: Term, lb: Lvl) -> bool {
        (self.t)(false, a, ta)
        && (self.u)(ta, la)
        && la.is_zero()
        && (self.t)(false, b, tb)
        && (self.u)(tb, lb)
        && lb.is_zero()
        && (self.e)(ta, tb) ==> (self.e)(a, b)
    }

    /// Proof irrelevance, the proposition recognised on one side.
    pub open spec fn e_irrel_t(self, g: Sig, a: Term, ta: Term, la: Lvl, b: Term, tb: Term) -> bool {
        (self.t)(false, a, ta)
        && (self.u)(ta, la)
        && la.is_zero()
        && (self.t)(false, b, tb)
        && (self.e)(ta, tb) ==> (self.e)(a, b)
    }

    /// A structure without fields has one value.
    pub open spec fn e_unit(self, g: Sig, a: Term, ta: Term, i: u32, ls: Seq<Lvl>, args: Seq<Term>, b: Term) -> bool {
        g.is_struct(i)
        && g.ctor(g.ind(i).ctors[0]).num_fields == 0
        && (self.t)(false, a, ta)
        && (self.r)(ta, Term::apps(Term::Const(i, ls), args)) ==> (self.e)(a, b)
    }

    /// A constructor application equals what has its fields as projections.
    pub open spec fn e_struct(self, g: Sig, a: Term, c: u32, cls: Seq<Lvl>, cargs: Seq<Term>) -> bool {
        g.is_ctor(c)
        && g.is_struct(g.ctor(c).ind)
        && cargs.len() == g.ctor(c).num_params + g.ctor(c).num_fields
        && (forall|j: int| 0 <= j < g.ctor(c).num_fields
            ==> #[trigger] self.field_eq(a, cargs, g.ctor(c).ind, g.ctor(c).num_params, j))
            ==> (self.e)(a, Term::apps(Term::Const(c, cls), cargs))
    }

    /// A sort lives in the next one.
    pub open spec fn t_sort(self, g: Sig, k: bool, l: Lvl, m: Lvl) -> bool {
        m.equiv(Lvl::Succ(Box::new(l)))
        && (k ==> g.level_ok(l)) ==> (self.t)(k, Term::Sort(l), Term::Sort(m))
    }

    /// A constant has the type it is declared with.
    pub open spec fn t_const(self, g: Sig, k: bool, n: u32, ls: Seq<Lvl>) -> bool {
        g.decls.contains_key(n)
        && (k ==> ls.len() == g.decls[n].uparams.len() && g.levels_ok(ls))
            ==> (self.t)(k, Term::Const(n, ls), g.decls[n].ty.tsubst(g.decls[n].uparams, ls))
    }

    /// A free variable has the type recorded on it.
    pub open spec fn t_local(self, g: Sig, k: bool, i: FVarId, n: u32, s: BinderStyle, a: Term) -> bool {
        (self.t)(k, Term::local(i, n, s, a), a)
    }

    /// A conversion variable has the type recorded on it.
    pub open spec fn t_bv(self, g: Sig, d: nat, a: Term) -> bool {
        (self.t)(false, Term::bv(d, a), a)
    }

    /// A natural number literal is a `Nat`.
    pub open spec fn t_nat(self, g: Sig, k: bool, v: nat, n: u32) -> bool {
        g.names@.nat == Some(n) ==> (self.t)(k, Term::Nat(v), Term::Const(n, Seq::empty()))
    }

    /// A string literal is a `String`.
    pub open spec fn t_str(self, g: Sig, k: bool, v: Seq<u32>, n: u32) -> bool {
        g.names@.string == Some(n) ==> (self.t)(k, Term::Str(v), Term::Const(n, Seq::empty()))
    }

    /// Application; its argument is checked against the domain when checking.
    pub open spec fn t_app(self, g: Sig, k: bool, f: Term, ft: Term, n: u32, s: BinderStyle, a: Term, b: Term, x: Term,
        xt: Term) -> bool {
        (self.t)(k, f, ft)
        && (self.r)(ft, Term::pi(n, s, a, b))
        && x.nl() == 0
        && (k ==> (self.t)(k, x, xt) && (self.e)(a, xt)) ==> (self.t)(k, Term::app(f, x), b.inst(0, seq![x]))
    }

    /// Lambda, its variable opened at an unused level.
    pub open spec fn t_lam(self, g: Sig, k: bool, n: u32, s: BinderStyle, a: Term, b: Term, x: Term, l: u32, bt: Term,
        ak: Term, u: Lvl) -> bool {
        x.is_level_of(l, a)
        && b.ml() <= l
        && a.ml() <= l
        && (k ==> (self.t)(k, a, ak) && (self.r)(ak, Term::Sort(u)))
        && (self.t)(k, b.inst(0, seq![x]), bt)
            ==> (self.t)(k, Term::lam(n, s, a, b), Term::pi(n, s, a, bt.abstr(l as nat, l as nat + 1, 0)))
    }

    /// Function type.
    pub open spec fn t_pi(self, g: Sig, k: bool, n: u32, s: BinderStyle, a: Term, b: Term, x: Term, ak: Term, u: Lvl,
        bk: Term, v: Lvl, w: Lvl) -> bool {
        x.is_var_of(a)
        && Term::fresh(x, b)
        && Term::fresh(x, a)
        && (self.t)(k, a, ak)
        && (self.r)(ak, Term::Sort(u))
        && (self.t)(k, b.inst(0, seq![x]), bk)
        && (self.r)(bk, Term::Sort(v))
        && w.equiv(Lvl::IMax(Box::new(u), Box::new(v))) ==> (self.t)(k, Term::pi(n, s, a, b), Term::Sort(w))
    }

    /// `let`; the value is checked against its type when checking.
    pub open spec fn t_let(self, g: Sig, k: bool, n: u32, d: bool, a: Term, v: Term, b: Term, bt: Term, ak: Term,
        u: Lvl, vt: Term) -> bool {
        v.nl() == 0
        && (k ==> (self.t)(k, a, ak) && (self.r)(ak, Term::Sort(u)) && (self.t)(k, v, vt) && (self.e)(vt, a))
        && (self.t)(k, b.inst(0, seq![v]), bt) ==> (self.t)(k, Term::let_in(n, d, a, v, b), bt)
    }

    /// A projection has the type of the field, the earlier fields standing as
    /// projections. Out of what may be a proposition, the field and every
    /// earlier field that a later one depends on must be proofs.
    pub open spec fn t_proj(self, g: Sig, k: bool, i: u32, j: nat, s: Term, st: Term, ls: Seq<Lvl>, args: Seq<Term>,
        p: nat, ft: Term, n: u32, bs: BinderStyle, a: Term, b: Term, q: Term, z: Lvl, w: Term, sk: Term,
        fs: Seq<Field>) -> bool {
        g.is_ind(i)
        && g.ind(i).ctors.len() == 1
        && (self.t)(k, s, st)
        && (self.r)(st, Term::apps(Term::Const(i, ls), args))
        && p == g.ind(i).num_params
        && p <= args.len()
        && (self.t)(false, Term::apps(Term::Const(g.ind(i).ctors[0], ls), args.take(p as int) + Term::projs(i, s, j)),
            ft)
        && (self.r)(ft, Term::pi(n, bs, a, b))
        && (k ==> ((self.t)(false, a, q) && (self.r)(q, Term::Sort(z)) && z.is_zero() && fs.len() == j
            && forall|m: int| 0 <= m < j
            ==> (self.t)(false,
            Term::apps(Term::Const(g.ind(i).ctors[0], ls), args.take(p as int) + Term::projs(i, s, m as nat)),
            (#[trigger] fs[m]).ft) && (self.r)(fs[m].ft, fs[m].pi())
            && (fs[m].b.nl() > 0
            ==> (self.t)(false, fs[m].a, fs[m].q) && (self.r)(fs[m].q, Term::Sort(fs[m].z)) && fs[m].z.is_zero()))
            || ((self.t)(false, st, sk) && (self.r)(sk, w) && (w matches Term::Sort(l) ==> !l.may_be_zero())))
            ==> (self.t)(k, Term::proj(i, j, s), a)
    }

    /// The type may be reduced.
    pub open spec fn t_red(self, g: Sig, k: bool, t: Term, a: Term, b: Term) -> bool {
        (self.t)(k, t, a)
        && (self.r)(a, b) ==> (self.t)(k, t, b)
    }

    /// A sort lives in the next universe.
    pub open spec fn u_sort(self, g: Sig, l: Lvl, m: Lvl) -> bool {
        m.equiv(Lvl::Succ(Box::new(l))) ==> (self.u)(Term::Sort(l), m)
    }

    /// A function type lives in the impredicative maximum.
    pub open spec fn u_pi(self, g: Sig, n: u32, s: BinderStyle, a: Term, b: Term, x: Term, b2: Term, u: Lvl, v: Lvl,
        w: Lvl) -> bool {
        (self.u)(a, u)
        && Term::fresh(x, b)
        && x.nl() == 0
        && (self.r)(b.inst(0, seq![x]), b2)
        && (self.u)(b2, v)
        && w.equiv(Lvl::IMax(Box::new(u), Box::new(v))) ==> (self.u)(Term::pi(n, s, a, b), w)
    }

    /// An applied constant lives where the type of the constant ends.
    pub open spec fn u_const(self, g: Sig, n: u32, ls: Seq<Lvl>, xs: Seq<Term>, st: Term, l: Lvl, es: Seq<ElimT>)
        -> bool {
        (self.t)(false, Term::apps(Term::Const(n, ls), xs), st)
        && (self.r)(st, Term::Sort(l)) ==> (self.u)(ElimT::spine(Term::Const(n, ls), es), l)
    }

    /// A type lives in the sort it has.
    pub open spec fn u_type(self, g: Sig, t: Term, st: Term, l: Lvl) -> bool {
        (self.t)(false, t, st)
        && (self.r)(st, Term::Sort(l)) ==> (self.u)(t, l)
    }

    /// The type may be reduced first.
    pub open spec fn u_red(self, g: Sig, t: Term, t2: Term, l: Lvl) -> bool {
        (self.r)(t, t2)
        && (self.u)(t2, l) ==> (self.u)(t, l)
    }

    /// The relations are closed under every rule.
    pub open spec fn closed(self, g: Sig) -> bool {
        &&& forall|a: Term, b: Term| #[trigger] self.r_same(g, a, b)
        &&& forall|a: Term, b: Term, c: Term| #[trigger] self.r_trans(g, a, b, c)
        &&& forall|f: Term, a: Term, f2: Term, a2: Term| #[trigger] self.r_app(g, f, a, f2, a2)
        &&& forall|n: u32, i: nat, s: Term, s2: Term| #[trigger] self.r_proj(g, n, i, s, s2)
        &&& forall|n: u32, s: BinderStyle, a: Term, b: Term, x: Term, l: u32,
            b2: Term| #[trigger] self.r_lam(g, n, s, a, b, x, l, b2)
        &&& forall|n: u32, d: bool, a: Term, v: Term, v2: Term, b: Term, x: Term, l: u32,
            b2: Term| #[trigger] self.r_let(g, n, d, a, v, v2, b, x, l, b2)
        &&& forall|n: u32, d: bool, a: Term, v: Term, v2: Term, b: Term| #[trigger] self.r_let_val(g, n, d, a, v, v2, b)
        &&& forall|n: u32, s: BinderStyle, a: Term, a2: Term, b: Term| #[trigger] self.r_pi(g, n, s, a, a2, b)
        &&& forall|b: Term, x: Term, y: Term| #[trigger] self.r_subst(g, b, x, y)
        &&& forall|n: u32, s: BinderStyle, a: Term, b: Term, x: Term| #[trigger] self.r_beta(g, n, s, a, b, x)
        &&& forall|n: u32, d: bool, a: Term, v: Term, b: Term| #[trigger] self.r_zeta(g, n, d, a, v, b)
        &&& forall|a: Lvl, b: Lvl| #[trigger] self.r_level(g, a, b)
        &&& forall|n: u32, ls: Seq<Lvl>| #[trigger] self.r_delta(g, n, ls)
        &&& forall|n: u32, i: nat, s: Term, c: u32, cls: Seq<Lvl>,
            cargs: Seq<Term>| #[trigger] self.r_projc(g, n, i, s, c, cls, cargs)
        &&& forall|n: u32, ls: Seq<Lvl>, args: Seq<Term>, j: int, cls: Seq<Lvl>,
            cargs: Seq<Term>| #[trigger] self.r_iota(g, n, ls, args, j, cls, cargs)
        &&& forall|n: u32, ls: Seq<Lvl>, args: Seq<Term>, k: nat| #[trigger] self.r_natrec(g, n, ls, args, k)
        &&& forall|n: u32, ls: Seq<Lvl>, args: Seq<Term>, mk: u32, mls: Seq<Lvl>,
            margs: Seq<Term>| #[trigger] self.r_quot(g, n, ls, args, mk, mls, margs)
        &&& forall|n: u32, ls: Seq<Lvl>| #[trigger] self.r_zero(g, n, ls)
        &&& forall|n: u32, ls: Seq<Lvl>, a: Term, k: nat| #[trigger] self.r_succ(g, n, ls, a, k)
        &&& forall|n: u32| #[trigger] self.r_lit_zero(g, n)
        &&& forall|n: u32, k: nat| #[trigger] self.r_lit_succ(g, n, k)
        &&& forall|n: u32, ls: Seq<Lvl>, op: NatOp, a: Term, b: Term, x: nat, y: nat,
            v: Term| #[trigger] self.r_natop(g, n, ls, op, a, b, x, y, v)
        &&& forall|s: Seq<u32>, v: Term| #[trigger] self.r_str(g, s, v)
        &&& forall|m: Term, mt: Term, rc: u32, i: u32, ls: Seq<Lvl>, args: Seq<Term>, k: nat,
            nt: Term| #[trigger] self.r_k(g, m, mt, rc, i, ls, args, k, nt)
        &&& forall|m: Term, mt: Term, i: u32, ls: Seq<Lvl>, args: Seq<Term>,
            k: nat| #[trigger] self.r_struct(g, m, mt, i, ls, args, k)
        &&& forall|a: Term, b: Term| #[trigger] self.e_same(g, a, b)
        &&& forall|a: Term, b: Term| #[trigger] self.e_sym(g, a, b)
        &&& forall|a: Term, a2: Term, b: Term, b2: Term| #[trigger] self.e_red(g, a, a2, b, b2)
        &&& forall|a: Lvl, b: Lvl| #[trigger] self.e_sort(g, a, b)
        &&& forall|n: u32, a: Seq<Lvl>, b: Seq<Lvl>| #[trigger] self.e_const(g, n, a, b)
        &&& forall|f: Term, a: Term, f2: Term, a2: Term| #[trigger] self.e_app(g, f, a, f2, a2)
        &&& forall|n: u32, i: nat, s: Term, s2: Term| #[trigger] self.e_proj(g, n, i, s, s2)
        &&& forall|i: FVarId, n: u32, s: BinderStyle, a: Term, n2: u32, s2: BinderStyle,
            a2: Term| #[trigger] self.e_local(g, i, n, s, a, n2, s2, a2)
        &&& forall|n: u32, s: BinderStyle, a: Term, b: Term, n2: u32, s2: BinderStyle, a2: Term, b2: Term,
            x: Term| #[trigger] self.e_pi(g, n, s, a, b, n2, s2, a2, b2, x)
        &&& forall|a: Term, b: Term, x: Term, a2: Term, b2: Term| #[trigger] self.e_ext(g, a, b, x, a2, b2)
        &&& forall|n: u32, ls: Seq<Lvl>, ls2: Seq<Lvl>, a: Term, b: Term| #[trigger] self.e_succ(g, n, ls, ls2, a, b)
        &&& forall|a: Term, ta: Term, la: Lvl, b: Term, tb: Term,
            lb: Lvl| #[trigger] self.e_irrel(g, a, ta, la, b, tb, lb)
        &&& forall|a: Term, ta: Term, la: Lvl, b: Term, tb: Term| #[trigger] self.e_irrel_t(g, a, ta, la, b, tb)
        &&& forall|a: Term, ta: Term, i: u32, ls: Seq<Lvl>, args: Seq<Term>,
            b: Term| #[trigger] self.e_unit(g, a, ta, i, ls, args, b)
        &&& forall|a: Term, c: u32, cls: Seq<Lvl>, cargs: Seq<Term>| #[trigger] self.e_struct(g, a, c, cls, cargs)
        &&& forall|k: bool, l: Lvl, m: Lvl| #[trigger] self.t_sort(g, k, l, m)
        &&& forall|k: bool, n: u32, ls: Seq<Lvl>| #[trigger] self.t_const(g, k, n, ls)
        &&& forall|k: bool, i: FVarId, n: u32, s: BinderStyle, a: Term| #[trigger] self.t_local(g, k, i, n, s, a)
        &&& forall|d: nat, a: Term| #[trigger] self.t_bv(g, d, a)
        &&& forall|k: bool, v: nat, n: u32| #[trigger] self.t_nat(g, k, v, n)
        &&& forall|k: bool, v: Seq<u32>, n: u32| #[trigger] self.t_str(g, k, v, n)
        &&& forall|k: bool, f: Term, ft: Term, n: u32, s: BinderStyle, a: Term, b: Term, x: Term,
            xt: Term| #[trigger] self.t_app(g, k, f, ft, n, s, a, b, x, xt)
        &&& forall|k: bool, n: u32, s: BinderStyle, a: Term, b: Term, x: Term, l: u32, bt: Term, ak: Term,
            u: Lvl| #[trigger] self.t_lam(g, k, n, s, a, b, x, l, bt, ak, u)
        &&& forall|k: bool, n: u32, s: BinderStyle, a: Term, b: Term, x: Term, ak: Term, u: Lvl, bk: Term, v: Lvl,
            w: Lvl| #[trigger] self.t_pi(g, k, n, s, a, b, x, ak, u, bk, v, w)
        &&& forall|k: bool, n: u32, d: bool, a: Term, v: Term, b: Term, bt: Term, ak: Term, u: Lvl,
            vt: Term| #[trigger] self.t_let(g, k, n, d, a, v, b, bt, ak, u, vt)
        &&& forall|k: bool, i: u32, j: nat, s: Term, st: Term, ls: Seq<Lvl>, args: Seq<Term>, p: nat, ft: Term, n: u32,
            bs: BinderStyle, a: Term, b: Term, q: Term, z: Lvl, w: Term, sk: Term,
            fs: Seq<Field>| #[trigger] self.t_proj(g, k, i, j, s, st, ls, args, p, ft, n, bs, a, b, q, z, w, sk, fs)
        &&& forall|k: bool, t: Term, a: Term, b: Term| #[trigger] self.t_red(g, k, t, a, b)
        &&& forall|l: Lvl, m: Lvl| #[trigger] self.u_sort(g, l, m)
        &&& forall|n: u32, s: BinderStyle, a: Term, b: Term, x: Term, b2: Term, u: Lvl, v: Lvl,
            w: Lvl| #[trigger] self.u_pi(g, n, s, a, b, x, b2, u, v, w)
        &&& forall|n: u32, ls: Seq<Lvl>, xs: Seq<Term>, st: Term, l: Lvl,
            es: Seq<ElimT>| #[trigger] self.u_const(g, n, ls, xs, st, l, es)
        &&& forall|t: Term, st: Term, l: Lvl| #[trigger] self.u_type(g, t, st, l)
        &&& forall|t: Term, t2: Term, l: Lvl| #[trigger] self.u_red(g, t, t2, l)
    }
}

impl Sig {
    /// `a` reduces to `b`.
    pub closed spec fn red(self, a: Term, b: Term) -> bool {
        forall|r: Rel| #[trigger] r.closed(self) ==> (r.r)(a, b)
    }

    /// `a` and `b` are definitionally equal.
    pub closed spec fn eq(self, a: Term, b: Term) -> bool {
        forall|r: Rel| #[trigger] r.closed(self) ==> (r.e)(a, b)
    }

    /// `t` has type `a`; `k` says whether the subterms of `t` are checked.
    pub closed spec fn ty(self, k: bool, t: Term, a: Term) -> bool {
        forall|r: Rel| #[trigger] r.closed(self) ==> (r.t)(k, t, a)
    }

    /// The type `t` lives in the universe `l`.
    pub closed spec fn univ(self, t: Term, l: Lvl) -> bool {
        forall|r: Rel| #[trigger] r.closed(self) ==> (r.u)(t, l)
    }

    /// Field `j` of the constructor application with arguments `cargs` equals
    /// the projection of `a`.
    pub open spec fn field_eq(self, a: Term, cargs: Seq<Term>, i: u32, p: nat, j: int) -> bool {
        self.eq(Term::proj(i, j as nat, a), cargs[p + j])
    }

    pub proof fn r_same(g: Sig, a: Term, b: Term)
        requires
            a.same(b),
        ensures
            g.red(a, b),
    {
        assert forall|r: Rel| #[trigger] r.closed(g) implies (r.r)(a, b) by {
            assert(r.r_same(g, a, b));
        }
    }

    pub proof fn r_trans(g: Sig, a: Term, b: Term, c: Term)
        requires
            g.red(a, b),
            g.red(b, c),
        ensures
            g.red(a, c),
    {
        assert forall|r: Rel| #[trigger] r.closed(g) implies (r.r)(a, c) by {
            assert(r.r_trans(g, a, b, c));
        }
    }

    pub proof fn r_app(g: Sig, f: Term, a: Term, f2: Term, a2: Term)
        requires
            g.red(f, f2),
            g.red(a, a2),
        ensures
            g.red(Term::app(f, a), Term::app(f2, a2)),
    {
        assert forall|r: Rel| #[trigger] r.closed(g) implies (r.r)(Term::app(f, a), Term::app(f2, a2)) by {
            assert(r.r_app(g, f, a, f2, a2));
        }
    }

    pub proof fn r_proj(g: Sig, n: u32, i: nat, s: Term, s2: Term)
        requires
            g.red(s, s2),
        ensures
            g.red(Term::proj(n, i, s), Term::proj(n, i, s2)),
    {
        assert forall|r: Rel| #[trigger] r.closed(g) implies (r.r)(Term::proj(n, i, s), Term::proj(n, i, s2)) by {
            assert(r.r_proj(g, n, i, s, s2));
        }
    }

    pub proof fn r_lam(g: Sig, n: u32, s: BinderStyle, a: Term, b: Term, x: Term, l: u32, b2: Term)
        requires
            x.is_level(l),
            b.ml() <= l,
            g.red(b.inst(0, seq![x]), b2),
        ensures
            g.red(Term::lam(n, s, a, b), Term::lam(n, s, a, b2.abstr(l as nat, l as nat + 1, 0))),
    {
        assert forall|r: Rel| #[trigger] r.closed(g) implies (r.r)(Term::lam(n, s, a, b),
            Term::lam(n, s, a, b2.abstr(l as nat, l as nat + 1, 0))) by {
            assert(r.r_lam(g, n, s, a, b, x, l, b2));
        }
    }

    pub proof fn r_let(g: Sig, n: u32, d: bool, a: Term, v: Term, v2: Term, b: Term, x: Term, l: u32, b2: Term)
        requires
            x.is_level(l),
            b.ml() <= l,
            g.red(v, v2),
            g.red(b.inst(0, seq![x]), b2),
        ensures
            g.red(Term::let_in(n, d, a, v, b), Term::let_in(n, d, a, v2, b2.abstr(l as nat, l as nat + 1, 0))),
    {
        assert forall|r: Rel| #[trigger] r.closed(g) implies (r.r)(Term::let_in(n, d, a, v, b),
            Term::let_in(n, d, a, v2, b2.abstr(l as nat, l as nat + 1, 0))) by {
            assert(r.r_let(g, n, d, a, v, v2, b, x, l, b2));
        }
    }

    pub proof fn r_let_val(g: Sig, n: u32, d: bool, a: Term, v: Term, v2: Term, b: Term)
        requires
            g.red(v, v2),
        ensures
            g.red(Term::let_in(n, d, a, v, b), Term::let_in(n, d, a, v2, b)),
    {
        assert forall|r: Rel| #[trigger] r.closed(g) implies (r.r)(Term::let_in(n, d, a, v, b),
            Term::let_in(n, d, a, v2, b)) by {
            assert(r.r_let_val(g, n, d, a, v, v2, b));
        }
    }

    pub proof fn r_pi(g: Sig, n: u32, s: BinderStyle, a: Term, a2: Term, b: Term)
        requires
            g.red(a, a2),
        ensures
            g.red(Term::pi(n, s, a, b), Term::pi(n, s, a2, b)),
    {
        assert forall|r: Rel| #[trigger] r.closed(g) implies (r.r)(Term::pi(n, s, a, b), Term::pi(n, s, a2, b)) by {
            assert(r.r_pi(g, n, s, a, a2, b));
        }
    }

    pub proof fn r_subst(g: Sig, b: Term, x: Term, y: Term)
        requires
            x.nl() == 0,
            y.nl() == 0,
            g.red(x, y),
        ensures
            g.red(b.inst(0, seq![x]), b.inst(0, seq![y])),
    {
        assert forall|r: Rel| #[trigger] r.closed(g) implies (r.r)(b.inst(0, seq![x]), b.inst(0, seq![y])) by {
            assert(r.r_subst(g, b, x, y));
        }
    }

    pub proof fn r_beta(g: Sig, n: u32, s: BinderStyle, a: Term, b: Term, x: Term)
        requires
            x.nl() == 0,
        ensures
            g.red(Term::app(Term::lam(n, s, a, b), x), b.inst(0, seq![x])),
    {
        assert forall|r: Rel| #[trigger] r.closed(g) implies (r.r)(Term::app(Term::lam(n, s, a, b), x),
            b.inst(0, seq![x])) by {
            assert(r.r_beta(g, n, s, a, b, x));
        }
    }

    pub proof fn r_zeta(g: Sig, n: u32, d: bool, a: Term, v: Term, b: Term)
        requires
            v.nl() == 0,
        ensures
            g.red(Term::let_in(n, d, a, v, b), b.inst(0, seq![v])),
    {
        assert forall|r: Rel| #[trigger] r.closed(g) implies (r.r)(Term::let_in(n, d, a, v, b), b.inst(0, seq![v])) by {
            assert(r.r_zeta(g, n, d, a, v, b));
        }
    }

    pub proof fn r_level(g: Sig, a: Lvl, b: Lvl)
        requires
            a.equiv(b),
        ensures
            g.red(Term::Sort(a), Term::Sort(b)),
    {
        assert forall|r: Rel| #[trigger] r.closed(g) implies (r.r)(Term::Sort(a), Term::Sort(b)) by {
            assert(r.r_level(g, a, b));
        }
    }

    pub proof fn r_delta(g: Sig, n: u32, ls: Seq<Lvl>)
        requires
            g.has_val(n),
            ls.len() == g.decls[n].uparams.len(),
        ensures
            g.red(Term::Const(n, ls), g.decls[n].val->0.tsubst(g.decls[n].uparams, ls)),
    {
        assert forall|r: Rel| #[trigger] r.closed(g) implies (r.r)(Term::Const(n, ls),
            g.decls[n].val->0.tsubst(g.decls[n].uparams, ls)) by {
            assert(r.r_delta(g, n, ls));
        }
    }

    pub proof fn r_projc(g: Sig, n: u32, i: nat, s: Term, c: u32, cls: Seq<Lvl>, cargs: Seq<Term>)
        requires
            g.is_ctor(c),
            g.red(s, Term::apps(Term::Const(c, cls), cargs)),
            g.ctor(c).num_params + i < cargs.len(),
        ensures
            g.red(Term::proj(n, i, s), cargs[(g.ctor(c).num_params + i) as int]),
    {
        assert forall|r: Rel| #[trigger] r.closed(g) implies (r.r)(Term::proj(n, i, s),
            cargs[(g.ctor(c).num_params + i) as int]) by {
            assert(r.r_projc(g, n, i, s, c, cls, cargs));
        }
    }

    pub proof fn r_iota(g: Sig, n: u32, ls: Seq<Lvl>, args: Seq<Term>, j: int, cls: Seq<Lvl>, cargs: Seq<Term>)
        requires
            g.is_rec(n),
            0 <= j < g.rec(n).rules.len(),
            g.rec(n).major() < args.len(),
            g.red(args[g.rec(n).major() as int], Term::apps(Term::Const(g.rec(n).rules[j].ctor, cls), cargs)),
            g.rec(n).rules[j].nfields <= cargs.len(),
        ensures
            g.red(Term::apps(Term::Const(n, ls), args), g.iota_rhs(n, ls, args, j, cargs)),
    {
        assert forall|r: Rel| #[trigger] r.closed(g) implies (r.r)(Term::apps(Term::Const(n, ls), args),
            g.iota_rhs(n, ls, args, j, cargs)) by {
            assert(r.r_iota(g, n, ls, args, j, cls, cargs));
        }
    }

    pub proof fn r_natrec(g: Sig, n: u32, ls: Seq<Lvl>, args: Seq<Term>, k: nat)
        requires
            g.is_rec(n),
            g.nat_ext,
            g.rec(n).all.len() > 0,
            g.names@.nat == Some(g.rec(n).all[0]),
            g.rec(n).major() < args.len(),
            g.red(args[g.rec(n).major() as int], Term::Nat(k)),
        ensures
            g.red(Term::apps(Term::Const(n, ls), args), g.natrec_rhs(n, ls, args, k)),
    {
        assert forall|r: Rel| #[trigger] r.closed(g) implies (r.r)(Term::apps(Term::Const(n, ls), args),
            g.natrec_rhs(n, ls, args, k)) by {
            assert(r.r_natrec(g, n, ls, args, k));
        }
    }

    pub proof fn r_quot(g: Sig, n: u32, ls: Seq<Lvl>, args: Seq<Term>, mk: u32, mls: Seq<Lvl>, margs: Seq<Term>)
        requires
            g.quot_pos(n) is Some,
            g.quot_pos(n)->0 < args.len(),
            g.names@.quot_mk == Some(mk),
            margs.len() == 3,
            g.red(args[g.quot_pos(n)->0 as int], Term::apps(Term::Const(mk, mls), margs)),
        ensures
            g.red(Term::apps(Term::Const(n, ls), args),
                Term::apps(Term::app(args[3], margs[2]), args.skip(g.quot_pos(n)->0 as int + 1))),
    {
        assert forall|r: Rel| #[trigger] r.closed(g) implies (r.r)(Term::apps(Term::Const(n, ls), args),
            Term::apps(Term::app(args[3], margs[2]), args.skip(g.quot_pos(n)->0 as int + 1))) by {
            assert(r.r_quot(g, n, ls, args, mk, mls, margs));
        }
    }

    pub proof fn r_zero(g: Sig, n: u32, ls: Seq<Lvl>)
        requires
            g.names@.nat_zero == Some(n),
        ensures
            g.red(Term::Const(n, ls), Term::Nat(0)),
    {
        assert forall|r: Rel| #[trigger] r.closed(g) implies (r.r)(Term::Const(n, ls), Term::Nat(0)) by {
            assert(r.r_zero(g, n, ls));
        }
    }

    pub proof fn r_succ(g: Sig, n: u32, ls: Seq<Lvl>, a: Term, k: nat)
        requires
            g.names@.nat_succ == Some(n),
            g.red(a, Term::Nat(k)),
        ensures
            g.red(Term::app(Term::Const(n, ls), a), Term::Nat(k + 1)),
    {
        assert forall|r: Rel| #[trigger] r.closed(g) implies (r.r)(Term::app(Term::Const(n, ls), a),
            Term::Nat(k + 1)) by {
            assert(r.r_succ(g, n, ls, a, k));
        }
    }

    pub proof fn r_lit_zero(g: Sig, n: u32)
        requires
            g.nat_ext,
            g.names@.nat_zero == Some(n),
        ensures
            g.red(Term::Nat(0), Term::Const(n, Seq::empty())),
    {
        assert forall|r: Rel| #[trigger] r.closed(g) implies (r.r)(Term::Nat(0), Term::Const(n, Seq::empty())) by {
            assert(r.r_lit_zero(g, n));
        }
    }

    pub proof fn r_lit_succ(g: Sig, n: u32, k: nat)
        requires
            g.names@.nat_succ == Some(n),
        ensures
            g.red(Term::Nat(k + 1), Term::app(Term::Const(n, Seq::empty()), Term::Nat(k))),
    {
        assert forall|r: Rel| #[trigger] r.closed(g) implies (r.r)(Term::Nat(k + 1),
            Term::app(Term::Const(n, Seq::empty()), Term::Nat(k))) by {
            assert(r.r_lit_succ(g, n, k));
        }
    }

    pub proof fn r_natop(g: Sig, n: u32, ls: Seq<Lvl>, op: NatOp, a: Term, b: Term, x: nat, y: nat, v: Term)
        requires
            g.names@.op_of(n) == Some(op),
            g.red(a, Term::Nat(x)),
            g.red(b, Term::Nat(y)),
            g.op_result(op, x, y) == Some(v),
        ensures
            g.red(Term::app(Term::app(Term::Const(n, ls), a), b), v),
    {
        assert forall|r: Rel| #[trigger] r.closed(g) implies (r.r)(Term::app(Term::app(Term::Const(n, ls), a), b),
            v) by {
            assert(r.r_natop(g, n, ls, op, a, b, x, y, v));
        }
    }

    pub proof fn r_str(g: Sig, s: Seq<u32>, v: Term)
        requires
            g.str_ctor(s) == Some(v),
        ensures
            g.red(Term::Str(s), v),
    {
        assert forall|r: Rel| #[trigger] r.closed(g) implies (r.r)(Term::Str(s), v) by {
            assert(r.r_str(g, s, v));
        }
    }

    pub proof fn r_k(g: Sig, m: Term, mt: Term, rc: u32, i: u32, ls: Seq<Lvl>, args: Seq<Term>, k: nat, nt: Term)
        requires
            g.is_rec(rc),
            g.rec(rc).k,
            g.rec(rc).major_ind == Some(i),
            g.is_ind(i),
            g.ind(i).ctors.len() > 0,
            k <= args.len(),
            g.ty(false, m, mt),
            g.red(mt, Term::apps(Term::Const(i, ls), args)),
            g.ty(false, Term::apps(Term::Const(g.ind(i).ctors[0], ls), args.take(k as int)), nt),
            g.eq(Term::apps(Term::Const(i, ls), args), nt),
        ensures
            g.red(m, Term::apps(Term::Const(g.ind(i).ctors[0], ls), args.take(k as int))),
    {
        assert forall|r: Rel| #[trigger] r.closed(g) implies (r.r)(m,
            Term::apps(Term::Const(g.ind(i).ctors[0], ls), args.take(k as int))) by {
            assert(r.r_k(g, m, mt, rc, i, ls, args, k, nt));
        }
    }

    pub proof fn r_struct(g: Sig, m: Term, mt: Term, i: u32, ls: Seq<Lvl>, args: Seq<Term>, k: nat)
        requires
            g.is_struct(i),
            k <= args.len(),
            g.ty(false, m, mt),
            g.red(mt, Term::apps(Term::Const(i, ls), args)),
        ensures
            g.red(m, Term::apps(Term::Const(g.ind(i).ctors[0], ls),
                args.take(k as int) + Term::projs(i, m, g.ctor(g.ind(i).ctors[0]).num_fields))),
    {
        assert forall|r: Rel| #[trigger] r.closed(g) implies (r.r)(m,
            Term::apps(Term::Const(g.ind(i).ctors[0], ls),
            args.take(k as int) + Term::projs(i, m, g.ctor(g.ind(i).ctors[0]).num_fields))) by {
            assert(r.r_struct(g, m, mt, i, ls, args, k));
        }
    }

    pub proof fn e_same(g: Sig, a: Term, b: Term)
        requires
            a.same(b),
        ensures
            g.eq(a, b),
    {
        assert forall|r: Rel| #[trigger] r.closed(g) implies (r.e)(a, b) by {
            assert(r.e_same(g, a, b));
        }
    }

    pub proof fn e_sym(g: Sig, a: Term, b: Term)
        requires
            g.eq(a, b),
        ensures
            g.eq(b, a),
    {
        assert forall|r: Rel| #[trigger] r.closed(g) implies (r.e)(b, a) by {
            assert(r.e_sym(g, a, b));
        }
    }

    pub proof fn e_red(g: Sig, a: Term, a2: Term, b: Term, b2: Term)
        requires
            g.red(a, a2),
            g.red(b, b2),
            g.eq(a2, b2),
        ensures
            g.eq(a, b),
    {
        assert forall|r: Rel| #[trigger] r.closed(g) implies (r.e)(a, b) by {
            assert(r.e_red(g, a, a2, b, b2));
        }
    }

    pub proof fn e_sort(g: Sig, a: Lvl, b: Lvl)
        requires
            a.equiv(b),
        ensures
            g.eq(Term::Sort(a), Term::Sort(b)),
    {
        assert forall|r: Rel| #[trigger] r.closed(g) implies (r.e)(Term::Sort(a), Term::Sort(b)) by {
            assert(r.e_sort(g, a, b));
        }
    }

    pub proof fn e_const(g: Sig, n: u32, a: Seq<Lvl>, b: Seq<Lvl>)
        requires
            Lvl::equiv_seq(a, b),
        ensures
            g.eq(Term::Const(n, a), Term::Const(n, b)),
    {
        assert forall|r: Rel| #[trigger] r.closed(g) implies (r.e)(Term::Const(n, a), Term::Const(n, b)) by {
            assert(r.e_const(g, n, a, b));
        }
    }

    pub proof fn e_app(g: Sig, f: Term, a: Term, f2: Term, a2: Term)
        requires
            g.eq(f, f2),
            g.eq(a, a2),
        ensures
            g.eq(Term::app(f, a), Term::app(f2, a2)),
    {
        assert forall|r: Rel| #[trigger] r.closed(g) implies (r.e)(Term::app(f, a), Term::app(f2, a2)) by {
            assert(r.e_app(g, f, a, f2, a2));
        }
    }

    pub proof fn e_proj(g: Sig, n: u32, i: nat, s: Term, s2: Term)
        requires
            g.eq(s, s2),
        ensures
            g.eq(Term::proj(n, i, s), Term::proj(n, i, s2)),
    {
        assert forall|r: Rel| #[trigger] r.closed(g) implies (r.e)(Term::proj(n, i, s), Term::proj(n, i, s2)) by {
            assert(r.e_proj(g, n, i, s, s2));
        }
    }

    pub proof fn e_local(g: Sig, i: FVarId, n: u32, s: BinderStyle, a: Term, n2: u32, s2: BinderStyle, a2: Term)
        requires
            g.eq(a, a2),
        ensures
            g.eq(Term::local(i, n, s, a), Term::local(i, n2, s2, a2)),
    {
        assert forall|r: Rel| #[trigger] r.closed(g) implies (r.e)(Term::local(i, n, s, a),
            Term::local(i, n2, s2, a2)) by {
            assert(r.e_local(g, i, n, s, a, n2, s2, a2));
        }
    }

    pub proof fn e_pi(g: Sig, n: u32, s: BinderStyle, a: Term, b: Term, n2: u32, s2: BinderStyle, a2: Term, b2: Term,
        x: Term)
        requires
            g.eq(a, a2),
            Term::fresh(x, b),
            Term::fresh(x, b2),
            x.nl() == 0,
            g.eq(b.inst(0, seq![x]), b2.inst(0, seq![x])),
        ensures
            g.eq(Term::pi(n, s, a, b), Term::pi(n2, s2, a2, b2)),
    {
        assert forall|r: Rel| #[trigger] r.closed(g) implies (r.e)(Term::pi(n, s, a, b), Term::pi(n2, s2, a2, b2)) by {
            assert(r.e_pi(g, n, s, a, b, n2, s2, a2, b2, x));
        }
    }

    pub proof fn e_ext(g: Sig, a: Term, b: Term, x: Term, a2: Term, b2: Term)
        requires
            Term::fresh(x, a),
            Term::fresh(x, b),
            x.nl() == 0,
            g.red(Term::app(a, x), a2),
            g.red(Term::app(b, x), b2),
            g.eq(a2, b2),
        ensures
            g.eq(a, b),
    {
        assert forall|r: Rel| #[trigger] r.closed(g) implies (r.e)(a, b) by {
            assert(r.e_ext(g, a, b, x, a2, b2));
        }
    }

    pub proof fn e_succ(g: Sig, n: u32, ls: Seq<Lvl>, ls2: Seq<Lvl>, a: Term, b: Term)
        requires
            g.names@.nat_succ == Some(n),
            g.eq(a, b),
        ensures
            g.eq(Term::app(Term::Const(n, ls), a), Term::app(Term::Const(n, ls2), b)),
    {
        assert forall|r: Rel| #[trigger] r.closed(g) implies (r.e)(Term::app(Term::Const(n, ls), a),
            Term::app(Term::Const(n, ls2), b)) by {
            assert(r.e_succ(g, n, ls, ls2, a, b));
        }
    }

    pub proof fn e_irrel(g: Sig, a: Term, ta: Term, la: Lvl, b: Term, tb: Term, lb: Lvl)
        requires
            g.ty(false, a, ta),
            g.univ(ta, la),
            la.is_zero(),
            g.ty(false, b, tb),
            g.univ(tb, lb),
            lb.is_zero(),
            g.eq(ta, tb),
        ensures
            g.eq(a, b),
    {
        assert forall|r: Rel| #[trigger] r.closed(g) implies (r.e)(a, b) by {
            assert(r.e_irrel(g, a, ta, la, b, tb, lb));
        }
    }

    pub proof fn e_irrel_t(g: Sig, a: Term, ta: Term, la: Lvl, b: Term, tb: Term)
        requires
            g.ty(false, a, ta),
            g.univ(ta, la),
            la.is_zero(),
            g.ty(false, b, tb),
            g.eq(ta, tb),
        ensures
            g.eq(a, b),
    {
        assert forall|r: Rel| #[trigger] r.closed(g) implies (r.e)(a, b) by {
            assert(r.e_irrel_t(g, a, ta, la, b, tb));
        }
    }

    pub proof fn e_unit(g: Sig, a: Term, ta: Term, i: u32, ls: Seq<Lvl>, args: Seq<Term>, b: Term)
        requires
            g.is_struct(i),
            g.ctor(g.ind(i).ctors[0]).num_fields == 0,
            g.ty(false, a, ta),
            g.red(ta, Term::apps(Term::Const(i, ls), args)),
        ensures
            g.eq(a, b),
    {
        assert forall|r: Rel| #[trigger] r.closed(g) implies (r.e)(a, b) by {
            assert(r.e_unit(g, a, ta, i, ls, args, b));
        }
    }

    pub proof fn e_struct(g: Sig, a: Term, c: u32, cls: Seq<Lvl>, cargs: Seq<Term>)
        requires
            g.is_ctor(c),
            g.is_struct(g.ctor(c).ind),
            cargs.len() == g.ctor(c).num_params + g.ctor(c).num_fields,
            forall|j: int| 0 <= j < g.ctor(c).num_fields
                ==> #[trigger] g.field_eq(a, cargs, g.ctor(c).ind, g.ctor(c).num_params, j),
        ensures
            g.eq(a, Term::apps(Term::Const(c, cls), cargs)),
    {
        assert forall|r: Rel| #[trigger] r.closed(g) implies (r.e)(a, Term::apps(Term::Const(c, cls), cargs)) by {
            assert forall|j: int| 0 <= j < g.ctor(c).num_fields implies #[trigger] r.field_eq(a, cargs, g.ctor(c).ind,
                g.ctor(c).num_params, j) by {
                assert(g.field_eq(a, cargs, g.ctor(c).ind, g.ctor(c).num_params, j));
            }
            assert(r.e_struct(g, a, c, cls, cargs));
        }
    }

    pub proof fn t_sort(g: Sig, k: bool, l: Lvl, m: Lvl)
        requires
            m.equiv(Lvl::Succ(Box::new(l))),
            k ==> g.level_ok(l),
        ensures
            g.ty(k, Term::Sort(l), Term::Sort(m)),
    {
        assert forall|r: Rel| #[trigger] r.closed(g) implies (r.t)(k, Term::Sort(l), Term::Sort(m)) by {
            assert(r.t_sort(g, k, l, m));
        }
    }

    pub proof fn t_const(g: Sig, k: bool, n: u32, ls: Seq<Lvl>)
        requires
            g.decls.contains_key(n),
            k ==> ls.len() == g.decls[n].uparams.len() && g.levels_ok(ls),
        ensures
            g.ty(k, Term::Const(n, ls), g.decls[n].ty.tsubst(g.decls[n].uparams, ls)),
    {
        assert forall|r: Rel| #[trigger] r.closed(g) implies (r.t)(k, Term::Const(n, ls),
            g.decls[n].ty.tsubst(g.decls[n].uparams, ls)) by {
            assert(r.t_const(g, k, n, ls));
        }
    }

    pub proof fn t_local(g: Sig, k: bool, i: FVarId, n: u32, s: BinderStyle, a: Term)
        ensures
            g.ty(k, Term::local(i, n, s, a), a),
    {
        assert forall|r: Rel| #[trigger] r.closed(g) implies (r.t)(k, Term::local(i, n, s, a), a) by {
            assert(r.t_local(g, k, i, n, s, a));
        }
    }

    pub proof fn t_bv(g: Sig, d: nat, a: Term)
        ensures
            g.ty(false, Term::bv(d, a), a),
    {
        assert forall|r: Rel| #[trigger] r.closed(g) implies (r.t)(false, Term::bv(d, a), a) by {
            assert(r.t_bv(g, d, a));
        }
    }

    pub proof fn t_nat(g: Sig, k: bool, v: nat, n: u32)
        requires
            g.names@.nat == Some(n),
        ensures
            g.ty(k, Term::Nat(v), Term::Const(n, Seq::empty())),
    {
        assert forall|r: Rel| #[trigger] r.closed(g) implies (r.t)(k, Term::Nat(v), Term::Const(n, Seq::empty())) by {
            assert(r.t_nat(g, k, v, n));
        }
    }

    pub proof fn t_str(g: Sig, k: bool, v: Seq<u32>, n: u32)
        requires
            g.names@.string == Some(n),
        ensures
            g.ty(k, Term::Str(v), Term::Const(n, Seq::empty())),
    {
        assert forall|r: Rel| #[trigger] r.closed(g) implies (r.t)(k, Term::Str(v), Term::Const(n, Seq::empty())) by {
            assert(r.t_str(g, k, v, n));
        }
    }

    pub proof fn t_app(g: Sig, k: bool, f: Term, ft: Term, n: u32, s: BinderStyle, a: Term, b: Term, x: Term, xt: Term)
        requires
            g.ty(k, f, ft),
            g.red(ft, Term::pi(n, s, a, b)),
            x.nl() == 0,
            k ==> g.ty(k, x, xt) && g.eq(a, xt),
        ensures
            g.ty(k, Term::app(f, x), b.inst(0, seq![x])),
    {
        assert forall|r: Rel| #[trigger] r.closed(g) implies (r.t)(k, Term::app(f, x), b.inst(0, seq![x])) by {
            assert(r.t_app(g, k, f, ft, n, s, a, b, x, xt));
        }
    }

    pub proof fn t_lam(g: Sig, k: bool, n: u32, s: BinderStyle, a: Term, b: Term, x: Term, l: u32, bt: Term, ak: Term,
        u: Lvl)
        requires
            x.is_level_of(l, a),
            b.ml() <= l,
            a.ml() <= l,
            k ==> g.ty(k, a, ak) && g.red(ak, Term::Sort(u)),
            g.ty(k, b.inst(0, seq![x]), bt),
        ensures
            g.ty(k, Term::lam(n, s, a, b), Term::pi(n, s, a, bt.abstr(l as nat, l as nat + 1, 0))),
    {
        assert forall|r: Rel| #[trigger] r.closed(g) implies (r.t)(k, Term::lam(n, s, a, b),
            Term::pi(n, s, a, bt.abstr(l as nat, l as nat + 1, 0))) by {
            assert(r.t_lam(g, k, n, s, a, b, x, l, bt, ak, u));
        }
    }

    pub proof fn t_pi(g: Sig, k: bool, n: u32, s: BinderStyle, a: Term, b: Term, x: Term, ak: Term, u: Lvl, bk: Term,
        v: Lvl, w: Lvl)
        requires
            x.is_var_of(a),
            Term::fresh(x, b),
            Term::fresh(x, a),
            g.ty(k, a, ak),
            g.red(ak, Term::Sort(u)),
            g.ty(k, b.inst(0, seq![x]), bk),
            g.red(bk, Term::Sort(v)),
            w.equiv(Lvl::IMax(Box::new(u), Box::new(v))),
        ensures
            g.ty(k, Term::pi(n, s, a, b), Term::Sort(w)),
    {
        assert forall|r: Rel| #[trigger] r.closed(g) implies (r.t)(k, Term::pi(n, s, a, b), Term::Sort(w)) by {
            assert(r.t_pi(g, k, n, s, a, b, x, ak, u, bk, v, w));
        }
    }

    pub proof fn t_let(g: Sig, k: bool, n: u32, d: bool, a: Term, v: Term, b: Term, bt: Term, ak: Term, u: Lvl,
        vt: Term)
        requires
            v.nl() == 0,
            k ==> g.ty(k, a, ak) && g.red(ak, Term::Sort(u)) && g.ty(k, v, vt) && g.eq(vt, a),
            g.ty(k, b.inst(0, seq![v]), bt),
        ensures
            g.ty(k, Term::let_in(n, d, a, v, b), bt),
    {
        assert forall|r: Rel| #[trigger] r.closed(g) implies (r.t)(k, Term::let_in(n, d, a, v, b), bt) by {
            assert(r.t_let(g, k, n, d, a, v, b, bt, ak, u, vt));
        }
    }

    pub proof fn t_proj(g: Sig, k: bool, i: u32, j: nat, s: Term, st: Term, ls: Seq<Lvl>, args: Seq<Term>, p: nat,
        ft: Term, n: u32, bs: BinderStyle, a: Term, b: Term, q: Term, z: Lvl, w: Term, sk: Term, fs: Seq<Field>)
        requires
            g.is_ind(i),
            g.ind(i).ctors.len() == 1,
            g.ty(k, s, st),
            g.red(st, Term::apps(Term::Const(i, ls), args)),
            p == g.ind(i).num_params,
            p <= args.len(),
            g.ty(false, Term::apps(Term::Const(g.ind(i).ctors[0], ls), args.take(p as int) + Term::projs(i, s, j)), ft),
            g.red(ft, Term::pi(n, bs, a, b)),
            k ==> (g.ty(false, a, q) && g.red(q, Term::Sort(z)) && z.is_zero() && fs.len() == j
                && forall|m: int| 0 <= m < j
                ==> g.ty(false, Term::apps(Term::Const(g.ind(i).ctors[0], ls),
                args.take(p as int) + Term::projs(i, s, m as nat)), (#[trigger] fs[m]).ft)
                && g.red(fs[m].ft, fs[m].pi())
                && (fs[m].b.nl() > 0
                ==> g.ty(false, fs[m].a, fs[m].q) && g.red(fs[m].q, Term::Sort(fs[m].z)) && fs[m].z.is_zero()))
                || (g.ty(false, st, sk) && g.red(sk, w) && (w matches Term::Sort(l) ==> !l.may_be_zero())),
        ensures
            g.ty(k, Term::proj(i, j, s), a),
    {
        assert forall|r: Rel| #[trigger] r.closed(g) implies (r.t)(k, Term::proj(i, j, s), a) by {
            assert(r.t_proj(g, k, i, j, s, st, ls, args, p, ft, n, bs, a, b, q, z, w, sk, fs));
        }
    }

    pub proof fn t_red(g: Sig, k: bool, t: Term, a: Term, b: Term)
        requires
            g.ty(k, t, a),
            g.red(a, b),
        ensures
            g.ty(k, t, b),
    {
        assert forall|r: Rel| #[trigger] r.closed(g) implies (r.t)(k, t, b) by {
            assert(r.t_red(g, k, t, a, b));
        }
    }

    pub proof fn u_sort(g: Sig, l: Lvl, m: Lvl)
        requires
            m.equiv(Lvl::Succ(Box::new(l))),
        ensures
            g.univ(Term::Sort(l), m),
    {
        assert forall|r: Rel| #[trigger] r.closed(g) implies (r.u)(Term::Sort(l), m) by {
            assert(r.u_sort(g, l, m));
        }
    }

    pub proof fn u_pi(g: Sig, n: u32, s: BinderStyle, a: Term, b: Term, x: Term, b2: Term, u: Lvl, v: Lvl, w: Lvl)
        requires
            g.univ(a, u),
            Term::fresh(x, b),
            x.nl() == 0,
            g.red(b.inst(0, seq![x]), b2),
            g.univ(b2, v),
            w.equiv(Lvl::IMax(Box::new(u), Box::new(v))),
        ensures
            g.univ(Term::pi(n, s, a, b), w),
    {
        assert forall|r: Rel| #[trigger] r.closed(g) implies (r.u)(Term::pi(n, s, a, b), w) by {
            assert(r.u_pi(g, n, s, a, b, x, b2, u, v, w));
        }
    }

    pub proof fn u_const(g: Sig, n: u32, ls: Seq<Lvl>, xs: Seq<Term>, st: Term, l: Lvl, es: Seq<ElimT>)
        requires
            g.ty(false, Term::apps(Term::Const(n, ls), xs), st),
            g.red(st, Term::Sort(l)),
        ensures
            g.univ(ElimT::spine(Term::Const(n, ls), es), l),
    {
        assert forall|r: Rel| #[trigger] r.closed(g) implies (r.u)(ElimT::spine(Term::Const(n, ls), es), l) by {
            assert(r.u_const(g, n, ls, xs, st, l, es));
        }
    }

    pub proof fn u_type(g: Sig, t: Term, st: Term, l: Lvl)
        requires
            g.ty(false, t, st),
            g.red(st, Term::Sort(l)),
        ensures
            g.univ(t, l),
    {
        assert forall|r: Rel| #[trigger] r.closed(g) implies (r.u)(t, l) by {
            assert(r.u_type(g, t, st, l));
        }
    }

    pub proof fn u_red(g: Sig, t: Term, t2: Term, l: Lvl)
        requires
            g.red(t, t2),
            g.univ(t2, l),
        ensures
            g.univ(t, l),
    {
        assert forall|r: Rel| #[trigger] r.closed(g) implies (r.u)(t, l) by {
            assert(r.u_red(g, t, t2, l));
        }
    }

    /// `a` reduces to `b` without bringing in conversion variables.
    pub open spec fn steps(self, a: Term, b: Term) -> bool {
        self.red(a, b) && b.bvb() <= a.bvb()
    }

    /// `t` has type `a`, which brings in no conversion variables.
    pub open spec fn has(self, t: Term, a: Term) -> bool {
        self.ty(false, t, a) && a.bvb() <= t.bvb()
    }

    pub proof fn steps_refl(g: Sig, a: Term)
        ensures
            g.steps(a, a),
    {
        Term::lemma_same_refl(a);
        Sig::r_same(g, a, a);
    }

    pub proof fn steps_trans(g: Sig, a: Term, b: Term, c: Term)
        requires
            g.steps(a, b),
            g.steps(b, c),
        ensures
            g.steps(a, c),
    {
        Sig::r_trans(g, a, b, c);
    }

    pub proof fn steps_app(g: Sig, f: Term, a: Term, f2: Term, a2: Term)
        requires
            g.steps(f, f2),
            g.steps(a, a2),
        ensures
            g.steps(Term::app(f, a), Term::app(f2, a2)),
    {
        Sig::r_app(g, f, a, f2, a2);
    }

    /// Reducing the function of an application.
    pub proof fn steps_fun(g: Sig, f: Term, a: Term, f2: Term)
        requires
            g.steps(f, f2),
        ensures
            g.steps(Term::app(f, a), Term::app(f2, a)),
    {
        Sig::steps_refl(g, a);
        Sig::steps_app(g, f, a, f2, a);
    }

    pub proof fn steps_proj(g: Sig, n: u32, i: nat, s: Term, s2: Term)
        requires
            g.steps(s, s2),
        ensures
            g.steps(Term::proj(n, i, s), Term::proj(n, i, s2)),
    {
        Sig::r_proj(g, n, i, s, s2);
    }

    /// Reducing the head of an application to several arguments.
    pub proof fn steps_apps(g: Sig, f: Term, f2: Term, args: Seq<Term>)
        requires
            g.steps(f, f2),
        ensures
            g.steps(Term::apps(f, args), Term::apps(f2, args)),
        decreases args.len(),
    {
        if args.len() > 0 {
            Sig::steps_apps(g, f, f2, args.drop_last());
            Sig::steps_fun(g, Term::apps(f, args.drop_last()), args.last(), Term::apps(f2, args.drop_last()));
        }
    }

    pub proof fn eq_refl(g: Sig, a: Term)
        ensures
            g.eq(a, a),
    {
        Term::lemma_same_refl(a);
        Sig::e_same(g, a, a);
    }

    /// Reducing the left side first.
    pub proof fn eq_left(g: Sig, a: Term, a2: Term, b: Term)
        requires
            g.red(a, a2),
            g.eq(a2, b),
        ensures
            g.eq(a, b),
    {
        Sig::steps_refl(g, b);
        Sig::e_red(g, a, a2, b, b);
    }

    /// Reducing the right side first.
    pub proof fn eq_right(g: Sig, a: Term, b: Term, b2: Term)
        requires
            g.red(b, b2),
            g.eq(a, b2),
        ensures
            g.eq(a, b),
    {
        Sig::steps_refl(g, a);
        Sig::e_red(g, a, a, b, b2);
    }
}

} // verus!
