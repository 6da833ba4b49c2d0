//! Interned expressions, literals and levels.
//!
//! A [`Store`] holds every expression once.  An expression is named by its
//! position, its parts lie below it, and the number of its loose variables and
//! whether it has free ones are recorded with it.
use crate::bignum::Nat;
use crate::error::TcError;
use crate::level::{Level, LevelPtr, Levels, LevelsPtr, NamePtr};
use crate::table::{copy_vec, SliceTable, Tab};
use crate::term::{BinderStyle, FVarId, Lvl, Term};
use vstd::prelude::*;

verus! {

/// Names an expression.
pub type ExprPtr = u32;

/// Names a natural number literal.
pub type BigUintPtr = u32;

/// Names a string literal.
pub type StringPtr = u32;

/// One expression, its parts named by position.
#[derive(Clone, Copy, PartialEq, Eq, Structural, Debug)]
#[allow(inconsistent_fields)]
pub enum Expr {
    Var { dbj_idx: u16 },
    Sort { level: LevelPtr },
    Const { name: NamePtr, levels: LevelsPtr },
    App { fun: ExprPtr, arg: ExprPtr },
    Lambda { binder_name: NamePtr, binder_style: BinderStyle, binder_type: ExprPtr, body: ExprPtr },
    Pi { binder_name: NamePtr, binder_style: BinderStyle, binder_type: ExprPtr, body: ExprPtr },
    Let { binder_name: NamePtr, binder_type: ExprPtr, val: ExprPtr, body: ExprPtr, nondep: bool },
    Proj { ty_name: NamePtr, idx: u32, structure: ExprPtr },
    NatLit { ptr: BigUintPtr },
    StringLit { ptr: StringPtr },
    Local { binder_name: NamePtr, binder_style: BinderStyle, binder_type: ExprPtr, id: FVarId },
}

/// An expression with what is recorded of it.
#[derive(Clone, Copy)]
pub struct Node {
    pub expr: Expr,
    /// One past its highest loose variable.
    pub lbr: u16,
    /// Whether a free variable occurs in it.
    pub fv: bool,
}

/// Expressions, literals and levels, each held once.
pub struct Store {
    lv: Levels,
    nats: SliceTable,
    strs: SliceTable,
    nodes: Vec<Node>,
    misc: Tab<u32>,
    lams: Tab<u32>,
    pis: Tab<u32>,
    lets: Tab<u32>,
    locals: Tab<u32>,
    g: Ghost<Seq<Term>>,
}

/// Ids of expressions stay below this bound.
pub const MAX_EXPRS: usize = 0x7fff_ffff;

impl BinderStyle {
    /// The style as a number.
    pub open spec fn code(self) -> u32 {
        match self {
            BinderStyle::Default => 0,
            BinderStyle::Implicit => 1,
            BinderStyle::StrictImplicit => 2,
            BinderStyle::InstanceImplicit => 3,
        }
    }

    fn num(self) -> (r: u32)
        ensures
            r == self.code(),
    {
        match self {
            BinderStyle::Default => 0,
            BinderStyle::Implicit => 1,
            BinderStyle::StrictImplicit => 2,
            BinderStyle::InstanceImplicit => 3,
        }
    }
}

impl Expr {
    /// Every part lies below `n`.
    pub open spec fn below(self, n: int) -> bool {
        match self {
            Expr::App { fun, arg } => fun < n && arg < n,
            Expr::Lambda { binder_type, body, .. } => binder_type < n && body < n,
            Expr::Pi { binder_type, body, .. } => binder_type < n && body < n,
            Expr::Let { binder_type, val, body, .. } => binder_type < n && val < n && body < n,
            Expr::Proj { structure, .. } => structure < n,
            Expr::Local { binder_type, .. } => binder_type < n,
            _ => true,
        }
    }
}

impl Store {
    // ---- names and what they stand for ----

    /// `e` names an expression.
    pub closed spec fn e_ok(&self, e: ExprPtr) -> bool {
        e < self.g@.len()
    }

    /// The term `e` names.
    pub closed spec fn e(&self, e: ExprPtr) -> Term {
        self.g@[e as int]
    }

    /// `l` names a level.
    pub closed spec fn l_ok(&self, l: LevelPtr) -> bool {
        self.lv.ok(l)
    }

    /// The level `l` names.
    pub closed spec fn l(&self, l: LevelPtr) -> Lvl {
        self.lv.l(l)
    }

    /// `ls` names a list of levels.
    pub closed spec fn ls_ok(&self, ls: LevelsPtr) -> bool {
        self.lv.ls_ok(ls)
    }

    /// The list `ls` names.
    pub closed spec fn ls(&self, ls: LevelsPtr) -> Seq<Lvl> {
        self.lv.ls(ls)
    }

    /// `p` names a natural number.
    pub closed spec fn n_ok(&self, p: BigUintPtr) -> bool {
        p < self.nats@.len()
    }

    /// The number `p` names.
    pub closed spec fn n(&self, p: BigUintPtr) -> nat {
        Nat::of_words(self.nats@[p as int])
    }

    /// `p` names a string.
    pub closed spec fn s_ok(&self, p: StringPtr) -> bool {
        p < self.strs@.len()
    }

    /// The string `p` names, as code points.
    pub closed spec fn s(&self, p: StringPtr) -> Seq<u32> {
        Nat::narrow(self.strs@[p as int])
    }

    /// The parts of `x` are named, and the types of free variables closed.
    pub open spec fn parts_ok(&self, x: Expr) -> bool {
        match x {
            Expr::Var { dbj_idx } => dbj_idx < 0xffff,
            Expr::Sort { level } => self.l_ok(level),
            Expr::Const { levels, .. } => self.ls_ok(levels),
            Expr::App { fun, arg } => self.e_ok(fun) && self.e_ok(arg),
            Expr::Lambda { binder_type, body, .. } => self.e_ok(binder_type) && self.e_ok(body),
            Expr::Pi { binder_type, body, .. } => self.e_ok(binder_type) && self.e_ok(body),
            Expr::Let { binder_type, val, body, .. } => self.e_ok(binder_type) && self.e_ok(val) && self.e_ok(
                body,
            ),
            Expr::Proj { structure, .. } => self.e_ok(structure),
            Expr::NatLit { ptr } => self.n_ok(ptr),
            Expr::StringLit { ptr } => self.s_ok(ptr),
            Expr::Local { binder_type, .. } => self.e_ok(binder_type) && self.e(binder_type).nl() == 0,
        }
    }

    /// What `x` stands for.
    pub open spec fn meaning(&self, x: Expr) -> Term {
        match x {
            Expr::Var { dbj_idx } => Term::Var(dbj_idx as nat),
            Expr::Sort { level } => Term::Sort(self.l(level)),
            Expr::Const { name, levels } => Term::Const(name, self.ls(levels)),
            Expr::App { fun, arg } => Term::app(self.e(fun), self.e(arg)),
            Expr::Lambda { binder_name, binder_style, binder_type, body } => Term::lam(
                binder_name,
                binder_style,
                self.e(binder_type),
                self.e(body),
            ),
            Expr::Pi { binder_name, binder_style, binder_type, body } => Term::pi(
                binder_name,
                binder_style,
                self.e(binder_type),
                self.e(body),
            ),
            Expr::Let { binder_name, binder_type, val, body, nondep } => Term::let_in(
                binder_name,
                nondep,
                self.e(binder_type),
                self.e(val),
                self.e(body),
            ),
            Expr::Proj { ty_name, idx, structure } => Term::proj(ty_name, idx as nat, self.e(structure)),
            Expr::NatLit { ptr } => Term::Nat(self.n(ptr)),
            Expr::StringLit { ptr } => Term::Str(self.s(ptr)),
            Expr::Local { binder_name, binder_style, binder_type, id } => Term::local(
                id,
                binder_name,
                binder_style,
                self.e(binder_type),
            ),
        }
    }

    /// `e` is an expression of the form `x`.
    pub open spec fn shape(&self, e: ExprPtr, x: Expr) -> bool {
        &&& self.parts_ok(x)
        &&& x.below(e as int)
        &&& self.e(e) == self.meaning(x)
    }

    /// Where `x` is held.
    closed spec fn find(&self, x: Expr) -> Option<u32> {
        match x {
            Expr::Var { dbj_idx } => Store::at(self.misc@, (0, dbj_idx as u32, 0, 0)),
            Expr::Sort { level } => Store::at(self.misc@, (1, level, 0, 0)),
            Expr::Const { name, levels } => Store::at(self.misc@, (2, name, levels, 0)),
            Expr::App { fun, arg } => Store::at(self.misc@, (3, fun, arg, 0)),
            Expr::Proj { ty_name, idx, structure } => Store::at(self.misc@, (4, ty_name, idx, structure)),
            Expr::NatLit { ptr } => Store::at(self.misc@, (5, ptr, 0, 0)),
            Expr::StringLit { ptr } => Store::at(self.misc@, (6, ptr, 0, 0)),
            Expr::Lambda { binder_name, binder_style, binder_type, body } => Store::at(
                self.lams@,
                (binder_name, binder_style.code(), binder_type, body),
            ),
            Expr::Pi { binder_name, binder_style, binder_type, body } => Store::at(
                self.pis@,
                (binder_name, binder_style.code(), binder_type, body),
            ),
            Expr::Let { binder_name, binder_type, val, body, nondep } => if body > MAX_EXPRS {
                None
            } else {
                Store::at(self.lets@, (binder_name, binder_type, val, Store::flag_word(body, nondep)))
            },
            Expr::Local { binder_name, binder_style, binder_type, id } => Store::at(
                self.locals@,
                (binder_name, Store::style_word(binder_style, id), binder_type, Store::id_word(id)),
            ),
        }
    }

    closed spec fn at(m: Map<(u32, u32, u32, u32), u32>, k: (u32, u32, u32, u32)) -> Option<u32> {
        if m.contains_key(k) {
            Some(m[k])
        } else {
            None
        }
    }

    closed spec fn flag_word(body: u32, nondep: bool) -> u32 {
        (2 * body + if nondep { 1int } else { 0 }) as u32
    }

    closed spec fn style_word(s: BinderStyle, id: FVarId) -> u32 {
        (s.code() + if id is Unique { 4int } else { 0 }) as u32
    }

    closed spec fn id_word(id: FVarId) -> u32 {
        match id {
            FVarId::DbjLevel(l) => l,
            FVarId::Unique(u) => u,
        }
    }

    /// Every expression denotes what its form says, is recorded as it is, and
    /// is held once.
    pub closed spec fn wf(&self) -> bool {
        &&& self.lv.wf()
        &&& self.nats.wf()
        &&& self.strs.wf()
        &&& forall|i: int| 0 <= i < self.nats@.len() ==> Nat::words_ok(#[trigger] self.nats@[i])
        &&& forall|i: int, j: int|
            0 <= i < self.strs@.len() && 0 <= j < self.strs@[i].len() ==> #[trigger] self.strs@[i][j] <= u32::MAX
        &&& self.nodes@.len() == self.g@.len()
        &&& self.nodes@.len() <= MAX_EXPRS
        &&& forall|i: int| 0 <= i < self.nodes@.len() ==> self.node_ok(i, #[trigger] self.nodes@[i])
        &&& forall|i: int| 0 <= i < self.nodes@.len() ==> self.find((#[trigger] self.nodes@[i]).expr) == Some(i as u32)
        &&& forall|x: Expr|
            (#[trigger] self.find(x)) is Some
                ==> self.find(x)->0 < self.nodes@.len() && self.nodes@[self.find(x)->0 as int].expr
                == x
    }

    closed spec fn node_ok(&self, i: int, n: Node) -> bool {
        &&& self.parts_ok(n.expr)
        &&& n.expr.below(i)
        &&& self.g@[i] == self.meaning(n.expr)
        &&& n.lbr == self.g@[i].nl()
        &&& n.fv == self.g@[i].has_fv()
    }

    /// Everything named in `o` is named in `self`, with the same meaning.
    pub open spec fn ext(&self, o: &Store) -> bool {
        &&& forall|i: u32| #[trigger] o.e_ok(i) ==> self.e_ok(i)
        &&& forall|i: u32| o.e_ok(i) ==> #[trigger] self.e(i) == o.e(i)
        &&& self.ext_lits(o)
    }

    /// The levels and literals of `o` are named in `self`, with the same
    /// meaning.
    pub open spec fn ext_lits(&self, o: &Store) -> bool {
        &&& forall|i: u32| #[trigger] o.l_ok(i) ==> self.l_ok(i)
        &&& forall|i: u32| o.l_ok(i) ==> #[trigger] self.l(i) == o.l(i)
        &&& forall|i: u32| #[trigger] o.ls_ok(i) ==> self.ls_ok(i)
        &&& forall|i: u32| o.ls_ok(i) ==> #[trigger] self.ls(i) == o.ls(i)
        &&& forall|i: u32| #[trigger] o.n_ok(i) ==> self.n_ok(i)
        &&& forall|i: u32| o.n_ok(i) ==> #[trigger] self.n(i) == o.n(i)
        &&& forall|i: u32| #[trigger] o.s_ok(i) ==> self.s_ok(i)
        &&& forall|i: u32| o.s_ok(i) ==> #[trigger] self.s(i) == o.s(i)
    }

    pub proof fn lemma_ext_refl(&self)
        ensures
            self.ext(self),
    {
    }

    /// A node keeps its meaning as levels and literals are added.
    proof fn lemma_nodes_keep(&self, o: &Store)
        requires
            o.wf(),
            self.ext_lits(o),
            self.g@ == o.g@,
            self.nodes@ == o.nodes@,
        ensures
            forall|i: int| 0 <= i < self.nodes@.len() ==> self.node_ok(i, #[trigger] self.nodes@[i]),
    {
        assert forall|i: int| 0 <= i < self.nodes@.len() implies self.node_ok(i, #[trigger] self.nodes@[i]) by {
            assert(o.node_ok(i, o.nodes@[i]));
            assert forall|e: u32| o.e_ok(e) implies #[trigger] self.e(e) == o.e(e) by {
            }
        }
    }

    /// Two names of one level are equal.
    pub proof fn lemma_l_injective(&self, a: LevelPtr, b: LevelPtr)
        requires
            self.wf(),
            self.l_ok(a),
            self.l_ok(b),
            self.l(a) == self.l(b),
        ensures
            a == b,
    {
        self.lv.lemma_injective(a, b);
    }

    /// Two names of one natural number are equal.
    pub proof fn lemma_n_injective(&self, a: BigUintPtr, b: BigUintPtr)
        requires
            self.wf(),
            self.n_ok(a),
            self.n_ok(b),
            self.n(a) == self.n(b),
        ensures
            a == b,
    {
        self.nats.lemma_wf();
        assert(Nat::words_ok(self.nats@[a as int]));
        assert(Nat::words_ok(self.nats@[b as int]));
        Nat::lemma_words_unique(self.nats@[a as int], self.nats@[b as int]);
    }

    /// Two names of one string are equal.
    pub proof fn lemma_s_injective(&self, a: StringPtr, b: StringPtr)
        requires
            self.wf(),
            self.s_ok(a),
            self.s_ok(b),
            self.s(a) == self.s(b),
        ensures
            a == b,
    {
        self.strs.lemma_wf();
        let x = self.strs@[a as int];
        let y = self.strs@[b as int];
        assert(self.s(a).len() == x.len());
        assert(self.s(b).len() == y.len());
        assert forall|i: int| 0 <= i < x.len() implies x[i] == y[i] by {
            assert(self.s(a)[i] == x[i] as u32);
            assert(self.s(b)[i] == y[i] as u32);
            assert(self.strs@[a as int][i] <= u32::MAX);
            assert(self.strs@[b as int][i] <= u32::MAX);
        }
        assert(x =~= y);
    }

    /// Two names of one term are equal.
    pub proof fn lemma_e_injective(&self, a: ExprPtr, b: ExprPtr)
        requires
            self.wf(),
            self.e_ok(a),
            self.e_ok(b),
            self.e(a) == self.e(b),
        ensures
            a == b,
        decreases a,
    {
        let x = self.nodes@[a as int].expr;
        let y = self.nodes@[b as int].expr;
        assert(self.node_ok(a as int, self.nodes@[a as int]));
        assert(self.node_ok(b as int, self.nodes@[b as int]));
        match (x, y) {
            (Expr::Sort { level: l }, Expr::Sort { level: m }) => {
                self.lv.lemma_injective(l, m);
            },
            (Expr::Const { levels: l, .. }, Expr::Const { levels: m, .. }) => {
                self.lv.lemma_ls_injective(l, m);
            },
            (Expr::App { fun: f, arg: p }, Expr::App { fun: g, arg: q }) => {
                self.lemma_e_injective(f, g);
                self.lemma_e_injective(p, q);
            },
            (
                Expr::Lambda { binder_type: f, body: p, .. },
                Expr::Lambda { binder_type: g, body: q, .. },
            ) => {
                self.lemma_e_injective(f, g);
                self.lemma_e_injective(p, q);
            },
            (Expr::Pi { binder_type: f, body: p, .. }, Expr::Pi { binder_type: g, body: q, .. }) => {
                self.lemma_e_injective(f, g);
                self.lemma_e_injective(p, q);
            },
            (
                Expr::Let { binder_type: f, val: v, body: p, .. },
                Expr::Let { binder_type: g, val: w, body: q, .. },
            ) => {
                self.lemma_e_injective(f, g);
                self.lemma_e_injective(v, w);
                self.lemma_e_injective(p, q);
            },
            (Expr::Proj { structure: p, .. }, Expr::Proj { structure: q, .. }) => {
                self.lemma_e_injective(p, q);
            },
            (Expr::NatLit { ptr: p }, Expr::NatLit { ptr: q }) => {
                self.lemma_n_injective(p, q);
            },
            (Expr::StringLit { ptr: p }, Expr::StringLit { ptr: q }) => {
                self.lemma_s_injective(p, q);
            },
            (Expr::Local { binder_type: p, .. }, Expr::Local { binder_type: q, .. }) => {
                self.lemma_e_injective(p, q);
            },
            _ => {},
        }
        assert(x == y);
        assert(self.find(x) == Some(a));
        assert(self.find(y) == Some(b));
    }

    /// A store holding nothing.
    pub fn new() -> (r: Self)
        ensures
            r.wf(),
    {
        let r = Store {
            lv: Levels::new(),
            nats: SliceTable::new(),
            strs: SliceTable::new(),
            nodes: Vec::new(),
            misc: Tab::new(),
            lams: Tab::new(),
            pis: Tab::new(),
            lets: Tab::new(),
            locals: Tab::new(),
            g: Ghost(Seq::empty()),
        };
        r
    }

    /// The same expressions, literals and levels under the same names.
    pub fn copy(&self) -> (r: Self)
        requires
            self.wf(),
        ensures
            r.wf(),
            r.ext(self),
            self.ext(&r),
    {
        let r = Store {
            lv: self.lv.copy(),
            nats: self.nats.copy(),
            strs: self.strs.copy(),
            nodes: copy_vec(&self.nodes),
            misc: self.misc.copy(),
            lams: self.lams.copy(),
            pis: self.pis.copy(),
            lets: self.lets.copy(),
            locals: self.locals.copy(),
            g: Ghost(self.g@),
        };
        proof {
            assert forall|i: int| 0 <= i < r.nodes@.len() implies r.node_ok(i, #[trigger] r.nodes@[i]) by {
                assert(self.node_ok(i, self.nodes@[i]));
            }
            assert forall|x: Expr| #[trigger] r.find(x) == self.find(x) by {}
        }
        r
    }

    // ---- reading ----

    /// The form `e` is held in.
    pub closed spec fn node(&self, e: ExprPtr) -> Expr {
        self.nodes@[e as int].expr
    }

    /// The form of `e`.
    pub fn read_expr(&self, e: ExprPtr) -> (r: Expr)
        requires
            self.wf(),
            self.e_ok(e),
        ensures
            self.shape(e, r),
            r == self.node(e),
    {
        proof {
            assert(self.node_ok(e as int, self.nodes@[e as int]));
        }
        self.nodes[e as usize].expr
    }

    /// Whether `e` names an expression without loose variables.
    pub fn has_closed(&self, e: ExprPtr) -> (r: bool)
        requires
            self.wf(),
        ensures
            r == (self.e_ok(e) && self.e(e).nl() == 0),
    {
        (e as usize) < self.nodes.len() && self.num_loose_bvars(e) == 0
    }

    /// Whether `ls` names a list of levels.
    pub fn has_levels(&self, ls: LevelsPtr) -> (r: bool)
        requires
            self.wf(),
        ensures
            r == self.ls_ok(ls),
    {
        self.lv.has_list(ls)
    }

    /// One past the highest loose variable of `e`.
    pub fn num_loose_bvars(&self, e: ExprPtr) -> (r: u16)
        requires
            self.wf(),
            self.e_ok(e),
        ensures
            r == self.e(e).nl(),
    {
        proof {
            assert(self.node_ok(e as int, self.nodes@[e as int]));
        }
        self.nodes[e as usize].lbr
    }

    /// Whether a free variable occurs in `e`.
    pub fn has_fvars(&self, e: ExprPtr) -> (r: bool)
        requires
            self.wf(),
            self.e_ok(e),
        ensures
            r == self.e(e).has_fv(),
    {
        proof {
            assert(self.node_ok(e as int, self.nodes@[e as int]));
        }
        self.nodes[e as usize].fv
    }

    /// What is recorded of an expression of the form `x`.
    fn facts(&self, x: Expr) -> (r: (u16, bool))
        requires
            self.wf(),
            self.parts_ok(x),
        ensures
            r.0 == self.meaning(x).nl(),
            r.1 == self.meaning(x).has_fv(),
    {
        match x {
            Expr::Var { dbj_idx } => (dbj_idx + 1, false),
            Expr::Sort { .. } => (0, false),
            Expr::Const { .. } => (0, false),
            Expr::NatLit { .. } => (0, false),
            Expr::StringLit { .. } => (0, false),
            Expr::Local { .. } => (0, true),
            Expr::Proj { structure, .. } => (self.num_loose_bvars(structure), self.has_fvars(structure)),
            Expr::App { fun, arg } => (
                Store::larger(self.num_loose_bvars(fun), self.num_loose_bvars(arg)),
                self.has_fvars(fun) || self.has_fvars(arg),
            ),
            Expr::Lambda { binder_type, body, .. } => (
                Store::larger(self.num_loose_bvars(binder_type), Store::under(self.num_loose_bvars(body))),
                self.has_fvars(binder_type) || self.has_fvars(body),
            ),
            Expr::Pi { binder_type, body, .. } => (
                Store::larger(self.num_loose_bvars(binder_type), Store::under(self.num_loose_bvars(body))),
                self.has_fvars(binder_type) || self.has_fvars(body),
            ),
            Expr::Let { binder_type, val, body, .. } => (
                Store::larger(
                    Store::larger(self.num_loose_bvars(binder_type), self.num_loose_bvars(val)),
                    Store::under(self.num_loose_bvars(body)),
                ),
                self.has_fvars(binder_type) || self.has_fvars(val) || self.has_fvars(body),
            ),
        }
    }

    fn larger(a: u16, b: u16) -> (r: u16)
        ensures
            r == Term::max(a as nat, b as nat),
    {
        if a >= b {
            a
        } else {
            b
        }
    }

    fn under(a: u16) -> (r: u16)
        ensures
            r == Term::pred(a as nat),
    {
        if a == 0 {
            0
        } else {
            a - 1
        }
    }

    // ---- building ----

    fn lookup_expr(&self, x: Expr) -> (r: Option<u32>)
        requires
            self.wf(),
            self.parts_ok(x),
        ensures
            r == self.find(x),
    {
        match x {
            Expr::Var { dbj_idx } => self.misc.get((0, dbj_idx as u32, 0, 0)),
            Expr::Sort { level } => self.misc.get((1, level, 0, 0)),
            Expr::Const { name, levels } => self.misc.get((2, name, levels, 0)),
            Expr::App { fun, arg } => self.misc.get((3, fun, arg, 0)),
            Expr::Proj { ty_name, idx, structure } => self.misc.get((4, ty_name, idx, structure)),
            Expr::NatLit { ptr } => self.misc.get((5, ptr, 0, 0)),
            Expr::StringLit { ptr } => self.misc.get((6, ptr, 0, 0)),
            Expr::Lambda { binder_name, binder_style, binder_type, body } => self.lams.get(
                (binder_name, binder_style.num(), binder_type, body),
            ),
            Expr::Pi { binder_name, binder_style, binder_type, body } => self.pis.get(
                (binder_name, binder_style.num(), binder_type, body),
            ),
            Expr::Let { binder_name, binder_type, val, body, nondep } => self.lets.get(
                (binder_name, binder_type, val, 2 * body + if nondep { 1u32 } else { 0 }),
            ),
            Expr::Local { binder_name, binder_style, binder_type, id } => match id {
                FVarId::DbjLevel(l) => self.locals.get((binder_name, binder_style.num(), binder_type, l)),
                FVarId::Unique(u) => self.locals.get((binder_name, binder_style.num() + 4, binder_type, u)),
            },
        }
    }

    fn put(&mut self, x: Expr, id: u32)
        requires
            old(self).wf(),
            old(self).parts_ok(x),
        ensures
            final(self).find(x) == Some(id),
            forall|y: Expr| y != x ==> #[trigger] final(self).find(y) == old(self).find(y),
            final(self).lv == old(self).lv,
            final(self).nats == old(self).nats,
            final(self).strs == old(self).strs,
            final(self).nodes == old(self).nodes,
            final(self).g == old(self).g,
    {
        match x {
            Expr::Var { dbj_idx } => self.misc.insert((0, dbj_idx as u32, 0, 0), id),
            Expr::Sort { level } => self.misc.insert((1, level, 0, 0), id),
            Expr::Const { name, levels } => self.misc.insert((2, name, levels, 0), id),
            Expr::App { fun, arg } => self.misc.insert((3, fun, arg, 0), id),
            Expr::Proj { ty_name, idx, structure } => self.misc.insert((4, ty_name, idx, structure), id),
            Expr::NatLit { ptr } => self.misc.insert((5, ptr, 0, 0), id),
            Expr::StringLit { ptr } => self.misc.insert((6, ptr, 0, 0), id),
            Expr::Lambda { binder_name, binder_style, binder_type, body } => self.lams.insert(
                (binder_name, binder_style.num(), binder_type, body),
                id,
            ),
            Expr::Pi { binder_name, binder_style, binder_type, body } => self.pis.insert(
                (binder_name, binder_style.num(), binder_type, body),
                id,
            ),
            Expr::Let { binder_name, binder_type, val, body, nondep } => self.lets.insert(
                (binder_name, binder_type, val, 2 * body + if nondep { 1u32 } else { 0 }),
                id,
            ),
            Expr::Local { binder_name, binder_style, binder_type, id: v } => match v {
                FVarId::DbjLevel(l) => self.locals.insert((binder_name, binder_style.num(), binder_type, l), id),
                FVarId::Unique(u) => self.locals.insert((binder_name, binder_style.num() + 4, binder_type, u), id),
            },
        }
    }

    /// The name of an expression of the form `x`, appended if it is new.
    pub fn mk(&mut self, x: Expr) -> (r: Result<ExprPtr, TcError>)
        requires
            old(self).wf(),
            old(self).parts_ok(x),
        ensures
            final(self).wf(),
            final(self).ext(old(self)),
            r matches Ok(e) ==> final(self).e_ok(e) && final(self).e(e) == old(self).meaning(x),
            r is Err ==> r == Err::<ExprPtr, TcError>(TcError::Full),
    {
        match self.lookup_expr(x) {
            Some(i) => {
                proof {
                    assert(self.node_ok(i as int, self.nodes@[i as int]));
                }
                return Ok(i);
            },
            None => {},
        }
        if self.nodes.len() >= MAX_EXPRS {
            return Err(TcError::Full);
        }
        let f = self.facts(x);
        let id: u32 = self.nodes.len() as u32;
        let ghost t = self.meaning(x);
        self.put(x, id);
        let ghost s1 = *self;
        self.nodes.push(Node { expr: x, lbr: f.0, fv: f.1 });
        self.g = Ghost(self.g@.push(t));
        proof {
            let o = *old(self);
            assert(self.ext(&o));
            assert forall|y: Expr| #[trigger] self.find(y) == s1.find(y) by {
            }
            assert(self.meaning(x) == t);
            assert forall|i: int| 0 <= i < self.nodes@.len() implies self.node_ok(i, #[trigger] self.nodes@[i]) by {
                if i < o.nodes@.len() {
                    assert(o.node_ok(i, o.nodes@[i]));
                }
            }
            assert forall|i: int| 0 <= i < self.nodes@.len() implies self.find((#[trigger] self.nodes@[i]).expr)
                == Some(i as u32) by {
                if i < o.nodes@.len() {
                    assert(o.find(o.nodes@[i].expr) == Some(i as u32));
                    assert(o.nodes@[i].expr != x);
                }
            }
            assert forall|y: Expr| (#[trigger] self.find(y)) is Some implies self.find(y)->0 < self.nodes@.len()
                && self.nodes@[self.find(y)->0 as int].expr == y by {
                if y != x {
                    assert(o.find(y) is Some);
                }
            }
        }
        Ok(id)
    }

    // ---- levels ----

    /// The store stays well formed as levels are added.
    proof fn lemma_lv_step(&self, o: &Store)
        requires
            o.wf(),
            self.lv.wf(),
            self.lv.ext(&o.lv),
            self.nats == o.nats,
            self.strs == o.strs,
            self.nodes == o.nodes,
            self.g == o.g,
            self.misc == o.misc,
            self.lams == o.lams,
            self.pis == o.pis,
            self.lets == o.lets,
            self.locals == o.locals,
        ensures
            self.wf(),
            self.ext(o),
    {
        self.lemma_nodes_keep(o);
        assert forall|x: Expr| #[trigger] self.find(x) == o.find(x) by {
        }
    }

    /// The level zero.
    pub fn zero(&mut self) -> (r: Result<u32, TcError>)
        requires
            old(self).wf(),
        ensures
            final(self).wf(),
            final(self).ext(old(self)),
            r matches Ok(i) ==> final(self).l_ok(i) && final(self).l(i) == Lvl::Zero,
            r is Err ==> r == Err::<u32, TcError>(TcError::Full),
    {
        let r = self.lv.zero();
        proof {
            self.lemma_lv_step(old(self));
        }
        r
    }

    /// A level parameter.
    pub fn param(&mut self, n: NamePtr) -> (r: Result<u32, TcError>)
        requires
            old(self).wf(),
        ensures
            final(self).wf(),
            final(self).ext(old(self)),
            r matches Ok(i) ==> final(self).l_ok(i) && final(self).l(i) == Lvl::Param(n),
            r is Err ==> r == Err::<u32, TcError>(TcError::Full),
    {
        let r = self.lv.mk(Level::Param(n));
        proof {
            self.lemma_lv_step(old(self));
        }
        r
    }

    /// The successor of a level.
    pub fn succ(&mut self, a: LevelPtr) -> (r: Result<u32, TcError>)
        requires
            old(self).wf(),
            old(self).l_ok(a),
        ensures
            final(self).wf(),
            final(self).ext(old(self)),
            r matches Ok(i) ==> final(self).l_ok(i) && final(self).l(i) == Lvl::succ(old(self).l(a)),
            r is Err ==> r == Err::<u32, TcError>(TcError::Full),
    {
        let r = self.lv.succ(a);
        proof {
            self.lemma_lv_step(old(self));
        }
        r
    }

    /// The maximum of two levels.
    pub fn max(&mut self, a: LevelPtr, b: LevelPtr) -> (r: Result<u32, TcError>)
        requires
            old(self).wf(),
            old(self).l_ok(a),
            old(self).l_ok(b),
        ensures
            final(self).wf(),
            final(self).ext(old(self)),
            r matches Ok(i) ==> final(self).l_ok(i) && final(self).l(i) == Lvl::lmax(old(self).l(a), old(self).l(b)),
            r is Err ==> r == Err::<u32, TcError>(TcError::Full),
    {
        let r = self.lv.mk(Level::Max(a, b));
        proof {
            self.lemma_lv_step(old(self));
        }
        r
    }

    /// The impredicative maximum of two levels.
    pub fn imax(&mut self, a: LevelPtr, b: LevelPtr) -> (r: Result<u32, TcError>)
        requires
            old(self).wf(),
            old(self).l_ok(a),
            old(self).l_ok(b),
        ensures
            final(self).wf(),
            final(self).ext(old(self)),
            r matches Ok(i) ==> final(self).l_ok(i) && final(self).l(i) == Lvl::imax(old(self).l(a), old(self).l(b)),
            r is Err ==> r == Err::<u32, TcError>(TcError::Full),
    {
        let r = self.lv.imax(a, b);
        proof {
            self.lemma_lv_step(old(self));
        }
        r
    }

    /// An equivalent level without superfluous structure.
    pub fn simplify(&mut self, l: LevelPtr) -> (r: Result<u32, TcError>)
        requires
            old(self).wf(),
            old(self).l_ok(l),
        ensures
            final(self).wf(),
            final(self).ext(old(self)),
            r matches Ok(i) ==> final(self).l_ok(i) && final(self).l(i) == old(self).l(l).simp()
                && final(self).l(i).equiv(old(self).l(l)),
            r is Err ==> r == Err::<u32, TcError>(TcError::Full),
    {
        let r = self.lv.simplify(l);
        proof {
            self.lemma_lv_step(old(self));
        }
        r
    }

    /// `l` with the parameters `ks` replaced by the levels `vs`.
    pub fn subst_level(&mut self, l: LevelPtr, ks: LevelsPtr, vs: LevelsPtr) -> (r: Result<u32, TcError>)
        requires
            old(self).wf(),
            old(self).l_ok(l),
            old(self).ls_ok(ks),
            old(self).ls_ok(vs),
        ensures
            final(self).wf(),
            final(self).ext(old(self)),
            r matches Ok(i) ==> final(self).l_ok(i)
                && final(self).l(i) == old(self).l(l).subst(old(self).ls(ks), old(self).ls(vs)),
            r is Err ==> r == Err::<u32, TcError>(TcError::Full),
    {
        let r = self.lv.subst(l, ks, vs);
        proof {
            self.lemma_lv_step(old(self));
        }
        r
    }

    /// A list with the parameters `ks` replaced by the levels `vs`.
    pub fn subst_levels(&mut self, ls: LevelsPtr, ks: LevelsPtr, vs: LevelsPtr) -> (r: Result<u32, TcError>)
        requires
            old(self).wf(),
            old(self).ls_ok(ls),
            old(self).ls_ok(ks),
            old(self).ls_ok(vs),
        ensures
            final(self).wf(),
            final(self).ext(old(self)),
            r matches Ok(i) ==> final(self).ls_ok(i)
                && final(self).ls(i) == Lvl::subst_seq(old(self).ls(ls), old(self).ls(ks), old(self).ls(vs)),
            r is Err ==> r == Err::<u32, TcError>(TcError::Full),
    {
        let r = self.lv.subst_levels(ls, ks, vs);
        proof {
            self.lemma_lv_step(old(self));
        }
        r
    }

    /// The list of the levels `v`.
    pub fn alloc_levels_slice(&mut self, v: &Vec<LevelPtr>) -> (r: Result<u32, TcError>)
        requires
            old(self).wf(),
            forall|j: int| 0 <= j < v@.len() ==> old(self).l_ok(#[trigger] v@[j]),
        ensures
            final(self).wf(),
            final(self).ext(old(self)),
            r matches Ok(i) ==> final(self).ls_ok(i) && final(self).ls(i) == old(self).list(v@),
            r is Err ==> r == Err::<u32, TcError>(TcError::Full),
    {
        proof {
            assert(self.lv.list(v@) =~= self.list(v@));
        }
        let r = self.lv.alloc_levels_slice(v);
        proof {
            self.lemma_lv_step(old(self));
        }
        r
    }

    /// Whether two levels are equivalent.
    pub fn eq_antisymm(&mut self, a: LevelPtr, b: LevelPtr) -> (r: Result<bool, TcError>)
        requires
            old(self).wf(),
            old(self).l_ok(a),
            old(self).l_ok(b),
        ensures
            r matches Err(e) ==> !(e is Reject),
            final(self).wf(),
            final(self).ext(old(self)),
            r matches Ok(true) ==> old(self).l(a).equiv(old(self).l(b)),
            a == b ==> r == Ok::<bool, TcError>(true),
    {
        let r = self.lv.eq_antisymm(a, b);
        proof {
            self.lemma_lv_step(old(self));
        }
        r
    }

    /// Whether two lists are equivalent level by level.
    pub fn eq_antisymm_many(&mut self, a: LevelsPtr, b: LevelsPtr) -> (r: Result<bool, TcError>)
        requires
            old(self).wf(),
            old(self).ls_ok(a),
            old(self).ls_ok(b),
        ensures
            r matches Err(e) ==> !(e is Reject),
            final(self).wf(),
            final(self).ext(old(self)),
            r matches Ok(true) ==> Lvl::equiv_seq(old(self).ls(a), old(self).ls(b)),
            a == b ==> r == Ok::<bool, TcError>(true),
    {
        let r = self.lv.eq_antisymm_many(a, b);
        proof {
            self.lemma_lv_step(old(self));
        }
        r
    }

    /// Whether a level is zero whatever its parameters stand for.
    pub fn is_zero(&mut self, l: LevelPtr) -> (r: Result<bool, TcError>)
        requires
            old(self).wf(),
            old(self).l_ok(l),
        ensures
            r matches Err(e) ==> !(e is Reject),
            final(self).wf(),
            final(self).ext(old(self)),
            r matches Ok(b) ==> b == old(self).l(l).is_zero(),
            old(self).l(l) == Lvl::Zero ==> r == Ok::<bool, TcError>(true),
    {
        let r = self.lv.is_zero(l);
        proof {
            self.lemma_lv_step(old(self));
        }
        r
    }

    /// What the ids `v` name.
    pub open spec fn list(&self, v: Seq<LevelPtr>) -> Seq<Lvl> {
        Seq::new(v.len(), |j: int| self.l(v[j]))
    }

    /// The ids `v` name the levels `s`, in order.
    pub open spec fn list_is(&self, v: Seq<LevelPtr>, s: Seq<Lvl>) -> bool {
        v.len() == s.len() && forall|j: int|
            0 <= j < v.len() ==> self.l_ok(#[trigger] v[j]) && self.l(v[j]) == s[j]
    }

    /// The levels of a list.
    pub fn read_levels(&self, ls: LevelsPtr) -> (r: Vec<LevelPtr>)
        requires
            self.wf(),
            self.ls_ok(ls),
        ensures
            self.list_is(r@, self.ls(ls)),
    {
        let r = self.lv.read_levels(ls);
        proof {
            assert forall|j: int| 0 <= j < r@.len() implies self.l_ok(#[trigger] r@[j]) && self.l(r@[j]) == self.ls(
                ls,
            )[j] by {
                assert(self.lv.ok(r@[j]));
            }
        }
        r
    }

    /// The number of levels in a list.
    pub fn levels_len(&self, ls: LevelsPtr) -> (r: usize)
        requires
            self.wf(),
            self.ls_ok(ls),
        ensures
            r == self.ls(ls).len(),
    {
        self.lv.levels_len(ls)
    }

    /// Whether an instantiation of its parameters may send the level to zero.
    pub fn may_be_prop(&self, l: LevelPtr) -> (r: bool)
        requires
            self.wf(),
            self.l_ok(l),
        ensures
            r == self.l(l).may_be_zero(),
    {
        self.lv.may_be_zero(l)
    }

    /// Whether every parameter of `l` is among the levels `ps`.
    pub fn all_uparams_defined(&self, l: LevelPtr, ps: LevelsPtr) -> (r: bool)
        requires
            self.wf(),
            self.l_ok(l),
            self.ls_ok(ps),
        ensures
            r == self.l(l).params_in(self.ls(ps)),
    {
        self.lv.params_in(l, ps)
    }

    /// Whether a list holds only parameters, none of them twice.
    pub fn no_dupes_all_params(&self, ls: LevelsPtr) -> (r: bool)
        requires
            self.wf(),
            self.ls_ok(ls),
        ensures
            r == (self.ls(ls).no_duplicates() && forall|i: int|
                0 <= i < self.ls(ls).len() ==> #[trigger] self.ls(ls)[i] is Param),
    {
        self.lv.no_dupes_all_params(ls)
    }

    // ---- literals ----

    /// The name of a natural number.
    pub fn alloc_bignum(&mut self, n: &Nat) -> (r: Result<BigUintPtr, TcError>)
        requires
            old(self).wf(),
            n.wf(),
        ensures
            final(self).wf(),
            final(self).ext(old(self)),
            r matches Ok(p) ==> final(self).n_ok(p) && final(self).n(p) == n@,
            r is Err ==> r == Err::<u32, TcError>(TcError::Full),
    {
        let w = n.words();
        let ghost wv = w@;
        let r = self.nats.intern(w);
        proof {
            let o = *old(self);
            assert forall|i: int| 0 <= i < self.nats@.len() implies Nat::words_ok(#[trigger] self.nats@[i]) by {
                if i < o.nats@.len() {
                    assert(Nat::words_ok(o.nats@[i]));
                } else {
                    assert(self.nats@[i] == wv);
                }
            }
            assert(self.ext_lits(&o)) by {
                assert forall|i: u32| o.n_ok(i) implies #[trigger] self.n(i) == o.n(i) by {
                    assert(self.nats@[i as int] == o.nats@[i as int]);
                }
            }
            self.lemma_nodes_keep(&o);
            assert forall|x: Expr| #[trigger] self.find(x) == o.find(x) by {
            }
        }
        match r {
            Some(p) => Ok(p),
            None => Err(TcError::Full),
        }
    }

    /// The number `p` names.
    pub fn read_bignum(&self, p: BigUintPtr) -> (r: Nat)
        requires
            self.wf(),
            self.n_ok(p),
        ensures
            r.wf(),
            r@ == self.n(p),
    {
        assert(Nat::words_ok(self.nats@[p as int]));
        Nat::from_words(self.nats.get(p))
    }

    /// The name of a string.
    pub fn alloc_string(&mut self, s: &Vec<u32>) -> (r: Result<StringPtr, TcError>)
        requires
            old(self).wf(),
        ensures
            final(self).wf(),
            final(self).ext(old(self)),
            r matches Ok(p) ==> final(self).s_ok(p) && final(self).s(p) == s@,
            r is Err ==> r == Err::<u32, TcError>(TcError::Full),
    {
        let mut w: Vec<u64> = Vec::new();
        let mut i: usize = 0;
        while i < s.len()
            invariant
                i <= s.len(),
                w.len() == i,
                forall|j: int| 0 <= j < i ==> w@[j] == s@[j],
            decreases s.len() - i,
        {
            w.push(s[i] as u64);
            i += 1;
        }
        let ghost wv = w@;
        let r = self.strs.intern(w);
        proof {
            let o = *old(self);
            assert forall|i: int, j: int|
                0 <= i < self.strs@.len() && 0 <= j < self.strs@[i].len() implies #[trigger] self.strs@[i][j]
                <= u32::MAX by {
                if i < o.strs@.len() {
                    assert(o.strs@[i][j] <= u32::MAX);
                } else {
                    assert(self.strs@[i] == wv);
                }
            }
            assert(self.ext_lits(&o)) by {
                assert forall|i: u32| o.s_ok(i) implies #[trigger] self.s(i) == o.s(i) by {
                    assert(self.strs@[i as int] == o.strs@[i as int]);
                }
            }
            self.lemma_nodes_keep(&o);
            assert forall|x: Expr| #[trigger] self.find(x) == o.find(x) by {
            }
        }
        match r {
            Some(p) => {
                proof {
                    assert(self.s(p) =~= s@);
                }
                Ok(p)
            },
            None => Err(TcError::Full),
        }
    }

    /// The code points of the string `p` names.
    pub fn read_string(&self, p: StringPtr) -> (r: Vec<u32>)
        requires
            self.wf(),
            self.s_ok(p),
        ensures
            r@ == self.s(p),
    {
        let w = self.strs.get(p);
        let mut r: Vec<u32> = Vec::new();
        let mut i: usize = 0;
        while i < w.len()
            invariant
                i <= w.len(),
                r.len() == i,
                forall|j: int| 0 <= j < i ==> r@[j] == w@[j] as u32,
            decreases w.len() - i,
        {
            r.push(#[verifier::truncate] (w[i] as u32));
            i += 1;
        }
        assert(r@ =~= self.s(p));
        r
    }

    // ---- operations on whole expressions ----

    /// Every expression has a form.
    pub proof fn lemma_shape(&self, e: ExprPtr) -> (x: Expr)
        requires
            self.wf(),
            self.e_ok(e),
        ensures
            self.shape(e, x),
    {
        assert(self.node_ok(e as int, self.nodes@[e as int]));
        self.nodes@[e as int].expr
    }

    /// `e` with the level parameters `ks` replaced by the levels `vs`.
    pub fn subst_expr_levels(&mut self, e: ExprPtr, ks: LevelsPtr, vs: LevelsPtr) -> (r: Result<ExprPtr, TcError>)
        requires
            old(self).wf(),
            old(self).e_ok(e),
            old(self).ls_ok(ks),
            old(self).ls_ok(vs),
        ensures
            final(self).wf(),
            final(self).ext(old(self)),
            r matches Ok(x) ==> final(self).e_ok(x) && final(self).e(x) == old(self).e(e).tsubst(
                old(self).ls(ks),
                old(self).ls(vs),
            ),
            r is Err ==> r == Err::<u32, TcError>(TcError::Full),
        decreases e,
    {
        match self.read_expr(e) {
            Expr::Sort { level } => {
                let level = self.subst_level(level, ks, vs)?;
                self.mk(Expr::Sort { level })
            },
            Expr::Const { name, levels } => {
                let levels = self.subst_levels(levels, ks, vs)?;
                self.mk(Expr::Const { name, levels })
            },
            Expr::App { fun, arg } => {
                let fun = self.subst_expr_levels(fun, ks, vs)?;
                let arg = self.subst_expr_levels(arg, ks, vs)?;
                self.mk(Expr::App { fun, arg })
            },
            Expr::Lambda { binder_name, binder_style, binder_type, body } => {
                let binder_type = self.subst_expr_levels(binder_type, ks, vs)?;
                let body = self.subst_expr_levels(body, ks, vs)?;
                self.mk(Expr::Lambda { binder_name, binder_style, binder_type, body })
            },
            Expr::Pi { binder_name, binder_style, binder_type, body } => {
                let binder_type = self.subst_expr_levels(binder_type, ks, vs)?;
                let body = self.subst_expr_levels(body, ks, vs)?;
                self.mk(Expr::Pi { binder_name, binder_style, binder_type, body })
            },
            Expr::Let { binder_name, binder_type, val, body, nondep } => {
                let binder_type = self.subst_expr_levels(binder_type, ks, vs)?;
                let val = self.subst_expr_levels(val, ks, vs)?;
                let body = self.subst_expr_levels(body, ks, vs)?;
                self.mk(Expr::Let { binder_name, binder_type, val, body, nondep })
            },
            Expr::Proj { ty_name, idx, structure } => {
                let structure = self.subst_expr_levels(structure, ks, vs)?;
                self.mk(Expr::Proj { ty_name, idx, structure })
            },
            Expr::Var { .. } => Ok(e),
            Expr::NatLit { .. } => Ok(e),
            Expr::StringLit { .. } => Ok(e),
            Expr::Local { .. } => Ok(e),
        }
    }

    /// `e` with the free variables of levels `lo..hi` turned into loose ones,
    /// the last one innermost.
    pub fn abstr_levels_at(&mut self, e: ExprPtr, lo: u32, hi: u32) -> (r: Result<ExprPtr, TcError>)
        requires
            old(self).wf(),
            old(self).e_ok(e),
        ensures
            final(self).wf(),
            final(self).ext(old(self)),
            r matches Ok(x) ==> final(self).e_ok(x) && final(self).e(x) == old(self).e(e).abstr(
                lo as nat,
                hi as nat,
                0,
            ),
            r is Err ==> r == Err::<u32, TcError>(TcError::Full),
    {
        self.abstr_go(e, lo, hi, 0)
    }

    fn abstr_go(&mut self, e: ExprPtr, lo: u32, hi: u32, k: u32) -> (r: Result<ExprPtr, TcError>)
        requires
            old(self).wf(),
            old(self).e_ok(e),
        ensures
            final(self).wf(),
            final(self).ext(old(self)),
            r matches Ok(x) ==> final(self).e_ok(x) && final(self).e(x) == old(self).e(e).abstr(
                lo as nat,
                hi as nat,
                k as nat,
            ),
            r is Err ==> r == Err::<u32, TcError>(TcError::Full),
        decreases e,
    {
        if !self.has_fvars(e) {
            proof {
                Term::lemma_abstr_no_fv(self.e(e), lo as nat, hi as nat, k as nat);
            }
            return Ok(e);
        }
        match self.read_expr(e) {
            Expr::Local { id, .. } => match id {
                FVarId::DbjLevel(l) => {
                    if lo <= l && l < hi {
                        let i: u64 = (k as u64) + ((hi - 1 - l) as u64);
                        if i >= 0xffff {
                            return Err(TcError::Full);
                        }
                        self.mk(Expr::Var { dbj_idx: i as u16 })
                    } else {
                        Ok(e)
                    }
                },
                FVarId::Unique(_) => Ok(e),
            },
            Expr::App { fun, arg } => {
                let fun = self.abstr_go(fun, lo, hi, k)?;
                let arg = self.abstr_go(arg, lo, hi, k)?;
                self.mk(Expr::App { fun, arg })
            },
            Expr::Lambda { binder_name, binder_style, binder_type, body } => {
                if k == u32::MAX {
                    return Err(TcError::Full);
                }
                let binder_type = self.abstr_go(binder_type, lo, hi, k)?;
                let body = self.abstr_go(body, lo, hi, k + 1)?;
                self.mk(Expr::Lambda { binder_name, binder_style, binder_type, body })
            },
            Expr::Pi { binder_name, binder_style, binder_type, body } => {
                if k == u32::MAX {
                    return Err(TcError::Full);
                }
                let binder_type = self.abstr_go(binder_type, lo, hi, k)?;
                let body = self.abstr_go(body, lo, hi, k + 1)?;
                self.mk(Expr::Pi { binder_name, binder_style, binder_type, body })
            },
            Expr::Let { binder_name, binder_type, val, body, nondep } => {
                if k == u32::MAX {
                    return Err(TcError::Full);
                }
                let binder_type = self.abstr_go(binder_type, lo, hi, k)?;
                let val = self.abstr_go(val, lo, hi, k)?;
                let body = self.abstr_go(body, lo, hi, k + 1)?;
                self.mk(Expr::Let { binder_name, binder_type, val, body, nondep })
            },
            Expr::Proj { ty_name, idx, structure } => {
                let structure = self.abstr_go(structure, lo, hi, k)?;
                self.mk(Expr::Proj { ty_name, idx, structure })
            },
            _ => Ok(e),
        }
    }

    /// The terms `v` name.
    pub open spec fn es(&self, v: Seq<ExprPtr>) -> Seq<Term> {
        Seq::new(v.len(), |i: int| self.e(v[i]))
    }

    /// Every id in `v` names an expression.
    pub open spec fn es_ok(&self, v: Seq<ExprPtr>) -> bool {
        forall|i: int| 0 <= i < v.len() ==> self.e_ok(#[trigger] v[i])
    }

    /// `f` applied to the arguments `v` from position `from` on.
    pub fn foldl_apps(&mut self, f: ExprPtr, v: &Vec<ExprPtr>, from: usize) -> (r: Result<ExprPtr, TcError>)
        requires
            old(self).wf(),
            old(self).e_ok(f),
            old(self).es_ok(v@),
            from <= v@.len(),
        ensures
            final(self).wf(),
            final(self).ext(old(self)),
            r matches Ok(x) ==> final(self).e_ok(x) && final(self).e(x) == Term::apps(
                old(self).e(f),
                old(self).es(v@).skip(from as int),
            ),
            r is Err ==> r == Err::<u32, TcError>(TcError::Full),
    {
        let ghost s = self.es(v@).skip(from as int);
        let ghost t0 = self.e(f);
        let mut out: ExprPtr = f;
        let mut i: usize = from;
        proof {
            assert(s.take(0) =~= Seq::empty());
        }
        while i < v.len()
            invariant
                self.wf(),
                self.ext(old(self)),
                old(self).es_ok(v@),
                from <= i <= v@.len(),
                s == old(self).es(v@).skip(from as int),
                self.e_ok(out),
                self.e(out) == Term::apps(t0, s.take(i - from)),
            decreases v.len() - i,
        {
            proof {
                assert(old(self).e_ok(v@[i as int]));
                assert(s.take(i + 1 - from) =~= s.take(i - from).push(s[i - from]));
                assert(s[i - from] == old(self).e(v@[i as int]));
                Term::lemma_apps_push(t0, s.take(i - from), s[i - from]);
            }
            out = self.mk(Expr::App { fun: out, arg: v[i] })?;
            i += 1;
        }
        proof {
            assert(s.take(v@.len() - from) =~= s);
        }
        Ok(out)
    }

    /// The head and the arguments of an application.
    pub fn unfold_apps(&self, e: ExprPtr) -> (r: (ExprPtr, Vec<ExprPtr>))
        requires
            self.wf(),
            self.e_ok(e),
        ensures
            self.e_ok(r.0),
            self.es_ok(r.1@),
            r.0 <= e,
            forall|i: int| 0 <= i < r.1@.len() ==> #[trigger] r.1@[i] < e,
            self.e(e) == Term::apps(self.e(r.0), self.es(r.1@)),
            !(self.e(r.0) is App),
    {
        let mut rev: Vec<ExprPtr> = Vec::new();
        let mut cur: ExprPtr = e;
        let ghost mut args: Seq<Term> = Seq::empty();
        loop
            invariant
                self.wf(),
                self.e_ok(e),
                self.e_ok(cur),
                cur <= e,
                self.es_ok(rev@),
                forall|i: int| 0 <= i < rev@.len() ==> #[trigger] rev@[i] < e,
                args.len() == rev@.len(),
                forall|i: int| 0 <= i < args.len() ==> args[i] == self.e(#[trigger] rev@[rev@.len() - 1 - i]),
                self.e(e) == Term::apps(self.e(cur), args),
            ensures
                !(self.e(cur) is App),
            decreases cur,
        {
            match self.read_expr(cur) {
                Expr::App { fun, arg } => {
                    proof {
                        Term::lemma_apps_cons(self.e(fun), self.e(arg), args);
                        let a2 = seq![self.e(arg)] + args;
                        let r2 = rev@.push(arg);
                        assert forall|i: int| 0 <= i < a2.len() implies a2[i] == self.e(
                            #[trigger] r2[r2.len() - 1 - i],
                        ) by {
                            if i > 0 {
                                assert(args[i - 1] == self.e(rev@[rev@.len() - 1 - (i - 1)]));
                            }
                        }
                        args = a2;
                    }
                    rev.push(arg);
                    cur = fun;
                },
                _ => {
                    break;
                },
            }
        }
        let mut out: Vec<ExprPtr> = Vec::new();
        let mut i: usize = rev.len();
        while i > 0
            invariant
                i <= rev@.len(),
                out@.len() == rev@.len() - i,
                forall|j: int| 0 <= j < out@.len() ==> #[trigger] out@[j] == rev@[rev@.len() - 1 - j],
            decreases i,
        {
            i -= 1;
            out.push(rev[i]);
        }
        proof {
            assert(self.es(out@) =~= args) by {
                assert forall|j: int| 0 <= j < args.len() implies self.es(out@)[j] == args[j] by {
                    assert(out@[j] == rev@[rev@.len() - 1 - j]);
                }
            }
        }
        (cur, out)
    }
}

} // verus!
