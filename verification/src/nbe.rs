//! Values, environments and spines for evaluation.
//!
//! A value is the result of evaluating an expression under an environment,
//! kept as a graph rather than rebuilt as an expression.  Values and spines
//! live in arenas and are named by index, and every construction goes through
//! an intern table, so two of them are the same when their indices are equal
//! and asking whether two values are the same term is an integer comparison.
use crate::arena::{Arena, MAX_NODES};
use crate::error::TcError;
use crate::expr::{BigUintPtr, ExprPtr, StringPtr};
use crate::level::{LevelPtr, LevelsPtr, NamePtr};
use crate::rc::{
    dec_val, inc, inc_env, inc_spine, inc_val, intern, new_node, new_sentinel, release, reset, Counts, Kind, Word, COUNT_MAX,
};
use crate::table::{Key, Tab};
use crate::term::BinderStyle;
use vstd::prelude::*;

verus! {

/// Names a value.
pub type ValId = u32;

/// Names an environment.
pub type VEnvId = u32;

/// Names a spine.
pub type SpineId = u32;

/// The empty environment.
pub const VENV_NIL: VEnvId = 0;

/// The spine of a value applied to nothing.
pub const SPINE_EMPTY: SpineId = 0;

/// How a constant behaves under reduction.
#[derive(Clone, Copy, PartialEq, Eq, Structural, Debug)]
pub enum ConstKind {
    /// An axiom or opaque definition: no body to unfold to.
    Axiom,
    Ctor,
    /// A recursor, which reduces once its major premise is a constructor.
    Recursor,
    /// `Quot.lift` or `Quot.ind`, which reduce once their argument is
    /// `Quot.mk`; also `Quot` and `Quot.mk` themselves, which never reduce.
    QuotConst,
    Inductive,
}

/// What a neutral value is stuck on.
#[derive(Clone, Copy, PartialEq, Eq, Structural, Debug)]
pub enum RigidHead {
    /// A variable standing for an opened binder, named by its de Bruijn level
    /// and carrying the value of its type.
    BVar(u32, ValId),
    /// A free variable from the surrounding declaration.
    Local(ExprPtr),
    Const(ConstKind, NamePtr, LevelsPtr),
}

/// One step of elimination applied to a neutral value.
#[derive(Clone, Copy, PartialEq, Eq, Structural, Debug)]
pub enum Elim {
    App(ValId),
    Proj { ty_name: NamePtr, idx: u32 },
}

#[derive(Clone, Copy, PartialEq, Eq, Structural, Debug)]
#[allow(inconsistent_fields)]
pub enum Value {
    /// Stuck: a head that cannot reduce, under a spine of eliminations.
    Rigid { head: RigidHead, spine: SpineId },
    /// A constant with a body, kept folded until someone needs it.  `forced`
    /// holds the result of unfolding it once that has been asked for.
    Unfold { name: NamePtr, levels: LevelsPtr, spine: SpineId, forced: Option<ValId> },
    /// `binder_type` is the unevaluated domain; `domain` holds its value once
    /// a comparison has needed it.
    Lam {
        binder_name: NamePtr,
        binder_style: BinderStyle,
        binder_type: ExprPtr,
        domain: Option<ValId>,
        env: VEnvId,
        body: ExprPtr,
    },
    Pi { binder_name: NamePtr, binder_style: BinderStyle, domain: ValId, env: VEnvId, body: ExprPtr },
    Sort { level: LevelPtr },
    NatLit { ptr: BigUintPtr },
    StrLit { ptr: StringPtr },
    /// An argument that has not been needed yet.
    Thunk { env: VEnvId, expr: ExprPtr, forced: Option<ValId> },
}

#[derive(Clone, Copy)]
pub struct SpineNode {
    pub elim: Elim,
    pub parent: SpineId,
    pub len: u32,
}

/// A value held by the evaluator.
pub struct V {
    id: u32,
}

/// A spine held by the evaluator.
pub struct S {
    id: u32,
}

/// An environment held by the evaluator.
pub struct E {
    id: u32,
}

impl V {
    pub closed spec fn id_spec(&self) -> u32 {
        self.id
    }

    /// Take a reference to value `id`.
    pub fn own(c: &mut Counts, id: u32) -> (r: V)
        requires
            old(c).live(Kind::Val, id),
        ensures
            r.id_spec() == id,
            final(c).only_words(
                old(c),
                Kind::Val,
                old(c).words(Kind::Val).update(id as int, Counts::bumped(old(c).words(Kind::Val)[id as int])),
            ),
            final(c).live(Kind::Val, id),
    {
        inc(c, Kind::Val, id);
        V { id }
    }

    pub fn id(&self) -> (r: u32)
        ensures
            r == self.id_spec(),
    {
        self.id
    }

    /// Give the reference back.
    pub fn free(self, c: &mut Counts)
        requires
            old(c).wf(),
            old(c).live(Kind::Val, self.id_spec()),
            old(c).count(Kind::Val, self.id_spec()) > 0,
        ensures
            final(c).wf(),
            final(c).live(Kind::Val, self.id_spec()),
            final(c).words(Kind::Val).len() == old(c).words(Kind::Val).len(),
            old(c).count(Kind::Val, self.id_spec()) < crate::rc::COUNT_MAX ==> final(c).count(
                Kind::Val,
                self.id_spec(),
            ) == old(c).count(Kind::Val, self.id_spec()) - 1,
    {
        release(c, Kind::Val, self.id)
    }

    /// Keep the reference for the rest of the declaration.
    pub fn pin(self, c: &mut Counts) -> (r: u32)
        ensures
            r == self.id_spec(),
            final(c).pins() == (if old(c).pins() < u64::MAX {
                old(c).pins() + 1
            } else {
                old(c).pins() as int
            }),
            final(c).others(old(c), Kind::Val),
            final(c).vals@ == old(c).vals@,
            final(c).ring() == old(c).ring(),
            final(c).clock() == old(c).clock(),
            final(c).cap() == old(c).cap(),
    {
        if c.pins < u64::MAX {
            c.pins = c.pins + 1;
        }
        self.id
    }
}

impl S {
    pub closed spec fn id_spec(&self) -> u32 {
        self.id
    }

    /// Take a reference to spine `id`.
    pub fn own(c: &mut Counts, id: u32) -> (r: S)
        requires
            old(c).live(Kind::Spine, id),
        ensures
            r.id_spec() == id,
            final(c).only_words(
                old(c),
                Kind::Spine,
                old(c).words(Kind::Spine).update(id as int, Counts::bumped(old(c).words(Kind::Spine)[id as int])),
            ),
            final(c).live(Kind::Spine, id),
    {
        inc(c, Kind::Spine, id);
        S { id }
    }

    pub fn id(&self) -> (r: u32)
        ensures
            r == self.id_spec(),
    {
        self.id
    }

    /// Give the reference back.
    pub fn free(self, c: &mut Counts)
        requires
            old(c).wf(),
            old(c).live(Kind::Spine, self.id_spec()),
            old(c).count(Kind::Spine, self.id_spec()) > 0,
        ensures
            final(c).wf(),
            final(c).live(Kind::Spine, self.id_spec()),
            final(c).words(Kind::Spine).len() == old(c).words(Kind::Spine).len(),
            old(c).count(Kind::Spine, self.id_spec()) < crate::rc::COUNT_MAX ==> final(c).count(
                Kind::Spine,
                self.id_spec(),
            ) == old(c).count(Kind::Spine, self.id_spec()) - 1,
    {
        release(c, Kind::Spine, self.id)
    }

    /// Keep the reference for the rest of the declaration.
    pub fn pin(self, c: &mut Counts) -> (r: u32)
        ensures
            r == self.id_spec(),
            final(c).pins() == (if old(c).pins() < u64::MAX {
                old(c).pins() + 1
            } else {
                old(c).pins() as int
            }),
            final(c).others(old(c), Kind::Val),
            final(c).vals@ == old(c).vals@,
            final(c).ring() == old(c).ring(),
            final(c).clock() == old(c).clock(),
            final(c).cap() == old(c).cap(),
    {
        if c.pins < u64::MAX {
            c.pins = c.pins + 1;
        }
        self.id
    }
}

impl E {
    pub closed spec fn id_spec(&self) -> u32 {
        self.id
    }

    /// Take a reference to environment `id`.
    pub fn own(c: &mut Counts, id: u32) -> (r: E)
        requires
            old(c).live(Kind::Env, id),
        ensures
            r.id_spec() == id,
            final(c).only_words(
                old(c),
                Kind::Env,
                old(c).words(Kind::Env).update(id as int, Counts::bumped(old(c).words(Kind::Env)[id as int])),
            ),
            final(c).live(Kind::Env, id),
    {
        inc(c, Kind::Env, id);
        E { id }
    }

    pub fn id(&self) -> (r: u32)
        ensures
            r == self.id_spec(),
    {
        self.id
    }

    /// Give the reference back.
    pub fn free(self, c: &mut Counts)
        requires
            old(c).wf(),
            old(c).live(Kind::Env, self.id_spec()),
            old(c).count(Kind::Env, self.id_spec()) > 0,
        ensures
            final(c).wf(),
            final(c).live(Kind::Env, self.id_spec()),
            final(c).words(Kind::Env).len() == old(c).words(Kind::Env).len(),
            old(c).count(Kind::Env, self.id_spec()) < crate::rc::COUNT_MAX ==> final(c).count(
                Kind::Env,
                self.id_spec(),
            ) == old(c).count(Kind::Env, self.id_spec()) - 1,
    {
        release(c, Kind::Env, self.id)
    }

    /// Keep the reference for the rest of the declaration.
    pub fn pin(self, c: &mut Counts) -> (r: u32)
        ensures
            r == self.id_spec(),
            final(c).pins() == (if old(c).pins() < u64::MAX {
                old(c).pins() + 1
            } else {
                old(c).pins() as int
            }),
            final(c).others(old(c), Kind::Val),
            final(c).vals@ == old(c).vals@,
            final(c).ring() == old(c).ring(),
            final(c).clock() == old(c).clock(),
            final(c).cap() == old(c).cap(),
    {
        if c.pins < u64::MAX {
            c.pins = c.pins + 1;
        }
        self.id
    }
}

/// The tables that give equal constructions equal indices.
pub struct Interns {
    /// `(parent, value)` of applications
    pub spine_app: Tab<u32>,
    /// `(parent, type name, field)` of projections
    pub spine_proj: Tab<u32>,
    /// `(head, spine)` of neutral values
    pub rigid: Tab<u32>,
    /// `(constant, levels, spine)` of folded applications
    pub unfold: Tab<u32>,
    /// `(domain expression, environment, body)` of lambdas
    pub lam: Tab<u32>,
    /// `(domain value, environment, body)` of function types
    pub pi: Tab<u32>,
    pub sort: Tab<u32>,
    pub nats: Tab<u32>,
    pub strs: Tab<u32>,
    /// `(environment, expression)` of thunks
    pub thunk: Tab<u32>,
}

/// What has been computed over the values.
pub struct Memos {
    /// `(expression, environment) -> its value`
    pub clo_val: Tab<u32>,
    /// `(constant, levels) -> the value of its body`
    pub unfold: Tab<Option<u32>>,
    /// `(constant, levels) -> the value denoting it`
    pub const_val: Tab<u32>,
    /// `(constant, levels) -> the value of its type`
    pub const_ty: Tab<u32>,
    /// `(constant, levels) -> the sort its type ends in`
    pub const_lvl: Tab<Option<u32>>,
    /// `(recursor rule body, parameters, levels) -> the value of that body`
    pub rec_rule: Tab<u32>,
    /// `stuck application -> what it reduces to`
    pub iota: Tab<Option<u32>>,
    /// `(value, inductive) -> the constructor application it expands to`
    pub struct_eta: Tab<Option<u32>>,
    /// `value -> whether an opened binder or free variable occurs in it`
    pub open: Tab<bool>,
    /// `value -> the value of its type`
    pub types: Tab<u32>,
    /// `local expression -> the value denoting it`
    pub local: Tab<u32>,
    /// Pairs found equal.
    pub conv_pos: Tab<bool>,
    /// Pairs found different.
    pub conv_neg: Tab<bool>,
    /// Failures recorded while comparing the arguments of two applications of
    /// the same constant.  That comparison is a guess that may fail while the
    /// terms are still equal, so its failures are dropped when the guess is.
    pub conv_neg_probe: Tab<bool>,
    /// Spine pairs whose speculative comparison settled false or exhausted
    /// its budget.
    pub probe_fail: Tab<bool>,
}

impl Memos {
    /// How many entries of the caches of values name `v`.
    pub open spec fn naming(&self, v: u32) -> nat {
        crate::table::held(self.clo_val@, v) + crate::table::held(self.const_val@, v) + crate::table::held(self.const_ty@, v) + crate::table::held(self.rec_rule@, v) + crate::table::held(
            self.local@,
            v,
        ) + crate::table::held(self.unfold@, Some(v))
    }
}

/// The state of bounded speculation.
#[derive(Clone, Copy)]
pub struct Probe {
    pub depth: u32,
    /// Conversion steps the running speculation may still spend; one budget
    /// covers a comparison and everything it nests.
    pub fuel: u64,
    /// Fuel granted to the next probe of an abort's own continuation.
    pub escalate: u64,
    pub aborted: bool,
    pub in_conv: u32,
    /// Whether definitions unfold to their fused values.
    pub fuse: bool,
    /// Recursion wrapper unfoldings counted while `fuse` is off.
    pub wrap_count: u64,
}

/// The arenas, the tables that give equal constructions equal indices, and
/// the memos over them.
pub struct Vals {
    pub vals: Arena<Value>,
    pub spines: Arena<SpineNode>,
    pub tabs: Interns,
    pub memo: Memos,
    pub probe: Probe,
}

impl ConstKind {
    pub open spec fn code(self) -> u32 {
        match self {
            ConstKind::Axiom => 2,
            ConstKind::Ctor => 3,
            ConstKind::Recursor => 4,
            ConstKind::QuotConst => 5,
            ConstKind::Inductive => 6,
        }
    }

    fn num(self) -> (r: u32)
        ensures
            r == self.code(),
    {
        match self {
            ConstKind::Axiom => 2,
            ConstKind::Ctor => 3,
            ConstKind::Recursor => 4,
            ConstKind::QuotConst => 5,
            ConstKind::Inductive => 6,
        }
    }
}

impl RigidHead {
    /// The words the neutral value with this head and spine is interned under.
    pub open spec fn key_spec(self, spine: SpineId) -> Key {
        match self {
            RigidHead::BVar(l, ty) => (0, l, ty, spine),
            RigidHead::Local(e) => (1, e, 0, spine),
            RigidHead::Const(k, n, ls) => (k.code(), n, ls, spine),
        }
    }

    fn key(self, spine: SpineId) -> (r: Key)
        ensures
            r == self.key_spec(spine),
    {
        match self {
            RigidHead::BVar(l, ty) => (0, l, ty, spine),
            RigidHead::Local(e) => (1, e, 0, spine),
            RigidHead::Const(k, n, ls) => (k.num(), n, ls, spine),
        }
    }

    /// The value the head refers to.
    pub open spec fn child(self) -> Seq<(Kind, u32)> {
        match self {
            RigidHead::BVar(_, ty) => seq![(Kind::Val, ty)],
            _ => Seq::empty(),
        }
    }
}

impl Elim {
    /// The value the elimination refers to.
    pub open spec fn child(self) -> Seq<(Kind, u32)> {
        match self {
            Elim::App(a) => seq![(Kind::Val, a)],
            _ => Seq::empty(),
        }
    }
}

impl Value {
    /// The nodes a new value refers to.
    pub open spec fn children(self) -> Seq<(Kind, u32)> {
        match self {
            Value::Rigid { head, spine } => head.child() + seq![(Kind::Spine, spine)],
            Value::Unfold { spine, .. } => seq![(Kind::Spine, spine)],
            Value::Lam { env, .. } => seq![(Kind::Env, env)],
            Value::Thunk { env, .. } => seq![(Kind::Env, env)],
            Value::Pi { domain, env, .. } => seq![(Kind::Val, domain), (Kind::Env, env)],
            _ => Seq::empty(),
        }
    }

    /// The value with its cells emptied.
    pub open spec fn bare(self) -> Value {
        match self {
            Value::Unfold { name, levels, spine, .. } => Value::Unfold { name, levels, spine, forced: None },
            Value::Thunk { env, expr, .. } => Value::Thunk { env, expr, forced: None },
            Value::Lam { binder_name, binder_style, binder_type, env, body, .. } => Value::Lam {
                binder_name,
                binder_style,
                binder_type,
                domain: None,
                env,
                body,
            },
            _ => self,
        }
    }

    /// The value recorded in its cell, unless it is the value itself.
    pub open spec fn cell(self, id: u32) -> Option<u32> {
        match self {
            Value::Unfold { forced: Some(f), .. } => if f != id {
                Some(f)
            } else {
                None
            },
            Value::Thunk { forced: Some(f), .. } => if f != id {
                Some(f)
            } else {
                None
            },
            Value::Lam { domain: Some(d), .. } => Some(d),
            _ => None,
        }
    }
}

impl SpineNode {
    /// The nodes a spine node refers to.
    pub open spec fn children(self) -> Seq<(Kind, u32)> {
        seq![(Kind::Spine, self.parent)] + self.elim.child()
    }
}

impl Counts {
    /// The words of kind `k` once the nodes `ch` have one more holder each.
    pub open spec fn bump_all(w: Seq<u32>, k: Kind, ch: Seq<(Kind, u32)>) -> Seq<u32>
        decreases ch.len(),
    {
        if ch.len() == 0 {
            w
        } else {
            let v = Counts::bump_all(w, k, ch.drop_last());
            if ch.last().0 == k && ch.last().1 < v.len() {
                v.update(ch.last().1 as int, Counts::bumped(v[ch.last().1 as int]))
            } else {
                v
            }
        }
    }

    /// Every node is live.
    pub open spec fn all_live(&self) -> bool {
        &&& forall|i: int| 0 <= i < self.vals@.len() ==> Word::of(#[trigger] self.vals@[i]).alloc
        &&& forall|i: int| 0 <= i < self.spines@.len() ==> Word::of(#[trigger] self.spines@[i]).alloc
        &&& forall|i: int| 0 <= i < self.envs@.len() ==> Word::of(#[trigger] self.envs@[i]).alloc
    }

    /// The nodes `ch` are live.
    pub open spec fn live_all(&self, ch: Seq<(Kind, u32)>) -> bool {
        forall|i: int| 0 <= i < ch.len() ==> self.live((#[trigger] ch[i]).0, ch[i].1)
    }

    /// Only the words differ from `o`.
    pub open spec fn only_counts(&self, o: &Counts) -> bool {
        &&& self.ring() == o.ring()
        &&& self.clock() == o.clock()
        &&& self.pins() == o.pins()
        &&& self.cap() == o.cap()
    }

    /// The nodes `ch` have one more holder each than in `o`.
    pub open spec fn bumps(&self, o: &Counts, ch: Seq<(Kind, u32)>) -> bool {
        &&& self.vals@ == Counts::bump_all(o.vals@, Kind::Val, ch)
        &&& self.spines@ == Counts::bump_all(o.spines@, Kind::Spine, ch)
        &&& self.envs@ == Counts::bump_all(o.envs@, Kind::Env, ch)
        &&& self.only_counts(o)
    }

    pub proof fn lemma_bump_all(w: Seq<u32>, k: Kind, ch: Seq<(Kind, u32)>)
        ensures
            Counts::bump_all(w, k, ch).len() == w.len(),
            forall|i: int|
                0 <= i < w.len() ==> Word::of(#[trigger] Counts::bump_all(w, k, ch)[i]).alloc == Word::of(w[i]).alloc,
        decreases ch.len(),
    {
        if ch.len() > 0 {
            Counts::lemma_bump_all(w, k, ch.drop_last());
            let v = Counts::bump_all(w, k, ch.drop_last());
            if ch.last().0 == k && ch.last().1 < v.len() {
                let x = v[ch.last().1 as int];
                assert(Word::of(Counts::bumped(x)).alloc == Word::of(x).alloc);
            }
        }
    }

    /// What making a node of kind `k` does to the counts: a node that was found
    /// has one more holder; a new one has one holder, and each of its children
    /// `ch` one more.
    pub open spec fn charged(&self, o: &Counts, k: Kind, hit: Option<u32>, ch: Seq<(Kind, u32)>) -> bool {
        match hit {
            Some(i) => self.only_words(
                o,
                k,
                o.words(k).update(i as int, Counts::bumped(o.words(k)[i as int])),
            ),
            None => exists|m: Counts| #[trigger] m.bumps(o, ch) && self.only_words(
                &m,
                k,
                m.words(k).push(self.words(k).last()),
            ) && Word::of(self.words(k).last()) == (Word { alloc: true, stamp: 0, count: 1 }),
        }
    }

    /// A cell that named the value `p` names `r` instead: `p` has one holder less
    /// than in `o`, and waits in the ring where that was the last one; where `r`
    /// is `p` it has as many as before, and nothing enters the ring.
    pub open spec fn renamed(&self, o: &Counts, p: u32, r: u32) -> bool {
        &&& p != r && o.count(Kind::Val, p) < COUNT_MAX ==> {
            &&& self.count(Kind::Val, p) == o.count(Kind::Val, p) - 1
            &&& self.ring() == (if o.count(Kind::Val, p) == 1 {
                o.ring().push((Kind::Val, p, o.clock()))
            } else {
                o.ring()
            })
            &&& self.clock() == (if o.count(Kind::Val, p) == 1 {
                (o.clock() + 1) % 0x8_0000
            } else {
                o.clock() as int
            })
        }
        &&& p == r && o.count(Kind::Val, p) + 1 < COUNT_MAX ==> {
            &&& self.count(Kind::Val, p) == o.count(Kind::Val, p)
            &&& self.ring() == o.ring()
            &&& self.clock() == o.clock()
        }
    }

    /// Taking the first reference to a node that was made.
    proof fn lemma_charged(&self, b: &Counts, o: &Counts, k: Kind, id: u32, ch: Seq<(Kind, u32)>)
        requires
            id < b.words(k).len(),
            self.only_words(b, k, b.words(k).update(id as int, Counts::bumped(b.words(k)[id as int]))),
            id == o.words(k).len(),
            exists|m: Counts|
                #![auto]
                m.bumps(o, ch) && b.only_words(&m, k, m.words(k).push(b.words(k).last())),
            Word::of(b.words(k).last()) == (Word { alloc: true, stamp: 0, count: 0 }),
        ensures
            self.charged(o, k, None, ch),
    {
        let m = choose|m: Counts|
            #![auto]
            m.bumps(o, ch) && b.only_words(&m, k, m.words(k).push(b.words(k).last()));
        m.lemma_bumps(o, ch);
        assert(m.words(k).len() == o.words(k).len());
        assert(self.words(k) =~= m.words(k).push(self.words(k).last()));
        assert(self.only_words(&m, k, m.words(k).push(self.words(k).last())));
    }

    /// Live nodes stay live as others gain holders.
    pub proof fn lemma_bumps(&self, o: &Counts, ch: Seq<(Kind, u32)>)
        requires
            self.bumps(o, ch),
        ensures
            self.vals@.len() == o.vals@.len(),
            self.spines@.len() == o.spines@.len(),
            self.envs@.len() == o.envs@.len(),
            o.all_live() ==> self.all_live(),
            forall|k: Kind, i: u32| #[trigger] self.live(k, i) == o.live(k, i),
    {
        Counts::lemma_bump_all(o.vals@, Kind::Val, ch);
        Counts::lemma_bump_all(o.spines@, Kind::Spine, ch);
        Counts::lemma_bump_all(o.envs@, Kind::Env, ch);
    }

    /// Bumping one more node.
    pub proof fn lemma_bumps_push(&self, m: &Counts, o: &Counts, ch: Seq<(Kind, u32)>, k: Kind, id: u32)
        requires
            m.bumps(o, ch),
            id < m.words(k).len(),
            self.only_words(m, k, m.words(k).update(id as int, Counts::bumped(m.words(k)[id as int]))),
        ensures
            self.bumps(o, ch.push((k, id))),
    {
        assert(ch.push((k, id)).drop_last() =~= ch);
    }

    pub proof fn lemma_bumps_refl(&self)
        ensures
            self.bumps(self, Seq::empty()),
    {
    }
}

impl Vals {
    /// The parts of a node are within the arenas.
    pub open spec fn refs_ok(v: Value, nv: int, ns: int, ne: int) -> bool {
        &&& forall|i: int|
            0 <= i < v.children().len() ==> match (#[trigger] v.children()[i]).0 {
                Kind::Val => v.children()[i].1 < nv,
                Kind::Spine => v.children()[i].1 < ns,
                Kind::Env => v.children()[i].1 < ne,
            }
        &&& match v {
            Value::Unfold { forced: Some(f), .. } => f < nv,
            Value::Thunk { forced: Some(f), .. } => f < nv,
            Value::Lam { domain: Some(d), .. } => d < nv,
            _ => true,
        }
    }

    /// The spine node at position `i` extends one before it.
    pub open spec fn spine_ok(&self, i: int) -> bool {
        let n = self.spines@[i];
        if i == 0 {
            n.len == 0
        } else {
            &&& n.parent < i
            &&& n.len == self.spines@[n.parent as int].len + 1
            &&& n.len <= i
            &&& n.elim matches Elim::App(a) ==> a < self.vals@.len()
        }
    }

    /// A table entry under `k` names the value it was made for.
    pub open spec fn entry_is(t: Map<Key, u32>, k: Key, vals: Seq<Value>, want: Value) -> bool {
        t.contains_key(k) ==> t[k] < vals.len() && vals[t[k] as int].bare() == want
    }

    /// Every table entry names the construction it was made for.
    pub open spec fn tabs_ok(&self) -> bool {
        let v = self.vals@;
        &&& forall|h: RigidHead, s: u32|
            #![trigger self.tabs.rigid@.contains_key(h.key_spec(s))]
            Vals::entry_is(self.tabs.rigid@, h.key_spec(s), v, Value::Rigid { head: h, spine: s })
        &&& forall|n: u32, l: u32, s: u32|
            #![trigger self.tabs.unfold@.contains_key((n, l, s, 0))]
            Vals::entry_is(
                self.tabs.unfold@,
                (n, l, s, 0),
                v,
                Value::Unfold { name: n, levels: l, spine: s, forced: None },
            )
        &&& forall|t: u32, e: u32, b: u32| #[trigger]
            self.tabs.lam@.contains_key((t, e, b, 0)) ==> self.tabs.lam@[(t, e, b, 0)] < v.len() && Vals::is_lam(
                v[self.tabs.lam@[(t, e, b, 0)] as int],
                t,
                e,
                b,
            )
        &&& forall|d: u32, e: u32, b: u32| #[trigger]
            self.tabs.pi@.contains_key((d, e, b, 0)) ==> self.tabs.pi@[(d, e, b, 0)] < v.len() && Vals::is_pi(
                v[self.tabs.pi@[(d, e, b, 0)] as int],
                d,
                e,
                b,
            )
        &&& forall|l: u32|
            #![trigger self.tabs.sort@.contains_key((l, 0, 0, 0))]
            Vals::entry_is(self.tabs.sort@, (l, 0, 0, 0), v, Value::Sort { level: l })
        &&& forall|p: u32|
            #![trigger self.tabs.nats@.contains_key((p, 0, 0, 0))]
            Vals::entry_is(self.tabs.nats@, (p, 0, 0, 0), v, Value::NatLit { ptr: p })
        &&& forall|p: u32|
            #![trigger self.tabs.strs@.contains_key((p, 0, 0, 0))]
            Vals::entry_is(self.tabs.strs@, (p, 0, 0, 0), v, Value::StrLit { ptr: p })
        &&& forall|e: u32, x: u32| #[trigger]
            self.tabs.thunk@.contains_key((e, x, 0, 0)) ==> self.tabs.thunk@[(e, x, 0, 0)] < v.len() && Vals::is_thunk(
                v[self.tabs.thunk@[(e, x, 0, 0)] as int],
                x,
            )
        &&& forall|p: u32, a: u32| #[trigger]
            self.tabs.spine_app@.contains_key((p, a, 0, 0)) ==> self.tabs.spine_app@[(p, a, 0, 0)] < self.spines@.len()
                && self.tabs.spine_app@[(p, a, 0, 0)] > 0
                    && self.spines@[self.tabs.spine_app@[(p, a, 0, 0)] as int].parent
                == p && self.spines@[self.tabs.spine_app@[(p, a, 0, 0)] as int].elim == Elim::App(a)
        &&& forall|p: u32, t: u32, i: u32| #[trigger]
            self.tabs.spine_proj@.contains_key((p, t, i, 0)) ==> self.tabs.spine_proj@[(p, t, i, 0)]
                < self.spines@.len() && self.tabs.spine_proj@[(p, t, i, 0)] > 0 && self.spines@[self.tabs.spine_proj@[(
                p,
                t,
                i,
                0,
            )] as int].parent == p && self.spines@[self.tabs.spine_proj@[(p, t, i, 0)] as int].elim == (Elim::Proj {
                ty_name: t,
                idx: i,
            })
    }

    /// The table names position `i` under `k`.
    pub open spec fn names(t: Map<Key, u32>, k: Key, i: int) -> bool {
        t.contains_key(k) && t[k] == i
    }

    /// The tables name position `i` for the construction of `v`.  A thunk is
    /// named for what it reads, which its node does not show.
    pub open spec fn val_named(t: Interns, v: Value, i: int) -> bool {
        match v {
            Value::Rigid { head, spine } => Vals::names(t.rigid@, head.key_spec(spine), i),
            Value::Unfold { name, levels, spine, .. } => Vals::names(t.unfold@, (name, levels, spine, 0), i),
            Value::Lam { binder_type, env, body, .. } => Vals::names(t.lam@, (binder_type, env, body, 0), i),
            Value::Pi { domain, env, body, .. } => Vals::names(t.pi@, (domain, env, body, 0), i),
            Value::Sort { level } => Vals::names(t.sort@, (level, 0, 0, 0), i),
            Value::NatLit { ptr } => Vals::names(t.nats@, (ptr, 0, 0, 0), i),
            Value::StrLit { ptr } => Vals::names(t.strs@, (ptr, 0, 0, 0), i),
            Value::Thunk { .. } => true,
        }
    }

    /// The tables name position `i` for the spine node `n`.
    pub open spec fn spine_named(t: Interns, n: SpineNode, i: int) -> bool {
        match n.elim {
            Elim::App(a) => Vals::names(t.spine_app@, (n.parent, a, 0, 0), i),
            Elim::Proj { ty_name, idx } => Vals::names(t.spine_proj@, (n.parent, ty_name, idx, 0), i),
        }
    }

    /// Every value and every spine but the empty one is the one its
    /// construction is interned as.
    #[verifier::opaque]
    pub open spec fn named(t: Interns, vals: Seq<Value>, spines: Seq<SpineNode>) -> bool {
        &&& forall|i: int| 0 <= i < vals.len() ==> Vals::val_named(t, #[trigger] vals[i], i)
        &&& forall|i: int| 1 <= i < spines.len() ==> Vals::spine_named(t, #[trigger] spines[i], i)
    }

    pub open spec fn is_lam(v: Value, t: u32, e: u32, b: u32) -> bool {
        v matches Value::Lam { binder_type, env, body, .. } && binder_type == t && env == e && body == b
    }

    pub open spec fn is_pi(v: Value, d: u32, e: u32, b: u32) -> bool {
        v matches Value::Pi { domain, env, body, .. } && domain == d && env == e && body == b
    }

    pub open spec fn is_thunk(v: Value, x: u32) -> bool {
        v matches Value::Thunk { expr, .. } && expr == x
    }

    /// Nodes refer to nodes, spines grow one elimination at a time, and the
    /// tables name what they were made for.
    #[verifier::opaque]
    pub open spec fn wf(&self, c: &Counts) -> bool {
        &&& self.vals@.len() == c.vals@.len() <= MAX_NODES
        &&& self.spines@.len() == c.spines@.len() <= MAX_NODES
        &&& 1 <= self.spines@.len()
        &&& 1 <= c.envs@.len() <= MAX_NODES
        &&& forall|i: int|
            0 <= i < self.vals@.len() ==> Vals::refs_ok(
                #[trigger] self.vals@[i],
                self.vals@.len() as int,
                self.spines@.len() as int,
                c.envs@.len() as int,
            )
        &&& forall|i: int| 0 <= i < self.spines@.len() ==> #[trigger] self.spine_ok(i)
        &&& self.tabs_ok()
    }

    /// The sizes that well-formedness bounds.
    pub proof fn lemma_wf(&self, c: &Counts)
        requires
            self.wf(c),
        ensures
            self.vals@.len() == c.vals@.len() <= MAX_NODES,
            self.spines@.len() == c.spines@.len() <= MAX_NODES,
            1 <= self.spines@.len(),
            1 <= c.envs@.len() <= MAX_NODES,
    {
        reveal(Vals::wf);
    }

    /// Well-formedness depends on the counts only through their number.
    pub proof fn lemma_wf_counts(&self, c: &Counts, d: &Counts)
        requires
            self.wf(c),
            d.vals@.len() == c.vals@.len(),
            d.spines@.len() == c.spines@.len(),
            c.envs@.len() <= d.envs@.len() <= MAX_NODES,
        ensures
            self.wf(d),
    {
        reveal(Vals::wf);
        assert forall|i: int| 0 <= i < self.vals@.len() implies Vals::refs_ok(
            #[trigger] self.vals@[i],
            self.vals@.len() as int,
            self.spines@.len() as int,
            d.envs@.len() as int,
        ) by {
            assert(Vals::refs_ok(
                self.vals@[i],
                self.vals@.len() as int,
                self.spines@.len() as int,
                c.envs@.len() as int,
            ));
        }
    }

    /// The eliminations of spine `s`, innermost first.
    pub open spec fn elims(sp: Seq<SpineNode>, s: int) -> Seq<Elim>
        decreases s,
    {
        if 0 < s < sp.len() && sp[s].parent < s {
            Vals::elims(sp, sp[s].parent as int).push(sp[s].elim)
        } else {
            Seq::empty()
        }
    }

    /// The arguments of a spine, when all of it is applications.
    pub open spec fn apps_of(es: Seq<Elim>) -> Option<Seq<ValId>> {
        if forall|i: int| 0 <= i < es.len() ==> #[trigger] es[i] is App {
            Some(Seq::new(es.len(), |i: int| es[i]->App_0))
        } else {
            None
        }
    }

    /// A spine's recorded length is its number of eliminations.
    pub proof fn lemma_elims_len(&self, c: &Counts, s: int)
        requires
            self.wf(c),
            0 <= s < self.spines@.len(),
        ensures
            Vals::elims(self.spines@, s).len() == self.spines@[s].len,
            forall|i: int|
                0 <= i < Vals::elims(self.spines@, s).len()
                    ==> ((#[trigger] Vals::elims(self.spines@, s)[i]) matches Elim::App(a)
                    ==> a < self.vals@.len()),
        decreases s,
    {
        reveal(Vals::wf);
        assert(self.spine_ok(s));
        if s > 0 {
            self.lemma_elims_len(c, self.spines@[s].parent as int);
        }
    }

    fn new_tabs() -> (r: Interns)
        ensures
            r.spine_app@ == Map::<Key, u32>::empty(),
            r.spine_proj@ == Map::<Key, u32>::empty(),
            r.rigid@ == Map::<Key, u32>::empty(),
            r.unfold@ == Map::<Key, u32>::empty(),
            r.lam@ == Map::<Key, u32>::empty(),
            r.pi@ == Map::<Key, u32>::empty(),
            r.sort@ == Map::<Key, u32>::empty(),
            r.nats@ == Map::<Key, u32>::empty(),
            r.strs@ == Map::<Key, u32>::empty(),
            r.thunk@ == Map::<Key, u32>::empty(),
    {
        Interns {
            spine_app: Tab::new(),
            spine_proj: Tab::new(),
            rigid: Tab::new(),
            unfold: Tab::new(),
            lam: Tab::new(),
            pi: Tab::new(),
            sort: Tab::new(),
            nats: Tab::new(),
            strs: Tab::new(),
            thunk: Tab::new(),
        }
    }

    fn new_memos() -> (r: Memos)
        ensures
            r.empty(),
    {
        Memos {
            clo_val: Tab::new(),
            unfold: Tab::new(),
            const_val: Tab::new(),
            const_ty: Tab::new(),
            const_lvl: Tab::new(),
            rec_rule: Tab::new(),
            iota: Tab::new(),
            struct_eta: Tab::new(),
            open: Tab::new(),
            types: Tab::new(),
            local: Tab::new(),
            conv_pos: Tab::new(),
            conv_neg: Tab::new(),
            conv_neg_probe: Tab::new(),
            probe_fail: Tab::new(),
        }
    }

    /// No values, and the empty spine alone, whose sentinel is recorded in `c`.
    pub fn new(c: &mut Counts) -> (r: Vals)
        requires
            old(c).spines@.len() < MAX_NODES,
        ensures
            old(c).vals@.len() == 0 && old(c).spines@.len() == 0 && 1 <= old(c).envs@.len() <= MAX_NODES ==> r.wf(
                final(c),
            ),
            Vals::named(r.tabs, r.vals@, r.spines@),
            r.fresh(),
            !r.probe.fuse,
            r.probe.in_conv == 0,
            final(c).vals@ == old(c).vals@,
            final(c).envs@ == old(c).envs@,
            final(c).spines@ == old(c).spines@.push(final(c).spines@.last()),
            Word::of(final(c).spines@.last()) == (Word { alloc: true, stamp: 0, count: 1 }),
            final(c).only_counts(old(c)),
    {
        let mut spines: Arena<SpineNode> = Arena::new();
        new_sentinel(c, Kind::Spine);
        spines.push(SpineNode { elim: Elim::Proj { ty_name: 0, idx: 0 }, parent: 0, len: 0 });
        let r = Vals {
            vals: Arena::new(),
            spines,
            tabs: Vals::new_tabs(),
            memo: Vals::new_memos(),
            probe: Probe {
                depth: 0,
                fuel: 0,
                escalate: 0,
                aborted: false,
                in_conv: 0,
                fuse: false,
                wrap_count: 0,
            },
        };
        proof {
            reveal(Vals::wf);
            reveal(Vals::named);
        }
        r
    }

    /// No values, the empty spine alone, and nothing remembered.
    pub open spec fn fresh(&self) -> bool {
        &&& self.vals@.len() == 0
        &&& self.spines@.len() == 1
        &&& self.memo.empty()
        &&& self.probe.depth == 0
        &&& self.probe.fuel == 0
        &&& self.probe.escalate == 0
        &&& !self.probe.aborted
        &&& self.probe.wrap_count == 0
    }

    /// Drop everything: values name arena positions, so nothing survives a
    /// declaration boundary.
    pub fn reset_decl(&mut self, c: &mut Counts)
        requires
            old(self).wf(old(c)),
        ensures
            final(self).wf(final(c)),
            Vals::named(final(self).tabs, final(self).vals@, final(self).spines@),
            final(self).fresh(),
            final(self).probe.fuse == old(self).probe.fuse,
            final(self).probe.in_conv == old(self).probe.in_conv,
            final(c).vals@.len() == 0,
            final(c).spines@.len() == 1,
            Word::of(final(c).spines@[0]) == (Word { alloc: true, stamp: 0, count: 1 }),
            final(c).envs@ == old(c).envs@,
            final(c).ring().len() == 0,
            final(c).clock() == 0,
            final(c).pins() == 0,
            final(c).cap() == old(c).cap(),
    {
        proof {
            reveal(Vals::wf);
            assert(self.spine_ok(0));
        }
        self.tabs = Vals::new_tabs();
        self.memo = Vals::new_memos();
        self.probe.depth = 0;
        self.probe.fuel = 0;
        self.probe.escalate = 0;
        self.probe.aborted = false;
        self.probe.wrap_count = 0;
        // the caches above held references; the nodes go only after them
        self.vals.truncate(0);
        self.spines.truncate(1);
        reset(c, Kind::Val, 0);
        reset(c, Kind::Spine, 1);
        proof {
            reveal(Vals::named);
        }
    }

    pub fn get(&self, v: ValId) -> (r: Value)
        requires
            v < self.vals@.len(),
        ensures
            r == self.vals@[v as int],
    {
        *self.vals.index(v as usize)
    }

    /// Append a value, taking a reference to each of its children.
    pub fn alloc_val(vals: &mut Arena<Value>, c: &mut Counts, v: Value) -> (r: ValId)
        requires
            old(vals)@.len() < MAX_NODES,
            old(vals)@.len() == old(c).vals@.len(),
            old(c).live_all(v.children()),
        ensures
            r == old(vals)@.len(),
            final(vals)@ == old(vals)@.push(v),
            exists|m: Counts|
                #![auto]
                m.bumps(old(c), v.children())
                    && final(c).only_words(&m, Kind::Val, m.vals@.push(final(c).vals@.last())),
            Word::of(final(c).vals@.last()) == (Word { alloc: true, stamp: 0, count: 0 }),
            final(c).vals@.len() == old(c).vals@.len() + 1,
            final(c).spines@.len() == old(c).spines@.len(),
            final(c).envs@.len() == old(c).envs@.len(),
            old(c).all_live() ==> final(c).all_live(),
            final(c).only_counts(old(c)),
    {
        let id: u32 = vals.len() as u32;
        let ghost c0 = *c;
        let ghost ch = v.children();
        proof {
            c0.lemma_bumps_refl();
            if ch.len() > 0 {
                assert(c.live(ch[0].0, ch[0].1));
            }
            if ch.len() > 1 {
                assert(c.live(ch[1].0, ch[1].1));
            }
        }
        match v {
            Value::Rigid { head, spine } => {
                let ghost mut done: Seq<(Kind, u32)> = Seq::empty();
                if let RigidHead::BVar(_, ty) = head {
                    inc_val(c, ty);
                    proof {
                        c.lemma_bumps_push(&c0, &c0, done, Kind::Val, ty);
                        done = done.push((Kind::Val, ty));
                    }
                }
                let ghost c1 = *c;
                proof {
                    c.lemma_bumps(&c0, done);
                    assert(c0.live(Kind::Spine, spine));
                }
                inc_spine(c, spine);
                proof {
                    c.lemma_bumps_push(&c1, &c0, done, Kind::Spine, spine);
                    assert(done.push((Kind::Spine, spine)) =~= ch);
                }
            },
            Value::Unfold { spine, .. } => {
                inc_spine(c, spine);
                proof {
                    c.lemma_bumps_push(&c0, &c0, Seq::empty(), Kind::Spine, spine);
                    assert(Seq::empty().push((Kind::Spine, spine)) =~= ch);
                }
            },
            Value::Lam { env, .. } | Value::Thunk { env, .. } => {
                inc_env(c, env);
                proof {
                    c.lemma_bumps_push(&c0, &c0, Seq::empty(), Kind::Env, env);
                    assert(Seq::empty().push((Kind::Env, env)) =~= ch);
                }
            },
            Value::Pi { domain, env, .. } => {
                inc_val(c, domain);
                let ghost c1 = *c;
                proof {
                    c.lemma_bumps_push(&c0, &c0, Seq::empty(), Kind::Val, domain);
                    c.lemma_bumps(&c0, Seq::empty().push((Kind::Val, domain)));
                    assert(c0.live(Kind::Env, env));
                }
                inc_env(c, env);
                proof {
                    c.lemma_bumps_push(&c1, &c0, Seq::empty().push((Kind::Val, domain)), Kind::Env, env);
                    assert(Seq::empty().push((Kind::Val, domain)).push((Kind::Env, env)) =~= ch);
                }
            },
            Value::Sort { .. } | Value::NatLit { .. } | Value::StrLit { .. } => {
                proof {
                    assert(ch =~= Seq::empty());
                }
            },
        }
        let ghost m = *c;
        proof {
            m.lemma_bumps(&c0, ch);
        }
        vals.push(v);
        new_node(c, Kind::Val);
        proof {
            assert(c.vals@ =~= m.vals@.push(c.vals@.last()));
            assert(m.bumps(&c0, ch) && c.only_words(&m, Kind::Val, m.vals@.push(c.vals@.last())));
        }
        id
    }

    /// Append a spine node, taking a reference to its parent and argument.
    pub fn alloc_spine(spines: &mut Arena<SpineNode>, c: &mut Counts, parent: SpineId, elim: Elim) -> (r: SpineId)
        requires
            old(spines)@.len() < MAX_NODES,
            old(spines)@.len() == old(c).spines@.len(),
            parent < old(spines)@.len(),
            old(spines)@[parent as int].len < u32::MAX,
            old(c).live(Kind::Spine, parent),
            elim matches Elim::App(a) ==> old(c).live(Kind::Val, a),
        ensures
            r == old(spines)@.len(),
            final(spines)@ == old(spines)@.push(
                SpineNode { elim, parent, len: (old(spines)@[parent as int].len + 1) as u32 },
            ),
            exists|m: Counts|
                #![auto]
                m.bumps(old(c), seq![(Kind::Spine, parent)] + elim.child()) && final(c).only_words(
                    &m,
                    Kind::Spine,
                    m.spines@.push(final(c).spines@.last()),
                ),
            Word::of(final(c).spines@.last()) == (Word { alloc: true, stamp: 0, count: 0 }),
            final(c).spines@.len() == old(c).spines@.len() + 1,
            final(c).vals@.len() == old(c).vals@.len(),
            final(c).envs@.len() == old(c).envs@.len(),
            old(c).all_live() ==> final(c).all_live(),
            final(c).only_counts(old(c)),
    {
        let len: u32 = spines.index(parent as usize).len + 1;
        let id: u32 = spines.len() as u32;
        let ghost c0 = *c;
        let ghost mut done: Seq<(Kind, u32)> = seq![(Kind::Spine, parent)];
        proof {
            c0.lemma_bumps_refl();
        }
        inc_spine(c, parent);
        let ghost c1 = *c;
        proof {
            c.lemma_bumps_push(&c0, &c0, Seq::empty(), Kind::Spine, parent);
            assert(Seq::empty().push((Kind::Spine, parent)) =~= done);
            c.lemma_bumps(&c0, done);
        }
        if let Elim::App(a) = elim {
            proof {
                assert(c0.live(Kind::Val, a));
            }
            inc_val(c, a);
            proof {
                c.lemma_bumps_push(&c1, &c0, done, Kind::Val, a);
                done = done.push((Kind::Val, a));
            }
        }
        let ghost m = *c;
        proof {
            assert(done =~= seq![(Kind::Spine, parent)] + elim.child());
            m.lemma_bumps(&c0, done);
        }
        spines.push(SpineNode { elim, parent, len });
        new_node(c, Kind::Spine);
        proof {
            assert(c.spines@ =~= m.spines@.push(c.spines@.last()));
            assert(m.bumps(&c0, done) && c.only_words(&m, Kind::Spine, m.spines@.push(c.spines@.last())));
        }
        id
    }

    pub fn spine_len(&self, s: SpineId) -> (r: u32)
        requires
            s < self.spines@.len(),
        ensures
            r == self.spines@[s as int].len,
    {
        self.spines.index(s as usize).len
    }

    /// Only the arena of values, the intern tables and the cells differ from
    /// `o`.
    pub open spec fn keeps(&self, o: &Vals) -> bool {
        &&& self.spines@ == o.spines@
        &&& self.memo == o.memo
        &&& self.probe == o.probe
    }

    /// The id a table holds for `k`, if that node is live.
    pub open spec fn hit(t: Map<Key, u32>, k: Key, c: &Counts, kind: Kind) -> Option<u32> {
        if t.contains_key(k) && c.live(kind, t[k]) {
            Some(t[k])
        } else {
            None
        }
    }

    /// `id` is the value found in the table, or `node` appended.
    pub open spec fn made(&self, o: &Vals, hit: Option<u32>, node: Value, id: u32) -> bool {
        match hit {
            Some(i) => id == i && self.vals@ == o.vals@,
            None => id == o.vals@.len() && self.vals@ == o.vals@.push(node),
        }
    }

    /// The counts after a value was found or appended: as many nodes of the
    /// other kinds as before, all of them live if they were.
    pub open spec fn counted(&self, c: &Counts, oc: &Counts) -> bool {
        &&& c.spines@.len() == oc.spines@.len()
        &&& c.envs@.len() == oc.envs@.len()
        &&& oc.all_live() ==> c.all_live()
        &&& c.only_counts(oc)
    }

    /// Appending a value, or none, keeps the nodes well formed.
    proof fn lemma_grow(&self, o: &Vals, c: &Counts, oc: &Counts, node: Value)
        requires
            o.wf(oc),
            self.vals@ == o.vals@ || (self.vals@ == o.vals@.push(node) && o.vals@.len() < MAX_NODES),
            self.spines@ == o.spines@,
            c.vals@.len() == self.vals@.len(),
            c.spines@.len() == oc.spines@.len(),
            c.envs@.len() == oc.envs@.len(),
            oc.live_all(node.children()),
            node.bare() == node,
            self.tabs_ok(),
        ensures
            self.wf(c),
    {
        reveal(Vals::wf);
        let nv = self.vals@.len() as int;
        let ns = self.spines@.len() as int;
        let ne = c.envs@.len() as int;
        assert forall|i: int| 0 <= i < self.vals@.len() implies Vals::refs_ok(#[trigger] self.vals@[i], nv, ns, ne) by {
            if i < o.vals@.len() {
                assert(Vals::refs_ok(o.vals@[i], o.vals@.len() as int, ns, ne));
            } else {
                assert forall|j: int| 0 <= j < node.children().len() implies match (
                    #[trigger] node.children()[j]
                ).0 {
                    Kind::Val => node.children()[j].1 < nv,
                    Kind::Spine => node.children()[j].1 < ns,
                    Kind::Env => node.children()[j].1 < ne,
                } by {
                    assert(oc.live(node.children()[j].0, node.children()[j].1));
                }
            }
        }
        assert forall|i: int| 0 <= i < self.spines@.len() implies #[trigger] self.spine_ok(i) by {
            assert(o.spine_ok(i));
        }
    }

    /// A stuck value.
    pub fn mk_rigid(&mut self, c: &mut Counts, head: RigidHead, spine: SpineId) -> (r: Result<V, TcError>)
        requires
            old(self).wf(old(c)),
            old(c).live_all((Value::Rigid { head, spine }).children()),
        ensures
            final(self).wf(final(c)),
            final(self).keeps(old(self)),
            final(self).counted(final(c), old(c)),
            r matches Ok(v) ==> v.id_spec() < final(self).vals@.len() && final(self).made(
                old(self),
                Vals::hit(old(self).tabs.rigid@, head.key_spec(spine), old(c), Kind::Val),
                Value::Rigid { head, spine },
                v.id_spec(),
            ) && final(c).live(Kind::Val, v.id_spec()) && final(self).tabs.rigid@.contains_key(head.key_spec(spine))
                && final(self).tabs.rigid@[head.key_spec(spine)] == v.id_spec(),
            r matches Ok(v) ==> final(self).vals@[v.id_spec() as int].bare() == (Value::Rigid { head, spine }),
            Vals::named(old(self).tabs, old(self).vals@, old(self).spines@) && old(c).all_live() ==> Vals::named(
                final(self).tabs,
                final(self).vals@,
                final(self).spines@,
            ),
            r is Ok ==> final(c).charged(
                old(c),
                Kind::Val,
                Vals::hit(old(self).tabs.rigid@, head.key_spec(spine), old(c), Kind::Val),
                (Value::Rigid { head, spine }).children(),
            ),
            r is Err ==> r == Err::<V, TcError>(TcError::Full) && *final(self) == *old(self) && *final(c) == *old(c)
                && old(self).vals@.len() == MAX_NODES,
            forall|k: Key|
                k != head.key_spec(spine) && #[trigger] final(self).tabs.rigid@.contains_key(k)
                    ==> old(self).tabs.rigid@.contains_key(k)
                    && final(self).tabs.rigid@[k] == old(self).tabs.rigid@[k],
            final(self).tabs.spine_app == old(self).tabs.spine_app,
            final(self).tabs.spine_proj == old(self).tabs.spine_proj,
            final(self).tabs.unfold == old(self).tabs.unfold,
            final(self).tabs.lam == old(self).tabs.lam,
            final(self).tabs.pi == old(self).tabs.pi,
            final(self).tabs.sort == old(self).tabs.sort,
            final(self).tabs.nats == old(self).tabs.nats,
            final(self).tabs.strs == old(self).tabs.strs,
            final(self).tabs.thunk == old(self).tabs.thunk,
    {
        proof {
            self.lemma_wf(c);
        }
        if self.vals.len() >= MAX_NODES {
            return Err(TcError::Full);
        }
        let node = Value::Rigid { head, spine };
        let ghost o = *self;
        let ghost oc = *c;
        let fresh: u32 = self.vals.len() as u32;
        let id: u32 = intern(&mut self.tabs.rigid, c, Kind::Val, head.key(spine), fresh);
        proof {
            reveal(Vals::wf);
            assert(o.tabs.rigid@.contains_key(head.key_spec(spine))
                ==> o.tabs.rigid@[head.key_spec(spine)] < o.vals@.len());
        }
        if id == fresh {
            Vals::alloc_val(&mut self.vals, c, node);
        }
        proof {
            assert(self.vals@.len() == c.vals@.len());
            assert(c.live(Kind::Val, id));
            let v = self.vals@;
            let ov = o.vals@;
            assert(forall|i: int| 0 <= i < ov.len() ==> v[i] == ov[i]);
            assert(self.tabs_ok());
            if Vals::named(o.tabs, o.vals@, o.spines@) && oc.all_live() {
                reveal(Vals::named);
                assert forall|i: int| 0 <= i < self.vals@.len() implies Vals::val_named(
                    self.tabs,
                    #[trigger] self.vals@[i],
                    i,
                ) by {
                    if i < o.vals@.len() {
                        assert(Vals::val_named(o.tabs, o.vals@[i], i));
                        assert(oc.live(Kind::Val, i as u32));
                    }
                }
                assert forall|i: int| 1 <= i < self.spines@.len() implies Vals::spine_named(
                    self.tabs,
                    #[trigger] self.spines@[i],
                    i,
                ) by {
                    if i < o.spines@.len() {
                        assert(Vals::spine_named(o.tabs, o.spines@[i], i));
                        assert(oc.live(Kind::Spine, i as u32));
                    }
                }
            }
            self.lemma_grow(&o, c, &oc, node);
        }
        let ghost c1 = *c;
        let r = V::own(c, id);
        proof {
            c1.lemma_bumps_refl();
            c.lemma_bumps_push(&c1, &c1, Seq::empty(), Kind::Val, id);
            c.lemma_bumps(&c1, Seq::empty().push((Kind::Val, id)));
            self.lemma_wf_counts(&c1, c);
            if id == fresh {
                c.lemma_charged(&c1, &oc, Kind::Val, id, node.children());
            }
        }
        Ok(r)
    }

    /// The variable standing for a binder opened at `level`.  Interned on the
    /// level and the type, so two openings of the same binder are the same
    /// variable and everything built over them coincides.
    pub fn mk_bvar(&mut self, c: &mut Counts, level: u32, ty: ValId) -> (r: Result<V, TcError>)
        requires
            old(self).wf(old(c)),
            old(c).live(Kind::Val, ty),
            old(c).live(Kind::Spine, SPINE_EMPTY),
        ensures
            final(self).wf(final(c)),
            final(self).keeps(old(self)),
            final(self).counted(final(c), old(c)),
            r matches Ok(v) ==> v.id_spec() < final(self).vals@.len() && final(self).made(
                old(self),
                Vals::hit(old(self).tabs.rigid@, RigidHead::BVar(level, ty).key_spec(SPINE_EMPTY), old(c), Kind::Val),
                Value::Rigid { head: RigidHead::BVar(level, ty), spine: SPINE_EMPTY },
                v.id_spec(),
            ) && final(c).live(Kind::Val, v.id_spec()),
            r is Ok ==> final(c).charged(
                old(c),
                Kind::Val,
                Vals::hit(old(self).tabs.rigid@, RigidHead::BVar(level, ty).key_spec(SPINE_EMPTY), old(c), Kind::Val),
                (Value::Rigid { head: RigidHead::BVar(level, ty), spine: SPINE_EMPTY }).children(),
            ),
            r is Err ==> r == Err::<V, TcError>(TcError::Full) && final(self).vals@ == old(self).vals@
                && old(self).vals@.len() == MAX_NODES,
            Vals::named(old(self).tabs, old(self).vals@, old(self).spines@) && old(c).all_live() ==> Vals::named(
                final(self).tabs,
                final(self).vals@,
                final(self).spines@,
            ),
    {
        self.mk_rigid(c, RigidHead::BVar(level, ty), SPINE_EMPTY)
    }

    /// A constant applied, kept folded.
    pub fn mk_unfold(&mut self, c: &mut Counts, name: NamePtr, levels: LevelsPtr, spine: SpineId)
        -> (r: Result<V, TcError>)
        requires
            old(self).wf(old(c)),
            old(c).live_all((Value::Unfold { name, levels, spine, forced: None }).children()),
        ensures
            final(self).wf(final(c)),
            final(self).keeps(old(self)),
            final(self).counted(final(c), old(c)),
            r matches Ok(v) ==> v.id_spec() < final(self).vals@.len() && final(self).made(
                old(self),
                Vals::hit(old(self).tabs.unfold@, (name, levels, spine, 0u32), old(c), Kind::Val),
                Value::Unfold { name, levels, spine, forced: None },
                v.id_spec(),
            ) && final(c).live(Kind::Val, v.id_spec())
                && final(self).tabs.unfold@.contains_key((name, levels, spine, 0u32))
                && final(self).tabs.unfold@[(name, levels, spine, 0u32)] == v.id_spec(),
            r matches Ok(v) ==> final(self).vals@[v.id_spec() as int].bare()
                == (Value::Unfold { name, levels, spine, forced: None }),
            Vals::named(old(self).tabs, old(self).vals@, old(self).spines@) && old(c).all_live() ==> Vals::named(
                final(self).tabs,
                final(self).vals@,
                final(self).spines@,
            ),
            r is Ok ==> final(c).charged(
                old(c),
                Kind::Val,
                Vals::hit(old(self).tabs.unfold@, (name, levels, spine, 0u32), old(c), Kind::Val),
                (Value::Unfold { name, levels, spine, forced: None }).children(),
            ),
            r is Err ==> r == Err::<V, TcError>(TcError::Full) && *final(self) == *old(self) && *final(c) == *old(c)
                && old(self).vals@.len() == MAX_NODES,
            forall|k: Key|
                k != (name, levels, spine, 0u32) && #[trigger] final(self).tabs.unfold@.contains_key(k)
                    ==> old(self).tabs.unfold@.contains_key(k)
                    && final(self).tabs.unfold@[k] == old(self).tabs.unfold@[k],
            final(self).tabs.spine_app == old(self).tabs.spine_app,
            final(self).tabs.spine_proj == old(self).tabs.spine_proj,
            final(self).tabs.rigid == old(self).tabs.rigid,
            final(self).tabs.lam == old(self).tabs.lam,
            final(self).tabs.pi == old(self).tabs.pi,
            final(self).tabs.sort == old(self).tabs.sort,
            final(self).tabs.nats == old(self).tabs.nats,
            final(self).tabs.strs == old(self).tabs.strs,
            final(self).tabs.thunk == old(self).tabs.thunk,
    {
        proof {
            self.lemma_wf(c);
        }
        if self.vals.len() >= MAX_NODES {
            return Err(TcError::Full);
        }
        let node = Value::Unfold { name, levels, spine, forced: None };
        let ghost o = *self;
        let ghost oc = *c;
        let fresh: u32 = self.vals.len() as u32;
        let id: u32 = intern(&mut self.tabs.unfold, c, Kind::Val, (name, levels, spine, 0), fresh);
        proof {
            reveal(Vals::wf);
            assert(o.tabs.unfold@.contains_key((name, levels, spine, 0u32))
                ==> o.tabs.unfold@[(name, levels, spine, 0u32)] < o.vals@.len());
        }
        if id == fresh {
            Vals::alloc_val(&mut self.vals, c, node);
        }
        proof {
            assert(self.vals@.len() == c.vals@.len());
            assert(c.live(Kind::Val, id));
            let v = self.vals@;
            let ov = o.vals@;
            assert(forall|i: int| 0 <= i < ov.len() ==> v[i] == ov[i]);
            assert(self.tabs_ok());
            if Vals::named(o.tabs, o.vals@, o.spines@) && oc.all_live() {
                reveal(Vals::named);
                assert forall|i: int| 0 <= i < self.vals@.len() implies Vals::val_named(
                    self.tabs,
                    #[trigger] self.vals@[i],
                    i,
                ) by {
                    if i < o.vals@.len() {
                        assert(Vals::val_named(o.tabs, o.vals@[i], i));
                        assert(oc.live(Kind::Val, i as u32));
                    }
                }
                assert forall|i: int| 1 <= i < self.spines@.len() implies Vals::spine_named(
                    self.tabs,
                    #[trigger] self.spines@[i],
                    i,
                ) by {
                    if i < o.spines@.len() {
                        assert(Vals::spine_named(o.tabs, o.spines@[i], i));
                        assert(oc.live(Kind::Spine, i as u32));
                    }
                }
            }
            self.lemma_grow(&o, c, &oc, node);
        }
        let ghost c1 = *c;
        let r = V::own(c, id);
        proof {
            c1.lemma_bumps_refl();
            c.lemma_bumps_push(&c1, &c1, Seq::empty(), Kind::Val, id);
            c.lemma_bumps(&c1, Seq::empty().push((Kind::Val, id)));
            self.lemma_wf_counts(&c1, c);
            if id == fresh {
                c.lemma_charged(&c1, &oc, Kind::Val, id, node.children());
            }
        }
        Ok(r)
    }

    /// A lambda over `env`; its binder name and style play no part in its identity.
    pub fn mk_lam(&mut self, c: &mut Counts, binder_name: NamePtr, binder_style: BinderStyle, binder_type: ExprPtr,
        env: VEnvId, body: ExprPtr) -> (r: Result<V, TcError>)
        requires
            old(self).wf(old(c)),
            old(c).live_all((Value::Lam { binder_name, binder_style, binder_type, domain: None, env,
                body }).children()),
        ensures
            final(self).wf(final(c)),
            final(self).keeps(old(self)),
            final(self).counted(final(c), old(c)),
            r matches Ok(v) ==> v.id_spec() < final(self).vals@.len() && final(self).made(
                old(self),
                Vals::hit(old(self).tabs.lam@, (binder_type, env, body, 0u32), old(c), Kind::Val),
                Value::Lam { binder_name, binder_style, binder_type, domain: None, env, body },
                v.id_spec(),
            ) && final(c).live(Kind::Val, v.id_spec())
                && final(self).tabs.lam@.contains_key((binder_type, env, body, 0u32))
                && final(self).tabs.lam@[(binder_type, env, body, 0u32)] == v.id_spec(),
            r matches Ok(v) ==> Vals::is_lam(final(self).vals@[v.id_spec() as int], binder_type, env, body),
            Vals::named(old(self).tabs, old(self).vals@, old(self).spines@) && old(c).all_live() ==> Vals::named(
                final(self).tabs,
                final(self).vals@,
                final(self).spines@,
            ),
            r is Ok ==> final(c).charged(
                old(c),
                Kind::Val,
                Vals::hit(old(self).tabs.lam@, (binder_type, env, body, 0u32), old(c), Kind::Val),
                (Value::Lam { binder_name, binder_style, binder_type, domain: None, env, body }).children(),
            ),
            r is Err ==> r == Err::<V, TcError>(TcError::Full) && *final(self) == *old(self) && *final(c) == *old(c)
                && old(self).vals@.len() == MAX_NODES,
            forall|k: Key|
                k != (binder_type, env, body, 0u32) && #[trigger] final(self).tabs.lam@.contains_key(k)
                    ==> old(self).tabs.lam@.contains_key(k)
                    && final(self).tabs.lam@[k] == old(self).tabs.lam@[k],
            final(self).tabs.spine_app == old(self).tabs.spine_app,
            final(self).tabs.spine_proj == old(self).tabs.spine_proj,
            final(self).tabs.rigid == old(self).tabs.rigid,
            final(self).tabs.unfold == old(self).tabs.unfold,
            final(self).tabs.pi == old(self).tabs.pi,
            final(self).tabs.sort == old(self).tabs.sort,
            final(self).tabs.nats == old(self).tabs.nats,
            final(self).tabs.strs == old(self).tabs.strs,
            final(self).tabs.thunk == old(self).tabs.thunk,
    {
        proof {
            self.lemma_wf(c);
        }
        if self.vals.len() >= MAX_NODES {
            return Err(TcError::Full);
        }
        let node = Value::Lam { binder_name, binder_style, binder_type, domain: None, env, body };
        let ghost o = *self;
        let ghost oc = *c;
        let fresh: u32 = self.vals.len() as u32;
        let id: u32 = intern(&mut self.tabs.lam, c, Kind::Val, (binder_type, env, body, 0), fresh);
        proof {
            reveal(Vals::wf);
            assert(o.tabs.lam@.contains_key((binder_type, env, body, 0u32))
                ==> o.tabs.lam@[(binder_type, env, body, 0u32)] < o.vals@.len());
        }
        if id == fresh {
            Vals::alloc_val(&mut self.vals, c, node);
        }
        proof {
            assert(self.vals@.len() == c.vals@.len());
            assert(c.live(Kind::Val, id));
            let v = self.vals@;
            let ov = o.vals@;
            assert(forall|i: int| 0 <= i < ov.len() ==> v[i] == ov[i]);
            assert(self.tabs_ok());
            if Vals::named(o.tabs, o.vals@, o.spines@) && oc.all_live() {
                reveal(Vals::named);
                assert forall|i: int| 0 <= i < self.vals@.len() implies Vals::val_named(
                    self.tabs,
                    #[trigger] self.vals@[i],
                    i,
                ) by {
                    if i < o.vals@.len() {
                        assert(Vals::val_named(o.tabs, o.vals@[i], i));
                        assert(oc.live(Kind::Val, i as u32));
                    }
                }
                assert forall|i: int| 1 <= i < self.spines@.len() implies Vals::spine_named(
                    self.tabs,
                    #[trigger] self.spines@[i],
                    i,
                ) by {
                    if i < o.spines@.len() {
                        assert(Vals::spine_named(o.tabs, o.spines@[i], i));
                        assert(oc.live(Kind::Spine, i as u32));
                    }
                }
            }
            self.lemma_grow(&o, c, &oc, node);
        }
        let ghost c1 = *c;
        let r = V::own(c, id);
        proof {
            c1.lemma_bumps_refl();
            c.lemma_bumps_push(&c1, &c1, Seq::empty(), Kind::Val, id);
            c.lemma_bumps(&c1, Seq::empty().push((Kind::Val, id)));
            self.lemma_wf_counts(&c1, c);
            if id == fresh {
                c.lemma_charged(&c1, &oc, Kind::Val, id, node.children());
            }
        }
        Ok(r)
    }

    /// A function type over `env`; its binder name and style play no part in its identity.
    pub fn mk_pi(&mut self, c: &mut Counts, binder_name: NamePtr, binder_style: BinderStyle, domain: ValId,
        env: VEnvId, body: ExprPtr) -> (r: Result<V, TcError>)
        requires
            old(self).wf(old(c)),
            old(c).live_all((Value::Pi { binder_name, binder_style, domain, env, body }).children()),
        ensures
            final(self).wf(final(c)),
            final(self).keeps(old(self)),
            final(self).counted(final(c), old(c)),
            r matches Ok(v) ==> v.id_spec() < final(self).vals@.len() && final(self).made(
                old(self),
                Vals::hit(old(self).tabs.pi@, (domain, env, body, 0u32), old(c), Kind::Val),
                Value::Pi { binder_name, binder_style, domain, env, body },
                v.id_spec(),
            ) && final(c).live(Kind::Val, v.id_spec()) && final(self).tabs.pi@.contains_key((domain, env, body, 0u32))
                && final(self).tabs.pi@[(domain, env, body, 0u32)] == v.id_spec(),
            r matches Ok(v) ==> Vals::is_pi(final(self).vals@[v.id_spec() as int], domain, env, body),
            Vals::named(old(self).tabs, old(self).vals@, old(self).spines@) && old(c).all_live() ==> Vals::named(
                final(self).tabs,
                final(self).vals@,
                final(self).spines@,
            ),
            r is Ok ==> final(c).charged(
                old(c),
                Kind::Val,
                Vals::hit(old(self).tabs.pi@, (domain, env, body, 0u32), old(c), Kind::Val),
                (Value::Pi { binder_name, binder_style, domain, env, body }).children(),
            ),
            r is Err ==> r == Err::<V, TcError>(TcError::Full) && *final(self) == *old(self) && *final(c) == *old(c)
                && old(self).vals@.len() == MAX_NODES,
            forall|k: Key|
                k != (domain, env, body, 0u32) && #[trigger] final(self).tabs.pi@.contains_key(k)
                    ==> old(self).tabs.pi@.contains_key(k)
                    && final(self).tabs.pi@[k] == old(self).tabs.pi@[k],
            final(self).tabs.spine_app == old(self).tabs.spine_app,
            final(self).tabs.spine_proj == old(self).tabs.spine_proj,
            final(self).tabs.rigid == old(self).tabs.rigid,
            final(self).tabs.unfold == old(self).tabs.unfold,
            final(self).tabs.lam == old(self).tabs.lam,
            final(self).tabs.sort == old(self).tabs.sort,
            final(self).tabs.nats == old(self).tabs.nats,
            final(self).tabs.strs == old(self).tabs.strs,
            final(self).tabs.thunk == old(self).tabs.thunk,
    {
        proof {
            self.lemma_wf(c);
        }
        if self.vals.len() >= MAX_NODES {
            return Err(TcError::Full);
        }
        let node = Value::Pi { binder_name, binder_style, domain, env, body };
        let ghost o = *self;
        let ghost oc = *c;
        let fresh: u32 = self.vals.len() as u32;
        let id: u32 = intern(&mut self.tabs.pi, c, Kind::Val, (domain, env, body, 0), fresh);
        proof {
            reveal(Vals::wf);
            assert(o.tabs.pi@.contains_key((domain, env, body, 0u32))
                ==> o.tabs.pi@[(domain, env, body, 0u32)] < o.vals@.len());
        }
        if id == fresh {
            Vals::alloc_val(&mut self.vals, c, node);
        }
        proof {
            assert(self.vals@.len() == c.vals@.len());
            assert(c.live(Kind::Val, id));
            let v = self.vals@;
            let ov = o.vals@;
            assert(forall|i: int| 0 <= i < ov.len() ==> v[i] == ov[i]);
            assert(self.tabs_ok());
            if Vals::named(o.tabs, o.vals@, o.spines@) && oc.all_live() {
                reveal(Vals::named);
                assert forall|i: int| 0 <= i < self.vals@.len() implies Vals::val_named(
                    self.tabs,
                    #[trigger] self.vals@[i],
                    i,
                ) by {
                    if i < o.vals@.len() {
                        assert(Vals::val_named(o.tabs, o.vals@[i], i));
                        assert(oc.live(Kind::Val, i as u32));
                    }
                }
                assert forall|i: int| 1 <= i < self.spines@.len() implies Vals::spine_named(
                    self.tabs,
                    #[trigger] self.spines@[i],
                    i,
                ) by {
                    if i < o.spines@.len() {
                        assert(Vals::spine_named(o.tabs, o.spines@[i], i));
                        assert(oc.live(Kind::Spine, i as u32));
                    }
                }
            }
            self.lemma_grow(&o, c, &oc, node);
        }
        let ghost c1 = *c;
        let r = V::own(c, id);
        proof {
            c1.lemma_bumps_refl();
            c.lemma_bumps_push(&c1, &c1, Seq::empty(), Kind::Val, id);
            c.lemma_bumps(&c1, Seq::empty().push((Kind::Val, id)));
            self.lemma_wf_counts(&c1, c);
            if id == fresh {
                c.lemma_charged(&c1, &oc, Kind::Val, id, node.children());
            }
        }
        Ok(r)
    }

    /// A sort.
    pub fn mk_sort(&mut self, c: &mut Counts, level: LevelPtr) -> (r: Result<V, TcError>)
        requires
            old(self).wf(old(c)),
            old(c).live_all((Value::Sort { level }).children()),
        ensures
            final(self).wf(final(c)),
            final(self).keeps(old(self)),
            final(self).counted(final(c), old(c)),
            r matches Ok(v) ==> v.id_spec() < final(self).vals@.len() && final(self).made(
                old(self),
                Vals::hit(old(self).tabs.sort@, (level, 0u32, 0u32, 0u32), old(c), Kind::Val),
                Value::Sort { level },
                v.id_spec(),
            ) && final(c).live(Kind::Val, v.id_spec())
                && final(self).tabs.sort@.contains_key((level, 0u32, 0u32, 0u32))
                && final(self).tabs.sort@[(level, 0u32, 0u32, 0u32)] == v.id_spec(),
            r matches Ok(v) ==> final(self).vals@[v.id_spec() as int].bare() == (Value::Sort { level }),
            Vals::named(old(self).tabs, old(self).vals@, old(self).spines@) && old(c).all_live() ==> Vals::named(
                final(self).tabs,
                final(self).vals@,
                final(self).spines@,
            ),
            r is Ok ==> final(c).charged(
                old(c),
                Kind::Val,
                Vals::hit(old(self).tabs.sort@, (level, 0u32, 0u32, 0u32), old(c), Kind::Val),
                (Value::Sort { level }).children(),
            ),
            r is Err ==> r == Err::<V, TcError>(TcError::Full) && *final(self) == *old(self) && *final(c) == *old(c)
                && old(self).vals@.len() == MAX_NODES,
            forall|k: Key|
                k != (level, 0u32, 0u32, 0u32) && #[trigger] final(self).tabs.sort@.contains_key(k)
                    ==> old(self).tabs.sort@.contains_key(k)
                    && final(self).tabs.sort@[k] == old(self).tabs.sort@[k],
            final(self).tabs.spine_app == old(self).tabs.spine_app,
            final(self).tabs.spine_proj == old(self).tabs.spine_proj,
            final(self).tabs.rigid == old(self).tabs.rigid,
            final(self).tabs.unfold == old(self).tabs.unfold,
            final(self).tabs.lam == old(self).tabs.lam,
            final(self).tabs.pi == old(self).tabs.pi,
            final(self).tabs.nats == old(self).tabs.nats,
            final(self).tabs.strs == old(self).tabs.strs,
            final(self).tabs.thunk == old(self).tabs.thunk,
    {
        proof {
            self.lemma_wf(c);
        }
        if self.vals.len() >= MAX_NODES {
            return Err(TcError::Full);
        }
        let node = Value::Sort { level };
        let ghost o = *self;
        let ghost oc = *c;
        let fresh: u32 = self.vals.len() as u32;
        let id: u32 = intern(&mut self.tabs.sort, c, Kind::Val, (level, 0, 0, 0), fresh);
        proof {
            reveal(Vals::wf);
            assert(o.tabs.sort@.contains_key((level, 0u32, 0u32, 0u32))
                ==> o.tabs.sort@[(level, 0u32, 0u32, 0u32)] < o.vals@.len());
        }
        if id == fresh {
            Vals::alloc_val(&mut self.vals, c, node);
        }
        proof {
            assert(self.vals@.len() == c.vals@.len());
            assert(c.live(Kind::Val, id));
            let v = self.vals@;
            let ov = o.vals@;
            assert(forall|i: int| 0 <= i < ov.len() ==> v[i] == ov[i]);
            assert(self.tabs_ok());
            if Vals::named(o.tabs, o.vals@, o.spines@) && oc.all_live() {
                reveal(Vals::named);
                assert forall|i: int| 0 <= i < self.vals@.len() implies Vals::val_named(
                    self.tabs,
                    #[trigger] self.vals@[i],
                    i,
                ) by {
                    if i < o.vals@.len() {
                        assert(Vals::val_named(o.tabs, o.vals@[i], i));
                        assert(oc.live(Kind::Val, i as u32));
                    }
                }
                assert forall|i: int| 1 <= i < self.spines@.len() implies Vals::spine_named(
                    self.tabs,
                    #[trigger] self.spines@[i],
                    i,
                ) by {
                    if i < o.spines@.len() {
                        assert(Vals::spine_named(o.tabs, o.spines@[i], i));
                        assert(oc.live(Kind::Spine, i as u32));
                    }
                }
            }
            self.lemma_grow(&o, c, &oc, node);
        }
        let ghost c1 = *c;
        let r = V::own(c, id);
        proof {
            c1.lemma_bumps_refl();
            c.lemma_bumps_push(&c1, &c1, Seq::empty(), Kind::Val, id);
            c.lemma_bumps(&c1, Seq::empty().push((Kind::Val, id)));
            self.lemma_wf_counts(&c1, c);
            if id == fresh {
                c.lemma_charged(&c1, &oc, Kind::Val, id, node.children());
            }
        }
        Ok(r)
    }

    /// A natural number literal.
    pub fn mk_nat(&mut self, c: &mut Counts, ptr: BigUintPtr) -> (r: Result<V, TcError>)
        requires
            old(self).wf(old(c)),
            old(c).live_all((Value::NatLit { ptr }).children()),
        ensures
            final(self).wf(final(c)),
            final(self).keeps(old(self)),
            final(self).counted(final(c), old(c)),
            r matches Ok(v) ==> v.id_spec() < final(self).vals@.len() && final(self).made(
                old(self),
                Vals::hit(old(self).tabs.nats@, (ptr, 0u32, 0u32, 0u32), old(c), Kind::Val),
                Value::NatLit { ptr },
                v.id_spec(),
            ) && final(c).live(Kind::Val, v.id_spec()) && final(self).tabs.nats@.contains_key((ptr, 0u32, 0u32, 0u32))
                && final(self).tabs.nats@[(ptr, 0u32, 0u32, 0u32)] == v.id_spec(),
            r matches Ok(v) ==> final(self).vals@[v.id_spec() as int].bare() == (Value::NatLit { ptr }),
            Vals::named(old(self).tabs, old(self).vals@, old(self).spines@) && old(c).all_live() ==> Vals::named(
                final(self).tabs,
                final(self).vals@,
                final(self).spines@,
            ),
            r is Ok ==> final(c).charged(
                old(c),
                Kind::Val,
                Vals::hit(old(self).tabs.nats@, (ptr, 0u32, 0u32, 0u32), old(c), Kind::Val),
                (Value::NatLit { ptr }).children(),
            ),
            r is Err ==> r == Err::<V, TcError>(TcError::Full) && *final(self) == *old(self) && *final(c) == *old(c)
                && old(self).vals@.len() == MAX_NODES,
            forall|k: Key|
                k != (ptr, 0u32, 0u32, 0u32) && #[trigger] final(self).tabs.nats@.contains_key(k)
                    ==> old(self).tabs.nats@.contains_key(k)
                    && final(self).tabs.nats@[k] == old(self).tabs.nats@[k],
            final(self).tabs.spine_app == old(self).tabs.spine_app,
            final(self).tabs.spine_proj == old(self).tabs.spine_proj,
            final(self).tabs.rigid == old(self).tabs.rigid,
            final(self).tabs.unfold == old(self).tabs.unfold,
            final(self).tabs.lam == old(self).tabs.lam,
            final(self).tabs.pi == old(self).tabs.pi,
            final(self).tabs.sort == old(self).tabs.sort,
            final(self).tabs.strs == old(self).tabs.strs,
            final(self).tabs.thunk == old(self).tabs.thunk,
    {
        proof {
            self.lemma_wf(c);
        }
        if self.vals.len() >= MAX_NODES {
            return Err(TcError::Full);
        }
        let node = Value::NatLit { ptr };
        let ghost o = *self;
        let ghost oc = *c;
        let fresh: u32 = self.vals.len() as u32;
        let id: u32 = intern(&mut self.tabs.nats, c, Kind::Val, (ptr, 0, 0, 0), fresh);
        proof {
            reveal(Vals::wf);
            assert(o.tabs.nats@.contains_key((ptr, 0u32, 0u32, 0u32))
                ==> o.tabs.nats@[(ptr, 0u32, 0u32, 0u32)] < o.vals@.len());
        }
        if id == fresh {
            Vals::alloc_val(&mut self.vals, c, node);
        }
        proof {
            assert(self.vals@.len() == c.vals@.len());
            assert(c.live(Kind::Val, id));
            let v = self.vals@;
            let ov = o.vals@;
            assert(forall|i: int| 0 <= i < ov.len() ==> v[i] == ov[i]);
            assert(self.tabs_ok());
            if Vals::named(o.tabs, o.vals@, o.spines@) && oc.all_live() {
                reveal(Vals::named);
                assert forall|i: int| 0 <= i < self.vals@.len() implies Vals::val_named(
                    self.tabs,
                    #[trigger] self.vals@[i],
                    i,
                ) by {
                    if i < o.vals@.len() {
                        assert(Vals::val_named(o.tabs, o.vals@[i], i));
                        assert(oc.live(Kind::Val, i as u32));
                    }
                }
                assert forall|i: int| 1 <= i < self.spines@.len() implies Vals::spine_named(
                    self.tabs,
                    #[trigger] self.spines@[i],
                    i,
                ) by {
                    if i < o.spines@.len() {
                        assert(Vals::spine_named(o.tabs, o.spines@[i], i));
                        assert(oc.live(Kind::Spine, i as u32));
                    }
                }
            }
            self.lemma_grow(&o, c, &oc, node);
        }
        let ghost c1 = *c;
        let r = V::own(c, id);
        proof {
            c1.lemma_bumps_refl();
            c.lemma_bumps_push(&c1, &c1, Seq::empty(), Kind::Val, id);
            c.lemma_bumps(&c1, Seq::empty().push((Kind::Val, id)));
            self.lemma_wf_counts(&c1, c);
            if id == fresh {
                c.lemma_charged(&c1, &oc, Kind::Val, id, node.children());
            }
        }
        Ok(r)
    }

    /// A string literal.
    pub fn mk_str(&mut self, c: &mut Counts, ptr: StringPtr) -> (r: Result<V, TcError>)
        requires
            old(self).wf(old(c)),
            old(c).live_all((Value::StrLit { ptr }).children()),
        ensures
            final(self).wf(final(c)),
            final(self).keeps(old(self)),
            final(self).counted(final(c), old(c)),
            r matches Ok(v) ==> v.id_spec() < final(self).vals@.len() && final(self).made(
                old(self),
                Vals::hit(old(self).tabs.strs@, (ptr, 0u32, 0u32, 0u32), old(c), Kind::Val),
                Value::StrLit { ptr },
                v.id_spec(),
            ) && final(c).live(Kind::Val, v.id_spec()) && final(self).tabs.strs@.contains_key((ptr, 0u32, 0u32, 0u32))
                && final(self).tabs.strs@[(ptr, 0u32, 0u32, 0u32)] == v.id_spec(),
            r matches Ok(v) ==> final(self).vals@[v.id_spec() as int].bare() == (Value::StrLit { ptr }),
            Vals::named(old(self).tabs, old(self).vals@, old(self).spines@) && old(c).all_live() ==> Vals::named(
                final(self).tabs,
                final(self).vals@,
                final(self).spines@,
            ),
            r is Ok ==> final(c).charged(
                old(c),
                Kind::Val,
                Vals::hit(old(self).tabs.strs@, (ptr, 0u32, 0u32, 0u32), old(c), Kind::Val),
                (Value::StrLit { ptr }).children(),
            ),
            r is Err ==> r == Err::<V, TcError>(TcError::Full) && *final(self) == *old(self) && *final(c) == *old(c)
                && old(self).vals@.len() == MAX_NODES,
            forall|k: Key|
                k != (ptr, 0u32, 0u32, 0u32) && #[trigger] final(self).tabs.strs@.contains_key(k)
                    ==> old(self).tabs.strs@.contains_key(k)
                    && final(self).tabs.strs@[k] == old(self).tabs.strs@[k],
            final(self).tabs.spine_app == old(self).tabs.spine_app,
            final(self).tabs.spine_proj == old(self).tabs.spine_proj,
            final(self).tabs.rigid == old(self).tabs.rigid,
            final(self).tabs.unfold == old(self).tabs.unfold,
            final(self).tabs.lam == old(self).tabs.lam,
            final(self).tabs.pi == old(self).tabs.pi,
            final(self).tabs.sort == old(self).tabs.sort,
            final(self).tabs.nats == old(self).tabs.nats,
            final(self).tabs.thunk == old(self).tabs.thunk,
    {
        proof {
            self.lemma_wf(c);
        }
        if self.vals.len() >= MAX_NODES {
            return Err(TcError::Full);
        }
        let node = Value::StrLit { ptr };
        let ghost o = *self;
        let ghost oc = *c;
        let fresh: u32 = self.vals.len() as u32;
        let id: u32 = intern(&mut self.tabs.strs, c, Kind::Val, (ptr, 0, 0, 0), fresh);
        proof {
            reveal(Vals::wf);
            assert(o.tabs.strs@.contains_key((ptr, 0u32, 0u32, 0u32))
                ==> o.tabs.strs@[(ptr, 0u32, 0u32, 0u32)] < o.vals@.len());
        }
        if id == fresh {
            Vals::alloc_val(&mut self.vals, c, node);
        }
        proof {
            assert(self.vals@.len() == c.vals@.len());
            assert(c.live(Kind::Val, id));
            let v = self.vals@;
            let ov = o.vals@;
            assert(forall|i: int| 0 <= i < ov.len() ==> v[i] == ov[i]);
            assert(self.tabs_ok());
            if Vals::named(o.tabs, o.vals@, o.spines@) && oc.all_live() {
                reveal(Vals::named);
                assert forall|i: int| 0 <= i < self.vals@.len() implies Vals::val_named(
                    self.tabs,
                    #[trigger] self.vals@[i],
                    i,
                ) by {
                    if i < o.vals@.len() {
                        assert(Vals::val_named(o.tabs, o.vals@[i], i));
                        assert(oc.live(Kind::Val, i as u32));
                    }
                }
                assert forall|i: int| 1 <= i < self.spines@.len() implies Vals::spine_named(
                    self.tabs,
                    #[trigger] self.spines@[i],
                    i,
                ) by {
                    if i < o.spines@.len() {
                        assert(Vals::spine_named(o.tabs, o.spines@[i], i));
                        assert(oc.live(Kind::Spine, i as u32));
                    }
                }
            }
            self.lemma_grow(&o, c, &oc, node);
        }
        let ghost c1 = *c;
        let r = V::own(c, id);
        proof {
            c1.lemma_bumps_refl();
            c.lemma_bumps_push(&c1, &c1, Seq::empty(), Kind::Val, id);
            c.lemma_bumps(&c1, Seq::empty().push((Kind::Val, id)));
            self.lemma_wf_counts(&c1, c);
            if id == fresh {
                c.lemma_charged(&c1, &oc, Kind::Val, id, node.children());
            }
        }
        Ok(r)
    }

    /// A thunk interned under `key_env`, the environment projected onto the
    /// entries `expr` reads, and forced under `env`, the environment whose
    /// indices `expr`'s variables name.  Two closures agreeing on the read
    /// entries share the thunk, and with it the forced cell.
    pub fn mk_thunk_keyed(&mut self, c: &mut Counts, key_env: VEnvId, env: VEnvId, expr: ExprPtr)
        -> (r: Result<V, TcError>)
        requires
            old(self).wf(old(c)),
            old(c).live_all((Value::Thunk { env, expr, forced: None }).children()),
        ensures
            final(self).wf(final(c)),
            final(self).keeps(old(self)),
            final(self).counted(final(c), old(c)),
            r matches Ok(v) ==> v.id_spec() < final(self).vals@.len() && final(self).made(
                old(self),
                Vals::hit(old(self).tabs.thunk@, (key_env, expr, 0u32, 0u32), old(c), Kind::Val),
                Value::Thunk { env, expr, forced: None },
                v.id_spec(),
            ) && final(c).live(Kind::Val, v.id_spec())
                && final(self).tabs.thunk@.contains_key((key_env, expr, 0u32, 0u32))
                && final(self).tabs.thunk@[(key_env, expr, 0u32, 0u32)] == v.id_spec(),
            r matches Ok(v) ==> Vals::is_thunk(final(self).vals@[v.id_spec() as int], expr),
            Vals::named(old(self).tabs, old(self).vals@, old(self).spines@) && old(c).all_live() ==> Vals::named(
                final(self).tabs,
                final(self).vals@,
                final(self).spines@,
            ),
            r is Ok ==> final(c).charged(
                old(c),
                Kind::Val,
                Vals::hit(old(self).tabs.thunk@, (key_env, expr, 0u32, 0u32), old(c), Kind::Val),
                (Value::Thunk { env, expr, forced: None }).children(),
            ),
            r is Err ==> r == Err::<V, TcError>(TcError::Full) && *final(self) == *old(self) && *final(c) == *old(c)
                && old(self).vals@.len() == MAX_NODES,
            forall|k: Key|
                k != (key_env, expr, 0u32, 0u32) && #[trigger] final(self).tabs.thunk@.contains_key(k)
                    ==> old(self).tabs.thunk@.contains_key(k)
                    && final(self).tabs.thunk@[k] == old(self).tabs.thunk@[k],
            final(self).tabs.spine_app == old(self).tabs.spine_app,
            final(self).tabs.spine_proj == old(self).tabs.spine_proj,
            final(self).tabs.rigid == old(self).tabs.rigid,
            final(self).tabs.unfold == old(self).tabs.unfold,
            final(self).tabs.lam == old(self).tabs.lam,
            final(self).tabs.pi == old(self).tabs.pi,
            final(self).tabs.sort == old(self).tabs.sort,
            final(self).tabs.nats == old(self).tabs.nats,
            final(self).tabs.strs == old(self).tabs.strs,
    {
        proof {
            self.lemma_wf(c);
        }
        if self.vals.len() >= MAX_NODES {
            return Err(TcError::Full);
        }
        let node = Value::Thunk { env, expr, forced: None };
        let ghost o = *self;
        let ghost oc = *c;
        let fresh: u32 = self.vals.len() as u32;
        let id: u32 = intern(&mut self.tabs.thunk, c, Kind::Val, (key_env, expr, 0, 0), fresh);
        proof {
            reveal(Vals::wf);
            assert(o.tabs.thunk@.contains_key((key_env, expr, 0u32, 0u32))
                ==> o.tabs.thunk@[(key_env, expr, 0u32, 0u32)] < o.vals@.len());
        }
        if id == fresh {
            Vals::alloc_val(&mut self.vals, c, node);
        }
        proof {
            assert(self.vals@.len() == c.vals@.len());
            assert(c.live(Kind::Val, id));
            let v = self.vals@;
            let ov = o.vals@;
            assert(forall|i: int| 0 <= i < ov.len() ==> v[i] == ov[i]);
            assert(self.tabs_ok());
            if Vals::named(o.tabs, o.vals@, o.spines@) && oc.all_live() {
                reveal(Vals::named);
                assert forall|i: int| 0 <= i < self.vals@.len() implies Vals::val_named(
                    self.tabs,
                    #[trigger] self.vals@[i],
                    i,
                ) by {
                    if i < o.vals@.len() {
                        assert(Vals::val_named(o.tabs, o.vals@[i], i));
                        assert(oc.live(Kind::Val, i as u32));
                    }
                }
                assert forall|i: int| 1 <= i < self.spines@.len() implies Vals::spine_named(
                    self.tabs,
                    #[trigger] self.spines@[i],
                    i,
                ) by {
                    if i < o.spines@.len() {
                        assert(Vals::spine_named(o.tabs, o.spines@[i], i));
                        assert(oc.live(Kind::Spine, i as u32));
                    }
                }
            }
            self.lemma_grow(&o, c, &oc, node);
        }
        let ghost c1 = *c;
        let r = V::own(c, id);
        proof {
            c1.lemma_bumps_refl();
            c.lemma_bumps_push(&c1, &c1, Seq::empty(), Kind::Val, id);
            c.lemma_bumps(&c1, Seq::empty().push((Kind::Val, id)));
            self.lemma_wf_counts(&c1, c);
            if id == fresh {
                c.lemma_charged(&c1, &oc, Kind::Val, id, node.children());
            }
        }
        Ok(r)
    }

    /// The spine node found in the table, or one appended.
    pub open spec fn snoced(&self, o: &Vals, hit: Option<u32>, parent: SpineId, elim: Elim, id: u32) -> bool {
        match hit {
            Some(i) => id == i && self.spines@ == o.spines@,
            None => id == o.spines@.len() && self.spines@ == o.spines@.push(
                SpineNode { elim, parent, len: (o.spines@[parent as int].len + 1) as u32 },
            ),
        }
    }

    /// The id the tables hold for the spine `parent` extended by `elim`.
    pub open spec fn spine_hit(&self, c: &Counts, parent: SpineId, elim: Elim) -> Option<u32> {
        match elim {
            Elim::App(a) => Vals::hit(self.tabs.spine_app@, (parent, a, 0u32, 0u32), c, Kind::Spine),
            Elim::Proj { ty_name, idx } => Vals::hit(
                self.tabs.spine_proj@,
                (parent, ty_name, idx, 0u32),
                c,
                Kind::Spine,
            ),
        }
    }

    /// Extend a spine.  Interned, so a spine built twice the same way is the
    /// same spine.
    pub fn spine_snoc(&mut self, c: &mut Counts, parent: SpineId, elim: Elim) -> (r: Result<S, TcError>)
        requires
            old(self).wf(old(c)),
            old(c).live(Kind::Spine, parent),
            elim matches Elim::App(a) ==> old(c).live(Kind::Val, a),
        ensures
            final(self).wf(final(c)),
            final(self).vals@ == old(self).vals@,
            final(self).tabs.thunk == old(self).tabs.thunk,
            final(self).memo == old(self).memo,
            final(self).probe == old(self).probe,
            final(c).vals@.len() == old(c).vals@.len(),
            final(c).envs@.len() == old(c).envs@.len(),
            old(c).all_live() ==> final(c).all_live(),
            final(c).only_counts(old(c)),
            r matches Ok(s) ==> 0 < s.id_spec() < final(self).spines@.len() && final(self).snoced(
                old(self),
                old(self).spine_hit(old(c), parent, elim),
                parent,
                elim,
                s.id_spec(),
            ) && final(self).spines@[s.id_spec() as int].parent == parent
                && final(self).spines@[s.id_spec() as int].elim
                == elim && final(c).live(Kind::Spine, s.id_spec()),
            Vals::named(old(self).tabs, old(self).vals@, old(self).spines@) && old(c).all_live() ==> Vals::named(
                final(self).tabs,
                final(self).vals@,
                final(self).spines@,
            ),
            r is Ok ==> final(c).charged(
                old(c),
                Kind::Spine,
                old(self).spine_hit(old(c), parent, elim),
                (SpineNode { elim, parent, len: 0 }).children(),
            ),
            r is Err ==> r == Err::<S, TcError>(TcError::Full) && final(self).spines@ == old(self).spines@
                && old(self).spines@.len() == MAX_NODES,
    {
        proof {
            self.lemma_wf(c);
        }
        if self.spines.len() >= MAX_NODES {
            return Err(TcError::Full);
        }
        let ghost o = *self;
        let ghost oc = *c;
        let fresh: u32 = self.spines.len() as u32;
        let id: u32 = match elim {
            Elim::App(a) => intern(&mut self.tabs.spine_app, c, Kind::Spine, (parent, a, 0, 0), fresh),
            Elim::Proj { ty_name, idx } => intern(
                &mut self.tabs.spine_proj,
                c,
                Kind::Spine,
                (parent, ty_name, idx, 0),
                fresh,
            ),
        };
        proof {
            reveal(Vals::wf);
            match elim {
                Elim::App(a) => {
                    assert(o.tabs.spine_app@.contains_key((parent, a, 0, 0)) ==> o.tabs.spine_app@[(parent, a, 0, 0)]
                        < o.spines@.len());
                },
                Elim::Proj { ty_name, idx } => {
                    assert(o.tabs.spine_proj@.contains_key((parent, ty_name, idx, 0)) ==> o.tabs.spine_proj@[(
                        parent,
                        ty_name,
                        idx,
                        0,
                    )] < o.spines@.len());
                },
            }
            assert(o.spine_ok(parent as int));
        }
        if id == fresh {
            Vals::alloc_spine(&mut self.spines, c, parent, elim);
        }
        proof {
            assert(c.live(Kind::Spine, id));
            let s = self.spines@;
            let os = o.spines@;
            assert(forall|i: int| 0 <= i < os.len() ==> s[i] == os[i]);
            assert(self.tabs_ok());
            if Vals::named(o.tabs, o.vals@, o.spines@) && oc.all_live() {
                reveal(Vals::named);
                assert forall|i: int| 0 <= i < self.vals@.len() implies Vals::val_named(
                    self.tabs,
                    #[trigger] self.vals@[i],
                    i,
                ) by {
                    if i < o.vals@.len() {
                        assert(Vals::val_named(o.tabs, o.vals@[i], i));
                        assert(oc.live(Kind::Val, i as u32));
                    }
                }
                assert forall|i: int| 1 <= i < self.spines@.len() implies Vals::spine_named(
                    self.tabs,
                    #[trigger] self.spines@[i],
                    i,
                ) by {
                    if i < o.spines@.len() {
                        assert(Vals::spine_named(o.tabs, o.spines@[i], i));
                        assert(oc.live(Kind::Spine, i as u32));
                    }
                }
            }
            assert forall|i: int| 0 <= i < self.vals@.len() implies Vals::refs_ok(
                #[trigger] self.vals@[i],
                self.vals@.len() as int,
                self.spines@.len() as int,
                c.envs@.len() as int,
            ) by {
                assert(Vals::refs_ok(
                    o.vals@[i],
                    o.vals@.len() as int,
                    o.spines@.len() as int,
                    oc.envs@.len() as int,
                ));
            }
            assert forall|i: int| 0 <= i < self.spines@.len() implies #[trigger] self.spine_ok(i) by {
                if i < os.len() {
                    assert(o.spine_ok(i));
                }
            }
            assert(self.wf(c));
        }
        let ghost c1 = *c;
        let r = S::own(c, id);
        proof {
            c1.lemma_bumps_refl();
            c.lemma_bumps_push(&c1, &c1, Seq::empty(), Kind::Spine, id);
            c.lemma_bumps(&c1, Seq::empty().push((Kind::Spine, id)));
            self.lemma_wf_counts(&c1, c);
            if id == fresh {
                c.lemma_charged(&c1, &oc, Kind::Spine, id, (SpineNode { elim, parent, len: 0 }).children());
            }
        }
        Ok(r)
    }

    /// The eliminations of a spine, outermost last.
    pub fn spine_to_vec(&self, c: &Counts, s: SpineId) -> (r: Vec<Elim>)
        requires
            self.wf(c),
            s < self.spines@.len(),
        ensures
            r@ == Vals::elims(self.spines@, s as int),
    {
        let mut rev: Vec<Elim> = Vec::new();
        let mut cur: SpineId = s;
        let ghost all = Vals::elims(self.spines@, s as int);
        proof {
            self.lemma_elims_len(c, s as int);
        }
        loop
            invariant
                self.wf(c),
                cur < self.spines@.len(),
                all == Vals::elims(self.spines@, s as int),
                Vals::elims(self.spines@, cur as int).len() == self.spines@[cur as int].len,
                Vals::elims(self.spines@, cur as int).len() + rev@.len() == all.len(),
                Vals::elims(self.spines@, cur as int) == all.take(all.len() - rev@.len()),
                forall|i: int| 0 <= i < rev@.len() ==> #[trigger] rev@[i] == all[all.len() - 1 - i],
            ensures
                rev@.len() == all.len(),
            decreases cur,
        {
            let node = *self.spines.index(cur as usize);
            proof {
                reveal(Vals::wf);
                assert(self.spine_ok(cur as int));
            }
            if node.len == 0 {
                break;
            }
            proof {
                let here = Vals::elims(self.spines@, cur as int);
                self.lemma_elims_len(c, node.parent as int);
                assert(cur > 0);
                assert(here == Vals::elims(self.spines@, node.parent as int).push(node.elim));
                assert(here.drop_last() =~= Vals::elims(self.spines@, node.parent as int));
                assert(here.drop_last() =~= all.take(all.len() - rev@.len() - 1));
                assert(here.last() == all[all.len() - rev@.len() - 1]);
            }
            rev.push(node.elim);
            cur = node.parent;
        }
        let mut out: Vec<Elim> = Vec::new();
        let mut i: usize = rev.len();
        while i > 0
            invariant
                i <= rev@.len(),
                rev@.len() == all.len(),
                out@.len() == rev@.len() - i,
                forall|j: int| 0 <= j < rev@.len() ==> #[trigger] rev@[j] == all[all.len() - 1 - j],
                forall|j: int| 0 <= j < out@.len() ==> #[trigger] out@[j] == all[j],
            decreases i,
        {
            i -= 1;
            out.push(rev[i]);
        }
        assert(out@ =~= all);
        out
    }

    /// The arguments of a spine of applications, or `None` if a projection
    /// stands anywhere in it.
    pub fn spine_args(&self, c: &Counts, s: SpineId) -> (r: Option<Vec<ValId>>)
        requires
            self.wf(c),
            s < self.spines@.len(),
        ensures
            match r {
                Some(v) => Vals::apps_of(Vals::elims(self.spines@, s as int)) == Some(v@),
                None => Vals::apps_of(Vals::elims(self.spines@, s as int)) is None,
            },
    {
        let es = self.spine_to_vec(c, s);
        let ghost all = Vals::elims(self.spines@, s as int);
        let mut out: Vec<ValId> = Vec::new();
        let mut i: usize = 0;
        while i < es.len()
            invariant
                es@ == all,
                all == Vals::elims(self.spines@, s as int),
                i <= es@.len(),
                out@.len() == i,
                forall|j: int| 0 <= j < i ==> #[trigger] all[j] is App && out@[j] == all[j]->App_0,
            decreases es@.len() - i,
        {
            match es[i] {
                Elim::App(a) => {
                    out.push(a);
                },
                Elim::Proj { .. } => {
                    assert(!(all[i as int] is App));
                    assert(Vals::apps_of(all) is None);
                    return None;
                },
            }
            i += 1;
        }
        proof {
            let want = Seq::new(all.len(), |i: int| all[i]->App_0);
            assert(out@ =~= want);
        }
        Some(out)
    }

    /// The `i`th elimination counting from the innermost application.
    pub fn spine_get(&self, c: &Counts, s: SpineId, i: usize) -> (r: Option<Elim>)
        requires
            self.wf(c),
            s < self.spines@.len(),
        ensures
            r == (if i < Vals::elims(self.spines@, s as int).len() {
                Some(Vals::elims(self.spines@, s as int)[i as int])
            } else {
                None
            }),
    {
        let ghost all = Vals::elims(self.spines@, s as int);
        proof {
            self.lemma_elims_len(c, s as int);
        }
        let len: usize = self.spine_len(s) as usize;
        if i >= len {
            return None;
        }
        let mut steps: usize = len - 1 - i;
        let mut cur: SpineId = s;
        loop
            invariant
                self.wf(c),
                cur < self.spines@.len(),
                i < all.len(),
                Vals::elims(self.spines@, cur as int) == all.take(i + 1 + steps),
                i + 1 + steps <= all.len(),
                all == Vals::elims(self.spines@, s as int),
            decreases cur,
        {
            let node = *self.spines.index(cur as usize);
            proof {
                reveal(Vals::wf);
                assert(self.spine_ok(cur as int));
                self.lemma_elims_len(c, cur as int);
            }
            if node.len == 0 {
                return None;
            }
            proof {
                let here = Vals::elims(self.spines@, cur as int);
                assert(here == Vals::elims(self.spines@, node.parent as int).push(node.elim));
                assert(here.last() == all[i + steps]);
                assert(here.drop_last() =~= Vals::elims(self.spines@, node.parent as int));
                assert(here.drop_last() =~= all.take(i + steps));
            }
            if steps == 0 {
                return Some(node.elim);
            }
            steps -= 1;
            cur = node.parent;
        }
    }

    /// The value with its cell set to `r`.
    pub open spec fn with_forced(v: Value, r: ValId) -> Value {
        match v {
            Value::Unfold { name, levels, spine, .. } => Value::Unfold { name, levels, spine, forced: Some(r) },
            Value::Thunk { env, expr, .. } => Value::Thunk { env, expr, forced: Some(r) },
            _ => v,
        }
    }

    /// The lambda with its domain set to `d`.
    pub open spec fn with_domain(v: Value, d: ValId) -> Value {
        match v {
            Value::Lam { binder_name, binder_style, binder_type, env, body, .. } => Value::Lam {
                binder_name,
                binder_style,
                binder_type,
                domain: Some(d),
                env,
                body,
            },
            _ => v,
        }
    }

    /// Rewriting the cell of one value keeps the nodes well formed.
    proof fn lemma_cell(&self, o: &Vals, c: &Counts, oc: &Counts, v: ValId, node: Value)
        requires
            o.wf(oc),
            v < o.vals@.len(),
            self.vals@ == o.vals@.update(v as int, node),
            node.bare() == o.vals@[v as int].bare(),
            node.children() == o.vals@[v as int].children(),
            match node {
                Value::Unfold { forced: Some(f), .. } => f < o.vals@.len(),
                Value::Thunk { forced: Some(f), .. } => f < o.vals@.len(),
                Value::Lam { domain: Some(d), .. } => d < o.vals@.len(),
                _ => true,
            },
            self.spines@ == o.spines@,
            self.tabs == o.tabs,
            c.vals@.len() == oc.vals@.len(),
            c.spines@.len() == oc.spines@.len(),
            c.envs@.len() == oc.envs@.len(),
        ensures
            self.wf(c),
            Vals::named(o.tabs, o.vals@, o.spines@) ==> Vals::named(self.tabs, self.vals@, self.spines@),
    {
        reveal(Vals::wf);
        let nv = self.vals@.len() as int;
        let ns = self.spines@.len() as int;
        let ne = c.envs@.len() as int;
        assert forall|i: int| 0 <= i < self.vals@.len() implies Vals::refs_ok(#[trigger] self.vals@[i], nv, ns, ne) by {
            assert(Vals::refs_ok(o.vals@[i], nv, ns, ne));
        }
        assert forall|i: int| 0 <= i < self.spines@.len() implies #[trigger] self.spine_ok(i) by {
            assert(o.spine_ok(i));
        }
        assert(forall|i: int| 0 <= i < nv ==> self.vals@[i].bare() == o.vals@[i].bare());
        assert(self.tabs_ok());
        if Vals::named(o.tabs, o.vals@, o.spines@) {
            reveal(Vals::named);
            assert forall|i: int| 0 <= i < nv implies Vals::val_named(self.tabs, #[trigger] self.vals@[i], i) by {
                assert(Vals::val_named(o.tabs, o.vals@[i], i));
            }
        }
    }

    /// Record what a thunk or a folded constant evaluated to, so it is
    /// evaluated once.  The cell holds a reference to `r`, except when `r` is
    /// `v` itself, the mark of a constant that does not unfold.
    pub fn set_forced(&mut self, c: &mut Counts, v: ValId, r: ValId)
        requires
            old(self).wf(old(c)),
            old(c).wf(),
            v < old(self).vals@.len(),
            old(c).live(Kind::Val, r),
            old(self).vals@[v as int].cell(v) matches Some(f) ==> (old(self).vals@[v as int] is Lam || (old(c).live(
                Kind::Val,
                f,
            ) && old(c).count(Kind::Val, f) > 0)),
        ensures
            final(self).wf(final(c)),
            final(c).wf(),
            final(self).vals@ == old(self).vals@.update(v as int, Vals::with_forced(old(self).vals@[v as int], r)),
            final(self).spines@ == old(self).spines@,
            final(self).tabs == old(self).tabs,
            final(self).memo == old(self).memo,
            final(self).probe == old(self).probe,
            final(c).vals@.len() == old(c).vals@.len(),
            final(c).spines@ == old(c).spines@,
            final(c).envs@ == old(c).envs@,
            final(c).pins() == old(c).pins(),
            final(c).cap() == old(c).cap(),
            old(c).all_live() ==> final(c).all_live(),
            forall|i: u32| #[trigger] final(c).live(Kind::Val, i) == old(c).live(Kind::Val, i),
            Vals::named(old(self).tabs, old(self).vals@, old(self).spines@) ==> Vals::named(
                final(self).tabs,
                final(self).vals@,
                final(self).spines@,
            ),
            old(self).vals@[v as int].cell(v) matches Some(p) ==> (!(old(self).vals@[v as int] is Lam) ==> final(c).renamed(old(c), p, r)),
            // without an earlier result only `r` gains a holder
            old(self).vals@[v as int].cell(v) is None
                ==> final(c).vals@
                == (if r != v && (old(self).vals@[v as int] is Thunk || old(self).vals@[v as int] is Unfold) {
                old(c).vals@.update(r as int, Counts::bumped(old(c).vals@[r as int]))
            } else {
                old(c).vals@
            }),
    {
        let ghost o = *self;
        let ghost oc = *c;
        proof {
            self.lemma_wf(c);
        }
        let node = self.get(v);
        let (node2, prev): (Value, Option<ValId>) = match node {
            Value::Thunk { env, expr, forced } => (Value::Thunk { env, expr, forced: Some(r) }, forced),
            Value::Unfold { name, levels, spine, forced } => (
                Value::Unfold { name, levels, spine, forced: Some(r) },
                forced,
            ),
            _ => {
                assert(self.vals@ =~= o.vals@.update(v as int, node));
                return;
            },
        };
        *self.vals.index_mut(v as usize) = node2;
        if r != v {
            inc_val(c, r);
        }
        proof {
            let x = oc.vals@[r as int];
            assert(Word::of(Counts::bumped(x)).alloc == Word::of(x).alloc);
            assert(Word::of(Counts::bumped(x)).count >= Word::of(x).count);
        }
        if let Some(p) = prev {
            if p != v {
                dec_val(c, p);
            }
        }
        proof {
            self.lemma_cell(&o, c, &oc, v, node2);
        }
    }

    /// Record the value of a lambda's domain, so it is evaluated once.  The
    /// lambda holds a reference to it.
    pub fn set_domain(&mut self, c: &mut Counts, v: ValId, d: ValId)
        requires
            old(self).wf(old(c)),
            old(c).wf(),
            v < old(self).vals@.len(),
            old(c).live(Kind::Val, d),
            old(self).vals@[v as int] matches Value::Lam { domain: Some(f), .. }
                ==> old(c).live(Kind::Val, f) && old(c).count(Kind::Val, f) > 0,
        ensures
            final(self).wf(final(c)),
            final(c).wf(),
            final(self).vals@ == old(self).vals@.update(v as int, Vals::with_domain(old(self).vals@[v as int], d)),
            final(self).spines@ == old(self).spines@,
            final(self).tabs == old(self).tabs,
            final(self).memo == old(self).memo,
            final(self).probe == old(self).probe,
            final(c).vals@.len() == old(c).vals@.len(),
            final(c).spines@ == old(c).spines@,
            final(c).envs@ == old(c).envs@,
            final(c).pins() == old(c).pins(),
            final(c).cap() == old(c).cap(),
            old(c).all_live() ==> final(c).all_live(),
            forall|i: u32| #[trigger] final(c).live(Kind::Val, i) == old(c).live(Kind::Val, i),
            Vals::named(old(self).tabs, old(self).vals@, old(self).spines@) ==> Vals::named(
                final(self).tabs,
                final(self).vals@,
                final(self).spines@,
            ),
            old(self).vals@[v as int].cell(v) matches Some(p) ==> (old(self).vals@[v as int] is Lam ==> final(c).renamed(old(c), p, d)),
            // without an earlier domain only `d` gains a holder
            old(self).vals@[v as int].cell(v) is None ==> final(c).vals@ == (if old(self).vals@[v as int] is Lam {
                old(c).vals@.update(d as int, Counts::bumped(old(c).vals@[d as int]))
            } else {
                old(c).vals@
            }),
    {
        let ghost o = *self;
        let ghost oc = *c;
        proof {
            self.lemma_wf(c);
        }
        let node = self.get(v);
        match node {
            Value::Lam { binder_name, binder_style, binder_type, domain, env, body } => {
                let node2 = Value::Lam { binder_name, binder_style, binder_type, domain: Some(d), env, body };
                *self.vals.index_mut(v as usize) = node2;
                inc_val(c, d);
                proof {
                    let x = oc.vals@[d as int];
                    assert(Word::of(Counts::bumped(x)).alloc == Word::of(x).alloc);
                    assert(Word::of(Counts::bumped(x)).count >= Word::of(x).count);
                }
                if let Some(p) = domain {
                    dec_val(c, p);
                }
                proof {
                    self.lemma_cell(&o, c, &oc, v, node2);
                }
            },
            _ => {
                assert(self.vals@ =~= o.vals@.update(v as int, node));
            },
        }
    }
}

impl Memos {
    /// Nothing is remembered.
    pub open spec fn empty(&self) -> bool {
        &&& self.clo_val@ == Map::<Key, u32>::empty()
        &&& self.unfold@ == Map::<Key, Option<u32>>::empty()
        &&& self.const_val@ == Map::<Key, u32>::empty()
        &&& self.const_ty@ == Map::<Key, u32>::empty()
        &&& self.const_lvl@ == Map::<Key, Option<u32>>::empty()
        &&& self.rec_rule@ == Map::<Key, u32>::empty()
        &&& self.iota@ == Map::<Key, Option<u32>>::empty()
        &&& self.struct_eta@ == Map::<Key, Option<u32>>::empty()
        &&& self.open@ == Map::<Key, bool>::empty()
        &&& self.types@ == Map::<Key, u32>::empty()
        &&& self.local@ == Map::<Key, u32>::empty()
        &&& self.conv_pos@ == Map::<Key, bool>::empty()
        &&& self.conv_neg@ == Map::<Key, bool>::empty()
        &&& self.conv_neg_probe@ == Map::<Key, bool>::empty()
        &&& self.probe_fail@ == Map::<Key, bool>::empty()
    }
}

} // verus!
