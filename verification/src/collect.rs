//! Freeing the nodes nothing holds, and checking the counts against the nodes.
//!
//! What a count has to cover is recomputed from the live nodes: each child a
//! live node names is held once, each entry of a cache of values holds the value
//! it names, and the empty spine and the empty environment are held for as long
//! as the context lives.  Whatever a count has beyond that
//! belongs to handles and pins.
use crate::closure::{CloState, Entry, EnvNode, VIEW_BIT};
use crate::ctx::TcCtx;
use crate::nbe::{Elim, RigidHead, SpineNode, Value, Vals};
use crate::rc::{alive, drop_child, Counts, Kind, Word, ALLOC, COUNT_BITS, COUNT_MAX, STAMP_MASK};
use crate::table::WORD2;
use vstd::prelude::*;

verus! {

/// The nodes that counts are kept for.
pub struct Nodes {
    pub vals: Seq<Value>,
    pub spines: Seq<SpineNode>,
    pub envs: Seq<EnvNode>,
    /// How many entries of the caches of values name a value.
    pub caches: spec_fn(u32) -> nat,
}

/// How often `t` occurs in `s`.
pub open spec fn mult(s: Seq<(Kind, u32)>, t: (Kind, u32)) -> nat
    decreases s.len(),
{
    if s.len() == 0 {
        0
    } else {
        (if s[0] == t {
            1nat
        } else {
            0nat
        }) + mult(s.drop_first(), t)
    }
}

/// The sum of the counts in `w`.
pub open spec fn total(w: Seq<u32>) -> nat
    decreases w.len(),
{
    if w.len() == 0 {
        0
    } else {
        total(w.drop_last()) + Word::of(w.last()).count
    }
}

proof fn lemma_total(w: Seq<u32>, i: int, x: u32)
    requires
        0 <= i < w.len(),
    ensures
        total(w.update(i, x)) == total(w) - Word::of(w[i]).count + Word::of(x).count,
    decreases w.len(),
{
    if i == w.len() - 1 {
        assert(w.update(i, x).drop_last() =~= w.drop_last());
    } else {
        lemma_total(w.drop_last(), i, x);
        assert(w.update(i, x).drop_last() =~= w.drop_last().update(i, x));
    }
}

impl Entry {
    /// The node the entry refers to.
    pub open spec fn child(self) -> Seq<(Kind, u32)> {
        match self {
            Entry::V(v) => seq![(Kind::Val, v)],
            Entry::Val(_, env) => if env < VIEW_BIT {
                seq![(Kind::Env, env)]
            } else {
                Seq::empty()
            },
            Entry::Neu(_) => Seq::empty(),
        }
    }
}

impl Nodes {
    /// The nodes of a context.
    pub open spec fn of(nb: &Vals, rp: &CloState) -> Nodes {
        Nodes { vals: nb.vals@, spines: nb.spines@, envs: rp.envs@, caches: |v: u32| nb.memo.naming(v) }
    }

    pub open spec fn len(self, k: Kind) -> nat {
        match k {
            Kind::Val => self.vals.len(),
            Kind::Spine => self.spines.len(),
            Kind::Env => self.envs.len(),
        }
    }

    /// The nodes that node `i` of kind `k` holds.
    pub open spec fn kids(self, k: Kind, i: int) -> Seq<(Kind, u32)> {
        match k {
            Kind::Val => self.vals[i].children() + (match self.vals[i].cell(i as u32) {
                Some(f) => seq![(Kind::Val, f)],
                None => Seq::empty(),
            }),
            Kind::Spine => if i == 0 {
                Seq::empty()
            } else {
                self.spines[i].children()
            },
            Kind::Env => if i == 0 {
                Seq::empty()
            } else {
                seq![(Kind::Env, self.envs[i].parent)] + self.envs[i].entry.child()
            },
        }
    }

    /// How often the live ones among the first `n` nodes of kind `k`, whose
    /// words are `w`, hold `t`.
    pub open spec fn tally(self, w: Seq<u32>, k: Kind, n: nat, t: (Kind, u32)) -> nat
        decreases n,
    {
        if n == 0 {
            0
        } else {
            self.tally(w, k, (n - 1) as nat, t) + (if Word::of(w[n - 1]).alloc {
                mult(self.kids(k, n - 1), t)
            } else {
                0
            })
        }
    }

    /// How often the live nodes hold `t`.
    pub open spec fn holders(self, c: &Counts, t: (Kind, u32)) -> nat {
        self.tally(c.words(Kind::Val), Kind::Val, self.vals.len(), t) + self.tally(
            c.words(Kind::Spine),
            Kind::Spine,
            self.spines.len(),
            t,
        ) + self.tally(c.words(Kind::Env), Kind::Env, self.envs.len(), t)
    }

    /// The holder a sentinel has for as long as the context lives.
    pub open spec fn standing(t: (Kind, u32)) -> nat {
        if t.0 != Kind::Val && t.1 == 0 {
            1
        } else {
            0
        }
    }

    /// The least count of `t` while the references of a freed node to `p` are
    /// still to be given back.
    pub open spec fn need(self, c: &Counts, p: Seq<(Kind, u32)>, t: (Kind, u32)) -> nat {
        self.holders(c, t) + Nodes::standing(t) + self.cached(t) + mult(p, t)
    }

    /// How many entries of the caches name `t`.
    pub open spec fn cached(self, t: (Kind, u32)) -> nat {
        if t.0 == Kind::Val {
            (self.caches)(t.1)
        } else {
            0
        }
    }

    /// Each node has a word, and each child is a node.
    pub open spec fn sized(self, c: &Counts) -> bool {
        &&& forall|k: Kind| #[trigger] c.words(k).len() == self.len(k) <= 0x8000_0000
        &&& forall|k: Kind, i: int, j: int|
            0 <= i < self.len(k) && 0 <= j < self.kids(k, i).len() ==> (#[trigger] self.kids(k, i)[j]).1 < self.len(
                self.kids(k, i)[j].0,
            )
        &&& forall|v: u32| #[trigger] self.cached((Kind::Val, v)) > 0 ==> v < self.vals.len()
    }

    /// The count of a live node covers its need; a freed node has none.
    pub open spec fn covered(self, c: &Counts, p: Seq<(Kind, u32)>, k: Kind, id: u32) -> bool {
        if c.live(k, id) {
            c.count(k, id) == COUNT_MAX || c.count(k, id) >= self.need(c, p, (k, id))
        } else {
            self.need(c, p, (k, id)) == 0
        }
    }

    /// Every count covers its need.
    pub open spec fn owed(self, c: &Counts, p: Seq<(Kind, u32)>) -> bool {
        &&& self.sized(c)
        &&& forall|j: int| 0 <= j < p.len() ==> (#[trigger] p[j]).1 < self.len(p[j].0)
        &&& forall|k: Kind, id: u32| id < self.len(k) ==> #[trigger] self.covered(c, p, k, id)
    }

    /// Every count covers the live holders of its node.
    pub open spec fn tallied(self, c: &Counts) -> bool {
        self.owed(c, Seq::empty())
    }

    /// What became of node `id` of kind `k` since `o`: a live node was live, and
    /// what its count had beyond its live holders is what it had; a freed node
    /// had no more than its live holders.
    pub open spec fn kept(self, c: &Counts, o: &Counts, p: Seq<(Kind, u32)>, k: Kind, id: u32) -> bool {
        if c.live(k, id) {
            &&& o.live(k, id)
            &&& (c.count(k, id) == COUNT_MAX) == (o.count(k, id) == COUNT_MAX)
            &&& c.count(k, id) < COUNT_MAX ==> c.count(k, id) - self.holders(c, (k, id)) - mult(p, (k, id)) == o.count(
                k,
                id,
            ) - self.holders(o, (k, id))
            &&& c.count(k, id) <= o.count(k, id)
            &&& Word::of(c.words(k)[id as int]).stamp == Word::of(o.words(k)[id as int]).stamp
        } else {
            o.live(k, id) ==> o.count(k, id) < COUNT_MAX && o.count(k, id) == self.holders(o, (k, id))
        }
    }

    /// What became of the nodes since `o`.
    pub open spec fn since(self, c: &Counts, o: &Counts, p: Seq<(Kind, u32)>) -> bool {
        &&& forall|k: Kind, id: u32| id < self.len(k) ==> #[trigger] self.kept(c, o, p, k, id)
        &&& c.clock() == o.clock()
        &&& c.pins() == o.pins()
        &&& c.cap() == o.cap()
    }

    proof fn lemma_tally_same(self, v: Seq<u32>, w: Seq<u32>, k: Kind, n: nat, t: (Kind, u32))
        requires
            forall|i: int| 0 <= i < n ==> Word::of(#[trigger] v[i]).alloc == Word::of(w[i]).alloc,
        ensures
            self.tally(v, k, n, t) == self.tally(w, k, n, t),
        decreases n,
    {
        if n > 0 {
            self.lemma_tally_same(v, w, k, (n - 1) as nat, t);
            assert(Word::of(v[n - 1]).alloc == Word::of(w[n - 1]).alloc);
        }
    }

    proof fn lemma_tally_free(self, w: Seq<u32>, k: Kind, n: nat, id: int, t: (Kind, u32))
        requires
            0 <= id < w.len(),
            n <= w.len(),
            Word::of(w[id]).alloc,
        ensures
            self.tally(w.update(id, 0), k, n, t) == self.tally(w, k, n, t) - (if id < n {
                mult(self.kids(k, id), t)
            } else {
                0
            }),
        decreases n,
    {
        if n > 0 {
            self.lemma_tally_free(w, k, (n - 1) as nat, id, t);
        }
    }

    /// Nodes that stay live go on holding the same.
    proof fn lemma_holders_same(self, c: &Counts, d: &Counts, t: (Kind, u32))
        requires
            self.sized(c),
            self.sized(d),
            forall|k: Kind, id: u32| id < self.len(k) ==> #[trigger] c.live(k, id) == d.live(k, id),
        ensures
            self.holders(c, t) == self.holders(d, t),
    {
        assert forall|k: Kind,
            i: int| 0 <= i < self.len(k) implies Word::of(#[trigger] c.words(k)[i]).alloc == Word::of(
            d.words(k)[i],
        ).alloc by {
            assert(c.words(k).len() == self.len(k));
            assert(d.words(k).len() == self.len(k));
            assert(c.live(k, i as u32) == d.live(k, i as u32));
        }
        self.lemma_tally_same(c.words(Kind::Val), d.words(Kind::Val), Kind::Val, self.vals.len(), t);
        self.lemma_tally_same(c.words(Kind::Spine), d.words(Kind::Spine), Kind::Spine, self.spines.len(), t);
        self.lemma_tally_same(c.words(Kind::Env), d.words(Kind::Env), Kind::Env, self.envs.len(), t);
    }

    /// A freed node no longer holds its children.
    proof fn lemma_holders_free(self, c: &Counts, d: &Counts, k: Kind, id: u32, t: (Kind, u32))
        requires
            self.sized(c),
            c.live(k, id),
            d.only_words(c, k, c.words(k).update(id as int, 0)),
        ensures
            self.holders(d, t) == self.holders(c, t) - mult(self.kids(k, id as int), t),
    {
        assert(c.words(k).len() == self.len(k));
        self.lemma_tally_free(c.words(k), k, self.len(k), id as int, t);
    }

    /// Freeing a node that nothing holds leaves its references to give back.
    proof fn lemma_free(self, c: &Counts, d: &Counts, o: &Counts, k: Kind, id: u32)
        requires
            self.owed(c, Seq::empty()),
            self.since(c, o, Seq::empty()),
            c.live(k, id),
            c.count(k, id) == 0,
            d.only_words(c, k, c.words(k).update(id as int, 0)),
        ensures
            self.owed(d, self.kids(k, id as int)),
            self.since(d, o, self.kids(k, id as int)),
            forall|k2: Kind, i2: u32| (k2, i2) != (k, id) ==> #[trigger] d.live(k2, i2) == c.live(k2, i2),
            forall|k2: Kind, i2: u32|
                (k2, i2) != (k, id) && i2 < self.len(k2) ==> #[trigger] d.count(k2, i2) == c.count(k2, i2),
            !d.live(k, id),
            total(d.words(k)) == total(c.words(k)),
    {
        let p = self.kids(k, id as int);
        let e = Seq::<(Kind, u32)>::empty();
        assert(c.words(k).len() == self.len(k));
        assert forall|k2: Kind| #[trigger] d.words(k2).len() == self.len(k2) <= 0x8000_0000 by {
            assert(c.words(k2).len() == self.len(k2));
            if k2 != k {
                assert(d.words(k2) == c.words(k2));
            }
        }
        assert forall|k2: Kind, i2: u32| (k2, i2) != (k, id) implies #[trigger] d.live(k2, i2) == c.live(k2, i2)
            && (i2 < self.len(k2) ==> d.words(k2)[i2 as int] == c.words(k2)[i2 as int]) by {
            assert(c.words(k2).len() == self.len(k2));
            assert(d.words(k2).len() == self.len(k2));
            if k2 != k {
                assert(d.words(k2) == c.words(k2));
            }
        }
        assert forall|k2: Kind, i2: u32| (k2, i2) != (k, id) && i2 < self.len(k2) implies #[trigger] d.count(k2, i2)
            == c.count(k2, i2) by {
            assert(d.live(k2, i2) == c.live(k2, i2));
        }
        assert forall|k2: Kind, i2: u32| i2 < self.len(k2) implies #[trigger] self.covered(d, p, k2, i2) by {
            assert(self.covered(c, e, k2, i2));
            self.lemma_holders_free(c, d, k, id, (k2, i2));
            assert(mult(e, (k2, i2)) == 0);
            assert((k2, i2) != (k, id) ==> d.live(k2, i2) == c.live(k2, i2));
            assert((k2, i2) != (k, id) ==> d.count(k2, i2) == c.count(k2, i2));
        }
        assert forall|k2: Kind, i2: u32| i2 < self.len(k2) implies #[trigger] self.kept(d, o, p, k2, i2) by {
            assert(self.kept(c, o, e, k2, i2));
            assert(self.covered(c, e, k2, i2));
            self.lemma_holders_free(c, d, k, id, (k2, i2));
            assert(mult(e, (k2, i2)) == 0);
            assert((k2, i2) != (k, id) ==> d.live(k2, i2) == c.live(k2, i2));
        }
        lemma_total(c.words(k), id as int, 0);
    }

    /// A reference that is still to be given back is counted.
    proof fn lemma_counted(self, c: &Counts, p: Seq<(Kind, u32)>)
        requires
            self.owed(c, p),
            p.len() > 0,
        ensures
            c.live(p[0].0, p[0].1),
            c.count(p[0].0, p[0].1) > 0,
    {
        assert(self.covered(c, p, p[0].0, p[0].1));
    }

    /// Giving a reference back.
    proof fn lemma_drop(self, c: &Counts, d: &Counts, o: &Counts, p: Seq<(Kind, u32)>)
        requires
            self.owed(c, p),
            self.since(c, o, p),
            p.len() > 0,
            c.count(p[0].0, p[0].1) == COUNT_MAX ==> *d == *c,
            c.count(p[0].0, p[0].1) < COUNT_MAX ==> d.only_words(
                c,
                p[0].0,
                c.words(p[0].0).update(p[0].1 as int, (c.words(p[0].0)[p[0].1 as int] - 1) as u32),
            ),
        ensures
            self.owed(d, p.drop_first()),
            self.since(d, o, p.drop_first()),
            forall|k2: Kind, i2: u32| #[trigger] d.live(k2, i2) == c.live(k2, i2),
            forall|k2: Kind, i2: u32|
                (k2, i2) != p[0] && i2 < self.len(k2) ==> #[trigger] d.count(k2, i2) == c.count(k2, i2),
            c.count(p[0].0, p[0].1) < COUNT_MAX ==> total(d.words(p[0].0)) == total(c.words(p[0].0)) - 1,
    {
        let k = p[0].0;
        let id = p[0].1;
        let q = p.drop_first();
        self.lemma_counted(c, p);
        assert(c.words(k).len() == self.len(k));
        assert(id < self.len(k));
        let w = c.words(k)[id as int];
        let x = (w - 1) as u32;
        assert(Word::of(w).count > 0 ==> Word::of(x).count == Word::of(w).count - 1 && Word::of(x).alloc == Word::of(
            w,
        ).alloc && Word::of(x).stamp == Word::of(w).stamp) by {
            assert(w % 0x1000 > 0 ==> (w - 1) % 0x1000 == w % 0x1000 - 1 && (w - 1) / 0x1000 == w as int / 0x1000
                && (w >= 0x8000_0000 ==> w - 1 >= 0x8000_0000)) by {
                if w == 0x8000_0000 {
                    assert(w % 0x1000 == 0);
                }
            }
        }
        assert forall|k2: Kind| #[trigger] d.words(k2).len() == self.len(k2) <= 0x8000_0000 by {
            assert(c.words(k2).len() == self.len(k2));
            if k2 != k {
                assert(d.words(k2) == c.words(k2));
            }
        }
        assert forall|k2: Kind, i2: u32| #[trigger] d.live(k2, i2) == c.live(k2, i2) && ((k2, i2) != (k, id) && i2
            < self.len(k2) ==> d.count(k2, i2) == c.count(k2, i2))
                && (i2 < self.len(k2) ==> Word::of(d.words(k2)[i2 as int]).stamp == Word::of(
            c.words(k2)[i2 as int],
        ).stamp) by {
            assert(c.words(k2).len() == self.len(k2));
            assert(d.words(k2).len() == self.len(k2));
            if k2 != k {
                assert(d.words(k2) == c.words(k2));
            }
        }
        assert forall|k2: Kind, i2: u32| (k2, i2) != p[0] && i2 < self.len(k2) implies #[trigger] d.count(k2, i2)
            == c.count(k2, i2) by {
            assert(d.live(k2, i2) == c.live(k2, i2));
        }
        assert forall|j: int| 0 <= j < q.len() implies (#[trigger] q[j]).1 < self.len(q[j].0) by {
            assert(q[j] == p[j + 1]);
        }
        assert forall|k2: Kind, i2: u32| i2 < self.len(k2) implies #[trigger] self.covered(d, q, k2, i2) by {
            assert(self.covered(c, p, k2, i2));
            self.lemma_holders_same(c, d, (k2, i2));
            assert(d.live(k2, i2) == c.live(k2, i2));
        }
        assert forall|k2: Kind, i2: u32| i2 < self.len(k2) implies #[trigger] self.kept(d, o, q, k2, i2) by {
            assert(self.kept(c, o, p, k2, i2));
            assert(self.covered(c, p, k2, i2));
            self.lemma_holders_same(c, d, (k2, i2));
            assert(d.live(k2, i2) == c.live(k2, i2));
        }
        if c.count(k, id) < COUNT_MAX {
            lemma_total(c.words(k), id as int, x);
        }
    }
}

/// The nodes that node `id` of kind `k` holds.
fn kids_of(nb: &Vals, rp: &CloState, k: Kind, id: u32) -> (r: Vec<(Kind, u32)>)
    requires
        id < Nodes::of(nb, rp).len(k),
    ensures
        r@ == Nodes::of(nb, rp).kids(k, id as int),
        r@.len() <= 2,
{
    let mut r: Vec<(Kind, u32)> = Vec::new();
    match k {
        Kind::Val => match *nb.vals.index(id as usize) {
            Value::Rigid { head, spine } => {
                if let RigidHead::BVar(_, ty) = head {
                    r.push((Kind::Val, ty));
                }
                r.push((Kind::Spine, spine));
            },
            Value::Unfold { spine, forced, .. } => {
                r.push((Kind::Spine, spine));
                if let Some(f) = forced {
                    if f != id {
                        r.push((Kind::Val, f));
                    }
                }
            },
            Value::Lam { domain, env, .. } => {
                r.push((Kind::Env, env));
                if let Some(d) = domain {
                    r.push((Kind::Val, d));
                }
            },
            Value::Pi { domain, env, .. } => {
                r.push((Kind::Val, domain));
                r.push((Kind::Env, env));
            },
            Value::Thunk { env, forced, .. } => {
                r.push((Kind::Env, env));
                if let Some(f) = forced {
                    if f != id {
                        r.push((Kind::Val, f));
                    }
                }
            },
            Value::Sort { .. } | Value::NatLit { .. } | Value::StrLit { .. } => {},
        },
        Kind::Spine => {
            if id != 0 {
                let n = nb.spines.index(id as usize);
                r.push((Kind::Spine, n.parent));
                if let Elim::App(a) = n.elim {
                    r.push((Kind::Val, a));
                }
            }
        },
        Kind::Env => {
            if id != 0 {
                let n = rp.envs.index(id as usize);
                r.push((Kind::Env, n.parent));
                match n.entry {
                    Entry::V(v) => r.push((Kind::Val, v)),
                    Entry::Val(_, env) => if env < VIEW_BIT {
                        r.push((Kind::Env, env));
                    },
                    Entry::Neu(_) => {},
                }
            }
        },
    }
    assert(r@ =~= Nodes::of(nb, rp).kids(k, id as int));
    r
}

/// How many deaths ago a node stamped `stamp` was released.
fn age(clock: u32, stamp: u32) -> (r: u32)
    requires
        clock <= STAMP_MASK,
        stamp <= STAMP_MASK,
    ensures
        r == (clock - stamp) % 0x8_0000,
{
    let d: u32 = clock.wrapping_sub(stamp);
    proof {
        assert(d & 0x7_ffff == d % 0x8_0000) by (bit_vector);
        if clock < stamp {
            assert(d == 0x1_0000_0000 + clock - stamp);
            assert((0x1_0000_0000 + clock - stamp) % 0x8_0000 == (clock - stamp) % 0x8_0000);
        }
    }
    d & STAMP_MASK
}

/// The nodes waiting to be freed: live, without holders, none of them twice.
pub open spec fn doomed(c: &Counts, work: Seq<(Kind, u32)>) -> bool {
    &&& forall|i: int|
        0 <= i < work.len() ==> c.live((#[trigger] work[i]).0, work[i].1) && c.count(work[i].0, work[i].1) == 0
    &&& forall|i: int, j: int| 0 <= i < j < work.len() ==> #[trigger] work[i] != #[trigger] work[j]
}

/// What bounds the work left: each reference can be given back once.
pub open spec fn fuel(c: &Counts) -> nat {
    2 * (total(c.words(Kind::Val)) + total(c.words(Kind::Spine)) + total(c.words(Kind::Env))) + c.ring().len()
}

/// A word that marks a node without holders, stamped `stamp`.
pub open spec fn zombie(w: u32, stamp: u32) -> bool {
    Word::of(w) == (Word { alloc: true, stamp: stamp as nat, count: 0 })
}

proof fn lemma_zombie(w: u32, stamp: u32)
    ensures
        zombie(w, stamp) ==> w == (ALLOC | stamp << COUNT_BITS),
        w == (ALLOC | stamp << COUNT_BITS) ==> Word::of(w).alloc && Word::of(w).count == 0,
{
    assert(w >= 0x8000_0000 && (w / 0x1000) % 0x8_0000 == stamp && w % 0x1000 == 0 ==> w == (0x8000_0000u32 | stamp
        << 12)) by (bit_vector);
    assert(w == (0x8000_0000u32 | stamp << 12) ==> w >= 0x8000_0000 && w % 0x1000 == 0) by (bit_vector);
}

/// Entry `i` of the ring of `o`, if it was a zombie there, is freed.
pub open spec fn due_freed(c: &Counts, o: &Counts, i: int) -> bool {
    let (k, id, stamp) = o.ring()[i];
    id < o.words(k).len() && zombie(o.words(k)[id as int], stamp) ==> !c.live(k, id)
}

/// The ring of `c` holds node `id` of kind `k` with the stamp of its last
/// release, which is recent.
pub open spec fn in_ring(c: &Counts, k: Kind, id: u32) -> bool {
    let stamp = Word::of(c.words(k)[id as int]).stamp;
    &&& c.ring().contains((k, id, stamp as u32))
    &&& (c.clock() - stamp) % 0x8_0000 < c.cap()
}

/// A node that lost its last holder since `o` and is not freed waits in the
/// ring, or is still to be freed.
pub open spec fn waiting(c: &Counts, o: &Counts, work: Seq<(Kind, u32)>, k: Kind, id: u32) -> bool {
    c.live(k, id) && c.count(k, id) == 0 && o.count(k, id) > 0 ==> work.contains((k, id)) || in_ring(c, k, id)
}

impl Nodes {
    /// Every node is as `waiting` says.
    pub open spec fn all_wait(self, c: &Counts, o: &Counts, work: Seq<(Kind, u32)>) -> bool {
        forall|k: Kind, id: u32| id < self.len(k) ==> #[trigger] waiting(c, o, work, k, id)
    }

    /// Freeing a node that was to be freed.
    proof fn lemma_wait_pop(self, c: &Counts, d: &Counts, o: &Counts, w: Seq<(Kind, u32)>)
        requires
            w.len() > 0,
            self.all_wait(c, o, w),
            d.only_words(c, w.last().0, c.words(w.last().0).update(w.last().1 as int, 0)),
            w.last().1 < c.words(w.last().0).len(),
        ensures
            self.all_wait(d, o, w.drop_last()),
    {
        let (wk, wid) = w.last();
        assert forall|k: Kind, id: u32| id < self.len(k) implies #[trigger] waiting(d, o, w.drop_last(), k, id) by {
            assert(waiting(c, o, w, k, id));
            if d.live(k, id) {
                assert((k, id) != (wk, wid));
                assert(d.words(k)[id as int] == c.words(k)[id as int]);
                if w.contains((k, id)) {
                    let i = choose|i: int| 0 <= i < w.len() && w[i] == (k, id);
                    assert(w.drop_last()[i] == (k, id));
                }
            }
        }
    }

    /// Giving back one reference of a freed node: what loses its last holder is
    /// to be freed or put in the ring.
    proof fn lemma_wait_drop(
        self,
        c: &Counts,
        d: &Counts,
        b: &Counts,
        o: &Counts,
        w: Seq<(Kind, u32)>,
        v: Seq<(Kind, u32)>,
        k: Kind,
        id: u32,
    )
        requires
            self.all_wait(c, o, w),
            id < c.words(k).len(),
            d.others(c, k),
            d.words(k).len() == c.words(k).len(),
            forall|i: int| 0 <= i < c.words(k).len() && i != id ==> #[trigger] d.words(k)[i] == c.words(k)[i],
            d.ring() == c.ring(),
            d.clock() == c.clock(),
            d.cap() == c.cap(),
            b.words(Kind::Val) == d.words(Kind::Val),
            b.words(Kind::Spine) == d.words(Kind::Spine),
            b.words(Kind::Env) == d.words(Kind::Env),
            b.clock() == d.clock(),
            b.cap() == d.cap(),
            b.ring() == d.ring() || exists|x: (Kind, u32, u32)| b.ring() == #[trigger] d.ring().push(x),
            v == w || v == w.push((k, id)),
            d.live(k, id) && d.count(k, id) == 0 ==> v.contains((k, id)) || in_ring(b, k, id),
        ensures
            self.all_wait(b, o, v),
    {
        assert forall|k2: Kind, i2: u32| i2 < self.len(k2) implies #[trigger] waiting(b, o, v, k2, i2) by {
            assert(waiting(c, o, w, k2, i2));
            if (k2, i2) != (k, id) && b.live(k2, i2) {
                assert(b.words(k2)[i2 as int] == c.words(k2)[i2 as int]);
                if w.contains((k2, i2)) {
                    let i = choose|i: int| 0 <= i < w.len() && w[i] == (k2, i2);
                    assert(v[i] == (k2, i2));
                } else if in_ring(c, k2, i2) {
                    let t = (k2, i2, Word::of(c.words(k2)[i2 as int]).stamp as u32);
                    let i = choose|i: int| 0 <= i < c.ring().len() && c.ring()[i] == t;
                    assert(b.ring()[i] == t);
                }
            }
        }
    }

    /// Nodes go on waiting as a node of the ring is freed, or passed over since
    /// it is not to be.
    proof fn lemma_wait_trans(self, c: &Counts, b: &Counts, a: &Counts, o: &Counts, t: (Kind, u32, u32))
        requires
            self.sized(c),
            self.sized(b),
            self.all_wait(a, o, Seq::empty()),
            self.all_wait(c, b, Seq::empty()),
            self.since(c, b, Seq::empty()),
            b.words(Kind::Val) == a.words(Kind::Val),
            b.words(Kind::Spine) == a.words(Kind::Spine),
            b.words(Kind::Env) == a.words(Kind::Env),
            b.clock() == a.clock(),
            b.cap() == a.cap(),
            a.ring() == seq![t] + b.ring(),
            b.ring().len() <= c.ring().len(),
            forall|i: int| 0 <= i < b.ring().len() ==> #[trigger] c.ring()[i] == b.ring()[i],
            t.1 < self.len(t.0) && c.live(t.0, t.1) && c.count(t.0, t.1) == 0 ==> Word::of(
                c.words(t.0)[t.1 as int],
            ).stamp != t.2,
        ensures
            self.all_wait(c, o, Seq::empty()),
    {
        let e = Seq::<(Kind, u32)>::empty();
        assert forall|k: Kind, id: u32| id < self.len(k) implies #[trigger] waiting(c, o, e, k, id) by {
            assert(waiting(a, o, e, k, id));
            assert(waiting(c, b, e, k, id));
            assert(self.kept(c, b, e, k, id));
            assert(b.words(k) == a.words(k));
            if c.live(k, id) && c.count(k, id) == 0 && o.count(k, id) > 0 && b.count(k, id) == 0 {
                let stamp = Word::of(c.words(k)[id as int]).stamp;
                let x = (k, id, stamp as u32);
                assert(in_ring(a, k, id));
                let i = choose|i: int| 0 <= i < a.ring().len() && a.ring()[i] == x;
                assert(i > 0);
                assert(c.ring()[i - 1] == b.ring()[i - 1]);
            }
        }
    }
}

impl TcCtx {
    /// The nodes the counts are kept for.
    pub open spec fn nodes(&self) -> Nodes {
        Nodes::of(&self.nb, &self.rp)
    }

    /// Only the counts differ from `o`.
    pub open spec fn but_counts(&self, o: &TcCtx) -> bool {
        &&& self.st == o.st
        &&& self.nb == o.nb
        &&& self.rp == o.rp
        &&& self.names == o.names
        &&& self.nat_ext == o.nat_ext
        &&& self.str_ext == o.str_ext
        &&& self.eager_mode == o.eager_mode
        &&& self.w == o.w
    }
}

impl Nodes {
    proof fn lemma_since_refl(self, c: &Counts)
        requires
            self.owed(c, Seq::empty()),
        ensures
            self.since(c, c, Seq::empty()),
    {
    }

    /// The ring has no part in what is owed.
    proof fn lemma_ring(self, c: &Counts, d: &Counts, o: &Counts, p: Seq<(Kind, u32)>)
        requires
            self.owed(c, p),
            self.since(c, o, p),
            d.vals@ == c.vals@,
            d.spines@ == c.spines@,
            d.envs@ == c.envs@,
            d.clock() == c.clock(),
            d.pins() == c.pins(),
            d.cap() == c.cap(),
        ensures
            self.owed(d, p),
            self.since(d, o, p),
            forall|k: Kind, id: u32| #[trigger] d.live(k, id) == c.live(k, id),
            forall|k: Kind, id: u32| #[trigger] d.count(k, id) == c.count(k, id),
    {
        assert forall|k: Kind| #[trigger] d.words(k) == c.words(k) by {}
        assert forall|k: Kind| #[trigger] d.words(k).len() == self.len(k) <= 0x8000_0000 by {
            assert(c.words(k).len() == self.len(k));
        }
        assert forall|k: Kind, id: u32| id < self.len(k) implies #[trigger] self.covered(d, p, k, id) by {
            assert(self.covered(c, p, k, id));
        }
        assert forall|k: Kind, id: u32| id < self.len(k) implies #[trigger] self.kept(d, o, p, k, id) by {
            assert(self.kept(c, o, p, k, id));
        }
    }

    /// A zombie that has not been freed is the zombie it was.
    proof fn lemma_still(self, c: &Counts, o: &Counts, k: Kind, id: u32, stamp: u32)
        requires
            self.sized(c),
            self.sized(o),
            self.since(c, o, Seq::empty()),
        ensures
            id < o.words(k).len() && zombie(o.words(k)[id as int], stamp) && c.live(k, id) ==> zombie(
                c.words(k)[id as int],
                stamp,
            ),
    {
        assert(c.words(k).len() == self.len(k));
        assert(o.words(k).len() == self.len(k));
        if id < self.len(k) {
            assert(self.kept(c, o, Seq::empty(), k, id));
        }
    }

    proof fn lemma_since_trans(self, c: &Counts, b: &Counts, a: &Counts)
        requires
            self.since(c, b, Seq::empty()),
            self.since(b, a, Seq::empty()),
        ensures
            self.since(c, a, Seq::empty()),
    {
        let e = Seq::<(Kind, u32)>::empty();
        assert forall|k: Kind, id: u32| id < self.len(k) implies #[trigger] self.kept(c, a, e, k, id) by {
            assert(self.kept(c, b, e, k, id));
            assert(self.kept(b, a, e, k, id));
        }
    }
}

impl TcCtx {
    /// Free node `id` of kind `k`, and every node that this leaves without
    /// holders and without a recent release.
    fn free_from(&mut self, k: Kind, id: u32)
        requires
            old(self).counts.wf(),
            old(self).nodes().tallied(&old(self).counts),
            old(self).counts.live(k, id),
            old(self).counts.count(k, id) == 0,
        ensures
            final(self).but_counts(old(self)),
            final(self).counts.wf(),
            final(self).nodes().tallied(&final(self).counts),
            final(self).nodes().since(&final(self).counts, &old(self).counts, Seq::empty()),
            !final(self).counts.live(k, id),
            final(self).nodes().all_wait(&final(self).counts, &old(self).counts, Seq::empty()),
            old(self).counts.ring().len() <= final(self).counts.ring().len(),
            forall|i: int|
                0 <= i < old(self).counts.ring().len() ==> #[trigger] final(self).counts.ring()[i] == old(
                    self,
                ).counts.ring()[i],
            fuel(&final(self).counts) <= fuel(&old(self).counts),
    {
        let ghost o = *self;
        let ghost nn = self.nodes();
        let ghost e = Seq::<(Kind, u32)>::empty();
        proof {
            nn.lemma_since_refl(&self.counts);
        }
        let mut work: Vec<(Kind, u32)> = Vec::new();
        work.push((k, id));
        while work.len() > 0
            invariant
                self.but_counts(&o),
                self.counts.wf(),
                nn == self.nodes(),
                nn == o.nodes(),
                e == Seq::<(Kind, u32)>::empty(),
                nn.owed(&self.counts, e),
                nn.since(&self.counts, &o.counts, e),
                doomed(&self.counts, work@),
                nn.all_wait(&self.counts, &o.counts, work@),
                !self.counts.live(k, id) || work@ =~= seq![(k, id)],
                o.counts.ring().len() <= self.counts.ring().len(),
                forall|i: int| 0 <= i < o.counts.ring().len()
                    ==> #[trigger] self.counts.ring()[i] == o.counts.ring()[i],
                fuel(&self.counts) + work@.len() <= fuel(&o.counts) + 1,
                work@.len() == 0 ==> fuel(&self.counts) <= fuel(&o.counts),
            decreases fuel(&self.counts) + work@.len(),
        {
            let ghost c0 = self.counts;
            let ghost w0 = work@;
            let (wk, wid) = match work.pop() {
                Some(t) => t,
                None => {
                    return;
                },
            };
            assert(w0.last() == (wk, wid));
            assert(c0.live(wk, wid));
            assert(c0.words(wk).len() == nn.len(wk));
            let kids = kids_of(&self.nb, &self.rp, wk, wid);
            *self.counts.of(wk).index_mut(wid as usize) = 0;
            proof {
                nn.lemma_free(&c0, &self.counts, &o.counts, wk, wid);
                assert(work@ =~= w0.drop_last());
                nn.lemma_wait_pop(&c0, &self.counts, &o.counts, w0);
                assert forall|i: int| 0 <= i < work@.len() implies self.counts.live((#[trigger] work@[i]).0, work@[i].1)
                    && self.counts.count(work@[i].0, work@[i].1) == 0 by {
                    assert(w0[i] != w0.last());
                    assert(work@[i] == w0[i]);
                    assert(c0.live(w0[i].0, w0[i].1));
                }
                assert(kids@.skip(0) =~= kids@);
                assert(fuel(&self.counts) == fuel(&c0));
            }
            let mut j: usize = 0;
            while j < kids.len()
                invariant
                    self.but_counts(&o),
                    self.counts.wf(),
                    nn == self.nodes(),
                    nn == o.nodes(),
                    j <= kids@.len(),
                    nn.owed(&self.counts, kids@.skip(j as int)),
                    nn.since(&self.counts, &o.counts, kids@.skip(j as int)),
                    doomed(&self.counts, work@),
                    nn.all_wait(&self.counts, &o.counts, work@),
                    !self.counts.live(k, id),
                    o.counts.ring().len() <= self.counts.ring().len(),
                    forall|i: int|
                        0 <= i < o.counts.ring().len() ==> #[trigger] self.counts.ring()[i] == o.counts.ring()[i],
                    fuel(&self.counts) + work@.len() < fuel(&c0) + w0.len(),
                decreases kids@.len() - j,
            {
                let ghost c1 = self.counts;
                let ghost p = kids@.skip(j as int);
                let (ck, cid) = kids[j];
                proof {
                    assert(p[0] == (ck, cid));
                    nn.lemma_counted(&c1, p);
                    assert(p.drop_first() =~= kids@.skip(j + 1));
                }
                let ghost w1 = work@;
                let d = drop_child(&mut self.counts, ck, cid);
                let ghost c2 = self.counts;
                proof {
                    nn.lemma_drop(&c1, &c2, &o.counts, p);
                    assert forall|i: int| 0 <= i < work@.len() implies c2.live((#[trigger] work@[i]).0, work@[i].1)
                        && c2.count(work@[i].0, work@[i].1) == 0 && work@[i] != (ck, cid) by {
                        assert(c1.live(work@[i].0, work@[i].1));
                        assert(c1.count(work@[i].0, work@[i].1) == 0);
                    }
                }
                if let Some(stamp) = d {
                    assert(fuel(&c2) == fuel(&c1) - 2);
                    if (age(self.counts.clock, stamp) as usize) < self.counts.ring_cap {
                        self.counts.ring.push_back((ck, cid, stamp));
                        proof {
                            nn.lemma_ring(&c2, &self.counts, &o.counts, kids@.skip(j + 1));
                            assert forall|i: int| 0 <= i < work@.len() implies self.counts.live(
                                (#[trigger] work@[i]).0,
                                work@[i].1,
                            ) && self.counts.count(work@[i].0, work@[i].1) == 0 by {
                                assert(c2.live(work@[i].0, work@[i].1));
                            }
                        }
                    } else {
                        work.push((ck, cid));
                        assert(work@[work@.len() - 1] == (ck, cid));
                    }
                }
                proof {
                    assert(d matches Some(stamp) ==> stamp == Word::of(c2.words(ck)[cid as int]).stamp);
                    if self.counts.ring().len() > c2.ring().len() {
                        assert(self.counts.ring() =~= c2.ring().push(self.counts.ring().last()));
                        assert(self.counts.ring()[self.counts.ring().len() - 1] == self.counts.ring().last());
                    }
                    nn.lemma_wait_drop(&c1, &c2, &self.counts, &o.counts, w1, work@, ck, cid);
                }
                j += 1;
            }
            assert(kids@.skip(j as int) =~= e);
        }
        assert(work@ =~= e);
    }

    /// Free the zombies that have waited as many deaths as the ring holds, and
    /// every node that freeing them leaves without holders and without a recent
    /// release.  Nothing that a handle or a pin holds is freed.
    pub fn nb_collect(&mut self)
        requires
            old(self).counts.wf(),
            old(self).nodes().tallied(&old(self).counts),
        ensures
            final(self).but_counts(old(self)),
            final(self).counts.wf(),
            final(self).nodes().tallied(&final(self).counts),
            final(self).nodes().since(&final(self).counts, &old(self).counts, Seq::empty()),
            final(self).counts.ring().len() <= final(self).counts.cap(),
            // what lost its last holder and is not freed was released lately,
            // and waits in the ring
            final(self).nodes().all_wait(&final(self).counts, &old(self).counts, Seq::empty()),
            forall|i: int|
                0 <= i < old(self).counts.ring().len() - old(self).counts.cap() ==> #[trigger] due_freed(
                    &final(self).counts,
                    &old(self).counts,
                    i,
                ),
    {
        let ghost o = *self;
        let ghost nn = self.nodes();
        let ghost e = Seq::<(Kind, u32)>::empty();
        let ghost mut n: int = 0;
        proof {
            nn.lemma_since_refl(&self.counts);
        }
        while self.counts.ring.len() > self.counts.ring_cap
            invariant
                self.but_counts(&o),
                self.counts.wf(),
                nn == self.nodes(),
                nn == o.nodes(),
                e == Seq::<(Kind, u32)>::empty(),
                nn.sized(&o.counts),
                nn.owed(&self.counts, e),
                nn.since(&self.counts, &o.counts, e),
                nn.all_wait(&self.counts, &o.counts, e),
                0 <= n,
                o.counts.ring().len() - n <= self.counts.ring().len(),
                forall|i: int|
                    n <= i < o.counts.ring().len() ==> self.counts.ring()[i - n] == #[trigger] o.counts.ring()[i],
                forall|i: int| 0 <= i < n && i < o.counts.ring().len()
                    ==> #[trigger] due_freed(&self.counts, &o.counts, i),
            decreases fuel(&self.counts),
        {
            let ghost c0 = self.counts;
            let popped = self.counts.ring.pop_front();
            if let Some((k, id, stamp)) = popped {
                let ghost c1 = self.counts;
                proof {
                    nn.lemma_ring(&c0, &c1, &o.counts, e);
                    assert(n < o.counts.ring().len() ==> o.counts.ring()[n] == (k, id, stamp));
                    nn.lemma_still(&c1, &o.counts, k, id, stamp);
                    assert forall|i: int| 0 <= i < n && i < o.counts.ring().len() implies #[trigger] due_freed(
                        &c1,
                        &o.counts,
                        i,
                    ) by {
                        assert(due_freed(&c0, &o.counts, i));
                    }
                }
                if alive(&self.counts, k, id) {
                    let w: u32 = *self.counts.arena(k).index(id as usize);
                    proof {
                        lemma_zombie(w, stamp);
                    }
                    if w == (ALLOC | stamp << COUNT_BITS) {
                        self.free_from(k, id);
                        proof {
                            nn.lemma_since_trans(&self.counts, &c1, &o.counts);
                            assert forall|i: int| 0 <= i < n && i < o.counts.ring().len() implies #[trigger] due_freed(
                                &self.counts,
                                &o.counts,
                                i,
                            ) by {
                                assert(due_freed(&c0, &o.counts, i));
                                let t = o.counts.ring()[i];
                                if t.1 < nn.len(t.0) {
                                    assert(nn.kept(&self.counts, &c1, e, t.0, t.1));
                                }
                            }
                        }
                    }
                }
                proof {
                    assert(n < o.counts.ring().len() ==> due_freed(&self.counts, &o.counts, n));
                    n = n + 1;
                    assert(c0.ring() =~= seq![(k, id, stamp)] + c1.ring());
                    if self.counts == c1 {
                        nn.lemma_since_refl(&c1);
                    }
                    nn.lemma_wait_trans(&self.counts, &c1, &c0, &o.counts, (k, id, stamp));
                }
            }
        }
    }
}

/// What is wrong with the counts.
#[derive(Clone, Copy, PartialEq, Eq, Structural, Debug)]
pub enum CountFault {
    /// A freed node has live holders.
    Freed(Kind, u32),
    /// A count is below the number of live holders.
    Below(Kind, u32),
    /// The counts exceed their holders by more than is pinned.
    Surplus,
}

impl Nodes {
    /// By how much the counts of the first `n` nodes of kind `k` exceed their
    /// needs, leaving out freed nodes and saturated counts.
    pub open spec fn beyond(self, c: &Counts, k: Kind, n: nat) -> int
        decreases n,
    {
        if n == 0 {
            0
        } else {
            self.beyond(c, k, (n - 1) as nat) + (if c.live(k, (n - 1) as u32)
                && c.count(k, (n - 1) as u32) < COUNT_MAX {
                c.count(k, (n - 1) as u32) - self.need(c, Seq::empty(), (k, (n - 1) as u32))
            } else {
                0
            })
        }
    }

    /// By how much the counts exceed their needs.
    pub open spec fn surplus(self, c: &Counts) -> int {
        self.beyond(c, Kind::Val, self.vals.len()) + self.beyond(c, Kind::Spine, self.spines.len()) + self.beyond(
            c,
            Kind::Env,
            self.envs.len(),
        )
    }
}

/// The needs, recomputed from the nodes.
struct Expected {
    vals: Vec<u128>,
    spines: Vec<u128>,
    envs: Vec<u128>,
}

impl Expected {
    spec fn at(&self, k: Kind) -> Seq<u128> {
        match k {
            Kind::Val => self.vals@,
            Kind::Spine => self.spines@,
            Kind::Env => self.envs@,
        }
    }

    /// The number recorded for `t`.
    spec fn of(&self, t: (Kind, u32)) -> int {
        self.at(t.0)[t.1 as int] as int
    }

    /// There is a number for each node.
    spec fn fits(&self, n: Nodes) -> bool {
        forall|k: Kind| #[trigger] self.at(k).len() == n.len(k)
    }

    fn get(&self, k: Kind, i: usize) -> (r: u128)
        requires
            i < self.at(k).len(),
        ensures
            r == self.at(k)[i as int],
    {
        match k {
            Kind::Val => self.vals[i],
            Kind::Spine => self.spines[i],
            Kind::Env => self.envs[i],
        }
    }

    fn bump(&mut self, k: Kind, id: u32)
        requires
            id < old(self).at(k).len(),
            old(self).at(k)[id as int] < u128::MAX,
        ensures
            final(self).at(k) == old(self).at(k).update(id as int, (old(self).at(k)[id as int] + 1) as u128),
            forall|k2: Kind| k2 != k ==> #[trigger] final(self).at(k2) == old(self).at(k2),
    {
        match k {
            Kind::Val => {
                let x: u128 = self.vals[id as usize];
                self.vals.set(id as usize, x + 1);
            },
            Kind::Spine => {
                let x: u128 = self.spines[id as usize];
                self.spines.set(id as usize, x + 1);
            },
            Kind::Env => {
                let x: u128 = self.envs[id as usize];
                self.envs.set(id as usize, x + 1);
            },
        }
    }
}

proof fn lemma_mult(s: Seq<(Kind, u32)>, t: (Kind, u32))
    ensures
        mult(s, t) <= s.len(),
    decreases s.len(),
{
    if s.len() > 0 {
        lemma_mult(s.drop_first(), t);
    }
}

fn zeros(n: usize) -> (r: Vec<u128>)
    ensures
        r@.len() == n,
        forall|i: int| 0 <= i < n ==> r@[i] == 0,
{
    let mut r: Vec<u128> = Vec::new();
    let mut i: usize = 0;
    while i < n
        invariant
            i <= n,
            r@.len() == i,
            forall|j: int| 0 <= j < i ==> r@[j] == 0,
        decreases n - i,
    {
        r.push(0);
        i += 1;
    }
    r
}

proof fn lemma_occurs<V>(s: Seq<V>, j: int)
    requires
        0 <= j < s.len(),
    ensures
        crate::table::occurs(s, s[j]) > 0,
    decreases s.len(),
{
    if j < s.len() - 1 {
        lemma_occurs(s.drop_last(), j);
    }
}

/// Add to `e` how often each index occurs in `l`.
fn count_list(e: &mut Vec<u128>, l: &Vec<u32>, Ghost(most): Ghost<int>)
    requires
        forall|j: int| 0 <= j < l@.len() ==> #[trigger] l@[j] < old(e)@.len(),
        forall|v: u32| v < old(e)@.len() ==> #[trigger] old(e)@[v as int] <= most,
        most + WORD2 <= u128::MAX,
    ensures
        final(e)@.len() == old(e)@.len(),
        forall|v: u32|
            v < old(e)@.len() ==> #[trigger] final(e)@[v as int] == old(e)@[v as int] + crate::table::occurs(l@, v)
                && final(e)@[v as int] <= most + WORD2,
{
    let ghost o = e@;
    let mut i: usize = 0;
    while i < l.len()
        invariant
            i <= l@.len(),
            e@.len() == o.len(),
            forall|j: int| 0 <= j < l@.len() ==> #[trigger] l@[j] < o.len(),
            forall|v: u32| v < o.len() ==> #[trigger] o[v as int] <= most,
            most + WORD2 <= u128::MAX,
            forall|v: u32|
                v < o.len() ==> #[trigger] e@[v as int] == o[v as int] + crate::table::occurs(l@.take(i as int), v) && e@[v as int]
                    <= most + i,
        decreases l@.len() - i,
    {
        let v: u32 = l[i];
        assert(l@[i as int] < o.len());
        assert(e@[v as int] <= most + i);
        let x: u128 = e[v as usize];
        let ghost e0 = e@;
        e.set(v as usize, x + 1);
        proof {
            assert(l@.take(i + 1).drop_last() =~= l@.take(i as int));
            assert forall|u: u32| u < o.len() implies #[trigger] e@[u as int] == o[u as int] + crate::table::occurs(
                l@.take(i + 1),
                u,
            ) && e@[u as int] <= most + i + 1 by {
                assert(e0[u as int] == o[u as int] + crate::table::occurs(l@.take(i as int), u));
            }
        }
        i += 1;
    }
    assert(l@.take(l@.len() as int) =~= l@);
}

/// Add to `e` how often each index occurs in `l`, leaving out what is missing.
fn count_opts(e: &mut Vec<u128>, l: &Vec<Option<u32>>, Ghost(most): Ghost<int>)
    requires
        forall|j: int| 0 <= j < l@.len() ==> (#[trigger] l@[j] matches Some(v) ==> v < old(e)@.len()),
        forall|v: u32| v < old(e)@.len() ==> #[trigger] old(e)@[v as int] <= most,
        most + WORD2 <= u128::MAX,
    ensures
        final(e)@.len() == old(e)@.len(),
        forall|v: u32|
            v < old(e)@.len() ==> #[trigger] final(e)@[v as int] == old(e)@[v as int] + crate::table::occurs(l@, Some(v)),
{
    let ghost o = e@;
    let mut i: usize = 0;
    while i < l.len()
        invariant
            i <= l@.len(),
            e@.len() == o.len(),
            forall|j: int| 0 <= j < l@.len() ==> (#[trigger] l@[j] matches Some(v) ==> v < o.len()),
            forall|v: u32| v < o.len() ==> #[trigger] o[v as int] <= most,
            most + WORD2 <= u128::MAX,
            forall|v: u32|
                v < o.len() ==> #[trigger] e@[v as int] == o[v as int] + crate::table::occurs(l@.take(i as int), Some(v))
                    && e@[v as int] <= most + i,
        decreases l@.len() - i,
    {
        let ghost e0 = e@;
        if let Some(v) = l[i] {
            assert(l@[i as int] == Some(v));
            assert(e@[v as int] <= most + i);
            let x: u128 = e[v as usize];
            e.set(v as usize, x + 1);
        }
        proof {
            assert(l@.take(i + 1).drop_last() =~= l@.take(i as int));
            assert forall|u: u32| u < o.len() implies #[trigger] e@[u as int] == o[u as int] + crate::table::occurs(
                l@.take(i + 1),
                Some(u),
            ) && e@[u as int] <= most + i + 1 by {
                assert(e0[u as int] == o[u as int] + crate::table::occurs(l@.take(i as int), Some(u)));
            }
        }
        i += 1;
    }
    assert(l@.take(l@.len() as int) =~= l@);
}

impl TcCtx {
    /// Count what the live nodes of kind `k` hold.
    fn count_kids(&self, ex: &mut Expected, k: Kind)
        requires
            self.nodes().sized(&self.counts),
            old(ex).fits(self.nodes()),
            forall|t: (Kind, u32)| t.1 < self.nodes().len(t.0) ==> #[trigger] old(ex).of(t) <= 0x4_0000_0000,
        ensures
            final(ex).fits(self.nodes()),
            forall|t: (Kind, u32)|
                t.1 < self.nodes().len(t.0) ==> #[trigger] final(ex).of(t) == old(ex).of(t) + self.nodes().tally(
                    self.counts.words(k),
                    k,
                    self.nodes().len(k),
                    t,
                ) && final(ex).of(t) <= old(ex).of(t) + 0x1_0000_0000,
    {
        let ghost nn = self.nodes();
        let ghost w = self.counts.words(k);
        let ghost b = *ex;
        let n: usize = match k {
            Kind::Val => self.nb.vals.len(),
            Kind::Spine => self.nb.spines.len(),
            Kind::Env => self.rp.envs.len(),
        };
        assert(n == nn.len(k));
        assert(w.len() == nn.len(k));
        let mut i: usize = 0;
        while i < n
            invariant
                nn == self.nodes(),
                w == self.counts.words(k),
                nn.sized(&self.counts),
                n == nn.len(k),
                n == w.len(),
                n <= 0x8000_0000,
                i <= n,
                ex.fits(nn),
                forall|t: (Kind, u32)| t.1 < nn.len(t.0) ==> #[trigger] b.of(t) <= 0x4_0000_0000,
                forall|t: (Kind, u32)|
                    t.1 < nn.len(t.0) ==> #[trigger] ex.of(t) == b.of(t) + nn.tally(w, k, i as nat, t)
                        && ex.of(t) <= b.of(
                        t,
                    ) + 2 * i,
            decreases n - i,
        {
            let ghost x0 = *ex;
            if alive(&self.counts, k, i as u32) {
                let kids = kids_of(&self.nb, &self.rp, k, i as u32);
                let mut j: usize = 0;
                proof {
                    assert(kids@.skip(j as int) =~= kids@);
                    assert forall|t: (Kind, u32)| #[trigger] mult(kids@, t) <= 2 by {
                        lemma_mult(kids@, t);
                    }
                    assert forall|t: (Kind,
                        u32)| t.1 < nn.len(t.0) implies #[trigger] x0.of(t) <= 0x4_0000_0000 + 2 * i by {
                        assert(b.of(t) <= 0x4_0000_0000);
                        assert(x0.of(t) == ex.of(t));
                    }
                }
                while j < kids.len()
                    invariant
                        nn == self.nodes(),
                        nn.sized(&self.counts),
                        i < n == nn.len(k),
                        n <= 0x8000_0000,
                        j <= kids@.len() <= 2,
                        kids@ == nn.kids(k, i as int),
                        ex.fits(nn),
                        forall|t: (Kind, u32)| #[trigger] mult(kids@, t) <= 2,
                        forall|t: (Kind, u32)|
                            #![trigger ex.of(t)]
                            t.1 < nn.len(t.0) ==> ex.of(t) + mult(kids@.skip(j as int), t) == x0.of(t) + mult(kids@, t),
                        forall|t: (Kind, u32)|
                            t.1 < nn.len(t.0) ==> #[trigger] x0.of(t) <= 0x4_0000_0000 + 2 * i,
                    decreases kids@.len() - j,
                {
                    let (ck, cid) = kids[j];
                    let ghost x1 = *ex;
                    let ghost p = kids@.skip(j as int);
                    proof {
                        assert(nn.kids(k, i as int)[j as int].1 < nn.len(nn.kids(k, i as int)[j as int].0));
                        assert(ex.at(ck).len() == nn.len(ck));
                        assert(x1.of((ck, cid)) <= x0.of((ck, cid)) + 2);
                        assert(p[0] == (ck, cid));
                        assert(p.drop_first() =~= kids@.skip(j + 1));
                    }
                    ex.bump(ck, cid);
                    proof {
                        assert forall|k2: Kind| #[trigger] ex.at(k2).len() == nn.len(k2) by {
                            assert(x1.at(k2).len() == nn.len(k2));
                            if k2 != ck {
                                assert(ex.at(k2) == x1.at(k2));
                            }
                        }
                        assert forall|t: (Kind, u32)|
                            #![trigger ex.of(t)]
                            t.1 < nn.len(t.0) implies ex.of(t) + mult(kids@.skip(j + 1), t) == x0.of(t) + mult(
                            kids@,
                            t,
                        ) by {
                            assert(x1.of(t) + mult(p, t) == x0.of(t) + mult(kids@, t));
                            assert(x1.at(t.0).len() == nn.len(t.0));
                            if t.0 != ck {
                                assert(ex.at(t.0) == x1.at(t.0));
                            }
                        }
                    }
                    j += 1;
                }
                proof {
                    assert(kids@.skip(j as int).len() == 0);
                }
            }
            proof {
                assert forall|t: (Kind, u32)| t.1 < nn.len(t.0) implies #[trigger] ex.of(t) == b.of(t) + nn.tally(
                    w,
                    k,
                    (i + 1) as nat,
                    t,
                ) && ex.of(t) <= b.of(t) + 2 * (i + 1) by {
                    assert(x0.of(t) == b.of(t) + nn.tally(w, k, i as nat, t));
                }
            }
            i += 1;
        }
    }

    /// Count what the caches of values name.
    fn count_caches(&self, ex: &mut Expected)
        requires
            self.nodes().sized(&self.counts),
            old(ex).fits(self.nodes()),
            forall|t: (Kind, u32)| t.1 < self.nodes().len(t.0) ==> #[trigger] old(ex).of(t) <= 0x8_0000_0000,
        ensures
            final(ex).fits(self.nodes()),
            forall|t: (Kind, u32)|
                t.1 < self.nodes().len(t.0) ==> #[trigger] final(ex).of(t) == old(ex).of(t) + self.nodes().cached(t),
    {
        let ghost nn = self.nodes();
        let ghost x0 = *ex;
        let clo_val = self.nb.memo.clo_val.values();
        let const_val = self.nb.memo.const_val.values();
        let const_ty = self.nb.memo.const_ty.values();
        let rec_rule = self.nb.memo.rec_rule.values();
        let local = self.nb.memo.local.values();
        let unfold = self.nb.memo.unfold.values();
        let ghost n = self.nb.vals@.len();
        proof {
            assert forall|v: u32| #[trigger] self.nb.memo.naming(v) > 0 implies v < n by {
                assert(nn.cached((Kind::Val, v)) > 0);
            }
            assert forall|j: int| 0 <= j < clo_val@.len() implies #[trigger] clo_val@[j] < n by {
                lemma_occurs(clo_val@, j);
                assert(self.nb.memo.naming(clo_val@[j]) > 0);
            }
            assert forall|j: int| 0 <= j < const_val@.len() implies #[trigger] const_val@[j] < n by {
                lemma_occurs(const_val@, j);
                assert(self.nb.memo.naming(const_val@[j]) > 0);
            }
            assert forall|j: int| 0 <= j < const_ty@.len() implies #[trigger] const_ty@[j] < n by {
                lemma_occurs(const_ty@, j);
                assert(self.nb.memo.naming(const_ty@[j]) > 0);
            }
            assert forall|j: int| 0 <= j < rec_rule@.len() implies #[trigger] rec_rule@[j] < n by {
                lemma_occurs(rec_rule@, j);
                assert(self.nb.memo.naming(rec_rule@[j]) > 0);
            }
            assert forall|j: int| 0 <= j < local@.len() implies #[trigger] local@[j] < n by {
                lemma_occurs(local@, j);
                assert(self.nb.memo.naming(local@[j]) > 0);
            }
            assert forall|j: int| 0 <= j < unfold@.len() implies (#[trigger] unfold@[j] matches Some(v) ==> v < n) by {
                lemma_occurs(unfold@, j);
                if let Some(v) = unfold@[j] {
                    assert(self.nb.memo.naming(v) > 0);
                }
            }
            assert(ex.at(Kind::Val).len() == n);
            assert forall|v: u32| v < n implies #[trigger] ex.vals@[v as int] <= 0x8_0000_0000 by {
                assert(ex.of((Kind::Val, v)) <= 0x8_0000_0000);
            }
        }
        count_list(&mut ex.vals, &clo_val, Ghost(0x8_0000_0000));
        count_list(&mut ex.vals, &const_val, Ghost(0x8_0000_0000 + WORD2));
        count_list(&mut ex.vals, &const_ty, Ghost(0x8_0000_0000 + 2 * WORD2));
        count_list(&mut ex.vals, &rec_rule, Ghost(0x8_0000_0000 + 3 * WORD2));
        count_list(&mut ex.vals, &local, Ghost(0x8_0000_0000 + 4 * WORD2));
        count_opts(&mut ex.vals, &unfold, Ghost(0x8_0000_0000 + 5 * WORD2));
        proof {
            assert forall|k: Kind| #[trigger] ex.at(k).len() == nn.len(k) by {
                assert(x0.at(k).len() == nn.len(k));
            }
            assert forall|t: (Kind, u32)| t.1 < nn.len(t.0) implies #[trigger] ex.of(t) == x0.of(t) + nn.cached(t) by {
                if t.0 == Kind::Val {
                    assert(nn.cached(t) == self.nb.memo.naming(t.1));
                    assert(ex.vals@[t.1 as int] == ex.of(t));
                    assert(x0.vals@[t.1 as int] == x0.of(t));
                }
            }
        }
    }

    /// Hold the counts of kind `k` against `ex`.
    fn check_kind(&self, ex: &Expected, k: Kind, s: u64) -> (r: Result<u64, CountFault>)
        requires
            self.nodes().sized(&self.counts),
            ex.fits(self.nodes()),
            forall|t: (Kind, u32)|
                t.1 < self.nodes().len(t.0) ==> #[trigger] ex.of(t) == self.nodes().need(&self.counts, Seq::empty(), t),
            s <= 0x1000_0000_0000,
        ensures
            match r {
                Ok(x) => {
                    &&& forall|id: u32|
                        id < self.nodes().len(k) ==> #[trigger] self.nodes().covered(
                            &self.counts,
                            Seq::empty(),
                            k,
                            id,
                        )
                    &&& x == s + self.nodes().beyond(&self.counts, k, self.nodes().len(k))
                    &&& x <= s + 0x800_0000_0000
                },
                Err(CountFault::Freed(k2, id)) => k2 == k && self.freed_fault(k, id),
                Err(CountFault::Below(k2, id)) => k2 == k && self.below_fault(k, id),
                Err(CountFault::Surplus) => false,
            },
    {
        let ghost nn = self.nodes();
        let ghost e = Seq::<(Kind, u32)>::empty();
        let n: usize = match k {
            Kind::Val => self.nb.vals.len(),
            Kind::Spine => self.nb.spines.len(),
            Kind::Env => self.rp.envs.len(),
        };
        assert(n == nn.len(k));
        assert(self.counts.words(k).len() == nn.len(k));
        assert(ex.at(k).len() == nn.len(k));
        let mut sum: u64 = s;
        let mut i: usize = 0;
        while i < n
            invariant
                nn == self.nodes(),
                e == Seq::<(Kind, u32)>::empty(),
                n == nn.len(k) <= 0x8000_0000,
                self.counts.words(k).len() == nn.len(k),
                ex.at(k).len() == nn.len(k),
                forall|t: (Kind, u32)| t.1 < nn.len(t.0) ==> #[trigger] ex.of(t) == nn.need(&self.counts, e, t),
                i <= n,
                s <= 0x1000_0000_0000,
                sum == s + nn.beyond(&self.counts, k, i as nat),
                sum <= s + i * 0x1000,
                forall|id: u32| id < i ==> #[trigger] nn.covered(&self.counts, e, k, id),
            decreases n - i,
        {
            let want: u128 = ex.get(k, i);
            assert(want == ex.of((k, i as u32)));
            if !alive(&self.counts, k, i as u32) {
                if want != 0 {
                    return Err(CountFault::Freed(k, i as u32));
                }
            } else {
                let has: u32 = self.counts.count_of(k, i as u32);
                if has != COUNT_MAX {
                    if (has as u128) < want {
                        return Err(CountFault::Below(k, i as u32));
                    }
                    sum = sum + (has as u64 - want as u64);
                }
            }
            assert(nn.covered(&self.counts, e, k, i as u32));
            i += 1;
        }
        Ok(sum)
    }

    /// Freed node `id` of kind `k` has live holders.
    pub open spec fn freed_fault(&self, k: Kind, id: u32) -> bool {
        id < self.nodes().len(k) && !self.counts.live(k, id) && self.nodes().need(
            &self.counts,
            Seq::empty(),
            (k, id),
        ) > 0
    }

    /// The count of node `id` of kind `k` is below its live holders.
    pub open spec fn below_fault(&self, k: Kind, id: u32) -> bool {
        id < self.nodes().len(k) && self.counts.live(k, id) && self.counts.count(k, id) < self.nodes().need(
            &self.counts,
            Seq::empty(),
            (k, id),
        ) && self.counts.count(k, id) < COUNT_MAX
    }

    /// Recompute every count from the live nodes, and tell whether each stored
    /// count covers its expected one and the surplus of the unsaturated counts
    /// is at most the pins.  To be run when no handle is alive.
    pub fn check_counts(&self) -> (r: Result<(), CountFault>)
        requires
            self.nodes().sized(&self.counts),
            self.nodes().len(Kind::Spine) > 0,
            self.nodes().len(Kind::Env) > 0,
        ensures
            r is Ok == (self.nodes().tallied(&self.counts) && self.nodes().surplus(&self.counts) <= self.counts.pins()),
            match r {
                Ok(()) => true,
                Err(CountFault::Freed(k, id)) => self.freed_fault(k, id),
                Err(CountFault::Below(k, id)) => self.below_fault(k, id),
                Err(CountFault::Surplus) => self.nodes().tallied(&self.counts),
            },
    {
        let ghost nn = self.nodes();
        let ghost c = &self.counts;
        let ghost e = Seq::<(Kind, u32)>::empty();
        let mut ex = Expected {
            vals: zeros(self.nb.vals.len()),
            spines: zeros(self.nb.spines.len()),
            envs: zeros(self.rp.envs.len()),
        };
        assert forall|k: Kind| #[trigger] ex.at(k).len() == nn.len(k) by {}
        assert(ex.at(Kind::Spine).len() == nn.len(Kind::Spine));
        assert(ex.at(Kind::Env).len() == nn.len(Kind::Env));
        let ghost x0 = ex;
        ex.bump(Kind::Spine, 0);
        let ghost x1 = ex;
        assert(x1.at(Kind::Env) == x0.at(Kind::Env));
        ex.bump(Kind::Env, 0);
        proof {
            assert(ex.at(Kind::Val) == x1.at(Kind::Val) && x1.at(Kind::Val) == x0.at(Kind::Val));
            assert(ex.at(Kind::Spine) == x1.at(Kind::Spine));
            assert forall|k: Kind| #[trigger] ex.at(k).len() == nn.len(k) by {}
            assert forall|t: (Kind, u32)| t.1 < nn.len(t.0) implies #[trigger] ex.of(t) == Nodes::standing(t) by {
                assert(x0.at(t.0).len() == nn.len(t.0));
            }
        }
        self.count_kids(&mut ex, Kind::Val);
        self.count_kids(&mut ex, Kind::Spine);
        self.count_kids(&mut ex, Kind::Env);
        let ghost x2 = ex;
        self.count_caches(&mut ex);
        proof {
            assert forall|t: (Kind, u32)| t.1 < nn.len(t.0) implies #[trigger] ex.of(t) == nn.need(c, e, t) by {
                assert(mult(e, t) == 0);
                assert(ex.of(t) == x2.of(t) + nn.cached(t));
            }
        }
        let s: u64 = match self.check_kind(&ex, Kind::Val, 0) {
            Ok(s) => s,
            Err(f) => {
                proof {
                    if let CountFault::Freed(k, id) = f {
                        assert(!nn.covered(c, e, k, id));
                    } else if let CountFault::Below(k, id) = f {
                        assert(!nn.covered(c, e, k, id));
                    }
                }
                return Err(f);
            },
        };
        let s: u64 = match self.check_kind(&ex, Kind::Spine, s) {
            Ok(s) => s,
            Err(f) => {
                proof {
                    if let CountFault::Freed(k, id) = f {
                        assert(!nn.covered(c, e, k, id));
                    } else if let CountFault::Below(k, id) = f {
                        assert(!nn.covered(c, e, k, id));
                    }
                }
                return Err(f);
            },
        };
        let s: u64 = match self.check_kind(&ex, Kind::Env, s) {
            Ok(s) => s,
            Err(f) => {
                proof {
                    if let CountFault::Freed(k, id) = f {
                        assert(!nn.covered(c, e, k, id));
                    } else if let CountFault::Below(k, id) = f {
                        assert(!nn.covered(c, e, k, id));
                    }
                }
                return Err(f);
            },
        };
        assert(nn.tallied(c));
        if s <= self.counts.pins {
            Ok(())
        } else {
            Err(CountFault::Surplus)
        }
    }
}

} // verus!
