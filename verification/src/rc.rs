//! Reference counts for the evaluator's values, spines and environments.
//!
//! A node's count is the number of its holders: the nodes that name it as a
//! child, the forced cell or domain that records it, the caches that keep it,
//! and the handles (`V`, `S`, `E`) held by the evaluator.
//!
//! A node whose count a handle brings to zero is not freed at once: it becomes
//! a zombie and enters the ring, and an intern hit on it makes it live again.
//! Collecting frees the zombies that have been in the ring for as many deaths
//! as the ring holds.  Freeing a node releases its children; a child whose
//! count that brings to zero is freed as well, unless a handle released it
//! recently, in which case it becomes a zombie of its own.
//!
//! Each count shares a 32-bit word with a stamp: the allocation bit, 19 bits of
//! stamp, 12 bits of count.  The count saturates, and a saturated node lives
//! until the end of the declaration.  The stamp is the ring clock at the node's
//! last release by a handle.  A word of zero marks a slot with no node.
use crate::arena::{Arena, MAX_NODES};
use crate::table::{Key, Tab};
use std::collections::{HashSet, VecDeque};
use vstd::prelude::*;

verus! {

pub const ALLOC: u32 = 0x8000_0000;

pub const COUNT_BITS: u32 = 12;

pub const COUNT_MAX: u32 = 0xfff;

pub const STAMP_MASK: u32 = 0x7_ffff;

/// Deaths a zombie waits in the ring before it is freed, unless set otherwise.
pub const RING_CAP: usize = 0x4_0000;

#[derive(Clone, Copy, PartialEq, Eq, Structural, Debug)]
pub enum Kind {
    Val,
    Spine,
    Env,
}

/// The counts of one checker context.
pub struct Counts {
    pub vals: Arena<u32>,
    pub spines: Arena<u32>,
    pub envs: Arena<u32>,
    /// Zombies in order of death, with their stamps.
    pub ring: VecDeque<(Kind, u32, u32)>,
    /// Deaths so far, modulo the number of stamps.
    pub clock: u32,
    /// References taken by pinning and never given back.
    pub pins: u64,
    /// Deaths a zombie waits in the ring before it is freed.
    pub ring_cap: usize,
}

/// A word, read: whether it marks a node, its stamp and its count.
pub struct Word {
    pub alloc: bool,
    pub stamp: nat,
    pub count: nat,
}

impl Word {
    /// The parts of the word `w`.
    pub open spec fn of(w: u32) -> Word {
        Word {
            alloc: w >= 0x8000_0000,
            stamp: ((w / 0x1000) % 0x8_0000) as nat,
            count: (w % 0x1000) as nat,
        }
    }

    proof fn lemma_bits(w: u32)
        ensures
            (w & ALLOC != 0) == Word::of(w).alloc,
            w & COUNT_MAX == Word::of(w).count,
            (w >> COUNT_BITS) & STAMP_MASK == Word::of(w).stamp,
    {
        assert((w & 0x8000_0000 != 0) == (w >= 0x8000_0000)) by (bit_vector);
        assert(w & 0xfff == w % 0x1000) by (bit_vector);
        assert((w >> 12) & 0x7_ffff == (w / 0x1000) % 0x8_0000) by (bit_vector);
    }

    proof fn lemma_make(stamp: u32, count: u32)
        requires
            stamp <= STAMP_MASK,
            count <= COUNT_MAX,
        ensures
            Word::of(ALLOC | stamp << COUNT_BITS | count) == (Word {
                alloc: true,
                stamp: stamp as nat,
                count: count as nat,
            }),
    {
        let w = ALLOC | stamp << COUNT_BITS | count;
        assert(w == 0x8000_0000u32 | stamp << 12 | count);
        assert(w >= 0x8000_0000 && (w / 0x1000) % 0x8_0000 == stamp && w % 0x1000 == count) by (bit_vector)
            requires
                w == 0x8000_0000u32 | stamp << 12 | count,
                stamp <= 0x7_ffff,
                count <= 0xfff,
        ;
    }
}

impl Counts {
    /// The words of the nodes of kind `k`.
    pub open spec fn words(&self, k: Kind) -> Seq<u32> {
        match k {
            Kind::Val => self.vals@,
            Kind::Spine => self.spines@,
            Kind::Env => self.envs@,
        }
    }

    /// The zombies in order of death.
    pub open spec fn ring(&self) -> Seq<(Kind, u32, u32)> {
        self.ring@
    }

    pub open spec fn clock(&self) -> u32 {
        self.clock
    }

    pub open spec fn pins(&self) -> u64 {
        self.pins
    }

    pub open spec fn cap(&self) -> usize {
        self.ring_cap
    }

    /// The clock is a stamp.
    pub open spec fn wf(&self) -> bool {
        self.clock() <= STAMP_MASK
    }

    /// Node `id` of kind `k` is live or a zombie.
    pub open spec fn live(&self, k: Kind, id: u32) -> bool {
        id < self.words(k).len() && Word::of(self.words(k)[id as int]).alloc
    }

    /// The number of holders recorded for node `id` of kind `k`.
    pub open spec fn count(&self, k: Kind, id: u32) -> nat {
        Word::of(self.words(k)[id as int]).count
    }

    /// The words of the kinds other than `k` are those of `o`.
    pub open spec fn others(&self, o: &Counts, k: Kind) -> bool {
        &&& k != Kind::Val ==> self.vals@ == o.vals@
        &&& k != Kind::Spine ==> self.spines@ == o.spines@
        &&& k != Kind::Env ==> self.envs@ == o.envs@
    }

    /// Only the words of kind `k` differ from `o`, and they are `w`.
    pub open spec fn only_words(&self, o: &Counts, k: Kind, w: Seq<u32>) -> bool {
        &&& self.words(k) == w
        &&& self.others(o, k)
        &&& self.ring() == o.ring()
        &&& self.clock() == o.clock()
        &&& self.pins() == o.pins()
        &&& self.cap() == o.cap()
    }

    /// The word of a node that has one more holder than `w` says.
    pub open spec fn bumped(w: u32) -> u32 {
        if Word::of(w).count == COUNT_MAX {
            w
        } else {
            (w + 1) as u32
        }
    }

    /// A store without nodes, freeing zombies after `ring_cap` deaths.
    pub fn with_ring(ring_cap: usize) -> (r: Counts)
        ensures
            r.wf(),
            forall|k: Kind| (#[trigger] r.words(k)).len() == 0,
            r.ring().len() == 0,
            r.clock() == 0,
            r.pins() == 0,
            r.cap() == ring_cap,
    {
        Counts {
            vals: Arena::new(),
            spines: Arena::new(),
            envs: Arena::new(),
            ring: VecDeque::new(),
            clock: 0,
            pins: 0,
            ring_cap,
        }
    }

    /// The words of kind `k`.
    pub fn of(&mut self, k: Kind) -> (r: &mut Arena<u32>)
        ensures
            r@ == old(self).words(k),
            final(self).only_words(old(self), k, final(r)@),
    {
        match k {
            Kind::Val => &mut self.vals,
            Kind::Spine => &mut self.spines,
            Kind::Env => &mut self.envs,
        }
    }

    /// The words of kind `k`, to read.
    pub fn arena(&self, k: Kind) -> (r: &Arena<u32>)
        ensures
            r@ == self.words(k),
    {
        match k {
            Kind::Val => &self.vals,
            Kind::Spine => &self.spines,
            Kind::Env => &self.envs,
        }
    }

    /// The number of holders recorded for node `id` of kind `k`.
    pub fn count_of(&self, k: Kind, id: u32) -> (r: u32)
        requires
            id < self.words(k).len(),
        ensures
            r == self.count(k, id),
    {
        let w: u32 = *self.arena(k).index(id as usize);
        proof {
            Word::lemma_bits(w);
        }
        w & COUNT_MAX
    }
}

/// The stores of the contexts alive on a thread, the newest on top.
pub struct Stores {
    stores: Vec<Counts>,
}

impl Stores {
    pub closed spec fn view(&self) -> Seq<Counts> {
        self.stores@
    }

    pub fn new() -> (r: Stores)
        ensures
            r@ == Seq::<Counts>::empty(),
    {
        Stores { stores: Vec::new() }
    }

    /// The store of the newest context.
    pub fn current(&self) -> (r: &Counts)
        requires
            self@.len() > 0,
        ensures
            *r == self@.last(),
    {
        &self.stores[self.stores.len() - 1]
    }
}

/// A store installed for one checker context; closing it uncovers the one
/// below.
pub struct CountsGuard {
    at: usize,
}

impl CountsGuard {
    /// The position of the installed store.
    pub closed spec fn at(&self) -> nat {
        self.at as nat
    }

    /// Install a fresh store.
    pub fn new(s: &mut Stores) -> (r: CountsGuard)
        ensures
            r.at() == old(s)@.len(),
            final(s)@.len() == old(s)@.len() + 1,
            final(s)@.drop_last() == old(s)@,
            final(s)@.last().wf(),
            final(s)@.last().ring().len() == 0,
            final(s)@.last().clock() == 0,
            final(s)@.last().pins() == 0,
            forall|k: Kind| (#[trigger] final(s)@.last().words(k)).len() == 0,
    {
        let at: usize = s.stores.len();
        s.stores.push(Counts::with_ring(RING_CAP));
        assert(s@.drop_last() =~= old(s)@);
        CountsGuard { at }
    }

    /// Remove the store, and every store stacked on it.
    pub fn close(self, s: &mut Stores)
        requires
            self.at() <= old(s)@.len(),
        ensures
            final(s)@ == old(s)@.take(self.at() as int),
    {
        s.stores.truncate(self.at);
        assert(s@ =~= old(s)@.take(self.at() as int));
    }
}

/// The word of a slot holding a node with `count` holders.
pub fn word(count: u32) -> (r: u32)
    requires
        count <= COUNT_MAX,
    ensures
        Word::of(r) == (Word { alloc: true, stamp: 0, count: count as nat }),
{
    proof {
        assert(ALLOC | count == 0x8000_0000u32 | 0u32 << 12 | count) by (bit_vector);
        assert(0u32 << COUNT_BITS == 0u32 << 12);
        Word::lemma_make(0, count);
    }
    ALLOC | count
}

/// Record a new node of kind `k`, with no holders yet.
pub fn new_node(c: &mut Counts, k: Kind)
    requires
        old(c).words(k).len() < MAX_NODES,
    ensures
        exists|w: u32|
            final(c).only_words(old(c), k, old(c).words(k).push(w)) && Word::of(w) == (Word {
                alloc: true,
                stamp: 0,
                count: 0,
            }),
        final(c).words(k).len() == old(c).words(k).len() + 1,
        Word::of(final(c).words(k).last()) == (Word { alloc: true, stamp: 0, count: 0 }),
{
    let w: u32 = word(0);
    c.of(k).push(w);
    assert(c.only_words(old(c), k, old(c).words(k).push(w)));
}

/// Record a sentinel of kind `k`, held for as long as the context lives.
pub fn new_sentinel(c: &mut Counts, k: Kind)
    requires
        old(c).words(k).len() < MAX_NODES,
    ensures
        exists|w: u32|
            final(c).only_words(old(c), k, old(c).words(k).push(w)) && Word::of(w) == (Word {
                alloc: true,
                stamp: 0,
                count: 1,
            }),
        final(c).words(k).len() == old(c).words(k).len() + 1,
        Word::of(final(c).words(k).last()) == (Word { alloc: true, stamp: 0, count: 1 }),
{
    let w: u32 = word(1);
    c.of(k).push(w);
    assert(c.only_words(old(c), k, old(c).words(k).push(w)));
}

/// Forget every node of kind `k` past the first `n`, which are sentinels, and
/// the ring and pins with them.
pub fn reset(c: &mut Counts, k: Kind, n: usize)
    requires
        n <= old(c).words(k).len(),
    ensures
        final(c).words(k).len() == n,
        forall|i: int|
            0 <= i < n ==> Word::of(#[trigger] final(c).words(k)[i]) == (Word { alloc: true, stamp: 0, count: 1 }),
        final(c).others(old(c), k),
        final(c).ring().len() == 0,
        final(c).clock() == 0,
        final(c).pins() == 0,
        final(c).cap() == old(c).cap(),
{
    c.of(k).truncate(n);
    let mut i: usize = 0;
    while i < n
        invariant
            i <= n,
            c.words(k).len() == n,
            forall|j: int|
                0 <= j < i ==> Word::of(#[trigger] c.words(k)[j]) == (Word { alloc: true, stamp: 0, count: 1 }),
            c.others(old(c), k),
            c.cap() == old(c).cap(),
        decreases n - i,
    {
        let w: u32 = word(1);
        *c.of(k).index_mut(i) = w;
        i += 1;
    }
    c.ring.clear();
    c.clock = 0;
    c.pins = 0;
}

/// Whether node `id` of kind `k` is live or a zombie.
pub fn alive(c: &Counts, k: Kind, id: u32) -> (r: bool)
    ensures
        r == c.live(k, id),
{
    let a = c.arena(k);
    if (id as usize) < a.len() {
        let w: u32 = *a.index(id as usize);
        proof {
            Word::lemma_bits(w);
        }
        w & ALLOC != 0
    } else {
        false
    }
}

/// Take a reference to node `id`; a zombie becomes live again.
pub fn inc(c: &mut Counts, k: Kind, id: u32)
    requires
        old(c).live(k, id),
    ensures
        final(c).only_words(
            old(c),
            k,
            old(c).words(k).update(id as int, Counts::bumped(old(c).words(k)[id as int])),
        ),
        final(c).live(k, id),
{
    let w: u32 = *c.arena(k).index(id as usize);
    proof {
        Word::lemma_bits(w);
    }
    if w & COUNT_MAX != COUNT_MAX {
        *c.of(k).index_mut(id as usize) = w + 1;
    } else {
        assert(c.words(k) =~= c.words(k).update(id as int, w));
    }
}

/// Give back a handle's reference to node `id`, recording the release in its
/// stamp.  A node this leaves without holders becomes a zombie.
pub fn release(c: &mut Counts, k: Kind, id: u32)
    requires
        old(c).wf(),
        old(c).live(k, id),
        old(c).count(k, id) > 0,
    ensures
        final(c).wf(),
        final(c).live(k, id),
        old(c).count(k, id) == COUNT_MAX ==> *final(c) == *old(c),
        old(c).count(k, id) < COUNT_MAX ==> {
            &&& exists|w: u32|
                final(c).words(k) == old(c).words(k).update(id as int, w) && Word::of(w) == (Word {
                    alloc: true,
                    stamp: old(c).clock() as nat,
                    count: (old(c).count(k, id) - 1) as nat,
                })
            &&& final(c).others(old(c), k)
            &&& final(c).pins() == old(c).pins()
            &&& final(c).cap() == old(c).cap()
            &&& final(c).ring() == (if old(c).count(k, id) == 1 {
                old(c).ring().push((k, id, old(c).clock()))
            } else {
                old(c).ring()
            })
            &&& final(c).clock() == (if old(c).count(k, id) == 1 {
                (old(c).clock() + 1) % 0x8_0000
            } else {
                old(c).clock() as int
            })
        },
{
    let clock: u32 = c.clock;
    let w: u32 = *c.arena(k).index(id as usize);
    proof {
        Word::lemma_bits(w);
    }
    let count: u32 = w & COUNT_MAX;
    if count == COUNT_MAX {
        return;
    }
    proof {
        Word::lemma_make(clock, (count - 1) as u32);
    }
    let w2: u32 = ALLOC | clock << COUNT_BITS | (count - 1);
    *c.of(k).index_mut(id as usize) = w2;
    assert(c.words(k) == old(c).words(k).update(id as int, w2));
    if count == 1 {
        c.ring.push_back((k, id, clock));
        proof {
            let n: u32 = (clock + 1) as u32;
            assert(n & 0x7_ffff == n % 0x8_0000) by (bit_vector);
        }
        c.clock = (clock + 1) & STAMP_MASK;
        assert(c.words(k) == old(c).words(k).update(id as int, w2));
    }
}

/// Give back the reference a freed node held on `id`.  Returns the stamp when
/// this leaves `id` without holders.
pub fn drop_child(c: &mut Counts, k: Kind, id: u32) -> (r: Option<u32>)
    requires
        id < old(c).words(k).len(),
        old(c).count(k, id) > 0,
    ensures
        old(c).count(k, id) == COUNT_MAX ==> *final(c) == *old(c) && r is None,
        old(c).count(k, id) < COUNT_MAX ==> {
            &&& final(c).only_words(
                old(c),
                k,
                old(c).words(k).update(id as int, (old(c).words(k)[id as int] - 1) as u32),
            )
            &&& final(c).count(k, id) == old(c).count(k, id) - 1
            &&& final(c).live(k, id) == old(c).live(k, id)
            &&& r == (if old(c).count(k, id) == 1 {
                Some(Word::of(old(c).words(k)[id as int]).stamp as u32)
            } else {
                None
            })
        },
{
    let w: u32 = *c.arena(k).index(id as usize);
    proof {
        Word::lemma_bits(w);
    }
    let count: u32 = w & COUNT_MAX;
    if count == COUNT_MAX {
        return None;
    }
    let w2: u32 = w - 1;
    proof {
        Word::lemma_bits(w2);
    }
    *c.of(k).index_mut(id as usize) = w2;
    if count == 1 {
        Some((w2 >> COUNT_BITS) & STAMP_MASK)
    } else {
        None
    }
}

/// Take a reference to value `id`.
pub fn inc_val(c: &mut Counts, id: u32)
    requires
        old(c).live(Kind::Val, id),
    ensures
        final(c).only_words(
            old(c),
            Kind::Val,
            old(c).words(Kind::Val).update(id as int, Counts::bumped(old(c).words(Kind::Val)[id as int])),
        ),
        final(c).live(Kind::Val, id),
{
    inc(c, Kind::Val, id)
}

/// Take a reference to spine `id`.
pub fn inc_spine(c: &mut Counts, id: u32)
    requires
        old(c).live(Kind::Spine, id),
    ensures
        final(c).only_words(
            old(c),
            Kind::Spine,
            old(c).words(Kind::Spine).update(id as int, Counts::bumped(old(c).words(Kind::Spine)[id as int])),
        ),
        final(c).live(Kind::Spine, id),
{
    inc(c, Kind::Spine, id)
}

/// Take a reference to environment `id`.
pub fn inc_env(c: &mut Counts, id: u32)
    requires
        old(c).live(Kind::Env, id),
    ensures
        final(c).only_words(
            old(c),
            Kind::Env,
            old(c).words(Kind::Env).update(id as int, Counts::bumped(old(c).words(Kind::Env)[id as int])),
        ),
        final(c).live(Kind::Env, id),
{
    inc(c, Kind::Env, id)
}

/// Pin environment `id` for the rest of the declaration.
pub fn pin_env(c: &mut Counts, id: u32)
    requires
        old(c).live(Kind::Env, id),
        old(c).pins() < u64::MAX,
    ensures
        final(c).words(Kind::Env) == old(c).words(Kind::Env).update(
            id as int,
            Counts::bumped(old(c).words(Kind::Env)[id as int]),
        ),
        final(c).words(Kind::Val) == old(c).words(Kind::Val),
        final(c).words(Kind::Spine) == old(c).words(Kind::Spine),
        final(c).ring() == old(c).ring(),
        final(c).clock() == old(c).clock(),
        final(c).cap() == old(c).cap(),
        final(c).pins() == old(c).pins() + 1,
{
    inc_env(c, id);
    c.pins = c.pins + 1;
}

/// Give back a reference to value `id`.
pub fn dec_val(c: &mut Counts, id: u32)
    requires
        old(c).wf(),
        old(c).live(Kind::Val, id),
        old(c).count(Kind::Val, id) > 0,
    ensures
        final(c).wf(),
        final(c).live(Kind::Val, id),
        old(c).count(Kind::Val, id) == COUNT_MAX ==> *final(c) == *old(c),
        old(c).count(Kind::Val, id) < COUNT_MAX ==> {
            &&& exists|w: u32|
                final(c).words(Kind::Val) == old(c).words(Kind::Val).update(id as int, w) && Word::of(w) == (Word {
                    alloc: true,
                    stamp: old(c).clock() as nat,
                    count: (old(c).count(Kind::Val, id) - 1) as nat,
                })
            &&& final(c).others(old(c), Kind::Val)
            &&& final(c).pins() == old(c).pins()
            &&& final(c).cap() == old(c).cap()
            &&& final(c).ring() == (if old(c).count(Kind::Val, id) == 1 {
                old(c).ring().push((Kind::Val, id, old(c).clock()))
            } else {
                old(c).ring()
            })
            &&& final(c).clock() == (if old(c).count(Kind::Val, id) == 1 {
                (old(c).clock() + 1) % 0x8_0000
            } else {
                old(c).clock() as int
            })
        },
{
    release(c, Kind::Val, id)
}

/// Whether the ring holds zombies that are due.
pub fn collect_due(c: &Counts) -> (r: bool)
    ensures
        r == (c.ring().len() > c.cap()),
{
    c.ring.len() > c.ring_cap
}

/// Drop the entries that name freed nodes from a table that holds `cap` entries,
/// and tell whether it did.
pub fn room_for(t: &mut Tab<u32>, c: &Counts, k: Kind, cap: usize) -> (r: bool)
    ensures
        r == (old(t)@.len() == cap),
        !r ==> *final(t) == *old(t),
        r ==> forall|x: Key| #[trigger]
            final(t)@.contains_key(x) == (old(t)@.contains_key(x) && c.live(k, old(t)@[x])),
        forall|x: Key| #[trigger] final(t)@.contains_key(x) ==> final(t)@[x] == old(t)@[x],
{
    t.room_for(c, k, cap)
}

/// Make room in a full weak table by dropping the entries that name freed
/// nodes, and grow it now if that frees less than half of it, so that the next
/// pass comes only after as many inserts again.  A table that is not full is
/// left as it is; how many entries make one full, the allocator decides.
pub fn make_room(t: &mut Tab<u32>, c: &Counts, k: Kind)
    ensures
        final(t)@ == old(t)@ || forall|x: Key| #[trigger]
            final(t)@.contains_key(x) == (old(t)@.contains_key(x) && c.live(k, old(t)@[x])),
        forall|x: Key| #[trigger] final(t)@.contains_key(x) ==> old(t)@.contains_key(x) && final(t)@[x] == old(t)@[x],
        forall|x: Key| #[trigger]
            old(t)@.contains_key(x) && c.live(k, old(t)@[x]) ==> final(t)@.contains_key(x),
{
    t.make_room(c, k)
}

/// `HashSet::capacity`: how many elements fit before the set grows.  Nothing is
/// claimed of the number, which the allocator decides.
#[verifier::external_body]
fn set_capacity(m: &HashSet<u32>) -> usize {
    m.capacity()
}

/// `HashSet::retain`: keeps the elements that pass the test.  The test is that
/// the node the element names is live.
#[verifier::external_body]
fn set_retain_live(m: &mut HashSet<u32>, c: &Counts, k: Kind)
    ensures
        final(m)@ == old(m)@.filter(|x: u32| c.live(k, x)),
{
    m.retain(|x| alive(c, k, *x));
}

/// Drop the elements that name freed nodes from a set that holds `cap` elements,
/// and tell whether it did.
pub fn room_for_set(m: &mut HashSet<u32>, c: &Counts, k: Kind, cap: usize) -> (r: bool)
    ensures
        r == (old(m)@.len() == cap),
        final(m)@ == (if r {
            old(m)@.filter(|x: u32| c.live(k, x))
        } else {
            old(m)@
        }),
{
    broadcast use vstd::std_specs::hash::group_hash_axioms;

    if m.len() != cap {
        return false;
    }
    set_retain_live(m, c, k);
    true
}

/// Make room in a full weak set as `make_room` does in a table.
pub fn make_room_set(m: &mut HashSet<u32>, c: &Counts, k: Kind)
    ensures
        final(m)@ == old(m)@ || final(m)@ == old(m)@.filter(|x: u32| c.live(k, x)),
{
    broadcast use vstd::std_specs::hash::group_hash_axioms;

    let cap: usize = set_capacity(m);
    if room_for_set(m, c, k, cap) {
        let cap: usize = set_capacity(m);
        if m.len() > cap / 2 {
            m.reserve(cap);
        }
    }
}

/// The id interned under `key`, or `fresh` interned under it when there is
/// none or the one there has been freed.
pub fn intern(t: &mut Tab<u32>, c: &Counts, k: Kind, key: Key, fresh: u32) -> (r: u32)
    ensures
        r == (if old(t)@.contains_key(key) && c.live(k, old(t)@[key]) {
            old(t)@[key]
        } else {
            fresh
        }),
        final(t)@.contains_key(key),
        final(t)@[key] == r,
        forall|x: Key|
            x != key && #[trigger] final(t)@.contains_key(x) ==> old(t)@.contains_key(x) && final(t)@[x] == old(t)@[x],
        forall|x: Key| #[trigger]
            old(t)@.contains_key(x) && c.live(k, old(t)@[x]) ==> final(t)@.contains_key(x),
{
    make_room(t, c, k);
    match t.get(key) {
        Some(id) => {
            if alive(c, k, id) {
                return id;
            }
        },
        None => {},
    }
    t.insert(key, fresh);
    fresh
}

} // verus!
