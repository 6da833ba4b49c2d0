//! Tables: maps keyed by four words, and interned slices of words.
use crate::rc::{alive, Counts, Kind};
use hashbrown::HashTable;
use std::collections::HashMap;
use vstd::prelude::*;

verus! {

/// A key of four words.
pub type Key = (u32, u32, u32, u32);

/// A map from four words to `V`.
pub struct Tab<V> {
    m: HashMap<u128, V>,
}

/// One word of a packed key spans this many values.
pub const WORD: u128 = 0x1_0000_0000;

/// Two words of a packed key span this many values.
pub const WORD2: u128 = 0x1_0000_0000_0000_0000;

/// Three words of a packed key span this many values.
pub const WORD3: u128 = 0x1_0000_0000_0000_0000_0000_0000;

impl<V: Copy> Tab<V> {
    /// The number a key is stored under.
    pub open spec fn packed(k: Key) -> int {
        k.0 + WORD * k.1 + WORD2 * k.2 + WORD3 * k.3
    }

    proof fn lemma_packed(a: Key, b: Key)
        requires
            Self::packed(a) == Self::packed(b),
        ensures
            a == b,
    {
        let a2: int = a.2 + WORD * a.3;
        let b2: int = b.2 + WORD * b.3;
        let a1: int = a.1 + WORD * a2;
        let b1: int = b.1 + WORD * b2;
        Self::lemma_digit(a.0, a1, b.0, b1);
        Self::lemma_digit(a.1, a2, b.1, b2);
        Self::lemma_digit(a.2, a.3 as int, b.2, b.3 as int);
    }

    proof fn lemma_digit(x: u32, h: int, y: u32, k: int)
        requires
            x + WORD * h == y + WORD * k,
        ensures
            x == y,
            h == k,
    {
        assert(h < k + 1 && k < h + 1);
    }

    fn pack(k: Key) -> (r: u128)
        ensures
            r == Self::packed(k),
    {
        (k.0 as u128) + WORD * (k.1 as u128) + WORD2 * (k.2 as u128) + WORD3 * (k.3 as u128)
    }

    /// The entries.
    pub closed spec fn view(&self) -> Map<Key, V> {
        Map::new(
            |k: Key| self.m@.contains_key(Self::packed(k) as u128),
            |k: Key| self.m@[Self::packed(k) as u128],
        )
    }

    /// An entry is held under its packed key.
    proof fn lemma_view(&self)
        ensures
            forall|k: Key| #[trigger] self@.contains_key(k) == self.m@.contains_key(Self::packed(k) as u128),
            forall|k: Key| #[trigger] self@.contains_key(k) ==> self@[k] == self.m@[Self::packed(k) as u128],
    {
    }

    pub fn new() -> (r: Self)
        ensures
            r@ == Map::<Key, V>::empty(),
    {
        broadcast use vstd::std_specs::hash::group_hash_axioms;

        let r = Tab { m: HashMap::new() };
        assert(r@ =~= Map::empty());
        r
    }

    pub fn get(&self, k: Key) -> (r: Option<V>)
        ensures
            r == (if self@.contains_key(k) { Some(self@[k]) } else { None }),
    {
        broadcast use vstd::std_specs::hash::group_hash_axioms;

        match self.m.get(&Self::pack(k)) {
            Some(v) => Some(*v),
            None => None,
        }
    }

    pub fn insert(&mut self, k: Key, v: V)
        ensures
            final(self)@ == old(self)@.insert(k, v),
    {
        broadcast use vstd::std_specs::hash::group_hash_axioms;

        let p: u128 = Self::pack(k);
        let ghost m0 = self.m@;
        self.m.insert(p, v);
        proof {
            assert forall|x: Key| Self::packed(x) as u128 == p implies x == k by {
                Self::lemma_packed(x, k);
            }
            assert(self@ =~= old(self)@.insert(k, v));
        }
    }

    /// A table with the same entries.
    pub fn copy(&self) -> (r: Self)
        ensures
            r@ == self@,
    {
        let r = Tab { m: self.m.clone() };
        assert(r@ =~= self@);
        r
    }

    /// How many entries there are.
    pub fn len(&self) -> (r: usize)
        ensures
            r == self@.len(),
    {
        broadcast use vstd::std_specs::hash::group_hash_axioms;

        proof {
            self.lemma_len();
        }
        self.m.len()
    }

    pub fn clear(&mut self)
        ensures
            final(self)@ == Map::<Key, V>::empty(),
    {
        broadcast use vstd::std_specs::hash::group_hash_axioms;

        self.m.clear();
        assert(self@ =~= Map::empty());
    }
}

/// How often `v` occurs in `s`.
pub open spec fn occurs<V>(s: Seq<V>, v: V) -> nat
    decreases s.len(),
{
    if s.len() == 0 {
        0
    } else {
        occurs(s.drop_last(), v) + (if s.last() == v {
            1nat
        } else {
            0nat
        })
    }
}

/// How many keys of `m` hold `v`.
pub open spec fn held<V>(m: Map<Key, V>, v: V) -> nat {
    m.dom().filter(|k: Key| m[k] == v).len()
}

impl<V: Copy> Tab<V> {
    /// The key stored under a number.
    spec fn unpacked(p: u128) -> Key {
        let h1: int = p as int / 0x1_0000_0000;
        let h2: int = h1 / 0x1_0000_0000;
        (
            (p as int % 0x1_0000_0000) as u32,
            (h1 % 0x1_0000_0000) as u32,
            (h2 % 0x1_0000_0000) as u32,
            (h2 / 0x1_0000_0000) as u32,
        )
    }

    proof fn lemma_unpacked(p: u128)
        ensures
            Self::packed(Self::unpacked(p)) == p,
    {
    }

    /// What is held, once for each key.
    pub fn values(&self) -> (r: Vec<V>)
        ensures
            forall|v: V| #[trigger] occurs(r@, v) == held(self@, v),
    {
        broadcast use vstd::std_specs::hash::group_hash_axioms;

        let mut r: Vec<V> = Vec::new();
        let ghost mut ks: Seq<u128> = Seq::empty();
        for k in it: self.m.keys()
            invariant
                r@.len() == it.index(),
                ks == it.seq().unref().take(it.index() as int),
                forall|i: int| 0 <= i < r@.len() ==> r@[i] == self.m@[#[trigger] ks[i]],
                it.seq().unref().to_set() == self.m@.dom(),
                it.seq().no_duplicates(),
                ks.no_duplicates(),
                it.index() == it.seq().len() ==> ks.to_set() == self.m@.dom(),
        {
            match self.m.get(k) {
                Some(v) => {
                    proof {
                        let all = it.seq().unref();
                        assert(all[it.index() as int] == *k);
                        assert(all.to_set().contains(*k));
                        assert(all.take(it.index() as int + 1) =~= ks.push(*k));
                        assert forall|i: int| 0 <= i < ks.len() implies #[trigger] ks[i] != *k by {
                            assert(*it.seq()[i] == ks[i]);
                            assert(it.seq()[i] != it.seq()[it.index() as int]);
                        }
                        ks = ks.push(*k);
                        assert(it.index() + 1 == it.seq().len() ==> ks =~= it.seq().unref());
                    }
                    r.push(*v);
                },
                None => {},
            }
        }
        proof {
            assert forall|v: V| #[trigger] occurs(r@, v) == held(self@, v) by {
                Self::lemma_occurs(self.m@, ks, r@, v);
                self.lemma_held(v);
            }
        }
        r
    }

    proof fn lemma_occurs(m: Map<u128, V>, ks: Seq<u128>, r: Seq<V>, v: V)
        requires
            ks.no_duplicates(),
            ks.len() == r.len(),
            forall|i: int| 0 <= i < r.len() ==> r[i] == m[#[trigger] ks[i]],
        ensures
            occurs(r, v) == ks.to_set().filter(|k: u128| m[k] == v).len(),
            ks.to_set().finite(),
        decreases ks.len(),
    {
        let f = |k: u128| m[k] == v;
        if ks.len() == 0 {
            assert(ks.to_set().filter(f) =~= Set::empty());
        } else {
            let k = ks.last();
            Self::lemma_occurs(m, ks.drop_last(), r.drop_last(), v);
            assert(r.last() == m[ks[ks.len() - 1]]);
            assert(!ks.drop_last().contains(k));
            let s = ks.drop_last().to_set();
            assert(ks.to_set() =~= s.insert(k)) by {
                assert(ks =~= ks.drop_last().push(k));
            }
            if m[k] == v {
                assert(ks.to_set().filter(f) =~= s.filter(f).insert(k));
                assert(!s.filter(f).contains(k));
            } else {
                assert(ks.to_set().filter(f) =~= s.filter(f));
            }
        }
    }

    proof fn lemma_len(&self)
        requires
            self.m@.dom().finite(),
        ensures
            self@.len() == self.m@.len(),
    {
        let f = |p: u128| Self::unpacked(p);
        assert forall|p: u128| #[trigger] Self::packed(Self::unpacked(p)) == p by {
            Self::lemma_unpacked(p);
        }
        assert(self.m@.dom().map(f) =~= self@.dom()) by {
            assert forall|k: Key| self@.dom().contains(k) implies self.m@.dom().map(f).contains(k) by {
                let p = Self::packed(k) as u128;
                Self::lemma_packed(Self::unpacked(p), k);
                assert(self.m@.dom().contains(p) && f(p) == k);
            }
        }
        vstd::set_lib::lemma_map_size(self.m@.dom(), self@.dom(), f);
    }

    proof fn lemma_held(&self, v: V)
        requires
            self.m@.dom().finite(),
        ensures
            held(self@, v) == self.m@.dom().filter(|k: u128| self.m@[k] == v).len(),
    {
        let x = self.m@.dom().filter(|k: u128| self.m@[k] == v);
        let y = self@.dom().filter(|k: Key| self@[k] == v);
        let f = |p: u128| Self::unpacked(p);
        assert forall|p: u128| #[trigger] Self::packed(Self::unpacked(p)) == p by {
            Self::lemma_unpacked(p);
        }
        assert(x.map(f) =~= y) by {
            assert forall|k: Key| y.contains(k) implies x.map(f).contains(k) by {
                let p = Self::packed(k) as u128;
                Self::lemma_packed(Self::unpacked(p), k);
                assert(x.contains(p) && f(p) == k);
            }
        }
        vstd::set_lib::lemma_map_size(x, y, f);
    }
}

/// `HashMap::capacity`: how many entries fit before the map grows.  Nothing is
/// claimed of the number, which the allocator decides.
#[verifier::external_body]
fn map_capacity(m: &HashMap<u128, u32>) -> usize {
    m.capacity()
}

/// `HashMap::retain`: keeps the entries that pass the test.  The test is that
/// the node the entry names is live.
#[verifier::external_body]
fn map_retain_live(m: &mut HashMap<u128, u32>, c: &Counts, k: Kind)
    ensures
        final(m)@ == old(m)@.restrict(Set::new(|x: u128| old(m)@.contains_key(x) && c.live(k, old(m)@[x]))),
{
    m.retain(|_, v| alive(c, k, *v));
}

impl Tab<u32> {
    /// Drop the entries that name freed nodes from a table that holds `cap` entries,
    /// and tell whether it did.
    pub fn room_for(&mut self, c: &Counts, k: Kind, cap: usize) -> (r: bool)
        ensures
            r == (old(self)@.len() == cap),
            !r ==> *final(self) == *old(self),
            r ==> forall|x: Key| #[trigger]
                final(self)@.contains_key(x) == (old(self)@.contains_key(x) && c.live(k, old(self)@[x])),
            forall|x: Key| #[trigger] final(self)@.contains_key(x) ==> final(self)@[x] == old(self)@[x],
    {
        broadcast use vstd::std_specs::hash::group_hash_axioms;

        if self.len() != cap {
            return false;
        }
        map_retain_live(&mut self.m, c, k);
        proof {
            self.lemma_view();
            old(self).lemma_view();
            assert forall|x: Key|
                (#[trigger] self@.contains_key(x) == (old(self)@.contains_key(x) && c.live(k, old(self)@[x]))) && (
                self@.contains_key(x) ==> self@[x] == old(self)@[x]) by {
                let p = Self::packed(x) as u128;
                assert(self@.contains_key(x) == self.m@.contains_key(p));
                assert(old(self)@.contains_key(x) == old(self).m@.contains_key(p));
            }
        }
        true
    }

    /// Make room in a full weak table by dropping the entries that name freed
    /// nodes, and grow it now if that frees less than half of it, so that the next
    /// pass comes only after as many inserts again.  A table that is not full is
    /// left as it is; how many entries make one full, the allocator decides.
    pub fn make_room(&mut self, c: &Counts, k: Kind)
        ensures
            final(self)@ == old(self)@ || forall|x: Key| #[trigger]
                final(self)@.contains_key(x) == (old(self)@.contains_key(x) && c.live(k, old(self)@[x])),
            forall|x: Key| #[trigger] final(self)@.contains_key(x) ==> old(self)@.contains_key(x) && final(self)@[x] == old(self)@[x],
            forall|x: Key| #[trigger]
                old(self)@.contains_key(x) && c.live(k, old(self)@[x]) ==> final(self)@.contains_key(x),
    {
        broadcast use vstd::std_specs::hash::group_hash_axioms;

        let cap: usize = map_capacity(&self.m);
        if self.room_for(c, k, cap) {
            let ghost t1 = *self;
            let cap: usize = map_capacity(&self.m);
            if self.m.len() > cap / 2 {
                self.m.reserve(cap);
            }
            proof {
                self.lemma_view();
                t1.lemma_view();
                assert forall|x: Key| #[trigger] self@.contains_key(x) == t1@.contains_key(x) && (self@.contains_key(x) ==> self@[x]
                    == t1@[x]) by {
                    assert(self.m@ == t1.m@);
                }
                assert(self@ =~= t1@);
            }
        }
    }
}

/// A vector with the same elements.
pub fn copy_vec<T: Copy>(v: &Vec<T>) -> (r: Vec<T>)
    ensures
        r@ == v@,
{
    let mut r: Vec<T> = Vec::new();
    let mut i: usize = 0;
    while i < v.len()
        invariant
            i <= v@.len(),
            r@ == v@.take(i as int),
        decreases v@.len() - i,
    {
        r.push(v[i]);
        i += 1;
        assert(v@.take(i as int) =~= v@.take(i - 1).push(v@[i - 1]));
    }
    assert(v@.take(v@.len() as int) =~= v@);
    r
}

/// Slices of words, each held once and named by its position.
pub struct SliceTable {
    slices: Vec<Vec<u64>>,
    ids: IdTable,
}

/// A hash table of ids that keeps no keys: `hashbrown::HashTable`.
#[verifier::external_body]
pub struct IdTable {
    t: HashTable<u32>,
}

/// The ids in an [`IdTable`], each with the hash it was put in under.
pub uninterp spec fn id_table_entries(t: IdTable) -> Set<(u64, u32)>;

/// `hashbrown::HashTable::new`: a table without entries.
#[verifier::external_body]
fn id_table_new() -> (r: IdTable)
    ensures
        id_table_entries(r) == Set::<(u64, u32)>::empty(),
{
    IdTable { t: HashTable::new() }
}

/// `hashbrown::HashTable::find`: an entry that passes the test, which every
/// entry put in under `hash` is given.  The test is that the slice an entry
/// names is `key`.
#[verifier::external_body]
fn id_table_find(t: &IdTable, slices: &Vec<Vec<u64>>, key: &Vec<u64>, hash: u64) -> (r: Option<u32>)
    ensures
        match r {
            Some(i) => (exists|h: u64| #[trigger] id_table_entries(*t).contains((h, i))) && SliceTable::slot_is_spec(
                slices@,
                i,
                key@,
            ),
            None => forall|i: u32| #[trigger]
                id_table_entries(*t).contains((hash, i)) ==> !SliceTable::slot_is_spec(slices@, i, key@),
        },
{
    t.t.find(hash, |i| SliceTable::slot_is(slices, *i, key)).copied()
}

/// `hashbrown::HashTable::insert_unique`: adds one entry.  Growing the table
/// asks for the hash of the entries already there, which has to be the one
/// they were put in under.
#[verifier::external_body]
fn id_table_insert(t: &mut IdTable, slices: &Vec<Vec<u64>>, hash: u64, id: u32)
    requires
        forall|h: u64, i: u32| #[trigger]
            id_table_entries(*old(t)).contains((h, i)) ==> h == SliceTable::slot_hash_spec(slices@, i),
        hash == SliceTable::slot_hash_spec(slices@, id),
    ensures
        id_table_entries(*final(t)) == id_table_entries(*old(t)).insert((hash, id)),
{
    t.t.insert_unique(hash, id, |i| SliceTable::slot_hash(slices, *i));
}

/// `hashbrown::HashTable::clear`: removes every entry.
#[verifier::external_body]
fn id_table_clear(t: &mut IdTable)
    ensures
        id_table_entries(*final(t)) == Set::<(u64, u32)>::empty(),
{
    t.t.clear();
}

/// `hashbrown::HashTable::clone`: a table with the same entries.
#[verifier::external_body]
fn id_table_clone(t: &IdTable) -> (r: IdTable)
    ensures
        id_table_entries(r) == id_table_entries(*t),
{
    IdTable { t: t.t.clone() }
}

/// The multiplier of the slice hash.
pub const HASH_MUL: u128 = 0x5851_F42D_4C95_7F2D;

/// Slice ids stay below this bound.
pub const MAX_SLICES: usize = 0x7fff_ffff;

impl SliceTable {
    /// The hash of the first `n` words of `s`.
    pub open spec fn hash_spec(s: Seq<u64>, n: int) -> int
        decreases n,
    {
        if n <= 0 {
            0
        } else {
            (SliceTable::hash_spec(s, n - 1) * HASH_MUL + s[n - 1]) % (WORD2 as int)
        }
    }

    pub open spec fn slot_is_spec(slices: Seq<Vec<u64>>, i: u32, key: Seq<u64>) -> bool {
        i < slices.len() && slices[i as int]@ == key
    }

    pub open spec fn slot_hash_spec(slices: Seq<Vec<u64>>, i: u32) -> int {
        if i < slices.len() {
            SliceTable::hash_spec(slices[i as int]@, slices[i as int]@.len() as int)
        } else {
            0
        }
    }

    /// Whether two slices hold the same words.
    pub fn words_eq(a: &Vec<u64>, b: &Vec<u64>) -> (r: bool)
        ensures
            r == (a@ == b@),
    {
        if a.len() != b.len() {
            return false;
        }
        let mut i: usize = 0;
        while i < a.len()
            invariant
                a.len() == b.len(),
                i <= a.len(),
                forall|j: int| 0 <= j < i ==> a@[j] == b@[j],
            decreases a.len() - i,
        {
            if a[i] != b[i] {
                return false;
            }
            i += 1;
        }
        assert(a@ =~= b@);
        true
    }

    /// Whether slot `i` holds the words `key`.
    pub fn slot_is(slices: &Vec<Vec<u64>>, i: u32, key: &Vec<u64>) -> (r: bool)
        ensures
            r == SliceTable::slot_is_spec(slices@, i, key@),
    {
        (i as usize) < slices.len() && SliceTable::words_eq(&slices[i as usize], key)
    }

    /// The hash of a slice.
    pub fn hash_words(s: &Vec<u64>) -> (r: u64)
        ensures
            r == SliceTable::hash_spec(s@, s@.len() as int),
    {
        let mut h: u64 = 0;
        let mut i: usize = 0;
        while i < s.len()
            invariant
                i <= s.len(),
                h == SliceTable::hash_spec(s@, i as int),
            decreases s.len() - i,
        {
            let x: u64 = s[i];
            assert(h * HASH_MUL + x <= u128::MAX) by (nonlinear_arith)
                requires
                    0 <= h <= 0xffff_ffff_ffff_ffff,
                    0 <= x <= 0xffff_ffff_ffff_ffff,
                    HASH_MUL == 0x5851_F42D_4C95_7F2D,
            ;
            assert(0 <= h * HASH_MUL <= u128::MAX) by (nonlinear_arith)
                requires
                    0 <= h <= 0xffff_ffff_ffff_ffff,
                    HASH_MUL == 0x5851_F42D_4C95_7F2D,
            ;
            h = (((h as u128) * HASH_MUL + (x as u128)) % WORD2) as u64;
            i += 1;
        }
        h
    }

    /// The hash of slot `i`.
    pub fn slot_hash(slices: &Vec<Vec<u64>>, i: u32) -> (r: u64)
        ensures
            r == SliceTable::slot_hash_spec(slices@, i),
    {
        if (i as usize) < slices.len() {
            SliceTable::hash_words(&slices[i as usize])
        } else {
            0
        }
    }

    /// The slices, in the order they were first interned.
    pub closed spec fn view(&self) -> Seq<Seq<u64>> {
        Seq::new(self.slices@.len(), |i: int| self.slices@[i]@)
    }

    /// Every slice is in the id table under its hash, and no two are equal.
    pub closed spec fn wf(&self) -> bool {
        &&& self.slices@.len() <= MAX_SLICES
        &&& forall|i: int|
            0 <= i < self.slices@.len() ==> #[trigger] id_table_entries(self.ids).contains(
                (SliceTable::slot_hash_spec(self.slices@, i as u32) as u64, i as u32),
            )
        &&& forall|h: u64, i: u32| #[trigger]
            id_table_entries(self.ids).contains((h, i)) ==> i < self.slices@.len() && h
                == SliceTable::slot_hash_spec(self.slices@, i)
        &&& self@.no_duplicates()
    }

    /// The bound on the number of slices, and that they are distinct.
    pub proof fn lemma_wf(&self)
        requires
            self.wf(),
        ensures
            self@.len() <= MAX_SLICES,
            self@.no_duplicates(),
    {
    }

    pub fn new() -> (r: Self)
        ensures
            r.wf(),
            r@ == Seq::<Seq<u64>>::empty(),
    {
        let r = SliceTable { slices: Vec::new(), ids: id_table_new() };
        assert(r@ =~= Seq::empty());
        r
    }

    pub fn len(&self) -> (r: usize)
        ensures
            r == self@.len(),
    {
        self.slices.len()
    }

    /// The words of slice `i`.
    pub fn get(&self, i: u32) -> (r: &Vec<u64>)
        requires
            i < self@.len(),
        ensures
            r@ == self@[i as int],
    {
        &self.slices[i as usize]
    }

    /// The id of `key`, appended if it is new; `None` when the table is full.
    pub fn intern(&mut self, key: Vec<u64>) -> (r: Option<u32>)
        requires
            old(self).wf(),
        ensures
            final(self).wf(),
            match r {
                Some(i) => i < final(self)@.len() && final(self)@[i as int] == key@ && (if old(
                    self,
                )@.contains(key@) {
                    final(self)@ == old(self)@
                } else {
                    final(self)@ == old(self)@.push(key@) && i == old(self)@.len()
                }),
                None => old(self)@.len() == MAX_SLICES && !old(self)@.contains(key@) && final(self)@
                    == old(self)@,
            },
    {
        let h: u64 = SliceTable::hash_words(&key);
        match id_table_find(&self.ids, &self.slices, &key, h) {
            Some(i) => {
                proof {
                    assert(old(self)@[i as int] == key@);
                }
                return Some(i);
            },
            None => {},
        }
        proof {
            assert forall|j: int| 0 <= j < old(self)@.len() implies #[trigger] old(self)@[j] != key@ by {
                if old(self)@[j] == key@ {
                    let hj = SliceTable::slot_hash_spec(self.slices@, j as u32) as u64;
                    assert(self.slices@[j]@ == key@);
                    assert(id_table_entries(self.ids).contains((hj, j as u32)));
                    assert(hj == h);
                }
            }
        }
        if self.slices.len() >= MAX_SLICES {
            return None;
        }
        let id: u32 = self.slices.len() as u32;
        let ghost s0 = self.slices@;
        self.slices.push(key);
        proof {
            assert(self.slices@ == s0.push(key));
            assert forall|h2: u64, i: u32| #[trigger] id_table_entries(self.ids).contains((h2, i)) implies h2
                == SliceTable::slot_hash_spec(self.slices@, i) by {
                assert(self.slices@[i as int] == s0[i as int]);
            }
        }
        id_table_insert(&mut self.ids, &self.slices, h, id);
        proof {
            assert(self@ =~= old(self)@.push(key@));
            assert forall|i: int| 0 <= i < self.slices@.len() implies #[trigger] id_table_entries(
                self.ids,
            ).contains((SliceTable::slot_hash_spec(self.slices@, i as u32) as u64, i as u32)) by {
                if i < s0.len() {
                    assert(id_table_entries(old(self).ids).contains(
                        (SliceTable::slot_hash_spec(s0, i as u32) as u64, i as u32),
                    ));
                }
            }
            assert(self@.no_duplicates()) by {
                assert(old(self)@.no_duplicates());
                assert forall|i: int, j: int| 0 <= i < self@.len() && 0 <= j < self@.len() && i != j implies self@[i]
                    != self@[j] by {
                    if i < s0.len() {
                        assert(self@[i] == old(self)@[i]);
                    }
                    if j < s0.len() {
                        assert(self@[j] == old(self)@[j]);
                    }
                }
            }
        }
        Some(id)
    }

    /// A table with the same slices at the same positions.
    pub fn copy(&self) -> (r: Self)
        requires
            self.wf(),
        ensures
            r.wf(),
            r@ == self@,
    {
        let mut slices: Vec<Vec<u64>> = Vec::new();
        let mut i: usize = 0;
        while i < self.slices.len()
            invariant
                i <= self.slices@.len(),
                slices@.len() == i,
                forall|j: int| 0 <= j < i ==> (#[trigger] slices@[j])@ == self.slices@[j]@,
            decreases self.slices@.len() - i,
        {
            slices.push(copy_vec(&self.slices[i]));
            i += 1;
        }
        let r = SliceTable { slices, ids: id_table_clone(&self.ids) };
        proof {
            assert(r@ =~= self@);
            assert forall|i: u32| i < self.slices@.len() implies #[trigger] SliceTable::slot_hash_spec(r.slices@, i)
                == SliceTable::slot_hash_spec(self.slices@, i) by {
                assert(r.slices@[i as int]@ == self.slices@[i as int]@);
            }
        }
        r
    }

    pub fn clear(&mut self)
        ensures
            final(self).wf(),
            final(self)@ == Seq::<Seq<u64>>::empty(),
    {
        self.slices.clear();
        id_table_clear(&mut self.ids);
        assert(self@ =~= Seq::empty());
    }
}

} // verus!
