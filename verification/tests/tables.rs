//! Tables, memos and spines.
use nanoclo::closure::{Clo, Gen2};
use nanoclo::spine::SpineVec;
use nanoclo::table::{SliceTable, Tab};

#[test]
fn a_table_holds_what_was_put_in_last() {
    let mut t: Tab<u32> = Tab::new();
    assert_eq!(t.get((1, 2, 3, 4)), None);
    t.insert((1, 2, 3, 4), 7);
    t.insert((1, 2, 3, 5), 8);
    t.insert((1, 2, 3, 4), 9);
    assert_eq!(t.get((1, 2, 3, 4)), Some(9));
    assert_eq!(t.get((1, 2, 3, 5)), Some(8));
    assert_eq!(t.get((4, 3, 2, 1)), None);
    let mut c = t.copy();
    c.insert((0, 0, 0, 0), 1);
    assert_eq!(c.get((1, 2, 3, 5)), Some(8));
    assert_eq!(t.get((0, 0, 0, 0)), None);
    t.clear();
    assert_eq!(t.get((1, 2, 3, 4)), None);
}

#[test]
fn keys_that_share_words_stay_apart() {
    let mut t: Tab<u32> = Tab::new();
    t.insert((u32::MAX, 0, 0, 0), 1);
    t.insert((0, u32::MAX, 0, 0), 2);
    t.insert((0, 0, u32::MAX, 0), 3);
    t.insert((0, 0, 0, u32::MAX), 4);
    assert_eq!(t.get((u32::MAX, 0, 0, 0)), Some(1));
    assert_eq!(t.get((0, u32::MAX, 0, 0)), Some(2));
    assert_eq!(t.get((0, 0, u32::MAX, 0)), Some(3));
    assert_eq!(t.get((0, 0, 0, u32::MAX)), Some(4));
}

#[test]
fn a_slice_is_interned_once() {
    let mut t = SliceTable::new();
    let a = t.intern(vec![1, 2, 3]).unwrap();
    let b = t.intern(vec![1, 2]).unwrap();
    let e = t.intern(vec![]).unwrap();
    assert_eq!(t.intern(vec![1, 2, 3]), Some(a));
    assert_eq!(t.intern(vec![]), Some(e));
    assert_ne!(a, b);
    assert_ne!(b, e);
    assert_eq!(t.len(), 3);
    assert_eq!(*t.get(a), vec![1, 2, 3]);
    assert_eq!(*t.get(b), vec![1, 2]);
}

#[test]
fn a_copy_of_a_slice_table_finds_and_grows_on_its_own() {
    let mut t = SliceTable::new();
    let a = t.intern(vec![4, 4]).unwrap();
    let mut c = t.copy();
    assert_eq!(c.intern(vec![4, 4]), Some(a));
    let b = c.intern(vec![5]).unwrap();
    assert_eq!(*c.get(b), vec![5]);
    assert_eq!(t.len(), 1);
    t.clear();
    assert_eq!(t.len(), 0);
    assert_eq!(t.intern(vec![5]), Some(0));
}

#[test]
fn many_slices_are_found_again() {
    let mut t = SliceTable::new();
    let mut ids = vec![];
    for i in 0..2000u64 {
        ids.push(t.intern(vec![i, i * i]).unwrap());
    }
    for i in 0..2000u64 {
        assert_eq!(t.intern(vec![i, i * i]), Some(ids[i as usize]));
    }
    assert_eq!(t.len(), 2000);
}

#[test]
fn a_two_generation_memo_remembers() {
    let mut m: Gen2<u32> = Gen2::new();
    assert_eq!(m.get((1, 0, 0, 0)), None);
    m.insert((1, 0, 0, 0), 5);
    m.insert((2, 0, 0, 0), 6);
    assert_eq!(m.get((1, 0, 0, 0)), Some(5));
    assert_eq!(m.get((2, 0, 0, 0)), Some(6));
    m.reset_decl();
    assert_eq!(m.get((1, 0, 0, 0)), None);
}

#[test]
fn a_spine_grows_past_its_inline_room_and_reverses() {
    let mut s = SpineVec::new();
    assert_eq!(s.len(), 0);
    for i in 0..20u32 {
        s.push(Clo { e: i, env: 100 + i });
    }
    assert_eq!(s.len(), 20);
    assert_eq!(s.get(3), Clo { e: 3, env: 103 });
    s.reverse();
    assert_eq!(s.get(0), Clo { e: 19, env: 119 });
    assert_eq!(s.get(19), Clo { e: 0, env: 100 });
}

#[test]
fn an_entry_that_is_used_survives_the_swap() {
    let mut m: Gen2<u32> = Gen2::new();
    m.insert((0, 0, 0, 1), 7);
    m.insert((0, 0, 0, 2), 8);
    let cap = nanoclo::closure::CCAP as u32;
    for i in 2..cap {
        m.insert((i, 0, 0, 0), i);
    }
    // full: the next entry starts a new generation
    m.insert((cap, 0, 0, 0), cap);
    assert_eq!(m.get((0, 0, 0, 1)), Some(7));
    for i in 2..cap {
        m.insert((i, 1, 0, 0), i);
    }
    m.insert((cap, 1, 0, 0), cap);
    assert_eq!(m.get((0, 0, 0, 1)), Some(7));
    assert_eq!(m.get((0, 0, 0, 2)), None);
}
