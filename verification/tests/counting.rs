//! Reference counts, the ring, and freeing.
use nanoclo::check::{Config, ExportFile};
use nanoclo::closure::{Entry, Uses, ENV_NIL};
use nanoclo::collect::CountFault;
use nanoclo::ctx::TcCtx;
use nanoclo::env::Declars;
use nanoclo::expr::{Expr, Store};
use nanoclo::names::NameTable;
use nanoclo::nbe::{Elim, RigidHead, S, SPINE_EMPTY, V};
use nanoclo::rc::{
    alive, collect_due, dec_val, drop_child, inc, inc_val, intern, make_room, make_room_set, new_node, new_sentinel, pin_env,
    release, reset, room_for, room_for_set, word, Counts, CountsGuard, Kind, Stores, COUNT_MAX, RING_CAP,
};
use nanoclo::table::Tab;
use nanoclo::theory::NameCache;
use std::collections::HashSet;

fn one_value(cap: usize) -> Counts {
    let mut c = Counts::with_ring(cap);
    new_node(&mut c, Kind::Val);
    c
}

fn ctx() -> TcCtx {
    let f = ExportFile {
        st: Store::new(),
        declars: Declars::new(),
        names: NameCache::default(),
        name_tab: NameTable { nodes: vec![] },
        config: Config { nat_extension: false, string_extension: false, num_threads: 1 },
    };
    f.new_ctx()
}

#[test]
fn a_word_marks_a_node_and_holds_its_count() {
    assert_eq!(word(0), 1 << 31);
    assert_eq!(word(3), (1 << 31) + 3);
}

#[test]
fn a_new_node_is_alive_without_holders() {
    let c = one_value(4);
    assert!(alive(&c, Kind::Val, 0));
    assert!(!alive(&c, Kind::Val, 1));
    assert!(!alive(&c, Kind::Env, 0));
    assert_eq!(c.count_of(Kind::Val, 0), 0);
}

#[test]
fn a_released_node_waits_in_the_ring_and_lives_again() {
    let mut c = one_value(4);
    inc_val(&mut c, 0);
    inc(&mut c, Kind::Val, 0);
    assert_eq!(c.count_of(Kind::Val, 0), 2);
    dec_val(&mut c, 0);
    assert_eq!(c.ring.len(), 0);
    dec_val(&mut c, 0);
    assert_eq!(c.ring.len(), 1);
    assert_eq!(c.clock, 1);
    assert!(alive(&c, Kind::Val, 0));
    inc_val(&mut c, 0);
    assert_eq!(c.count_of(Kind::Val, 0), 1);
}

#[test]
fn a_saturated_count_stays() {
    let mut c = one_value(4);
    for _ in 0..5000 {
        inc_val(&mut c, 0);
    }
    assert_eq!(c.count_of(Kind::Val, 0), COUNT_MAX);
    release(&mut c, Kind::Val, 0);
    assert_eq!(c.count_of(Kind::Val, 0), COUNT_MAX);
    assert_eq!(drop_child(&mut c, Kind::Val, 0), None);
}

#[test]
fn the_last_reference_dropped_tells_the_stamp() {
    let mut c = one_value(4);
    inc_val(&mut c, 0);
    inc_val(&mut c, 0);
    assert_eq!(drop_child(&mut c, Kind::Val, 0), None);
    assert_eq!(drop_child(&mut c, Kind::Val, 0), Some(0));
}

#[test]
fn the_ring_is_due_past_its_capacity() {
    let mut c = Counts::with_ring(1);
    for i in 0..2 {
        new_node(&mut c, Kind::Val);
        inc_val(&mut c, i);
        assert!(!collect_due(&c));
        dec_val(&mut c, i);
    }
    assert!(collect_due(&c));
    reset(&mut c, Kind::Val, 0);
    assert!(!collect_due(&c));
    assert!(!alive(&c, Kind::Val, 0));
}

#[test]
fn pins_are_counted() {
    let mut c = Counts::with_ring(RING_CAP);
    new_sentinel(&mut c, Kind::Env);
    assert_eq!(c.count_of(Kind::Env, 0), 1);
    pin_env(&mut c, 0);
    assert_eq!(c.count_of(Kind::Env, 0), 2);
    assert_eq!(c.pins, 1);
}

#[test]
fn stores_stack() {
    let mut s = Stores::new();
    let a = CountsGuard::new(&mut s);
    let b = CountsGuard::new(&mut s);
    b.close(&mut s);
    assert_eq!(s.current().ring_cap, RING_CAP);
    a.close(&mut s);
}

#[test]
fn interning_finds_live_nodes_only() {
    let mut c = one_value(4);
    let mut t: Tab<u32> = Tab::new();
    assert_eq!(intern(&mut t, &c, Kind::Val, (1, 0, 0, 0), 0), 0);
    assert_eq!(intern(&mut t, &c, Kind::Val, (1, 0, 0, 0), 5), 0);
    reset(&mut c, Kind::Val, 0);
    assert_eq!(intern(&mut t, &c, Kind::Val, (1, 0, 0, 0), 7), 7);
}

#[test]
fn a_full_table_drops_the_names_of_freed_nodes() {
    let c = one_value(4);
    let mut t: Tab<u32> = Tab::new();
    // node 0 is live, every other name is of no node
    for i in 0..4000u32 {
        make_room(&mut t, &c, Kind::Val);
        t.insert((i, 0, 0, 0), i);
    }
    assert_eq!(t.get((0, 0, 0, 0)), Some(0));
    assert_eq!(t.get((1, 0, 0, 0)), None);
    let mut s: HashSet<u32> = HashSet::new();
    for i in 0..4000u32 {
        make_room_set(&mut s, &c, Kind::Val);
        s.insert(i);
    }
    assert!(s.contains(&0));
    assert!(!s.contains(&1));
}

/// A sort and a stuck application of it, held by their handles.
fn two_values(ctx: &mut TcCtx) -> (V, S, V) {
    let z = ctx.st.zero().unwrap();
    let none = ctx.st.alloc_levels_slice(&vec![]).unwrap();
    let a = ctx.nb.mk_sort(&mut ctx.counts, z).unwrap();
    let s = ctx.nb.spine_snoc(&mut ctx.counts, SPINE_EMPTY, Elim::App(a.id())).unwrap();
    let head = RigidHead::Const(nanoclo::nbe::ConstKind::Axiom, 4, none);
    let f = ctx.nb.mk_rigid(&mut ctx.counts, head, s.id()).unwrap();
    (a, s, f)
}

#[test]
fn counts_cover_their_holders() {
    let mut c = ctx();
    assert_eq!(c.check_counts(), Ok(()));
    let (a, s, f) = two_values(&mut c);
    // the handles hold more than the nodes do
    assert_eq!(c.check_counts(), Err(CountFault::Surplus));
    a.free(&mut c.counts);
    s.free(&mut c.counts);
    f.free(&mut c.counts);
    assert_eq!(c.check_counts(), Ok(()));
}

#[test]
fn a_count_below_its_holders_is_found() {
    let mut c = ctx();
    let (a, s, f) = two_values(&mut c);
    a.free(&mut c.counts);
    s.free(&mut c.counts);
    f.free(&mut c.counts);
    release(&mut c.counts, Kind::Val, 0);
    assert_eq!(c.check_counts(), Err(CountFault::Below(Kind::Val, 0)));
}

#[test]
fn a_freed_node_with_holders_is_found() {
    let mut c = ctx();
    let (a, s, f) = two_values(&mut c);
    a.free(&mut c.counts);
    s.free(&mut c.counts);
    f.free(&mut c.counts);
    *c.counts.of(Kind::Val).index_mut(0) = 0;
    assert_eq!(c.check_counts(), Err(CountFault::Freed(Kind::Val, 0)));
}

#[test]
fn collecting_frees_a_zombie_and_what_only_it_held() {
    let mut c = ctx();
    let (a, s, f) = two_values(&mut c);
    a.free(&mut c.counts);
    s.free(&mut c.counts);
    f.free(&mut c.counts);
    // only the application is without holders
    assert_eq!(c.counts.ring.len(), 1);
    c.nb_collect();
    assert!(alive(&c.counts, Kind::Val, 1));
    c.counts.ring_cap = 0;
    c.nb_collect();
    assert!(!alive(&c.counts, Kind::Val, 0));
    assert!(!alive(&c.counts, Kind::Val, 1));
    assert!(!alive(&c.counts, Kind::Spine, 1));
    assert!(alive(&c.counts, Kind::Spine, 0));
    assert_eq!(c.counts.ring.len(), 0);
    assert_eq!(c.check_counts(), Ok(()));
}

#[test]
fn collecting_leaves_what_a_handle_holds() {
    let mut c = ctx();
    let (a, s, f) = two_values(&mut c);
    s.free(&mut c.counts);
    f.free(&mut c.counts);
    c.counts.ring_cap = 0;
    c.nb_collect();
    assert!(alive(&c.counts, Kind::Val, 0));
    assert!(!alive(&c.counts, Kind::Val, 1));
    assert_eq!(c.counts.count_of(Kind::Val, 0), 1);
    a.free(&mut c.counts);
}

#[test]
fn values_built_alike_are_one_value() {
    let mut c = ctx();
    let (a, s, f) = two_values(&mut c);
    let (b, t, g) = two_values(&mut c);
    assert_eq!(a.id(), b.id());
    assert_eq!(s.id(), t.id());
    assert_eq!(f.id(), g.id());
    assert_eq!(c.nb.vals.len(), 2);
    assert_eq!(c.nb.spines.len(), 2);
}

#[test]
fn room_is_made_at_the_given_size_only() {
    let c = one_value(4);
    let mut t: Tab<u32> = Tab::new();
    t.insert((1, 0, 0, 0), 0);
    t.insert((2, 0, 0, 0), 9);
    assert_eq!(t.len(), 2);
    assert!(!room_for(&mut t, &c, Kind::Val, 3));
    assert_eq!(t.get((2, 0, 0, 0)), Some(9));
    assert!(room_for(&mut t, &c, Kind::Val, 2));
    assert_eq!(t.get((1, 0, 0, 0)), Some(0));
    assert_eq!(t.get((2, 0, 0, 0)), None);
    assert_eq!(t.len(), 1);
    let mut s: HashSet<u32> = HashSet::new();
    s.insert(0);
    s.insert(9);
    assert!(!room_for_set(&mut s, &c, Kind::Val, 3));
    assert!(s.contains(&9));
    assert!(room_for_set(&mut s, &c, Kind::Val, 2));
    assert!(s.contains(&0) && !s.contains(&9));
}

#[test]
fn the_entries_of_a_table_are_listed_once_for_each_key() {
    let mut t: Tab<u32> = Tab::new();
    t.insert((1, 0, 0, 0), 5);
    t.insert((0, 0, 0, 7), 5);
    t.insert((2, 3, 0, 0), 6);
    t.insert((2, 3, 0, 0), 8);
    let mut v = t.values();
    v.sort();
    assert_eq!(v, vec![5, 5, 8]);
}

#[test]
fn an_entry_of_a_cache_holds_what_it_names() {
    let mut c = ctx();
    let (a, s, f) = two_values(&mut c);
    a.free(&mut c.counts);
    s.free(&mut c.counts);
    f.free(&mut c.counts);
    assert_eq!(c.check_counts(), Ok(()));
    c.nb.memo.clo_val.insert((3, 0, 0, 0), 0);
    assert_eq!(c.check_counts(), Err(CountFault::Below(Kind::Val, 0)));
    inc_val(&mut c.counts, 0);
    assert_eq!(c.check_counts(), Ok(()));
    c.nb.memo.unfold.insert((3, 1, 0, 0), None);
    assert_eq!(c.check_counts(), Ok(()));
    c.nb.memo.unfold.insert((3, 0, 0, 0), Some(1));
    assert_eq!(c.check_counts(), Err(CountFault::Below(Kind::Val, 1)));
    inc_val(&mut c.counts, 1);
    assert_eq!(c.check_counts(), Ok(()));
    // a cache that names a freed value is a fault
    c.nb.memo.local.insert((3, 0, 0, 0), 1);
    *c.counts.of(Kind::Val).index_mut(1) = 0;
    assert_eq!(c.check_counts(), Err(CountFault::Freed(Kind::Val, 1)));
}

#[test]
fn a_remembered_value_is_held_once() {
    let mut c = ctx();
    let z = c.st.zero().unwrap();
    let e = c.st.mk(Expr::Sort { level: z }).unwrap();
    let a = c.nb.mk_sort(&mut c.counts, z).unwrap();
    let v = a.id();
    c.note_clo(e, ENV_NIL, v);
    c.note_clo(e, ENV_NIL, v);
    a.free(&mut c.counts);
    assert_eq!(c.counts.count_of(Kind::Val, v), 1);
    assert_eq!(c.check_counts(), Ok(()));
}

#[test]
fn making_a_value_counts_its_parts() {
    let mut c = ctx();
    let (a, s, f) = two_values(&mut c);
    // a handle each, and the spine holds the argument, the application the spine
    assert_eq!(c.counts.count_of(Kind::Val, a.id()), 2);
    assert_eq!(c.counts.count_of(Kind::Spine, s.id()), 2);
    assert_eq!(c.counts.count_of(Kind::Val, f.id()), 1);
    let z = c.st.zero().unwrap();
    let b = c.nb.mk_sort(&mut c.counts, z).unwrap();
    assert_eq!(b.id(), a.id());
    assert_eq!(c.counts.count_of(Kind::Val, a.id()), 3);
}

#[test]
fn a_child_released_lately_waits_in_the_ring() {
    let mut c = ctx();
    let (a, s, f) = two_values(&mut c);
    let none = c.st.alloc_levels_slice(&vec![]).unwrap();
    let head = RigidHead::Const(nanoclo::nbe::ConstKind::Axiom, 5, none);
    let g = c.nb.mk_rigid(&mut c.counts, head, SPINE_EMPTY).unwrap();
    f.free(&mut c.counts);
    a.free(&mut c.counts);
    g.free(&mut c.counts);
    // the application holds the spine still; the handle of it goes last
    s.free(&mut c.counts);
    assert_eq!(c.counts.ring.len(), 2);
    c.counts.ring_cap = 1;
    c.nb_collect();
    assert!(!alive(&c.counts, Kind::Val, 1));
    assert!(!alive(&c.counts, Kind::Val, 2));
    assert!(alive(&c.counts, Kind::Spine, 1));
    assert_eq!(c.counts.count_of(Kind::Spine, 1), 0);
    assert!(alive(&c.counts, Kind::Val, 0));
    assert_eq!(c.counts.ring.len(), 1);
    assert_eq!(c.check_counts(), Ok(()));
}

#[test]
fn what_an_expression_reads_is_exact_below_the_bound() {
    let mut c = ctx();
    let z = c.st.zero().unwrap();
    let ty = c.st.mk(Expr::Sort { level: z }).unwrap();
    let near = c.st.mk(Expr::Var { dbj_idx: 511 }).unwrap();
    let far = c.st.mk(Expr::Var { dbj_idx: 512 }).unwrap();
    let low = c.st.mk(Expr::Var { dbj_idx: 3 }).unwrap();
    assert!(matches!(c.uses_mask(ty), Ok(Uses::Mask(0))));
    assert!(matches!(c.uses_mask(low), Ok(Uses::Mask(8))));
    assert!(matches!(c.uses_mask(near), Ok(Uses::Wide(_))));
    assert!(matches!(c.uses_mask(far), Ok(Uses::Deep)));
    // below a binder the same variable is one closer
    let f = c.st
        .mk(Expr::Lambda { binder_name: 0, binder_style: nanoclo::term::BinderStyle::Default, binder_type: ty, body: far })
        .unwrap();
    assert!(matches!(c.uses_mask(f), Ok(Uses::Wide(_))));
}

#[test]
fn environments_that_agree_where_they_are_read_have_one_key() {
    let mut c = ctx();
    let z = c.st.zero().unwrap();
    let one = c.st.succ(z).unwrap();
    let p = c.st.mk(Expr::Sort { level: z }).unwrap();
    let q = c.st.mk(Expr::Sort { level: one }).unwrap();
    let v0 = c.st.mk(Expr::Var { dbj_idx: 0 }).unwrap();
    let v1 = c.st.mk(Expr::Var { dbj_idx: 1 }).unwrap();
    let a = c.push_entry(ENV_NIL, Entry::Val(p, ENV_NIL)).unwrap();
    let b = c.push_entry(ENV_NIL, Entry::Val(q, ENV_NIL)).unwrap();
    let ap = c.push_entry(a, Entry::Val(p, ENV_NIL)).unwrap();
    let bp = c.push_entry(b, Entry::Val(p, ENV_NIL)).unwrap();
    assert!(ap != bp);
    assert_eq!(c.push_entry(a, Entry::Val(p, ENV_NIL)), Ok(ap));
    assert_eq!(c.read_key(v0, ap), c.read_key(v0, bp));
    assert!(c.read_key(v1, ap) != c.read_key(v1, bp));
    // a closed expression reads nothing
    assert_eq!(c.read_key(p, ap), Ok(ENV_NIL));
    // and an entry that is pushed is the one that is looked up
    assert_eq!(c.lookup(bp, 0), Entry::Val(p, ENV_NIL));
    assert_eq!(c.lookup(bp, 1), Entry::Val(q, ENV_NIL));
}
