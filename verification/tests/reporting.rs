//! Counters and names.
use nanoclo::counters::{ctrs_report, Counters, DEF_EQ, INFER, N_CTRS};
use nanoclo::names::{Name, NameTable};

#[test]
fn the_report_lists_every_counter() {
    let mut n = vec![0u64; N_CTRS];
    n[0] = 7;
    n[24] = 1203;
    assert_eq!(
        ctrs_report(&n),
        "infer=7 whnf_core=0 whnf=0 def_eq=0 whnf_hit=0 whnf_miss=0 deq_hit=0 deq_miss=0 unfold_hit=0 unfold_miss=0 \
         push_entry=0 eq_mod=0 eqm_hit=0 eqm_miss=0 eqm_fast=0 eqm_nomemo=0 inf_hit=0 inf_miss=0 inf_var_val=0 \
         inf_var_neu=0 inf_local=0 inf_sort=0 inf_const=0 spec_fail=0 spec_abort=1203 "
    );
}

#[test]
fn the_largest_count_is_written_out() {
    let n = vec![u64::MAX; N_CTRS];
    assert!(ctrs_report(&n).starts_with("infer=18446744073709551615 whnf_core="));
}

#[test]
fn counts_are_handed_over_once() {
    let mut c = Counters::new();
    c.bump(INFER);
    c.bump(INFER);
    c.bump(DEF_EQ);
    c.bump(N_CTRS);
    let n = c.flush_ctrs();
    assert_eq!(n[INFER], 2);
    assert_eq!(n[DEF_EQ], 1);
    assert_eq!(n.iter().sum::<u64>(), 3);
    assert_eq!(c.flush_ctrs(), vec![0u64; N_CTRS]);
}

fn names() -> NameTable {
    NameTable {
        nodes: vec![
            Name::Anon,
            Name::Str(0, "List".to_string()),
            Name::Str(1, "casesOn".to_string()),
            Name::Str(1, "match_1".to_string()),
            Name::Str(1, "brecOn".to_string()),
            Name::Str(4, "go".to_string()),
            Name::Str(1, "go".to_string()),
            Name::Num(1, 3),
            Name::Str(1, "map".to_string()),
            Name::Str(1, "_sparseCasesOn_2".to_string()),
        ],
    }
}

#[test]
fn compiled_recursion_is_told_by_its_name() {
    let t = names();
    assert!(t.is_recursion_wrapper(2));
    assert!(t.is_recursion_wrapper(3));
    assert!(t.is_recursion_wrapper(4));
    assert!(t.is_recursion_wrapper(5));
    assert!(t.is_recursion_wrapper(9));
    assert!(!t.is_recursion_wrapper(0));
    assert!(!t.is_recursion_wrapper(6));
    assert!(!t.is_recursion_wrapper(7));
    assert!(!t.is_recursion_wrapper(8));
    assert!(!t.is_recursion_wrapper(100));
}
