//! Whole checks: inference, reduction, conversion and declarations.
use nanoclo::bignum::Nat;
use nanoclo::check::{Config, ExportFile, Verdict, Window};
use nanoclo::closure::Clo;
use nanoclo::env::{
    ConstructorData, Declar, DeclarInfo, Declars, Env, InductiveData, RecRule, RecursorData, ReducibilityHint,
};
use nanoclo::error::{Reason, TcError};
use nanoclo::expr::{Expr, ExprPtr, Store};
use nanoclo::names::{Name, NameTable};
use nanoclo::rapier::RClo;
use nanoclo::tc::{InferFlag, DEPTH_LIMIT};
use nanoclo::term::{BinderStyle, FVarId};
use nanoclo::theory::NameCache;

const NAT: u32 = 1;
const ZERO: u32 = 2;
const SUCC: u32 = 3;
const REC: u32 = 4;
const ADD: u32 = 5;
const A: u32 = 6;
const PAIR: u32 = 7;
const MK: u32 = 8;
const U: u32 = 9;
const TWO: u32 = 10;
const STRING: u32 = 11;

fn config() -> Config {
    Config { nat_extension: true, string_extension: true, num_threads: 1 }
}

fn empty_file() -> ExportFile {
    ExportFile {
        st: Store::new(),
        declars: Declars::new(),
        names: NameCache::default(),
        name_tab: NameTable { nodes: vec![] },
        config: config(),
    }
}

fn pi(st: &mut Store, a: ExprPtr, b: ExprPtr) -> ExprPtr {
    st.mk(Expr::Pi { binder_name: 0, binder_style: BinderStyle::Default, binder_type: a, body: b }).unwrap()
}

fn lam(st: &mut Store, a: ExprPtr, b: ExprPtr) -> ExprPtr {
    st.mk(Expr::Lambda { binder_name: 0, binder_style: BinderStyle::Default, binder_type: a, body: b }).unwrap()
}

fn app(st: &mut Store, f: ExprPtr, a: ExprPtr) -> ExprPtr {
    st.mk(Expr::App { fun: f, arg: a }).unwrap()
}

fn apps(st: &mut Store, f: ExprPtr, args: &[ExprPtr]) -> ExprPtr {
    let mut r = f;
    for a in args {
        r = app(st, r, *a);
    }
    r
}

fn var(st: &mut Store, i: u16) -> ExprPtr {
    st.mk(Expr::Var { dbj_idx: i }).unwrap()
}

fn none(st: &mut Store) -> u32 {
    st.alloc_levels_slice(&vec![]).unwrap()
}

fn cnst(st: &mut Store, name: u32) -> ExprPtr {
    let levels = none(st);
    st.mk(Expr::Const { name, levels }).unwrap()
}

fn prop(st: &mut Store) -> ExprPtr {
    let level = st.zero().unwrap();
    st.mk(Expr::Sort { level }).unwrap()
}

/// The universe of types.
fn ty1(st: &mut Store) -> ExprPtr {
    let z = st.zero().unwrap();
    let level = st.succ(z).unwrap();
    st.mk(Expr::Sort { level }).unwrap()
}

fn lit(st: &mut Store, n: u64) -> ExprPtr {
    let ptr = st.alloc_bignum(&Nat::from_u64(n)).unwrap();
    st.mk(Expr::NatLit { ptr }).unwrap()
}

fn info(name: u32, uparams: u32, ty: u32) -> DeclarInfo {
    DeclarInfo { name, uparams, ty }
}

fn postulate(f: &mut ExportFile, name: u32, ty: ExprPtr) {
    let uparams = none(&mut f.st);
    assert!(f.declars.add_declar(Declar::Axiom { info: info(name, uparams, ty) }));
}

fn define(f: &mut ExportFile, name: u32, ty: ExprPtr, val: ExprPtr) {
    let uparams = none(&mut f.st);
    assert!(f.declars.add_declar(Declar::Definition {
        info: info(name, uparams, ty),
        val,
        hint: ReducibilityHint::Regular(1),
    }));
}

/// `a : Prop`.
fn prop_file() -> ExportFile {
    let mut f = empty_file();
    let p = prop(&mut f.st);
    postulate(&mut f, A, p);
    f
}

/// The natural numbers with their recursor, and addition by recursion.
fn nat_file() -> ExportFile {
    let mut f = empty_file();
    f.names.nat = Some(NAT);
    f.names.nat_zero = Some(ZERO);
    f.names.nat_succ = Some(SUCC);
    let st = &mut f.st;
    let no = none(st);
    let t1 = ty1(st);
    let nat = cnst(st, NAT);
    let zero = cnst(st, ZERO);
    let succ = cnst(st, SUCC);
    let nat_nat = pi(st, nat, nat);
    let u = st.param(U).unwrap();
    let us = st.alloc_levels_slice(&vec![u]).unwrap();
    let sort_u = st.mk(Expr::Sort { level: u }).unwrap();
    let motive_ty = pi(st, nat, sort_u);
    let v0 = var(st, 0);
    let v1 = var(st, 1);
    let v2 = var(st, 2);
    let v3 = var(st, 3);
    // the step: for every n, from the motive at n to the motive at n + 1
    let step_ty = |st: &mut Store, motive: u16| {
        let m0 = var(st, motive + 1);
        let n = var(st, 0);
        let at_n = app(st, m0, n);
        let m1 = var(st, motive + 2);
        let n1 = var(st, 1);
        let s = app(st, succ, n1);
        let at_s = app(st, m1, s);
        let body = pi(st, at_n, at_s);
        pi(st, nat, body)
    };
    let base_ty = app(st, v0, zero);
    let step1 = step_ty(st, 1);
    let rec_ty = {
        let m3 = app(st, v3, v0);
        let b = pi(st, nat, m3);
        let b = pi(st, step1, b);
        let b = pi(st, base_ty, b);
        pi(st, motive_ty, b)
    };
    // fun motive base step => base
    let zero_rule = {
        let b = lam(st, step1, v1);
        let b = lam(st, base_ty, b);
        lam(st, motive_ty, b)
    };
    // fun motive base step n => step n (rec motive base step n)
    let succ_rule = {
        let rec = st.mk(Expr::Const { name: REC, levels: us }).unwrap();
        let ih = apps(st, rec, &[v3, v2, v1, v0]);
        let b = apps(st, v1, &[v0, ih]);
        let b = lam(st, nat, b);
        let b = lam(st, step1, b);
        let b = lam(st, base_ty, b);
        lam(st, motive_ty, b)
    };
    // fun a b => rec (fun _ => Nat) a (fun _ ih => succ ih) b
    let add_ty = pi(st, nat, nat_nat);
    let add_val = {
        let z = st.zero().unwrap();
        let one = st.succ(z).unwrap();
        let ones = st.alloc_levels_slice(&vec![one]).unwrap();
        let rec = st.mk(Expr::Const { name: REC, levels: ones }).unwrap();
        let motive = lam(st, nat, nat);
        let s = app(st, succ, v0);
        let step = lam(st, nat, s);
        let step = lam(st, nat, step);
        let b = apps(st, rec, &[motive, v1, step, v0]);
        let b = lam(st, nat, b);
        lam(st, nat, b)
    };
    let d = &mut f.declars;
    assert!(d.add_declar(Declar::Inductive(InductiveData {
        info: info(NAT, no, t1),
        num_params: 0,
        num_indices: 0,
        all_ctor_names: vec![ZERO, SUCC],
        is_recursive: true,
    })));
    assert!(d.add_declar(Declar::Constructor(ConstructorData {
        info: info(ZERO, no, nat),
        inductive_name: NAT,
        num_params: 0,
        num_fields: 0,
    })));
    assert!(d.add_declar(Declar::Constructor(ConstructorData {
        info: info(SUCC, no, nat_nat),
        inductive_name: NAT,
        num_params: 0,
        num_fields: 1,
    })));
    assert!(d.add_declar(Declar::Recursor(RecursorData {
        info: info(REC, us, rec_ty),
        num_params: 0,
        num_motives: 1,
        num_minors: 2,
        num_indices: 0,
        rec_rules: vec![
            RecRule { ctor_name: ZERO, ctor_telescope_size_wo_params: 0, val: zero_rule },
            RecRule { ctor_name: SUCC, ctor_telescope_size_wo_params: 1, val: succ_rule },
        ],
        is_k: false,
        all_inductives: vec![NAT],
    })));
    define(&mut f, ADD, add_ty, add_val);
    f
}

/// The numbers, and pairs of them.
fn pair_file() -> ExportFile {
    let mut f = nat_file();
    let t1 = ty1(&mut f.st);
    let nat = cnst(&mut f.st, NAT);
    let pair = cnst(&mut f.st, PAIR);
    let b = pi(&mut f.st, nat, pair);
    let mk_ty = pi(&mut f.st, nat, b);
    let no = none(&mut f.st);
    assert!(f.declars.add_declar(Declar::Inductive(InductiveData {
        info: info(PAIR, no, t1),
        num_params: 0,
        num_indices: 0,
        all_ctor_names: vec![MK],
        is_recursive: false,
    })));
    assert!(f.declars.add_declar(Declar::Constructor(ConstructorData {
        info: info(MK, no, mk_ty),
        inductive_name: PAIR,
        num_params: 0,
        num_fields: 2,
    })));
    f
}

fn rejected(f: &ExportFile, i: usize) -> Reason {
    match f.check_declar(f.declars.at(i)) {
        Err(TcError::Reject(r)) => r,
        other => panic!("{:?}", other),
    }
}

#[test]
fn an_axiom_of_a_sort_is_accepted() {
    let f = prop_file();
    assert_eq!(f.check_declar(f.declars.at(0)), Ok(Verdict::Accepted));
}

#[test]
fn the_identity_proof_is_accepted() {
    let mut f = prop_file();
    let a = cnst(&mut f.st, A);
    let v0 = var(&mut f.st, 0);
    let ty = pi(&mut f.st, a, a);
    let val = lam(&mut f.st, a, v0);
    let no = none(&mut f.st);
    assert!(f.declars.add_declar(Declar::Theorem { info: info(20, no, ty), val }));
    assert_eq!(f.check_all_declars(), Ok(vec![Verdict::Accepted, Verdict::Accepted]));
}

#[test]
fn the_numbers_are_accepted() {
    let f = nat_file();
    assert_eq!(
        f.check_all_declars(),
        Ok(vec![Verdict::Inductive, Verdict::Accepted, Verdict::Accepted, Verdict::Accepted, Verdict::Accepted])
    );
}

#[test]
fn quotient_primitives_are_handed_on() {
    let mut f = empty_file();
    let p = prop(&mut f.st);
    let no = none(&mut f.st);
    assert!(f.declars.add_declar(Declar::Quot { info: info(30, no, p) }));
    assert_eq!(f.check_all_declars(), Ok(vec![Verdict::Quot]));
}

#[test]
fn a_name_is_declared_once() {
    let mut f = prop_file();
    let p = prop(&mut f.st);
    let no = none(&mut f.st);
    assert!(!f.declars.add_declar(Declar::Axiom { info: info(A, no, p) }));
}

#[test]
fn a_repeated_level_parameter_is_rejected() {
    let mut f = empty_file();
    let u = f.st.param(U).unwrap();
    let us = f.st.alloc_levels_slice(&vec![u, u]).unwrap();
    let p = prop(&mut f.st);
    assert!(f.declars.add_declar(Declar::Axiom { info: info(20, us, p) }));
    assert_eq!(rejected(&f, 0), Reason::DuplicateParam);
}

#[test]
fn a_level_parameter_out_of_scope_is_rejected() {
    let mut f = empty_file();
    let u = f.st.param(U).unwrap();
    let s = f.st.mk(Expr::Sort { level: u }).unwrap();
    postulate(&mut f, 20, s);
    assert_eq!(rejected(&f, 0), Reason::LevelParam);
}

#[test]
fn a_free_variable_in_a_type_is_rejected() {
    let mut f = empty_file();
    let p = prop(&mut f.st);
    let x = f
        .st
        .mk(Expr::Local { binder_name: 0, binder_style: BinderStyle::Default, binder_type: p, id: FVarId::DbjLevel(0) })
        .unwrap();
    postulate(&mut f, 20, x);
    assert_eq!(rejected(&f, 0), Reason::FreeVar);
}

#[test]
fn an_undeclared_constant_is_rejected() {
    let mut f = empty_file();
    let a = cnst(&mut f.st, A);
    postulate(&mut f, 20, a);
    assert_eq!(rejected(&f, 0), Reason::UnknownConst);
}

#[test]
fn a_later_declaration_is_not_in_scope() {
    let mut f = empty_file();
    let a = cnst(&mut f.st, A);
    postulate(&mut f, 20, a);
    let p = prop(&mut f.st);
    postulate(&mut f, A, p);
    assert_eq!(rejected(&f, 0), Reason::UnknownConst);
    assert_eq!(f.check_all_declars(), Err((0, TcError::Reject(Reason::UnknownConst))));
}

#[test]
fn the_wrong_number_of_levels_is_rejected() {
    let mut f = prop_file();
    let z = f.st.zero().unwrap();
    let zs = f.st.alloc_levels_slice(&vec![z]).unwrap();
    let a = f.st.mk(Expr::Const { name: A, levels: zs }).unwrap();
    postulate(&mut f, 20, a);
    assert_eq!(rejected(&f, 1), Reason::LevelCount);
}

#[test]
fn a_proof_used_as_a_type_is_rejected() {
    let mut f = prop_file();
    let a = cnst(&mut f.st, A);
    postulate(&mut f, 20, a);
    let x = cnst(&mut f.st, 20);
    postulate(&mut f, 21, x);
    assert_eq!(rejected(&f, 2), Reason::NotASort);
}

#[test]
fn a_theorem_states_a_proposition() {
    let mut f = nat_file();
    let nat = cnst(&mut f.st, NAT);
    let zero = cnst(&mut f.st, ZERO);
    let no = none(&mut f.st);
    assert!(f.declars.add_declar(Declar::Theorem { info: info(20, no, nat), val: zero }));
    assert_eq!(rejected(&f, 5), Reason::NotAProp);
}

#[test]
fn a_value_of_another_type_is_rejected() {
    let mut f = nat_file();
    let nat = cnst(&mut f.st, NAT);
    let succ = cnst(&mut f.st, SUCC);
    define(&mut f, 20, nat, succ);
    assert_eq!(rejected(&f, 5), Reason::NotEqual);
}

#[test]
fn an_argument_of_another_type_is_rejected() {
    let mut f = nat_file();
    let nat = cnst(&mut f.st, NAT);
    let succ = cnst(&mut f.st, SUCC);
    let bad = app(&mut f.st, succ, succ);
    define(&mut f, 20, nat, bad);
    assert_eq!(rejected(&f, 5), Reason::ArgMismatch);
}

#[test]
fn a_number_is_not_a_function() {
    let mut f = nat_file();
    let nat = cnst(&mut f.st, NAT);
    let zero = cnst(&mut f.st, ZERO);
    let bad = app(&mut f.st, zero, zero);
    define(&mut f, 20, nat, bad);
    assert_eq!(rejected(&f, 5), Reason::NotAFunction);
}

#[test]
fn a_let_value_has_its_declared_type() {
    let mut f = nat_file();
    let nat = cnst(&mut f.st, NAT);
    let succ = cnst(&mut f.st, SUCC);
    let zero = cnst(&mut f.st, ZERO);
    let bad =
        f.st.mk(Expr::Let { binder_name: 0, binder_type: nat, val: succ, body: zero, nondep: false }).unwrap();
    define(&mut f, 20, nat, bad);
    assert_eq!(rejected(&f, 5), Reason::ValueMismatch);
}

#[test]
fn a_projection_needs_a_structure() {
    let mut f = nat_file();
    let nat = cnst(&mut f.st, NAT);
    let zero = cnst(&mut f.st, ZERO);
    let bad = f.st.mk(Expr::Proj { ty_name: NAT, idx: 0, structure: zero }).unwrap();
    define(&mut f, 20, nat, bad);
    assert_eq!(rejected(&f, 5), Reason::NotAStructure);
}

#[test]
fn a_literal_needs_its_extension() {
    let mut f = nat_file();
    f.config.nat_extension = false;
    let nat = cnst(&mut f.st, NAT);
    let five = lit(&mut f.st, 5);
    define(&mut f, 20, nat, five);
    assert_eq!(rejected(&f, 5), Reason::Literal);
}

#[test]
fn a_constructor_names_its_type() {
    let mut f = prop_file();
    let a = cnst(&mut f.st, A);
    let no = none(&mut f.st);
    assert!(f.declars.add_declar(Declar::Constructor(ConstructorData {
        info: info(20, no, a),
        inductive_name: 99,
        num_params: 0,
        num_fields: 0,
    })));
    assert_eq!(rejected(&f, 1), Reason::BadName);
}

#[test]
fn definitions_over_literals_and_pairs_are_accepted() {
    let mut f = pair_file();
    let nat = cnst(&mut f.st, NAT);
    let mk = cnst(&mut f.st, MK);
    let a = lit(&mut f.st, 3);
    let b = lit(&mut f.st, 4);
    let p = apps(&mut f.st, mk, &[a, b]);
    let fst = f.st.mk(Expr::Proj { ty_name: PAIR, idx: 0, structure: p }).unwrap();
    define(&mut f, TWO, nat, fst);
    assert_eq!(f.check_declar(f.declars.at(7)), Ok(Verdict::Accepted));
}

#[test]
fn a_context_serves_many_declarations() {
    let f = nat_file();
    let mut ctx = f.new_ctx();
    for _ in 0..2 {
        for i in 1..5 {
            assert_eq!(f.check_declar_in(&mut ctx, f.declars.at(i)), Ok(Verdict::Accepted));
        }
    }
    let n = ctx.ctrs.flush_ctrs();
    assert!(n[nanoclo::counters::INFER] > 0);
}

// ---- questions about terms ----

/// The weak head normal form of what `build` makes.
fn whnf_of(f: &mut ExportFile, build: impl Fn(&mut Store) -> ExprPtr, want: impl Fn(&mut Store) -> ExprPtr) {
    let e = build(&mut f.st);
    let w = want(&mut f.st);
    let env = Env::new(&f.declars, f.declars.len() as u32);
    let mut tc = f.checker(&env);
    assert_eq!(tc.whnf(e), Ok(w));
}

fn equal(f: &ExportFile, a: ExprPtr, b: ExprPtr) -> bool {
    let env = Env::new(&f.declars, f.declars.len() as u32);
    let mut tc = f.checker(&env);
    let r = tc.def_eq(a, b).unwrap();
    // equality does not depend on the order of the question
    let mut tc = f.checker(&env);
    assert_eq!(tc.def_eq(b, a), Ok(r));
    r
}

#[test]
fn beta_and_zeta() {
    let mut f = nat_file();
    whnf_of(
        &mut f,
        |st| {
            let nat = cnst(st, NAT);
            let v0 = var(st, 0);
            let id = lam(st, nat, v0);
            let z = cnst(st, ZERO);
            let x = app(st, id, z);
            let body = var(st, 0);
            st.mk(Expr::Let { binder_name: 0, binder_type: nat, val: x, body, nondep: false }).unwrap()
        },
        |st| cnst(st, ZERO),
    );
}

#[test]
fn what_is_normal_stays() {
    let mut f = nat_file();
    for k in 0..3 {
        let e = match k {
            0 => lit(&mut f.st, 7),
            1 => {
                let nat = cnst(&mut f.st, NAT);
                pi(&mut f.st, nat, nat)
            }
            _ => prop(&mut f.st),
        };
        let env = Env::new(&f.declars, f.declars.len() as u32);
        let mut tc = f.checker(&env);
        assert_eq!(tc.whnf(e), Ok(e));
    }
}

#[test]
fn reduction_simplifies_levels() {
    let mut f = nat_file();
    let z = f.st.zero().unwrap();
    let level = f.st.max(z, z).unwrap();
    let s = f.st.mk(Expr::Sort { level }).unwrap();
    let p = prop(&mut f.st);
    let from_s = pi(&mut f.st, s, p);
    let from_p = pi(&mut f.st, p, p);
    let env = Env::new(&f.declars, f.declars.len() as u32);
    let mut tc = f.checker(&env);
    assert_eq!(tc.whnf(s), Ok(p));
    // the domain of a function type is evaluated
    assert_eq!(tc.whnf(from_s), Ok(from_p));
}

#[test]
fn recursion_on_a_literal_computes() {
    let mut f = nat_file();
    let add = cnst(&mut f.st, ADD);
    let two = lit(&mut f.st, 2);
    let three = lit(&mut f.st, 3);
    let five = lit(&mut f.st, 5);
    let six = lit(&mut f.st, 6);
    let sum = apps(&mut f.st, add, &[two, three]);
    assert!(equal(&f, sum, five));
    assert!(!equal(&f, sum, six));
}

#[test]
fn a_primitive_on_literals_is_computed_at_once() {
    let mut f = nat_file();
    f.names.nat_add = Some(ADD);
    let add = cnst(&mut f.st, ADD);
    let a = lit(&mut f.st, u64::MAX);
    let b = lit(&mut f.st, 1);
    let sum = apps(&mut f.st, add, &[a, b]);
    let ptr = f.st.alloc_bignum(&Nat::from_words(&vec![0, 0, 1])).unwrap();
    let want = f.st.mk(Expr::NatLit { ptr }).unwrap();
    assert!(equal(&f, sum, want));
}

#[test]
fn successors_and_literals_agree() {
    let mut f = nat_file();
    let succ = cnst(&mut f.st, SUCC);
    let zero = cnst(&mut f.st, ZERO);
    let one = app(&mut f.st, succ, zero);
    let l1 = lit(&mut f.st, 1);
    let l0 = lit(&mut f.st, 0);
    assert!(equal(&f, one, l1));
    assert!(equal(&f, zero, l0));
    assert!(!equal(&f, one, l0));
}

#[test]
fn eta_for_functions_and_pairs() {
    let mut f = pair_file();
    let nat = cnst(&mut f.st, NAT);
    let succ = cnst(&mut f.st, SUCC);
    let v0 = var(&mut f.st, 0);
    let body = app(&mut f.st, succ, v0);
    let eta = lam(&mut f.st, nat, body);
    assert!(equal(&f, eta, succ));
    // a pair is the pair of its fields
    let pair = cnst(&mut f.st, PAIR);
    postulate(&mut f, 20, pair);
    let p = cnst(&mut f.st, 20);
    let mk = cnst(&mut f.st, MK);
    let fst = f.st.mk(Expr::Proj { ty_name: PAIR, idx: 0, structure: p }).unwrap();
    let snd = f.st.mk(Expr::Proj { ty_name: PAIR, idx: 1, structure: p }).unwrap();
    let q = apps(&mut f.st, mk, &[fst, snd]);
    assert!(equal(&f, p, q));
    let r = apps(&mut f.st, mk, &[snd, fst]);
    assert!(!equal(&f, p, r));
}

#[test]
fn proofs_of_one_proposition_are_equal() {
    let mut f = prop_file();
    let a = cnst(&mut f.st, A);
    postulate(&mut f, 20, a);
    postulate(&mut f, 21, a);
    let x = cnst(&mut f.st, 20);
    let y = cnst(&mut f.st, 21);
    assert!(equal(&f, x, y));
}

#[test]
fn different_axioms_of_a_type_differ() {
    let mut f = nat_file();
    let nat = cnst(&mut f.st, NAT);
    postulate(&mut f, 20, nat);
    postulate(&mut f, 21, nat);
    let x = cnst(&mut f.st, 20);
    let y = cnst(&mut f.st, 21);
    assert!(!equal(&f, x, y));
    let env = Env::new(&f.declars, f.declars.len() as u32);
    let mut tc = f.checker(&env);
    assert_eq!(tc.assert_def_eq(x, x), Ok(()));
    assert_eq!(tc.assert_def_eq(x, y), Err(TcError::Reject(Reason::NotEqual)));
}

#[test]
fn string_literals_are_lists_of_characters() {
    let mut f = empty_file();
    f.names.string = Some(STRING);
    let t1 = ty1(&mut f.st);
    postulate(&mut f, STRING, t1);
    let a = f.st.alloc_string(&vec![104, 105]).unwrap();
    let b = f.st.alloc_string(&vec![104]).unwrap();
    let x = f.st.mk(Expr::StringLit { ptr: a }).unwrap();
    let y = f.st.mk(Expr::StringLit { ptr: b }).unwrap();
    let string = cnst(&mut f.st, STRING);
    assert!(equal(&f, x, x));
    assert!(!equal(&f, x, y));
    let env = Env::new(&f.declars, f.declars.len() as u32);
    let mut tc = f.checker(&env);
    assert_eq!(tc.infer(x, InferFlag::Check), Ok(string));
}

#[test]
fn sorts_are_compared_by_their_levels() {
    let mut f = empty_file();
    let z = f.st.zero().unwrap();
    let one = f.st.succ(z).unwrap();
    let m = f.st.max(z, one).unwrap();
    let s1 = f.st.mk(Expr::Sort { level: one }).unwrap();
    let sm = f.st.mk(Expr::Sort { level: m }).unwrap();
    let s0 = f.st.mk(Expr::Sort { level: z }).unwrap();
    assert!(equal(&f, s1, sm));
    assert!(!equal(&f, s1, s0));
}

#[test]
fn function_types_are_told_apart_by_their_parts() {
    let mut f = nat_file();
    let p = prop(&mut f.st);
    let t = ty1(&mut f.st);
    let a = pi(&mut f.st, p, p);
    let b = pi(&mut f.st, t, p);
    let c = pi(&mut f.st, p, t);
    assert!(!equal(&f, a, b));
    assert!(!equal(&f, a, c));
    assert!(equal(&f, a, a));
    let d = lam(&mut f.st, p, p);
    let e = lam(&mut f.st, p, t);
    assert!(!equal(&f, d, e));
}

#[test]
fn inference_leaves_the_mode_as_it_was() {
    let mut f = nat_file();
    let nat = cnst(&mut f.st, NAT);
    let v0 = var(&mut f.st, 0);
    let id = lam(&mut f.st, nat, v0);
    let two = lit(&mut f.st, 2);
    let good = app(&mut f.st, id, two);
    let bad = app(&mut f.st, id, nat);
    let env = Env::new(&f.declars, f.declars.len() as u32);
    let mut tc = f.checker(&env);
    assert_eq!(tc.infer(good, InferFlag::Check), Ok(nat));
    assert!(!tc.ctx.eager_mode);
    assert_eq!(tc.infer(bad, InferFlag::Check), Err(TcError::Reject(Reason::ArgMismatch)));
    assert!(!tc.ctx.eager_mode);
    // the argument is not compared where the type is only read off
    assert_eq!(tc.infer(bad, InferFlag::InferOnly), Ok(nat));
}

#[test]
fn types_of_leaves() {
    let mut f = nat_file();
    let nat = cnst(&mut f.st, NAT);
    let zero = cnst(&mut f.st, ZERO);
    let p = prop(&mut f.st);
    let t1 = ty1(&mut f.st);
    let five = lit(&mut f.st, 5);
    let missing = cnst(&mut f.st, 77);
    let x = f
        .st
        .mk(Expr::Local { binder_name: 0, binder_style: BinderStyle::Default, binder_type: nat, id: FVarId::DbjLevel(3) })
        .unwrap();
    let env = Env::new(&f.declars, f.declars.len() as u32);
    let mut tc = f.checker(&env);
    assert_eq!(tc.infer(zero, InferFlag::Check), Ok(nat));
    assert_eq!(tc.infer(five, InferFlag::Check), Ok(nat));
    assert_eq!(tc.infer(p, InferFlag::InferOnly), Ok(t1));
    assert_eq!(tc.infer(x, InferFlag::InferOnly), Ok(nat));
    assert_eq!(tc.infer(missing, InferFlag::InferOnly), Err(TcError::Reject(Reason::UnknownConst)));
}

#[test]
fn types_of_functions_and_applications() {
    let mut f = nat_file();
    let nat = cnst(&mut f.st, NAT);
    let succ = cnst(&mut f.st, SUCC);
    let v0 = var(&mut f.st, 0);
    let body = app(&mut f.st, succ, v0);
    let fun = lam(&mut f.st, nat, body);
    let nat_nat = pi(&mut f.st, nat, nat);
    let five = lit(&mut f.st, 5);
    let six = app(&mut f.st, fun, five);
    let t1 = ty1(&mut f.st);
    let env = Env::new(&f.declars, f.declars.len() as u32);
    let mut tc = f.checker(&env);
    assert_eq!(tc.infer(fun, InferFlag::Check), Ok(nat_nat));
    assert_eq!(tc.infer(six, InferFlag::Check), Ok(nat));
    assert_eq!(tc.infer(nat_nat, InferFlag::Check), Ok(t1));
    assert_eq!(tc.infer_then_whnf(six, InferFlag::Check), Ok(nat));
}

#[test]
fn propositions_and_proofs_are_told_apart() {
    let mut f = prop_file();
    let a = cnst(&mut f.st, A);
    postulate(&mut f, 20, a);
    let x = cnst(&mut f.st, 20);
    let p = prop(&mut f.st);
    let env = Env::new(&f.declars, f.declars.len() as u32);
    let mut tc = f.checker(&env);
    assert_eq!(tc.is_prop(a), Ok((true, p)));
    assert_eq!(tc.is_proof(x), Ok((true, a)));
    assert!(!tc.is_prop(x).unwrap().0);
    assert!(!tc.is_proof(a).unwrap().0);
}

#[test]
fn a_projection_out_of_a_proposition_must_be_a_proof() {
    // a structure in Prop with a field that is data
    let mut f = nat_file();
    let p = prop(&mut f.st);
    let nat = cnst(&mut f.st, NAT);
    let ex = cnst(&mut f.st, PAIR);
    let mk_ty = pi(&mut f.st, nat, ex);
    let no = none(&mut f.st);
    assert!(f.declars.add_declar(Declar::Inductive(InductiveData {
        info: info(PAIR, no, p),
        num_params: 0,
        num_indices: 0,
        all_ctor_names: vec![MK],
        is_recursive: false,
    })));
    assert!(f.declars.add_declar(Declar::Constructor(ConstructorData {
        info: info(MK, no, mk_ty),
        inductive_name: PAIR,
        num_params: 0,
        num_fields: 1,
    })));
    postulate(&mut f, 20, ex);
    let x = cnst(&mut f.st, 20);
    let fst = f.st.mk(Expr::Proj { ty_name: PAIR, idx: 0, structure: x }).unwrap();
    define(&mut f, 21, nat, fst);
    assert_eq!(rejected(&f, 8), Reason::PropProjection);
}

#[test]
fn deep_terms_are_walked_on_a_growing_stack() {
    let mut f = nat_file();
    let succ = cnst(&mut f.st, SUCC);
    let add = cnst(&mut f.st, ADD);
    let mut e = cnst(&mut f.st, ZERO);
    for _ in 0..300 {
        e = app(&mut f.st, succ, e);
    }
    let hundred = lit(&mut f.st, 100);
    let sum = apps(&mut f.st, add, &[hundred, e]);
    let want = lit(&mut f.st, 400);
    assert!(equal(&f, sum, want));
}

#[test]
fn matchers_unfold_to_what_they_stand_for() {
    // a definition named like a compiled match is no obstacle to equality
    let mut f = nat_file();
    f.name_tab = NameTable { nodes: vec![Name::Anon] };
    for _ in 1..40 {
        f.name_tab.nodes.push(Name::Str(0, "match_1".to_string()));
    }
    let nat = cnst(&mut f.st, NAT);
    let nat_nat = pi(&mut f.st, nat, nat);
    let add = cnst(&mut f.st, ADD);
    let v0 = var(&mut f.st, 0);
    let twice = apps(&mut f.st, add, &[v0, v0]);
    let val = lam(&mut f.st, nat, twice);
    define(&mut f, 20, nat_nat, val);
    let m = cnst(&mut f.st, 20);
    let four = lit(&mut f.st, 4);
    let eight = lit(&mut f.st, 8);
    let e = app(&mut f.st, m, four);
    assert!(equal(&f, e, eight));
    assert_eq!(f.check_declar(f.declars.at(5)), Ok(Verdict::Accepted));
}

// ---- the closure machine ----

#[test]
fn the_closure_machine_computes_and_compares() {
    let mut f = nat_file();
    let add = cnst(&mut f.st, ADD);
    let two = lit(&mut f.st, 2);
    let three = lit(&mut f.st, 3);
    let five = lit(&mut f.st, 5);
    let six = lit(&mut f.st, 6);
    let sum = apps(&mut f.st, add, &[two, three]);
    let nat = cnst(&mut f.st, NAT);
    let env = Env::new(&f.declars, f.declars.len() as u32);
    let mut tc = f.checker(&env);
    assert_eq!(tc.rp_is_def_eq(DEPTH_LIMIT, Clo::of(sum), Clo::of(five)), Ok(true));
    assert_eq!(tc.rp_is_def_eq(DEPTH_LIMIT, Clo::of(sum), Clo::of(six)), Ok(false));
    assert_eq!(tc.rp_infer(DEPTH_LIMIT, Clo::of(sum), InferFlag::Check), Ok(nat));
}

#[test]
fn the_closure_machine_stops_at_the_head() {
    let mut f = nat_file();
    let nat = cnst(&mut f.st, NAT);
    let v0 = var(&mut f.st, 0);
    let id = lam(&mut f.st, nat, v0);
    let zero = cnst(&mut f.st, ZERO);
    let e = app(&mut f.st, id, zero);
    let env = Env::new(&f.declars, f.declars.len() as u32);
    let mut tc = f.checker(&env);
    let s = tc.rp_mk_sclo(Clo::of(e));
    let r = tc.rp_whnf_core_ext(DEPTH_LIMIT, &s, false, false).unwrap();
    assert_eq!(r.spine.len(), 0);
    assert_eq!(tc.rp_sclo_to_expr(&r), Ok(zero));
}

#[test]
fn the_closure_machine_answers_primitives() {
    let mut f = nat_file();
    f.names.nat_add = Some(ADD);
    let add = cnst(&mut f.st, ADD);
    let a = lit(&mut f.st, 20);
    let b = lit(&mut f.st, 22);
    let want = lit(&mut f.st, 42);
    let env = Env::new(&f.declars, f.declars.len() as u32);
    let mut tc = f.checker(&env);
    let s = RClo { head: Clo::of(add), spine: vec![Clo::of(a), Clo::of(b)] };
    let r = tc.rp_reduce_nat(DEPTH_LIMIT, &s).unwrap().unwrap();
    assert_eq!(tc.rp_sclo_to_expr(&r), Ok(want));
    let s = RClo { head: Clo::of(add), spine: vec![Clo::of(a)] };
    assert!(tc.rp_reduce_nat(DEPTH_LIMIT, &s).unwrap().is_none());
}

#[test]
fn the_closure_machine_fires_recursors() {
    let mut f = nat_file();
    let nat = cnst(&mut f.st, NAT);
    let z = f.st.zero().unwrap();
    let one = f.st.succ(z).unwrap();
    let ones = f.st.alloc_levels_slice(&vec![one]).unwrap();
    let rec = f.st.mk(Expr::Const { name: REC, levels: ones }).unwrap();
    let motive = lam(&mut f.st, nat, nat);
    let v0 = var(&mut f.st, 0);
    let step = lam(&mut f.st, nat, v0);
    let step = lam(&mut f.st, nat, step);
    let base = lit(&mut f.st, 9);
    let zero = cnst(&mut f.st, ZERO);
    let nine = base;
    let env = Env::new(&f.declars, f.declars.len() as u32);
    let mut tc = f.checker(&env);
    // the arguments, the first one last
    let rsp = vec![Clo::of(zero), Clo::of(step), Clo::of(base), Clo::of(motive)];
    let r = tc.rp_reduce_recursor(DEPTH_LIMIT, Clo::of(rec), &rsp, false, false).unwrap().unwrap();
    let r = tc.rp_whnf(DEPTH_LIMIT, r).unwrap();
    assert_eq!(tc.rp_sclo_to_expr(&r), Ok(nine));
}

#[test]
fn fused_bodies_are_equal_to_what_they_were_made_from() {
    let mut f = nat_file();
    f.name_tab = NameTable { nodes: vec![Name::Anon] };
    for i in 1..40 {
        let s = if i == 20 { "match_1" } else { "other" };
        f.name_tab.nodes.push(Name::Str(0, s.to_string()));
    }
    let nat = cnst(&mut f.st, NAT);
    let nat_nat = pi(&mut f.st, nat, nat);
    let succ = cnst(&mut f.st, SUCC);
    let v0 = var(&mut f.st, 0);
    let s = app(&mut f.st, succ, v0);
    let val = lam(&mut f.st, nat, s);
    define(&mut f, 20, nat_nat, val);
    let m = cnst(&mut f.st, 20);
    let body = app(&mut f.st, m, v0);
    let e = lam(&mut f.st, nat, body);
    let env = Env::new(&f.declars, f.declars.len() as u32);
    let mut tc = f.checker(&env);
    let y = tc.fuse_body(e).unwrap();
    // the matcher is gone
    assert_eq!(y, val);
    assert_eq!(tc.def_eq(e, y), Ok(true));
}

// ---- files and runs ----

#[test]
fn a_file_of_open_expressions_is_no_file() {
    let mut f = prop_file();
    assert!(f.is_wf());
    let v0 = var(&mut f.st, 0);
    postulate(&mut f, 20, v0);
    assert!(!f.is_wf());
    let mut f = prop_file();
    postulate(&mut f, 20, 1_000_000);
    assert!(!f.is_wf());
}

#[test]
fn a_run_covers_its_window() {
    let w = Window { skip: 2, stop_after: Some(4), repeat: 3 };
    assert_eq!((0..7).map(|i| w.runs(i)).collect::<Vec<_>>(), vec![0, 0, 3, 3, 3, 0, 0]);
    let all = Window { skip: 0, stop_after: None, repeat: 0 };
    assert_eq!(all.runs(9), 1);
}

#[test]
fn expressions_and_levels_are_interned() {
    let mut st = Store::new();
    let z = st.zero().unwrap();
    let a = st.succ(z).unwrap();
    let b = st.succ(z).unwrap();
    assert_eq!(a, b);
    assert_ne!(a, z);
    let p = prop(&mut st);
    let x = pi(&mut st, p, p);
    let y = pi(&mut st, p, p);
    let l = lam(&mut st, p, p);
    assert_eq!(x, y);
    assert_ne!(x, l);
    let n = lit(&mut st, 12);
    assert_eq!(n, lit(&mut st, 12));
    assert_ne!(n, lit(&mut st, 13));
}

#[test]
fn a_variable_is_its_level_and_its_type() {
    let mut st = Store::new();
    let p = prop(&mut st);
    let t1 = ty1(&mut st);
    let mut local = |ty: ExprPtr, l: u32| {
        st.mk(Expr::Local { binder_name: 0, binder_style: BinderStyle::Default, binder_type: ty, id: FVarId::DbjLevel(l) })
            .unwrap()
    };
    assert_eq!(local(p, 1), local(p, 1));
    assert_ne!(local(p, 1), local(p, 2));
    assert_ne!(local(p, 1), local(t1, 1));
}

#[test]
fn later_declarations_change_nothing() {
    let f = nat_file();
    let g = pair_file();
    for i in 0..f.declars.len() {
        assert_eq!(f.check_declar(f.declars.at(i)), g.check_declar(g.declars.at(i)));
    }
}

#[test]
fn levels_simplify_and_compare() {
    let mut st = Store::new();
    let z = st.zero().unwrap();
    let u = st.param(1).unwrap();
    let one = st.succ(z).unwrap();
    // imax u 0 is 0, max u u is u
    let i = st.imax(u, z).unwrap();
    assert_eq!(st.simplify(i), Ok(z));
    let m = st.max(u, u).unwrap();
    assert_eq!(st.eq_antisymm(m, u), Ok(true));
    assert_eq!(st.eq_antisymm(one, u), Ok(false));
    assert_eq!(st.is_zero(i), Ok(true));
    assert_eq!(st.is_zero(u), Ok(false));
    assert!(st.may_be_prop(u));
    assert!(!st.may_be_prop(one));
}

#[test]
fn a_definition_of_a_universe_is_accepted() {
    let mut f = empty_file();
    let t1 = ty1(&mut f.st);
    let p = prop(&mut f.st);
    define(&mut f, 20, t1, p);
    assert_eq!(f.check_all_declars(), Ok(vec![Verdict::Accepted]));
    // and of the wrong universe is not
    define(&mut f, 21, p, p);
    assert_eq!(rejected(&f, 1), Reason::NotEqual);
}

#[test]
fn different_literals_differ() {
    let mut f = nat_file();
    let a = lit(&mut f.st, 1);
    let b = lit(&mut f.st, 2);
    assert!(equal(&f, a, a));
    assert!(!equal(&f, a, b));
}
