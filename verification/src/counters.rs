//! Diagnostic counters.
//!
//! A context counts what it is asked and what its memos answer; the counts of
//! many contexts are added up and reported together.
use vstd::prelude::*;
use vstd::string::StringExecFns;

verus! {

/// How many counters there are.
pub const N_CTRS: usize = 25;

pub const INFER: usize = 0;

pub const DEF_EQ: usize = 3;

pub const PUSH_ENTRY: usize = 10;

pub const EQ_MOD: usize = 11;

pub const EQM_HIT: usize = 12;

pub const EQM_MISS: usize = 13;

pub const EQM_FAST: usize = 14;

pub const EQM_NOMEMO: usize = 15;

pub const INF_HIT: usize = 16;

pub const INF_MISS: usize = 17;

pub const INF_VAR_VAL: usize = 18;

pub const INF_VAR_NEU: usize = 19;

pub const INF_LOCAL: usize = 20;

pub const INF_SORT: usize = 21;

pub const INF_CONST: usize = 22;

pub const SPEC_FAIL: usize = 23;

pub const SPEC_ABORT: usize = 24;

/// One count per counter.
pub struct Counters {
    pub n: Vec<u64>,
}

impl Counters {
    pub open spec fn wf(&self) -> bool {
        self.n@.len() == N_CTRS
    }

    pub fn new() -> (r: Counters)
        ensures
            r.wf(),
            forall|i: int| 0 <= i < N_CTRS ==> r.n@[i] == 0,
    {
        let mut n: Vec<u64> = Vec::new();
        let mut i: usize = 0;
        while i < N_CTRS
            invariant
                i <= N_CTRS,
                n@.len() == i,
                forall|j: int| 0 <= j < i ==> n@[j] == 0,
            decreases N_CTRS - i,
        {
            n.push(0);
            i += 1;
        }
        Counters { n }
    }

    /// Count one more at `i`; a count at its limit stays there, and there is
    /// nothing to count beyond the last counter.
    pub fn bump(&mut self, i: usize)
        ensures
            final(self).n@ == (if i < old(self).n@.len() && old(self).n@[i as int] < u64::MAX {
                old(self).n@.update(i as int, (old(self).n@[i as int] + 1) as u64)
            } else {
                old(self).n@
            }),
    {
        if i < self.n.len() {
            let x: u64 = self.n[i];
            if x < u64::MAX {
                self.n.set(i, x + 1);
            }
        }
    }

    /// Hand the counts over and start again from zero.
    pub fn flush_ctrs(&mut self) -> (r: Vec<u64>)
        ensures
            r@ == old(self).n@,
            final(self).wf(),
            forall|i: int| 0 <= i < N_CTRS ==> final(self).n@[i] == 0,
    {
        let mut fresh = Counters::new();
        std::mem::swap(&mut fresh, self);
        fresh.n
    }
}

/// The decimal digit `d`.
pub open spec fn digit(d: nat) -> char {
    (('0' as u32) + d) as char
}

/// The decimal notation of `n`.
pub open spec fn decimal(n: nat) -> Seq<char>
    decreases n,
{
    if n < 10 {
        seq![digit(n)]
    } else {
        decimal(n / 10).push(digit(n % 10))
    }
}

/// The name of counter `i`.
pub open spec fn ctr_name(i: int) -> Seq<char> {
    if i == 0 {
        "infer"@
    } else if i == 1 {
        "whnf_core"@
    } else if i == 2 {
        "whnf"@
    } else if i == 3 {
        "def_eq"@
    } else if i == 4 {
        "whnf_hit"@
    } else if i == 5 {
        "whnf_miss"@
    } else if i == 6 {
        "deq_hit"@
    } else if i == 7 {
        "deq_miss"@
    } else if i == 8 {
        "unfold_hit"@
    } else if i == 9 {
        "unfold_miss"@
    } else if i == 10 {
        "push_entry"@
    } else if i == 11 {
        "eq_mod"@
    } else if i == 12 {
        "eqm_hit"@
    } else if i == 13 {
        "eqm_miss"@
    } else if i == 14 {
        "eqm_fast"@
    } else if i == 15 {
        "eqm_nomemo"@
    } else if i == 16 {
        "inf_hit"@
    } else if i == 17 {
        "inf_miss"@
    } else if i == 18 {
        "inf_var_val"@
    } else if i == 19 {
        "inf_var_neu"@
    } else if i == 20 {
        "inf_local"@
    } else if i == 21 {
        "inf_sort"@
    } else if i == 22 {
        "inf_const"@
    } else if i == 23 {
        "spec_fail"@
    } else {
        "spec_abort"@
    }
}

/// What is reported of the first `k` of the counts `n`: each with its name,
/// followed by a space.
pub open spec fn report(n: Seq<u64>, k: nat) -> Seq<char>
    decreases k,
{
    if k == 0 {
        Seq::empty()
    } else {
        report(n, (k - 1) as nat) + (ctr_name(k - 1) + "="@ + decimal(n[k - 1] as nat) + " "@)
    }
}

fn name_of(i: usize) -> (r: &'static str)
    requires
        i < N_CTRS,
    ensures
        r@ == ctr_name(i as int),
{
    match i {
        0 => "infer",
        1 => "whnf_core",
        2 => "whnf",
        3 => "def_eq",
        4 => "whnf_hit",
        5 => "whnf_miss",
        6 => "deq_hit",
        7 => "deq_miss",
        8 => "unfold_hit",
        9 => "unfold_miss",
        10 => "push_entry",
        11 => "eq_mod",
        12 => "eqm_hit",
        13 => "eqm_miss",
        14 => "eqm_fast",
        15 => "eqm_nomemo",
        16 => "inf_hit",
        17 => "inf_miss",
        18 => "inf_var_val",
        19 => "inf_var_neu",
        20 => "inf_local",
        21 => "inf_sort",
        22 => "inf_const",
        23 => "spec_fail",
        _ => "spec_abort",
    }
}

fn digit_of(d: u64) -> (r: &'static str)
    requires
        d < 10,
    ensures
        r@ == seq![digit(d as nat)],
{
    proof {
        reveal_strlit("0");
        reveal_strlit("1");
        reveal_strlit("2");
        reveal_strlit("3");
        reveal_strlit("4");
        reveal_strlit("5");
        reveal_strlit("6");
        reveal_strlit("7");
        reveal_strlit("8");
        reveal_strlit("9");
    }
    match d {
        0 => "0",
        1 => "1",
        2 => "2",
        3 => "3",
        4 => "4",
        5 => "5",
        6 => "6",
        7 => "7",
        8 => "8",
        _ => "9",
    }
}

/// Append the decimal notation of `n`.
fn push_number(out: &mut String, n: u64)
    ensures
        final(out)@ == old(out)@ + decimal(n as nat),
    decreases n,
{
    if n >= 10 {
        push_number(out, n / 10);
        out.append(digit_of(n % 10));
        assert(out@ =~= old(out)@ + decimal((n / 10) as nat).push(digit((n % 10) as nat)));
    } else {
        out.append(digit_of(n));
    }
}

/// The counts `totals`, each with its name.
pub fn ctrs_report(totals: &Vec<u64>) -> (r: String)
    requires
        totals@.len() == N_CTRS,
    ensures
        r@ == report(totals@, N_CTRS as nat),
{
    let mut out = String::new();
    let mut i: usize = 0;
    proof {
        reveal_strlit("");
    }
    while i < N_CTRS
        invariant
            i <= N_CTRS,
            totals@.len() == N_CTRS,
            out@ == report(totals@, i as nat),
        decreases N_CTRS - i,
    {
        let ghost before = out@;
        out.append(name_of(i));
        out.append("=");
        push_number(&mut out, totals[i]);
        out.append(" ");
        proof {
            assert(out@ =~= before + (ctr_name(i as int) + "="@ + decimal(totals@[i as int] as nat) + " "@));
        }
        i += 1;
    }
    out
}

} // verus!
