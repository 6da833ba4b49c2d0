//! What substitution would duplicate: sizes and occurrences.
use crate::expr::{Expr, ExprPtr, Store};
use crate::term::Term;
use crate::theory::Sig;
use std::collections::HashSet;
use vstd::prelude::*;

verus! {

/// Occurrences counted before every variable is taken as duplicated.
pub const COUNT_VISITS: u32 = 20_000;

impl Expr {
    /// The expressions this one is made of.
    pub open spec fn kids(self) -> Seq<ExprPtr> {
        match self {
            Expr::App { fun, arg } => seq![fun, arg],
            Expr::Lambda { binder_type, body, .. } => seq![binder_type, body],
            Expr::Pi { binder_type, body, .. } => seq![binder_type, body],
            Expr::Let { binder_type, val, body, .. } => seq![binder_type, val, body],
            Expr::Proj { structure, .. } => seq![structure],
            _ => Seq::empty(),
        }
    }
}

/// Append what an expression is made of.
pub fn push_children(n: Expr, todo: &mut Vec<ExprPtr>)
    ensures
        final(todo)@ == old(todo)@ + n.kids(),
{
    let ghost t = todo@;
    match n {
        Expr::App { fun, arg } => {
            todo.push(fun);
            todo.push(arg);
        },
        Expr::Lambda { binder_type, body, .. } => {
            todo.push(binder_type);
            todo.push(body);
        },
        Expr::Pi { binder_type, body, .. } => {
            todo.push(binder_type);
            todo.push(body);
        },
        Expr::Let { binder_type, val, body, .. } => {
            todo.push(binder_type);
            todo.push(val);
            todo.push(body);
        },
        Expr::Proj { structure, .. } => {
            todo.push(structure);
        },
        _ => {},
    }
    assert(todo@ =~= t + n.kids());
}

impl Term {
    /// The nodes of the term as a tree, the types of free variables left out.
    pub open spec fn tree_nodes(self) -> nat
        decreases self,
    {
        match self {
            Term::App(f, a) => 1 + f.tree_nodes() + a.tree_nodes(),
            Term::Lam(_, _, a, b) => 1 + a.tree_nodes() + b.tree_nodes(),
            Term::Pi(_, _, a, b) => 1 + a.tree_nodes() + b.tree_nodes(),
            Term::Let(_, _, a, v, b) => 1 + a.tree_nodes() + v.tree_nodes() + b.tree_nodes(),
            Term::Proj(_, _, s) => 1 + s.tree_nodes(),
            _ => 1,
        }
    }

    /// Occurrences of the loose variable `j`.
    pub open spec fn occ(self, j: nat) -> nat
        decreases self,
    {
        match self {
            Term::Var(i) => if i == j {
                1
            } else {
                0
            },
            Term::App(f, a) => f.occ(j) + a.occ(j),
            Term::Lam(_, _, a, b) => a.occ(j) + b.occ(j + 1),
            Term::Pi(_, _, a, b) => a.occ(j) + b.occ(j + 1),
            Term::Let(_, _, a, v, b) => a.occ(j) + v.occ(j) + b.occ(j + 1),
            Term::Proj(_, _, s) => s.occ(j),
            _ => 0,
        }
    }

    /// A variable past the loose ones does not occur.
    pub proof fn lemma_occ(t: Term, j: nat)
        requires
            t.nl() <= j,
        ensures
            t.occ(j) == 0,
        decreases t,
    {
        match t {
            Term::App(f, a) => {
                Term::lemma_occ(*f, j);
                Term::lemma_occ(*a, j);
            },
            Term::Lam(_, _, a, b) => {
                Term::lemma_occ(*a, j);
                Term::lemma_occ(*b, j + 1);
            },
            Term::Pi(_, _, a, b) => {
                Term::lemma_occ(*a, j);
                Term::lemma_occ(*b, j + 1);
            },
            Term::Let(_, _, a, v, b) => {
                Term::lemma_occ(*a, j);
                Term::lemma_occ(*v, j);
                Term::lemma_occ(*b, j + 1);
            },
            Term::Proj(_, _, s) => {
                Term::lemma_occ(*s, j);
            },
            _ => {},
        }
    }

    /// The head of an application.
    pub open spec fn app_head(self) -> Term
        decreases self,
    {
        match self {
            Term::App(f, _) => f.app_head(),
            _ => self,
        }
    }

    /// The arguments of an application.
    pub open spec fn app_args(self) -> Seq<Term>
        decreases self,
    {
        match self {
            Term::App(f, a) => f.app_args().push(*a),
            _ => Seq::empty(),
        }
    }

    /// A free variable, a sort or a literal.
    pub open spec fn is_atom(self) -> bool {
        self is Local || self is Sort || self is Nat || self is Str
    }

    /// What a lambda applied to one atom contracts to.
    pub open spec fn atom_redex(self) -> Option<Term> {
        match self {
            Term::App(f, a) => match *f {
                Term::Lam(_, _, _, b) => if a.is_atom() {
                    Some(b.inst(0, seq![*a]))
                } else {
                    None
                },
                _ => None,
            },
            _ => None,
        }
    }

    /// An application taken apart.
    pub proof fn lemma_app_parts(h: Term, xs: Seq<Term>)
        requires
            !(h is App),
        ensures
            Term::apps(h, xs).app_head() == h,
            Term::apps(h, xs).app_args() == xs,
        decreases xs.len(),
    {
        if xs.len() > 0 {
            Term::lemma_app_parts(h, xs.drop_last());
            assert(xs.drop_last().push(xs.last()) =~= xs);
        } else {
            assert(xs =~= Seq::empty());
        }
    }
}

impl Sig {
    /// An argument that may be duplicated without losing evaluation sharing:
    /// an atom, a lambda, or a constructor application of such.
    pub open spec fn cheap(self, t: Term, depth: nat) -> bool
        decreases 5 - depth,
    {
        match t {
            Term::Var(_) => true,
            Term::Local(..) => true,
            Term::Const(..) => true,
            Term::Sort(_) => true,
            Term::Nat(_) => true,
            Term::Str(_) => true,
            Term::Lam(..) => true,
            Term::App(..) => depth <= 3
                && (t.app_head() matches Term::Const(c, _) && self.is_ctor(c) && t.app_args().len()
                == self.ctor(c).num_params + self.ctor(c).num_fields && forall|i: int|
                0 <= i < t.app_args().len() ==> self.cheap(#[trigger] t.app_args()[i], depth + 1)),
            _ => false,
        }
    }
}

impl Store {
    /// The tree nodes of a list of expressions.
    pub open spec fn nodes_of(&self, v: Seq<ExprPtr>) -> nat
        decreases v.len(),
    {
        if v.len() == 0 {
            0
        } else {
            self.nodes_of(v.drop_last()) + self.e(v.last()).tree_nodes()
        }
    }

    proof fn lemma_nodes_push(&self, v: Seq<ExprPtr>, x: ExprPtr)
        ensures
            self.nodes_of(v.push(x)) == self.nodes_of(v) + self.e(x).tree_nodes(),
    {
        assert(v.push(x).drop_last() =~= v);
    }

    /// Tree nodes of `e`, counted up to past `cap`.
    pub fn tree_size(&self, e: ExprPtr, cap: usize) -> (r: usize)
        requires
            self.wf(),
            self.e_ok(e),
            cap < usize::MAX,
        ensures
            r == (if self.e(e).tree_nodes() <= cap {
                self.e(e).tree_nodes()
            } else {
                (cap + 1) as nat
            }),
    {
        let mut n: usize = 0;
        let mut todo: Vec<ExprPtr> = Vec::new();
        todo.push(e);
        proof {
            self.lemma_nodes_push(Seq::empty(), e);
            assert(todo@ =~= Seq::empty().push(e));
        }
        loop
            invariant
                self.wf(),
                self.es_ok(todo@),
                cap < usize::MAX,
                n <= cap + 1,
                n + self.nodes_of(todo@) == self.e(e).tree_nodes(),
            ensures
                todo@.len() == 0 || n == cap + 1,
            decreases self.nodes_of(todo@),
        {
            if n > cap {
                break;
            }
            let ghost before = todo@;
            match todo.pop() {
                Some(x) => {
                    proof {
                        assert(before.drop_last() =~= todo@);
                        assert(before.last() == x);
                        assert(self.e_ok(before[before.len() - 1]));
                        assert forall|i: int| 0 <= i < todo@.len() implies self.e_ok(#[trigger] todo@[i]) by {
                            assert(todo@[i] == before[i]);
                        }
                    }
                    n += 1;
                    let ghost rest = todo@;
                    let node = self.read_expr(x);
                    push_children(node, &mut todo);
                    proof {
                        self.lemma_kids(x, node, rest);
                    }
                },
                None => {
                    break;
                },
            }
        }
        n
    }

    /// The nodes of an expression are itself and those it is made of.
    proof fn lemma_kids(&self, x: ExprPtr, n: Expr, rest: Seq<ExprPtr>)
        requires
            self.wf(),
            self.e_ok(x),
            self.shape(x, n),
            self.es_ok(rest),
        ensures
            self.es_ok(rest + n.kids()),
            self.nodes_of(rest + n.kids()) + 1 == self.nodes_of(rest) + self.e(x).tree_nodes(),
    {
        match n {
            Expr::App { fun, arg } => {
                self.lemma_nodes_push(rest, fun);
                self.lemma_nodes_push(rest.push(fun), arg);
                assert(rest + n.kids() =~= rest.push(fun).push(arg));
            },
            Expr::Lambda { binder_type, body, .. } => {
                self.lemma_nodes_push(rest, binder_type);
                self.lemma_nodes_push(rest.push(binder_type), body);
                assert(rest + n.kids() =~= rest.push(binder_type).push(body));
            },
            Expr::Pi { binder_type, body, .. } => {
                self.lemma_nodes_push(rest, binder_type);
                self.lemma_nodes_push(rest.push(binder_type), body);
                assert(rest + n.kids() =~= rest.push(binder_type).push(body));
            },
            Expr::Let { binder_type, val, body, .. } => {
                self.lemma_nodes_push(rest, binder_type);
                self.lemma_nodes_push(rest.push(binder_type), val);
                self.lemma_nodes_push(rest.push(binder_type).push(val), body);
                assert(rest + n.kids() =~= rest.push(binder_type).push(val).push(body));
            },
            Expr::Proj { structure, .. } => {
                self.lemma_nodes_push(rest, structure);
                assert(rest + n.kids() =~= rest.push(structure));
            },
            _ => {
                assert(rest + n.kids() =~= rest);
            },
        }
    }

    // ---- distinct nodes ----

    /// The set holds what each of its expressions is made of.
    pub open spec fn closed_under(&self, c: Set<ExprPtr>) -> bool {
        forall|x: ExprPtr, i: int|
            #![trigger c.contains(x), self.node(x).kids()[i]]
            c.contains(x) && 0 <= i < self.node(x).kids().len() ==> c.contains(self.node(x).kids()[i])
    }

    /// The expressions `e` is made of, however deep, and `e` itself.
    pub open spec fn reach(&self, e: ExprPtr) -> Set<ExprPtr> {
        Set::new(|x: ExprPtr| forall|c: Set<ExprPtr>| #[trigger] self.closed_under(c) && c.contains(e)
            ==> c.contains(x))
    }

    /// What stands under the lambdas at the front of `e`.
    pub open spec fn lam_body(&self, e: ExprPtr) -> ExprPtr
        decreases e,
    {
        match self.node(e) {
            Expr::Lambda { body, .. } => if body < e {
                self.lam_body(body)
            } else {
                e
            },
            _ => e,
        }
    }

    /// What stands under the lambdas at the front of `e`.
    pub fn under_lambdas(&self, e: ExprPtr) -> (r: ExprPtr)
        requires
            self.wf(),
            self.e_ok(e),
        ensures
            self.e_ok(r),
            r == self.lam_body(e),
        decreases e,
    {
        match self.read_expr(e) {
            Expr::Lambda { body, .. } => self.under_lambdas(body),
            _ => e,
        }
    }

    /// `e` has at most `cap` distinct nodes.
    pub open spec fn fits(&self, e: ExprPtr, cap: nat) -> bool {
        self.reach(e).finite() && self.reach(e).len() <= cap
    }

    /// Distinct nodes of `e`, counted up to past `cap`.
    pub fn body_size(&self, e: ExprPtr, cap: usize) -> (r: usize)
        requires
            self.wf(),
            self.e_ok(e),
            cap < usize::MAX,
        ensures
            self.fits(e, cap as nat) ==> r == self.reach(e).len(),
            !self.fits(e, cap as nat) ==> r == cap + 1,
    {
        broadcast use vstd::std_specs::hash::group_hash_axioms;

        let mut seen: HashSet<u32> = HashSet::new();
        let mut todo: Vec<ExprPtr> = Vec::new();
        todo.push(e);
        proof {
            assert(seen@.finite());
            assert(todo@[0] == e);
        }
        loop
            invariant
                self.wf(),
                self.es_ok(todo@),
                cap < usize::MAX,
                seen@.finite(),
                seen@.len() <= cap + 1,
                forall|x: ExprPtr| #[trigger] seen@.contains(x) ==> self.e_ok(x),
                forall|c: Set<ExprPtr>| #[trigger] self.closed_under(c) && c.contains(e) ==> seen@.subset_of(c),
                forall|c: Set<ExprPtr>| #[trigger] self.closed_under(c) && c.contains(e) ==> forall|i: int|
                    0 <= i < todo@.len() ==> c.contains(#[trigger] todo@[i]),
                seen@.contains(e) || todo@.contains(e),
                forall|x: ExprPtr, i: int|
                    #![trigger seen@.contains(x), self.node(x).kids()[i]]
                    seen@.contains(x) && 0 <= i < self.node(x).kids().len() ==> seen@.contains(self.node(x).kids()[i])
                        || todo@.contains(self.node(x).kids()[i]),
            ensures
                todo@.len() == 0 || seen@.len() == cap + 1,
            decreases cap + 1 - seen@.len(), todo@.len(),
        {
            if seen.len() > cap {
                break;
            }
            let ghost before = todo@;
            let ghost s0 = seen@;
            match todo.pop() {
                Some(x) => {
                    proof {
                        assert(before =~= todo@.push(x));
                        assert(before[before.len() - 1] == x);
                        assert forall|i: int| 0 <= i < todo@.len() implies self.e_ok(#[trigger] todo@[i]) by {
                            assert(todo@[i] == before[i]);
                        }
                        assert forall|y: ExprPtr| before.contains(y) && y != x implies #[trigger] todo@.contains(y) by {
                            let i = choose|i: int| 0 <= i < before.len() && before[i] == y;
                            assert(todo@[i] == y);
                        }
                    }
                    let ghost rest = todo@;
                    if seen.insert(x) {
                        let node = self.read_expr(x);
                        push_children(node, &mut todo);
                        proof {
                            let ks = node.kids();
                            self.lemma_kids(x, node, rest);
                            assert forall|y: ExprPtr| rest.contains(y) implies #[trigger] todo@.contains(y) by {
                                let i = choose|i: int| 0 <= i < rest.len() && rest[i] == y;
                                assert(todo@[i] == y);
                            }
                            assert forall|i: int| 0 <= i < ks.len() implies todo@.contains(#[trigger] ks[i]) by {
                                assert(todo@[rest.len() + i] == ks[i]);
                            }
                            assert forall|c: Set<ExprPtr>| #[trigger] self.closed_under(c)
                                && c.contains(e) implies forall|i: int|
                                0 <= i < todo@.len() ==> c.contains(#[trigger] todo@[i]) by {
                                assert(c.contains(before[before.len() - 1]));
                                assert forall|i: int| 0 <= i < todo@.len() implies c.contains(#[trigger] todo@[i]) by {
                                    if i < rest.len() {
                                        assert(todo@[i] == before[i]);
                                    } else {
                                        assert(todo@[i] == self.node(x).kids()[i - rest.len()]);
                                    }
                                }
                            }
                            assert forall|c: Set<ExprPtr>| #[trigger] self.closed_under(c)
                                && c.contains(e) implies seen@.subset_of(c) by {
                                assert(c.contains(before[before.len() - 1]));
                                assert(s0.subset_of(c));
                            }
                        }
                    } else {
                        proof {
                            assert forall|c: Set<ExprPtr>| #[trigger] self.closed_under(c)
                                && c.contains(e) implies forall|i: int|
                                0 <= i < todo@.len() ==> c.contains(#[trigger] todo@[i]) by {
                                assert forall|i: int| 0 <= i < todo@.len() implies c.contains(#[trigger] todo@[i]) by {
                                    assert(todo@[i] == before[i]);
                                }
                            }
                            assert(seen@ =~= s0);
                        }
                    }
                },
                None => {
                    break;
                },
            }
        }
        proof {
            if todo@.len() == 0 {
                assert(self.closed_under(seen@));
                assert(self.reach(e) =~= seen@);
            }
            assert(seen@.subset_of(self.reach(e)));
            if self.reach(e).finite() {
                vstd::set_lib::lemma_len_subset(seen@, self.reach(e));
            }
        }
        seen.len()
    }
}

// ---- occurrences ----

impl Store {
    /// Occurrences of variable `j` in expressions under so many binders.
    pub open spec fn occs(&self, v: Seq<(ExprPtr, u16)>, j: nat) -> nat
        decreases v.len(),
    {
        if v.len() == 0 {
            0
        } else {
            self.occs(v.drop_last(), j) + self.e(v.last().0).occ(j + v.last().1 as nat)
        }
    }

    proof fn lemma_occs_push(&self, v: Seq<(ExprPtr, u16)>, x: (ExprPtr, u16), j: nat)
        ensures
            self.occs(v.push(x), j) == self.occs(v, j) + self.e(x.0).occ(j + x.1 as nat),
    {
        assert(v.push(x).drop_last() =~= v);
    }

    pub open spec fn todo_ok(&self, v: Seq<(ExprPtr, u16)>) -> bool {
        forall|i: int| 0 <= i < v.len() ==> self.e_ok((#[trigger] v[i]).0)
    }

    /// The occurrences in an expression are those in its parts.
    proof fn lemma_occ_parts(&self, x: ExprPtr, n: Expr, d: u16, rest: Seq<(ExprPtr, u16)>, now: Seq<(ExprPtr, u16)>,
        j: nat)
        requires
            self.wf(),
            self.e_ok(x),
            self.shape(x, n),
            d < u16::MAX,
            match n {
                Expr::App { fun, arg } => now == rest.push((fun, d)).push((arg, d)),
                Expr::Lambda { binder_type, body, .. } => now
                    == rest.push((binder_type, d)).push((body, (d + 1) as u16)),
                Expr::Pi { binder_type, body, .. } => now == rest.push((binder_type, d)).push((body, (d + 1) as u16)),
                Expr::Let { binder_type, val, body, .. } => now == rest.push((binder_type, d)).push((val, d)).push(
                    (body, (d + 1) as u16),
                ),
                Expr::Proj { structure, .. } => now == rest.push((structure, d)),
                Expr::Var { .. } => false,
                _ => now == rest,
            },
        ensures
            self.occs(now, j) == self.occs(rest, j) + self.e(x).occ(j + d as nat),
    {
        let k = j + d as nat;
        match n {
            Expr::App { fun, arg } => {
                self.lemma_occs_push(rest, (fun, d), j);
                self.lemma_occs_push(rest.push((fun, d)), (arg, d), j);
            },
            Expr::Lambda { binder_type, body, .. } => {
                self.lemma_occs_push(rest, (binder_type, d), j);
                self.lemma_occs_push(rest.push((binder_type, d)), (body, (d + 1) as u16), j);
            },
            Expr::Pi { binder_type, body, .. } => {
                self.lemma_occs_push(rest, (binder_type, d), j);
                self.lemma_occs_push(rest.push((binder_type, d)), (body, (d + 1) as u16), j);
            },
            Expr::Let { binder_type, val, body, .. } => {
                self.lemma_occs_push(rest, (binder_type, d), j);
                self.lemma_occs_push(rest.push((binder_type, d)), (val, d), j);
                self.lemma_occs_push(rest.push((binder_type, d)).push((val, d)), (body, (d + 1) as u16), j);
            },
            Expr::Proj { structure, .. } => {
                self.lemma_occs_push(rest, (structure, d), j);
            },
            _ => {},
        }
    }

    pub open spec fn capped(n: nat) -> nat {
        if n < 2 {
            n
        } else {
            2
        }
    }

    /// Occurrences, capped at two, of the loose variables below `n` of `b`;
    /// where there is too much to look at, every variable is taken as
    /// duplicated.
    pub fn count_bvars(&self, b: ExprPtr, n: usize) -> (r: Vec<u8>)
        requires
            self.wf(),
            self.e_ok(b),
        ensures
            r@.len() == n,
            (forall|j: int| 0 <= j < n ==> #[trigger] r@[j] == Store::capped(self.e(b).occ(j as nat)))
                || (forall|j: int|
                0 <= j < n ==> #[trigger] r@[j] == 2),
    {
        let mut cnt: Vec<u8> = Vec::new();
        let mut i: usize = 0;
        while i < n
            invariant
                i <= n,
                cnt@.len() == i,
                forall|j: int| 0 <= j < i ==> #[trigger] cnt@[j] == 0,
            decreases n - i,
        {
            cnt.push(0);
            i += 1;
        }
        let mut todo: Vec<(ExprPtr, u16)> = Vec::new();
        todo.push((b, 0));
        let ghost mut done: Seq<nat> = Seq::new(n as nat, |j: int| 0nat);
        let mut visits: u32 = 0;
        let mut left: u64 = 0x10_0000_0000_0000;
        proof {
            assert forall|j: int| 0 <= j < n implies #[trigger] done[j] + self.occs(todo@, j as nat) == self.e(b).occ(
                j as nat,
            ) by {
                self.lemma_occs_push(Seq::empty(), (b, 0), j as nat);
                assert(todo@ =~= Seq::empty().push((b, 0u16)));
            }
        }
        loop
            invariant
                self.wf(),
                self.todo_ok(todo@),
                cnt@.len() == n,
                done.len() == n,
                visits <= COUNT_VISITS,
                forall|j: int| 0 <= j < n ==> #[trigger] cnt@[j] == Store::capped(done[j]),
                forall|j: int| 0 <= j < n
                    ==> #[trigger] done[j] + self.occs(todo@, j as nat) == self.e(b).occ(j as nat),
            ensures
                todo@.len() == 0 || left == 0,
            decreases left,
        {
            if left == 0 {
                break;
            }
            left -= 1;
            let ghost before = todo@;
            match todo.pop() {
                Some((x, d)) => {
                    let ghost rest = todo@;
                    proof {
                        assert(before =~= rest.push((x, d)));
                        assert(self.e_ok(before[before.len() - 1].0));
                        assert forall|i: int| 0 <= i < rest.len() implies self.e_ok((#[trigger] rest[i]).0) by {
                            assert(rest[i] == before[i]);
                        }
                        assert forall|j: int| 0 <= j < n implies self.occs(before, j as nat) == #[trigger] self.occs(
                            rest,
                            j as nat,
                        ) + self.e(x).occ(j as nat + d as nat) by {
                            self.lemma_occs_push(rest, (x, d), j as nat);
                        }
                    }
                    if self.num_loose_bvars(x) <= d {
                        proof {
                            assert forall|j: int| 0 <= j < n implies #[trigger] done[j] + self.occs(todo@, j as nat)
                                == self.e(
                                b,
                            ).occ(j as nat) by {
                                Term::lemma_occ(self.e(x), j as nat + d as nat);
                                assert(self.occs(rest, j as nat) == self.occs(before, j as nat));
                            }
                        }
                        continue;
                    }
                    if visits == COUNT_VISITS {
                        return Store::twos(n);
                    }
                    visits += 1;
                    let node = self.read_expr(x);
                    match node {
                        Expr::Var { dbj_idx } => {
                            let j: usize = (dbj_idx - d) as usize;
                            if j < n {
                                if cnt[j] < 2 {
                                    let c: u8 = cnt[j];
                                    cnt.set(j, c + 1);
                                }
                                proof {
                                    done = done.update(j as int, done[j as int] + 1);
                                }
                            }
                            proof {
                                assert forall|i: int| 0 <= i < n implies #[trigger] done[i] + self.occs(todo@, i as nat)
                                    == self.e(b).occ(i as nat) by {
                                    assert(self.occs(before, i as nat) == self.occs(rest, i as nat) + self.e(x).occ(
                                        i as nat + d as nat,
                                    ));
                                    if i == j {
                                        assert(i as nat + d as nat == dbj_idx as nat);
                                    }
                                }
                            }
                            continue;
                        },
                        Expr::App { fun, arg } => {
                            todo.push((fun, d));
                            todo.push((arg, d));
                        },
                        Expr::Lambda { binder_type, body, .. } => {
                            todo.push((binder_type, d));
                            todo.push((body, d + 1));
                        },
                        Expr::Pi { binder_type, body, .. } => {
                            todo.push((binder_type, d));
                            todo.push((body, d + 1));
                        },
                        Expr::Let { binder_type, val, body, .. } => {
                            todo.push((binder_type, d));
                            todo.push((val, d));
                            todo.push((body, d + 1));
                        },
                        Expr::Proj { structure, .. } => {
                            todo.push((structure, d));
                        },
                        _ => {},
                    }
                    proof {
                        assert forall|i: int| 0 <= i < n implies #[trigger] done[i] + self.occs(todo@, i as nat)
                            == self.e(
                            b,
                        ).occ(i as nat) by {
                            self.lemma_occ_parts(x, node, d, rest, todo@, i as nat);
                        }
                    }
                },
                None => {
                    break;
                },
            }
        }
        if todo.len() == 0 {
            cnt
        } else {
            Store::twos(n)
        }
    }

    /// Every variable taken as duplicated.
    fn twos(n: usize) -> (r: Vec<u8>)
        ensures
            r@.len() == n,
            forall|j: int| 0 <= j < n ==> #[trigger] r@[j] == 2,
    {
        let mut r: Vec<u8> = Vec::new();
        let mut i: usize = 0;
        while i < n
            invariant
                i <= n,
                r@.len() == i,
                forall|j: int| 0 <= j < i ==> #[trigger] r@[j] == 2,
            decreases n - i,
        {
            r.push(2);
            i += 1;
        }
        r
    }
}

} // verus!
