//! Wrapper fusion.
//!
//! Pattern matching and structural recursion are compiled into layers of
//! definitions: `f` unfolds to `f.match_1`, which unfolds to `T.casesOn`, which
//! unfolds to `T.rec`.  An evaluator that unfolds these one at a time pays
//! several unfoldings and applications for every step of the recursion.
//!
//! Fusion rewrites the value of a definition once, under every binder: it
//! unfolds wrapper heads and small abbreviations, contracts the beta redexes
//! that exposes, fires a recursor whose major premise is a constructor
//! application, and projects a field out of a constructor application.  Every
//! rewrite is a beta, delta, iota or projection step, so the value reduces to
//! the result.
use crate::closure::{Clo, Entry, EnvId, ENV_NIL};
use crate::env::{Declar, ReducibilityHint};
use crate::error::TcError;
use crate::expr::{Expr, ExprPtr};
use crate::fuser::{Fuser, DUP_BUDGET};
use crate::level::{LevelsPtr, NamePtr};
use crate::table::Tab;
use crate::tc::{TypeChecker, DEPTH_LIMIT};
use crate::term::{Lvl, Term};
use crate::theory::Sig;
use vstd::prelude::*;

verus! {

broadcast use {crate::tc::group_tc, crate::fuser::group_fz};

/// Largest body, in distinct nodes, of a wrapper that is unfolded.
pub const WRAPPER_CAP: usize = 512;

/// Largest body, in distinct nodes, of an abbreviation that is unfolded.
pub const ABBREV_CAP: usize = 256;

/// Nodes one fusion may visit.
pub const BUDGET: usize = 0x4_0000;

/// Nested reductions one fusion may perform.
pub const MAX_DEPTH: u32 = 48;

/// Constants unfolded at one head position.
pub const MAX_UNFOLDS: u32 = 64;

impl<'x> TypeChecker<'x> {
    /// The fused form of `e`, the closed value of a definition.
    pub fn fuse_body(&mut self, e: ExprPtr) -> (r: Result<ExprPtr, TcError>)
        requires
            old(self).wf(),
            old(self).ctx.st.e_ok(e),
            old(self).ctx.st.e(e).nl() == 0,
        ensures
            final(self).wf(),
            final(self).ext(old(self)),
            r matches Ok(y) ==> final(self).ctx.st.e_ok(y) && final(self).ctx.st.e(y).nl() == 0
                && final(self).g().red(old(self).ctx.st.e(e), final(self).ctx.st.e(y)),
            r matches Ok(y) ==> final(self).contracted(old(self).ctx.st.e(e), final(self).ctx.st.e(y)),
            r matches Err(err) ==> !(err is Reject) && final(self).ran_out(old(self)),
    {
        let mut st = Fuser { memo: Tab::new(), budget: BUDGET, depth: 0, dup_budget: DUP_BUDGET, overflow: false };
        self.fz(DEPTH_LIMIT, &mut st, e)
    }

    /// The fused value of the definition `name` at `levels`.
    pub fn fused_value(&mut self, name: NamePtr, levels: LevelsPtr, val: ExprPtr) -> (r: Result<ExprPtr, TcError>)
        requires
            old(self).wf(),
            old(self).ctx.st.ls_ok(levels),
            old(self).ctx.st.e_ok(val),
            old(self).ctx.st.e(val).nl() == 0,
            old(self).g().red(Term::Const(name, old(self).ctx.st.ls(levels)), old(self).ctx.st.e(val)),
        ensures
            final(self).wf(),
            final(self).ext(old(self)),
            r matches Ok(y) ==> final(self).ctx.st.e_ok(y) && final(self).ctx.st.e(y).nl() == 0 && final(self).g().red(
                Term::Const(name, old(self).ctx.st.ls(levels)),
                final(self).ctx.st.e(y),
            ),
            r matches Err(err) ==> !(err is Reject) && final(self).ran_out(old(self)),
    {
        let ghost g = self.g();
        let ghost c = Term::Const(name, self.ctx.st.ls(levels));
        let ghost v = self.ctx.st.e(val);
        if self.env.has_temp_ext() {
            let r = self.fuse_body(val)?;
            proof {
                Sig::r_trans(g, c, v, self.ctx.st.e(r));
            }
            return Ok(r);
        }
        let key = self.mk(Expr::Const { name, levels })?;
        match self.recall_fused(key) {
            Some(r) => {
                return Ok(r);
            },
            None => {},
        }
        let r = self.fuse_body(val)?;
        proof {
            Sig::r_trans(g, c, v, self.ctx.st.e(r));
        }
        self.note_fused(key, r);
        Ok(r)
    }

    /// A wrapper or an abbreviation with a small body, other than the
    /// primitives the evaluator computes itself.
    pub open spec fn unfoldable(&self, name: NamePtr) -> bool {
        self.env.find(name) matches Some(Declar::Definition { val, hint, .. }) && hint != ReducibilityHint::Opaque
            && !self.ctx.names@.is_prim(name) && self.ctx.names@.string_of_list != Some(name)
                && (if self.name_tab.is_wrapper(
            name,
        ) {
            self.ctx.st.fits(self.ctx.st.lam_body(val), WRAPPER_CAP as nat)
        } else {
            hint == ReducibilityHint::Abbrev && self.ctx.st.fits(self.ctx.st.lam_body(val), ABBREV_CAP as nat)
        })
    }

    /// Whether fusion unfolds `name`: a wrapper or an abbreviation with a
    /// small body, other than the primitives the evaluator computes itself.
    pub fn fuse_unfoldable(&self, name: NamePtr) -> (r: bool)
        requires
            self.wf(),
        ensures
            r == self.unfoldable(name),
    {
        proof {
            self.lemma_env();
            self.lemma_base();
        }
        let env = self.env;
        match env.get_declar(name) {
            Some(Declar::Definition { val, hint, .. }) => {
                if *hint == ReducibilityHint::Opaque || self.nb_is_nat_prim(name) || self.is_name(
                    self.ctx.names.get().string_of_list,
                    name,
                ) {
                    return false;
                }
                let cap: usize = if self.name_tab.is_recursion_wrapper(name) {
                    WRAPPER_CAP
                } else if *hint == ReducibilityHint::Abbrev {
                    ABBREV_CAP
                } else {
                    return false;
                };
                let b = self.ctx.st.under_lambdas(*val);
                self.ctx.st.body_size(b, cap) <= cap
            },
            _ => false,
        }
    }

    /// Whether an argument may be duplicated without losing evaluation
    /// sharing.
    pub fn is_cheap_arg(&self, a: ExprPtr, depth: u32) -> (r: bool)
        requires
            self.wf(),
            self.ctx.st.e_ok(a),
            depth <= 4,
        ensures
            r == self.g().cheap(self.ctx.st.e(a), depth as nat),
        decreases 5 - depth,
    {
        let ghost g = self.g();
        let ghost t = self.ctx.st.e(a);
        proof {
            self.lemma_env();
            self.lemma_base();
        }
        match self.read_expr(a) {
            Expr::Var { .. } | Expr::Local { .. } | Expr::Const { .. } | Expr::Sort { .. } | Expr::NatLit { .. }
            | Expr::StringLit { .. } => true,
            Expr::Lambda { .. } => true,
            Expr::App { .. } => {
                if depth > 3 {
                    return false;
                }
                let (h, args) = self.ctx.st.unfold_apps(a);
                let ghost xs = self.ctx.st.es(args@);
                proof {
                    Term::lemma_app_parts(self.ctx.st.e(h), xs);
                }
                let name = match self.read_expr(h) {
                    Expr::Const { name, .. } => name,
                    _ => {
                        return false;
                    },
                };
                let env = self.env;
                let total: usize = match env.get_constructor(name) {
                    Some(c) => c.num_params as usize + c.num_fields as usize,
                    None => {
                        proof {
                            assert(!g.is_ctor(name)) by {
                                if g.decls.contains_key(name) {
                                    assert(g.decls[name] == self.env.find(name)->0.g(&self.ctx.st));
                                }
                            }
                        }
                        return false;
                    },
                };
                proof {
                    assert(g.decls[name] == self.env.find(name)->0.g(&self.ctx.st));
                }
                if args.len() != total {
                    return false;
                }
                let mut i: usize = 0;
                while i < args.len()
                    invariant
                        self.wf(),
                        g == self.g(),
                        depth <= 3,
                        self.ctx.st.es_ok(args@),
                        xs == self.ctx.st.es(args@),
                        t.app_args() == xs,
                        t is App,
                        i <= args@.len(),
                        forall|j: int| 0 <= j < i ==> g.cheap(#[trigger] xs[j], (depth + 1) as nat),
                        t == self.ctx.st.e(a),
                    decreases args@.len() - i,
                {
                    if !self.is_cheap_arg(args[i], depth + 1) {
                        proof {
                            assert(!g.cheap(t.app_args()[i as int], (depth + 1) as nat));
                        }
                        return false;
                    }
                    proof {
                        assert(xs[i as int] == self.ctx.st.e(args@[i as int]));
                    }
                    i += 1;
                }
                true
            },
            _ => false,
        }
    }

    /// Whether `a` is a lambda or an application.
    fn is_compound(&self, a: ExprPtr) -> (r: bool)
        requires
            self.wf(),
            self.ctx.st.e_ok(a),
        ensures
            r == (self.ctx.st.e(a) is Lam || self.ctx.st.e(a) is App),
    {
        match self.read_expr(a) {
            Expr::Lambda { .. } => true,
            Expr::App { .. } => true,
            _ => false,
        }
    }

    /// Whether contracting a run of `n` lambdas over `b` with the first `n` of
    /// `args` duplicates no argument that costs evaluation, within the
    /// duplication budget.
    pub fn share_ok(&self, st: &mut Fuser, b: ExprPtr, args: &Vec<ExprPtr>, n: usize) -> (r: bool)
        requires
            self.wf(),
            self.ctx.st.e_ok(b),
            self.ctx.st.es_ok(args@),
            n <= args@.len(),
            old(st).dup_budget <= DUP_BUDGET,
        ensures
            final(st).spent(old(st)),
            final(st).memo == old(st).memo,
            final(st).overflow == old(st).overflow,
            final(st).budget == old(st).budget,
            !r ==> final(st).dup_budget == old(st).dup_budget,
            (forall|j: int|
                0 <= j < n ==> self.g().cheap(self.ctx.st.e(#[trigger] args@[j]), 0) && !(self.ctx.st.e(args@[j]) is Lam)
                    && !(self.ctx.st.e(args@[j]) is App)) ==> r && *final(st) == *old(st),
            r ==> forall|j: int|
                0 <= j < n && self.ctx.st.e(b).occ((n - 1 - j) as nat) >= 2 ==> self.g().cheap(
                    self.ctx.st.e(#[trigger] args@[j]),
                    0,
                ),
    {
        let ghost bt = self.ctx.st.e(b);
        proof {
            self.lemma_base();
        }
        let mut costly = false;
        let mut i: usize = 0;
        while i < n
            invariant
                self.wf(),
                self.ctx.st.es_ok(args@),
                i <= n <= args@.len(),
                !costly ==> forall|j: int| 0 <= j < i ==> self.g().cheap(self.ctx.st.e(#[trigger] args@[j]), 0),
                costly ==> exists|j: int|
                    0 <= j < i && !(self.g().cheap(self.ctx.st.e(#[trigger] args@[j]), 0) && !(self.ctx.st.e(args@[j])
                        is Lam) && !(self.ctx.st.e(args@[j]) is App)),
            decreases n - i,
        {
            if !self.is_cheap_arg(args[i], 0) || self.is_compound(args[i]) {
                costly = true;
            }
            i += 1;
        }
        if !costly {
            return true;
        }
        let cnt = self.ctx.st.count_bvars(b, n);
        let mut cost: usize = 0;
        let budget: usize = st.dup_budget;
        let mut j: usize = 0;
        while j < n
            invariant
                self.wf(),
                self.ctx.st.wf(),
                self.ctx.st.es_ok(args@),
                j <= n <= args@.len(),
                cnt@.len() == n,
                budget <= DUP_BUDGET,
                cost <= budget + 1,
                (forall|k: int| 0 <= k < n ==> #[trigger] cnt@[k] == crate::expr::Store::capped(bt.occ(k as nat)))
                    || (forall|k: int|
                    0 <= k < n ==> #[trigger] cnt@[k] == 2),
                forall|k: int|
                    0 <= k < j && bt.occ((n - 1 - k) as nat) >= 2
                        ==> self.g().cheap(self.ctx.st.e(#[trigger] args@[k]), 0),
                *st == *old(st),
            decreases n - j,
        {
            if cnt[n - 1 - j] >= 2 {
                if !self.is_cheap_arg(args[j], 0) {
                    return false;
                }
                if self.is_compound(args[j]) {
                    let s: usize = self.ctx.st.tree_size(args[j], budget + 1);
                    cost = if s > budget || cost + s > budget {
                        budget + 1
                    } else {
                        cost + s
                    };
                }
            } else {
                proof {
                    assert(cnt@[n - 1 - j] < 2);
                }
            }
            j += 1;
        }
        if cost > budget {
            return false;
        }
        st.dup_budget = budget - cost;
        true
    }

    /// Field `idx` of `s` when `s` is a full application of a constructor of
    /// `ty_name`.
    pub fn ctor_app_field(&self, s: ExprPtr, ty_name: NamePtr, idx: u32) -> (r: Option<ExprPtr>)
        requires
            self.wf(),
            self.ctx.st.e_ok(s),
        ensures
            match r {
                Some(f) => self.ctx.st.e_ok(f)
                    && self.ctor_field(self.ctx.st.e(s), ty_name, idx) == Some(self.ctx.st.e(f)),
                None => self.ctor_field(self.ctx.st.e(s), ty_name, idx) is None,
            },
    {
        let ghost g = self.g();
        proof {
            self.lemma_env();
            self.lemma_base();
        }
        let (h, args) = self.ctx.st.unfold_apps(s);
        let ghost xs = self.ctx.st.es(args@);
        proof {
            Term::lemma_app_parts(self.ctx.st.e(h), xs);
        }
        let name = match self.read_expr(h) {
            Expr::Const { name, .. } => name,
            _ => {
                return None;
            },
        };
        let env = self.env;
        match env.get_constructor(name) {
            Some(c) => {
                let np: usize = c.num_params as usize;
                let nf: usize = c.num_fields as usize;
                if c.inductive_name == ty_name && args.len() == np + nf && (idx as u64) < nf as u64 {
                    proof {
                        assert(xs[np + idx] == self.ctx.st.e(args@[np + idx]));
                    }
                    Some(args[np + idx as usize])
                } else {
                    None
                }
            },
            None => None,
        }
    }

    /// Field `idx` of a full application of a constructor of `ty_name`.
    pub open spec fn ctor_field(&self, s: Term, ty_name: NamePtr, idx: u32) -> Option<Term> {
        match s.app_head() {
            Term::Const(n, _) => match self.env.find(n) {
                Some(Declar::Constructor(c)) => if c.inductive_name == ty_name && s.app_args().len() == c.num_params
                    + c.num_fields && idx < c.num_fields {
                    Some(s.app_args()[c.num_params + idx])
                } else {
                    None
                },
                _ => None,
            },
            _ => None,
        }
    }

    /// The recursor `n` at the levels `ls` fires on `xs` as they stand: its major
    /// premise is a full application of a constructor, and the rule for that one
    /// takes as many fields as it has.
    pub open spec fn iota_ready(&self, n: NamePtr, ls: Seq<Lvl>, xs: Seq<Term>) -> bool {
        match self.env.find(n) {
            Some(Declar::Recursor(rec)) => {
                &&& rec.major_nat() < xs.len()
                &&& ls.len() == self.ctx.st.ls(rec.info.uparams).len()
                &&& match xs[rec.major_nat() as int].app_head() {
                    Term::Const(c, _) => match self.env.find(c) {
                        Some(Declar::Constructor(cd)) => xs[rec.major_nat() as int].app_args().len() == cd.num_params
                            + cd.num_fields && rec.takes(c, cd.num_fields as nat),
                        _ => false,
                    },
                    _ => false,
                }
            },
            _ => false,
        }
    }

    /// The iota reduct of a recursor applied to `args` when its major premise
    /// is a full constructor application.
    pub fn try_iota(&mut self, rec_name: NamePtr, levels: LevelsPtr, args: &Vec<ExprPtr>)
        -> (r: Result<Option<ExprPtr>, TcError>)
        requires
            old(self).wf(),
            old(self).ctx.st.ls_ok(levels),
            old(self).es_closed(args@),
        ensures
            final(self).wf(),
            final(self).ext(old(self)),
            r matches Ok(Some(x))
                ==> final(self).ctx.st.e_ok(x) && final(self).ctx.st.e(x).nl() == 0 && final(self).g().red(
                Term::apps(Term::Const(rec_name, old(self).ctx.st.ls(levels)), old(self).ctx.st.es(args@)),
                final(self).ctx.st.e(x),
            ),
            r matches Ok(x) ==> (x is Some) == old(self).iota_ready(
                rec_name,
                old(self).ctx.st.ls(levels),
                old(self).ctx.st.es(args@),
            ),
            r matches Err(err) ==> err == TcError::Full,
            r matches Err(err) ==> !(err is Reject) && final(self).ran_out(old(self)),
    {
        let ghost g = self.g();
        let ghost ls = self.ctx.st.ls(levels);
        let ghost xs = self.ctx.st.es(args@);
        proof {
            self.lemma_env();
            self.lemma_base();
        }
        let env = self.env;
        let rec = match env.get_recursor(rec_name) {
            Some(r) => r,
            None => {
                return Ok(None);
            },
        };
        let major_idx: usize = rec.major_idx();
        if major_idx >= args.len() {
            return Ok(None);
        }
        let major = args[major_idx];
        let (mh, margs) = self.ctx.st.unfold_apps(major);
        let ghost cs = self.ctx.st.es(margs@);
        proof {
            assert(xs[major_idx as int] == self.ctx.st.e(major));
            Term::lemma_app_parts(self.ctx.st.e(mh), cs);
        }
        let (ctor_name, ctor_levels) = match self.read_expr(mh) {
            Expr::Const { name, levels } => (name, levels),
            _ => {
                return Ok(None);
            },
        };
        let (np, nf): (usize, usize) = match env.get_constructor(ctor_name) {
            Some(c) => (c.num_params as usize, c.num_fields as usize),
            None => {
                return Ok(None);
            },
        };
        if margs.len() != np + nf {
            return Ok(None);
        }
        let ri: usize = match rec.rule_for(ctor_name) {
            Some(i) => i,
            None => {
                return Ok(None);
            },
        };
        let rule = rec.rec_rules[ri];
        if rule.ctor_telescope_size_wo_params as usize != nf
            || self.ctx.st.levels_len(levels) != self.ctx.st.levels_len(
            rec.info.uparams,
        ) {
            return Ok(None);
        }
        let ghost gr = g.rec(rec_name);
        let ghost val = self.ctx.st.e(rule.val).tsubst(self.ctx.st.ls(rec.info.uparams), ls);
        let ghost p1 = xs.subrange(0, gr.prefix() as int);
        let ghost p2 = cs.subrange(np as int, cs.len() as int);
        let ghost p3 = xs.subrange(gr.major() as int + 1, xs.len() as int);
        proof {
            assert(xs[major_idx as int] == self.ctx.st.e(major));
            assert(g.decls[rec_name] == self.env.find(rec_name)->0.g(&self.ctx.st));
            Sig::steps_refl(g, self.ctx.st.e(major));
            Sig::r_iota(g, rec_name, ls, xs, ri as int, self.ctx.st.ls(ctor_levels), cs);
            assert(p1 =~= xs.take(gr.prefix() as int));
            assert(p2 =~= cs.skip(cs.len() - nf));
            assert(p3 =~= xs.skip(gr.major() as int + 1));
            Term::lemma_tsubst_vars(self.ctx.st.e(rule.val), self.ctx.st.ls(rec.info.uparams), ls);
            Term::lemma_apps_scope(self.ctx.st.e(mh), cs, 0);
        }
        let mut nargs: Vec<ExprPtr> = Vec::new();
        self.push_range(&mut nargs, args, 0, rec.prefix());
        self.push_range(&mut nargs, &margs, np, margs.len());
        self.push_range(&mut nargs, args, major_idx + 1, args.len());
        let ghost ns = self.ctx.st.es(nargs@);
        proof {
            assert(ns =~= p1 + p2 + p3);
            assert(Term::closed_seq(p1 + p2 + p3));
            Term::lemma_apps_scope(val, ns, 0);
        }
        let rhs = self.subst_expr_levels(rule.val, rec.info.uparams, levels)?;
        let r = self.foldl_apps(rhs, &nargs, 0)?;
        proof {
            assert(ns.skip(0) =~= ns);
        }
        Ok(Some(r))
    }

    /// Expressions `from` to `to` of `src`, after those of `dst`.
    pub fn push_range(&self, dst: &mut Vec<ExprPtr>, src: &Vec<ExprPtr>, from: usize, to: usize)
        requires
            self.ctx.st.es_ok(old(dst)@),
            self.ctx.st.es_ok(src@),
            from <= to <= src@.len(),
        ensures
            self.ctx.st.es_ok(final(dst)@),
            self.ctx.st.es(final(dst)@)
                == self.ctx.st.es(old(dst)@) + self.ctx.st.es(src@).subrange(from as int, to as int),
    {
        let ghost d0 = dst@;
        let mut i: usize = from;
        while i < to
            invariant
                self.ctx.st.es_ok(dst@),
                self.ctx.st.es_ok(src@),
                from <= i <= to <= src@.len(),
                dst@ == d0 + src@.subrange(from as int, i as int),
            decreases to - i,
        {
            dst.push(src[i]);
            i += 1;
            proof {
                assert(d0 + src@.subrange(from as int,
                    i as int) =~= (d0 + src@.subrange(from as int, i - 1)).push(src@[i - 1]));
            }
        }
        proof {
            assert(self.ctx.st.es(dst@) =~= self.ctx.st.es(d0) + self.ctx.st.es(src@).subrange(from as int, to as int));
        }
    }

    /// `b` with its loose variables replaced by the first `n` of `args`, the
    /// last one innermost.
    pub fn fz_inst(&mut self, b: ExprPtr, args: &Vec<ExprPtr>, n: usize) -> (r: Result<ExprPtr, TcError>)
        requires
            old(self).wf(),
            old(self).ctx.st.e_ok(b),
            old(self).es_closed(args@),
            n <= args@.len(),
            old(self).ctx.st.e(b).nl() <= n,
        ensures
            final(self).wf(),
            final(self).ext(old(self)),
            r matches Ok(x) ==> final(self).ctx.st.e_ok(x) && final(self).ctx.st.e(x).nl() == 0
                && final(self).ctx.st.e(x) == old(self).ctx.st.e(
                b,
            ).inst(0, old(self).ctx.st.es(args@).take(n as int).reverse()),
            r matches Err(err) ==> err == TcError::Full,
            r matches Err(err) ==> !(err is Reject) && final(self).ran_out(old(self)),
    {
        let ghost o = *self;
        let ghost xs = self.ctx.st.es(args@);
        let mut env: EnvId = ENV_NIL;
        let mut i: usize = 0;
        proof {
            self.lemma_base();
            assert(xs.take(0).reverse() =~= Seq::empty());
        }
        while i < n
            invariant
                o == *old(self),
                o.wf(),
                o.es_closed(args@),
                self.wf(),
                self.ext(&o),
                xs == o.ctx.st.es(args@),
                i <= n <= args@.len(),
                self.ctx.w@.n_ok(env),
                self.ctx.w@.plain(env),
                self.ctx.w@.n(env) == xs.take(i as int).reverse(),
            decreases n - i,
        {
            let a = args[i];
            proof {
                assert(o.ctx.st.e_ok(args@[i as int]));
                assert(xs[i as int] == o.ctx.st.e(a));
                self.lemma_clo_of(a);
                self.lemma_base();
                self.lemma_ntime(ENV_NIL);
            }
            env = self.push_entry(env, Entry::Val(a, ENV_NIL))?;
            i += 1;
            proof {
                assert(xs.take(i as int).reverse() =~= seq![xs[i - 1]] + xs.take(i - 1).reverse());
            }
        }
        proof {
            assert(xs.take(n as int).reverse().len() == n);
            self.lemma_plain_clo(Clo { e: b, env });
        }
        self.reify(Clo { e: b, env })
    }

    /// Open the binder of `body` with a fresh level, returning the opened body
    /// and the level.
    fn fz_open(&mut self, binder_type: ExprPtr, body: ExprPtr) -> (r: Result<(ExprPtr, u32, Ghost<Term>), TcError>)
        requires
            old(self).wf(),
            old(self).ctx.st.e_ok(binder_type),
            old(self).ctx.st.e(binder_type).nl() == 0,
            old(self).ctx.st.e_ok(body),
            old(self).ctx.st.e(body).nl() <= 1,
        ensures
            final(self).wf(),
            final(self).ext(old(self)),
            r matches Ok(x) ==> final(self).ctx.st.e_ok(x.0) && final(self).ctx.st.e(x.0).nl() == 0 && x.1 < u32::MAX
                && x.2@.is_level(x.1) && x.2@.nl() == 0 && old(self).ctx.st.e(body).ml() <= x.1
                    && final(self).ctx.st.e(x.0) == old(self).ctx.st.e(
                body,
            ).inst(0, seq![x.2@]),
            r matches Err(err) ==> err == TcError::Full,
            r matches Err(err) ==> !(err is Reject) && final(self).ran_out(old(self)),
    {
        let level = self.max_level(body)?;
        if level == u32::MAX {
            return Err(self.over_limit());
        }
        let fv = self.fvar_at(level, binder_type)?;
        let ghost x = self.ctx.st.e(fv);
        let mut v: Vec<ExprPtr> = Vec::new();
        v.push(fv);
        proof {
            assert(self.ctx.st.es(v@) =~= seq![x]);
            assert(seq![x].take(1).reverse() =~= seq![x]);
        }
        let opened = self.fz_inst(body, &v, 1)?;
        Ok((opened, level, Ghost(x)))
    }

    /// Fuse a body opened at level `lvl`, and close it again; `None` when
    /// fusion left it unchanged.
    fn fz_under(&mut self, fuel: u32, st: &mut Fuser, opened: ExprPtr, lvl: u32)
        -> (r: Result<Option<(ExprPtr, Ghost<Term>)>, TcError>)
        requires
            old(self).wf(),
            old(self).fz_ok(*old(st)),
            old(st).dup_budget <= DUP_BUDGET,
            old(self).ctx.st.e_ok(opened),
            old(self).ctx.st.e(opened).nl() == 0,
            lvl < u32::MAX,
        ensures
            final(self).wf(),
            final(self).ext(old(self)),
            final(self).fz_ok(*final(st)),
            final(st).spent(old(st)),
            r matches Ok(Some(x))
                ==> final(self).ctx.st.e_ok(x.0) && final(self).ctx.st.e(x.0).nl() <= 1 && final(self).g().red(
                old(self).ctx.st.e(opened),
                x.1@,
            ) && final(self).ctx.st.e(x.0) == x.1@.abstr(lvl as nat, lvl as nat + 1, 0),
            r matches Err(err) ==> !(err is Reject) && final(self).ran_out(old(self)),
        decreases fuel,
    {
        if fuel == 0 {
            return Err(self.out_of_depth(0));
        }
        let r = self.fz(fuel - 1, st, opened)?;
        if r == opened {
            return Ok(None);
        }
        let ghost b2 = self.ctx.st.e(r);
        proof {
            Term::lemma_abstr_nl(b2, lvl as nat, lvl as nat + 1, 0);
        }
        let c = self.abstr_levels_at(r, lvl, lvl + 1)?;
        Ok(Some((c, Ghost(b2))))
    }

    /// The fused form of `e`.
    pub fn fz(&mut self, fuel: u32, st: &mut Fuser, e: ExprPtr) -> (r: Result<ExprPtr, TcError>)
        requires
            old(self).wf(),
            old(self).fz_ok(*old(st)),
            old(st).dup_budget <= DUP_BUDGET,
            old(self).ctx.st.e_ok(e),
            old(self).ctx.st.e(e).nl() == 0,
        ensures
            final(self).wf(),
            final(self).ext(old(self)),
            final(self).fz_ok(*final(st)),
            final(st).spent(old(st)),
            r matches Ok(y) ==> final(self).ctx.st.e_ok(y) && final(self).ctx.st.e(y).nl() == 0
                && final(self).g().red(old(self).ctx.st.e(e), final(self).ctx.st.e(y)),
            fuel > 0 && (old(st).overflow || old(self).ctx.st.e(e).is_leaf() && !(old(self).ctx.st.e(e) is Const) || old(
                self,
            ).ctx.st.e(e) is Pi) ==> r == Ok::<ExprPtr, TcError>(e),
            old(self).ctx.st.e(e).is_atom() ==> (r matches Ok(y) ==> y == e && *final(st) == *old(st) && *final(self)
                == *old(self)),
            old(st).ready() && old(st).budget > 0 && !old(st).memo@.contains_key((e, 0, 0, 0)) ==> (r matches Ok(y)
                ==> final(self).contracted(old(self).ctx.st.e(e), final(self).ctx.st.e(y))),
            r matches Err(err) ==> !(err is Reject) && final(self).ran_out(old(self)),
        decreases fuel,
    {
        if fuel == 0 {
            return Err(self.out_of_depth(0));
        }
        let ghost g = self.g();
        let ghost t = self.ctx.st.e(e);
        proof {
            Sig::steps_refl(g, t);
        }
        if st.overflow {
            return Ok(e);
        }
        match self.read_expr(e) {
            Expr::Var { .. } | Expr::Local { .. } | Expr::Sort { .. } | Expr::NatLit { .. } | Expr::StringLit { .. }
            | Expr::Pi { .. } => {
                return Ok(e);
            },
            _ => {},
        }
        match st.memo.get((e, 0, 0, 0)) {
            Some(r) => {
                proof {
                    assert(self.fused(e, r));
                }
                return Ok(r);
            },
            None => {},
        }
        if st.budget == 0 {
            st.overflow = true;
            return Ok(e);
        }
        st.budget = st.budget - 1;
        let r = self.fz_parts(fuel - 1, st, e)?;
        let ghost f0 = *st;
        st.memo.insert((e, 0, 0, 0), r);
        proof {
            assert forall|x: ExprPtr| #[trigger] st.memo@.contains_key((x, 0, 0, 0)) implies self.fused(
                x,
                st.memo@[(x, 0, 0, 0)],
            ) by {
                if x != e {
                    assert(f0.memo@.contains_key((x, 0, 0, 0)));
                }
            }
        }
        Ok(r)
    }

    fn fz_parts(&mut self, fuel: u32, st: &mut Fuser, e: ExprPtr) -> (r: Result<ExprPtr, TcError>)
        requires
            old(self).wf(),
            old(self).fz_ok(*old(st)),
            old(st).dup_budget <= DUP_BUDGET,
            old(self).ctx.st.e_ok(e),
            old(self).ctx.st.e(e).nl() == 0,
        ensures
            final(self).wf(),
            final(self).ext(old(self)),
            final(self).fz_ok(*final(st)),
            final(st).spent(old(st)),
            r matches Ok(y) ==> final(self).ctx.st.e_ok(y) && final(self).ctx.st.e(y).nl() == 0
                && final(self).g().red(old(self).ctx.st.e(e), final(self).ctx.st.e(y)),
            old(st).ready() ==> (r matches Ok(y) ==> final(self).contracted(
                old(self).ctx.st.e(e),
                final(self).ctx.st.e(y),
            )),
            r matches Err(err) ==> !(err is Reject) && final(self).ran_out(old(self)),
        decreases fuel,
    {
        if fuel == 0 {
            return Err(self.out_of_depth(0));
        }
        let ghost g = self.g();
        let ghost t = self.ctx.st.e(e);
        proof {
            Sig::steps_refl(g, t);
        }
        match self.read_expr(e) {
            Expr::Lambda { binder_name, binder_style, binder_type, body } => {
                let ghost a = self.ctx.st.e(binder_type);
                let ghost b = self.ctx.st.e(body);
                let (opened, lvl, Ghost(x)) = self.fz_open(binder_type, body)?;
                match self.fz_under(fuel - 1, st, opened, lvl)? {
                    Some((c, gb)) => {
                        let ghost b2 = gb@;
                        proof {
                            Sig::r_lam(g, binder_name, binder_style, a, b, x, lvl, b2);
                        }
                        self.mk(Expr::Lambda { binder_name, binder_style, binder_type, body: c })
                    },
                    None => Ok(e),
                }
            },
            Expr::Let { binder_name, binder_type, val, body, nondep } => {
                let ghost a = self.ctx.st.e(binder_type);
                let ghost b = self.ctx.st.e(body);
                let ghost v0 = self.ctx.st.e(val);
                let v = self.fz(fuel - 1, st, val)?;
                let ghost v2 = self.ctx.st.e(v);
                let (opened, lvl, Ghost(x)) = self.fz_open(binder_type, body)?;
                match self.fz_under(fuel - 1, st, opened, lvl)? {
                    Some((c, gb)) => {
                        let ghost b2 = gb@;
                        proof {
                            Sig::r_let(g, binder_name, nondep, a, v0, v2, b, x, lvl, b2);
                        }
                        self.mk(Expr::Let { binder_name, binder_type, val: v, body: c, nondep })
                    },
                    None => {
                        if v == val {
                            return Ok(e);
                        }
                        proof {
                            Sig::r_let_val(g, binder_name, nondep, a, v0, v2, b);
                        }
                        self.mk(Expr::Let { binder_name, binder_type, val: v, body, nondep })
                    },
                }
            },
            Expr::Proj { ty_name, idx, structure } => {
                let ghost s0 = self.ctx.st.e(structure);
                let s = self.fz(fuel - 1, st, structure)?;
                let ghost s2 = self.ctx.st.e(s);
                match self.ctor_app_field(s, ty_name, idx) {
                    Some(f) => {
                        proof {
                            self.lemma_env();
                            let (n, ls) = (s2.app_head()->Const_0, s2.app_head()->Const_1);
                            assert(g.decls[n] == self.env.find(n)->0.g(&self.ctx.st));
                            Term::lemma_apps_parts(s2);
                            Term::lemma_apps_scope(s2.app_head(), s2.app_args(), 0);
                            Sig::r_projc(g, ty_name, idx as nat, s0, n, ls, s2.app_args());
                        }
                        Ok(f)
                    },
                    None => {
                        if s == structure {
                            return Ok(e);
                        }
                        proof {
                            Sig::r_proj(g, ty_name, idx as nat, s0, s2);
                        }
                        self.mk(Expr::Proj { ty_name, idx, structure: s })
                    },
                }
            },
            Expr::App { .. } | Expr::Const { .. } => self.fz_app(fuel - 1, st, e),
            _ => Ok(e),
        }
    }
}

impl Term {
    /// A term is its head applied to its arguments.
    pub proof fn lemma_apps_parts(t: Term)
        ensures
            Term::apps(t.app_head(), t.app_args()) == t,
        decreases t,
    {
        match t {
            Term::App(f, a) => {
                Term::lemma_apps_parts(*f);
                Term::lemma_apps_push(f.app_head(), f.app_args(), *a);
            },
            _ => {},
        }
    }
}

} // verus!
