//! Fusion of applications.
use crate::error::TcError;
use crate::expr::{Expr, ExprPtr};
use crate::fuse::{MAX_DEPTH, MAX_UNFOLDS};
use crate::fuser::{Fuser, DUP_BUDGET};
use crate::level::{LevelsPtr, NamePtr};
use crate::tc::TypeChecker;
use crate::term::Term;
use crate::theory::Sig;
use vstd::prelude::*;

verus! {

broadcast use {crate::tc::group_tc, crate::fuser::group_fz};

/// What one step at the head of an application gives.
pub enum HeadStep {
    /// The application is done.
    Done(ExprPtr),
    /// A new head and new arguments.
    Next(ExprPtr, Vec<ExprPtr>),
    /// Nothing more can be done with this head and these arguments.
    Stop(ExprPtr, Vec<ExprPtr>),
}

impl<'x> TypeChecker<'x> {
    /// A head and its arguments, closed.
    pub open spec fn head_ok(&self, f: ExprPtr, args: Seq<ExprPtr>) -> bool {
        self.ctx.st.e_ok(f) && self.ctx.st.e(f).nl() == 0 && self.es_closed(args)
    }

    /// The application they make.
    pub open spec fn head_term(&self, f: ExprPtr, args: Seq<ExprPtr>) -> Term {
        Term::apps(self.ctx.st.e(f), self.ctx.st.es(args))
    }

    /// What a step leaves is what the application reduces to.
    pub open spec fn step_ok(&self, t: Term, s: HeadStep) -> bool {
        match s {
            HeadStep::Done(r) => self.ctx.st.e_ok(r) && self.ctx.st.e(r).nl() == 0 && self.g().red(t, self.ctx.st.e(r)),
            HeadStep::Next(f, args) => self.head_ok(f, args@) && self.g().red(t, self.head_term(f, args@)),
            HeadStep::Stop(f, args) => self.head_ok(f, args@) && self.g().red(t, self.head_term(f, args@)),
        }
    }

    /// The fused form of an application.
    pub fn fz_app(&mut self, fuel: u32, st: &mut Fuser, e: ExprPtr) -> (r: Result<ExprPtr, TcError>)
        requires
            old(self).wf(),
            old(self).fz_ok(*old(st)),
            old(st).dup_budget <= DUP_BUDGET,
            old(self).ctx.st.e_ok(e),
            old(self).ctx.st.e(e).nl() == 0,
        ensures
            final(self).wf(),
            final(self).ext(old(self)),
            final(self).fz_ok(*final(st)),
            final(st).spent(old(st)),
            r matches Ok(y) ==> final(self).ctx.st.e_ok(y) && final(self).ctx.st.e(y).nl() == 0
                && final(self).g().red(old(self).ctx.st.e(e), final(self).ctx.st.e(y)),
            old(st).ready() ==> (r matches Ok(y) ==> final(self).contracted(
                old(self).ctx.st.e(e),
                final(self).ctx.st.e(y),
            )),
            r matches Err(err) ==> !(err is Reject) && final(self).ran_out(old(self)),
        decreases fuel,
    {
        if fuel == 0 {
            return Err(self.out_of_depth(0));
        }
        let ghost o = *self;
        let ghost g = self.g();
        let ghost t = self.ctx.st.e(e);
        let ghost st0 = *st;
        proof {
            self.lemma_base();
        }
        let (f0, args0) = self.ctx.st.unfold_apps(e);
        proof {
            Term::lemma_apps_scope(self.ctx.st.e(f0), self.ctx.st.es(args0@), 0);
        }
        let ghost armed = st0.ready() && t.atom_redex() is Some;
        let ghost c = t.atom_redex()->0;
        let ghost mut fired = false;
        proof {
            Term::lemma_app_parts(self.ctx.st.e(f0), self.ctx.st.es(args0@));
            if armed {
                reveal_with_fuel(Term::app_head, 2);
                reveal_with_fuel(Term::app_args, 2);
                assert(self.ctx.st.es(args0@).len() == 1);
                assert(self.ctx.st.es(args0@)[0] == self.ctx.st.e(args0@[0]));
            }
        }
        let mut args: Vec<ExprPtr> = self.fz_args(fuel - 1, st, f0, &args0)?;
        let mut f: ExprPtr = f0;
        let mut unfolds: u32 = 0;
        let mut left: u64 = u64::MAX;
        while !st.overflow
            invariant
                o == *old(self),
                o.wf(),
                self.wf(),
                self.ext(&o),
                g == o.g(),
                fuel > 0,
                o.ctx.st.e_ok(e),
                t == o.ctx.st.e(e),
                st0 == *old(st),
                self.fz_ok(*st),
                st.spent(&st0),
                st0.dup_budget <= DUP_BUDGET,
                self.head_ok(f, args@),
                g.red(t, self.head_term(f, args@)),
                armed && !fired ==> st.ready() && self.head_term(f, args@) == t && self.ctx.st.e(f) is Lam && args@.len()
                    == 1 && self.ctx.st.e(args@[0]).is_atom(),
                armed == (st0.ready() && t.atom_redex() is Some),
                armed ==> c == t.atom_redex()->0,
                armed && fired ==> g.red(c, self.head_term(f, args@)),
            ensures
                armed ==> fired,
            decreases left,
        {
            if left == 0 {
                return Err(self.out_of_depth(0));
            }
            left -= 1;
            let ghost u = self.head_term(f, args@);
            let ghost was = fired;
            proof {
                if armed && !fired {
                    let xs = self.ctx.st.es(args@);
                    reveal_with_fuel(Term::apps, 2);
                    assert(xs.drop_last() =~= Seq::empty());
                    assert(xs.last() == self.ctx.st.e(args@[0]));
                    assert(t == Term::app(self.ctx.st.e(f), xs.last()));
                    assert(c == self.ctx.st.e(f)->Lam_3.inst(0, seq![self.ctx.st.e(args@[0])]));
                }
            }
            let step = self.fz_step(fuel - 1, st, f, args, &mut unfolds)?;
            proof {
                fired = true;
            }
            match step {
                HeadStep::Done(r) => {
                    proof {
                        Sig::r_trans(g, t, u, self.ctx.st.e(r));
                        if armed && was {
                            Sig::r_trans(g, c, u, self.ctx.st.e(r));
                        }
                    }
                    return Ok(r);
                },
                HeadStep::Next(f2, args2) => {
                    proof {
                        Sig::r_trans(g, t, u, self.head_term(f2, args2@));
                        if armed && was {
                            Sig::r_trans(g, c, u, self.head_term(f2, args2@));
                        }
                    }
                    f = f2;
                    args = args2;
                },
                HeadStep::Stop(f2, args2) => {
                    proof {
                        Sig::r_trans(g, t, u, self.head_term(f2, args2@));
                        if armed && was {
                            Sig::r_trans(g, c, u, self.head_term(f2, args2@));
                        }
                    }
                    f = f2;
                    args = args2;
                    break;
                },
            }
        }
        proof {
            Term::lemma_apps_scope(self.ctx.st.e(f), self.ctx.st.es(args@), 0);
            assert(self.ctx.st.es(args@).skip(0) =~= self.ctx.st.es(args@));
        }
        self.foldl_apps(f, &args, 0)
    }

    /// The fused arguments of an application.
    fn fz_args(&mut self, fuel: u32, st: &mut Fuser, f: ExprPtr, args: &Vec<ExprPtr>)
        -> (r: Result<Vec<ExprPtr>, TcError>)
        requires
            old(self).wf(),
            old(self).fz_ok(*old(st)),
            old(st).dup_budget <= DUP_BUDGET,
            old(self).head_ok(f, args@),
        ensures
            final(self).wf(),
            final(self).ext(old(self)),
            final(self).fz_ok(*final(st)),
            final(st).spent(old(st)),
            r matches Ok(v) ==> final(self).head_ok(f, v@) && final(self).g().red(
                old(self).head_term(f, args@),
                final(self).head_term(f, v@),
            ),
            // atoms are their own fused forms
            args@.len() == 1 && old(self).ctx.st.e(args@[0]).is_atom() ==> (r matches Ok(v) ==> v@ == args@ && *final(st)
                == *old(st) && *final(self) == *old(self)),
            r matches Err(err) ==> !(err is Reject) && final(self).ran_out(old(self)),
        decreases fuel,
    {
        if fuel == 0 {
            return Err(self.out_of_depth(0));
        }
        let ghost o = *self;
        let ghost g = self.g();
        let ghost st0 = *st;
        let ghost xs = self.ctx.st.es(args@);
        let mut v: Vec<ExprPtr> = Vec::new();
        let mut i: usize = 0;
        while i < args.len()
            invariant
                o == *old(self),
                o.wf(),
                o.head_ok(f, args@),
                self.wf(),
                self.ext(&o),
                g == o.g(),
                fuel > 0,
                st0 == *old(st),
                self.fz_ok(*st),
                st.spent(&st0),
                st0.dup_budget <= DUP_BUDGET,
                xs == o.ctx.st.es(args@),
                i <= args@.len(),
                args@.len() == 1 && o.ctx.st.e(args@[0]).is_atom() ==> *self == o && *st == st0 && v@ == args@.take(
                    i as int,
                ),
                v@.len() == i,
                self.ctx.st.es_ok(v@),
                forall|j: int|
                    0 <= j < i ==> self.ctx.st.e(#[trigger] v@[j]).nl() == 0 && g.red(xs[j], self.ctx.st.e(v@[j])),
            decreases args@.len() - i,
        {
            proof {
                assert(o.ctx.st.e_ok(args@[i as int]));
                assert(xs[i as int] == o.ctx.st.e(args@[i as int]));
                assert(xs[i as int].nl() == 0);
            }
            let ghost before = *self;
            let a = self.fz(fuel - 1, st, args[i])?;
            let ghost v0 = v@;
            v.push(a);
            i += 1;
            proof {
                if args@.len() == 1 {
                    assert(v@ =~= v0.push(a));
                    assert(args@.take(1) =~= seq![args@[0]]);
                    assert(args@.take(0) =~= Seq::empty());
                }
                assert forall|j: int| 0 <= j < i implies self.ctx.st.e(#[trigger] v@[j]).nl() == 0 && g.red(
                    xs[j],
                    self.ctx.st.e(v@[j]),
                ) by {
                    if j < i - 1 {
                        assert(v@[j] == v0[j]);
                        assert(before.ctx.st.e_ok(v0[j]));
                    }
                }
                assert forall|j: int| 0 <= j < v@.len() implies self.ctx.st.e_ok(#[trigger] v@[j]) by {
                    if j < i - 1 {
                        assert(v@[j] == v0[j]);
                        assert(before.ctx.st.e_ok(v0[j]));
                    }
                }
            }
        }
        assert(args@.take(args@.len() as int) =~= args@);
        proof {
            let ys = self.ctx.st.es(v@);
            assert forall|j: int| 0 <= j < ys.len() implies (#[trigger] ys[j]).nl() == 0 && g.red(xs[j], ys[j]) by {
                assert(ys[j] == self.ctx.st.e(v@[j]));
            }
            Sig::red_args(g, o.ctx.st.e(f), xs, ys);
        }
        Ok(v)
    }

    /// One step at the head of an application.
    fn fz_step(&mut self, fuel: u32, st: &mut Fuser, f: ExprPtr, args: Vec<ExprPtr>, unfolds: &mut u32)
        -> (r: Result<HeadStep, TcError>)
        requires
            old(self).wf(),
            old(self).fz_ok(*old(st)),
            old(st).dup_budget <= DUP_BUDGET,
            old(self).head_ok(f, args@),
        ensures
            final(self).wf(),
            final(self).ext(old(self)),
            final(self).fz_ok(*final(st)),
            final(st).spent(old(st)),
            r matches Ok(s) ==> final(self).step_ok(old(self).head_term(f, args@), s),
            old(st).ready() && old(self).ctx.st.e(f) is Lam && args@.len() == 1 && old(self).ctx.st.e(args@[0]).is_atom()
                ==> (r matches Ok(s) ==> final(self).step_ok(
                old(self).ctx.st.e(f)->Lam_3.inst(0, seq![old(self).ctx.st.e(args@[0])]),
                s,
            )),
            r matches Err(err) ==> !(err is Reject) && final(self).ran_out(old(self)),
        decreases fuel,
    {
        if fuel == 0 {
            return Err(self.out_of_depth(0));
        }
        match self.read_expr(f) {
            Expr::Lambda { .. } => {
                if args.len() == 0 {
                    return self.fz_head(fuel - 1, st, f, args);
                }
                self.fz_beta(fuel - 1, st, f, args)
            },
            Expr::Const { name, levels } => {
                proof {
                    self.lemma_env();
                }
                if self.env.get_recursor(name).is_some() {
                    return self.fz_rec(fuel - 1, st, f, name, levels, args);
                }
                self.fz_const(fuel - 1, st, f, name, levels, args, unfolds)
            },
            _ => self.fz_head(fuel - 1, st, f, args),
        }
    }

    /// A head that is no redex: fuse it, and go on with what it becomes.
    fn fz_head(&mut self, fuel: u32, st: &mut Fuser, f: ExprPtr, args: Vec<ExprPtr>) -> (r: Result<HeadStep, TcError>)
        requires
            old(self).wf(),
            old(self).fz_ok(*old(st)),
            old(st).dup_budget <= DUP_BUDGET,
            old(self).head_ok(f, args@),
        ensures
            final(self).wf(),
            final(self).ext(old(self)),
            final(self).fz_ok(*final(st)),
            final(st).spent(old(st)),
            r matches Ok(s) ==> final(self).step_ok(old(self).head_term(f, args@), s),
            r matches Err(err) ==> !(err is Reject) && final(self).ran_out(old(self)),
        decreases fuel,
    {
        if fuel == 0 {
            return Err(self.out_of_depth(0));
        }
        let ghost g = self.g();
        let ghost xs = self.ctx.st.es(args@);
        let ghost h = self.ctx.st.e(f);
        proof {
            Sig::steps_refl(g, Term::apps(h, xs));
        }
        let f2 = self.fz(fuel - 1, st, f)?;
        if f2 == f {
            return Ok(HeadStep::Stop(f, args));
        }
        proof {
            Sig::red_apps(g, h, self.ctx.st.e(f2), xs);
        }
        match self.read_expr(f2) {
            Expr::App { .. } => {
                let (hd, all) = self.fz_spread(f2, &args);
                Ok(HeadStep::Next(hd, all))
            },
            Expr::Lambda { .. } | Expr::Const { .. } => Ok(HeadStep::Next(f2, args)),
            _ => Ok(HeadStep::Stop(f2, args)),
        }
    }

    /// An application taken apart and applied to more arguments.
    fn fz_spread(&self, t: ExprPtr, args: &Vec<ExprPtr>) -> (r: (ExprPtr, Vec<ExprPtr>))
        requires
            self.wf(),
            self.head_ok(t, args@),
        ensures
            self.head_ok(r.0, r.1@),
            self.head_term(r.0, r.1@) == self.head_term(t, args@),
    {
        proof {
            self.lemma_base();
        }
        let (h, all) = self.ctx.st.unfold_apps(t);
        let mut all = all;
        let ghost ts = self.ctx.st.es(all@);
        let ghost xs = self.ctx.st.es(args@);
        proof {
            Term::lemma_apps_scope(self.ctx.st.e(h), ts, 0);
        }
        self.push_range(&mut all, args, 0, args.len());
        proof {
            assert(xs.subrange(0, xs.len() as int) =~= xs);
            Term::lemma_apps_append(self.ctx.st.e(h), ts, xs);
            assert(Term::closed_seq(ts + xs));
        }
        (h, all)
    }

    /// A run of lambdas with arguments, contracted.
    fn fz_beta(&mut self, fuel: u32, st: &mut Fuser, f: ExprPtr, args: Vec<ExprPtr>) -> (r: Result<HeadStep, TcError>)
        requires
            old(self).wf(),
            old(self).fz_ok(*old(st)),
            old(st).dup_budget <= DUP_BUDGET,
            old(self).head_ok(f, args@),
        ensures
            final(self).wf(),
            final(self).ext(old(self)),
            final(self).fz_ok(*final(st)),
            final(st).spent(old(st)),
            r matches Ok(s) ==> final(self).step_ok(old(self).head_term(f, args@), s),
            old(st).ready() && old(self).ctx.st.e(f) is Lam && args@.len() == 1 && old(self).ctx.st.e(args@[0]).is_atom()
                ==> (r matches Ok(s) ==> final(self).step_ok(
                old(self).ctx.st.e(f)->Lam_3.inst(0, seq![old(self).ctx.st.e(args@[0])]),
                s,
            )),
            r matches Err(err) ==> !(err is Reject) && final(self).ran_out(old(self)),
        decreases fuel,
    {
        if fuel == 0 {
            return Err(self.out_of_depth(0));
        }
        let ghost o = *self;
        let ghost g = self.g();
        let ghost xs = self.ctx.st.es(args@);
        let ghost h = self.ctx.st.e(f);
        let ghost t = Term::apps(h, xs);
        proof {
            Sig::steps_refl(g, t);
        }
        let mut b: ExprPtr = f;
        let mut i: usize = 0;
        while i < args.len()
            invariant
                self.wf(),
                i <= args@.len(),
                self.ctx.st.e_ok(b),
                h.under(i as nat) == Some(self.ctx.st.e(b)),
                i == 0 ==> b == f,
                self.ctx.st.e(f) == h,
            ensures
                h is Lam && args@.len() > 0 ==> i > 0,
            decreases args@.len() - i,
        {
            match self.read_expr(b) {
                Expr::Lambda { body, .. } => {
                    proof {
                        Term::lemma_under_step(h, i as nat);
                    }
                    b = body;
                    i += 1;
                },
                _ => {
                    break;
                },
            }
        }
        if !self.share_ok(st, b, &args, i) {
            let f2 = self.fz(fuel - 1, st, f)?;
            if f2 == f {
                return Ok(HeadStep::Stop(f, args));
            }
            proof {
                Sig::red_apps(g, h, self.ctx.st.e(f2), xs);
            }
            return Ok(HeadStep::Next(f2, args));
        }
        let ghost pre = xs.take(i as int);
        let ghost rest = xs.skip(i as int);
        let ghost bt = self.ctx.st.e(b);
        proof {
            if h is Lam && args@.len() == 1 {
                assert(xs[0] == self.ctx.st.e(args@[0]));
                assert(pre.reverse() =~= seq![xs[0]]);
                assert(rest =~= Seq::empty());
                reveal_with_fuel(Term::under, 2);
            }
            assert(Term::closed_seq(pre));
            Sig::red_lams(g, h, pre);
            assert(xs =~= pre + rest);
            Term::lemma_apps_append(h, pre, rest);
            Sig::red_apps(g, Term::apps(h, pre), bt.inst(0, pre.reverse()), rest);
        }
        let t1 = self.fz_inst(b, &args, i)?;
        let ghost u = self.ctx.st.e(t1);
        let mut tail: Vec<ExprPtr> = Vec::new();
        self.push_range(&mut tail, &args, i, args.len());
        proof {
            assert(self.ctx.st.es(tail@) =~= rest);
            assert(Term::closed_seq(rest));
        }
        proof {
            Sig::steps_refl(g, Term::apps(u, rest));
        }
        if st.depth >= MAX_DEPTH {
            return Ok(HeadStep::Stop(t1, tail));
        }
        let t2 = self.fz_deeper(fuel - 1, st, t1)?;
        proof {
            Sig::red_apps(g, u, self.ctx.st.e(t2), rest);
            Sig::r_trans(g, t, Term::apps(u, rest), Term::apps(self.ctx.st.e(t2), rest));
        }
        if tail.len() == 0 {
            proof {
                assert(rest =~= Seq::empty());
            }
            return Ok(HeadStep::Done(t2));
        }
        let (hd, all) = self.fz_spread(t2, &tail);
        Ok(HeadStep::Next(hd, all))
    }

    /// The fused form of a reduct, one reduction deeper.
    fn fz_deeper(&mut self, fuel: u32, st: &mut Fuser, e: ExprPtr) -> (r: Result<ExprPtr, TcError>)
        requires
            old(self).wf(),
            old(self).fz_ok(*old(st)),
            old(st).dup_budget <= DUP_BUDGET,
            old(st).depth < MAX_DEPTH,
            old(self).ctx.st.e_ok(e),
            old(self).ctx.st.e(e).nl() == 0,
        ensures
            final(self).wf(),
            final(self).ext(old(self)),
            final(self).fz_ok(*final(st)),
            final(st).spent(old(st)),
            r matches Ok(y) ==> final(self).ctx.st.e_ok(y) && final(self).ctx.st.e(y).nl() == 0
                && final(self).g().red(old(self).ctx.st.e(e), final(self).ctx.st.e(y)),
            r matches Err(err) ==> !(err is Reject) && final(self).ran_out(old(self)),
        decreases fuel,
    {
        if fuel == 0 {
            return Err(self.out_of_depth(0));
        }
        let ghost s1 = *st;
        st.depth = st.depth + 1;
        proof {
            assert forall|x: ExprPtr| #[trigger] st.memo@.contains_key((x, 0, 0, 0)) implies self.fused(
                x,
                st.memo@[(x, 0, 0, 0)],
            ) by {
                assert(s1.memo@.contains_key((x, 0, 0, 0)));
            }
        }
        let r = self.fz(fuel - 1, st, e);
        let ghost s2 = *st;
        st.depth = st.depth - 1;
        proof {
            assert forall|x: ExprPtr| #[trigger] st.memo@.contains_key((x, 0, 0, 0)) implies self.fused(
                x,
                st.memo@[(x, 0, 0, 0)],
            ) by {
                assert(s2.memo@.contains_key((x, 0, 0, 0)));
            }
        }
        r
    }

    /// A recursor on a constructor application.
    fn fz_rec(&mut self, fuel: u32, st: &mut Fuser, f: ExprPtr, name: NamePtr, levels: LevelsPtr, args: Vec<ExprPtr>)
        -> (r: Result<
        HeadStep,
        TcError,
    >)
        requires
            old(self).wf(),
            old(self).fz_ok(*old(st)),
            old(st).dup_budget <= DUP_BUDGET,
            old(self).head_ok(f, args@),
            old(self).ctx.st.ls_ok(levels),
            old(self).ctx.st.e(f) == Term::Const(name, old(self).ctx.st.ls(levels)),
        ensures
            final(self).wf(),
            final(self).ext(old(self)),
            final(self).fz_ok(*final(st)),
            final(st).spent(old(st)),
            r matches Ok(s) ==> final(self).step_ok(old(self).head_term(f, args@), s),
            r matches Err(err) ==> !(err is Reject) && final(self).ran_out(old(self)),
        decreases fuel,
    {
        if fuel == 0 {
            return Err(self.out_of_depth(0));
        }
        let ghost g = self.g();
        let ghost t = self.head_term(f, args@);
        proof {
            Sig::steps_refl(g, t);
        }
        let t1 = match self.try_iota(name, levels, &args)? {
            Some(x) => x,
            None => {
                return Ok(HeadStep::Stop(f, args));
            },
        };
        if st.depth >= MAX_DEPTH {
            return Ok(HeadStep::Stop(f, args));
        }
        let ghost u = self.ctx.st.e(t1);
        let t2 = self.fz_deeper(fuel - 1, st, t1)?;
        proof {
            Sig::r_trans(g, t, u, self.ctx.st.e(t2));
        }
        Ok(HeadStep::Done(t2))
    }

    /// A wrapper or an abbreviation, unfolded.
    fn fz_const(
        &mut self,
        fuel: u32,
        st: &mut Fuser,
        f: ExprPtr,
        name: NamePtr,
        levels: LevelsPtr,
        args: Vec<ExprPtr>,
        unfolds: &mut u32,
    ) -> (r: Result<HeadStep, TcError>)
        requires
            old(self).wf(),
            old(self).fz_ok(*old(st)),
            old(st).dup_budget <= DUP_BUDGET,
            old(self).head_ok(f, args@),
            old(self).ctx.st.ls_ok(levels),
            old(self).ctx.st.e(f) == Term::Const(name, old(self).ctx.st.ls(levels)),
        ensures
            final(self).wf(),
            final(self).ext(old(self)),
            final(self).fz_ok(*final(st)),
            final(st).spent(old(st)),
            r matches Ok(s) ==> final(self).step_ok(old(self).head_term(f, args@), s),
            r matches Err(err) ==> !(err is Reject) && final(self).ran_out(old(self)),
        decreases fuel,
    {
        if fuel == 0 {
            return Err(self.out_of_depth(0));
        }
        let ghost g = self.g();
        let ghost xs = self.ctx.st.es(args@);
        let ghost h = self.ctx.st.e(f);
        proof {
            Sig::steps_refl(g, Term::apps(h, xs));
        }
        if *unfolds >= MAX_UNFOLDS || !self.fuse_unfoldable(name) {
            return Ok(HeadStep::Stop(f, args));
        }
        let f2 = match self.const_body(name, levels)? {
            Some(x) => x,
            None => {
                return Ok(HeadStep::Stop(f, args));
            },
        };
        *unfolds = *unfolds + 1;
        let ghost v = self.ctx.st.e(f2);
        if args.len() == 0 {
            proof {
                assert(xs =~= Seq::empty());
            }
            let r = self.fz(fuel - 1, st, f2)?;
            proof {
                Sig::r_trans(g, h, v, self.ctx.st.e(r));
            }
            return Ok(HeadStep::Done(r));
        }
        proof {
            Sig::red_apps(g, h, v, xs);
        }
        Ok(HeadStep::Next(f2, args))
    }
}

impl Sig {
    /// Reduction in the arguments of an application.
    pub proof fn red_args(g: Sig, f: Term, xs: Seq<Term>, ys: Seq<Term>)
        requires
            xs.len() == ys.len(),
            forall|i: int| 0 <= i < xs.len() ==> g.red(xs[i], #[trigger] ys[i]),
        ensures
            g.red(Term::apps(f, xs), Term::apps(f, ys)),
        decreases xs.len(),
    {
        if xs.len() > 0 {
            Sig::red_args(g, f, xs.drop_last(), ys.drop_last());
            assert(g.red(xs[xs.len() - 1], ys[ys.len() - 1]));
            Sig::r_app(g, Term::apps(f, xs.drop_last()), xs.last(), Term::apps(f, ys.drop_last()), ys.last());
        } else {
            Sig::steps_refl(g, f);
        }
    }
}

} // verus!
