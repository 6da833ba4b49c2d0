//! Beta reduction of expressions that are applications of lambdas.
use crate::closure::{Clo, ENV_NIL};
use crate::error::TcError;
use crate::expr::{Expr, ExprPtr};
use crate::tc::TypeChecker;
use crate::term::Term;
use crate::theory::Sig;
use vstd::prelude::*;

verus! {

broadcast use crate::tc::group_tc;

impl Term {
    /// The body under `n` lambdas.
    pub open spec fn under(self, n: nat) -> Option<Term>
        decreases n,
    {
        if n == 0 {
            Some(self)
        } else {
            match self {
                Term::Lam(_, _, _, b) => b.under((n - 1) as nat),
                _ => None,
            }
        }
    }

    /// Instantiating under lambdas.
    pub proof fn lemma_under_inst(t: Term, n: nat, k: nat, s: Seq<Term>)
        requires
            t.under(n) is Some,
        ensures
            t.inst(k, s).under(n) == Some(t.under(n)->0.inst(k + n, s)),
        decreases n,
    {
        if n > 0 {
            if let Term::Lam(_, _, _, b) = t {
                Term::lemma_under_inst(*b, (n - 1) as nat, k + 1, s);
            }
        }
    }

    /// One lambda more.
    pub proof fn lemma_under_step(t: Term, n: nat)
        requires
            t.under(n) is Some,
            t.under(n)->0 is Lam,
        ensures
            t.under(n + 1) == Some(*t.under(n)->0->Lam_3),
        decreases n,
    {
        reveal_with_fuel(Term::under, 2);
        if n > 0 {
            if let Term::Lam(_, _, _, b) = t {
                Term::lemma_under_step(*b, (n - 1) as nat);
            }
        }
    }
}

impl Sig {
    /// Reducing the head of an application.
    pub proof fn red_apps(g: Sig, f: Term, f2: Term, args: Seq<Term>)
        requires
            g.red(f, f2),
        ensures
            g.red(Term::apps(f, args), Term::apps(f2, args)),
        decreases args.len(),
    {
        if args.len() > 0 {
            Sig::red_apps(g, f, f2, args.drop_last());
            Sig::steps_refl(g, args.last());
            Sig::r_app(g, Term::apps(f, args.drop_last()), args.last(), Term::apps(f2, args.drop_last()), args.last());
        }
    }

    /// A run of lambdas applied to as many closed arguments is its body with
    /// the arguments put in, the last one innermost.
    pub proof fn red_lams(g: Sig, h: Term, args: Seq<Term>)
        requires
            h.under(args.len()) is Some,
            h.nl() == 0,
            Term::closed_seq(args),
        ensures
            g.red(Term::apps(h, args), h.under(args.len())->0.inst(0, args.reverse())),
            h.under(args.len())->0.nl() <= args.len(),
        decreases args.len(),
    {
        if args.len() == 0 {
            assert(args.reverse() =~= Seq::empty());
            Term::lemma_inst_empty(h, 0);
            Sig::steps_refl(g, h);
        } else if let Term::Lam(n, s, a, b) = h {
            let n1 = (args.len() - 1) as nat;
            let a0 = args[0];
            let rest = args.skip(1);
            let f = b.under(n1)->0;
            let h2 = b.inst(0, seq![a0]);
            Sig::r_beta(g, n, s, *a, *b, a0);
            Term::lemma_under_inst(*b, n1, 0, seq![a0]);
            assert(Term::closed_seq(seq![a0]));
            Term::lemma_inst_nl(*b, 0, seq![a0]);
            assert(Term::closed_seq(rest));
            Sig::red_lams(g, h2, rest);
            Term::lemma_under_nl(*b, n1);
            assert(args =~= seq![a0] + rest);
            Term::lemma_apps_cons(h, a0, rest);
            Sig::red_apps(g, Term::app(h, a0), h2, rest);
            assert(rest.reverse().len() == n1);
            Term::lemma_inst_inst(f, 0, rest.reverse(), seq![a0]);
            assert(args.reverse() =~= rest.reverse() + seq![a0]);
            Sig::r_trans(g, Term::apps(h, args), Term::apps(h2, rest), f.inst(0, args.reverse()));
        }
    }
}

impl Term {
    /// Each lambda binds one variable.
    pub proof fn lemma_under_nl(t: Term, n: nat)
        requires
            t.under(n) is Some,
        ensures
            t.under(n)->0.nl() <= t.nl() + n,
        decreases n,
    {
        if n > 0 {
            if let Term::Lam(_, _, _, b) = t {
                Term::lemma_under_nl(*b, (n - 1) as nat);
            }
        }
    }
}

impl<'x> TypeChecker<'x> {
    /// Reduce an application of a run of lambdas where that takes no
    /// substitution: the body is closed, or one of the variables bound.
    pub fn cheap_beta_reduce(&mut self, e: ExprPtr) -> (r: Result<ExprPtr, TcError>)
        requires
            old(self).wf(),
            old(self).ctx.st.e_ok(e),
            old(self).ctx.st.e(e).nl() == 0,
        ensures
            final(self).wf(),
            final(self).ext(old(self)),
            r matches Ok(y) ==> final(self).ctx.st.e_ok(y) && final(self).ctx.st.e(y).nl() == 0 && final(self).g().red(
                old(self).ctx.st.e(e),
                final(self).ctx.st.e(y),
            ),
            r matches Err(err) ==> err == TcError::Full,
            r matches Err(err) ==> !(err is Reject) && final(self).ran_out(old(self)),
    {
        let ghost g = self.g();
        let ghost t = self.ctx.st.e(e);
        proof {
            Sig::steps_refl(g, t);
        }
        match self.read_expr(e) {
            Expr::App { .. } => {},
            _ => {
                return Ok(e);
            },
        }
        let s = self.mk_sclo(Clo { e, env: ENV_NIL });
        let ghost h = self.ctx.st.e(s.head.e);
        let ghost ts = self.ctx.items(s.spine@);
        proof {
            Term::lemma_apps_scope(h, ts, 0);
            assert(Term::closed_seq(ts));
        }
        let mut args: Vec<ExprPtr> = Vec::new();
        let n: usize = s.spine.len();
        let mut j: usize = 0;
        while j < n
            invariant
                self.wf(),
                n == s.spine@.len(),
                j <= n,
                self.ctx.items_ok(s.spine@, ENV_NIL),
                ts == self.ctx.items(s.spine@),
                args@.len() == j,
                self.ctx.st.es_ok(args@),
                forall|i: int| 0 <= i < j ==> self.ctx.st.e(#[trigger] args@[i]) == ts[i],
            decreases n - j,
        {
            args.push(s.spine.get(j).e);
            j += 1;
        }
        let mut fun: ExprPtr = s.head.e;
        let mut i: usize = 0;
        while i < n
            invariant
                self.wf(),
                i <= n,
                ts.len() == n,
                self.ctx.st.e_ok(fun),
                h.under(i as nat) == Some(self.ctx.st.e(fun)),
            decreases n - i,
        {
            match self.read_expr(fun) {
                Expr::Lambda { body, .. } => {
                    proof {
                        Term::lemma_under_step(h, i as nat);
                    }
                    fun = body;
                    i += 1;
                },
                _ => {
                    break;
                },
            }
        }
        if i == 0 {
            return Ok(e);
        }
        let ghost f = self.ctx.st.e(fun);
        let ghost pre = ts.take(i as int);
        let ghost rest = ts.skip(i as int);
        proof {
            assert(Term::closed_seq(pre));
            Sig::red_lams(g, h, pre);
            assert(ts =~= pre + rest);
            Term::lemma_apps_append(h, pre, rest);
            Sig::red_apps(g, Term::apps(h, pre), f.inst(0, pre.reverse()), rest);
            assert(self.ctx.st.es(args@) =~= ts);
            assert forall|q: int| 0 <= q < rest.len() implies (#[trigger] rest[q]).nl() <= 0 by {
                assert(rest[q] == ts[q + i]);
            }
            assert(Term::apps(h, ts) == t);
        }
        if self.lbr(fun) == 0 {
            proof {
                Term::lemma_inst_closed(f, 0, pre.reverse());
                Term::lemma_apps_scope(f, rest, 0);
            }
            return self.foldl_apps(fun, &args, i);
        }
        if let Expr::Var { dbj_idx: v } = self.read_expr(fun) {
            if (v as usize) < i {
                let head = args[i - 1 - v as usize];
                proof {
                    assert(pre.reverse()[v as int] == pre[i - 1 - v]);
                    assert(pre[i - 1 - v] == ts[i - 1 - v]);
                    assert(self.ctx.st.e(head) == ts[i - 1 - v]);
                    Term::lemma_apps_scope(self.ctx.st.e(head), rest, 0);
                }
                return self.foldl_apps(head, &args, i);
            }
        }
        Ok(e)
    }
}

} // verus!
