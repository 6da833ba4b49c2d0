//! Applications of closures to closures, and their memos.
use crate::closure::{Clo, ENV_NIL};
use crate::expr::{Expr, ExprPtr};
use crate::rapier::{RClo, RapierSt};
use crate::table::copy_vec;
use crate::tc::TypeChecker;
use crate::term::Term;
use crate::theory::Sig;
use vstd::prelude::*;

verus! {

broadcast use crate::tc::group_tc;

impl RClo {
    /// A head without arguments.
    pub fn of(c: Clo) -> (r: RClo)
        ensures
            r.head == c,
            r.spine@ == Seq::<Clo>::empty(),
    {
        RClo { head: c, spine: Vec::new() }
    }

    /// The same application again.
    pub fn copy(&self) -> (r: RClo)
        ensures
            r.head == self.head,
            r.spine@ == self.spine@,
    {
        RClo { head: self.head, spine: copy_vec(&self.spine) }
    }
}

impl<'x> TypeChecker<'x> {
    /// The closures are named, in scope and without evaluated entries.
    pub open spec fn cs_ok(&self, v: Seq<Clo>) -> bool {
        self.ctx.w@.pclos_ok(&self.ctx.st, v)
    }

    /// What the closures stand for.
    pub open spec fn cs(&self, v: Seq<Clo>) -> Seq<Term> {
        self.ctx.w@.pclos(&self.ctx.st, v)
    }

    pub open spec fn rc_ok(&self, s: RClo) -> bool {
        self.plain_clo(s.head) && self.cs_ok(s.spine@)
    }

    /// The application `s` stands for.
    pub open spec fn rc(&self, s: RClo) -> Term {
        Term::apps(self.ctx.clo(s.head), self.cs(s.spine@))
    }

    /// The application of `c` to the closures of a list, the first one last.
    pub open spec fn rt(&self, c: Clo, rsp: Seq<Clo>) -> Term {
        Term::apps(self.ctx.clo(c), self.cs(rsp).reverse())
    }

    /// A closure without evaluated entries is one of the list.
    pub proof fn lemma_cs(&self, v: Seq<Clo>, i: int)
        requires
            self.cs_ok(v),
            0 <= i < v.len(),
        ensures
            self.plain_clo(v[i]),
            self.cs(v)[i] == self.ctx.clo(v[i]),
    {
        assert(self.ctx.w@.pclo_ok(&self.ctx.st, v[i]));
    }

    /// Another closure at the end of a list.
    pub proof fn lemma_cs_push(&self, v: Seq<Clo>, c: Clo)
        requires
            self.cs_ok(v),
            self.plain_clo(c),
        ensures
            self.cs_ok(v.push(c)),
            self.cs(v.push(c)) == self.cs(v).push(self.ctx.clo(c)),
    {
        assert forall|i: int| 0 <= i < v.push(c).len() implies self.ctx.w@.pclo_ok(&self.ctx.st,
            #[trigger] v.push(c)[i]) by {
            if i < v.len() {
                assert(self.ctx.w@.pclo_ok(&self.ctx.st, v[i]));
            }
        }
        assert(self.cs(v.push(c)) =~= self.cs(v).push(self.ctx.clo(c)));
    }

    /// Two lists in a row.
    pub proof fn lemma_cs_add(&self, v: Seq<Clo>, u: Seq<Clo>)
        requires
            self.cs_ok(v),
            self.cs_ok(u),
        ensures
            self.cs_ok(v + u),
            self.cs(v + u) == self.cs(v) + self.cs(u),
    {
        assert forall|i: int| 0 <= i < (v + u).len() implies self.ctx.w@.pclo_ok(&self.ctx.st,
            #[trigger] (v + u)[i]) by {
            if i < v.len() {
                assert(self.ctx.w@.pclo_ok(&self.ctx.st, v[i]));
            } else {
                assert(self.ctx.w@.pclo_ok(&self.ctx.st, u[i - v.len()]));
            }
        }
        assert(self.cs(v + u) =~= self.cs(v) + self.cs(u));
    }

    /// Part of a list.
    pub proof fn lemma_cs_sub(&self, v: Seq<Clo>, a: int, b: int)
        requires
            self.cs_ok(v),
            0 <= a <= b <= v.len(),
        ensures
            self.cs_ok(v.subrange(a, b)),
            self.cs(v.subrange(a, b)) == self.cs(v).subrange(a, b),
    {
        assert forall|i: int| 0 <= i < b - a implies self.ctx.w@.pclo_ok(&self.ctx.st,
            #[trigger] v.subrange(a, b)[i]) by {
            assert(self.ctx.w@.pclo_ok(&self.ctx.st, v[a + i]));
        }
        assert(self.cs(v.subrange(a, b)) =~= self.cs(v).subrange(a, b));
    }

    /// A list turned around.
    pub proof fn lemma_cs_rev(&self, v: Seq<Clo>)
        requires
            self.cs_ok(v),
        ensures
            self.cs_ok(v.reverse()),
            self.cs(v.reverse()) == self.cs(v).reverse(),
    {
        assert forall|i: int| 0 <= i < v.len() implies self.ctx.w@.pclo_ok(&self.ctx.st, #[trigger] v.reverse()[i]) by {
            assert(self.ctx.w@.pclo_ok(&self.ctx.st, v[v.len() - 1 - i]));
        }
        assert(self.cs(v.reverse()) =~= self.cs(v).reverse());
    }

    /// The next argument of an application.
    pub proof fn lemma_rt_push(&self, c: Clo, rsp: Seq<Clo>, a: Clo)
        requires
            self.cs_ok(rsp),
            self.plain_clo(a),
        ensures
            self.rt(c, rsp.push(a)) == Term::apps(Term::app(self.ctx.clo(c), self.ctx.clo(a)), self.cs(rsp).reverse()),
    {
        let r = self.cs(rsp).reverse();
        self.lemma_cs_push(rsp, a);
        assert(self.cs(rsp.push(a)).reverse() =~= seq![self.ctx.clo(a)] + r);
        Term::lemma_apps_cons(self.ctx.clo(c), self.ctx.clo(a), r);
    }

    /// An application stands for a closed term without conversion variables.
    pub proof fn lemma_rc(&self, s: RClo)
        requires
            self.wf(),
            self.rc_ok(s),
        ensures
            self.rc(s).bvb() == 0,
            self.rc(s).nl() == 0,
            self.ctx.clo(s.head).bvb() == 0,
            self.ctx.clo(s.head).nl() == 0,
            Term::bvb_seq(self.cs(s.spine@), 0),
            Term::closed_seq(self.cs(s.spine@)),
    {
        self.lemma_plain_clo(s.head);
        assert forall|i: int| 0 <= i < s.spine@.len() implies (#[trigger] self.cs(s.spine@)[i]).bvb() <= 0 && self.cs(
            s.spine@,
        )[i].nl() == 0 by {
            self.lemma_cs(s.spine@, i);
            self.lemma_plain_clo(s.spine@[i]);
        }
        Term::lemma_apps_bvb(self.ctx.clo(s.head), self.cs(s.spine@), 0);
        Term::lemma_apps_scope(self.ctx.clo(s.head), self.cs(s.spine@), 0);
    }

    /// An application taken apart.
    pub fn rp_mk_sclo(&self, c: Clo) -> (r: RClo)
        requires
            self.wf(),
            self.plain_clo(c),
        ensures
            self.rc_ok(r),
            self.rc(r) == self.ctx.clo(c),
            !(self.ctx.st.e(r.head.e) is App),
            r.head.env == c.env,
    {
        let mut e: ExprPtr = c.e;
        let mut rsp: Vec<Clo> = Vec::new();
        proof {
            assert(self.cs(rsp@).reverse() =~= Seq::empty());
        }
        loop
            invariant
                self.wf(),
                self.plain_clo(c),
                self.plain_clo(Clo { e, env: c.env }),
                self.cs_ok(rsp@),
                self.rt(Clo { e, env: c.env }, rsp@) == self.ctx.clo(c),
            ensures
                !(self.ctx.st.e(e) is App),
            decreases e,
        {
            match self.read_expr(e) {
                Expr::App { fun, arg } => {
                    let a = Clo { e: arg, env: c.env };
                    proof {
                        self.lemma_rt_push(Clo { e: fun, env: c.env }, rsp@, a);
                        self.lemma_cs_push(rsp@, a);
                    }
                    rsp.push(a);
                    e = fun;
                },
                _ => {
                    break;
                },
            }
        }
        self.rp_turn(Clo { e, env: c.env }, &rsp)
    }

    /// The application of a head to a list of closures, the first one last.
    pub fn rp_turn(&self, head: Clo, rsp: &Vec<Clo>) -> (r: RClo)
        requires
            self.wf(),
            self.plain_clo(head),
            self.cs_ok(rsp@),
        ensures
            self.rc_ok(r),
            self.rc(r) == self.rt(head, rsp@),
            r.head == head,
            self.cs(r.spine@) == self.cs(rsp@).reverse(),
    {
        let mut spine: Vec<Clo> = Vec::new();
        let n: usize = rsp.len();
        let mut i: usize = 0;
        while i < n
            invariant
                n == rsp@.len(),
                i <= n,
                spine@ == rsp@.reverse().take(i as int),
            decreases n - i,
        {
            spine.push(rsp[n - 1 - i]);
            i += 1;
            proof {
                assert(rsp@.reverse().take(i as int) =~= rsp@.reverse().take(i - 1).push(rsp@[n - i]));
            }
        }
        proof {
            assert(rsp@.reverse().take(n as int) =~= rsp@.reverse());
            self.lemma_cs_rev(rsp@);
        }
        RClo { head, spine }
    }

    /// A list of closures, turned around.
    pub fn rp_reversed(&self, spine: &Vec<Clo>) -> (r: Vec<Clo>)
        requires
            self.cs_ok(spine@),
        ensures
            r@ == spine@.reverse(),
            self.cs_ok(r@),
            self.cs(r@).reverse() == self.cs(spine@),
    {
        let mut r: Vec<Clo> = Vec::new();
        let n: usize = spine.len();
        let mut i: usize = 0;
        while i < n
            invariant
                n == spine@.len(),
                i <= n,
                r@ == spine@.reverse().take(i as int),
            decreases n - i,
        {
            r.push(spine[n - 1 - i]);
            i += 1;
            proof {
                assert(spine@.reverse().take(i as int) =~= spine@.reverse().take(i - 1).push(spine@[n - i]));
            }
        }
        proof {
            assert(spine@.reverse().take(n as int) =~= spine@.reverse());
            self.lemma_cs_rev(spine@);
            assert(self.cs(spine@).reverse().reverse() =~= self.cs(spine@));
        }
        r
    }

    /// Closures `from` to `to` of `src`, after those of `dst`.
    pub fn rp_extend(&self, dst: &mut Vec<Clo>, src: &Vec<Clo>, from: usize, to: usize)
        requires
            self.cs_ok(old(dst)@),
            self.cs_ok(src@),
            from <= to <= src@.len(),
        ensures
            self.cs_ok(final(dst)@),
            self.cs(final(dst)@) == self.cs(old(dst)@) + self.cs(src@).subrange(from as int, to as int),
    {
        let ghost d0 = dst@;
        let mut i: usize = from;
        proof {
            assert(d0 + src@.subrange(from as int, from as int) =~= d0);
        }
        while i < to
            invariant
                from <= i <= to <= src@.len(),
                dst@ == d0 + src@.subrange(from as int, i as int),
            decreases to - i,
        {
            dst.push(src[i]);
            i += 1;
            proof {
                assert(d0 + src@.subrange(from as int,
                    i as int) =~= (d0 + src@.subrange(from as int, i - 1)).push(src@[i - 1]));
            }
        }
        proof {
            self.lemma_cs_sub(src@, from as int, to as int);
            self.lemma_cs_add(d0, src@.subrange(from as int, to as int));
        }
    }

    /// A closed expression ignores its environment.
    pub fn rp_key(&self, c: Clo) -> (r: Clo)
        requires
            self.wf(),
            self.plain_clo(c),
        ensures
            self.plain_clo(r),
            self.ctx.clo(r) == self.ctx.clo(c),
            self.ctx.st.e(c.e).nl() == 0 ==> r.env == ENV_NIL,
    {
        if c.env != ENV_NIL && self.lbr(c.e) == 0 {
            proof {
                self.lemma_clo_of(c.e);
                Term::lemma_inst_closed(self.ctx.st.e(c.e), 0, self.ctx.w@.n(c.env));
            }
            return Clo { e: c.e, env: ENV_NIL };
        }
        c
    }

    // ---- memos ----

    /// The memos change, and nothing else.
    pub proof fn lemma_rs(&self, o: &TypeChecker)
        requires
            o.wf(),
            self.ctx == o.ctx,
            self.env == o.env,
            self.declar_info == o.declar_info,
            self.name_tab == o.name_tab,
            self.st0 == o.st0,
            self.gone@ >= o.gone@,
            self.no == o.no,
            self.faults == o.faults,
            self.log == o.log,
            self.rs.ok(self.ctx.w@, &self.ctx.st),
        ensures
            self.wf(),
            self.ext(o),
    {
        reveal(TypeChecker::wf);
        reveal(TypeChecker::ext);
        o.log.lemma_refl();
        self.ctx.lemma_ext_refl();
    }

    pub proof fn lemma_rs_ok(&self)
        requires
            self.wf(),
        ensures
            self.rs.ok(self.ctx.w@, &self.ctx.st),
    {
        reveal(TypeChecker::wf);
    }

    /// A remembered weak head normal form.
    pub fn recall_whnf(&self, c: Clo) -> (r: Option<RClo>)
        requires
            self.wf(),
            self.plain_clo(c),
        ensures
            r matches Some(s) ==> self.rc_ok(s) && self.g().red(self.ctx.clo(c), self.rc(s)) && self.rc(s).headed(),
    {
        proof {
            self.lemma_rs_ok();
            reveal(RapierSt::ok);
        }
        match self.rs.whnf.get((c.e, c.env, 0, 0)) {
            Some(i) => {
                proof {
                    assert(self.rs.whnf_fact(self.ctx.w@, &self.ctx.st, c.e, c.env, i));
                }
                Some(self.rs.results[i as usize].copy())
            },
            None => None,
        }
    }

    pub fn note_whnf(&mut self, c: Clo, s: &RClo)
        requires
            old(self).wf(),
            old(self).plain_clo(c),
            old(self).rc_ok(*s),
            old(self).g().red(old(self).ctx.clo(c), old(self).rc(*s)),
            old(self).rc(*s).headed(),
        ensures
            final(self).wf(),
            final(self).ext(old(self)),
    {
        let ghost o = *self;
        if self.rs.results.len() >= 0xffff_ffff {
            return;
        }
        let i: u32 = self.rs.results.len() as u32;
        self.rs.results.push(s.copy());
        self.rs.whnf.insert((c.e, c.env, 0, 0), i);
        proof {
            o.lemma_rs_ok();
            let w = self.ctx.w@;
            let st = &self.ctx.st;
            reveal(RapierSt::ok);
            assert forall|e: u32, n: u32| #[trigger] self.rs.whnf@.contains_key((e, n, 0, 0)) implies self.rs.whnf_fact(
                w,
                st,
                e,
                n,
                self.rs.whnf@[(e, n, 0, 0)],
            ) by {
                if (e, n) != (c.e, c.env) {
                    assert(o.rs.whnf@.contains_key((e, n, 0, 0)));
                    assert(o.rs.whnf_fact(w, st, e, n, o.rs.whnf@[(e, n, 0, 0)]));
                }
            }
            self.lemma_rs(&o);
        }
    }

    /// Whether two closures have been found equal.
    pub fn recall_eq(&self, t: Clo, s: Clo) -> (r: Option<bool>)
        requires
            self.wf(),
        ensures
            r matches Some(true) ==> self.g().eq(self.ctx.clo(t), self.ctx.clo(s)),
    {
        proof {
            self.lemma_rs_ok();
            reveal(RapierSt::ok);
        }
        let (a, b) = if t.e < s.e || (t.e == s.e && t.env <= s.env) {
            (t, s)
        } else {
            (s, t)
        };
        if self.rs.eq_pos.get((a.e, a.env, b.e, b.env)).is_some() {
            proof {
                assert(RapierSt::eq_fact(self.ctx.w@, &self.ctx.st, a, b));
                Sig::e_sym(self.g(), self.ctx.clo(a), self.ctx.clo(b));
            }
            return Some(true);
        }
        if self.rs.eq_neg.get((a.e, a.env, b.e, b.env)).is_some() {
            return Some(false);
        }
        None
    }

    pub fn note_eq(&mut self, t: Clo, s: Clo, v: bool)
        requires
            old(self).wf(),
            old(self).plain_clo(t),
            old(self).plain_clo(s),
            v ==> old(self).g().eq(old(self).ctx.clo(t), old(self).ctx.clo(s)),
        ensures
            final(self).wf(),
            final(self).ext(old(self)),
    {
        let ghost o = *self;
        let (a, b) = if t.e < s.e || (t.e == s.e && t.env <= s.env) {
            (t, s)
        } else {
            (s, t)
        };
        if v {
            self.rs.eq_pos.insert((a.e, a.env, b.e, b.env), true);
        } else {
            self.rs.eq_neg.insert((a.e, a.env, b.e, b.env), true);
        }
        proof {
            o.lemma_rs_ok();
            reveal(RapierSt::ok);
            if v {
                Sig::e_sym(self.g(), o.ctx.clo(t), o.ctx.clo(s));
                assert(RapierSt::eq_fact(self.ctx.w@, &self.ctx.st, a, b));
            }
            assert forall|x: u32, y: u32, z: u32, u: u32| #[trigger]
                self.rs.eq_pos@.contains_key((x, y, z, u)) implies RapierSt::eq_fact(
                self.ctx.w@,
                &self.ctx.st,
                Clo { e: x, env: y },
                Clo { e: z, env: u },
            ) by {
                if (x, y, z, u) != (a.e, a.env, b.e, b.env) || !v {
                    assert(o.rs.eq_pos@.contains_key((x, y, z, u)));
                }
            }
            assert(self.rs.ok(self.ctx.w@, &self.ctx.st)) by {
                assert forall|e: u32,
                    n: u32| #[trigger] self.rs.whnf@.contains_key((e, n, 0, 0)) implies self.rs.whnf_fact(
                    self.ctx.w@,
                    &self.ctx.st,
                    e,
                    n,
                    self.rs.whnf@[(e, n, 0, 0)],
                ) by {
                    assert(o.rs.whnf_fact(self.ctx.w@, &self.ctx.st, e, n, o.rs.whnf@[(e, n, 0, 0)]));
                }
                self.lemma_rs_rest(&o);
            }
            self.lemma_rs(&o);
        }
    }

    /// What is remembered of applications and levels is as before.
    proof fn lemma_rs_rest(&self, o: &TypeChecker)
        requires
            o.rs.ok(self.ctx.w@, &self.ctx.st),
            self.rs.keys == o.rs.keys,
            self.rs.eq_s_pos == o.rs.eq_s_pos,
            self.rs.infer_s == o.rs.infer_s,
        ensures
            forall|i: u32, j: u32| #[trigger]
                self.rs.eq_s_pos@.contains_key((i, j, 0, 0)) ==> self.rs.eq_s_fact(self.ctx.w@, &self.ctx.st, i, j),
            forall|i: u32, k: u32| #[trigger]
                self.rs.infer_s@.contains_key((i, k, 0, 0)) ==> self.rs.infer_s_fact(
                    self.ctx.w@,
                    &self.ctx.st,
                    i,
                    k,
                    self.rs.infer_s@[(i, k, 0, 0)],
                ),
    {
        reveal(RapierSt::ok);
        assert forall|i: u32, j: u32| #[trigger] self.rs.eq_s_pos@.contains_key((i, j, 0, 0)) implies self.rs.eq_s_fact(
            self.ctx.w@,
            &self.ctx.st,
            i,
            j,
        ) by {
            assert(o.rs.eq_s_fact(self.ctx.w@, &self.ctx.st, i, j));
        }
        assert forall|i: u32,
            k: u32| #[trigger] self.rs.infer_s@.contains_key((i, k, 0, 0)) implies self.rs.infer_s_fact(
            self.ctx.w@,
            &self.ctx.st,
            i,
            k,
            self.rs.infer_s@[(i, k, 0, 0)],
        ) by {
            assert(o.rs.infer_s_fact(self.ctx.w@, &self.ctx.st, i, k, o.rs.infer_s@[(i, k, 0, 0)]));
        }
    }
}

// ---- what is kept as a check grows ----

pub broadcast proof fn tc_cs<'x>(a: TypeChecker<'x>, b: TypeChecker<'x>, v: Seq<Clo>)
    requires
        #[trigger] a.ext(&b),
        #[trigger] b.cs_ok(v),
    ensures
        a.cs_ok(v),
        a.cs(v) == b.cs(v),
{
    reveal(TypeChecker::ext);
    a.ctx.w@.lemma_pclos_ext(b.ctx.w@, &a.ctx.st, &b.ctx.st, v);
}

pub broadcast group group_rc {
    tc_cs,
}

} // verus!
