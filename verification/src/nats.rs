//! The literal extensions: arithmetic on natural number literals, and string
//! literals as constructor applications.
use crate::bignum::Nat;
use crate::error::TcError;
use crate::level::NamePtr;
use crate::nbe::{ConstKind, Elim, RigidHead, ValId, Value, SPINE_EMPTY};
use crate::tc::TypeChecker;
use crate::term::{Lvl, Term};
use crate::theory::{ElimT, NatOp, Sig};
use vstd::prelude::*;

verus! {

broadcast use crate::tc::group_tc;

impl Sig {
    /// `v` is a number `k` more than whatever number `t` is.
    pub open spec fn counts(self, v: Term, t: Term, k: nat) -> bool {
        forall|m: nat| #[trigger] self.red(t, Term::Nat(m)) ==> self.red(v, Term::Nat(m + k))
    }

    pub proof fn counts_red(self, v: Term, t: Term, u: Term, k: nat)
        requires
            self.counts(v, t, k),
            self.red(t, u),
        ensures
            self.counts(v, u, k),
    {
        assert forall|m: nat| #[trigger] self.red(u, Term::Nat(m)) implies self.red(v, Term::Nat(m + k)) by {
            Sig::r_trans(self, t, u, Term::Nat(m));
        }
    }

    pub proof fn counts_succ(self, v: Term, n: u32, ls: Seq<Lvl>, a: Term, k: nat)
        requires
            self.counts(v, Term::app(Term::Const(n, ls), a), k),
            self.names@.nat_succ == Some(n),
        ensures
            self.counts(v, a, k + 1),
    {
        assert forall|m: nat| #[trigger] self.red(a, Term::Nat(m)) implies self.red(v, Term::Nat(m + (k + 1))) by {
            Sig::r_succ(self, n, ls, a, m);
            assert(self.red(Term::app(Term::Const(n, ls), a), Term::Nat(m + 1)));
        }
    }
}

impl Sig {
    /// An exponent or a left shift that is not computed.
    pub open spec fn past_bound(op: Option<NatOp>, y: Term) -> bool {
        &&& op == Some(NatOp::Pow) || op == Some(NatOp::Shl)
        &&& y matches Term::Nat(n) && n > 0x100_0000
    }

    /// What the binary primitive `name` gives on two literals, where that is
    /// computed: an exponent or a left shift beyond the bound is not.
    pub open spec fn nat_answer(self, name: u32, x: Term, y: Term) -> Option<Term> {
        match (self.names@.op_of(name), x, y) {
            (Some(op), Term::Nat(m), Term::Nat(n)) => if (op is Pow || op is Shl) && n > 0x100_0000 {
                None
            } else {
                self.op_result(op, m, n)
            },
            _ => None,
        }
    }
}

impl ElimT {
    /// What is at the head of eliminations stays there.
    proof fn lemma_var_headed(h: Term, es: Seq<ElimT>)
        ensures
            ElimT::spine(h, es).var_headed() == h.var_headed(),
        decreases es.len(),
    {
        if es.len() > 0 {
            ElimT::lemma_var_headed(h, es.drop_last());
        }
    }

    /// A variable in the head, or in argument `j`, is one in the whole.
    proof fn lemma_is_open(h: Term, es: Seq<ElimT>, j: int)
        requires
            h.is_open() || 0 <= j < es.len() && es[j] is App && es[j]->App_0.is_open(),
        ensures
            ElimT::spine(h, es).is_open(),
        decreases es.len(),
    {
        if es.len() > 0 {
            if h.is_open() || j < es.len() - 1 {
                ElimT::lemma_is_open(h, es.drop_last(), j);
            }
        }
    }
}

impl Sig {
    /// Reducing an argument reduces the whole.
    proof fn steps_elim(g: Sig, h: Term, es: Seq<ElimT>, j: int, x: Term)
        requires
            0 <= j < es.len(),
            es[j] is App,
            g.steps(es[j]->App_0, x),
        ensures
            g.steps(ElimT::spine(h, es), ElimT::spine(h, es.update(j, ElimT::App(x)))),
        decreases es.len(),
    {
        let fs = es.update(j, ElimT::App(x));
        let u = ElimT::spine(h, es.drop_last());
        if j == es.len() - 1 {
            assert(fs.drop_last() =~= es.drop_last());
            Sig::steps_refl(g, u);
            Sig::steps_app(g, u, es[j]->App_0, u, x);
        } else {
            Sig::steps_elim(g, h, es.drop_last(), j, x);
            assert(fs.drop_last() =~= es.drop_last().update(j, ElimT::App(x)));
            let w = ElimT::spine(h, fs.drop_last());
            match es.last() {
                ElimT::App(a) => {
                    Sig::steps_fun(g, u, a, w);
                },
                ElimT::Proj(n, i) => {
                    Sig::steps_proj(g, n, i, u, w);
                },
            }
        }
    }
}

impl<'x> TypeChecker<'x> {
    /// A variable is found in one of the arguments of a spine.
    pub open spec fn opens(&self, es: Seq<ElimT>) -> bool {
        exists|j: int, x: Term|
            0 <= j < es.len() && (#[trigger] es[j]) is App && #[trigger] self.g().steps(es[j]->App_0, x) && x.is_open()
    }

    /// What is found of a spine with the head `h`.
    proof fn lemma_open_answer(&self, h: Term, es: Seq<ElimT>, b: bool)
        requires
            h.headed(),
            !(h is Lam),
            !h.var_headed(),
            b ==> self.opens(es),
        ensures
            self.ctx.w@.open_answer(ElimT::spine(h, es), b),
    {
        let g = self.g();
        let t = ElimT::spine(h, es);
        if b {
            let (j, x) = choose|j: int, x: Term|
                0 <= j < es.len() && (#[trigger] es[j]) is App && #[trigger] g.steps(es[j]->App_0, x) && x.is_open();
            let fs = es.update(j, ElimT::App(x));
            Sig::steps_elim(g, h, es, j, x);
            ElimT::lemma_is_open(h, fs, j);
            ElimT::lemma_headed(h, fs);
            assert(g.steps(t, ElimT::spine(h, fs)));
        } else {
            Sig::steps_refl(g, t);
            ElimT::lemma_headed(h, es);
            ElimT::lemma_var_headed(h, es);
            assert(g.steps(t, t));
        }
    }

    /// What is found of a reduct is found of what reduces to it.
    proof fn lemma_open_trans(&self, t: Term, u: Term, b: bool)
        requires
            self.g().steps(t, u),
            self.ctx.w@.open_answer(u, b),
        ensures
            self.ctx.w@.open_answer(t, b),
    {
        let g = self.g();
        let w = choose|w: Term| #[trigger]
            g.steps(u, w) && w.headed() && (if b {
                w.is_open()
            } else {
                !w.var_headed()
            });
        Sig::steps_trans(g, t, u, w);
    }

    /// The node of value `v` is a number.
    pub open spec fn is_num(&self, v: ValId) -> bool {
        self.ctx.nb.vals@[v as int] is NatLit
    }

    /// Whether `name` is `Nat.succ` or a binary primitive.
    pub fn nb_is_nat_prim(&self, name: NamePtr) -> (r: bool)
        ensures
            r == self.ctx.names@.is_prim(name),
    {
        self.is_name(self.ctx.names.get().nat_succ, name) || self.nat_op(name).is_some()
    }

    /// The binary primitive a name stands for.
    pub fn nat_op(&self, name: NamePtr) -> (r: Option<NatOp>)
        ensures
            r == self.ctx.names@.op_of(name),
    {
        let nc = self.ctx.names.get();
        if self.is_name(nc.nat_add, name) {
            Some(NatOp::Add)
        } else if self.is_name(nc.nat_sub, name) {
            Some(NatOp::Sub)
        } else if self.is_name(nc.nat_mul, name) {
            Some(NatOp::Mul)
        } else if self.is_name(nc.nat_pow, name) {
            Some(NatOp::Pow)
        } else if self.is_name(nc.nat_mod, name) {
            Some(NatOp::Mod)
        } else if self.is_name(nc.nat_div, name) {
            Some(NatOp::Div)
        } else if self.is_name(nc.nat_beq, name) {
            Some(NatOp::Beq)
        } else if self.is_name(nc.nat_ble, name) {
            Some(NatOp::Ble)
        } else if self.is_name(nc.nat_land, name) {
            Some(NatOp::LAnd)
        } else if self.is_name(nc.nat_lor, name) {
            Some(NatOp::LOr)
        } else if self.is_name(nc.nat_xor, name) {
            Some(NatOp::XOr)
        } else if self.is_name(nc.nat_gcd, name) {
            Some(NatOp::Gcd)
        } else if self.is_name(nc.nat_shl, name) {
            Some(NatOp::Shl)
        } else if self.is_name(nc.nat_shr, name) {
            Some(NatOp::Shr)
        } else {
            None
        }
    }

    /// Whether unfolding this application would walk a literal in unary.
    pub fn nb_nat_defer(&mut self, fuel: u32, depth: u32, name: NamePtr, args: &Vec<ValId>)
        -> (r: Result<bool, TcError>)
        requires
            old(self).wf(),
            old(self).vs_ok(args@),
            Term::bvb_seq(old(self).vs(args@), depth as nat),
        ensures
            final(self).wf(),
            final(self).ext(old(self)),
            r matches Ok(true) ==> args@.len() == 2 && (old(self).ctx.names@.op_of(name) matches Some(op) && (op is Add
                || op is Sub || op is Mul || op is Pow)) && exists|k: nat|
                k >= 256 && #[trigger] final(self).g().red(old(self).v(args@[1]), Term::Nat(k)),
            r matches Err(err) ==> final(self).accounts(old(self), err),
        decreases fuel,
    {
        if fuel == 0 {
            return Err(self.out_of_depth(0));
        }
        let structural_on_second: bool = match self.nat_op(name) {
            Some(NatOp::Add) => true,
            Some(NatOp::Sub) => true,
            Some(NatOp::Mul) => true,
            Some(NatOp::Pow) => true,
            _ => false,
        };
        if !structural_on_second || args.len() != 2 {
            return Ok(false);
        }
        proof {
            assert(self.vs(args@)[1] == self.v(args@[1]));
        }
        let a = self.nb_force(fuel - 1, depth, args[1])?;
        match self.get(a) {
            Value::NatLit { ptr } => {
                let n = self.read_bignum(ptr);
                let big = Nat::from_u32(256);
                Ok(big.le(&n))
            },
            _ => Ok(false),
        }
    }

    /// Answer a `Nat` primitive whose arguments are literals.  `deep` allows
    /// an argument to be reduced to reach its literal; without it only
    /// arguments that are already literals count.
    pub fn nb_nat_red(&mut self, fuel: u32, depth: u32, name: NamePtr, args: &Vec<ValId>, deep: bool,
        Ghost(ls): Ghost<Seq<Lvl>>) -> (r: Result<
        Option<ValId>,
        TcError,
    >)
        requires
            old(self).wf(),
            old(self).vs_ok(args@),
            Term::bvb_seq(old(self).vs(args@), depth as nat),
        ensures
            final(self).wf(),
            final(self).ext(old(self)),
            r matches Ok(Some(x)) ==> final(self).v_ok(x) && final(self).v(x).bvb() == 0 && final(self).g().red(
                Term::apps(Term::Const(name, ls), old(self).vs(args@)),
                final(self).v(x),
            ),
            fuel > 1 && args@.len() == 2 && old(self).is_num(args@[0]) && old(self).is_num(args@[1]) ==> {
                let want = old(self).g().nat_answer(name, old(self).v(args@[0]), old(self).v(args@[1]));
                match r {
                    Ok(Some(x)) => want == Some(final(self).v(x)),
                    Ok(None) => want is None || (old(self).ctx.names@.op_of(name) == Some(NatOp::Shr) && (old(self).v(
                        args@[1],
                    ) matches Term::Nat(n) && n >= 0x1_0000_0000_0000_0000)),
                    Err(e) => e == TcError::Full,
                }
            },
            // the successor of a literal
            fuel > 1 && args@.len() == 1 && old(self).ctx.names@.nat_succ == Some(name) && old(self).is_num(args@[0])
                ==> match r {
                Ok(Some(x)) => old(self).v(args@[0]) matches Term::Nat(n) && final(self).v(x) == Term::Nat(n + 1),
                Ok(None) => false,
                Err(e) => e == TcError::Full,
            },
            // an exponent or a left shift past the bound, whatever the base
            fuel > 1 && args@.len() == 2 && old(self).is_num(args@[1]) && Sig::past_bound(
                old(self).ctx.names@.op_of(name),
                old(self).v(args@[1]),
            ) ==> r == Ok::<Option<ValId>, TcError>(None),
            r matches Err(err) ==> final(self).accounts(old(self), err),
        decreases fuel,
    {
        if fuel == 0 {
            return Err(self.out_of_depth(0));
        }
        let ghost g = self.g();
        let ghost xs = self.vs(args@);
        let ghost hd = Term::Const(name, ls);
        proof {
            self.lemma_base();
            reveal_with_fuel(Term::apps, 3);
        }
        if args.len() == 1 && self.is_name(self.ctx.names.get().nat_succ, name) {
            proof {
                assert(xs[0] == self.v(args@[0]));
                assert(xs.drop_last() =~= Seq::empty());
            }
            let n = match self.nb_bignum(fuel - 1, depth, args[0], deep)? {
                Some(n) => n,
                None => {
                    return Ok(None);
                },
            };
            let one = Nat::from_u32(1);
            proof {
                Sig::r_succ(g, name, ls, xs[0], n@);
            }
            let r = self.nb_mk_nat(&n.plus(&one))?;
            return Ok(Some(r));
        }
        if args.len() != 2 {
            return Ok(None);
        }
        let op = match self.nat_op(name) {
            Some(op) => op,
            None => {
                return Ok(None);
            },
        };
        proof {
            assert(xs[0] == self.v(args@[0]));
            assert(xs[1] == self.v(args@[1]));
            assert(xs.drop_last().drop_last() =~= Seq::empty());
            assert(Term::apps(hd, xs) == Term::app(Term::app(hd, xs[0]), xs[1])) by {
                assert(xs.drop_last().last() == xs[0]);
            }
        }
        let y = match self.nb_bignum(fuel - 1, depth, args[1], deep)? {
            Some(n) => n,
            None => {
                return Ok(None);
            },
        };
        // the exponent and shift bounds are checked before the base is read
        if op == NatOp::Pow || op == NatOp::Shl {
            let bound = Nat::from_u32(0x100_0000);
            if !y.le(&bound) {
                return Ok(None);
            }
        }
        let x = match self.nb_bignum(fuel - 1, depth, args[0], deep)? {
            Some(n) => n,
            None => {
                return Ok(None);
            },
        };
        let r = self.nb_op_result(op, &x, &y)?;
        proof {
            if r is Some {
                Sig::r_natop(g, name, ls, op, xs[0], xs[1], x@, y@, self.v(r->0));
            }
        }
        Ok(r)
    }

    /// What a binary primitive gives on two numbers.
    fn nb_op_result(&mut self, op: NatOp, x: &Nat, y: &Nat) -> (r: Result<Option<ValId>, TcError>)
        requires
            old(self).wf(),
            x.wf(),
            y.wf(),
            (op is Pow || op is Shl) ==> y@ <= 0x100_0000,
        ensures
            final(self).wf(),
            final(self).ext(old(self)),
            match r {
                Ok(Some(v)) => final(self).v_ok(v) && final(self).v(v).bvb() == 0
                    && final(self).g().op_result(op, x@, y@)
                    == Some(final(self).v(v)),
                Ok(None) => final(self).g().op_result(op, x@, y@) is None || op is Shr && y@
                    >= 0x1_0000_0000_0000_0000,
                Err(e) => e == TcError::Full,
            },
            r matches Err(err) ==> !(err is Reject) && final(self).ran_out(old(self)),
    {
        let n: Nat = match op {
            NatOp::Add => x.plus(y),
            NatOp::Sub => x.minus(y),
            NatOp::Mul => x.times(y),
            NatOp::Pow => match y.to_u64() {
                Some(e) => x.power(e as u32),
                None => {
                    return Ok(None);
                },
            },
            NatOp::Div => x.quotient(y),
            NatOp::Mod => x.remainder(y),
            NatOp::Gcd => x.gcd(y),
            NatOp::LAnd => x.land(y),
            NatOp::LOr => x.lor(y),
            NatOp::XOr => x.xor(y),
            NatOp::Shl => match y.to_u64() {
                Some(e) => x.shl(e as u32),
                None => {
                    return Ok(None);
                },
            },
            NatOp::Shr => match x.shr(y) {
                Some(n) => n,
                None => {
                    return Ok(None);
                },
            },
            NatOp::Beq => {
                return self.nb_mk_bool(x.same(y));
            },
            NatOp::Ble => {
                return self.nb_mk_bool(x.le(y));
            },
        };
        let r = self.nb_mk_nat(&n)?;
        Ok(Some(r))
    }

    fn nb_mk_nat(&mut self, n: &Nat) -> (r: Result<ValId, TcError>)
        requires
            old(self).wf(),
            n.wf(),
        ensures
            final(self).wf(),
            final(self).ext(old(self)),
            r matches Ok(v) ==> final(self).v_ok(v) && final(self).v(v) == Term::Nat(n@),
            r matches Err(e) ==> e == TcError::Full,
            r matches Err(err) ==> !(err is Reject) && final(self).ran_out(old(self)),
    {
        let p = self.alloc_bignum(n)?;
        self.mk_nat(p)
    }

    fn nb_mk_bool(&mut self, b: bool) -> (r: Result<Option<ValId>, TcError>)
        requires
            old(self).wf(),
        ensures
            final(self).wf(),
            final(self).ext(old(self)),
            match r {
                Ok(Some(v)) => final(self).v_ok(v) && final(self).v(v).bvb() == 0
                    && final(self).g().bool_const(b) == Some(
                    final(self).v(v),
                ),
                Ok(None) => final(self).g().bool_const(b) is None,
                Err(e) => e == TcError::Full,
            },
            r matches Err(err) ==> !(err is Reject) && final(self).ran_out(old(self)),
    {
        proof {
            self.lemma_base();
        }
        let o = if b {
            self.ctx.names.get().bool_true
        } else {
            self.ctx.names.get().bool_false
        };
        match o {
            Some(name) => {
                let levels = self.no_levels()?;
                proof {
                    self.lemma_base();
                }
                let v = self.mk_rigid(RigidHead::Const(ConstKind::Ctor, name, levels), SPINE_EMPTY)?;
                Ok(Some(v))
            },
            None => Ok(None),
        }
    }

    /// The natural number a value denotes, counting `Nat.succ` applications
    /// down to a literal or `Nat.zero`.
    pub fn nb_bignum(&mut self, fuel: u32, depth: u32, v: ValId, deep: bool) -> (r: Result<Option<Nat>, TcError>)
        requires
            old(self).wf(),
            old(self).v_ok(v),
            old(self).v(v).bvb() <= depth,
        ensures
            final(self).wf(),
            final(self).ext(old(self)),
            r matches Ok(Some(n)) ==> n.wf() && final(self).g().red(old(self).v(v), Term::Nat(n@)),
            fuel > 0 && old(self).is_num(v)
                ==> (r matches Ok(Some(n)) && old(self).v(v) == Term::Nat(n@)) && *final(self)
                == *old(self),
            r matches Err(err) ==> final(self).accounts(old(self), err),
        decreases fuel,
    {
        if fuel == 0 {
            return Err(self.out_of_depth(0));
        }
        let ghost o = *self;
        let ghost g = self.g();
        let ghost t = self.v(v);
        let mut succs: u64 = 0;
        let mut cur: ValId = self.nb_force(fuel - 1, depth, v)?;
        let mut left: u64 = u64::MAX;
        proof {
            assert(g.counts(t, t, 0));
            g.counts_red(t, t, self.v(cur), 0);
        }
        loop
            invariant
                o == *old(self),
                o.wf(),
                self.wf(),
                self.ext(&o),
                g == o.g(),
                fuel > 0,
                t == o.v(v),
                self.v_ok(cur),
                self.v(cur).bvb() <= depth,
                g.counts(t, self.v(cur), succs as nat),
                o.is_num(v) ==> cur == v && *self == o && succs == 0 && left == u64::MAX,
            decreases left,
        {
            if left == 0 || succs == u64::MAX {
                return Err(self.out_of_depth(0));
            }
            left -= 1;
            let ghost u = self.v(cur);
            proof {
                self.lemma_base();
            }
            match self.get(cur) {
                Value::NatLit { ptr } => {
                    let n = self.read_bignum(ptr);
                    let k = Nat::from_u64(succs);
                    proof {
                        Sig::steps_refl(g, u);
                        assert(g.red(u, Term::Nat(n@)));
                    }
                    return Ok(Some(n.plus(&k)));
                },
                Value::Rigid { head: RigidHead::Const(kind, name, levels), spine } => {
                    match kind {
                        ConstKind::Ctor => {
                            let ghost ls = self.ctx.st.ls(levels);
                            if self.is_name(self.ctx.names.get().nat_zero, name) && self.spine_len(spine) == 0 {
                                proof {
                                    Sig::r_zero(g, name, ls);
                                    assert(g.red(u, Term::Nat(0)));
                                }
                                return Ok(Some(Nat::from_u64(succs)));
                            }
                            if self.is_name(self.ctx.names.get().nat_succ, name) && self.spine_len(spine) == 1 {
                                if let Some(Elim::App(a)) = self.spine_get(spine, 0) {
                                    let ghost x = self.v(a);
                                    proof {
                                        let es = self.ctx.w@.s(spine);
                                        assert(es =~= seq![ElimT::App(x)]);
                                        ElimT::lemma_spine_push(Term::Const(name, ls), Seq::empty(), ElimT::App(x));
                                        assert(Seq::<ElimT>::empty().push(ElimT::App(x)) =~= es);
                                        g.counts_succ(t, name, ls, x, succs as nat);
                                    }
                                    succs += 1;
                                    cur = self.nb_force(fuel - 1, depth, a)?;
                                    proof {
                                        g.counts_red(t, x, self.v(cur), succs as nat);
                                    }
                                    continue;
                                }
                            }
                            return Ok(None);
                        },
                        ConstKind::Recursor => {},
                        ConstKind::QuotConst => {},
                        _ => {
                            return Ok(None);
                        },
                    }
                },
                Value::Unfold { forced, .. } => {
                    if let Some(f) = forced {
                        if f != cur {
                            proof {
                                g.counts_red(t, u, self.v(f), succs as nat);
                            }
                            cur = f;
                            continue;
                        }
                    }
                },
                _ => {
                    return Ok(None);
                },
            }
            if !deep {
                return Ok(None);
            }
            if self.nb_is_open(fuel - 1, depth, cur)? {
                return Ok(None);
            }
            let f = self.nb_whnf(fuel - 1, depth, cur)?;
            if f == cur {
                return Ok(None);
            }
            proof {
                g.counts_red(t, u, self.v(f), succs as nat);
            }
            cur = f;
        }
    }

    /// Whether an opened binder or a free variable heads a value or an
    /// argument of it.  A value that has none can be reduced without risk of
    /// getting stuck on one.
    pub fn nb_is_open(&mut self, fuel: u32, depth: u32, v: ValId) -> (r: Result<bool, TcError>)
        requires
            old(self).wf(),
            old(self).v_ok(v),
            old(self).v(v).bvb() <= depth,
        ensures
            final(self).wf(),
            final(self).ext(old(self)),
            r matches Ok(b) ==> final(self).ctx.w@.open_answer(old(self).v(v), b),
            r matches Err(err) ==> final(self).accounts(old(self), err),
        decreases fuel,
    {
        if fuel == 0 {
            return Err(self.out_of_depth(0));
        }
        let ghost g = self.g();
        let ghost t = self.v(v);
        let v = self.nb_force(fuel - 1, depth, v)?;
        let ghost u = self.v(v);
        match self.recall_open(v) {
            Some(b) => {
                proof {
                    self.lemma_open_trans(t, u, b);
                }
                return Ok(b);
            },
            None => {},
        }
        proof {
            Sig::steps_refl(g, u);
        }
        let r: bool = match self.get(v) {
            Value::Rigid { head, spine } => {
                let ghost hd = self.ctx.w@.head(&self.ctx.st, head);
                let ghost es = self.ctx.w@.s(spine);
                match head {
                    RigidHead::Const(_, _, _) => {
                        proof {
                            ElimT::lemma_spine_bvb(hd, es);
                        }
                        let b = self.nb_spine_open(fuel - 1, depth, spine)?;
                        proof {
                            self.lemma_open_answer(hd, es, b);
                        }
                        b
                    },
                    _ => {
                        proof {
                            ElimT::lemma_headed(hd, es);
                            ElimT::lemma_is_open(hd, es, 0);
                        }
                        true
                    },
                }
            },
            Value::Unfold { name, levels, spine, .. } => {
                let ghost hd = Term::Const(name, self.ctx.st.ls(levels));
                let ghost es = self.ctx.w@.s(spine);
                proof {
                    ElimT::lemma_spine_bvb(hd, es);
                }
                let b = self.nb_spine_open(fuel - 1, depth, spine)?;
                proof {
                    self.lemma_open_answer(hd, es, b);
                }
                b
            },
            _ => false,
        };
        self.note_open(v, r);
        proof {
            self.lemma_open_trans(t, u, r);
        }
        Ok(r)
    }

    fn nb_spine_open(&mut self, fuel: u32, depth: u32, spine: crate::nbe::SpineId) -> (r: Result<bool, TcError>)
        requires
            old(self).wf(),
            old(self).ctx.w@.s_ok(spine),
            forall|j: int|
                0 <= j < old(self).ctx.w@.s(spine).len()
                    ==> (#[trigger] old(self).ctx.w@.s(spine)[j] matches ElimT::App(
                    a,
                ) ==> a.bvb() <= depth),
        ensures
            final(self).wf(),
            final(self).ext(old(self)),
            r matches Ok(b) ==> (b ==> final(self).opens(old(self).ctx.w@.s(spine))),
            r matches Err(err) ==> final(self).accounts(old(self), err),
        decreases fuel,
    {
        if fuel == 0 {
            return Err(self.out_of_depth(0));
        }
        let ghost o = *self;
        let ghost es = self.ctx.w@.s(spine);
        let elims = self.spine_to_vec(spine);
        let mut i: usize = 0;
        while i < elims.len()
            invariant
                o == *old(self),
                o.wf(),
                self.wf(),
                self.ext(&o),
                fuel > 0,
                es == o.ctx.w@.s(spine),
                o.ctx.elims(elims@) == es,
                elims@.len() == es.len(),
                forall|j: int|
                    0 <= j < elims@.len() ==> o.ctx.w@.elim_ok(#[trigger] elims@[j], o.ctx.w@.stime(spine)),
                forall|j: int|
                    0 <= j < es.len() ==> (#[trigger] es[j] matches ElimT::App(a) ==> a.bvb() <= depth),
                i <= elims@.len(),
            decreases elims@.len() - i,
        {
            proof {
                assert(es[i as int] == o.ctx.w@.elim(elims@[i as int]));
                assert(o.ctx.w@.elim_ok(elims@[i as int], o.ctx.w@.stime(spine)));
            }
            if let Elim::App(a) = elims[i] {
                if self.nb_is_open(fuel - 1, depth, a)? {
                    proof {
                        assert(es[i as int] is App);
                    }
                    return Ok(true);
                }
            }
            i += 1;
        }
        Ok(false)
    }
}

} // verus!
