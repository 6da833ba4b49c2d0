//! Terms and universe levels as mathematical objects.
//!
//! Every executable structure of the crate denotes a [`Term`]: an interned
//! expression denotes one directly, a closure denotes an expression under a
//! substitution, a value denotes the term it evaluates.  Loose variables are
//! de Bruijn indices, opened binders are named by [`Term::Local`] (during
//! inference) or [`Term::BV`] (during conversion).
use vstd::prelude::*;

verus! {

/// How a binder is written in source; it plays no part in typing.
#[derive(Clone, Copy, PartialEq, Eq, Structural, Debug)]
pub enum BinderStyle {
    Default,
    Implicit,
    StrictImplicit,
    InstanceImplicit,
}

/// The identity of a free variable.
#[derive(Clone, Copy, PartialEq, Eq, Structural, Debug)]
pub enum FVarId {
    /// Named by the depth at which its binder was opened.
    DbjLevel(u32),
    /// Named by a counter.
    Unique(u32),
}

/// Universe levels.
pub enum Lvl {
    Zero,
    Succ(Box<Lvl>),
    Max(Box<Lvl>, Box<Lvl>),
    IMax(Box<Lvl>, Box<Lvl>),
    Param(u32),
}

/// Terms.
pub enum Term {
    Var(nat),
    Sort(Lvl),
    Const(u32, Seq<Lvl>),
    App(Box<Term>, Box<Term>),
    Lam(u32, BinderStyle, Box<Term>, Box<Term>),
    Pi(u32, BinderStyle, Box<Term>, Box<Term>),
    Let(u32, bool, Box<Term>, Box<Term>, Box<Term>),
    Proj(u32, nat, Box<Term>),
    Nat(nat),
    Str(Seq<u32>),
    Local(FVarId, u32, BinderStyle, Box<Term>),
    BV(nat, Box<Term>),
}

impl Lvl {
    // ---- levels ----

    /// The natural number a level denotes once its parameters are given.
    pub open spec fn eval(self, v: spec_fn(u32) -> nat) -> nat
        decreases self,
    {
        match self {
            Lvl::Zero => 0,
            Lvl::Succ(a) => a.eval(v) + 1,
            Lvl::Max(a, b) => Term::max(a.eval(v), b.eval(v)),
            Lvl::IMax(a, b) => if b.eval(v) == 0 {
                0
            } else {
                Term::max(a.eval(v), b.eval(v))
            },
            Lvl::Param(n) => v(n),
        }
    }

    /// Two levels denote the same number whatever their parameters stand for.
    pub open spec fn equiv(self, b: Lvl) -> bool {
        forall|v: spec_fn(u32) -> nat| #[trigger] self.eval(v) == b.eval(v)
    }

    pub open spec fn equiv_seq(a: Seq<Lvl>, b: Seq<Lvl>) -> bool {
        a.len() == b.len() && forall|i: int| 0 <= i < a.len() ==> a[i].equiv(b[i])
    }

    /// The level denotes zero whatever its parameters stand for.
    pub open spec fn is_zero(self) -> bool {
        forall|v: spec_fn(u32) -> nat| #[trigger] self.eval(v) == 0
    }

    /// The level denotes zero for some choice of its parameters.
    pub open spec fn may_be_zero(self) -> bool {
        exists|v: spec_fn(u32) -> nat| #[trigger] self.eval(v) == 0
    }

    /// `l` with the parameters `ks` replaced by `vs`.
    pub open spec fn subst(self, ks: Seq<Lvl>, vs: Seq<Lvl>) -> Lvl
        decreases self,
    {
        match self {
            Lvl::Zero => self,
            Lvl::Succ(a) => Lvl::Succ(Box::new(a.subst(ks, vs))),
            Lvl::Max(a, b) => Lvl::Max(Box::new(a.subst(ks, vs)), Box::new(b.subst(ks, vs))),
            Lvl::IMax(a, b) => Lvl::IMax(Box::new(a.subst(ks, vs)), Box::new(b.subst(ks, vs))),
            Lvl::Param(_) => if ks.contains(self) && ks.index_of_first(self).unwrap() < vs.len() {
                vs[ks.index_of_first(self).unwrap()]
            } else {
                self
            },
        }
    }

    pub open spec fn subst_seq(ls: Seq<Lvl>, ks: Seq<Lvl>, vs: Seq<Lvl>) -> Seq<Lvl> {
        Seq::new(ls.len(), |i: int| ls[i].subst(ks, vs))
    }
}

impl Term {
    pub open spec fn max(a: nat, b: nat) -> nat {
        if a >= b { a } else { b }
    }

    pub open spec fn pred(a: nat) -> nat {
        if a == 0 { 0 } else { (a - 1) as nat }
    }

    /// `f a`
    pub open spec fn app(f: Term, a: Term) -> Term {
        Term::App(Box::new(f), Box::new(a))
    }

    /// `f a_0 .. a_n`
    pub open spec fn apps(f: Term, args: Seq<Term>) -> Term
        decreases args.len(),
    {
        if args.len() == 0 { f } else { Term::app(Term::apps(f, args.drop_last()), args.last()) }
    }

    /// One past the highest loose variable of `t`.
    pub open spec fn nl(self) -> nat
        decreases self,
    {
        match self {
            Term::Var(i) => i + 1,
            Term::App(f, a) => Term::max(f.nl(), a.nl()),
            Term::Lam(_, _, a, b) => Term::max(a.nl(), Term::pred(b.nl())),
            Term::Pi(_, _, a, b) => Term::max(a.nl(), Term::pred(b.nl())),
            Term::Let(_, _, a, v, b) => Term::max(Term::max(a.nl(), v.nl()), Term::pred(b.nl())),
            Term::Proj(_, _, s) => s.nl(),
            _ => 0,
        }
    }

    /// `t` with its loose variables from `k` on replaced by the entries of `s`,
    /// innermost first.
    pub open spec fn inst(self, k: nat, s: Seq<Term>) -> Term
        decreases self,
    {
        match self {
            Term::Var(i) => if i < k {
                self
            } else if i - k < s.len() {
                s[i - k]
            } else {
                Term::Var((i - s.len()) as nat)
            },
            Term::App(f, a) => Term::app(f.inst(k, s), a.inst(k, s)),
            Term::Lam(n, b, a, e) => Term::Lam(
                n,
                b,
                Box::new(a.inst(k, s)),
                Box::new(e.inst(k + 1, s)),
            ),
            Term::Pi(n, b, a, e) => Term::Pi(
                n,
                b,
                Box::new(a.inst(k, s)),
                Box::new(e.inst(k + 1, s)),
            ),
            Term::Let(n, d, a, v, e) => Term::Let(
                n,
                d,
                Box::new(a.inst(k, s)),
                Box::new(v.inst(k, s)),
                Box::new(e.inst(k + 1, s)),
            ),
            Term::Proj(n, i, e) => Term::Proj(n, i, Box::new(e.inst(k, s))),
            _ => self,
        }
    }

    /// Every entry of a substitution is closed.
    pub open spec fn closed_seq(s: Seq<Term>) -> bool {
        forall|i: int| 0 <= i < s.len() ==> s[i].nl() == 0
    }

    /// A term without loose variables from `k` on is untouched by instantiation.
    pub proof fn lemma_inst_closed(t: Term, k: nat, s: Seq<Term>)
        requires
            t.nl() <= k,
        ensures
            t.inst(k, s) == t,
        decreases t,
    {
        match t {
            Term::App(f, a) => {
                Term::lemma_inst_closed(*f, k, s);
                Term::lemma_inst_closed(*a, k, s);
            },
            Term::Lam(_, _, a, b) => {
                Term::lemma_inst_closed(*a, k, s);
                Term::lemma_inst_closed(*b, k + 1, s);
            },
            Term::Pi(_, _, a, b) => {
                Term::lemma_inst_closed(*a, k, s);
                Term::lemma_inst_closed(*b, k + 1, s);
            },
            Term::Let(_, _, a, v, b) => {
                Term::lemma_inst_closed(*a, k, s);
                Term::lemma_inst_closed(*v, k, s);
                Term::lemma_inst_closed(*b, k + 1, s);
            },
            Term::Proj(_, _, e) => {
                Term::lemma_inst_closed(*e, k, s);
            },
            _ => {},
        }
    }

    /// Instantiating with closed terms removes the variables it replaces.
    pub proof fn lemma_inst_nl(t: Term, k: nat, s: Seq<Term>)
        requires
            Term::closed_seq(s),
            t.nl() <= k + s.len(),
        ensures
            t.inst(k, s).nl() <= k,
        decreases t,
    {
        match t {
            Term::App(f, a) => {
                Term::lemma_inst_nl(*f, k, s);
                Term::lemma_inst_nl(*a, k, s);
            },
            Term::Lam(_, _, a, b) => {
                Term::lemma_inst_nl(*a, k, s);
                Term::lemma_inst_nl(*b, k + 1, s);
            },
            Term::Pi(_, _, a, b) => {
                Term::lemma_inst_nl(*a, k, s);
                Term::lemma_inst_nl(*b, k + 1, s);
            },
            Term::Let(_, _, a, v, b) => {
                Term::lemma_inst_nl(*a, k, s);
                Term::lemma_inst_nl(*v, k, s);
                Term::lemma_inst_nl(*b, k + 1, s);
            },
            Term::Proj(_, _, e) => {
                Term::lemma_inst_nl(*e, k, s);
            },
            _ => {},
        }
    }

    /// Two instantiations in a row are one: the outer variables first, then the
    /// inner ones.
    pub proof fn lemma_inst_inst(t: Term, k: nat, r: Seq<Term>, s: Seq<Term>)
        requires
            Term::closed_seq(s),
            t.nl() <= k + r.len() + s.len(),
        ensures
            t.inst(k + r.len(), s).inst(k, r) == t.inst(k, r + s),
        decreases t,
    {
        match t {
            Term::Var(i) => {
                if i < k + r.len() {
                } else {
                    let j = (i - (k + r.len())) as int;
                    assert(t.inst(k + r.len(), s) == s[j]);
                    Term::lemma_inst_closed(s[j], k, r);
                    assert((r + s)[i - k] == s[j]);
                }
            },
            Term::App(f, a) => {
                Term::lemma_inst_inst(*f, k, r, s);
                Term::lemma_inst_inst(*a, k, r, s);
            },
            Term::Lam(_, _, a, b) => {
                Term::lemma_inst_inst(*a, k, r, s);
                Term::lemma_inst_inst(*b, k + 1, r, s);
            },
            Term::Pi(_, _, a, b) => {
                Term::lemma_inst_inst(*a, k, r, s);
                Term::lemma_inst_inst(*b, k + 1, r, s);
            },
            Term::Let(_, _, a, v, b) => {
                Term::lemma_inst_inst(*a, k, r, s);
                Term::lemma_inst_inst(*v, k, r, s);
                Term::lemma_inst_inst(*b, k + 1, r, s);
            },
            Term::Proj(_, _, e) => {
                Term::lemma_inst_inst(*e, k, r, s);
            },
            _ => {},
        }
    }

    /// Opening a binder under a substitution extends the substitution.
    pub proof fn lemma_inst_open(t: Term, a: Term, s: Seq<Term>)
        requires
            Term::closed_seq(s),
            t.nl() <= 1 + s.len(),
        ensures
            t.inst(1, s).inst(0, seq![a]) == t.inst(0, seq![a] + s),
    {
        Term::lemma_inst_inst(t, 0, seq![a], s);
    }

    // ---- variables occurring in a term ----

    /// One past the highest conversion variable of `t`.
    pub open spec fn bvb(self) -> nat
        decreases self,
    {
        match self {
            Term::BV(d, ty) => Term::max(d + 1, ty.bvb()),
            Term::App(f, a) => Term::max(f.bvb(), a.bvb()),
            Term::Lam(_, _, a, b) => Term::max(a.bvb(), b.bvb()),
            Term::Pi(_, _, a, b) => Term::max(a.bvb(), b.bvb()),
            Term::Let(_, _, a, v, b) => Term::max(Term::max(a.bvb(), v.bvb()), b.bvb()),
            Term::Proj(_, _, s) => s.bvb(),
            Term::Local(_, _, _, ty) => ty.bvb(),
            _ => 0,
        }
    }

    /// One past the highest de Bruijn level of a free variable of `t`.
    pub open spec fn ml(self) -> nat
        decreases self,
    {
        match self {
            Term::BV(_, ty) => ty.ml(),
            Term::App(f, a) => Term::max(f.ml(), a.ml()),
            Term::Lam(_, _, a, b) => Term::max(a.ml(), b.ml()),
            Term::Pi(_, _, a, b) => Term::max(a.ml(), b.ml()),
            Term::Let(_, _, a, v, b) => Term::max(Term::max(a.ml(), v.ml()), b.ml()),
            Term::Proj(_, _, s) => s.ml(),
            Term::Local(FVarId::DbjLevel(l), _, _, ty) => Term::max(ty.ml(), l as nat + 1),
            Term::Local(FVarId::Unique(_), _, _, ty) => ty.ml(),
            _ => 0,
        }
    }

    /// One past the highest counter of a free variable of `t`.
    pub open spec fn ub(self) -> nat
        decreases self,
    {
        match self {
            Term::BV(_, ty) => ty.ub(),
            Term::App(f, a) => Term::max(f.ub(), a.ub()),
            Term::Lam(_, _, a, b) => Term::max(a.ub(), b.ub()),
            Term::Pi(_, _, a, b) => Term::max(a.ub(), b.ub()),
            Term::Let(_, _, a, v, b) => Term::max(Term::max(a.ub(), v.ub()), b.ub()),
            Term::Proj(_, _, s) => s.ub(),
            Term::Local(FVarId::Unique(u), _, _, ty) => Term::max(ty.ub(), u as nat + 1),
            Term::Local(FVarId::DbjLevel(_), _, _, ty) => ty.ub(),
            _ => 0,
        }
    }

    /// A free variable occurs in `t`.
    pub open spec fn has_fv(self) -> bool
        decreases self,
    {
        match self {
            Term::App(f, a) => f.has_fv() || a.has_fv(),
            Term::Lam(_, _, a, b) => a.has_fv() || b.has_fv(),
            Term::Pi(_, _, a, b) => a.has_fv() || b.has_fv(),
            Term::Let(_, _, a, v, b) => a.has_fv() || v.has_fv() || b.has_fv(),
            Term::Proj(_, _, s) => s.has_fv(),
            Term::Local(..) => true,
            _ => false,
        }
    }

    /// Without a free variable there is no level.
    pub proof fn lemma_no_fv_ml(t: Term)
        requires
            !t.has_fv(),
            t.bvb() == 0,
        ensures
            t.ml() == 0,
            t.ub() == 0,
        decreases t,
    {
        match t {
            Term::App(f, a) => {
                Term::lemma_no_fv_ml(*f);
                Term::lemma_no_fv_ml(*a);
            },
            Term::Lam(_, _, a, b) => {
                Term::lemma_no_fv_ml(*a);
                Term::lemma_no_fv_ml(*b);
            },
            Term::Pi(_, _, a, b) => {
                Term::lemma_no_fv_ml(*a);
                Term::lemma_no_fv_ml(*b);
            },
            Term::Let(_, _, a, v, b) => {
                Term::lemma_no_fv_ml(*a);
                Term::lemma_no_fv_ml(*v);
                Term::lemma_no_fv_ml(*b);
            },
            Term::Proj(_, _, e) => {
                Term::lemma_no_fv_ml(*e);
            },
            _ => {},
        }
    }

    /// The variable `x` does not occur in `t`.
    pub open spec fn fresh(x: Term, t: Term) -> bool {
        match x {
            Term::BV(d, _) => t.bvb() <= d,
            Term::Local(FVarId::DbjLevel(l), _, _, _) => t.ml() <= l,
            Term::Local(FVarId::Unique(u), _, _, _) => t.ub() <= u,
            _ => false,
        }
    }

    pub open spec fn bvb_seq(s: Seq<Term>, n: nat) -> bool {
        forall|i: int| 0 <= i < s.len() ==> s[i].bvb() <= n
    }

    pub open spec fn ml_seq(s: Seq<Term>, n: nat) -> bool {
        forall|i: int| 0 <= i < s.len() ==> s[i].ml() <= n
    }

    /// Instantiation introduces no conversion variable of its own.
    pub proof fn lemma_inst_bvb(t: Term, k: nat, s: Seq<Term>, n: nat)
        requires
            t.bvb() <= n,
            Term::bvb_seq(s, n),
        ensures
            t.inst(k, s).bvb() <= n,
        decreases t,
    {
        match t {
            Term::App(f, a) => {
                Term::lemma_inst_bvb(*f, k, s, n);
                Term::lemma_inst_bvb(*a, k, s, n);
            },
            Term::Lam(_, _, a, b) => {
                Term::lemma_inst_bvb(*a, k, s, n);
                Term::lemma_inst_bvb(*b, k + 1, s, n);
            },
            Term::Pi(_, _, a, b) => {
                Term::lemma_inst_bvb(*a, k, s, n);
                Term::lemma_inst_bvb(*b, k + 1, s, n);
            },
            Term::Let(_, _, a, v, b) => {
                Term::lemma_inst_bvb(*a, k, s, n);
                Term::lemma_inst_bvb(*v, k, s, n);
                Term::lemma_inst_bvb(*b, k + 1, s, n);
            },
            Term::Proj(_, _, e) => {
                Term::lemma_inst_bvb(*e, k, s, n);
            },
            _ => {},
        }
    }

    /// Instantiation introduces no free variable of its own.
    pub proof fn lemma_inst_ml(t: Term, k: nat, s: Seq<Term>, n: nat)
        requires
            t.ml() <= n,
            Term::ml_seq(s, n),
        ensures
            t.inst(k, s).ml() <= n,
        decreases t,
    {
        match t {
            Term::App(f, a) => {
                Term::lemma_inst_ml(*f, k, s, n);
                Term::lemma_inst_ml(*a, k, s, n);
            },
            Term::Lam(_, _, a, b) => {
                Term::lemma_inst_ml(*a, k, s, n);
                Term::lemma_inst_ml(*b, k + 1, s, n);
            },
            Term::Pi(_, _, a, b) => {
                Term::lemma_inst_ml(*a, k, s, n);
                Term::lemma_inst_ml(*b, k + 1, s, n);
            },
            Term::Let(_, _, a, v, b) => {
                Term::lemma_inst_ml(*a, k, s, n);
                Term::lemma_inst_ml(*v, k, s, n);
                Term::lemma_inst_ml(*b, k + 1, s, n);
            },
            Term::Proj(_, _, e) => {
                Term::lemma_inst_ml(*e, k, s, n);
            },
            _ => {},
        }
    }

    // ---- equality up to what typing ignores ----

    /// `a` and `b` differ at most in binder names and styles, in the dependency
    /// flag of a `let`, and in the type recorded on a conversion variable.
    pub open spec fn same(self, b: Term) -> bool
        decreases self,
    {
        match (self, b) {
            (Term::Lam(_, _, a1, b1), Term::Lam(_, _, a2, b2)) => a1.same(*a2) && b1.same(*b2),
            (Term::Pi(_, _, a1, b1), Term::Pi(_, _, a2, b2)) => a1.same(*a2) && b1.same(*b2),
            (Term::Let(_, _, a1, v1, b1), Term::Let(_, _, a2, v2, b2)) => a1.same(*a2) && v1.same(*v2,
            ) && b1.same(*b2),
            (Term::App(f1, a1), Term::App(f2, a2)) => f1.same(*f2) && a1.same(*a2),
            (Term::Proj(n1, i1, e1), Term::Proj(n2, i2, e2)) => n1 == n2 && i1 == i2 && e1.same(*e2),
            (Term::BV(d1, _), Term::BV(d2, _)) => d1 == d2,
            _ => self == b,
        }
    }

    pub proof fn lemma_same_refl(a: Term)
        ensures
            a.same(a),
        decreases a,
    {
        match a {
            Term::App(f, x) => {
                Term::lemma_same_refl(*f);
                Term::lemma_same_refl(*x);
            },
            Term::Lam(_, _, x, y) => {
                Term::lemma_same_refl(*x);
                Term::lemma_same_refl(*y);
            },
            Term::Pi(_, _, x, y) => {
                Term::lemma_same_refl(*x);
                Term::lemma_same_refl(*y);
            },
            Term::Let(_, _, x, v, y) => {
                Term::lemma_same_refl(*x);
                Term::lemma_same_refl(*v);
                Term::lemma_same_refl(*y);
            },
            Term::Proj(_, _, e) => {
                Term::lemma_same_refl(*e);
            },
            _ => {},
        }
    }

    pub proof fn lemma_same_sym(a: Term, b: Term)
        requires
            a.same(b),
        ensures
            b.same(a),
        decreases a,
    {
        match (a, b) {
            (Term::App(f, x), Term::App(g, y)) => {
                Term::lemma_same_sym(*f, *g);
                Term::lemma_same_sym(*x, *y);
            },
            (Term::Lam(_, _, f, x), Term::Lam(_, _, g, y)) => {
                Term::lemma_same_sym(*f, *g);
                Term::lemma_same_sym(*x, *y);
            },
            (Term::Pi(_, _, f, x), Term::Pi(_, _, g, y)) => {
                Term::lemma_same_sym(*f, *g);
                Term::lemma_same_sym(*x, *y);
            },
            (Term::Let(_, _, f, v, x), Term::Let(_, _, g, w, y)) => {
                Term::lemma_same_sym(*f, *g);
                Term::lemma_same_sym(*v, *w);
                Term::lemma_same_sym(*x, *y);
            },
            (Term::Proj(_, _, x), Term::Proj(_, _, y)) => {
                Term::lemma_same_sym(*x, *y);
            },
            _ => {},
        }
    }

    // ---- abstraction ----

    /// `t` with the free variables of levels `lo..hi` turned back into loose
    /// variables, the last one innermost, below `k` binders.
    pub open spec fn abstr(self, lo: nat, hi: nat, k: nat) -> Term
        decreases self,
    {
        match self {
            Term::Local(FVarId::DbjLevel(l), _, _, _) => if lo <= l < hi {
                Term::Var((k + (hi - 1 - l)) as nat)
            } else {
                self
            },
            Term::App(f, a) => Term::app(f.abstr(lo, hi, k), a.abstr(lo, hi, k)),
            Term::Lam(n, b, a, e) => Term::Lam(
                n,
                b,
                Box::new(a.abstr(lo, hi, k)),
                Box::new(e.abstr(lo, hi, k + 1)),
            ),
            Term::Pi(n, b, a, e) => Term::Pi(
                n,
                b,
                Box::new(a.abstr(lo, hi, k)),
                Box::new(e.abstr(lo, hi, k + 1)),
            ),
            Term::Let(n, d, a, v, e) => Term::Let(
                n,
                d,
                Box::new(a.abstr(lo, hi, k)),
                Box::new(v.abstr(lo, hi, k)),
                Box::new(e.abstr(lo, hi, k + 1)),
            ),
            Term::Proj(n, i, e) => Term::Proj(n, i, Box::new(e.abstr(lo, hi, k))),
            _ => self,
        }
    }

    /// Without a free variable there is nothing to abstract.
    pub proof fn lemma_abstr_no_fv(t: Term, lo: nat, hi: nat, k: nat)
        requires
            !t.has_fv() || t.ml() <= lo,
        ensures
            t.abstr(lo, hi, k) == t,
        decreases t,
    {
        match t {
            Term::App(f, a) => {
                Term::lemma_abstr_no_fv(*f, lo, hi, k);
                Term::lemma_abstr_no_fv(*a, lo, hi, k);
            },
            Term::Lam(_, _, a, b) => {
                Term::lemma_abstr_no_fv(*a, lo, hi, k);
                Term::lemma_abstr_no_fv(*b, lo, hi, k + 1);
            },
            Term::Pi(_, _, a, b) => {
                Term::lemma_abstr_no_fv(*a, lo, hi, k);
                Term::lemma_abstr_no_fv(*b, lo, hi, k + 1);
            },
            Term::Let(_, _, a, v, b) => {
                Term::lemma_abstr_no_fv(*a, lo, hi, k);
                Term::lemma_abstr_no_fv(*v, lo, hi, k);
                Term::lemma_abstr_no_fv(*b, lo, hi, k + 1);
            },
            Term::Proj(_, _, e) => {
                Term::lemma_abstr_no_fv(*e, lo, hi, k);
            },
            _ => {},
        }
    }

    /// Abstracting the innermost level first and the outer ones after it is
    /// abstracting them all at once.
    pub proof fn lemma_abstr_split(t: Term, lo: nat, l: nat, k: nat)
        requires
            lo <= l,
        ensures
            t.abstr(l, l + 1, k).abstr(lo, l, k + 1) == t.abstr(lo, l + 1, k),
        decreases t,
    {
        match t {
            Term::App(f, a) => {
                Term::lemma_abstr_split(*f, lo, l, k);
                Term::lemma_abstr_split(*a, lo, l, k);
            },
            Term::Lam(_, _, a, b) => {
                Term::lemma_abstr_split(*a, lo, l, k);
                Term::lemma_abstr_split(*b, lo, l, k + 1);
            },
            Term::Pi(_, _, a, b) => {
                Term::lemma_abstr_split(*a, lo, l, k);
                Term::lemma_abstr_split(*b, lo, l, k + 1);
            },
            Term::Let(_, _, a, v, b) => {
                Term::lemma_abstr_split(*a, lo, l, k);
                Term::lemma_abstr_split(*v, lo, l, k);
                Term::lemma_abstr_split(*b, lo, l, k + 1);
            },
            Term::Proj(_, _, e) => {
                Term::lemma_abstr_split(*e, lo, l, k);
            },
            _ => {},
        }
    }

    /// `t` with the level parameters `ks` replaced by `vs`.
    pub open spec fn tsubst(self, ks: Seq<Lvl>, vs: Seq<Lvl>) -> Term
        decreases self,
    {
        match self {
            Term::Sort(l) => Term::Sort(l.subst(ks, vs)),
            Term::Const(n, ls) => Term::Const(n, Lvl::subst_seq(ls, ks, vs)),
            Term::App(f, a) => Term::app(f.tsubst(ks, vs), a.tsubst(ks, vs)),
            Term::Lam(n, b, a, e) => Term::Lam(
                n,
                b,
                Box::new(a.tsubst(ks, vs)),
                Box::new(e.tsubst(ks, vs)),
            ),
            Term::Pi(n, b, a, e) => Term::Pi(
                n,
                b,
                Box::new(a.tsubst(ks, vs)),
                Box::new(e.tsubst(ks, vs)),
            ),
            Term::Let(n, d, a, v, e) => Term::Let(
                n,
                d,
                Box::new(a.tsubst(ks, vs)),
                Box::new(v.tsubst(ks, vs)),
                Box::new(e.tsubst(ks, vs)),
            ),
            Term::Proj(n, i, e) => Term::Proj(n, i, Box::new(e.tsubst(ks, vs))),
            _ => self,
        }
    }

    /// Replacing level parameters leaves the variables of a term alone.
    pub proof fn lemma_tsubst_vars(t: Term, ks: Seq<Lvl>, vs: Seq<Lvl>)
        ensures
            t.tsubst(ks, vs).nl() == t.nl(),
            t.tsubst(ks, vs).bvb() == t.bvb(),
            t.tsubst(ks, vs).ml() == t.ml(),
            t.tsubst(ks, vs).ub() == t.ub(),
            t.tsubst(ks, vs).has_fv() == t.has_fv(),
        decreases t,
    {
        match t {
            Term::App(f, a) => {
                Term::lemma_tsubst_vars(*f, ks, vs);
                Term::lemma_tsubst_vars(*a, ks, vs);
            },
            Term::Lam(_, _, a, b) => {
                Term::lemma_tsubst_vars(*a, ks, vs);
                Term::lemma_tsubst_vars(*b, ks, vs);
            },
            Term::Pi(_, _, a, b) => {
                Term::lemma_tsubst_vars(*a, ks, vs);
                Term::lemma_tsubst_vars(*b, ks, vs);
            },
            Term::Let(_, _, a, v, b) => {
                Term::lemma_tsubst_vars(*a, ks, vs);
                Term::lemma_tsubst_vars(*v, ks, vs);
                Term::lemma_tsubst_vars(*b, ks, vs);
            },
            Term::Proj(_, _, e) => {
                Term::lemma_tsubst_vars(*e, ks, vs);
            },
            _ => {},
        }
    }

    // ---- application spines ----

    pub proof fn lemma_apps_push(f: Term, args: Seq<Term>, a: Term)
        ensures
            Term::apps(f, args.push(a)) == Term::app(Term::apps(f, args), a),
    {
        assert(args.push(a).drop_last() =~= args);
    }

    pub proof fn lemma_apps_append(f: Term, a: Seq<Term>, b: Seq<Term>)
        ensures
            Term::apps(f, a + b) == Term::apps(Term::apps(f, a), b),
        decreases b.len(),
    {
        if b.len() == 0 {
            assert(a + b =~= a);
        } else {
            Term::lemma_apps_append(f, a, b.drop_last());
            assert((a + b).drop_last() =~= a + b.drop_last());
            assert((a + b).last() == b.last());
        }
    }

    pub proof fn lemma_apps_cons(f: Term, a: Term, b: Seq<Term>)
        ensures
            Term::apps(f, seq![a] + b) == Term::apps(Term::app(f, a), b),
    {
        Term::lemma_apps_append(f, seq![a], b);
        assert(seq![a].drop_last() =~= Seq::<Term>::empty());
        assert(Term::apps(f, seq![a]) == Term::app(f, a)) by {
            reveal_with_fuel(Term::apps, 2);
        }
    }

    /// Abstracting an empty range changes nothing.
    pub proof fn lemma_abstr_empty(t: Term, lo: nat, k: nat)
        ensures
            t.abstr(lo, lo, k) == t,
        decreases t,
    {
        match t {
            Term::App(f, a) => {
                Term::lemma_abstr_empty(*f, lo, k);
                Term::lemma_abstr_empty(*a, lo, k);
            },
            Term::Lam(_, _, a, b) => {
                Term::lemma_abstr_empty(*a, lo, k);
                Term::lemma_abstr_empty(*b, lo, k + 1);
            },
            Term::Pi(_, _, a, b) => {
                Term::lemma_abstr_empty(*a, lo, k);
                Term::lemma_abstr_empty(*b, lo, k + 1);
            },
            Term::Let(_, _, a, v, b) => {
                Term::lemma_abstr_empty(*a, lo, k);
                Term::lemma_abstr_empty(*v, lo, k);
                Term::lemma_abstr_empty(*b, lo, k + 1);
            },
            Term::Proj(_, _, s) => {
                Term::lemma_abstr_empty(*s, lo, k);
            },
            _ => {},
        }
    }

    /// Abstraction brings in as many loose variables as it has levels.
    pub proof fn lemma_abstr_nl(t: Term, lo: nat, hi: nat, k: nat)
        requires
            t.nl() <= k,
            lo <= hi,
        ensures
            t.abstr(lo, hi, k).nl() <= k + (hi - lo),
        decreases t,
    {
        match t {
            Term::App(f, a) => {
                Term::lemma_abstr_nl(*f, lo, hi, k);
                Term::lemma_abstr_nl(*a, lo, hi, k);
            },
            Term::Lam(_, _, a, b) => {
                Term::lemma_abstr_nl(*a, lo, hi, k);
                Term::lemma_abstr_nl(*b, lo, hi, k + 1);
            },
            Term::Pi(_, _, a, b) => {
                Term::lemma_abstr_nl(*a, lo, hi, k);
                Term::lemma_abstr_nl(*b, lo, hi, k + 1);
            },
            Term::Let(_, _, a, v, b) => {
                Term::lemma_abstr_nl(*a, lo, hi, k);
                Term::lemma_abstr_nl(*v, lo, hi, k);
                Term::lemma_abstr_nl(*b, lo, hi, k + 1);
            },
            Term::Proj(_, _, s) => {
                Term::lemma_abstr_nl(*s, lo, hi, k);
            },
            _ => {},
        }
    }

    /// The terms of `args` instantiated.
    pub open spec fn inst_seq(args: Seq<Term>, k: nat, s: Seq<Term>) -> Seq<Term> {
        Seq::new(args.len(), |i: int| args[i].inst(k, s))
    }

    /// Instantiating an application.
    pub proof fn lemma_inst_apps(f: Term, args: Seq<Term>, k: nat, s: Seq<Term>)
        ensures
            Term::apps(f, args).inst(k, s) == Term::apps(f.inst(k, s), Term::inst_seq(args, k, s)),
        decreases args.len(),
    {
        if args.len() > 0 {
            Term::lemma_inst_apps(f, args.drop_last(), k, s);
            assert(Term::inst_seq(args, k, s).drop_last() =~= Term::inst_seq(args.drop_last(), k, s));
        }
    }

    /// The conversion variables of an application are those of its parts.
    pub proof fn lemma_apps_bvb(f: Term, args: Seq<Term>, n: nat)
        ensures
            Term::apps(f, args).bvb() <= n <==> f.bvb() <= n && Term::bvb_seq(args, n),
        decreases args.len(),
    {
        if args.len() > 0 {
            Term::lemma_apps_bvb(f, args.drop_last(), n);
            if f.bvb() <= n && Term::bvb_seq(args, n) {
                assert(Term::bvb_seq(args.drop_last(), n));
            }
            if Term::apps(f, args).bvb() <= n {
                assert forall|i: int| 0 <= i < args.len() implies args[i].bvb() <= n by {
                    if i < args.len() - 1 {
                        assert(args.drop_last()[i] == args[i]);
                    }
                }
            }
        }
    }

    /// The loose variables of an application are those of its parts.
    pub proof fn lemma_apps_scope(f: Term, args: Seq<Term>, n: nat)
        ensures
            Term::apps(f, args).nl() <= n <==> f.nl() <= n && forall|i: int| 0 <= i < args.len()
                ==> (#[trigger] args[i]).nl() <= n,
        decreases args.len(),
    {
        if args.len() > 0 {
            let rest = args.drop_last();
            Term::lemma_apps_scope(f, rest, n);
            if Term::apps(f, args).nl() <= n {
                assert forall|i: int| 0 <= i < args.len() implies (#[trigger] args[i]).nl() <= n by {
                    if i < args.len() - 1 {
                        assert(rest[i] == args[i]);
                    }
                }
            }
            if f.nl() <= n && forall|i: int| 0 <= i < args.len() ==> (#[trigger] args[i]).nl() <= n {
                assert forall|i: int| 0 <= i < rest.len() implies (#[trigger] rest[i]).nl() <= n by {
                    assert(rest[i] == args[i]);
                }
            }
        }
    }

    /// Replacing no parameter changes nothing.
    pub proof fn lemma_tsubst_empty(t: Term, ks: Seq<Lvl>, vs: Seq<Lvl>)
        requires
            ks.len() == 0,
        ensures
            t.tsubst(ks, vs) == t,
        decreases t,
    {
        match t {
            Term::Sort(l) => {
                Lvl::lemma_subst_empty(l, ks, vs);
            },
            Term::Const(_, ls) => {
                assert(Lvl::subst_seq(ls, ks, vs) =~= ls) by {
                    assert forall|i: int| 0 <= i < ls.len() implies Lvl::subst_seq(ls, ks, vs)[i] == ls[i] by {
                        Lvl::lemma_subst_empty(ls[i], ks, vs);
                    }
                }
            },
            Term::App(f, a) => {
                Term::lemma_tsubst_empty(*f, ks, vs);
                Term::lemma_tsubst_empty(*a, ks, vs);
            },
            Term::Lam(_, _, a, b) => {
                Term::lemma_tsubst_empty(*a, ks, vs);
                Term::lemma_tsubst_empty(*b, ks, vs);
            },
            Term::Pi(_, _, a, b) => {
                Term::lemma_tsubst_empty(*a, ks, vs);
                Term::lemma_tsubst_empty(*b, ks, vs);
            },
            Term::Let(_, _, a, v, b) => {
                Term::lemma_tsubst_empty(*a, ks, vs);
                Term::lemma_tsubst_empty(*v, ks, vs);
                Term::lemma_tsubst_empty(*b, ks, vs);
            },
            Term::Proj(_, _, s) => {
                Term::lemma_tsubst_empty(*s, ks, vs);
            },
            Term::Local(_, _, _, a) => {
                Term::lemma_tsubst_empty(*a, ks, vs);
            },
            Term::BV(_, a) => {
                Term::lemma_tsubst_empty(*a, ks, vs);
            },
            _ => {},
        }
    }
}

impl Lvl {
    pub proof fn lemma_subst_empty(l: Lvl, ks: Seq<Lvl>, vs: Seq<Lvl>)
        requires
            ks.len() == 0,
        ensures
            l.subst(ks, vs) == l,
        decreases l,
    {
        match l {
            Lvl::Succ(a) => {
                Lvl::lemma_subst_empty(*a, ks, vs);
            },
            Lvl::Max(a, b) => {
                Lvl::lemma_subst_empty(*a, ks, vs);
                Lvl::lemma_subst_empty(*b, ks, vs);
            },
            Lvl::IMax(a, b) => {
                Lvl::lemma_subst_empty(*a, ks, vs);
                Lvl::lemma_subst_empty(*b, ks, vs);
            },
            _ => {},
        }
    }
}

impl Term {
    /// Neither a `let` nor an applied lambda stands at the head.
    pub open spec fn headed(self) -> bool
        decreases self,
    {
        match self {
            Term::App(f, _) => f.headed() && !(*f is Lam),
            Term::Let(_, _, _, _, _) => false,
            _ => true,
        }
    }
}

impl Term {
    /// A free variable or an opened binder occurs.
    pub open spec fn is_open(self) -> bool {
        self.has_fv() || self.bvb() > 0
    }

    /// A free variable or an opened binder stands at the head.
    pub open spec fn var_headed(self) -> bool
        decreases self,
    {
        match self {
            Term::App(f, _) => f.var_headed(),
            Term::Proj(_, _, s) => s.var_headed(),
            Term::Local(..) => true,
            Term::BV(_, _) => true,
            _ => false,
        }
    }
}

} // verus!
