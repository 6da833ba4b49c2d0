//! Interned universe levels and lists of them.
use crate::error::TcError;
use crate::table::{copy_vec, SliceTable, Tab};
use crate::term::{Lvl, Term};
use vstd::prelude::*;

verus! {

/// Names a level.
pub type LevelPtr = u32;

/// Names a list of levels.
pub type LevelsPtr = u32;

/// Names an identifier.
pub type NamePtr = u32;

/// One level, its parts named by position.
#[derive(Clone, Copy, PartialEq, Eq, Structural, Debug)]
pub enum Level {
    Zero,
    Succ(LevelPtr),
    Max(LevelPtr, LevelPtr),
    IMax(LevelPtr, LevelPtr),
    Param(NamePtr),
}

/// The levels of a check.
pub struct Levels {
    nodes: Vec<Level>,
    tab: Tab<u32>,
    lists: SliceTable,
    g: Ghost<Seq<Lvl>>,
}

/// Ids of levels stay below this bound.
pub const MAX_LEVELS: usize = 0x7fff_ffff;

impl Lvl {
    pub open spec fn succ(a: Lvl) -> Lvl {
        Lvl::Succ(Box::new(a))
    }

    pub open spec fn lmax(a: Lvl, b: Lvl) -> Lvl {
        Lvl::Max(Box::new(a), Box::new(b))
    }

    pub open spec fn imax(a: Lvl, b: Lvl) -> Lvl {
        Lvl::IMax(Box::new(a), Box::new(b))
    }

    /// `a` is at most `b` plus `d` whatever the parameters stand for.
    pub open spec fn leq(a: Lvl, b: Lvl, d: int) -> bool {
        forall|v: spec_fn(u32) -> nat| #[trigger] a.eval(v) <= #[trigger] b.eval(v) + d
    }

    /// The assignment `v` with parameter `p` given the value `x`.
    pub open spec fn assign(v: spec_fn(u32) -> nat, p: u32, x: nat) -> spec_fn(u32) -> nat {
        |q: u32| if q == p { x } else { v(q) }
    }

    /// Replacing one parameter amounts to assigning it.
    pub proof fn lemma_subst_one(l: Lvl, p: u32, x: Lvl, v: spec_fn(u32) -> nat)
        ensures
            l.subst(seq![Lvl::Param(p)], seq![x]).eval(v) == l.eval(Lvl::assign(v, p, x.eval(v))),
        decreases l,
    {
        let ks = seq![Lvl::Param(p)];
        let vs = seq![x];
        match l {
            Lvl::Zero => {},
            Lvl::Succ(a) => {
                Lvl::lemma_subst_one(*a, p, x, v);
            },
            Lvl::Max(a, b) => {
                Lvl::lemma_subst_one(*a, p, x, v);
                Lvl::lemma_subst_one(*b, p, x, v);
            },
            Lvl::IMax(a, b) => {
                Lvl::lemma_subst_one(*a, p, x, v);
                Lvl::lemma_subst_one(*b, p, x, v);
            },
            Lvl::Param(q) => {
                if q == p {
                    assert(ks[0] == l);
                    assert(ks.contains(l));
                    ks.index_of_first_ensures(l);
                } else {
                    if ks.contains(l) {
                        let i = choose|i: int| 0 <= i < ks.len() && ks[i] == l;
                        assert(ks[i] == Lvl::Param(p));
                    }
                }
            },
        }
    }

    /// A level depends only on the values of its parameters.
    pub proof fn lemma_eval_ext(l: Lvl, v: spec_fn(u32) -> nat, w: spec_fn(u32) -> nat)
        requires
            forall|q: u32| #[trigger] v(q) == w(q),
        ensures
            l.eval(v) == l.eval(w),
        decreases l,
    {
        match l {
            Lvl::Zero => {},
            Lvl::Succ(a) => {
                Lvl::lemma_eval_ext(*a, v, w);
            },
            Lvl::Max(a, b) => {
                Lvl::lemma_eval_ext(*a, v, w);
                Lvl::lemma_eval_ext(*b, v, w);
            },
            Lvl::IMax(a, b) => {
                Lvl::lemma_eval_ext(*a, v, w);
                Lvl::lemma_eval_ext(*b, v, w);
            },
            Lvl::Param(q) => {
                assert(v(q) == w(q));
            },
        }
    }

    /// The two cases of a parameter, zero and a successor, cover every
    /// assignment.
    pub proof fn lemma_cases(a: Lvl, b: Lvl, p: u32, d: int)
        requires
            Lvl::leq(a.subst(seq![Lvl::Param(p)], seq![Lvl::Zero]), b.subst(seq![Lvl::Param(p)], seq![Lvl::Zero]), d),
            Lvl::leq(
                a.subst(seq![Lvl::Param(p)], seq![Lvl::succ(Lvl::Param(p))]),
                b.subst(seq![Lvl::Param(p)], seq![Lvl::succ(Lvl::Param(p))]),
                d,
            ),
        ensures
            Lvl::leq(a, b, d),
    {
        assert forall|v: spec_fn(u32) -> nat| #[trigger] a.eval(v) <= #[trigger] b.eval(v) + d by {
            if v(p) == 0 {
                let w = Lvl::assign(v, p, Lvl::Zero.eval(v));
                assert forall|q: u32| #[trigger] v(q) == w(q) by {
                }
                Lvl::lemma_subst_one(a, p, Lvl::Zero, v);
                Lvl::lemma_subst_one(b, p, Lvl::Zero, v);
                Lvl::lemma_eval_ext(a, v, w);
                Lvl::lemma_eval_ext(b, v, w);
            } else {
                let u = Lvl::assign(v, p, (v(p) - 1) as nat);
                let sp = Lvl::succ(Lvl::Param(p));
                let w = Lvl::assign(u, p, sp.eval(u));
                assert(sp.eval(u) == Lvl::Param(p).eval(u) + 1);
                assert(Lvl::Param(p).eval(u) == u(p));
                assert forall|q: u32| #[trigger] v(q) == w(q) by {
                }
                Lvl::lemma_subst_one(a, p, sp, u);
                Lvl::lemma_subst_one(b, p, sp, u);
                Lvl::lemma_eval_ext(a, v, w);
                Lvl::lemma_eval_ext(b, v, w);
            }
        }
    }

    pub proof fn lemma_equiv_refl(a: Lvl)
        ensures
            a.equiv(a),
    {
    }

    pub proof fn lemma_equiv_trans(a: Lvl, b: Lvl, c: Lvl)
        requires
            a.equiv(b),
            b.equiv(c),
        ensures
            a.equiv(c),
    {
        assert forall|v: spec_fn(u32) -> nat| #[trigger] a.eval(v) == c.eval(v) by {
            assert(a.eval(v) == b.eval(v));
            assert(b.eval(v) == c.eval(v));
        }
    }

    pub proof fn lemma_equiv_succ(a: Lvl, b: Lvl)
        requires
            a.equiv(b),
        ensures
            Lvl::succ(a).equiv(Lvl::succ(b)),
    {
        assert forall|v: spec_fn(u32) -> nat| #[trigger] Lvl::succ(a).eval(v) == Lvl::succ(b).eval(v) by {
            assert(a.eval(v) == b.eval(v));
        }
    }

    pub proof fn lemma_equiv_max(a: Lvl, b: Lvl, c: Lvl, d: Lvl)
        requires
            a.equiv(b),
            c.equiv(d),
        ensures
            Lvl::lmax(a, c).equiv(Lvl::lmax(b, d)),
            Lvl::imax(a, c).equiv(Lvl::imax(b, d)),
    {
        assert forall|v: spec_fn(u32) -> nat| #[trigger] Lvl::lmax(a, c).eval(v) == Lvl::lmax(b, d).eval(v) by {
            assert(a.eval(v) == b.eval(v));
            assert(c.eval(v) == d.eval(v));
        }
        assert forall|v: spec_fn(u32) -> nat| #[trigger] Lvl::imax(a, c).eval(v) == Lvl::imax(b, d).eval(v) by {
            assert(a.eval(v) == b.eval(v));
            assert(c.eval(v) == d.eval(v));
        }
    }

    /// Zero drops out of a maximum, and successors share theirs.
    pub proof fn lemma_combining(a: Lvl, b: Lvl)
        ensures
            a.equiv(Lvl::lmax(Lvl::Zero, a)),
            a.equiv(Lvl::lmax(a, Lvl::Zero)),
            Lvl::succ(Lvl::lmax(a, b)).equiv(Lvl::lmax(Lvl::succ(a), Lvl::succ(b))),
    {
        reveal_with_fuel(Lvl::eval, 3);
        assert forall|v: spec_fn(u32) -> nat| #[trigger] a.eval(v) == Lvl::lmax(Lvl::Zero, a).eval(v) by {
            assert(Lvl::Zero.eval(v) == 0);
        }
        assert forall|v: spec_fn(u32) -> nat| #[trigger] a.eval(v) == Lvl::lmax(a, Lvl::Zero).eval(v) by {
            assert(Lvl::Zero.eval(v) == 0);
        }
        assert forall|v: spec_fn(u32) -> nat| #[trigger]
            Lvl::succ(Lvl::lmax(a, b)).eval(v) == Lvl::lmax(Lvl::succ(a), Lvl::succ(b)).eval(v) by {
            reveal_with_fuel(Lvl::eval, 3);
        }
    }

    /// The impredicative maximum with zero is zero, with a successor it is
    /// the maximum.
    pub proof fn lemma_imax(a: Lvl, b: Lvl)
        ensures
            Lvl::Zero.equiv(Lvl::imax(a, Lvl::Zero)),
            Lvl::lmax(a, Lvl::succ(b)).equiv(Lvl::imax(a, Lvl::succ(b))),
    {
        assert forall|v: spec_fn(u32) -> nat| #[trigger] Lvl::Zero.eval(v) == Lvl::imax(a, Lvl::Zero).eval(v) by {
        }
        assert forall|v: spec_fn(u32) -> nat| #[trigger]
            Lvl::lmax(a, Lvl::succ(b)).eval(v) == Lvl::imax(a, Lvl::succ(b)).eval(v) by {
            assert(Lvl::succ(b).eval(v) == b.eval(v) + 1);
        }
    }

    /// The larger of two simplified levels: zero drops out, and two
    /// successors share theirs.
    pub open spec fn combine(a: Lvl, b: Lvl) -> Lvl
        decreases a,
    {
        match (a, b) {
            (Lvl::Zero, _) => b,
            (_, Lvl::Zero) => a,
            (Lvl::Succ(x), Lvl::Succ(y)) => Lvl::succ(Lvl::combine(*x, *y)),
            _ => Lvl::lmax(a, b),
        }
    }

    /// The level without superfluous structure.
    pub open spec fn simp(self) -> Lvl
        decreases self,
    {
        match self {
            Lvl::Zero => self,
            Lvl::Param(_) => self,
            Lvl::Succ(a) => Lvl::succ(a.simp()),
            Lvl::Max(a, b) => Lvl::combine(a.simp(), b.simp()),
            Lvl::IMax(a, b) => match b.simp() {
                Lvl::Zero => Lvl::Zero,
                Lvl::Succ(_) => Lvl::combine(a.simp(), b.simp()),
                _ => Lvl::imax(a.simp(), b.simp()),
            },
        }
    }

    pub proof fn lemma_combine(a: Lvl, b: Lvl)
        ensures
            Lvl::combine(a, b).equiv(Lvl::lmax(a, b)),
            a.simp() == a && b.simp() == b ==> Lvl::combine(a, b).simp() == Lvl::combine(a, b),
        decreases a,
    {
        Lvl::lemma_combining(a, b);
        Lvl::lemma_combining(b, a);
        Lvl::lemma_equiv_refl(Lvl::lmax(a, b));
        match (a, b) {
            (Lvl::Zero, _) => {},
            (_, Lvl::Zero) => {},
            (Lvl::Succ(x), Lvl::Succ(y)) => {
                Lvl::lemma_combine(*x, *y);
                Lvl::lemma_combining(*x, *y);
                Lvl::lemma_equiv_succ(Lvl::combine(*x, *y), Lvl::lmax(*x, *y));
                Lvl::lemma_equiv_trans(
                    Lvl::succ(Lvl::combine(*x, *y)),
                    Lvl::succ(Lvl::lmax(*x, *y)),
                    Lvl::lmax(a, b),
                );
            },
            _ => {
                assert(Lvl::combine(a, b) == Lvl::lmax(a, b));
                assert(Lvl::lmax(a, b).simp() == Lvl::combine(a.simp(), b.simp()));
            },
        }
    }

    /// Simplifying keeps the meaning, and once is enough.
    pub proof fn lemma_simp(l: Lvl)
        ensures
            l.simp().equiv(l),
            l.simp().simp() == l.simp(),
        decreases l,
    {
        Lvl::lemma_equiv_refl(l);
        match l {
            Lvl::Zero => {},
            Lvl::Param(_) => {},
            Lvl::Succ(a) => {
                Lvl::lemma_simp(*a);
                Lvl::lemma_equiv_succ(a.simp(), *a);
            },
            Lvl::Max(a, b) => {
                Lvl::lemma_simp(*a);
                Lvl::lemma_simp(*b);
                Lvl::lemma_combine(a.simp(), b.simp());
                Lvl::lemma_equiv_max(a.simp(), *a, b.simp(), *b);
                Lvl::lemma_equiv_trans(l.simp(), Lvl::lmax(a.simp(), b.simp()), l);
            },
            Lvl::IMax(a, b) => {
                Lvl::lemma_simp(*a);
                Lvl::lemma_simp(*b);
                Lvl::lemma_combine(a.simp(), b.simp());
                Lvl::lemma_equiv_max(a.simp(), *a, b.simp(), *b);
                Lvl::lemma_imax(a.simp(), b.simp());
                match b.simp() {
                    Lvl::Zero => {
                        Lvl::lemma_equiv_trans(Lvl::Zero, Lvl::imax(a.simp(), Lvl::Zero), l);
                    },
                    Lvl::Succ(c) => {
                        Lvl::lemma_imax(a.simp(), *c);
                        Lvl::lemma_equiv_trans(
                            l.simp(),
                            Lvl::lmax(a.simp(), b.simp()),
                            Lvl::imax(a.simp(), b.simp()),
                        );
                        Lvl::lemma_equiv_trans(l.simp(), Lvl::imax(a.simp(), b.simp()), l);
                    },
                    _ => {
                        assert(Lvl::imax(a.simp(), b.simp()).simp() == Lvl::imax(a.simp().simp(), b.simp().simp()));
                    },
                }
            },
        }
    }

    /// A nested impredicative maximum is a maximum of two flat ones.
    pub proof fn lemma_imax_flat(a: Lvl, x: Lvl, y: Lvl)
        ensures
            Lvl::lmax(Lvl::imax(a, y), Lvl::imax(x, y)).equiv(Lvl::imax(a, Lvl::imax(x, y))),
            Lvl::lmax(Lvl::imax(a, x), Lvl::imax(a, y)).equiv(Lvl::imax(a, Lvl::lmax(x, y))),
    {
        reveal_with_fuel(Lvl::eval, 3);
        assert forall|v: spec_fn(u32) -> nat| #[trigger]
            Lvl::lmax(Lvl::imax(a, y), Lvl::imax(x, y)).eval(v) == Lvl::imax(a, Lvl::imax(x, y)).eval(v) by {
            assert(Lvl::imax(x, y).eval(v) == if y.eval(v) == 0 { 0 } else { Term::max(x.eval(v), y.eval(v)) });
            assert(Lvl::imax(a, y).eval(v) == if y.eval(v) == 0 { 0 } else { Term::max(a.eval(v), y.eval(v)) });
        }
        assert forall|v: spec_fn(u32) -> nat| #[trigger]
            Lvl::lmax(Lvl::imax(a, x), Lvl::imax(a, y)).eval(v) == Lvl::imax(a, Lvl::lmax(x, y)).eval(v) by {
            assert(Lvl::imax(a, x).eval(v) == if x.eval(v) == 0 { 0 } else { Term::max(a.eval(v), x.eval(v)) });
            assert(Lvl::imax(a, y).eval(v) == if y.eval(v) == 0 { 0 } else { Term::max(a.eval(v), y.eval(v)) });
            assert(Lvl::lmax(x, y).eval(v) == Term::max(x.eval(v), y.eval(v)));
        }
    }

    /// Equivalent levels are interchangeable in an inequality.
    pub proof fn lemma_leq_equiv(a: Lvl, a2: Lvl, b: Lvl, b2: Lvl, d: int)
        requires
            Lvl::leq(a2, b2, d),
            a2.equiv(a),
            b2.equiv(b),
        ensures
            Lvl::leq(a, b, d),
    {
        assert forall|v: spec_fn(u32) -> nat| #[trigger] a.eval(v) <= #[trigger] b.eval(v) + d by {
            assert(a2.eval(v) == a.eval(v));
            assert(b2.eval(v) == b.eval(v));
        }
    }

    /// No `imax` in the level has a zero or a successor on its right.
    pub open spec fn is_flat(self) -> bool
        decreases self,
    {
        match self {
            Lvl::Zero => true,
            Lvl::Param(_) => true,
            Lvl::Succ(a) => a.is_flat(),
            Lvl::Max(a, b) => a.is_flat() && b.is_flat(),
            Lvl::IMax(a, b) => a.is_flat() && b.is_flat() && !(*b is Zero) && !(*b is Succ),
        }
    }

    proof fn lemma_combine_flat(a: Lvl, b: Lvl)
        requires
            a.is_flat(),
            b.is_flat(),
        ensures
            Lvl::combine(a, b).is_flat(),
        decreases a,
    {
        if let (Lvl::Succ(x), Lvl::Succ(y)) = (a, b) {
            Lvl::lemma_combine_flat(*x, *y);
        }
    }

    /// A simplified level is flat.
    proof fn lemma_simp_flat(l: Lvl)
        ensures
            l.simp().is_flat(),
        decreases l,
    {
        match l {
            Lvl::Zero => {},
            Lvl::Param(_) => {},
            Lvl::Succ(a) => {
                Lvl::lemma_simp_flat(*a);
            },
            Lvl::Max(a, b) => {
                Lvl::lemma_simp_flat(*a);
                Lvl::lemma_simp_flat(*b);
                Lvl::lemma_combine_flat(a.simp(), b.simp());
            },
            Lvl::IMax(a, b) => {
                Lvl::lemma_simp_flat(*a);
                Lvl::lemma_simp_flat(*b);
                Lvl::lemma_combine_flat(a.simp(), b.simp());
            },
        }
    }

    /// What an inequality says of the parts of its left side.
    proof fn lemma_leq_back(a: Lvl, b: Lvl, x: Lvl, y: Lvl, p: u32, d: int)
        ensures
            Lvl::leq(Lvl::succ(a), b, d) ==> Lvl::leq(a, b, d - 1),
            Lvl::leq(Lvl::lmax(x, y), b, d) ==> Lvl::leq(x, b, d) && Lvl::leq(y, b, d),
            Lvl::leq(a, Lvl::Zero, d) ==> d >= 0,
            !Lvl::leq(Lvl::Param(p), Lvl::Zero, d),
    {
        if Lvl::leq(Lvl::succ(a), b, d) {
            assert forall|v: spec_fn(u32) -> nat| #[trigger] a.eval(v) <= #[trigger] b.eval(v) + (d - 1) by {
                assert(Lvl::succ(a).eval(v) <= b.eval(v) + d);
            }
        }
        if Lvl::leq(Lvl::lmax(x, y), b, d) {
            assert forall|v: spec_fn(u32) -> nat| #[trigger] x.eval(v) <= #[trigger] b.eval(v) + d by {
                assert(Lvl::lmax(x, y).eval(v) <= b.eval(v) + d);
            }
            assert forall|v: spec_fn(u32) -> nat| #[trigger] y.eval(v) <= #[trigger] b.eval(v) + d by {
                assert(Lvl::lmax(x, y).eval(v) <= b.eval(v) + d);
            }
        }
        let big = if d >= 0 { d as nat + 1 } else { 1 };
        let v = |q: u32| big;
        if Lvl::leq(a, Lvl::Zero, d) {
            assert(a.eval(v) <= Lvl::Zero.eval(v) + d);
        }
        if Lvl::leq(Lvl::Param(p), Lvl::Zero, d) {
            assert(Lvl::Param(p).eval(v) <= Lvl::Zero.eval(v) + d);
        }
    }

    /// An inequality holds of every value of a parameter.
    proof fn lemma_leq_at(a: Lvl, b: Lvl, p: u32, x: Lvl, d: int)
        requires
            Lvl::leq(a, b, d),
        ensures
            Lvl::leq(a.subst(seq![Lvl::Param(p)], seq![x]), b.subst(seq![Lvl::Param(p)], seq![x]), d),
    {
        let a2 = a.subst(seq![Lvl::Param(p)], seq![x]);
        let b2 = b.subst(seq![Lvl::Param(p)], seq![x]);
        assert forall|v: spec_fn(u32) -> nat| #[trigger] a2.eval(v) <= #[trigger] b2.eval(v) + d by {
            let w = Lvl::assign(v, p, x.eval(v));
            Lvl::lemma_subst_one(a, p, x, v);
            Lvl::lemma_subst_one(b, p, x, v);
            assert(a.eval(w) <= b.eval(w) + d);
        }
    }

    /// The structural steps of an inequality.
    pub proof fn lemma_leq_steps(a: Lvl, b: Lvl, x: Lvl, y: Lvl, d: int)
        ensures
            d >= 0 ==> Lvl::leq(Lvl::Zero, b, d),
            d >= 0 ==> Lvl::leq(a, a, d),
            Lvl::leq(a, b, d - 1) ==> Lvl::leq(Lvl::succ(a), b, d),
            Lvl::leq(a, b, d + 1) ==> Lvl::leq(a, Lvl::succ(b), d),
            Lvl::leq(x, b, d) && Lvl::leq(y, b, d) ==> Lvl::leq(Lvl::lmax(x, y), b, d),
            Lvl::leq(a, x, d) || Lvl::leq(a, y, d) ==> Lvl::leq(a, Lvl::lmax(x, y), d),
    {
        assert forall|v: spec_fn(u32)
            -> nat| d >= 0 implies #[trigger] Lvl::Zero.eval(v) <= #[trigger] b.eval(v) + d by {
        }
        if Lvl::leq(a, b, d - 1) {
            assert forall|v: spec_fn(u32) -> nat| #[trigger] Lvl::succ(a).eval(v) <= #[trigger] b.eval(v) + d by {
                assert(a.eval(v) <= b.eval(v) + (d - 1));
            }
        }
        if Lvl::leq(a, b, d + 1) {
            assert forall|v: spec_fn(u32) -> nat| #[trigger] a.eval(v) <= #[trigger] Lvl::succ(b).eval(v) + d by {
                assert(a.eval(v) <= b.eval(v) + (d + 1));
            }
        }
        if Lvl::leq(x, b, d) && Lvl::leq(y, b, d) {
            assert forall|v: spec_fn(u32) -> nat| #[trigger] Lvl::lmax(x, y).eval(v) <= #[trigger] b.eval(v) + d by {
                assert(x.eval(v) <= b.eval(v) + d);
                assert(y.eval(v) <= b.eval(v) + d);
            }
        }
        if Lvl::leq(a, x, d) || Lvl::leq(a, y, d) {
            assert forall|v: spec_fn(u32) -> nat| #[trigger] a.eval(v) <= #[trigger] Lvl::lmax(x, y).eval(v) + d by {
                assert(Lvl::lmax(x, y).eval(v) == Term::max(x.eval(v), y.eval(v)));
                if Lvl::leq(a, x, d) {
                    assert(a.eval(v) <= x.eval(v) + d);
                } else {
                    assert(a.eval(v) <= y.eval(v) + d);
                }
            }
        }
    }

    /// The level is least where every parameter is zero.
    pub proof fn lemma_eval_mono(l: Lvl, v: spec_fn(u32) -> nat)
        ensures
            l.eval(|q: u32| 0nat) == 0 || l.eval(v) > 0,
        decreases l,
    {
        match l {
            Lvl::Zero => {},
            Lvl::Succ(a) => {},
            Lvl::Max(a, b) => {
                Lvl::lemma_eval_mono(*a, v);
                Lvl::lemma_eval_mono(*b, v);
            },
            Lvl::IMax(a, b) => {
                Lvl::lemma_eval_mono(*a, v);
                Lvl::lemma_eval_mono(*b, v);
            },
            Lvl::Param(q) => {},
        }
    }
}

impl Level {
    /// The level a node stands for, given what its parts stand for.
    pub open spec fn one(self, g: Seq<Lvl>) -> Lvl {
        match self {
            Level::Zero => Lvl::Zero,
            Level::Succ(a) => Lvl::succ(g[a as int]),
            Level::Max(a, b) => Lvl::lmax(g[a as int], g[b as int]),
            Level::IMax(a, b) => Lvl::imax(g[a as int], g[b as int]),
            Level::Param(n) => Lvl::Param(n),
        }
    }

    /// Every part lies below `n`.
    pub open spec fn below(self, n: int) -> bool {
        match self {
            Level::Zero => true,
            Level::Succ(a) => a < n,
            Level::Max(a, b) => a < n && b < n,
            Level::IMax(a, b) => a < n && b < n,
            Level::Param(_) => true,
        }
    }

    /// The words a node is looked up by.
    pub open spec fn words(self) -> (u32, u32, u32, u32) {
        match self {
            Level::Zero => (0, 0, 0, 0),
            Level::Succ(a) => (1, a, 0, 0),
            Level::Max(a, b) => (2, a, b, 0),
            Level::IMax(a, b) => (3, a, b, 0),
            Level::Param(n) => (4, n, 0, 0),
        }
    }

    fn key(self) -> (r: (u32, u32, u32, u32))
        ensures
            r == self.words(),
    {
        match self {
            Level::Zero => (0, 0, 0, 0),
            Level::Succ(a) => (1, a, 0, 0),
            Level::Max(a, b) => (2, a, b, 0),
            Level::IMax(a, b) => (3, a, b, 0),
            Level::Param(n) => (4, n, 0, 0),
        }
    }
}

impl Levels {
    /// `l` names a level.
    pub closed spec fn ok(&self, l: LevelPtr) -> bool {
        l < self.g@.len()
    }

    /// The level `l` names.
    pub closed spec fn l(&self, l: LevelPtr) -> Lvl {
        self.g@[l as int]
    }

    /// `ls` names a list.
    pub closed spec fn ls_ok(&self, ls: LevelsPtr) -> bool {
        ls < self.lists@.len()
    }

    /// The list `ls` names.
    pub closed spec fn ls(&self, ls: LevelsPtr) -> Seq<Lvl> {
        Seq::new(self.lists@[ls as int].len(), |i: int| self.g@[self.lists@[ls as int][i] as int])
    }

    /// Nodes denote what their parts do, and no level or list is held twice.
    pub closed spec fn wf(&self) -> bool {
        &&& self.nodes@.len() == self.g@.len()
        &&& self.nodes@.len() <= MAX_LEVELS
        &&& forall|i: int|
            0 <= i < self.nodes@.len() ==> (#[trigger] self.nodes@[i]).below(i) && self.g@[i]
                == self.nodes@[i].one(self.g@)
        &&& forall|i: int|
            0 <= i < self.nodes@.len() ==> self.tab@.contains_key((#[trigger] self.nodes@[i]).words())
                && self.tab@[self.nodes@[i].words()] == i
        &&& forall|n: Level| #[trigger]
            self.tab@.contains_key(n.words()) ==> self.tab@[n.words()] < self.nodes@.len()
                && self.nodes@[self.tab@[n.words()] as int] == n
        &&& self.lists.wf()
        &&& forall|i: int, j: int|
            0 <= i < self.lists@.len() && 0 <= j < self.lists@[i].len() ==> #[trigger] self.lists@[i][j]
                < self.nodes@.len()
    }

    /// Everything named in `o` is named in `self`, with the same meaning.
    pub open spec fn ext(&self, o: &Levels) -> bool {
        &&& forall|i: LevelPtr| #[trigger] o.ok(i) ==> self.ok(i)
        &&& forall|i: LevelPtr| o.ok(i) ==> #[trigger] self.l(i) == o.l(i)
        &&& forall|i: LevelsPtr| #[trigger] o.ls_ok(i) ==> self.ls_ok(i)
        &&& forall|i: LevelsPtr| o.ls_ok(i) ==> #[trigger] self.ls(i) == o.ls(i)
    }

    /// Two ids of one level are equal.
    pub proof fn lemma_injective(&self, a: LevelPtr, b: LevelPtr)
        requires
            self.wf(),
            self.ok(a),
            self.ok(b),
            self.l(a) == self.l(b),
        ensures
            a == b,
        decreases a,
    {
        let na = self.nodes@[a as int];
        let nb = self.nodes@[b as int];
        assert(na.below(a as int) && nb.below(b as int));
        assert(self.l(a) == na.one(self.g@));
        assert(self.l(b) == nb.one(self.g@));
        match (na, nb) {
            (Level::Succ(x), Level::Succ(y)) => {
                self.lemma_injective(x, y);
            },
            (Level::Max(x, y), Level::Max(z, w)) => {
                self.lemma_injective(x, z);
                self.lemma_injective(y, w);
            },
            (Level::IMax(x, y), Level::IMax(z, w)) => {
                self.lemma_injective(x, z);
                self.lemma_injective(y, w);
            },
            _ => {},
        }
        assert(na == nb);
        assert(self.tab@[na.words()] == a);
        assert(self.tab@[nb.words()] == b);
    }

    /// Two ids of one list are equal.
    pub proof fn lemma_ls_injective(&self, a: LevelsPtr, b: LevelsPtr)
        requires
            self.wf(),
            self.ls_ok(a),
            self.ls_ok(b),
            self.ls(a) == self.ls(b),
        ensures
            a == b,
    {
        let x = self.lists@[a as int];
        let y = self.lists@[b as int];
        self.lists.lemma_wf();
        assert(self.ls(a).len() == x.len());
        assert(self.ls(b).len() == y.len());
        assert forall|i: int| 0 <= i < x.len() implies x[i] == y[i] by {
            assert(self.ls(a)[i] == self.ls(b)[i]);
            assert(self.lists@[a as int][i] < self.nodes@.len());
            assert(self.lists@[b as int][i] < self.nodes@.len());
            assert(self.ls(a)[i] == self.g@[x[i] as int]);
            assert(self.ls(b)[i] == self.g@[y[i] as int]);
            self.lemma_injective(x[i] as u32, y[i] as u32);
        }
        assert(x =~= y);
    }

    pub fn new() -> (r: Self)
        ensures
            r.wf(),
    {
        Levels { nodes: Vec::new(), tab: Tab::new(), lists: SliceTable::new(), g: Ghost(Seq::empty()) }
    }

    /// The same levels under the same names.
    pub fn copy(&self) -> (r: Self)
        requires
            self.wf(),
        ensures
            r.wf(),
            r.ext(self),
            self.ext(&r),
    {
        let r = Levels {
            nodes: copy_vec(&self.nodes),
            tab: self.tab.copy(),
            lists: self.lists.copy(),
            g: Ghost(self.g@),
        };
        proof {
            assert forall|i: LevelsPtr| self.ls_ok(i) implies #[trigger] r.ls(i) == self.ls(i) by {
                assert(r.ls(i) =~= self.ls(i));
            }
        }
        r
    }

    /// The node `l` names.
    pub fn read(&self, l: LevelPtr) -> (r: Level)
        requires
            self.wf(),
            self.ok(l),
        ensures
            self.shape(l, r),
    {
        proof {
            let n = self.nodes@[l as int];
            assert(n.below(l as int) && self.g@[l as int] == n.one(self.g@));
        }
        self.nodes[l as usize]
    }

    /// `l` names a level of the shape `n`.
    pub open spec fn shape(&self, l: LevelPtr, n: Level) -> bool {
        match n {
            Level::Zero => self.l(l) == Lvl::Zero,
            Level::Succ(a) => self.ok(a) && a < l && self.l(l) == Lvl::succ(self.l(a)),
            Level::Max(a, b) => self.ok(a) && a < l && self.ok(b) && b < l && self.l(l) == Lvl::lmax(
                self.l(a),
                self.l(b),
            ),
            Level::IMax(a, b) => self.ok(a) && a < l && self.ok(b) && b < l && self.l(l) == Lvl::imax(
                self.l(a),
                self.l(b),
            ),
            Level::Param(p) => self.l(l) == Lvl::Param(p),
        }
    }

    /// The parts of `n` are named.
    pub open spec fn parts_ok(&self, n: Level) -> bool {
        match n {
            Level::Zero => true,
            Level::Succ(a) => self.ok(a),
            Level::Max(a, b) => self.ok(a) && self.ok(b),
            Level::IMax(a, b) => self.ok(a) && self.ok(b),
            Level::Param(_) => true,
        }
    }

    /// What `n` stands for.
    pub open spec fn meaning(&self, n: Level) -> Lvl {
        match n {
            Level::Zero => Lvl::Zero,
            Level::Succ(a) => Lvl::succ(self.l(a)),
            Level::Max(a, b) => Lvl::lmax(self.l(a), self.l(b)),
            Level::IMax(a, b) => Lvl::imax(self.l(a), self.l(b)),
            Level::Param(p) => Lvl::Param(p),
        }
    }

    /// The id of a node, appended if it is new.
    pub fn mk(&mut self, n: Level) -> (r: Result<LevelPtr, TcError>)
        requires
            old(self).wf(),
            old(self).parts_ok(n),
        ensures
            final(self).wf(),
            final(self).ext(old(self)),
            r matches Ok(i) ==> final(self).ok(i) && final(self).l(i) == old(self).meaning(n),
            r is Err ==> r == Err::<LevelPtr, TcError>(TcError::Full),
    {
        proof {
            assert(n.one(self.g@) == self.meaning(n));
        }
        match self.tab.get(n.key()) {
            Some(i) => {
                proof {
                    assert(self.nodes@[i as int] == n);
                }
                return Ok(i);
            },
            None => {},
        }
        if self.nodes.len() >= MAX_LEVELS {
            return Err(TcError::Full);
        }
        let id: u32 = self.nodes.len() as u32;
        let ghost g0 = self.g@;
        let ghost n0 = self.nodes@;
        self.nodes.push(n);
        self.tab.insert(n.key(), id);
        self.g = Ghost(g0.push(n.one(g0)));
        proof {
            assert(n.below(id as int));
            assert forall|i: int| 0 <= i < self.nodes@.len() implies (#[trigger] self.nodes@[i]).below(i)
                && self.g@[i] == self.nodes@[i].one(self.g@) by {
                if i < n0.len() {
                    assert(n0[i].below(i) && g0[i] == n0[i].one(g0));
                }
            }
            assert forall|m: Level| #[trigger] self.tab@.contains_key(m.words()) implies self.tab@[m.words()]
                < self.nodes@.len() && self.nodes@[self.tab@[m.words()] as int] == m by {
                if m.words() == n.words() {
                    assert(m == n);
                } else {
                    assert(old(self).tab@.contains_key(m.words()));
                }
            }
            assert forall|i: int| 0 <= i < self.nodes@.len() implies self.tab@.contains_key(
                (#[trigger] self.nodes@[i]).words(),
            ) && self.tab@[self.nodes@[i].words()] == i by {
                if i < n0.len() {
                    assert(old(self).tab@.contains_key(n0[i].words()));
                }
            }
            assert forall|i: LevelsPtr| old(self).ls_ok(i) implies #[trigger] self.ls(i) == old(self).ls(i) by {
                assert forall|j: int| 0 <= j < self.lists@[i as int].len() implies self.ls(i)[j] == old(
                    self,
                ).ls(i)[j] by {
                    assert(old(self).lists@[i as int][j] < n0.len());
                }
                assert(self.ls(i) =~= old(self).ls(i));
            }
        }
        Ok(id)
    }

    pub fn zero(&mut self) -> (r: Result<LevelPtr, TcError>)
        requires
            old(self).wf(),
        ensures
            final(self).wf(),
            final(self).ext(old(self)),
            r matches Ok(i) ==> final(self).ok(i) && final(self).l(i) == Lvl::Zero,
            r is Err ==> r == Err::<LevelPtr, TcError>(TcError::Full),
    {
        self.mk(Level::Zero)
    }

    pub fn succ(&mut self, a: LevelPtr) -> (r: Result<LevelPtr, TcError>)
        requires
            old(self).wf(),
            old(self).ok(a),
        ensures
            final(self).wf(),
            final(self).ext(old(self)),
            r matches Ok(i) ==> final(self).ok(i) && final(self).l(i) == Lvl::succ(old(self).l(a)),
            r is Err ==> r == Err::<LevelPtr, TcError>(TcError::Full),
    {
        self.mk(Level::Succ(a))
    }

    pub fn imax(&mut self, a: LevelPtr, b: LevelPtr) -> (r: Result<LevelPtr, TcError>)
        requires
            old(self).wf(),
            old(self).ok(a),
            old(self).ok(b),
        ensures
            final(self).wf(),
            final(self).ext(old(self)),
            r matches Ok(i) ==> final(self).ok(i) && final(self).l(i) == Lvl::imax(old(self).l(a), old(self).l(b)),
            r is Err ==> r == Err::<LevelPtr, TcError>(TcError::Full),
    {
        self.mk(Level::IMax(a, b))
    }

    /// The larger of two simplified levels.
    fn combining(&mut self, a: LevelPtr, b: LevelPtr) -> (r: Result<LevelPtr, TcError>)
        requires
            old(self).wf(),
            old(self).ok(a),
            old(self).ok(b),
        ensures
            final(self).wf(),
            final(self).ext(old(self)),
            r matches Ok(i) ==> final(self).ok(i) && final(self).l(i) == Lvl::combine(old(self).l(a), old(self).l(b)),
            r is Err ==> r == Err::<LevelPtr, TcError>(TcError::Full),
        decreases a,
    {
        match (self.read(a), self.read(b)) {
            (Level::Zero, _) => Ok(b),
            (_, Level::Zero) => Ok(a),
            (Level::Succ(x), Level::Succ(y)) => {
                let c = self.combining(x, y)?;
                self.mk(Level::Succ(c))
            },
            _ => self.mk(Level::Max(a, b)),
        }
    }

    /// An equivalent level without superfluous structure.
    pub fn simplify(&mut self, l: LevelPtr) -> (r: Result<LevelPtr, TcError>)
        requires
            old(self).wf(),
            old(self).ok(l),
        ensures
            final(self).wf(),
            final(self).ext(old(self)),
            r matches Ok(i) ==> final(self).ok(i) && final(self).l(i) == old(self).l(l).simp()
                && final(self).l(i).equiv(
                old(self).l(l),
            ),
            r is Err ==> r == Err::<LevelPtr, TcError>(TcError::Full),
        decreases l,
    {
        proof {
            Lvl::lemma_simp(self.l(l));
        }
        match self.read(l) {
            Level::Zero => Ok(l),
            Level::Param(_) => Ok(l),
            Level::Succ(a) => {
                let a2 = self.simplify(a)?;
                self.mk(Level::Succ(a2))
            },
            Level::Max(a, b) => {
                let a2 = self.simplify(a)?;
                let b2 = self.simplify(b)?;
                self.combining(a2, b2)
            },
            Level::IMax(a, b) => {
                let b2 = self.simplify(b)?;
                match self.read(b2) {
                    Level::Zero => Ok(b2),
                    Level::Succ(_) => {
                        let a2 = self.simplify(a)?;
                        self.combining(a2, b2)
                    },
                    _ => {
                        let a2 = self.simplify(a)?;
                        self.mk(Level::IMax(a2, b2))
                    },
                }
            },
        }
    }

    /// The levels of a list.
    pub fn read_levels(&self, ls: LevelsPtr) -> (r: Vec<LevelPtr>)
        requires
            self.wf(),
            self.ls_ok(ls),
        ensures
            r@.len() == self.ls(ls).len(),
            self.list_is(r@, self.ls(ls)),
    {
        let words = self.lists.get(ls);
        let mut r: Vec<LevelPtr> = Vec::new();
        let mut i: usize = 0;
        while i < words.len()
            invariant
                self.wf(),
                self.ls_ok(ls),
                words@ == self.lists@[ls as int],
                i <= words.len(),
                r.len() == i,
                forall|j: int|
                    0 <= j < i ==> self.ok(#[trigger] r@[j]) && self.l(r@[j]) == self.ls(ls)[j],
            decreases words.len() - i,
        {
            assert(self.lists@[ls as int][i as int] < self.nodes@.len());
            r.push(words[i] as u32);
            i += 1;
        }
        r
    }

    /// The ids `v` name the levels `s`, in order.
    pub open spec fn list_is(&self, v: Seq<LevelPtr>, s: Seq<Lvl>) -> bool {
        v.len() == s.len() && forall|j: int|
            0 <= j < v.len() ==> self.ok(#[trigger] v[j]) && self.l(v[j]) == s[j]
    }

    /// What the ids `v` name.
    pub open spec fn list(&self, v: Seq<LevelPtr>) -> Seq<Lvl> {
        Seq::new(v.len(), |j: int| self.l(v[j]))
    }

    /// The id of a list, appended if it is new.
    pub fn alloc_levels_slice(&mut self, v: &Vec<LevelPtr>) -> (r: Result<LevelsPtr, TcError>)
        requires
            old(self).wf(),
            forall|j: int| 0 <= j < v@.len() ==> old(self).ok(#[trigger] v@[j]),
        ensures
            final(self).wf(),
            final(self).ext(old(self)),
            r matches Ok(i) ==> final(self).ls_ok(i) && final(self).ls(i) == old(self).list(v@),
            r is Err ==> r == Err::<LevelPtr, TcError>(TcError::Full),
    {
        let mut w: Vec<u64> = Vec::new();
        let mut i: usize = 0;
        while i < v.len()
            invariant
                i <= v.len(),
                w.len() == i,
                forall|j: int| 0 <= j < i ==> w@[j] == v@[j],
            decreases v.len() - i,
        {
            w.push(v[i] as u64);
            i += 1;
        }
        let ghost wv = w@;
        let r = self.lists.intern(w);
        proof {
            self.lists.lemma_wf();
            assert forall|i: int, j: int|
                0 <= i < self.lists@.len() && 0 <= j < self.lists@[i].len() implies #[trigger] self.lists@[i][j]
                < self.nodes@.len() by {
                if i < old(self).lists@.len() {
                    assert(old(self).lists@[i][j] < self.nodes@.len());
                } else {
                    assert(self.lists@[i] == wv);
                    assert(old(self).ok(v@[j]));
                }
            }
            assert forall|i: LevelsPtr| old(self).ls_ok(i) implies #[trigger] self.ls(i) == old(self).ls(i) by {
                assert(self.lists@[i as int] == old(self).lists@[i as int]);
            }
        }
        match r {
            Some(id) => {
                proof {
                    assert(self.ls(id) =~= old(self).list(v@));
                }
                Ok(id)
            },
            None => Err(TcError::Full),
        }
    }

    /// Whether `ls` names a list.
    pub fn has_list(&self, ls: LevelsPtr) -> (r: bool)
        requires
            self.wf(),
        ensures
            r == self.ls_ok(ls),
    {
        (ls as usize) < self.lists.len()
    }

    /// The number of levels in a list.
    pub fn levels_len(&self, ls: LevelsPtr) -> (r: usize)
        requires
            self.wf(),
            self.ls_ok(ls),
        ensures
            r == self.ls(ls).len(),
    {
        self.lists.get(ls).len()
    }

    /// Whether the level is zero once every parameter is.
    pub fn may_be_zero(&self, l: LevelPtr) -> (r: bool)
        requires
            self.wf(),
            self.ok(l),
        ensures
            r == self.l(l).may_be_zero(),
    {
        let r = self.zero_at_zero(l);
        proof {
            let z = |q: u32| 0nat;
            if r {
                assert(self.l(l).eval(z) == 0);
            } else {
                assert forall|v: spec_fn(u32) -> nat| #[trigger] self.l(l).eval(v) != 0 by {
                    Lvl::lemma_eval_mono(self.l(l), v);
                }
            }
        }
        r
    }

    fn zero_at_zero(&self, l: LevelPtr) -> (r: bool)
        requires
            self.wf(),
            self.ok(l),
        ensures
            r == (self.l(l).eval(|q: u32| 0nat) == 0),
        decreases l,
    {
        match self.read(l) {
            Level::Zero => true,
            Level::Succ(_) => false,
            Level::Max(a, b) => self.zero_at_zero(a) && self.zero_at_zero(b),
            Level::IMax(_, b) => {
                let zb: bool = self.zero_at_zero(b);
                zb
            },
            Level::Param(_) => true,
        }
    }

    /// Whether every parameter of `l` is among the levels `ps`.
    pub fn params_in(&self, l: LevelPtr, ps: LevelsPtr) -> (r: bool)
        requires
            self.wf(),
            self.ok(l),
            self.ls_ok(ps),
        ensures
            r == self.l(l).params_in(self.ls(ps)),
        decreases l,
    {
        match self.read(l) {
            Level::Zero => true,
            Level::Succ(a) => self.params_in(a, ps),
            Level::Max(a, b) => self.params_in(a, ps) && self.params_in(b, ps),
            Level::IMax(a, b) => self.params_in(a, ps) && self.params_in(b, ps),
            Level::Param(_) => self.position(l, ps).is_some(),
        }
    }

    /// Where `l` first stands in the list `ks`.
    fn position(&self, l: LevelPtr, ks: LevelsPtr) -> (r: Option<usize>)
        requires
            self.wf(),
            self.ok(l),
            self.ls_ok(ks),
        ensures
            match r {
                Some(i) => self.ls(ks).contains(self.l(l)) && i < self.ls(ks).len() && self.ls(
                    ks,
                ).index_of_first(self.l(l)) == Some(i as int),
                None => !self.ls(ks).contains(self.l(l)),
            },
    {
        let v = self.read_levels(ks);
        let ghost s = self.ls(ks);
        let mut i: usize = 0;
        while i < v.len()
            invariant
                self.wf(),
                self.ok(l),
                s == self.ls(ks),
                self.list_is(v@, s),
                i <= v.len(),
                forall|j: int| 0 <= j < i ==> s[j] != self.l(l),
            decreases v.len() - i,
        {
            assert(self.ok(v@[i as int]));
            if v[i] == l {
                proof {
                    assert(s[i as int] == self.l(l));
                    assert(s.contains(self.l(l)));
                    s.index_of_first_ensures(self.l(l));
                    let k = s.index_of_first(self.l(l)).unwrap();
                    assert(k == i);
                }
                return Some(i);
            }
            proof {
                if s[i as int] == self.l(l) {
                    self.lemma_injective(v@[i as int], l);
                }
            }
            i += 1;
        }
        None
    }

    /// `l` with the parameters `ks` replaced by the levels `vs`.
    pub fn subst(&mut self, l: LevelPtr, ks: LevelsPtr, vs: LevelsPtr) -> (r: Result<LevelPtr, TcError>)
        requires
            old(self).wf(),
            old(self).ok(l),
            old(self).ls_ok(ks),
            old(self).ls_ok(vs),
        ensures
            r matches Err(e) ==> !(e is Reject),
            final(self).wf(),
            final(self).ext(old(self)),
            r matches Ok(i) ==> final(self).ok(i) && final(self).l(i) == old(self).l(l).subst(
                old(self).ls(ks),
                old(self).ls(vs),
            ),
            r is Err ==> r == Err::<LevelPtr, TcError>(TcError::Full),
        decreases l,
    {
        match self.read(l) {
            Level::Zero => Ok(l),
            Level::Succ(a) => {
                let a2 = self.subst(a, ks, vs)?;
                self.mk(Level::Succ(a2))
            },
            Level::Max(a, b) => {
                let a2 = self.subst(a, ks, vs)?;
                let b2 = self.subst(b, ks, vs)?;
                self.mk(Level::Max(a2, b2))
            },
            Level::IMax(a, b) => {
                let a2 = self.subst(a, ks, vs)?;
                let b2 = self.subst(b, ks, vs)?;
                self.mk(Level::IMax(a2, b2))
            },
            Level::Param(_) => {
                match self.position(l, ks) {
                    Some(i) => {
                        let v = self.read_levels(vs);
                        if i < v.len() {
                            assert(self.ok(v@[i as int]));
                            Ok(v[i])
                        } else {
                            Ok(l)
                        }
                    },
                    None => Ok(l),
                }
            },
        }
    }

    /// A list with the parameters `ks` replaced by the levels `vs`.
    pub fn subst_levels(&mut self, ls: LevelsPtr, ks: LevelsPtr, vs: LevelsPtr) -> (r: Result<LevelsPtr, TcError>)
        requires
            old(self).wf(),
            old(self).ls_ok(ls),
            old(self).ls_ok(ks),
            old(self).ls_ok(vs),
        ensures
            r matches Err(e) ==> !(e is Reject),
            final(self).wf(),
            final(self).ext(old(self)),
            r matches Ok(i) ==> final(self).ls_ok(i) && final(self).ls(i) == Lvl::subst_seq(
                old(self).ls(ls),
                old(self).ls(ks),
                old(self).ls(vs),
            ),
            r is Err ==> r == Err::<LevelPtr, TcError>(TcError::Full),
    {
        let v = self.read_levels(ls);
        let ghost s = self.ls(ls);
        let ghost sk = self.ls(ks);
        let ghost sv = self.ls(vs);
        let mut out: Vec<LevelPtr> = Vec::new();
        let mut i: usize = 0;
        while i < v.len()
            invariant
                self.wf(),
                self.ext(old(self)),
                self.list_is(v@, s),
                self.ls_ok(ks),
                self.ls_ok(vs),
                self.ls(ks) == sk,
                self.ls(vs) == sv,
                i <= v.len(),
                out.len() == i,
                forall|j: int|
                    0 <= j < i ==> self.ok(#[trigger] out@[j]) && self.l(out@[j]) == s[j].subst(sk, sv),
            decreases v.len() - i,
        {
            assert(self.ok(v@[i as int]));
            let x = self.subst(v[i], ks, vs)?;
            out.push(x);
            i += 1;
        }
        proof {
            assert(self.list(out@) =~= Lvl::subst_seq(s, sk, sv));
        }
        self.alloc_levels_slice(&out)
    }

    /// The one-element list of `l`.
    fn singleton(&mut self, l: LevelPtr) -> (r: Result<LevelsPtr, TcError>)
        requires
            old(self).wf(),
            old(self).ok(l),
        ensures
            r matches Err(e) ==> !(e is Reject),
            final(self).wf(),
            final(self).ext(old(self)),
            r matches Ok(i) ==> final(self).ls_ok(i) && final(self).ls(i) == seq![old(self).l(l)],
            r is Err ==> r == Err::<LevelPtr, TcError>(TcError::Full),
    {
        let mut v: Vec<LevelPtr> = Vec::new();
        v.push(l);
        proof {
            assert(self.list(v@) =~= seq![self.l(l)]);
        }
        self.alloc_levels_slice(&v)
    }

    /// Whether `a` is at most `b` plus `d` is settled by the value of the
    /// parameter `p`: try zero, then a successor.
    fn leq_cases(&mut self, fuel: u32, p: LevelPtr, n: NamePtr, a: LevelPtr, b: LevelPtr, d: i64) -> (r: Result<
        bool,
        TcError,
    >)
        requires
            old(self).wf(),
            old(self).ok(p),
            old(self).l(p) == Lvl::Param(n),
            old(self).ok(a),
            old(self).ok(b),
        ensures
            r matches Err(e) ==> !(e is Reject),
            final(self).wf(),
            final(self).ext(old(self)),
            r matches Ok(true) ==> Lvl::leq(old(self).l(a), old(self).l(b), d as int),
            r matches Ok(false) ==> (old(self).l(b) is Zero ==> !Lvl::leq(old(self).l(a), old(self).l(b), d as int)),
        decreases fuel, 0int,
    {
        if fuel == 0 {
            return Err(TcError::Depth);
        }
        let ghost la = self.l(a);
        let ghost lb = self.l(b);
        proof {
            if Lvl::leq(la, lb, d as int) {
                Lvl::lemma_leq_at(la, lb, n, Lvl::Zero, d as int);
                Lvl::lemma_leq_at(la, lb, n, Lvl::succ(Lvl::Param(n)), d as int);
            }
        }
        let ks = self.singleton(p)?;
        let z = self.zero()?;
        let zs = self.singleton(z)?;
        let a0 = self.subst(a, ks, zs)?;
        let ghost ka0 = self.l(a0);
        let a0 = self.simplify(a0)?;
        let b0 = self.subst(b, ks, zs)?;
        let ghost kb0 = self.l(b0);
        let b0 = self.simplify(b0)?;
        let ghost ma0 = self.l(a0);
        let ghost mb0 = self.l(b0);
        proof {
            Lvl::lemma_simp_flat(ka0);
            if Lvl::leq(ka0, kb0, d as int) {
                Lvl::lemma_leq_equiv(ma0, ka0, mb0, kb0, d as int);
            }
        }
        if !self.leq_core(fuel - 1, a0, b0, d)? {
            return Ok(false);
        }
        let sp = self.succ(p)?;
        let ss = self.singleton(sp)?;
        let a1 = self.subst(a, ks, ss)?;
        let ghost ka1 = self.l(a1);
        let a1 = self.simplify(a1)?;
        let b1 = self.subst(b, ks, ss)?;
        let ghost kb1 = self.l(b1);
        let b1 = self.simplify(b1)?;
        let ghost ma1 = self.l(a1);
        let ghost mb1 = self.l(b1);
        proof {
            Lvl::lemma_simp_flat(ka1);
            if Lvl::leq(ka1, kb1, d as int) {
                Lvl::lemma_leq_equiv(ma1, ka1, mb1, kb1, d as int);
            }
        }
        if !self.leq_core(fuel - 1, a1, b1, d)? {
            return Ok(false);
        }
        proof {
            Lvl::lemma_leq_equiv(ka0, ma0, kb0, mb0, d as int);
            Lvl::lemma_leq_equiv(ka1, ma1, kb1, mb1, d as int);
            Lvl::lemma_cases(la, lb, n, d as int);
        }
        Ok(true)
    }

    /// `a` is at most `b` plus `d`, decided by the structure of the two.
    fn leq_core(&mut self, fuel: u32, a: LevelPtr, b: LevelPtr, d: i64) -> (r: Result<bool, TcError>)
        requires
            old(self).wf(),
            old(self).ok(a),
            old(self).ok(b),
        ensures
            r matches Err(e) ==> !(e is Reject),
            final(self).wf(),
            final(self).ext(old(self)),
            r matches Ok(true) ==> Lvl::leq(old(self).l(a), old(self).l(b), d as int),
            // against zero, no is as reliable as yes
            r matches Ok(false) ==> (old(self).l(b) is Zero && old(self).l(a).is_flat() ==> !Lvl::leq(
                old(self).l(a),
                old(self).l(b),
                d as int,
            )),
        decreases fuel, 1int,
    {
        if fuel == 0 || d < -0x4000_0000 || d > 0x4000_0000 {
            return Err(TcError::Depth);
        }
        let ghost la = self.l(a);
        let ghost lb = self.l(b);
        let na = self.read(a);
        let nb = self.read(b);
        proof {
            let p: u32 = if la is Param { la->Param_0 } else { 0 };
            let (x, y) = match la {
                Lvl::Succ(s) => (*s, *s),
                Lvl::Max(x, y) => (*x, *y),
                _ => (la, la),
            };
            Lvl::lemma_leq_back(x, lb, x, y, p, d as int);
            Lvl::lemma_leq_back(la, lb, x, y, p, d as int);
            reveal_with_fuel(Lvl::is_flat, 4);
        }
        match (na, nb) {
            (Level::Zero, _) if d >= 0 => {
                proof {
                    Lvl::lemma_leq_steps(la, lb, la, lb, d as int);
                }
                Ok(true)
            },
            (_, Level::Zero) if d < 0 => Ok(false),
            (Level::Param(p), Level::Param(q)) => {
                proof {
                    Lvl::lemma_leq_steps(la, lb, la, lb, d as int);
                }
                Ok(p == q && d >= 0)
            },
            (Level::Param(_), Level::Zero) => Ok(false),
            (Level::Zero, Level::Param(_)) => Ok(false),
            (Level::Succ(s), _) => {
                proof {
                    Lvl::lemma_leq_steps(self.l(s), lb, la, lb, d as int);
                }
                self.leq_core(fuel - 1, s, b, d - 1)
            },
            (_, Level::Succ(s)) => {
                proof {
                    Lvl::lemma_leq_steps(la, self.l(s), la, lb, d as int);
                }
                self.leq_core(fuel - 1, a, s, d + 1)
            },
            (Level::Max(x, y), _) => {
                proof {
                    Lvl::lemma_leq_steps(la, lb, self.l(x), self.l(y), d as int);
                }
                if !self.leq_core(fuel - 1, x, b, d)? {
                    return Ok(false);
                }
                self.leq_core(fuel - 1, y, b, d)
            },
            (Level::Param(_), Level::Max(x, y)) | (Level::Zero, Level::Max(x, y)) => {
                proof {
                    Lvl::lemma_leq_steps(la, lb, self.l(x), self.l(y), d as int);
                }
                if self.leq_core(fuel - 1, a, x, d)? {
                    return Ok(true);
                }
                self.leq_core(fuel - 1, a, y, d)
            },
            (Level::IMax(x, y), _) => {
                if a == b && d >= 0 {
                    proof {
                        Lvl::lemma_leq_steps(la, lb, la, lb, d as int);
                    }
                    return Ok(true);
                }
                match self.read(y) {
                    Level::Param(n) => self.leq_cases(fuel - 1, y, n, a, b, d),
                    Level::IMax(u, v) => {
                        proof {
                            Lvl::lemma_imax_flat(self.l(x), self.l(u), self.l(v));
                            Lvl::lemma_equiv_refl(lb);
                        }
                        let p = self.imax(x, v)?;
                        let m = self.mk(Level::Max(p, y))?;
                        let ghost lm = self.l(m);
                        let r = self.leq_core(fuel - 1, m, b, d)?;
                        proof {
                            if r {
                                Lvl::lemma_leq_equiv(la, lm, lb, lb, d as int);
                            } else if Lvl::leq(la, lb, d as int) {
                                Lvl::lemma_leq_equiv(lm, la, lb, lb, d as int);
                            }
                        }
                        Ok(r)
                    },
                    Level::Max(u, v) => {
                        proof {
                            Lvl::lemma_imax_flat(self.l(x), self.l(u), self.l(v));
                            Lvl::lemma_equiv_refl(lb);
                        }
                        let p = self.imax(x, u)?;
                        let q = self.imax(x, v)?;
                        let m = self.mk(Level::Max(p, q))?;
                        let ghost lm = self.l(m);
                        let m2 = self.simplify(m)?;
                        let ghost lm2 = self.l(m2);
                        let r = self.leq_core(fuel - 1, m2, b, d)?;
                        proof {
                            Lvl::lemma_simp_flat(lm);
                            Lvl::lemma_equiv_trans(lm2, lm, la);
                            if r {
                                Lvl::lemma_leq_equiv(la, lm2, lb, lb, d as int);
                            } else if Lvl::leq(la, lb, d as int) {
                                Lvl::lemma_leq_equiv(lm2, la, lb, lb, d as int);
                            }
                        }
                        Ok(r)
                    },
                    _ => Ok(false),
                }
            },
            (_, Level::IMax(x, y)) => {
                match self.read(y) {
                    Level::Param(n) => self.leq_cases(fuel - 1, y, n, a, b, d),
                    Level::IMax(u, v) => {
                        proof {
                            Lvl::lemma_imax_flat(self.l(x), self.l(u), self.l(v));
                            Lvl::lemma_equiv_refl(la);
                        }
                        let p = self.imax(x, v)?;
                        let m = self.mk(Level::Max(p, y))?;
                        let ghost lm = self.l(m);
                        let r = self.leq_core(fuel - 1, a, m, d)?;
                        proof {
                            if r {
                                Lvl::lemma_leq_equiv(la, la, lb, lm, d as int);
                            }
                        }
                        Ok(r)
                    },
                    Level::Max(u, v) => {
                        proof {
                            Lvl::lemma_imax_flat(self.l(x), self.l(u), self.l(v));
                            Lvl::lemma_equiv_refl(la);
                        }
                        let p = self.imax(x, u)?;
                        let q = self.imax(x, v)?;
                        let m = self.mk(Level::Max(p, q))?;
                        let ghost lm = self.l(m);
                        let m2 = self.simplify(m)?;
                        let ghost lm2 = self.l(m2);
                        let r = self.leq_core(fuel - 1, a, m2, d)?;
                        proof {
                            if r {
                                Lvl::lemma_equiv_trans(lm2, lm, lb);
                                Lvl::lemma_leq_equiv(la, la, lb, lm2, d as int);
                            }
                        }
                        Ok(r)
                    },
                    _ => Ok(false),
                }
            },
            _ => Ok(false),
        }
    }

    /// `a` is at most `b` whatever their parameters stand for.
    pub fn leq(&mut self, a: LevelPtr, b: LevelPtr) -> (r: Result<bool, TcError>)
        requires
            old(self).wf(),
            old(self).ok(a),
            old(self).ok(b),
        ensures
            r matches Err(e) ==> !(e is Reject),
            final(self).wf(),
            final(self).ext(old(self)),
            r matches Ok(true) ==> Lvl::leq(old(self).l(a), old(self).l(b), 0),
            r matches Ok(false) ==> (old(self).l(b) is Zero ==> !Lvl::leq(old(self).l(a), old(self).l(b), 0)),
    {
        let ghost la = self.l(a);
        let ghost lb = self.l(b);
        let a2 = self.simplify(a)?;
        let b2 = self.simplify(b)?;
        let ghost la2 = self.l(a2);
        let ghost lb2 = self.l(b2);
        let r = self.leq_core(LEQ_DEPTH, a2, b2, 0)?;
        proof {
            Lvl::lemma_simp_flat(la);
            if r {
                Lvl::lemma_leq_equiv(la, la2, lb, lb2, 0);
            } else if Lvl::leq(la, lb, 0) {
                Lvl::lemma_leq_equiv(la2, la, lb2, lb, 0);
            }
        }
        Ok(r)
    }

    /// Whether two levels are equivalent, by antisymmetry of the order.
    pub fn eq_antisymm(&mut self, a: LevelPtr, b: LevelPtr) -> (r: Result<bool, TcError>)
        requires
            old(self).wf(),
            old(self).ok(a),
            old(self).ok(b),
        ensures
            r matches Err(e) ==> !(e is Reject),
            final(self).wf(),
            final(self).ext(old(self)),
            r matches Ok(true) ==> old(self).l(a).equiv(old(self).l(b)),
            a == b ==> r == Ok::<bool, TcError>(true),
    {
        if a == b {
            return Ok(true);
        }
        let ghost la = self.l(a);
        let ghost lb = self.l(b);
        if !self.leq(a, b)? {
            return Ok(false);
        }
        let r = self.leq(b, a)?;
        proof {
            if r {
                assert forall|v: spec_fn(u32) -> nat| #[trigger] la.eval(v) == lb.eval(v) by {
                    assert(la.eval(v) <= lb.eval(v) + 0);
                    assert(lb.eval(v) <= la.eval(v) + 0);
                }
            }
        }
        Ok(r)
    }

    /// Whether two lists are equivalent level by level.
    pub fn eq_antisymm_many(&mut self, a: LevelsPtr, b: LevelsPtr) -> (r: Result<bool, TcError>)
        requires
            old(self).wf(),
            old(self).ls_ok(a),
            old(self).ls_ok(b),
        ensures
            r matches Err(e) ==> !(e is Reject),
            final(self).wf(),
            final(self).ext(old(self)),
            r matches Ok(true) ==> Lvl::equiv_seq(old(self).ls(a), old(self).ls(b)),
            a == b ==> r == Ok::<bool, TcError>(true),
    {
        if a == b {
            return Ok(true);
        }
        let va = self.read_levels(a);
        let vb = self.read_levels(b);
        if va.len() != vb.len() {
            return Ok(false);
        }
        let ghost sa = self.ls(a);
        let ghost sb = self.ls(b);
        let mut i: usize = 0;
        while i < va.len()
            invariant
                self.wf(),
                self.ext(old(self)),
                a != b,
                va.len() == vb.len(),
                self.list_is(va@, sa),
                self.list_is(vb@, sb),
                i <= va.len(),
                forall|j: int| 0 <= j < i ==> sa[j].equiv(sb[j]),
            decreases va.len() - i,
        {
            assert(self.ok(va@[i as int]) && self.ok(vb@[i as int]));
            if !self.eq_antisymm(va[i], vb[i])? {
                return Ok(false);
            }
            i += 1;
        }
        Ok(true)
    }

    /// Whether the level is zero whatever its parameters stand for.
    pub fn is_zero(&mut self, l: LevelPtr) -> (r: Result<bool, TcError>)
        requires
            old(self).wf(),
            old(self).ok(l),
        ensures
            r matches Err(e) ==> !(e is Reject),
            final(self).wf(),
            final(self).ext(old(self)),
            r matches Ok(b) ==> b == old(self).l(l).is_zero(),
            old(self).l(l) == Lvl::Zero ==> r == Ok::<bool, TcError>(true),
    {
        match self.read(l) {
            Level::Zero => {
                return Ok(true);
            },
            _ => {},
        }
        let ghost ll = self.l(l);
        let z = self.zero()?;
        let r = self.leq(l, z)?;
        proof {
            if r {
                assert forall|v: spec_fn(u32) -> nat| #[trigger] ll.eval(v) == 0 by {
                    assert(ll.eval(v) <= Lvl::Zero.eval(v) + 0);
                }
            } else if ll.is_zero() {
                assert(Lvl::leq(ll, Lvl::Zero, 0));
            }
        }
        Ok(r)
    }

    /// Whether a list holds only parameters, none of them twice.
    pub fn no_dupes_all_params(&self, ls: LevelsPtr) -> (r: bool)
        requires
            self.wf(),
            self.ls_ok(ls),
        ensures
            r == (self.ls(ls).no_duplicates() && forall|i: int| 0 <= i < self.ls(ls).len()
                ==> #[trigger] self.ls(ls)[i] is Param),
    {
        let v = self.read_levels(ls);
        let ghost s = self.ls(ls);
        let mut i: usize = 0;
        while i < v.len()
            invariant
                self.wf(),
                self.list_is(v@, s),
                s == self.ls(ls),
                i <= v.len(),
                forall|j: int| 0 <= j < i ==> #[trigger] s[j] is Param,
                forall|j: int, k: int| 0 <= j < k < i ==> s[j] != s[k],
            decreases v.len() - i,
        {
            assert(self.ok(v@[i as int]));
            match self.read(v[i]) {
                Level::Param(_) => {},
                _ => {
                    assert(!(s[i as int] is Param));
                    return false;
                },
            }
            let mut j: usize = 0;
            while j < i
                invariant
                    self.wf(),
                    self.list_is(v@, s),
                    s == self.ls(ls),
                    j <= i < v.len(),
                    forall|k: int| 0 <= k < j ==> #[trigger] s[k] != s[i as int],
                decreases i - j,
            {
                assert(self.ok(v@[i as int]) && self.ok(v@[j as int]));
                if v[j] == v[i] {
                    assert(s[j as int] == s[i as int]);
                    return false;
                }
                proof {
                    if s[j as int] == s[i as int] {
                        self.lemma_injective(v@[j as int], v@[i as int]);
                    }
                }
                j += 1;
            }
            i += 1;
        }
        true
    }
}

/// Recursion limit of the level order.
pub const LEQ_DEPTH: u32 = 0x10_0000;

} // verus!
