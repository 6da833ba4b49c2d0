//! What the delayed-instantiation core remembers.
//!
//! Terms in flight are closures over interned environments; entering a binder
//! extends an environment in constant time; reduction and comparison run on
//! closures applied to closures; substitution is forced only at type
//! boundaries.
use crate::closure::Clo;
use crate::ctx::World;
use crate::expr::Store;
use crate::table::{SliceTable, Tab};
use crate::term::Term;
use vstd::prelude::*;

verus! {

/// A head and the closures it is applied to, in order.
pub struct RClo {
    pub head: Clo,
    pub spine: Vec<Clo>,
}

/// Memos of the delayed-instantiation core.
pub struct RapierSt {
    /// Closures whose weak head normal form is known, and where it is held.
    pub whnf: Tab<u32>,
    pub results: Vec<RClo>,
    /// Pairs of closures found equal, and pairs not found equal.
    pub eq_pos: Tab<bool>,
    pub eq_neg: Tab<bool>,
    /// Applications as lists of closures.
    pub keys: SliceTable,
    /// Pairs of applications found equal, and pairs not found equal.
    pub eq_s_pos: Tab<bool>,
    pub eq_s_neg: Tab<bool>,
    /// Types of applications, inferred only and checked.
    pub infer_s: Tab<u32>,
    /// Whether a closure under so many binders has a free variable.
    pub clo_fvar: Tab<bool>,
    /// Levels compared.
    pub lvl_eq: Tab<bool>,
    /// Constants and their fused values.
    pub g_fused: Tab<u32>,
}

/// One word of a key holds the expression below this, the environment above.
pub const KEY_WORD: u64 = 0x1_0000_0000;

impl World {
    /// A closure without evaluated entries, named and in scope.
    pub open spec fn pclo_ok(self, st: &Store, c: Clo) -> bool {
        st.e_ok(c.e) && self.n_ok(c.env) && st.e(c.e).nl() <= self.n(c.env).len() && self.plain(c.env)
    }

    /// The term a closure stands for.
    pub open spec fn pclo(self, st: &Store, c: Clo) -> Term {
        st.e(c.e).inst(0, self.n(c.env))
    }

    pub open spec fn pclos_ok(self, st: &Store, v: Seq<Clo>) -> bool {
        forall|i: int| 0 <= i < v.len() ==> self.pclo_ok(st, #[trigger] v[i])
    }

    pub open spec fn pclos(self, st: &Store, v: Seq<Clo>) -> Seq<Term> {
        Seq::new(v.len(), |i: int| self.pclo(st, v[i]))
    }

    /// The closure a word of a key names.
    pub open spec fn key_clo(w: u64) -> Clo {
        Clo { e: (w % KEY_WORD) as u32, env: (w / KEY_WORD) as u32 }
    }

    pub open spec fn key_clos(k: Seq<u64>) -> Seq<Clo> {
        Seq::new(k.len(), |i: int| World::key_clo(k[i]))
    }

    /// The application a key names.
    pub open spec fn key_ok(self, st: &Store, k: Seq<u64>) -> bool {
        k.len() > 0 && self.pclos_ok(st, World::key_clos(k))
    }

    pub open spec fn key_term(self, st: &Store, k: Seq<u64>) -> Term {
        let cs = self.pclos(st, World::key_clos(k));
        Term::apps(cs[0], cs.skip(1))
    }

    pub proof fn lemma_pclos_ext(self, o: World, st: &Store, ost: &Store, v: Seq<Clo>)
        requires
            self.ext(o),
            st.ext(ost),
            o.pclos_ok(ost, v),
        ensures
            self.pclos_ok(st, v),
            self.pclos(st, v) == o.pclos(ost, v),
    {
        assert forall|i: int| 0 <= i < v.len() implies self.pclo_ok(st, #[trigger] v[i])
            && self.pclo(st, v[i]) == o.pclo(
            ost,
            v[i],
        ) by {
            assert(o.pclo_ok(ost, v[i]));
        }
        assert(self.pclos(st, v) =~= o.pclos(ost, v));
    }
}

impl RapierSt {
    pub fn new() -> (r: RapierSt)
        ensures
            r.empty(),
    {
        RapierSt {
            whnf: Tab::new(),
            results: Vec::new(),
            eq_pos: Tab::new(),
            eq_neg: Tab::new(),
            keys: SliceTable::new(),
            eq_s_pos: Tab::new(),
            eq_s_neg: Tab::new(),
            infer_s: Tab::new(),
            clo_fvar: Tab::new(),
            lvl_eq: Tab::new(),
            g_fused: Tab::new(),
        }
    }

    /// Nothing is remembered.
    pub open spec fn empty(&self) -> bool {
        &&& self.keys.wf()
        &&& self.whnf@ == Map::<(u32, u32, u32, u32), u32>::empty()
        &&& self.eq_pos@ == Map::<(u32, u32, u32, u32), bool>::empty()
        &&& self.eq_s_pos@ == Map::<(u32, u32, u32, u32), bool>::empty()
        &&& self.infer_s@ == Map::<(u32, u32, u32, u32), u32>::empty()
        &&& self.clo_fvar@ == Map::<(u32, u32, u32, u32), bool>::empty()
        &&& self.lvl_eq@ == Map::<(u32, u32, u32, u32), bool>::empty()
        &&& self.g_fused@ == Map::<(u32, u32, u32, u32), u32>::empty()
    }

    /// A remembered weak head normal form.
    pub open spec fn whnf_fact(&self, w: World, st: &Store, e: u32, n: u32, i: u32) -> bool {
        let c = Clo { e, env: n };
        &&& w.pclo_ok(st, c)
        &&& i < self.results@.len()
        &&& w.pclo_ok(st, self.results@[i as int].head)
        &&& w.pclos_ok(st, self.results@[i as int].spine@)
        &&& w.g.red(
            w.pclo(st, c),
            Term::apps(w.pclo(st, self.results@[i as int].head), w.pclos(st, self.results@[i as int].spine@)),
        )
        &&& Term::apps(
            w.pclo(st, self.results@[i as int].head),
            w.pclos(st, self.results@[i as int].spine@),
        ).headed()
    }

    pub open spec fn eq_fact(w: World, st: &Store, a: Clo, b: Clo) -> bool {
        w.pclo_ok(st, a) && w.pclo_ok(st, b) && w.g.eq(w.pclo(st, a), w.pclo(st, b))
    }

    pub open spec fn eq_s_fact(&self, w: World, st: &Store, i: u32, j: u32) -> bool {
        &&& i < self.keys@.len()
        &&& j < self.keys@.len()
        &&& w.key_ok(st, self.keys@[i as int])
        &&& w.key_ok(st, self.keys@[j as int])
        &&& w.g.eq(w.key_term(st, self.keys@[i as int]), w.key_term(st, self.keys@[j as int]))
    }

    pub open spec fn infer_s_fact(&self, w: World, st: &Store, i: u32, k: u32, r: u32) -> bool {
        &&& i < self.keys@.len()
        &&& w.key_ok(st, self.keys@[i as int])
        &&& st.e_ok(r)
        &&& st.e(r).nl() == 0
        &&& w.g.ty(k == 1, w.key_term(st, self.keys@[i as int]), st.e(r))
    }

    pub open spec fn fvar_fact(w: World, st: &Store, e: u32, n: u32, k: u32, b: bool) -> bool {
        st.e_ok(e) && w.n_ok(n) && b == st.e(e).inst(k as nat, w.n(n)).has_fv()
    }

    pub open spec fn fused_fact(w: World, st: &Store, e: u32, r: u32) -> bool {
        st.e_ok(e) && st.e_ok(r) && st.e(r).nl() == 0 && w.g.red(st.e(e), st.e(r))
    }

    /// What is remembered is true.
    #[verifier::opaque]
    pub open spec fn ok(&self, w: World, st: &Store) -> bool {
        &&& self.keys.wf()
        &&& forall|e: u32, n: u32| #[trigger]
            self.whnf@.contains_key((e, n, 0, 0)) ==> self.whnf_fact(w, st, e, n, self.whnf@[(e, n, 0, 0)])
        &&& forall|a: u32, b: u32, c: u32, d: u32| #[trigger]
            self.eq_pos@.contains_key((a, b, c, d)) ==> RapierSt::eq_fact(
                w,
                st,
                Clo { e: a, env: b },
                Clo { e: c, env: d },
            )
        &&& forall|i: u32, j: u32| #[trigger] self.eq_s_pos@.contains_key((i, j, 0, 0)) ==> self.eq_s_fact(w, st, i, j)
        &&& forall|i: u32, k: u32| #[trigger]
            self.infer_s@.contains_key((i, k, 0, 0)) ==> self.infer_s_fact(w, st, i, k, self.infer_s@[(i, k, 0, 0)])
        &&& forall|e: u32, n: u32, k: u32| #[trigger]
            self.clo_fvar@.contains_key((e, n, k, 0))
                ==> RapierSt::fvar_fact(w, st, e, n, k, self.clo_fvar@[(e, n, k, 0)])
        &&& forall|a: u32, b: u32| #[trigger]
            self.lvl_eq@.contains_key((a, b, 0, 0))
                ==> st.l_ok(a) && st.l_ok(b) && (self.lvl_eq@[(a, b, 0, 0)] ==> st.l(a).equiv(
                st.l(b),
            ))
        &&& forall|e: u32| #[trigger]
            self.g_fused@.contains_key((e, 0, 0, 0)) ==> RapierSt::fused_fact(w, st, e, self.g_fused@[(e, 0, 0, 0)])
    }

    pub proof fn lemma_empty(&self, w: World, st: &Store)
        requires
            self.empty(),
        ensures
            self.ok(w, st),
    {
        reveal(RapierSt::ok);
    }

    /// What is remembered stays true as more is named.
    pub proof fn lemma_ext(&self, w: World, o: World, st: &Store, ost: &Store)
        requires
            self.ok(o, ost),
            w.ext(o),
            st.ext(ost),
        ensures
            self.ok(w, st),
    {
        reveal(RapierSt::ok);
        assert forall|e: u32, n: u32| #[trigger] self.whnf@.contains_key((e, n, 0, 0)) implies self.whnf_fact(
            w,
            st,
            e,
            n,
            self.whnf@[(e, n, 0, 0)],
        ) by {
            let i = self.whnf@[(e, n, 0, 0)];
            assert(self.whnf_fact(o, ost, e, n, i));
            w.lemma_pclos_ext(o, st, ost, self.results@[i as int].spine@);
        }
        assert forall|i: u32, j: u32| #[trigger] self.eq_s_pos@.contains_key((i, j, 0, 0)) implies self.eq_s_fact(
            w,
            st,
            i,
            j,
        ) by {
            assert(self.eq_s_fact(o, ost, i, j));
            w.lemma_pclos_ext(o, st, ost, World::key_clos(self.keys@[i as int]));
            w.lemma_pclos_ext(o, st, ost, World::key_clos(self.keys@[j as int]));
        }
        assert forall|i: u32, k: u32| #[trigger] self.infer_s@.contains_key((i, k, 0, 0)) implies self.infer_s_fact(
            w,
            st,
            i,
            k,
            self.infer_s@[(i, k, 0, 0)],
        ) by {
            assert(self.infer_s_fact(o, ost, i, k, self.infer_s@[(i, k, 0, 0)]));
            w.lemma_pclos_ext(o, st, ost, World::key_clos(self.keys@[i as int]));
        }
        assert forall|a: u32, b: u32, c: u32, d: u32| #[trigger]
            self.eq_pos@.contains_key((a, b, c, d)) implies RapierSt::eq_fact(
            w,
            st,
            Clo { e: a, env: b },
            Clo { e: c, env: d },
        ) by {
            assert(RapierSt::eq_fact(o, ost, Clo { e: a, env: b }, Clo { e: c, env: d }));
        }
        assert forall|e: u32, n: u32, k: u32| #[trigger]
            self.clo_fvar@.contains_key((e, n, k, 0)) implies RapierSt::fvar_fact(
            w,
            st,
            e,
            n,
            k,
            self.clo_fvar@[(e, n, k, 0)],
        ) by {
            assert(RapierSt::fvar_fact(o, ost, e, n, k, self.clo_fvar@[(e, n, k, 0)]));
        }
        assert forall|e: u32| #[trigger] self.g_fused@.contains_key((e, 0, 0, 0)) implies RapierSt::fused_fact(
            w,
            st,
            e,
            self.g_fused@[(e, 0, 0, 0)],
        ) by {
            assert(RapierSt::fused_fact(o, ost, e, self.g_fused@[(e, 0, 0, 0)]));
        }
    }
}

} // verus!
