//! What holds of the kernel as a whole.
use crate::check::ExportFile;
use crate::closure::{Entry, EnvId, VIEW_BIT};
use crate::collect::{mult, Nodes};
use crate::ctx::TcCtx;
use crate::env::Env;
use crate::expr::{ExprPtr, Store};
use crate::level::LevelPtr;
use crate::nbe::{SpineId, ValId, Value, Vals};
use crate::rc::{Counts, Kind, Word, COUNT_MAX};
use crate::term::{BinderStyle, FVarId, Term};
use crate::theory::Sig;
use vstd::prelude::*;

verus! {

// ---- interning ----

impl Value {
    /// Two values are built alike: from one head and spine, from one constant
    /// and spine, from one binder type or domain, environment and body, or
    /// from one level or literal.  What is recorded in cells and how a binder
    /// is called have no part in it.
    pub open spec fn built_alike(self, o: Value) -> bool {
        match (self, o) {
            (Value::Rigid { head: h, spine: s }, Value::Rigid { head: i, spine: t }) => h == i && s == t,
            (
                Value::Unfold { name: n, levels: l, spine: s, .. },
                Value::Unfold { name: m, levels: k, spine: t, .. },
            ) => n == m && l == k && s == t,
            (
                Value::Lam { binder_type: a, env: e, body: b, .. },
                Value::Lam { binder_type: c, env: f, body: d, .. },
            ) => a == c && e == f && b == d,
            (Value::Pi { domain: a, env: e, body: b, .. }, Value::Pi { domain: c, env: f, body: d, .. }) => a == c && e
                == f && b == d,
            (Value::Sort { level: a }, Value::Sort { level: b }) => a == b,
            (Value::NatLit { ptr: a }, Value::NatLit { ptr: b }) => a == b,
            (Value::StrLit { ptr: a }, Value::StrLit { ptr: b }) => a == b,
            _ => false,
        }
    }
}

/// Values built alike are one value: asking whether two values were built alike
/// is an integer comparison.
pub proof fn law_values_interned(ctx: &TcCtx, i: ValId, j: ValId)
    requires
        ctx.wf(),
        i < ctx.nb.vals@.len(),
        j < ctx.nb.vals@.len(),
        !(ctx.nb.vals@[i as int] is Thunk),
    ensures
        i == j <==> ctx.nb.vals@[i as int].built_alike(ctx.nb.vals@[j as int]),
{
    reveal(TcCtx::wf);
    reveal(Vals::named);
    assert(Vals::val_named(ctx.nb.tabs, ctx.nb.vals@[i as int], i as int));
    assert(Vals::val_named(ctx.nb.tabs, ctx.nb.vals@[j as int], j as int));
}

/// Spines built from one spine by one elimination are one spine.
pub proof fn law_spines_interned(ctx: &TcCtx, i: SpineId, j: SpineId)
    requires
        ctx.wf(),
        0 < i < ctx.nb.spines@.len(),
        0 < j < ctx.nb.spines@.len(),
    ensures
        i == j <==> ctx.nb.spines@[i as int].parent == ctx.nb.spines@[j as int].parent && ctx.nb.spines@[i as int].elim
            == ctx.nb.spines@[j as int].elim,
{
    reveal(TcCtx::wf);
    reveal(Vals::named);
    assert(Vals::spine_named(ctx.nb.tabs, ctx.nb.spines@[i as int], i as int));
    assert(Vals::spine_named(ctx.nb.tabs, ctx.nb.spines@[j as int], j as int));
}

/// Environments built from one environment by one entry are one environment.
pub proof fn law_envs_interned(ctx: &TcCtx, i: EnvId, j: EnvId)
    requires
        ctx.wf(),
        0 < i < ctx.rp.envs@.len(),
        0 < j < ctx.rp.envs@.len(),
    ensures
        i == j <==> ctx.rp.envs@[i as int].parent == ctx.rp.envs@[j as int].parent && ctx.rp.envs@[i as int].entry
            == ctx.rp.envs@[j as int].entry,
{
    reveal(TcCtx::wf);
    assert(ctx.rp.envs@[i as int] == ctx.rp.envs@[i as int]);
    assert(ctx.rp.envs@[j as int] == ctx.rp.envs@[j as int]);
}

/// Environments of the same entries are one environment.
pub proof fn law_entries_interned(ctx: &TcCtx, i: EnvId, j: EnvId)
    requires
        ctx.wf(),
        i < ctx.rp.envs@.len(),
        j < ctx.rp.envs@.len(),
    ensures
        i == j <==> ctx.w@.ents(i) == ctx.w@.ents(j),
    decreases i,
{
    reveal(TcCtx::wf);
    let (x, y) = (ctx.rp.envs@[i as int], ctx.rp.envs@[j as int]);
    let (a, b) = (ctx.w@.ents(i), ctx.w@.ents(j));
    assert(ctx.w@.env_ok(&ctx.st, i, x));
    assert(ctx.w@.env_ok(&ctx.st, j, y));
    if a == b && i != 0 && j != 0 {
        assert(a[0] == x.entry && b[0] == y.entry);
        assert(a.skip(1) =~= ctx.w@.ents(x.parent));
        assert(b.skip(1) =~= ctx.w@.ents(y.parent));
        law_entries_interned(ctx, x.parent, y.parent);
        law_envs_interned(ctx, i, j);
    }
}

/// Expressions that stand for one term are one expression.
pub proof fn law_exprs_interned(st: &Store, a: ExprPtr, b: ExprPtr)
    requires
        st.wf(),
        st.e_ok(a),
        st.e_ok(b),
    ensures
        a == b <==> st.e(a) == st.e(b),
{
    if st.e(a) == st.e(b) {
        st.lemma_e_injective(a, b);
    }
}

/// Level expressions that read alike are one level.
pub proof fn law_levels_interned(st: &Store, a: LevelPtr, b: LevelPtr)
    requires
        st.wf(),
        st.l_ok(a),
        st.l_ok(b),
    ensures
        a == b <==> st.l(a) == st.l(b),
{
    if st.l(a) == st.l(b) {
        st.lemma_l_injective(a, b);
    }
}

/// Two openings of one binder at one level give one variable, and a level
/// shared by binders of different types still gives two.
pub proof fn law_opened_variables(st: &Store, a: ExprPtr, b: ExprPtr, l: u32, m: u32, n: u32, s: BinderStyle, d: Term,
    e: Term)
    requires
        st.wf(),
        st.e_ok(a),
        st.e_ok(b),
        st.e(a) == Term::local(FVarId::DbjLevel(l), n, s, d),
        st.e(b) == Term::local(FVarId::DbjLevel(m), n, s, e),
    ensures
        a == b <==> l == m && d == e,
{
    law_exprs_interned(st, a, b);
}

/// Packing an extension request loses nothing.
pub proof fn law_entry_keys(env: EnvId, entry: Entry, env2: EnvId, entry2: Entry)
    ensures
        Entry::key(env, entry) == Entry::key(env2, entry2) <==> env == env2 && entry == entry2,
{
    if Entry::key(env, entry) == Entry::key(env2, entry2) {
        Entry::key_injective(env, entry, env2, entry2);
    }
}

/// A key names an environment or a view of one, never both: environment ids
/// stay below the bit that marks views.
pub proof fn law_views_apart(ctx: &TcCtx, n: EnvId)
    requires
        ctx.wf(),
        ctx.w@.n_ok(n),
    ensures
        n < VIEW_BIT,
{
    reveal(TcCtx::wf);
    ctx.nb.lemma_wf(&ctx.counts);
}

// ---- judgements ----

/// What a term reduces to is definitionally equal to it, so a fused body is
/// equal to the body it was made from.
pub proof fn law_reduct_equal(g: Sig, a: Term, b: Term)
    requires
        g.red(a, b),
    ensures
        g.eq(a, b),
        g.eq(b, a),
{
    Sig::eq_refl(g, b);
    Term::lemma_same_refl(b);
    Sig::r_same(g, b, b);
    Sig::e_red(g, a, b, b, b);
    Sig::e_sym(g, a, b);
}

/// Definitional equality may be asked in either order, and of any reducts.
pub proof fn law_equality_of_reducts(g: Sig, a: Term, a2: Term, b: Term, b2: Term)
    requires
        g.red(a, a2),
        g.red(b, b2),
        g.eq(b2, a2),
    ensures
        g.eq(a, b),
        g.eq(b, a),
{
    Sig::e_sym(g, b2, a2);
    Sig::e_red(g, a, a2, b, b2);
    Sig::e_sym(g, a, b);
}

// ---- declarations ----

/// A declaration is judged by what comes before it: declarations appended to
/// the file change nothing.
pub proof fn law_later_declarations(f: &ExportFile, h: &ExportFile, i: int)
    requires
        f.wf(),
        h.wf(),
        f.st == h.st,
        f.names == h.names,
        f.config == h.config,
        f.declars@.is_prefix_of(h.declars@),
        0 <= i < f.declars@.len(),
    ensures
        f.sig_of(i) == h.sig_of(i),
        !(f.declars@[i] is Constructor) && !(f.declars@[i] is Recursor) ==> f.accepts(i) == h.accepts(i),
{
    f.declars.lemma_wf();
    h.declars.lemma_wf();
    assert(f.declars@[i] == h.declars@[i]);
    assert forall|m: u32| #[trigger] Env::find_in(&f.declars, i, m) == Env::find_in(&h.declars, i, m) by {
        if let Some(p) = f.declars.pos(m) {
            assert(f.declars@[p as int] == h.declars@[p as int]);
            assert(h.declars.pos(h.declars@[p as int].info_spec().name) == Some(p));
        }
        if let Some(q) = h.declars.pos(m) {
            if q < i {
                assert(f.declars@[q as int] == h.declars@[q as int]);
                assert(f.declars.pos(f.declars@[q as int].info_spec().name) == Some(q));
            }
        }
    }
    let u = Some(f.st.ls(f.declars@[i].info_spec().uparams));
    assert(f.sig(i, u).decls =~= h.sig(i, u).decls);
}

// ---- reference counts ----

/// Taking a reference and giving it back leaves the count, unless it is
/// saturated, as it was.
pub proof fn law_reference_returned(w: u32)
    requires
        Word::of(w).count < COUNT_MAX,
    ensures
        Word::of(Counts::bumped(w)).count == Word::of(w).count + 1,
        Word::of(Counts::bumped(w)).alloc == Word::of(w).alloc,
        Word::of(Counts::bumped(w)).stamp == Word::of(w).stamp,
        (Counts::bumped(w) - 1) as u32 == w,
{
    assert(w % 0x1000 < 0xfff ==> (w + 1) % 0x1000 == w % 0x1000 + 1 && (w + 1) / 0x1000 == w as int / 0x1000);
}

proof fn lemma_mult_push(s: Seq<(Kind, u32)>, t: (Kind, u32))
    requires
        s.len() > 0,
    ensures
        mult(s, t) == mult(s.drop_last(), t) + (if s.last() == t {
            1nat
        } else {
            0nat
        }),
    decreases s.len(),
{
    reveal_with_fuel(mult, 2);
    if s.len() > 1 {
        lemma_mult_push(s.drop_first(), t);
        assert(s.drop_first().drop_last() =~= s.drop_last().drop_first());
        assert(s.drop_last()[0] == s[0]);
    } else {
        assert(s.drop_last().len() == 0);
        assert(s.drop_first().len() == 0);
    }
}

proof fn lemma_mult_none(s: Seq<(Kind, u32)>, t: (Kind, u32))
    requires
        forall|i: int| 0 <= i < s.len() ==> s[i] != t,
    ensures
        mult(s, t) == 0,
    decreases s.len(),
{
    if s.len() > 0 {
        lemma_mult_none(s.drop_first(), t);
    }
}

/// Bumping counts what it is given, up to saturation.
proof fn lemma_bump_count(w: Seq<u32>, k: Kind, ch: Seq<(Kind, u32)>, id: u32)
    requires
        id < w.len(),
    ensures
        Counts::bump_all(w, k, ch).len() == w.len(),
        Word::of(Counts::bump_all(w, k, ch)[id as int]).alloc == Word::of(w[id as int]).alloc,
        ({
            let n = Word::of(w[id as int]).count + mult(ch, (k, id));
            Word::of(Counts::bump_all(w, k, ch)[id as int]).count == (if n < COUNT_MAX {
                n
            } else {
                COUNT_MAX as nat
            })
        }),
    decreases ch.len(),
{
    if ch.len() > 0 {
        lemma_bump_count(w, k, ch.drop_last(), id);
        lemma_mult_push(ch, (k, id));
        let v = Counts::bump_all(w, k, ch.drop_last());
        if ch.last() == (k, id) {
            let x = v[id as int];
            if Word::of(x).count < COUNT_MAX {
                law_reference_returned(x);
            }
        }
    }
}

impl Nodes {
    proof fn lemma_tally_grow(self, o: Nodes, v: Seq<u32>, w: Seq<u32>, k: Kind, n: nat, t: (Kind, u32))
        requires
            forall|i: int| 0 <= i < n ==> Word::of(#[trigger] v[i]).alloc == Word::of(w[i]).alloc,
            forall|i: int| 0 <= i < n ==> #[trigger] self.kids(k, i) == o.kids(k, i),
        ensures
            self.tally(v, k, n, t) == o.tally(w, k, n, t),
        decreases n,
    {
        if n > 0 {
            self.lemma_tally_grow(o, v, w, k, (n - 1) as nat, t);
            assert(Word::of(v[n - 1]).alloc == Word::of(w[n - 1]).alloc);
            assert(self.kids(k, n - 1) == o.kids(k, n - 1));
        }
    }

    proof fn lemma_tally_none(self, w: Seq<u32>, k: Kind, n: nat, t: (Kind, u32))
        requires
            forall|i: int, j: int| 0 <= i < n && 0 <= j < self.kids(k, i).len() ==> #[trigger] self.kids(k, i)[j] != t,
        ensures
            self.tally(w, k, n, t) == 0,
        decreases n,
    {
        if n > 0 {
            self.lemma_tally_none(w, k, (n - 1) as nat, t);
            lemma_mult_none(self.kids(k, n - 1), t);
        }
    }

    /// `self` is `o` and one more node of kind `k`, which holds `ch`.
    pub open spec fn adds(self, o: Nodes, k: Kind, ch: Seq<(Kind, u32)>) -> bool {
        &&& forall|k2: Kind|
            #[trigger] self.len(k2) == o.len(k2) + (if k2 == k {
                1nat
            } else {
                0nat
            })
        &&& forall|k2: Kind, i: int| 0 <= i < o.len(k2) ==> #[trigger] self.kids(k2, i) == o.kids(k2, i)
        &&& self.kids(k, o.len(k) as int) == ch
        &&& self.caches == o.caches
    }
}

/// Every count goes on covering its holders as a node is added: each of its
/// children gains one, and the node itself starts with none.
pub proof fn law_counts_cover(n: Nodes, o: Nodes, d: &Counts, m: &Counts, c: &Counts, k: Kind, ch: Seq<(Kind, u32)>)
    requires
        o.tallied(c),
        n.adds(o, k, ch),
        o.len(k) < 0x8000_0000,
        k == Kind::Val || o.len(k) > 0,
        c.live_all(ch),
        m.bumps(c, ch),
        d.only_words(m, k, m.words(k).push(d.words(k).last())),
        Word::of(d.words(k).last()) == (Word { alloc: true, stamp: 0, count: 0 }),
    ensures
        n.tallied(d),
{
    let e = Seq::<(Kind, u32)>::empty();
    let fresh = o.len(k) as u32;
    assert forall|k2: Kind| #[trigger] m.words(k2) == Counts::bump_all(c.words(k2), k2, ch) by {}
    assert forall|k2: Kind, id: u32| id < o.len(k2) implies #[trigger] d.live(k2, id) == c.live(k2, id)
        && d.count(k2, id)
        == (if c.count(k2, id) + mult(ch, (k2, id)) < COUNT_MAX {
        c.count(k2, id) + mult(ch, (k2, id))
    } else {
        COUNT_MAX as nat
    }) && d.words(k2).len() == n.len(k2) by {
        assert(c.words(k2).len() == o.len(k2));
        assert(n.len(k2) == o.len(k2) + (if k2 == k {
            1nat
        } else {
            0nat
        }));
        lemma_bump_count(c.words(k2), k2, ch, id);
        assert(m.words(k2) == Counts::bump_all(c.words(k2), k2, ch));
        if k2 != k {
            assert(d.words(k2) == m.words(k2));
        }
    }
    assert forall|k2: Kind| #[trigger] d.words(k2).len() == n.len(k2) <= 0x8000_0000 by {
        assert(c.words(k2).len() == o.len(k2));
        assert(n.len(k2) == o.len(k2) + (if k2 == k {
            1nat
        } else {
            0nat
        }));
        Counts::lemma_bump_all(c.words(k2), k2, ch);
        assert(m.words(k2) == Counts::bump_all(c.words(k2), k2, ch));
        if k2 != k {
            assert(d.words(k2) == m.words(k2));
        }
    }
    assert forall|j: int| 0 <= j < ch.len() implies (#[trigger] ch[j]).1 < o.len(ch[j].0) by {
        assert(c.live(ch[j].0, ch[j].1));
        assert(c.words(ch[j].0).len() == o.len(ch[j].0));
    }
    assert forall|k2: Kind, i: int, j: int| 0 <= i < n.len(k2) && 0 <= j < n.kids(k2, i).len() implies (
        #[trigger] n.kids(k2, i)[j]
    ).1 < o.len(n.kids(k2, i)[j].0) by {
        assert(n.len(k2) == o.len(k2) + (if k2 == k {
            1nat
        } else {
            0nat
        }));
        if i < o.len(k2) {
            assert(n.kids(k2, i) == o.kids(k2, i));
            assert(o.kids(k2, i)[j].1 < o.len(o.kids(k2, i)[j].0));
        }
    }
    assert(n.sized(d)) by {
        assert forall|v: u32| #[trigger] n.cached((Kind::Val, v)) > 0 implies v < n.vals.len() by {
            assert(o.cached((Kind::Val, v)) > 0);
            assert(n.len(Kind::Val) >= o.len(Kind::Val));
        }
        assert forall|k2: Kind, i: int, j: int| 0 <= i < n.len(k2) && 0 <= j < n.kids(k2, i).len() implies (
            #[trigger] n.kids(k2, i)[j]
        ).1 < n.len(n.kids(k2, i)[j].0) by {
            let q = n.kids(k2, i)[j].0;
            assert(n.len(q) >= o.len(q)) by {
                assert(n.len(q) == o.len(q) + (if q == k {
                    1nat
                } else {
                    0nat
                }));
            }
        }
    }
    assert forall|k2: Kind, id: u32| id < n.len(k2) implies #[trigger] n.covered(d, e, k2, id) by {
        let t = (k2, id);
        if id < o.len(k2) {
            assert(d.live(k2, id) == c.live(k2, id));
            assert(o.covered(c, e, k2, id));
            lemma_holders_grow(n, o, d, c, k, ch, t);
            assert(n.cached(t) == o.cached(t));
            if !c.live(k2, id) {
                assert forall|j: int| 0 <= j < ch.len() implies ch[j] != t by {
                    assert(c.live(ch[j].0, ch[j].1));
                }
                lemma_mult_none(ch, t);
            }
        } else {
            assert(n.len(k2) == o.len(k2) + (if k2 == k {
                1nat
            } else {
                0nat
            }));
            assert(k2 == k && id == fresh);
            n.lemma_tally_none(d.words(Kind::Val), Kind::Val, n.vals.len(), t);
            n.lemma_tally_none(d.words(Kind::Spine), Kind::Spine, n.spines.len(), t);
            n.lemma_tally_none(d.words(Kind::Env), Kind::Env, n.envs.len(), t);
            assert(n.holders(d, t) == 0);
            assert(n.cached(t) == o.cached(t));
            if k == Kind::Val {
                assert(o.cached((Kind::Val, fresh)) == 0);
            }
            assert(d.words(k).len() == n.len(k));
            assert(d.live(k, fresh));
        }
    }
}

/// The holders of a node are those it had and the new node's references.
proof fn lemma_holders_grow(n: Nodes, o: Nodes, d: &Counts, c: &Counts, k: Kind, ch: Seq<(Kind, u32)>, t: (Kind, u32))
    requires
        n.adds(o, k, ch),
        o.sized(c),
        n.sized(d),
        forall|k2: Kind, id: u32| id < o.len(k2) ==> #[trigger] d.live(k2, id) == c.live(k2, id),
        Word::of(d.words(k).last()).alloc,
    ensures
        n.holders(d, t) == o.holders(c, t) + mult(ch, t),
{
    assert forall|k2: Kind| #[trigger] n.tally(d.words(k2), k2, o.len(k2), t)
        == o.tally(c.words(k2), k2, o.len(k2), t) by {
        assert(c.words(k2).len() == o.len(k2));
        assert(d.words(k2).len() == n.len(k2));
        assert(n.len(k2) >= o.len(k2)) by {
            assert(n.len(k2) == o.len(k2) + (if k2 == k {
                1nat
            } else {
                0nat
            }));
        }
        assert forall|i: int| 0 <= i < o.len(k2) implies Word::of(#[trigger] d.words(k2)[i]).alloc == Word::of(
            c.words(k2)[i],
        ).alloc by {
            assert(d.live(k2, i as u32) == c.live(k2, i as u32));
        }
        n.lemma_tally_grow(o, d.words(k2), c.words(k2), k2, o.len(k2), t);
    }
    assert(n.tally(d.words(Kind::Val), Kind::Val, o.len(Kind::Val), t) == o.tally(
        c.words(Kind::Val),
        Kind::Val,
        o.len(Kind::Val),
        t,
    ));
    assert(n.tally(d.words(Kind::Spine), Kind::Spine, o.len(Kind::Spine), t) == o.tally(
        c.words(Kind::Spine),
        Kind::Spine,
        o.len(Kind::Spine),
        t,
    ));
    assert(n.tally(d.words(Kind::Env), Kind::Env, o.len(Kind::Env), t) == o.tally(
        c.words(Kind::Env),
        Kind::Env,
        o.len(Kind::Env),
        t,
    ));
    assert(n.len(Kind::Val) == o.len(Kind::Val) + (if Kind::Val == k {
        1nat
    } else {
        0nat
    }));
    assert(n.len(Kind::Spine) == o.len(Kind::Spine) + (if Kind::Spine == k {
        1nat
    } else {
        0nat
    }));
    assert(n.len(Kind::Env) == o.len(Kind::Env) + (if Kind::Env == k {
        1nat
    } else {
        0nat
    }));
    assert(d.words(k).len() == n.len(k));
}

/// Being one term up to binder names does not depend on which of the two is
/// asked about first.
pub proof fn law_same_symmetric(a: Term, b: Term)
    ensures
        a.same(b) == b.same(a),
    decreases a, b,
{
    match (a, b) {
        (Term::Lam(_, _, a1, b1), Term::Lam(_, _, a2, b2)) => {
            law_same_symmetric(*a1, *a2);
            law_same_symmetric(*b1, *b2);
        },
        (Term::Pi(_, _, a1, b1), Term::Pi(_, _, a2, b2)) => {
            law_same_symmetric(*a1, *a2);
            law_same_symmetric(*b1, *b2);
        },
        (Term::Let(_, _, a1, v1, b1), Term::Let(_, _, a2, v2, b2)) => {
            law_same_symmetric(*a1, *a2);
            law_same_symmetric(*v1, *v2);
            law_same_symmetric(*b1, *b2);
        },
        (Term::App(f1, a1), Term::App(f2, a2)) => {
            law_same_symmetric(*f1, *f2);
            law_same_symmetric(*a1, *a2);
        },
        (Term::Proj(_, _, e1), Term::Proj(_, _, e2)) => {
            law_same_symmetric(*e1, *e2);
        },
        _ => {},
    }
}

} // verus!
