//! The state of a check, and what its values, spines and environments stand
//! for.
use crate::counters::Counters;
use crate::closure::{Clo, CloMemos, CloState, Entry, EnvNode, Uses};
use crate::expr::Store;
use crate::nbe::{Elim, Memos, RigidHead, SpineNode, Value, Vals};
use crate::rc::Counts;
use crate::table::Key;
use crate::term::{Lvl, Term};
use crate::theory::{ElimT, Names, Sig};
use vstd::prelude::*;

verus! {

/// What the nodes of a check stand for, and when they were made.
pub struct World {
    pub g: Sig,
    /// Values.
    pub vd: Seq<Term>,
    pub vt: Seq<nat>,
    /// Spines.
    pub sd: Seq<Seq<ElimT>>,
    pub spt: Seq<nat>,
    /// Environments: their entries and what these stand for, innermost first.
    pub nc: Seq<Seq<Entry>>,
    pub nd: Seq<Seq<Term>>,
    pub nt: Seq<nat>,
    /// One past the highest level bound in the environment.
    pub nlv: Seq<nat>,
    /// The environment holds no evaluated entry, however deep.
    pub np: Seq<bool>,
    pub clock: nat,
}

impl World {
    pub open spec fn v_ok(self, v: u32) -> bool {
        v < self.vd.len()
    }

    /// The term value `v` stands for.
    pub open spec fn v(self, v: u32) -> Term {
        self.vd[v as int]
    }

    pub open spec fn vtime(self, v: u32) -> nat {
        self.vt[v as int]
    }

    pub open spec fn s_ok(self, s: u32) -> bool {
        s < self.sd.len()
    }

    /// The eliminations spine `s` stands for.
    pub open spec fn s(self, s: u32) -> Seq<ElimT> {
        self.sd[s as int]
    }

    pub open spec fn stime(self, s: u32) -> nat {
        self.spt[s as int]
    }

    pub open spec fn n_ok(self, n: u32) -> bool {
        n < self.nd.len()
    }

    /// The substitution environment `n` stands for, innermost first.
    pub open spec fn n(self, n: u32) -> Seq<Term> {
        self.nd[n as int]
    }

    /// The entries of environment `n`, innermost first.
    pub open spec fn ents(self, n: u32) -> Seq<Entry> {
        self.nc[n as int]
    }

    pub open spec fn ntime(self, n: u32) -> nat {
        self.nt[n as int]
    }

    pub open spec fn nlevel(self, n: u32) -> nat {
        self.nlv[n as int]
    }

    pub open spec fn plain(self, n: u32) -> bool {
        self.np[n as int]
    }

    /// As many times and marks as nodes.
    pub open spec fn sized(self) -> bool {
        &&& self.vt.len() == self.vd.len()
        &&& self.spt.len() == self.sd.len()
        &&& self.nc.len() == self.nd.len()
        &&& self.nt.len() == self.nd.len()
        &&& self.nlv.len() == self.nd.len()
        &&& self.np.len() == self.nd.len()
    }

    /// Every node of `o` is here, and stands for the same.
    pub open spec fn ext(self, o: World) -> bool {
        &&& self.g == o.g
        &&& self.clock >= o.clock
        &&& forall|i: u32| #[trigger] o.v_ok(i) ==> self.v_ok(i)
        &&& forall|i: u32| o.v_ok(i) ==> #[trigger] self.v(i) == o.v(i)
        &&& forall|i: u32| o.v_ok(i) ==> #[trigger] self.vtime(i) == o.vtime(i)
        &&& forall|i: u32| #[trigger] o.s_ok(i) ==> self.s_ok(i)
        &&& forall|i: u32| o.s_ok(i) ==> #[trigger] self.s(i) == o.s(i)
        &&& forall|i: u32| o.s_ok(i) ==> #[trigger] self.stime(i) == o.stime(i)
        &&& forall|i: u32| #[trigger] o.n_ok(i) ==> self.n_ok(i)
        &&& forall|i: u32| o.n_ok(i) ==> #[trigger] self.n(i) == o.n(i)
        &&& forall|i: u32| o.n_ok(i) ==> #[trigger] self.ents(i) == o.ents(i)
        &&& forall|i: u32| o.n_ok(i) ==> #[trigger] self.ntime(i) == o.ntime(i)
        &&& forall|i: u32| o.n_ok(i) ==> #[trigger] self.nlevel(i) == o.nlevel(i)
        &&& forall|i: u32| o.n_ok(i) ==> #[trigger] self.plain(i) == o.plain(i)
    }

    /// What an environment entry stands for.
    pub open spec fn entry(self, st: &Store, x: Entry) -> Term {
        match x {
            Entry::Val(e, n) => st.e(e).inst(0, self.n(n)),
            Entry::Neu(e) => st.e(e),
            Entry::V(v) => self.v(v),
        }
    }

    /// Where the variables from `c` on lead: a delayed entry to its own
    /// expression, a neutral entry to its free variable, an evaluated entry
    /// nowhere.
    pub open spec fn chased(self, st: &Store, c: Clo) -> Clo
        decreases self.ntime(c.env),
    {
        match st.e(c.e) {
            Term::Var(i) => if i < self.ents(c.env).len() {
                match self.ents(c.env)[i as int] {
                    Entry::Neu(fv) => Clo { e: fv, env: 0 },
                    Entry::Val(e2, n2) => if self.ntime(n2) < self.ntime(c.env) {
                        self.chased(st, Clo { e: e2, env: n2 })
                    } else {
                        c
                    },
                    Entry::V(_) => c,
                }
            } else {
                c
            },
            _ => c,
        }
    }

    /// A closure in normal form: its variables followed, and no environment
    /// where nothing is read from it.
    pub open spec fn normed(self, st: &Store, c: Clo) -> Clo {
        let r = self.chased(st, c);
        if st.e(r.e).nl() == 0 {
            Clo { e: r.e, env: 0 }
        } else {
            r
        }
    }

    /// An entry in normal form.
    pub open spec fn normal(self, st: &Store, x: Entry) -> Entry {
        match x {
            Entry::Val(e, n) => if n != 0 {
                Entry::Val(self.normed(st, Clo { e, env: n }).e, self.normed(st, Clo { e, env: n }).env)
            } else {
                x
            },
            _ => x,
        }
    }

    /// An entry made before time `t`: its parts are named and in scope.
    pub open spec fn entry_ok(self, st: &Store, x: Entry, t: nat) -> bool {
        match x {
            Entry::Val(e, n) => st.e_ok(e) && self.n_ok(n) && self.ntime(n) < t && st.e(e).nl() <= self.n(n).len(),
            Entry::Neu(e) => st.e_ok(e) && st.e(e) is Local,
            Entry::V(v) => self.v_ok(v) && self.vtime(v) < t,
        }
    }

    /// An entry without evaluated parts, and its levels below `l`.
    pub open spec fn entry_plain(self, x: Entry) -> bool {
        match x {
            Entry::Val(e, n) => self.plain(n),
            Entry::Neu(_) => true,
            Entry::V(_) => false,
        }
    }

    /// What a head stands for.
    pub open spec fn head(self, st: &Store, h: RigidHead) -> Term {
        match h {
            RigidHead::BVar(l, ty) => Term::bv(l as nat, self.v(ty)),
            RigidHead::Local(e) => st.e(e),
            RigidHead::Const(_, n, ls) => Term::Const(n, st.ls(ls)),
        }
    }

    pub open spec fn head_ok(self, st: &Store, h: RigidHead, t: nat) -> bool {
        match h {
            RigidHead::BVar(l, ty) => self.v_ok(ty) && self.vtime(ty) < t,
            RigidHead::Local(e) => st.e_ok(e) && st.e(e) is Local,
            RigidHead::Const(_, n, ls) => st.ls_ok(ls),
        }
    }

    pub open spec fn elim(self, x: Elim) -> ElimT {
        match x {
            Elim::App(a) => ElimT::App(self.v(a)),
            Elim::Proj { ty_name, idx } => ElimT::Proj(ty_name, idx as nat),
        }
    }

    pub open spec fn elim_ok(self, x: Elim, t: nat) -> bool {
        match x {
            Elim::App(a) => self.v_ok(a) && self.vtime(a) < t,
            Elim::Proj { .. } => true,
        }
    }

    /// The parts of a value made at time `t` are named and in scope.
    pub open spec fn val_parts(self, st: &Store, x: Value, t: nat) -> bool {
        match x {
            Value::Rigid { head, spine } => self.head_ok(st, head, t) && self.s_ok(spine) && self.stime(spine) < t,
            Value::Unfold { name, levels, spine, forced } => st.ls_ok(levels) && self.s_ok(spine) && self.stime(spine)
                < t,
            Value::Lam { binder_type, env, body, .. } => st.e_ok(binder_type) && st.e_ok(body) && self.n_ok(env)
                && self.ntime(env) < t && st.e(binder_type).nl() <= self.n(env).len() && st.e(body).nl() <= self.n(
                env,
            ).len() + 1,
            Value::Pi { domain, env, body, .. } => self.v_ok(domain) && self.vtime(domain) < t && st.e_ok(body)
                && self.n_ok(env) && self.ntime(env) < t && st.e(body).nl() <= self.n(env).len() + 1,
            Value::Sort { level } => st.l_ok(level) && st.l(level).simp() == st.l(level),
            Value::NatLit { ptr } => st.n_ok(ptr),
            Value::StrLit { ptr } => st.s_ok(ptr),
            Value::Thunk { env, expr, .. } => st.e_ok(expr) && self.n_ok(env) && self.ntime(env) < t && st.e(expr).nl()
                <= self.n(env).len(),
        }
    }

    /// What a value stands for.
    pub open spec fn val(self, st: &Store, x: Value) -> Term {
        match x {
            Value::Rigid { head, spine } => ElimT::spine(self.head(st, head), self.s(spine)),
            Value::Unfold { name, levels, spine, .. } => ElimT::spine(
                Term::Const(name, st.ls(levels)),
                self.s(spine),
            ),
            Value::Lam { binder_name, binder_style, binder_type, env, body, .. } => Term::lam(
                binder_name,
                binder_style,
                st.e(binder_type).inst(0, self.n(env)),
                st.e(body).inst(1, self.n(env)),
            ),
            Value::Pi { binder_name, binder_style, domain, env, body } => Term::pi(
                binder_name,
                binder_style,
                self.v(domain),
                st.e(body).inst(1, self.n(env)),
            ),
            Value::Sort { level } => Term::Sort(st.l(level)),
            Value::NatLit { ptr } => Term::Nat(st.n(ptr)),
            Value::StrLit { ptr } => Term::Str(st.s(ptr)),
            Value::Thunk { env, expr, .. } => st.e(expr).inst(0, self.n(env)),
        }
    }

    /// The cell of a value holds what the value reduces to.
    pub open spec fn cell_ok(self, st: &Store, x: Value) -> bool {
        match x {
            Value::Unfold { forced: Some(f), .. } => self.v_ok(f) && self.g.steps(self.val(st, x), self.v(f)),
            Value::Thunk { forced: Some(f), .. } => self.v_ok(f) && self.g.steps(self.val(st, x), self.v(f)),
            Value::Lam { binder_type, env, domain: Some(d), .. } => self.v_ok(d) && self.g.steps(
                st.e(binder_type).inst(0, self.n(env)),
                self.v(d),
            ),
            _ => true,
        }
    }

    /// Value `i` is the node `x`.
    pub open spec fn val_ok(self, st: &Store, i: u32, x: Value) -> bool {
        &&& self.vtime(i) < self.clock
        &&& self.val_parts(st, x, self.vtime(i))
        &&& self.v(i) == self.val(st, x)
        &&& self.v(i).nl() == 0
        &&& self.cell_ok(st, x)
    }

    /// Spine `i` is the node `x`.
    pub open spec fn spine_ok(self, i: u32, x: SpineNode) -> bool {
        &&& self.stime(i) < self.clock
        &&& if i == 0 {
            self.s(i) == Seq::<ElimT>::empty()
        } else {
            &&& self.s_ok(x.parent)
            &&& self.stime(x.parent) < self.stime(i)
            &&& self.elim_ok(x.elim, self.stime(i))
            &&& self.s(i) == self.s(x.parent).push(self.elim(x.elim))
        }
    }

    /// Environment `i` is the node `x`.
    pub open spec fn env_ok(self, st: &Store, i: u32, x: EnvNode) -> bool {
        &&& self.ntime(i) < self.clock
        &&& x.len == self.n(i).len()
        &&& self.ents(i).len() == self.n(i).len()
        &&& x.next_level == self.nlevel(i)
        &&& x.plain == self.plain(i)
        &&& Term::closed_seq(self.n(i))
        &&& self.plain(i) ==> Term::ml_seq(self.n(i), self.nlevel(i))
        &&& self.n_ok(x.jump)
        &&& self.n_ok(x.parent)
        &&& if i == 0 {
            self.n(i).len() == 0 && self.nlevel(i) == 0 && self.plain(i) && x.jump == 0 && x.parent == 0
        } else {
            &&& x.parent < i
            &&& x.jump < i
            &&& self.ntime(x.parent) < self.ntime(i)
            &&& self.n(x.jump).len() < self.n(i).len()
            &&& self.ents(i) == seq![x.entry] + self.ents(x.parent)
            &&& self.ents(x.jump) == self.ents(i).skip(self.n(i).len() - self.n(x.jump).len())
            &&& self.n(i) == seq![self.entry(st, x.entry)] + self.n(x.parent)
            &&& self.entry_ok(st, x.entry, self.ntime(i))
            &&& self.plain(i) == (self.plain(x.parent) && self.entry_plain(x.entry))
            &&& self.nlevel(i) >= self.nlevel(x.parent)
        }
        &&& forall|j: int|
            0 <= j < self.ents(i).len() ==> self.entry_at(st, i, #[trigger] self.ents(i)[j], j)
    }

    /// Entry `j` of environment `i` is `x`.
    pub open spec fn entry_at(self, st: &Store, i: u32, x: Entry, j: int) -> bool {
        &&& self.entry_ok(st, x, self.ntime(i))
        &&& self.n(i)[j] == self.entry(st, x)
        &&& self.plain(i) ==> self.entry_plain(x)
    }

    // ---- more nodes, more expressions ----

    pub proof fn lemma_entry_ext(self, o: World, st: &Store, ost: &Store, x: Entry, t: nat)
        requires
            self.ext(o),
            st.ext(ost),
            o.entry_ok(ost, x, t),
        ensures
            self.entry_ok(st, x, t),
            self.entry(st, x) == o.entry(ost, x),
            self.entry_plain(x) == o.entry_plain(x),
    {
    }

    pub proof fn lemma_val_ext(self, o: World, st: &Store, ost: &Store, i: u32, x: Value)
        requires
            self.ext(o),
            st.ext(ost),
            o.v_ok(i),
            o.val_ok(ost, i, x),
        ensures
            self.val_ok(st, i, x),
    {
        assert(self.val(st, x) == o.val(ost, x));
    }

    pub proof fn lemma_spine_ext(self, o: World, i: u32, x: SpineNode)
        requires
            self.ext(o),
            o.s_ok(i),
            o.spine_ok(i, x),
        ensures
            self.spine_ok(i, x),
    {
    }

    pub proof fn lemma_env_ext(self, o: World, st: &Store, ost: &Store, i: u32, x: EnvNode)
        requires
            self.ext(o),
            st.ext(ost),
            o.n_ok(i),
            o.env_ok(ost, i, x),
        ensures
            self.env_ok(st, i, x),
    {
        if i > 0 {
            self.lemma_entry_ext(o, st, ost, x.entry, o.ntime(i));
        }
        assert forall|j: int| 0 <= j < self.ents(i).len() implies self.entry_at(
            st,
            i,
            #[trigger] self.ents(i)[j],
            j,
        ) by {
            let y = o.ents(i)[j];
            assert(o.entry_at(ost, i, y, j));
            self.lemma_entry_ext(o, st, ost, y, o.ntime(i));
        }
    }
}

impl Memos {
    /// What is remembered over values is true.
    #[verifier::opaque]
    pub open spec fn ok(&self, w: World, st: &Store) -> bool {
        &&& forall|e: u32, n: u32| #[trigger]
            self.clo_val@.contains_key((e, n, 0, 0)) ==> {
                let v = self.clo_val@[(e, n, 0, 0)];
                st.e_ok(e) && w.n_ok(n) && w.v_ok(v) && st.e(e).nl() <= w.n(n).len() && w.g.steps(
                    st.e(e).inst(0, w.n(n)),
                    w.v(v),
                )
            }
        &&& forall|n: u32, ls: u32| #[trigger]
            self.unfold@.contains_key((n, ls, 0, 0)) ==> match self.unfold@[(n, ls, 0, 0)] {
                Some(v) => st.ls_ok(ls) && w.v_ok(v) && w.g.unfolds(n, st.ls(ls), w.v(v)),
                None => st.ls_ok(ls) && w.g.body_of(n, st.ls(ls)) is None,
            }
        &&& forall|n: u32, ls: u32| #[trigger]
            self.const_val@.contains_key((n, ls, 0, 0)) ==> {
                let v = self.const_val@[(n, ls, 0, 0)];
                st.ls_ok(ls) && w.v_ok(v) && w.v(v) == Term::Const(n, st.ls(ls))
            }
        &&& forall|n: u32, ls: u32| #[trigger]
            self.const_ty@.contains_key((n, ls, 0, 0)) ==> {
                let v = self.const_ty@[(n, ls, 0, 0)];
                st.ls_ok(ls) && w.v_ok(v) && w.g.has(Term::Const(n, st.ls(ls)), w.v(v))
            }
        &&& forall|n: u32, ls: u32| #[trigger]
            self.const_lvl@.contains_key((n, ls, 0, 0)) ==> match self.const_lvl@[(n, ls, 0, 0)] {
                Some(l) => st.ls_ok(ls) && st.l_ok(l) && w.const_level(n, st.ls(ls), st.l(l)),
                None => true,
            }
        &&& forall|e: u32, up: u32, ls: u32| #[trigger]
            self.rec_rule@.contains_key((e, up, ls, 0)) ==> {
                let v = self.rec_rule@[(e, up, ls, 0)];
                st.e_ok(e) && st.ls_ok(up) && st.ls_ok(ls) && w.v_ok(v) && w.g.steps(
                    st.e(e).tsubst(st.ls(up), st.ls(ls)),
                    w.v(v),
                )
            }
        &&& forall|v: u32| #[trigger]
            self.iota@.contains_key((v, 0, 0, 0)) ==> match self.iota@[(v, 0, 0, 0)] {
                Some(r) => w.v_ok(v) && w.v_ok(r) && w.g.steps(w.v(v), w.v(r)),
                None => true,
            }
        &&& forall|v: u32, n: u32| #[trigger]
            self.struct_eta@.contains_key((v, n, 0, 0)) ==> match self.struct_eta@[(v, n, 0, 0)] {
                Some(r) => w.v_ok(v) && w.v_ok(r) && w.g.steps(w.v(v), w.v(r)),
                None => true,
            }
        &&& forall|v: u32| #[trigger]
            self.types@.contains_key((v, 0, 0, 0)) ==> {
                let t = self.types@[(v, 0, 0, 0)];
                w.v_ok(v) && w.v_ok(t) && w.g.has(w.v(v), w.v(t))
            }
        &&& forall|v: u32| #[trigger]
            self.open@.contains_key((v, 0, 0, 0)) ==> w.v_ok(v) && w.open_answer(w.v(v), self.open@[(v, 0, 0, 0)])
        &&& forall|e: u32| #[trigger]
            self.local@.contains_key((e, 0, 0, 0)) ==> {
                let v = self.local@[(e, 0, 0, 0)];
                st.e_ok(e) && w.v_ok(v) && w.v(v) == st.e(e)
            }
        &&& forall|x: u32, y: u32| #[trigger]
            self.conv_pos@.contains_key((x, y, 0, 0)) ==> w.v_ok(x) && w.v_ok(y) && w.g.eq(w.v(x), w.v(y))
    }

    pub proof fn lemma_ext(&self, w: World, o: World, st: &Store, ost: &Store)
        requires
            self.ok(o, ost),
            w.ext(o),
            st.ext(ost),
        ensures
            self.ok(w, st),
    {
        reveal(Memos::ok);
    }

    pub proof fn lemma_empty(&self, w: World, st: &Store)
        requires
            self.empty(),
        ensures
            self.ok(w, st),
    {
        reveal(Memos::ok);
    }
}

impl CloMemos {
    /// What is remembered over closures is true.
    #[verifier::opaque]
    pub open spec fn ok(&self, w: World, st: &Store) -> bool {
        &&& self.wide.wf()
        &&& self.views.wf()
        &&& forall|i: int| 0 <= i < self.wide@.len() ==> Uses::wide_ok(#[trigger] self.wide@[i])
        &&& forall|e: u32, n: u32| #[trigger]
            self.infer_check@.contains_key((e, n, 0, 0))
                ==> w.infer_fact(st, true, e, n, self.infer_check@[(e, n, 0, 0)])
        &&& forall|e: u32, n: u32| #[trigger]
            self.infer_only@.contains_key((e, n, 0, 0))
                ==> w.infer_fact(st, false, e, n, self.infer_only@[(e, n, 0, 0)])
        &&& forall|e: u32, n: u32, k: u32, r: u32| #[trigger]
            self.reify_go.holds((e, n, k, 0), r) ==> st.e_ok(e) && w.n_ok(n) && st.e_ok(r) && st.e(r) == st.e(e).inst(
                k as nat,
                w.n(n),
            )
        &&& forall|e: u32| #[trigger]
            self.lvl@.contains_key((e, 0, 0, 0)) ==> st.e_ok(e) && self.lvl@[(e, 0, 0, 0)] == st.e(e).ml()
        &&& forall|e: u32| #[trigger]
            self.prop@.contains_key((e, 0, 0, 0)) ==> st.e_ok(e) && w.prop_answer(st.e(e), self.prop@[(e, 0, 0, 0)])
        &&& forall|e: u32| #[trigger]
            self.umask@.contains_key((e, 0, 0, 0)) ==> st.e_ok(e) && self.umask@[(e, 0, 0, 0)].is_exact(
                st.e(e),
                self.wide@,
            )
        &&& forall|hi: u32, lo: u32, n: u32| #[trigger]
            self.proj@.contains_key((hi, lo, n, 0)) ==> w.proj_fact(
                seq![World::word(hi, lo)],
                n,
                self.proj@[(hi, lo, n, 0)],
            )
        &&& forall|i: u32, n: u32| #[trigger]
            self.proj_w@.contains_key((i, n, 0, 0)) ==> i < self.wide@.len() && w.proj_fact(
                self.wide@[i as int],
                n,
                self.proj_w@[(i, n, 0, 0)],
            )
        &&& forall|hi: u32, lo: u32, n: u32, r: u32| #[trigger]
            self.view.holds((hi, lo, n, 0), r) ==> w.view_fact(seq![World::word(hi, lo)], n, r, self.views@)
        &&& forall|i: u32, n: u32, r: u32| #[trigger]
            self.view_w.holds((i, n, 0, 0), r) ==> i < self.wide@.len() && w.view_fact(
                self.wide@[i as int],
                n,
                r,
                self.views@,
            )
        &&& forall|k: Key| #[trigger] self.sides@.contains_key(k) ==> self.sides@[k] < self.num_sides
        &&& forall|j: Key, k: Key|
            #![trigger self.sides@[j], self.sides@[k]]
            self.sides@.contains_key(j) && self.sides@.contains_key(k) && self.sides@[j] == self.sides@[k] ==> j == k
        &&& forall|a: u32, b: u32, v: bool| #[trigger]
            self.eq_mod.holds((a, b, 0, 0), v) ==> a < self.num_sides && b < self.num_sides
        &&& forall|j: Key, k: Key, v: bool|
            #![trigger self.eq_mod.holds((self.sides@[j], self.sides@[k], 0, 0), v)]
            self.sides@.contains_key(j) && self.sides@.contains_key(k) && self.eq_mod.holds(
                (self.sides@[j], self.sides@[k], 0, 0),
                v,
            ) ==> w.eq_fact(st, j, k, v)
        &&& forall|e: u32| #[trigger]
            self.g_unfold@.contains_key((e, 0, 0, 0)) ==> {
                let r = self.g_unfold@[(e, 0, 0, 0)];
                st.e_ok(e) && st.e_ok(r) && w.unfold_fact(st.e(e), st.e(r))
            }
        &&& forall|e: u32| #[trigger]
            self.g_inst_ty@.contains_key((e, 0, 0, 0)) ==> {
                let r = self.g_inst_ty@[(e, 0, 0, 0)];
                st.e_ok(e) && st.e_ok(r) && w.type_fact(st.e(e), st.e(r))
            }
    }

    pub proof fn lemma_ext(&self, w: World, o: World, st: &Store, ost: &Store)
        requires
            self.ok(o, ost),
            w.ext(o),
            st.ext(ost),
        ensures
            self.ok(w, st),
    {
        reveal(CloMemos::ok);
        assert forall|j: Key, k: Key, v: bool|
            #![trigger self.eq_mod.holds((self.sides@[j], self.sides@[k], 0, 0), v)]
            self.sides@.contains_key(j) && self.sides@.contains_key(k) && self.eq_mod.holds(
                (self.sides@[j], self.sides@[k], 0, 0),
                v,
            ) implies w.eq_fact(st, j, k, v) by {
            assert(o.eq_fact(ost, j, k, v));
        }
    }

    pub proof fn lemma_empty(&self, w: World, st: &Store)
        requires
            self.empty(),
        ensures
            self.ok(w, st),
    {
        reveal(CloMemos::ok);
    }
}

impl World {
    /// The type of the constant ends in the sort `l`: every application of it
    /// lives there.
    pub open spec fn const_level(self, n: u32, ls: Seq<Lvl>, l: Lvl) -> bool {
        forall|es: Seq<ElimT>| #[trigger] self.g.univ(ElimT::spine(Term::Const(n, ls), es), l)
    }

    /// `t` is a proposition.
    pub open spec fn is_prop(self, t: Term) -> bool {
        exists|s: Term, l: Lvl| #[trigger] self.g.ty(false, t, s) && #[trigger] self.g.red(s, Term::Sort(l))
            && l.is_zero()
    }

    /// The sort `t` lives in reduces to something else than the sort of
    /// propositions, with no `let` and no applied lambda at its head.
    pub open spec fn not_prop(self, t: Term) -> bool {
        exists|s: Term, w: Term| #[trigger] self.g.ty(false, t, s) && #[trigger] self.g.red(s, w) && w.headed() && w
            != Term::Sort(Lvl::Zero)
    }

    /// What it means that a variable is, or is not, found in `t`: one occurs in
    /// what it reduces to, or none stands at the head of that.
    pub open spec fn open_answer(self, t: Term, b: bool) -> bool {
        exists|u: Term| #[trigger]
            self.g.steps(t, u) && u.headed() && (if b {
                u.is_open()
            } else {
                !u.var_headed()
            })
    }

    /// What it means that `t` is, or is not, found to be a proposition.
    pub open spec fn prop_answer(self, t: Term, b: bool) -> bool {
        if b {
            self.is_prop(t)
        } else {
            self.not_prop(t)
        }
    }

    /// Every closure of `e` with the key `n` has the type `r`.
    pub open spec fn infer_fact(self, st: &Store, k: bool, e: u32, n: u32, r: u32) -> bool {
        &&& st.e_ok(e)
        &&& self.n_ok(n)
        &&& st.e_ok(r)
        &&& st.e(r).nl() == 0
        &&& exists|s: Seq<Term>| #[trigger]
            Term::key_of(st.e(e), s) == self.n(n) && st.e(e).nl() <= s.len()
                && self.g.ty(k, st.e(e).inst(0, s), st.e(r))
    }

    pub open spec fn word(hi: u32, lo: u32) -> u64 {
        (hi * 0x1_0000_0000 + lo) as u64
    }

    /// Environment `r` holds the entries of environment `n` that the set `m`
    /// names.
    pub open spec fn proj_fact(self, m: Seq<u64>, n: u32, r: u32) -> bool {
        &&& self.n_ok(n)
        &&& self.n_ok(r)
        &&& self.plain(n) ==> self.plain(r)
        &&& self.n(r) == World::cut(m, self.n(n), 64 * m.len())
        &&& World::in_range(m, self.n(n).len())
    }

    /// The entries below `n` that the set `m` names, the last one first.
    pub open spec fn cut<A>(m: Seq<u64>, s: Seq<A>, n: nat) -> Seq<A>
        decreases n,
    {
        if n == 0 {
            Seq::empty()
        } else if Uses::wbit(m, (n - 1) as nat) {
            seq![s[n - 1]] + World::cut(m, s, (n - 1) as nat)
        } else {
            World::cut(m, s, (n - 1) as nat)
        }
    }

    /// The set names only positions below `n`.
    pub open spec fn in_range(m: Seq<u64>, n: nat) -> bool {
        forall|i: nat| #[trigger] Uses::wbit(m, i) ==> i < n
    }

    /// View `r` is the list of the entries of environment `n` that `m` names.
    pub open spec fn view_fact(self, m: Seq<u64>, n: u32, r: u32, views: Seq<Seq<u64>>) -> bool {
        &&& self.n_ok(n)
        &&& World::in_range(m, self.n(n).len())
        &&& 0x8000_0000 <= r < 0x8000_0000 + views.len()
        &&& views[r - 0x8000_0000] == World::view_cut(m, self.ents(n), 64 * m.len())
    }

    /// The words of the entries below `n` that the set `m` names, in order.
    pub open spec fn view_cut(m: Seq<u64>, s: Seq<Entry>, n: nat) -> Seq<u64>
        decreases n,
    {
        if n == 0 {
            Seq::empty()
        } else if Uses::wbit(m, (n - 1) as nat) {
            World::view_cut(m, s, (n - 1) as nat) + s[n - 1].words()
        } else {
            World::view_cut(m, s, (n - 1) as nat)
        }
    }

    /// The term a side of a comparison stands for.
    pub open spec fn side(self, st: &Store, k: Key) -> Term {
        st.e(k.0).inst(k.2 as nat, self.n(k.1))
    }

    /// What a comparison says of its two sides.
    pub open spec fn eq_fact(self, st: &Store, j: Key, k: Key, v: bool) -> bool {
        &&& st.e_ok(j.0)
        &&& self.n_ok(j.1)
        &&& st.e_ok(k.0)
        &&& self.n_ok(k.1)
        &&& v ==> self.side(st, j).same(self.side(st, k))
        &&& !v && self.plain(j.1) && self.plain(k.1) ==> self.side(st, j) != self.side(st, k)
    }

    /// `r` is the definition of the constant `e`.
    pub open spec fn unfold_fact(self, e: Term, r: Term) -> bool {
        &&& e is Const
        &&& self.g.has_val(e->Const_0)
        &&& e->Const_1.len() == self.g.decls[e->Const_0].uparams.len()
        &&& r == self.g.decls[e->Const_0].val->0.tsubst(self.g.decls[e->Const_0].uparams, e->Const_1)
    }

    /// `r` is the type of the constant `e`.
    pub open spec fn type_fact(self, e: Term, r: Term) -> bool {
        &&& e is Const
        &&& self.g.decls.contains_key(e->Const_0)
        &&& e->Const_1.len() == self.g.decls[e->Const_0].uparams.len()
        &&& r == self.g.decls[e->Const_0].ty.tsubst(self.g.decls[e->Const_0].uparams, e->Const_1)
        &&& r.nl() == 0
    }
}

/// The state of a check.
pub struct TcCtx {
    pub st: Store,
    pub nb: Vals,
    pub rp: CloState,
    pub counts: Counts,
    pub names: Names,
    pub nat_ext: bool,
    pub str_ext: bool,
    pub eager_mode: bool,
    pub ctrs: Counters,
    pub w: Ghost<World>,
}

impl CloState {
    /// The intern table names the environments it was made for, and every
    /// environment but the empty one.
    pub open spec fn intern_ok(&self) -> bool {
        &&& forall|n: u32, x: Entry| #[trigger]
            self.env_intern@.contains_key(Entry::key(n, x)) ==> {
                let i = self.env_intern@[Entry::key(n, x)];
                0 < i < self.envs@.len() && self.envs@[i as int].parent == n && self.envs@[i as int].entry == x
            }
        &&& forall|i: int|
            1 <= i < self.envs@.len() ==> Vals::names(
                self.env_intern@,
                Entry::key((#[trigger] self.envs@[i]).parent, self.envs@[i].entry),
                i,
            )
    }
}

impl World {
    /// `k` names the entries expression `x` reads from environment `n`.
    pub open spec fn read_rel(self, st: &Store, views: Seq<Seq<u64>>, k: u32, x: u32, n: u32) -> bool {
        let t = st.e(x);
        if t.nl() == 0 {
            k == 0
        } else {
            0x8000_0000 <= k < 0x8000_0000 + views.len() && views[k - 0x8000_0000] == Entry::view_words(
                t,
                self.ents(n),
                t.nl(),
            )
        }
    }

    /// Terms that differ at most in the name and style of their outermost
    /// binder.
    pub open spec fn alike(a: Term, b: Term) -> bool {
        match (a, b) {
            (Term::Lam(_, _, x, y), Term::Lam(_, _, z, u)) => x == z && y == u,
            (Term::Pi(_, _, x, y), Term::Pi(_, _, z, u)) => x == z && y == u,
            _ => a == b,
        }
    }

    pub proof fn lemma_alike(g: Sig, a: Term, b: Term)
        requires
            World::alike(a, b),
        ensures
            g.steps(a, b),
            g.steps(b, a),
            a.nl() == b.nl(),
    {
        match (a, b) {
            (Term::Lam(_, _, x, y), Term::Lam(_, _, z, u)) => {
                Term::lemma_same_refl(*x);
                Term::lemma_same_refl(*y);
            },
            (Term::Pi(_, _, x, y), Term::Pi(_, _, z, u)) => {
                Term::lemma_same_refl(*x);
                Term::lemma_same_refl(*y);
            },
            _ => {
                Term::lemma_same_refl(a);
            },
        }
        Sig::r_same(g, a, b);
        Sig::r_same(g, b, a);
    }
}

impl TcCtx {
    /// A thunk is interned under what its expression reads.
    pub open spec fn thunks_ok(&self) -> bool {
        forall|k: u32, x: u32| #[trigger]
            self.nb.tabs.thunk@.contains_key((k, x, 0, 0)) ==> {
                let i = self.nb.tabs.thunk@[(k, x, 0, 0)];
                i < self.nb.vals@.len() && self.nb.vals@[i as int] is Thunk && self.w@.read_rel(
                    &self.st,
                    self.rp.memo.views@,
                    k,
                    x,
                    self.nb.vals@[i as int]->Thunk_env,
                )
            }
    }

    /// The nodes stand for what the world says, and what is remembered is true.
    #[verifier::opaque]
    pub open spec fn wf(&self) -> bool {
        let w = self.w@;
        &&& self.st.wf()
        &&& self.counts.wf()
        &&& self.counts.all_live()
        &&& self.nb.wf(&self.counts)
        &&& Vals::named(self.nb.tabs, self.nb.vals@, self.nb.spines@)
        &&& self.rp.envs@.len() == self.counts.envs@.len()
        &&& self.rp.intern_ok()
        &&& w.sized()
        &&& w.vd.len() == self.nb.vals@.len()
        &&& w.sd.len() == self.nb.spines@.len()
        &&& w.nd.len() == self.rp.envs@.len()
        &&& forall|i: u32| i < self.nb.vals@.len() ==> w.val_ok(&self.st, i, #[trigger] self.nb.vals@[i as int])
        &&& forall|i: u32| i < self.nb.spines@.len() ==> w.spine_ok(i, #[trigger] self.nb.spines@[i as int])
        &&& forall|i: u32| i < self.rp.envs@.len() ==> w.env_ok(&self.st, i, #[trigger] self.rp.envs@[i as int])
        &&& self.thunks_ok()
        &&& self.nb.memo.ok(w, &self.st)
        &&& self.rp.memo.ok(w, &self.st)
        &&& w.g.names == self.names
        &&& w.g.nat_ext == self.nat_ext
        &&& w.g.str_ext == self.str_ext
    }

    /// Everything named in `o` is named here and stands for the same.
    pub open spec fn ext(&self, o: &TcCtx) -> bool {
        &&& self.st.ext(&o.st)
        &&& self.w@.ext(o.w@)
        &&& self.names == o.names
        &&& self.nat_ext == o.nat_ext
        &&& self.str_ext == o.str_ext
        &&& self.eager_mode == o.eager_mode
    }

    pub proof fn lemma_ext_refl(&self)
        ensures
            self.ext(self),
    {
    }

    /// Every node of a check is live.
    pub proof fn lemma_wf_live(&self)
        requires
            self.wf(),
        ensures
            self.counts.wf(),
            self.counts.all_live(),
            self.counts.vals@.len() == self.nb.vals@.len(),
            forall|v: u32| #[trigger] self.w@.v_ok(v) ==> v < self.nb.vals@.len(),
    {
        reveal(TcCtx::wf);
        reveal(Vals::wf);
    }

    /// What is true of every check: the sizes, the empty spine and the empty
    /// environment.
    pub proof fn lemma_wf(&self)
        requires
            self.wf(),
        ensures
            self.st.wf(),
            self.w@.sized(),
            self.w@.s_ok(0),
            self.w@.s(0) == Seq::<ElimT>::empty(),
            self.w@.n_ok(0),
            self.w@.n(0) == Seq::<Term>::empty(),
            self.w@.ents(0) == Seq::<Entry>::empty(),
            self.w@.plain(0),
            self.w@.g.names == self.names,
            self.w@.g.nat_ext == self.nat_ext,
            self.w@.g.str_ext == self.str_ext,
    {
        reveal(TcCtx::wf);
        self.nb.lemma_wf(&self.counts);
        assert(self.w@.spine_ok(0, self.nb.spines@[0int]));
        assert(self.w@.env_ok(&self.st, 0, self.rp.envs@[0int]));
        assert(self.w@.n(0) =~= Seq::empty());
        assert(self.w@.ents(0) =~= Seq::empty());
    }

    /// Values are closed, and environments hold closed terms.
    pub proof fn lemma_closed(&self)
        requires
            self.wf(),
        ensures
            forall|v: u32| #[trigger] self.w@.v_ok(v) ==> self.w@.v(v).nl() == 0,
            forall|n: u32| #[trigger] self.w@.n_ok(n) ==> Term::closed_seq(self.w@.n(n)),
    {
        reveal(TcCtx::wf);
        assert forall|v: u32| #[trigger] self.w@.v_ok(v) implies self.w@.v(v).nl() == 0 by {
            assert(self.w@.val_ok(&self.st, v, self.nb.vals@[v as int]));
        }
        assert forall|n: u32| #[trigger] self.w@.n_ok(n) implies Term::closed_seq(self.w@.n(n)) by {
            assert(self.w@.env_ok(&self.st, n, self.rp.envs@[n as int]));
        }
    }

    /// The check stays well formed as expressions are added.
    pub proof fn lemma_store_step(&self, o: &TcCtx)
        requires
            o.wf(),
            self.st.wf(),
            self.st.ext(&o.st),
            self.nb == o.nb,
            self.rp == o.rp,
            self.counts == o.counts,
            self.names == o.names,
            self.nat_ext == o.nat_ext,
            self.str_ext == o.str_ext,
            self.eager_mode == o.eager_mode,
            self.w == o.w,
        ensures
            self.wf(),
            self.ext(o),
    {
        reveal(TcCtx::wf);
        let w = self.w@;
        assert(w.ext(w));
        assert forall|i: u32| i < self.nb.vals@.len() implies w.val_ok(&self.st, i,
            #[trigger] self.nb.vals@[i as int]) by {
            w.lemma_val_ext(w, &self.st, &o.st, i, o.nb.vals@[i as int]);
        }
        assert forall|i: u32| i < self.rp.envs@.len() implies w.env_ok(&self.st, i,
            #[trigger] self.rp.envs@[i as int]) by {
            w.lemma_env_ext(w, &self.st, &o.st, i, o.rp.envs@[i as int]);
        }
        self.nb.memo.lemma_ext(w, w, &self.st, &o.st);
        self.rp.memo.lemma_ext(w, w, &self.st, &o.st);
        self.lemma_thunks(o);
    }

    /// Thunks stay interned as they are as expressions are added.
    proof fn lemma_thunks(&self, o: &TcCtx)
        requires
            o.wf(),
            self.st.ext(&o.st),
            self.nb == o.nb,
            self.rp.memo.views@ == o.rp.memo.views@,
            self.w == o.w,
        ensures
            self.thunks_ok(),
    {
        reveal(TcCtx::wf);
        reveal(Vals::wf);
        assert forall|k: u32, x: u32| #[trigger] self.nb.tabs.thunk@.contains_key((k, x, 0, 0)) implies {
            let i = self.nb.tabs.thunk@[(k, x, 0, 0)];
            i < self.nb.vals@.len() && self.nb.vals@[i as int] is Thunk && self.w@.read_rel(
                &self.st,
                self.rp.memo.views@,
                k,
                x,
                self.nb.vals@[i as int]->Thunk_env,
            )
        } by {
            let i = o.nb.tabs.thunk@[(k, x, 0, 0)];
            assert(Vals::is_thunk(o.nb.vals@[i as int], x));
            assert(o.w@.val_ok(&o.st, i, o.nb.vals@[i as int]));
        }
    }
}

} // verus!
