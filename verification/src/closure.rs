//! Delayed instantiation.
//!
//! Terms in flight are closures: an expression with an environment.  Entering a
//! binder extends an interned environment in constant time, and substitution is
//! forced only at type boundaries.  Free variables are local expressions
//! carrying their binder type, so no separate local context is needed.
use crate::counters::PUSH_ENTRY;
use crate::arena::Arena;
use crate::ctx::{TcCtx, World};
use crate::error::TcError;
use crate::expr::{Expr, ExprPtr};
use crate::rc::{inc_env, inc_val, new_node, Counts, Kind, Word};
use crate::theory::ElimT;
use crate::nbe::{ValId, Vals};
use crate::table::{Key, SliceTable, Tab};
use crate::term::{FVarId, Term};
use vstd::prelude::*;

verus! {

/// Names an environment.
pub type EnvId = u32;

/// The environment without entries.
pub const ENV_NIL: EnvId = 0;

/// Tags an environment-shaped cache key as naming an interned read view.
/// Environment ids and view ids both stay below it, so a key names exactly one
/// of the two.
pub const VIEW_BIT: EnvId = 0x8000_0000;

/// What an environment binds a variable to.
#[derive(Clone, Copy, PartialEq, Eq, Structural, Debug)]
pub enum Entry {
    Val(ExprPtr, EnvId),
    /// A neutral entry: the local expression standing for the variable.
    Neu(ExprPtr),
    /// An evaluated entry, named by its value index.  Pushed by evaluation
    /// when beta extends an environment with a value already in hand.
    V(ValId),
}

#[derive(Clone, Copy)]
pub struct EnvNode {
    pub entry: Entry,
    pub parent: EnvId,
    pub len: u32,
    /// one past the highest de Bruijn level bound anywhere in this chain
    pub next_level: u32,
    /// Myers jump pointer for logarithmic indexing
    pub jump: EnvId,
    /// no entry of this chain is evaluated, nor one of an environment it names
    pub plain: bool,
}

/// A closure: an expression with the environment its variables are read in.
#[derive(Clone, Copy, PartialEq, Eq, Structural, Debug)]
pub struct Clo {
    pub e: ExprPtr,
    pub env: EnvId,
}

impl Clo {
    /// The closure of a closed expression.
    pub fn of(e: ExprPtr) -> (r: Clo)
        ensures
            r == (Clo { e, env: ENV_NIL }),
    {
        Clo { e, env: ENV_NIL }
    }
}

impl Entry {
    /// The words an environment extension is interned under.
    pub open spec fn key(env: EnvId, entry: Entry) -> Key {
        match entry {
            Entry::Val(e, venv) => (env, e, venv, 1u32),
            Entry::Neu(e) => (env, e, 0u32, 0u32),
            Entry::V(v) => (env, v, 0u32, 2u32),
        }
    }

    /// Two requests packed alike are the same request.
    pub proof fn key_injective(env: EnvId, entry: Entry, env2: EnvId, entry2: Entry)
        requires
            Entry::key(env, entry) == Entry::key(env2, entry2),
        ensures
            env == env2,
            entry == entry2,
    {
    }
}

/// Injective packing of an environment-extension request.
pub fn pack_entry_key(env: EnvId, entry: Entry) -> (r: Key)
    ensures
        r == Entry::key(env, entry),
{
    match entry {
        Entry::Val(e, venv) => (env, e, venv, 1),
        Entry::Neu(e) => (env, e, 0, 0),
        Entry::V(v) => (env, v, 0, 2),
    }
}

/// The loose variables an expression reads.  `Dense` is every index below its
/// range, so projecting an environment onto it changes nothing; `Mask` is exact
/// for a set that fits a word; `Wide` is exact for a set that reaches past a
/// word; `Deep` stands for a set past that bound, which keys on the whole
/// environment like `Dense`.
#[derive(Clone, Copy, PartialEq, Eq, Structural, Debug)]
pub enum Uses {
    Dense,
    Mask(u64),
    /// A read set reaching past index 63, held out of line: the id names an
    /// interned word vector, bit `i` of word `i / 64` standing for index `i`.
    Wide(u32),
    Deep,
}

/// Words a wide read set may span; a set reaching further becomes `Deep`.
pub const MAX_USES_WORDS: usize = 8;

/// Words any read set spans at most.
pub const MAX_SET_WORDS: usize = 1024;

/// Entries one generation of a memo holds.
pub const CCAP: usize = 0x10_0000;

/// Two-generation memo: entries land in `new`; when it fills, `new` becomes
/// `old` and a fresh `new` starts.  A hit in `old` is promoted, so entries that
/// keep being used survive the swaps.
pub struct Gen2<V> {
    pub new: Tab<V>,
    pub old: Tab<V>,
}

impl<V: Copy> Gen2<V> {
    /// `v` is remembered under `k`.
    pub open spec fn holds(&self, k: Key, v: V) -> bool {
        (self.new@.contains_key(k) && self.new@[k] == v) || (self.old@.contains_key(k) && self.old@[k] == v)
    }

    pub fn new() -> (r: Self)
        ensures
            forall|k: Key, v: V| !#[trigger] r.holds(k, v),
    {
        Gen2 { new: Tab::new(), old: Tab::new() }
    }

    /// What is remembered under `k`; the newer generation is asked first.
    pub fn get(&mut self, k: Key) -> (r: Option<V>)
        ensures
            match r {
                Some(v) => (if old(self).new@.contains_key(k) {
                    v == old(self).new@[k]
                } else {
                    old(self).old@.contains_key(k) && v == old(self).old@[k]
                }) && final(self).new@.contains_key(k) && final(self).new@[k] == v,
                None => !old(self).new@.contains_key(k) && !old(self).old@.contains_key(k) && *final(self) == *old(
                    self,
                ),
            },
            forall|x: Key, y: V| #[trigger] final(self).holds(x, y) ==> old(self).holds(x, y),
    {
        match self.new.get(k) {
            Some(v) => {
                return Some(v);
            },
            None => {},
        }
        match self.old.get(k) {
            Some(v) => {
                self.insert(k, v);
                Some(v)
            },
            None => None,
        }
    }

    /// The newer generation holds as much as one generation may.
    pub closed spec fn full(&self) -> bool {
        self.new@.len() >= CCAP
    }

    /// Remember `v` under `k`.  What the newer generation held is still
    /// remembered: the two change places when it is full, and only what the
    /// older one held is dropped.
    pub fn insert(&mut self, k: Key, v: V)
        ensures
            !old(self).full() ==> final(self).new@ == old(self).new@.insert(k, v) && final(self).old@ == old(self).old@,
            old(self).full() ==> final(self).new@ == Map::<Key, V>::empty().insert(k, v) && final(self).old@ == old(
                self,
            ).new@,
            final(self).new@.contains_key(k),
            final(self).new@[k] == v,
            forall|x: Key, y: V| #[trigger]
                final(self).holds(x, y) ==> old(self).holds(x, y) || (x == k && y == v),
    {
        if self.new.len() >= CCAP {
            std::mem::swap(&mut self.new, &mut self.old);
            self.new.clear();
        }
        self.new.insert(k, v);
    }

    pub fn reset_decl(&mut self)
        ensures
            forall|k: Key, v: V| !#[trigger] final(self).holds(k, v),
    {
        self.new.clear();
        self.old.clear();
    }
}

/// The environments of a check and what has been computed over closures.
pub struct CloState {
    pub envs: Arena<EnvNode>,
    /// keyed by `pack_entry_key`
    pub env_intern: Tab<u32>,
    pub memo: CloMemos,
}

/// What has been computed over closures.
pub struct CloMemos {
    pub infer_check: Tab<u32>,
    pub infer_only: Tab<u32>,
    pub reify_go: Gen2<u32>,
    /// `e -> one past the highest de Bruijn level of a free variable in it`
    pub lvl: Tab<u32>,
    /// `type -> whether it is a proposition`
    pub prop: Tab<bool>,
    /// `e -> the loose variables it reads`
    pub umask: Tab<Uses>,
    /// `(read set, env) -> that environment projected onto that set`
    pub proj: Tab<u32>,
    /// `proj` for wide read sets, keyed by the interned set id
    pub proj_w: Tab<u32>,
    /// `(read set, env) -> the view of that environment`
    pub view: Gen2<u32>,
    pub view_w: Gen2<u32>,
    /// the word vectors wide read sets name
    pub wide: SliceTable,
    /// Read views: entry lists interned whole.
    pub views: SliceTable,
    /// The sides of remembered comparisons: expression, environment, offset.
    pub sides: Tab<u32>,
    pub num_sides: u32,
    /// Comparisons of two sides.
    pub eq_mod: Gen2<bool>,
    /// constant -> its level-instantiated definition value
    pub g_unfold: Tab<u32>,
    /// constant -> its level-instantiated type
    pub g_inst_ty: Tab<u32>,
}

impl CloMemos {
    pub fn new() -> (r: CloMemos)
        ensures
            r.empty(),
    {
        CloMemos {
            infer_check: Tab::new(),
            infer_only: Tab::new(),
            reify_go: Gen2::new(),
            lvl: Tab::new(),
            prop: Tab::new(),
            umask: Tab::new(),
            proj: Tab::new(),
            proj_w: Tab::new(),
            view: Gen2::new(),
            view_w: Gen2::new(),
            wide: SliceTable::new(),
            views: SliceTable::new(),
            sides: Tab::new(),
            num_sides: 0,
            eq_mod: Gen2::new(),
            g_unfold: Tab::new(),
            g_inst_ty: Tab::new(),
        }
    }

    /// Nothing is remembered.
    pub open spec fn empty(&self) -> bool {
        &&& self.infer_check@ == Map::<Key, u32>::empty()
        &&& self.infer_only@ == Map::<Key, u32>::empty()
        &&& forall|k: Key, v: u32| !#[trigger] self.reify_go.holds(k, v)
        &&& self.lvl@ == Map::<Key, u32>::empty()
        &&& self.prop@ == Map::<Key, bool>::empty()
        &&& self.umask@ == Map::<Key, Uses>::empty()
        &&& self.proj@ == Map::<Key, u32>::empty()
        &&& self.proj_w@ == Map::<Key, u32>::empty()
        &&& forall|k: Key, v: u32| !#[trigger] self.view.holds(k, v)
        &&& forall|k: Key, v: u32| !#[trigger] self.view_w.holds(k, v)
        &&& self.wide.wf()
        &&& self.wide@.len() == 0
        &&& self.views.wf()
        &&& self.views@.len() == 0
        &&& self.sides@ == Map::<Key, u32>::empty()
        &&& forall|k: Key, v: bool| !#[trigger] self.eq_mod.holds(k, v)
        &&& self.g_unfold@ == Map::<Key, u32>::empty()
        &&& self.g_inst_ty@ == Map::<Key, u32>::empty()
    }
}

impl ElimT {
    /// The conversion variables of a spine are those of its head and arguments.
    pub proof fn lemma_spine_bvb(f: Term, es: Seq<ElimT>)
        ensures
            f.bvb() <= ElimT::spine(f, es).bvb(),
            forall|i: int|
                0 <= i < es.len() ==> (#[trigger] es[i] matches ElimT::App(a) ==> a.bvb() <= ElimT::spine(f, es).bvb()),
        decreases es.len(),
    {
        if es.len() > 0 {
            ElimT::lemma_spine_bvb(f, es.drop_last());
            assert forall|i: int| 0 <= i < es.len() implies (#[trigger] es[i] matches ElimT::App(a) ==> a.bvb()
                <= ElimT::spine(f, es).bvb()) by {
                if i < es.len() - 1 {
                    assert(es.drop_last()[i] == es[i]);
                }
            }
        }
    }
}

impl CloState {
    /// The environment that `env` extended by `x` is interned as, if it is.
    pub open spec fn interned(&self, env: EnvId, x: Entry) -> Option<EnvId> {
        if self.env_intern@.contains_key(Entry::key(env, x)) {
            Some(self.env_intern@[Entry::key(env, x)])
        } else {
            None
        }
    }

    /// The environment without entries alone.
    pub fn new() -> (r: CloState)
        ensures
            r.envs@.len() == 1,
            r.envs@[0].len == 0,
            r.envs@[0].next_level == 0,
            r.envs@[0].parent == 0,
            r.envs@[0].jump == 0,
            r.envs@[0].plain,
            r.env_intern@ == Map::<Key, u32>::empty(),
            r.memo.empty(),
    {
        let mut envs: Arena<EnvNode> = Arena::new();
        envs.push(EnvNode { entry: Entry::Neu(0), parent: 0, len: 0, next_level: 0, jump: 0, plain: true });
        CloState { envs, env_intern: Tab::new(), memo: CloMemos::new() }
    }
}

impl TcCtx {
    /// The closure is named and in scope.
    pub open spec fn clo_ok(&self, c: Clo) -> bool {
        self.st.e_ok(c.e) && self.w@.n_ok(c.env) && self.st.e(c.e).nl() <= self.w@.n(c.env).len()
    }

    /// The term a closure stands for.
    pub open spec fn clo(&self, c: Clo) -> Term {
        self.st.e(c.e).inst(0, self.w@.n(c.env))
    }

    /// Only what is remembered over closures differs from `o`.
    pub open spec fn same_world(&self, o: &TcCtx) -> bool {
        &&& self.st == o.st
        &&& self.nb == o.nb
        &&& self.rp.envs == o.rp.envs
        &&& self.rp.env_intern == o.rp.env_intern
        &&& self.counts == o.counts
        &&& self.w == o.w
        &&& self.names == o.names
        &&& self.nat_ext == o.nat_ext
        &&& self.str_ext == o.str_ext
        &&& self.eager_mode == o.eager_mode
    }

    /// What is remembered may change as long as it is true and the views stay.
    pub proof fn lemma_memo_step(&self, o: &TcCtx)
        requires
            o.wf(),
            self.same_world(o),
            self.rp.memo.ok(self.w@, &self.st),
            self.rp.memo.views@.len() >= o.rp.memo.views@.len(),
            forall|i: int| 0 <= i < o.rp.memo.views@.len() ==> self.rp.memo.views@[i] == o.rp.memo.views@[i],
        ensures
            self.wf(),
            self.ext(o),
    {
        reveal(TcCtx::wf);
    }

    /// What is remembered is true.
    pub proof fn lemma_memo(&self)
        requires
            self.wf(),
        ensures
            self.rp.memo.ok(self.w@, &self.st),
            self.nb.memo.ok(self.w@, &self.st),
    {
        reveal(TcCtx::wf);
    }

    // ---- environments ----

    /// One past the highest loose variable of `e`.
    pub fn lbr(&self, e: ExprPtr) -> (r: u16)
        requires
            self.wf(),
            self.st.e_ok(e),
        ensures
            r == self.st.e(e).nl(),
    {
        self.num_loose_bvars(e)
    }

    pub proof fn lemma_env(&self, env: EnvId)
        requires
            self.wf(),
            self.w@.n_ok(env),
        ensures
            env < self.rp.envs@.len(),
            self.w@.env_ok(&self.st, env, self.rp.envs@[env as int]),
    {
        reveal(TcCtx::wf);
    }

    /// The number of entries of an environment.
    pub fn env_len(&self, env: EnvId) -> (r: u32)
        requires
            self.wf(),
            self.w@.n_ok(env),
        ensures
            r == self.w@.n(env).len(),
    {
        proof {
            self.lemma_env(env);
        }
        self.rp.envs.index(env as usize).len
    }

    /// Whether no entry of an environment is evaluated.
    pub fn env_plain(&self, env: EnvId) -> (r: bool)
        requires
            self.wf(),
            self.w@.n_ok(env),
        ensures
            r == self.w@.plain(env),
    {
        proof {
            self.lemma_env(env);
        }
        self.rp.envs.index(env as usize).plain
    }

    /// One past the highest level bound in an environment.
    pub fn env_next_level(&self, env: EnvId) -> (r: u32)
        requires
            self.wf(),
            self.w@.n_ok(env),
        ensures
            r == self.w@.nlevel(env),
    {
        proof {
            self.lemma_env(env);
        }
        self.rp.envs.index(env as usize).next_level
    }

    /// One past the highest de Bruijn level carried by a free variable in `e`.
    pub fn max_level(&mut self, e: ExprPtr) -> (r: Result<u32, TcError>)
        requires
            old(self).wf(),
            old(self).st.e_ok(e),
        ensures
            final(self).wf(),
            final(self).ext(old(self)),
            final(self).same_world(old(self)),
            final(self).rp.memo.views == old(self).rp.memo.views,
            final(self).rp.memo.wide == old(self).rp.memo.wide,
            r matches Ok(l) ==> l == old(self).st.e(e).ml(),
            r is Err ==> r == Err::<u32, TcError>(TcError::Full),
        decreases e,
    {
        if !self.has_fvars(e) {
            proof {
                self.lemma_wf();
                self.st.lemma_no_bv(e);
                Term::lemma_no_fv_ml(self.st.e(e));
            }
            return Ok(0);
        }
        match self.rp.memo.lvl.get((e, 0, 0, 0)) {
            Some(r) => {
                proof {
                    self.lemma_memo();
                    reveal(CloMemos::ok);
                    assert(self.rp.memo.lvl@.contains_key((e, 0, 0, 0)));
                }
                return Ok(r);
            },
            None => {},
        }
        let r: u32 = match self.read_expr(e) {
            Expr::Local { id, binder_type, .. } => {
                let t: u32 = self.max_level(binder_type)?;
                match id {
                    FVarId::DbjLevel(l) => {
                        if l == u32::MAX {
                            return Err(TcError::Full);
                        }
                        TcCtx::larger(t, l + 1)
                    },
                    FVarId::Unique(_) => t,
                }
            },
            Expr::App { fun, arg } => {
                let a: u32 = self.max_level(fun)?;
                let b: u32 = self.max_level(arg)?;
                TcCtx::larger(a, b)
            },
            Expr::Lambda { binder_type, body, .. } => {
                let a: u32 = self.max_level(binder_type)?;
                let b: u32 = self.max_level(body)?;
                TcCtx::larger(a, b)
            },
            Expr::Pi { binder_type, body, .. } => {
                let a: u32 = self.max_level(binder_type)?;
                let b: u32 = self.max_level(body)?;
                TcCtx::larger(a, b)
            },
            Expr::Let { binder_type, val, body, .. } => {
                let a: u32 = self.max_level(binder_type)?;
                let v: u32 = self.max_level(val)?;
                let b: u32 = self.max_level(body)?;
                TcCtx::larger(TcCtx::larger(a, v), b)
            },
            Expr::Proj { structure, .. } => self.max_level(structure)?,
            _ => 0,
        };
        let ghost o = *self;
        proof {
            self.lemma_memo();
        }
        self.rp.memo.lvl.insert((e, 0, 0, 0), r);
        proof {
            assert(self.rp.memo.ok(self.w@, &self.st)) by {
                reveal(CloMemos::ok);
            }
            self.lemma_memo_step(&o);
        }
        Ok(r)
    }

    fn larger(a: u32, b: u32) -> (r: u32)
        ensures
            r == Term::max(a as nat, b as nat),
    {
        if a >= b {
            a
        } else {
            b
        }
    }

    /// The de Bruijn level to give a binder opened inside the closure
    /// `(e, env)`: one past every level reachable from it, so the variable that
    /// names that binder cannot be confused with one already in scope.
    pub fn next_level(&mut self, e: ExprPtr, env: EnvId) -> (r: Result<u32, TcError>)
        requires
            old(self).wf(),
            old(self).st.e_ok(e),
            old(self).w@.n_ok(env),
        ensures
            final(self).wf(),
            final(self).ext(old(self)),
            final(self).same_world(old(self)),
            final(self).rp.memo.views == old(self).rp.memo.views,
            final(self).rp.memo.wide == old(self).rp.memo.wide,
            r matches Ok(l) ==> l == Term::max(old(self).st.e(e).ml(), old(self).w@.nlevel(env)),
            r is Err ==> r == Err::<u32, TcError>(TcError::Full),
    {
        let a: u32 = self.max_level(e)?;
        Ok(TcCtx::larger(a, self.env_next_level(env)))
    }

    /// The Myers jump pointer of an environment extending `env`: skip as far as
    /// the parent's jump does when the two distances below it are equal.
    fn jump_of(&self, env: EnvId) -> (r: EnvId)
        requires
            self.wf(),
            self.w@.n_ok(env),
        ensures
            self.w@.n_ok(r),
            r <= env,
            self.w@.n(r).len() <= self.w@.n(env).len(),
            self.w@.ents(r) == self.w@.ents(env).skip(self.w@.n(env).len() - self.w@.n(r).len()),
    {
        proof {
            self.lemma_env(env);
            let p = self.rp.envs@[env as int];
            self.lemma_env(p.jump);
            let j = self.rp.envs@[p.jump as int];
            self.lemma_env(j.jump);
            self.lemma_skip(env, p.jump);
            self.lemma_skip(p.jump, j.jump);
            assert(self.w@.ents(env) =~= self.w@.ents(env).skip(0));
        }
        let p = *self.rp.envs.index(env as usize);
        let j = *self.rp.envs.index(p.jump as usize);
        let d1: u32 = p.len - j.len;
        let d2: u32 = j.len - self.rp.envs.index(j.jump as usize).len;
        if d1 == d2 {
            proof {
                let w = self.w@;
                assert(w.ents(j.jump) =~= w.ents(env).skip(w.n(env).len() - w.n(j.jump).len()));
            }
            j.jump
        } else {
            env
        }
    }

    /// A jump leads to a tail of the chain.
    pub proof fn lemma_skip(&self, env: EnvId, jump: EnvId)
        requires
            self.wf(),
            self.w@.n_ok(env),
            jump == self.rp.envs@[env as int].jump,
        ensures
            self.w@.n_ok(jump),
            jump <= env,
            self.w@.n(jump).len() <= self.w@.n(env).len(),
            self.w@.ents(jump) == self.w@.ents(env).skip(self.w@.n(env).len() - self.w@.n(jump).len()),
    {
        self.lemma_env(env);
        if env == 0 {
            assert(self.w@.ents(env) =~= self.w@.ents(env).skip(0));
        }
    }

    /// Append an environment node.
    pub fn push_node(&mut self, env: EnvId, entry: Entry, next_level: u32) -> (r: Result<EnvId, TcError>)
        requires
            old(self).wf(),
            old(self).w@.n_ok(env),
            old(self).w@.entry_ok(&old(self).st, entry, old(self).w@.clock),
            next_level >= old(self).w@.nlevel(env),
            old(self).w@.entry_plain(entry) ==> old(self).w@.entry(&old(self).st, entry).ml() <= next_level,
        ensures
            final(self).wf(),
            final(self).ext(old(self)),
            final(self).st == old(self).st,
            final(self).nb == old(self).nb,
            final(self).rp.memo == old(self).rp.memo,
            final(self).eager_mode == old(self).eager_mode,
            r matches Ok(n) ==> final(self).w@.n_ok(n) && n > 0 && final(self).w@.n(n) == seq![
                old(self).w@.entry(&old(self).st, entry),
            ] + old(self).w@.n(env) && final(self).w@.ents(n) == seq![entry] + old(self).w@.ents(env) && final(
                self).w@.plain(n) == (old(self).w@.plain(env) && old(self).w@.entry_plain(entry)),
            r matches Ok(n) ==> final(self).w@.nlevel(n) >= old(self).w@.nlevel(env),
            r matches Ok(n) ==> final(self).rp.interned(env, entry) == Some(n),
            old(self).rp.interned(env, entry) matches Some(n) ==> r == Ok::<EnvId, TcError>(n),
            r is Err ==> r == Err::<EnvId, TcError>(TcError::Full),
    {
        let ghost o = *self;
        proof {
            self.lemma_heap();
            self.lemma_wf();
            self.lemma_ntime(env);
        }
        let key = pack_entry_key(env, entry);
        match self.rp.env_intern.get(key) {
            Some(i) => {
                proof {
                    self.lemma_intern(env, entry, i);
                }
                return Ok(i);
            },
            None => {},
        }
        let len: u32 = self.env_len(env);
        if self.rp.envs.len() >= 0x7fff_ffff || len >= 0xffff_fff0 {
            return Err(TcError::Full);
        }
        let jump: EnvId = self.jump_of(env);
        let id: u32 = self.rp.envs.len() as u32;
        let plain: bool = self.env_plain(env) && match entry {
            Entry::Val(_, n) => self.env_plain(n),
            Entry::Neu(_) => true,
            Entry::V(_) => false,
        };
        self.rp.envs.push(EnvNode { entry, parent: env, len: len + 1, next_level, jump, plain });
        self.rp.env_intern.insert(key, id);
        inc_env(&mut self.counts, env);
        let ghost c1 = self.counts;
        proof {
            let x = o.counts.envs@[env as int];
            assert(Word::of(Counts::bumped(x)).alloc == Word::of(x).alloc);
        }
        match entry {
            Entry::V(v) => {
                inc_val(&mut self.counts, v);
                proof {
                    let x = c1.vals@[v as int];
                    assert(Word::of(Counts::bumped(x)).alloc == Word::of(x).alloc);
                }
            },
            Entry::Val(_, n) => {
                proof {
                    assert(self.counts.live(Kind::Env, n));
                }
                inc_env(&mut self.counts, n);
                proof {
                    let x = c1.envs@[n as int];
                    assert(Word::of(Counts::bumped(x)).alloc == Word::of(x).alloc);
                }
            },
            Entry::Neu(_) => {},
        }
        new_node(&mut self.counts, Kind::Env);
        proof {
            self.nb.lemma_wf_counts(&o.counts, &self.counts);
            let t = o.w@.entry(&o.st, entry);
            self.w@ = World {
                nc: o.w@.nc.push(seq![entry] + o.w@.ents(env)),
                nd: o.w@.nd.push(seq![t] + o.w@.n(env)),
                nt: o.w@.nt.push(o.w@.clock),
                nlv: o.w@.nlv.push(next_level as nat),
                np: o.w@.np.push(o.w@.plain(env) && o.w@.entry_plain(entry)),
                clock: o.w@.clock + 1,
                ..o.w@
            };
            self.lemma_pushed(&o, env, entry, next_level, jump);
            assert(self.w@.n(id) == seq![t] + o.w@.n(env));
            assert(self.w@.ents(id) == seq![entry] + o.w@.ents(env));
        }
        Ok(id)
    }

    /// An environment found in the table is the one asked for.
    proof fn lemma_intern(&self, env: EnvId, entry: Entry, i: EnvId)
        requires
            self.wf(),
            self.rp.env_intern@.contains_key(Entry::key(env, entry)),
            i == self.rp.env_intern@[Entry::key(env, entry)],
        ensures
            self.w@.n_ok(i),
            i > 0,
            self.w@.n(i) == seq![self.w@.entry(&self.st, entry)] + self.w@.n(env),
            self.w@.ents(i) == seq![entry] + self.w@.ents(env),
            self.w@.plain(i) == (self.w@.plain(env) && self.w@.entry_plain(entry)),
            self.w@.nlevel(i) >= self.w@.nlevel(env),
    {
        reveal(TcCtx::wf);
        assert(self.w@.env_ok(&self.st, i, self.rp.envs@[i as int]));
    }

    /// An environment appended leaves the check well formed.
    #[verifier::spinoff_prover]
    proof fn lemma_pushed(&self, o: &TcCtx, env: EnvId, entry: Entry, next_level: u32, jump: EnvId)
        requires
            o.wf(),
            o.w@.n_ok(env),
            o.w@.entry_ok(&o.st, entry, o.w@.clock),
            next_level >= o.w@.nlevel(env),
            o.w@.entry_plain(entry) ==> o.w@.entry(&o.st, entry).ml() <= next_level,
            o.w@.n_ok(jump),
            jump <= env,
            o.w@.n(jump).len() <= o.w@.n(env).len(),
            o.w@.ents(jump) == o.w@.ents(env).skip(o.w@.n(env).len() - o.w@.n(jump).len()),
            self.st == o.st,
            self.nb == o.nb,
            self.names == o.names,
            self.nat_ext == o.nat_ext,
            self.str_ext == o.str_ext,
            self.eager_mode == o.eager_mode,
            self.rp.memo == o.rp.memo,
            o.rp.envs@.len() < 0x7fff_ffff,
            o.w@.n(env).len() < 0xffff_fff0,
            self.rp.envs@ == o.rp.envs@.push(
                EnvNode {
                    entry,
                    parent: env,
                    len: (o.w@.n(env).len() + 1) as u32,
                    next_level,
                    jump,
                    plain: o.w@.plain(env) && o.w@.entry_plain(entry),
                },
            ),
            !o.rp.env_intern@.contains_key(Entry::key(env, entry)),
            self.rp.env_intern@ == o.rp.env_intern@.insert(Entry::key(env, entry), o.rp.envs@.len() as u32),
            self.nb.wf(&self.counts),
            self.counts.wf(),
            self.counts.all_live(),
            self.counts.envs@.len() == o.counts.envs@.len() + 1,
            self.w@ == (World {
                nc: o.w@.nc.push(seq![entry] + o.w@.ents(env)),
                nd: o.w@.nd.push(seq![o.w@.entry(&o.st, entry)] + o.w@.n(env)),
                nt: o.w@.nt.push(o.w@.clock),
                nlv: o.w@.nlv.push(next_level as nat),
                np: o.w@.np.push(o.w@.plain(env) && o.w@.entry_plain(entry)),
                clock: o.w@.clock + 1,
                ..o.w@
            }),
        ensures
            self.wf(),
            self.ext(o),
    {
        reveal(TcCtx::wf);
        let w = self.w@;
        let ow = o.w@;
        let id = o.rp.envs@.len() as u32;
        assert(w.ext(ow));
        self.st.lemma_ext_refl();
        o.lemma_closed();
        o.lemma_ntime(env);
        assert forall|i: u32| i < self.nb.vals@.len() implies w.val_ok(&self.st, i,
            #[trigger] self.nb.vals@[i as int]) by {
            w.lemma_val_ext(ow, &self.st, &o.st, i, o.nb.vals@[i as int]);
        }
        assert forall|i: u32| i < self.nb.spines@.len() implies w.spine_ok(i, #[trigger] self.nb.spines@[i as int]) by {
            w.lemma_spine_ext(ow, i, o.nb.spines@[i as int]);
        }
        let t = ow.entry(&o.st, entry);
        assert(t.nl() == 0) by {
            match entry {
                Entry::Val(e, n) => {
                    Term::lemma_inst_nl(o.st.e(e), 0, ow.n(n));
                },
                _ => {},
            }
        }
        let x = self.rp.envs@[id as int];
        assert(w.env_ok(&self.st, id, x)) by {
            assert(w.n(id) == seq![t] + ow.n(env));
            assert(w.ents(id) == seq![entry] + ow.ents(env));
            assert(w.ents(id).skip(1) =~= ow.ents(env));
            assert(ow.ents(jump) =~= w.ents(id).skip(w.n(id).len() - ow.n(jump).len()));
            assert(w.entry(&self.st, entry) == t);
            assert(Term::closed_seq(w.n(id))) by {
                assert forall|i: int| 0 <= i < w.n(id).len() implies w.n(id)[i].nl() == 0 by {
                    if i > 0 {
                        assert(w.n(id)[i] == ow.n(env)[i - 1]);
                    }
                }
            }
            if w.plain(id) {
                assert forall|i: int| 0 <= i < w.n(id).len() implies w.n(id)[i].ml() <= next_level by {
                    if i > 0 {
                        assert(w.n(id)[i] == ow.n(env)[i - 1]);
                    }
                }
            }
            assert(o.w@.env_ok(&o.st, env, o.rp.envs@[env as int]));
            assert forall|j: int| 0 <= j < w.ents(id).len() implies w.entry_at(
                &self.st,
                id,
                #[trigger] w.ents(id)[j],
                j,
            ) by {
                if j > 0 {
                    let y = ow.ents(env)[j - 1];
                    assert(ow.entry_at(&o.st, env, y, j - 1));
                    assert(w.ents(id)[j] == y);
                    assert(w.n(id)[j] == ow.n(env)[j - 1]);
                    w.lemma_entry_ext(ow, &self.st, &o.st, y, ow.ntime(env));
                }
            }
        }
        assert forall|i: u32| i < self.rp.envs@.len() implies w.env_ok(&self.st, i,
            #[trigger] self.rp.envs@[i as int]) by {
            if i < id {
                assert(self.rp.envs@[i as int] == o.rp.envs@[i as int]);
                w.lemma_env_ext(ow, &self.st, &o.st, i, o.rp.envs@[i as int]);
            }
        }
        self.nb.memo.lemma_ext(w, ow, &self.st, &o.st);
        self.rp.memo.lemma_ext(w, ow, &self.st, &o.st);
        assert(self.rp.intern_ok()) by {
            assert forall|n: u32, y: Entry| #[trigger] self.rp.env_intern@.contains_key(Entry::key(n, y)) implies {
                let i = self.rp.env_intern@[Entry::key(n, y)];
                0 < i < self.rp.envs@.len() && self.rp.envs@[i as int].parent == n && self.rp.envs@[i as int].entry == y
            } by {
                if Entry::key(n, y) == Entry::key(env, entry) {
                    Entry::key_injective(n, y, env, entry);
                } else {
                    assert(o.rp.env_intern@.contains_key(Entry::key(n, y)));
                }
            }
            assert forall|i: int| 1 <= i < self.rp.envs@.len() implies Vals::names(
                self.rp.env_intern@,
                Entry::key((#[trigger] self.rp.envs@[i]).parent, self.rp.envs@[i].entry),
                i,
            ) by {
                if i < o.rp.envs@.len() {
                    assert(self.rp.envs@[i] == o.rp.envs@[i]);
                }
            }
        }
        assert(self.thunks_ok()) by {
            assert forall|k: u32, y: u32| #[trigger] self.nb.tabs.thunk@.contains_key((k, y, 0, 0)) implies {
                let i = self.nb.tabs.thunk@[(k, y, 0, 0)];
                i < self.nb.vals@.len() && self.nb.vals@[i as int] is Thunk && w.read_rel(
                    &self.st,
                    self.rp.memo.views@,
                    k,
                    y,
                    self.nb.vals@[i as int]->Thunk_env,
                )
            } by {
                let i = o.nb.tabs.thunk@[(k, y, 0, 0)];
                assert(ow.val_ok(&o.st, i, o.nb.vals@[i as int]));
            }
        }
    }

    /// Extend an environment with an evaluated entry.
    pub fn push_entry_v(&mut self, env: EnvId, v: ValId) -> (r: Result<EnvId, TcError>)
        requires
            old(self).wf(),
            old(self).w@.n_ok(env),
            old(self).w@.v_ok(v),
        ensures
            final(self).wf(),
            final(self).ext(old(self)),
            final(self).st == old(self).st,
            final(self).nb == old(self).nb,
            final(self).rp.memo == old(self).rp.memo,
            final(self).eager_mode == old(self).eager_mode,
            r matches Ok(n) ==> final(self).w@.n_ok(n) && final(self).w@.n(n) == seq![old(self).w@.v(v)] + old(
                self).w@.n(env),
            r is Err ==> r == Err::<EnvId, TcError>(TcError::Full),
    {
        self.tick(PUSH_ENTRY);
        proof {
            self.lemma_vtime(v);
        }
        let next_level: u32 = self.env_next_level(env);
        self.push_node(env, Entry::V(v), next_level)
    }

    /// Entry for de Bruijn index `i` (0 is innermost).
    pub fn lookup(&self, env: EnvId, i: u16) -> (r: Entry)
        requires
            self.wf(),
            self.w@.n_ok(env),
            i < self.w@.n(env).len(),
        ensures
            r == self.w@.ents(env)[i as int],
            self.w@.entry_ok(&self.st, r, self.w@.ntime(env)),
            self.w@.entry(&self.st, r) == self.w@.n(env)[i as int],
            self.w@.plain(env) ==> self.w@.entry_plain(r),
    {
        proof {
            self.lemma_env(env);
            self.lemma_ntime(env);
            assert(self.w@.entry_at(&self.st, env, self.w@.ents(env)[i as int], i as int));
            assert(self.w@.ents(env) =~= self.w@.ents(env).skip(0));
        }
        let len: u32 = self.env_len(env);
        // counted from the bottom: the entry of the node of length `target + 1`
        let target: u32 = len - 1 - i as u32;
        let mut cur: EnvId = env;
        loop
            invariant
                self.wf(),
                self.w@.n_ok(env),
                self.w@.n_ok(cur),
                len == self.w@.n(env).len(),
                self.w@.ents(env).len() == len,
                i < len,
                target == len - 1 - i,
                self.w@.n(cur).len() > target,
                self.w@.n(cur).len() <= len,
                self.w@.ents(cur) == self.w@.ents(env).skip(len - self.w@.n(cur).len()),
                self.w@.entry_ok(&self.st, self.w@.ents(env)[i as int], self.w@.ntime(env)),
                self.w@.entry(&self.st, self.w@.ents(env)[i as int]) == self.w@.n(env)[i as int],
                self.w@.plain(env) ==> self.w@.entry_plain(self.w@.ents(env)[i as int]),
            decreases cur,
        {
            proof {
                self.lemma_env(cur);
                self.lemma_ntime(cur);
            }
            let n = *self.rp.envs.index(cur as usize);
            if n.len == target + 1 {
                proof {
                    assert(self.w@.ents(cur)[0] == n.entry);
                    assert(self.w@.ents(cur)[0] == self.w@.ents(env)[i as int]);
                }
                return n.entry;
            }
            proof {
                self.lemma_skip(cur, n.jump);
                self.lemma_env(n.jump);
                self.lemma_env(n.parent);
                self.lemma_ntime(n.parent);
                assert(self.w@.ents(n.jump) =~= self.w@.ents(env).skip(len - self.w@.n(n.jump).len()));
                assert(self.w@.ents(n.parent) =~= self.w@.ents(cur).skip(1));
                assert(self.w@.ents(n.parent) =~= self.w@.ents(env).skip(len - self.w@.n(n.parent).len()));
            }
            if self.rp.envs.index(n.jump as usize).len > target {
                cur = n.jump;
            } else {
                cur = n.parent;
            }
        }
    }
}

} // verus!
