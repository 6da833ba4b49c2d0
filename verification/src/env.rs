//! Declarations and the environment they are looked up in.
use crate::expr::{ExprPtr, Expr, Store};
use crate::level::{LevelsPtr, NamePtr};
use crate::table::Tab;
use crate::term::{Lvl, Term};
use crate::theory::{GCtor, GDecl, GInd, GKind, GRec, GRule, Names, Sig};
use vstd::prelude::*;

verus! {

/// What every declaration has.
#[derive(Clone, Copy)]
pub struct DeclarInfo {
    pub name: NamePtr,
    pub uparams: LevelsPtr,
    pub ty: ExprPtr,
}

/// How eagerly a definition is unfolded.
#[derive(Clone, Copy, PartialEq, Eq, Structural, Debug)]
pub enum ReducibilityHint {
    Opaque,
    /// The height of the definition above the leaves.
    Regular(u16),
    Abbrev,
}

impl ReducibilityHint {
    /// Opaque definitions come first, then regular ones by height, then
    /// abbreviations.
    pub open spec fn lt(self, o: ReducibilityHint) -> bool {
        match (self, o) {
            (_, ReducibilityHint::Opaque) => false,
            (ReducibilityHint::Abbrev, _) => false,
            (ReducibilityHint::Opaque, _) => true,
            (_, ReducibilityHint::Abbrev) => true,
            (ReducibilityHint::Regular(a), ReducibilityHint::Regular(b)) => a < b,
        }
    }

    pub fn is_lt(&self, o: &ReducibilityHint) -> (r: bool)
        ensures
            r == self.lt(*o),
    {
        match (*self, *o) {
            (_, ReducibilityHint::Opaque) => false,
            (ReducibilityHint::Abbrev, _) => false,
            (ReducibilityHint::Opaque, _) => true,
            (_, ReducibilityHint::Abbrev) => true,
            (ReducibilityHint::Regular(a), ReducibilityHint::Regular(b)) => a < b,
        }
    }
}

/// An inductive type.
pub struct InductiveData {
    pub info: DeclarInfo,
    pub num_params: u16,
    pub num_indices: u16,
    pub all_ctor_names: Vec<NamePtr>,
    pub is_recursive: bool,
}

/// A constructor.
pub struct ConstructorData {
    pub info: DeclarInfo,
    pub inductive_name: NamePtr,
    pub num_params: u16,
    pub num_fields: u16,
}

/// One computation rule of a recursor.
#[derive(Clone, Copy)]
pub struct RecRule {
    pub ctor_name: NamePtr,
    pub ctor_telescope_size_wo_params: u16,
    pub val: ExprPtr,
}

/// A recursor.
pub struct RecursorData {
    pub info: DeclarInfo,
    pub num_params: u16,
    pub num_motives: u16,
    pub num_minors: u16,
    pub num_indices: u16,
    pub rec_rules: Vec<RecRule>,
    pub is_k: bool,
    pub all_inductives: Vec<NamePtr>,
}

/// A declaration.
pub enum Declar {
    Axiom { info: DeclarInfo },
    Quot { info: DeclarInfo },
    Definition { info: DeclarInfo, val: ExprPtr, hint: ReducibilityHint },
    Theorem { info: DeclarInfo, val: ExprPtr },
    Opaque { info: DeclarInfo, val: ExprPtr },
    Inductive(InductiveData),
    Constructor(ConstructorData),
    Recursor(RecursorData),
}

impl Term {
    /// The constant at the head of an application.
    pub open spec fn head_const(self) -> Option<u32>
        decreases self,
    {
        match self {
            Term::App(f, _) => f.head_const(),
            Term::Const(n, _) => Some(n),
            _ => None,
        }
    }

    /// The constant at the head of the domain of binder `n` of a telescope.
    pub open spec fn binder_const(self, n: nat) -> Option<u32>
        decreases n,
    {
        match self {
            Term::Pi(_, _, a, b) => if n == 0 {
                a.head_const()
            } else {
                b.binder_const((n - 1) as nat)
            },
            _ => None,
        }
    }
}

impl RecursorData {
    pub open spec fn g(&self, st: &Store) -> GRec {
        GRec {
            num_params: self.num_params as nat,
            num_motives: self.num_motives as nat,
            num_minors: self.num_minors as nat,
            num_indices: self.num_indices as nat,
            rules: Seq::new(
                self.rec_rules@.len(),
                |i: int|
                    GRule {
                        ctor: self.rec_rules@[i].ctor_name,
                        nfields: self.rec_rules@[i].ctor_telescope_size_wo_params as nat,
                        val: st.e(self.rec_rules@[i].val),
                    },
            ),
            k: self.is_k,
            all: self.all_inductives@,
            major_ind: st.e(self.info.ty).binder_const(self.major_nat()),
        }
    }

    /// The position of the major premise.
    pub open spec fn major_nat(&self) -> nat {
        (self.num_params + self.num_motives + self.num_minors + self.num_indices) as nat
    }

    /// The position of the major premise.
    pub fn major_idx(&self) -> (r: usize)
        ensures
            r == self.major_nat(),
    {
        self.num_params as usize + self.num_motives as usize + self.num_minors as usize + self.num_indices as usize
    }

    /// The number of arguments a rule takes before the constructor's fields.
    pub fn prefix(&self) -> (r: usize)
        ensures
            r == self.num_params + self.num_motives + self.num_minors,
            r <= self.major_nat(),
    {
        self.num_params as usize + self.num_motives as usize + self.num_minors as usize
    }

    /// There is a rule for the constructor `ctor`, and the first one takes no
    /// more than `n` fields.
    pub open spec fn fires(&self, ctor: NamePtr, n: nat) -> bool {
        exists|i: int|
            0 <= i < self.rec_rules@.len() && (#[trigger] self.rec_rules@[i]).ctor_name == ctor
                && self.rec_rules@[i].ctor_telescope_size_wo_params <= n && forall|j: int|
                0 <= j < i ==> (#[trigger] self.rec_rules@[j]).ctor_name != ctor
    }

    /// There is a rule for the constructor `ctor`, and the first one takes `n`
    /// fields.
    pub open spec fn takes(&self, ctor: NamePtr, n: nat) -> bool {
        exists|i: int|
            0 <= i < self.rec_rules@.len() && (#[trigger] self.rec_rules@[i]).ctor_name == ctor
                && self.rec_rules@[i].ctor_telescope_size_wo_params == n && forall|j: int|
                0 <= j < i ==> (#[trigger] self.rec_rules@[j]).ctor_name != ctor
    }

    /// The rule for the constructor `ctor`.
    pub fn rule_for(&self, ctor: NamePtr) -> (r: Option<usize>)
        ensures
            match r {
                Some(i) => i < self.rec_rules@.len() && self.rec_rules@[i as int].ctor_name == ctor && forall|j: int|
                    0 <= j < i ==> (#[trigger] self.rec_rules@[j]).ctor_name != ctor,
                None => forall|j: int|
                    0 <= j < self.rec_rules@.len() ==> (#[trigger] self.rec_rules@[j]).ctor_name != ctor,
            },
    {
        let mut i: usize = 0;
        while i < self.rec_rules.len()
            invariant
                i <= self.rec_rules@.len(),
                forall|j: int| 0 <= j < i ==> (#[trigger] self.rec_rules@[j]).ctor_name != ctor,
            decreases self.rec_rules@.len() - i,
        {
            if self.rec_rules[i].ctor_name == ctor {
                return Some(i);
            }
            i += 1;
        }
        None
    }
}

impl Declar {
    pub open spec fn info_spec(&self) -> DeclarInfo {
        match self {
            Declar::Axiom { info } => *info,
            Declar::Quot { info } => *info,
            Declar::Definition { info, .. } => *info,
            Declar::Theorem { info, .. } => *info,
            Declar::Opaque { info, .. } => *info,
            Declar::Inductive(d) => d.info,
            Declar::Constructor(d) => d.info,
            Declar::Recursor(d) => d.info,
        }
    }

    pub fn info(&self) -> (r: DeclarInfo)
        ensures
            r == self.info_spec(),
    {
        match self {
            Declar::Axiom { info } => *info,
            Declar::Quot { info } => *info,
            Declar::Definition { info, .. } => *info,
            Declar::Theorem { info, .. } => *info,
            Declar::Opaque { info, .. } => *info,
            Declar::Inductive(d) => d.info,
            Declar::Constructor(d) => d.info,
            Declar::Recursor(d) => d.info,
        }
    }

    /// The declaration as the theory sees it.
    pub open spec fn g(&self, st: &Store) -> GDecl {
        let info = self.info_spec();
        GDecl {
            uparams: st.ls(info.uparams),
            ty: st.e(info.ty),
            val: match self {
                Declar::Definition { val, .. } => Some(st.e(*val)),
                Declar::Theorem { val, .. } => Some(st.e(*val)),
                _ => None,
            },
            kind: match self {
                Declar::Axiom { .. } => GKind::Axiom,
                Declar::Quot { .. } => GKind::Quot,
                Declar::Definition { .. } => GKind::Def,
                Declar::Theorem { .. } => GKind::Thm,
                Declar::Opaque { .. } => GKind::Opaque,
                Declar::Inductive(d) => GKind::Ind(
                    GInd {
                        num_params: d.num_params as nat,
                        num_indices: d.num_indices as nat,
                        ctors: d.all_ctor_names@,
                        recursive: d.is_recursive,
                    },
                ),
                Declar::Constructor(d) => GKind::Ctor(
                    GCtor {
                        ind: d.inductive_name,
                        num_params: d.num_params as nat,
                        num_fields: d.num_fields as nat,
                    },
                ),
                Declar::Recursor(d) => GKind::Rec(d.g(st)),
            },
        }
    }

    /// The expressions of the declaration are named and closed.
    pub open spec fn ok(&self, st: &Store) -> bool {
        let info = self.info_spec();
        &&& st.ls_ok(info.uparams)
        &&& st.e_ok(info.ty)
        &&& st.e(info.ty).nl() == 0
        &&& match self {
            Declar::Definition { val, .. } => st.e_ok(*val) && st.e(*val).nl() == 0,
            Declar::Theorem { val, .. } => st.e_ok(*val) && st.e(*val).nl() == 0,
            Declar::Opaque { val, .. } => st.e_ok(*val) && st.e(*val).nl() == 0,
            Declar::Recursor(d) => forall|i: int|
                0 <= i < d.rec_rules@.len() ==> st.e_ok((#[trigger] d.rec_rules@[i]).val) && st.e(
                    d.rec_rules@[i].val,
                ).nl() == 0,
            _ => true,
        }
    }

    /// Whether the declaration is made of closed expressions of `st`.
    pub fn is_ok(&self, st: &Store) -> (r: bool)
        requires
            st.wf(),
        ensures
            r == self.ok(st),
    {
        let info = self.info();
        if !st.has_levels(info.uparams) || !st.has_closed(info.ty) {
            return false;
        }
        match self {
            Declar::Definition { val, .. } => st.has_closed(*val),
            Declar::Theorem { val, .. } => st.has_closed(*val),
            Declar::Opaque { val, .. } => st.has_closed(*val),
            Declar::Recursor(d) => {
                let mut i: usize = 0;
                while i < d.rec_rules.len()
                    invariant
                        st.wf(),
                        i <= d.rec_rules@.len(),
                        *self == Declar::Recursor(*d),
                        forall|j: int|
                            0 <= j < i ==> st.e_ok((#[trigger] d.rec_rules@[j]).val)
                                && st.e(d.rec_rules@[j].val).nl() == 0,
                    decreases d.rec_rules@.len() - i,
                {
                    if !st.has_closed(d.rec_rules[i].val) {
                        assert(!(st.e_ok(d.rec_rules@[i as int].val) && st.e(d.rec_rules@[i as int].val).nl() == 0));
                        return false;
                    }
                    i += 1;
                }
                true
            },
            _ => true,
        }
    }

    /// A declaration means the same once more expressions are named.
    pub proof fn lemma_ext(&self, a: &Store, b: &Store)
        requires
            self.ok(a),
            b.ext(a),
        ensures
            self.ok(b),
            self.g(b) == self.g(a),
    {
        match self {
            Declar::Recursor(d) => {
                assert forall|i: int| 0 <= i < d.rec_rules@.len() implies b.e_ok((#[trigger] d.rec_rules@[i]).val)
                    && b.e(d.rec_rules@[i].val).nl() == 0 by {
                    assert(a.e_ok(d.rec_rules@[i].val));
                }
                assert(d.g(a).rules =~= d.g(b).rules) by {
                    assert forall|i: int| 0 <= i < d.rec_rules@.len() implies d.g(a).rules[i] == d.g(b).rules[i] by {
                        assert(a.e_ok(d.rec_rules@[i].val));
                    }
                }
            },
            _ => {},
        }
    }
}

/// Declarations in the order they were made, each name declared once.
pub struct Declars {
    decls: Vec<Declar>,
    index: Tab<u32>,
}

impl Declars {
    /// The declarations, in order.
    pub closed spec fn view(&self) -> Seq<Declar> {
        self.decls@
    }

    /// Where `n` is declared.
    pub closed spec fn pos(&self, n: NamePtr) -> Option<u32> {
        if self.index@.contains_key((n, 0, 0, 0)) {
            Some(self.index@[(n, 0, 0, 0)])
        } else {
            None
        }
    }

    /// A name is found where it is declared, and nowhere else.
    pub closed spec fn wf(&self) -> bool {
        &&& self@.len() <= u32::MAX
        &&& forall|n: NamePtr| (#[trigger] self.pos(n)) matches Some(i)
            ==> i < self@.len() && self@[i as int].info_spec().name == n
        &&& forall|i: int| 0 <= i < self@.len() ==> self.pos((#[trigger] self@[i]).info_spec().name) == Some(i as u32)
    }

    /// A name is found where it is declared, and nowhere else.
    pub proof fn lemma_wf(&self)
        requires
            self.wf(),
        ensures
            self@.len() <= u32::MAX,
            forall|n: NamePtr| (#[trigger] self.pos(n)) matches Some(i)
                ==> i < self@.len() && self@[i as int].info_spec().name == n,
            forall|i: int| 0 <= i < self@.len() ==> self.pos((#[trigger] self@[i]).info_spec().name) == Some(i as u32),
    {
    }

    pub fn new() -> (r: Declars)
        ensures
            r.wf(),
            r@ == Seq::<Declar>::empty(),
    {
        let r = Declars { decls: Vec::new(), index: Tab::new() };
        assert(r@ =~= Seq::empty());
        r
    }

    /// Add a declaration, unless its name is taken or there is no room.
    pub fn add_declar(&mut self, d: Declar) -> (r: bool)
        requires
            old(self).wf(),
        ensures
            final(self).wf(),
            r == (old(self).pos(d.info_spec().name) is None && old(self)@.len() < u32::MAX),
            r ==> final(self)@ == old(self)@.push(d),
            !r ==> *final(self) == *old(self),
    {
        let name = d.info().name;
        if self.decls.len() >= 0xffff_ffff || self.index.get((name, 0, 0, 0)).is_some() {
            return false;
        }
        let i: u32 = self.decls.len() as u32;
        let ghost o = *self;
        self.index.insert((name, 0, 0, 0), i);
        self.decls.push(d);
        proof {
            assert(self@ =~= o@.push(d));
            assert forall|n: NamePtr| (#[trigger] self.pos(n)) == (if n == name { Some(i) } else { o.pos(n) }) by {}
            assert forall|j: int| 0 <= j < self@.len() implies self.pos((#[trigger] self@[j]).info_spec().name) == Some(
                j as u32,
            ) by {
                if j < o@.len() {
                    assert(self@[j] == o@[j]);
                }
            }
        }
        true
    }

    pub fn len(&self) -> (r: usize)
        ensures
            r == self@.len(),
    {
        self.decls.len()
    }

    /// Declaration `i`.
    pub fn at(&self, i: usize) -> (r: &Declar)
        requires
            i < self@.len(),
        ensures
            *r == self@[i as int],
    {
        &self.decls[i]
    }

    /// Where `n` is declared.
    pub fn index_of(&self, n: NamePtr) -> (r: Option<u32>)
        ensures
            r == self.pos(n),
    {
        self.index.get((n, 0, 0, 0))
    }
}

/// The declarations in scope: the first ones of a list, and a temporary
/// extension that is searched before them.
pub struct Env<'a> {
    base: &'a Declars,
    limit: u32,
    temp: Vec<Declar>,
    temp_index: Tab<u32>,
}

impl<'a> Env<'a> {
    /// The index of the temporary extension points at the declarations it
    /// names.
    closed spec fn temp_ok(temp: Seq<Declar>, index: Map<(u32, u32, u32, u32), u32>) -> bool {
        &&& temp.len() <= u32::MAX
        &&& forall|n: u32| #[trigger]
            index.contains_key((n, 0, 0, 0)) ==> index[(n, 0, 0, 0)] < temp.len() && temp[index[(
                n,
                0,
                0,
                0,
            )] as int].info_spec().name == n
    }

    pub closed spec fn wf(&self) -> bool {
        self.base.wf() && self.limit <= self.base@.len() && Env::temp_ok(self.temp@, self.temp_index@)
    }

    /// The declaration of `n`.
    pub closed spec fn find(&self, n: NamePtr) -> Option<Declar> {
        if self.temp_index@.contains_key((n, 0, 0, 0)) {
            Some(self.temp@[self.temp_index@[(n, 0, 0, 0)] as int])
        } else {
            Env::find_in(self.base, self.limit as int, n)
        }
    }

    /// How many declarations the temporary extension holds.
    pub closed spec fn temp_len(&self) -> nat {
        self.temp@.len()
    }

    /// The declaration of `n` among the first `limit` ones.
    pub open spec fn find_in(base: &Declars, limit: int, n: NamePtr) -> Option<Declar> {
        match base.pos(n) {
            Some(i) => if i < limit {
                Some(base@[i as int])
            } else {
                None
            },
            None => None,
        }
    }

    /// Every declaration is named and closed in `st`.
    pub open spec fn ok(&self, st: &Store) -> bool {
        self.wf() && forall|n: NamePtr| (#[trigger] self.find(n)) matches Some(d) ==> d.ok(st)
    }

    /// The signature the environment stands for.
    pub open spec fn sig(
        &self,
        st: &Store,
        names: Names,
        nat_ext: bool,
        str_ext: bool,
        uparams: Option<Seq<Lvl>>,
    ) -> Sig {
        Sig {
            decls: Map::new(|n: u32| self.find(n) is Some, |n: u32| self.find(n)->0.g(st)),
            names,
            nat_ext,
            str_ext,
            uparams,
        }
    }

    /// `g` is the signature the environment stands for.
    pub open spec fn models(&self, st: &Store, g: Sig) -> bool {
        &&& self.ok(st)
        &&& forall|n: NamePtr| #[trigger] g.decls.contains_key(n) == (self.find(n) is Some)
        &&& forall|n: NamePtr| (#[trigger] self.find(n)) matches Some(d) ==> g.decls[n] == d.g(st)
    }

    /// The signature stays the same as more expressions are named.
    pub proof fn lemma_ext(&self, a: &Store, b: &Store, g: Sig)
        requires
            self.models(a, g),
            b.ext(a),
        ensures
            self.models(b, g),
    {
        assert forall|n: NamePtr| (#[trigger] self.find(n)) is Some implies self.find(n)->0.ok(b) && g.decls[n]
            == self.find(n)->0.g(b) by {
            let d = self.find(n)->0;
            d.lemma_ext(a, b);
        }
    }

    /// The first `limit` declarations.
    pub fn new(base: &'a Declars, limit: u32) -> (r: Env<'a>)
        requires
            base.wf(),
            limit <= base@.len(),
        ensures
            r.wf(),
            r.temp_len() == 0,
            forall|n: NamePtr| #[trigger] r.find(n) == Env::find_in(base, limit as int, n),
    {
        Env { base, limit, temp: Vec::new(), temp_index: Tab::new() }
    }

    /// Add a declaration to the temporary extension.
    pub fn add_temp(&mut self, d: Declar) -> (r: bool)
        requires
            old(self).wf(),
        ensures
            final(self).wf(),
            r ==> forall|n: NamePtr| #[trigger]
                final(self).find(n) == (if n == d.info_spec().name {
                    Some(d)
                } else {
                    old(self).find(n)
                }),
            r ==> final(self).temp_len() == old(self).temp_len() + 1,
            !r ==> *final(self) == *old(self),
            r == (old(self).temp_len() < 0xffff_ffff),
    {
        if self.temp.len() >= 0xffff_ffff {
            return false;
        }
        let i: u32 = self.temp.len() as u32;
        let name = d.info().name;
        let ghost o = *self;
        self.temp_index.insert((name, 0, 0, 0), i);
        self.temp.push(d);
        proof {
            assert forall|n: u32| #[trigger] self.temp_index@.contains_key((n, 0, 0, 0)) implies self.temp_index@[(
                n,
                0,
                0,
                0,
            )] < self.temp@.len() && self.temp@[self.temp_index@[(n, 0, 0, 0)] as int].info_spec().name == n by {
                if n != name {
                    assert(o.temp_index@.contains_key((n, 0, 0, 0)));
                }
            }
            assert forall|n: NamePtr| #[trigger] self.find(n) == (if n == name { Some(d) } else { o.find(n) }) by {
                if n != name {
                    assert(self.temp_index@.contains_key((n, 0, 0, 0)) == o.temp_index@.contains_key((n, 0, 0, 0)));
                }
            }
        }
        true
    }

    /// Whether the temporary extension holds anything.
    pub fn has_temp_ext(&self) -> (r: bool)
        ensures
            r == (self.temp_len() > 0),
    {
        self.temp.len() > 0
    }

    /// The declaration of `n`.
    pub fn get_declar(&self, n: NamePtr) -> (r: Option<&Declar>)
        requires
            self.wf(),
        ensures
            match r {
                Some(d) => self.find(n) == Some(*d) && d.info_spec().name == n,
                None => self.find(n) is None,
            },
    {
        match self.temp_index.get((n, 0, 0, 0)) {
            Some(i) => {
                return Some(&self.temp[i as usize]);
            },
            None => {},
        }
        match self.base.index_of(n) {
            Some(i) => if i < self.limit {
                Some(self.base.at(i as usize))
            } else {
                None
            },
            None => None,
        }
    }

    /// The level parameters and the value conversion may unfold `n` to.
    pub fn get_declar_val(&self, n: NamePtr) -> (r: Option<(LevelsPtr, ExprPtr)>)
        requires
            self.wf(),
        ensures
            match self.find(n) {
                Some(Declar::Definition { info, val, .. }) => r == Some((info.uparams, val)),
                Some(Declar::Theorem { info, val }) => r == Some((info.uparams, val)),
                _ => r is None,
            },
    {
        match self.get_declar(n) {
            Some(Declar::Definition { info, val, .. }) => Some((info.uparams, *val)),
            Some(Declar::Theorem { info, val }) => Some((info.uparams, *val)),
            _ => None,
        }
    }

    pub fn get_recursor(&self, n: NamePtr) -> (r: Option<&RecursorData>)
        requires
            self.wf(),
        ensures
            match r {
                Some(d) => self.find(n) == Some(Declar::Recursor(*d)) && d.info.name == n,
                None => !(self.find(n) matches Some(Declar::Recursor(_))),
            },
    {
        match self.get_declar(n) {
            Some(Declar::Recursor(d)) => Some(d),
            _ => None,
        }
    }

    pub fn get_constructor(&self, n: NamePtr) -> (r: Option<&ConstructorData>)
        requires
            self.wf(),
        ensures
            match r {
                Some(d) => self.find(n) == Some(Declar::Constructor(*d)) && d.info.name == n,
                None => !(self.find(n) matches Some(Declar::Constructor(_))),
            },
    {
        match self.get_declar(n) {
            Some(Declar::Constructor(d)) => Some(d),
            _ => None,
        }
    }

    pub fn get_inductive(&self, n: NamePtr) -> (r: Option<&InductiveData>)
        requires
            self.wf(),
        ensures
            match r {
                Some(d) => self.find(n) == Some(Declar::Inductive(*d)) && d.info.name == n,
                None => !(self.find(n) matches Some(Declar::Inductive(_))),
            },
    {
        match self.get_declar(n) {
            Some(Declar::Inductive(d)) => Some(d),
            _ => None,
        }
    }

    /// An inductive type with one constructor; unless `any`, also without
    /// indices and not recursive.
    pub fn get_structure(&self, n: NamePtr, any: bool) -> (r: Option<&InductiveData>)
        requires
            self.wf(),
        ensures
            match r {
                Some(d) => self.find(n) == Some(Declar::Inductive(*d)) && d.info.name == n
                    && d.all_ctor_names@.len() == 1
                    && (any || (d.num_indices == 0 && !d.is_recursive)),
                None => self.find(n) matches Some(Declar::Inductive(d)) ==> !(d.all_ctor_names@.len() == 1 && (any || (
                d.num_indices == 0 && !d.is_recursive))),
            },
    {
        match self.get_inductive(n) {
            Some(d) => if d.all_ctor_names.len() == 1 && (any || (d.num_indices == 0 && !d.is_recursive)) {
                Some(d)
            } else {
                None
            },
            None => None,
        }
    }

    /// Whether `n` is a structure: one constructor, no indices, not recursive.
    pub fn can_be_struct(&self, n: NamePtr) -> (r: bool)
        requires
            self.wf(),
        ensures
            r == (self.find(n) matches Some(Declar::Inductive(d)) && d.all_ctor_names@.len() == 1 && d.num_indices == 0
                && !d.is_recursive),
    {
        self.get_structure(n, false).is_some()
    }
}

impl Store {
    /// The constant at the head of an application.
    fn head_const(&self, e: ExprPtr) -> (r: Option<NamePtr>)
        requires
            self.wf(),
            self.e_ok(e),
        ensures
            r == self.e(e).head_const(),
        decreases e,
    {
        match self.read_expr(e) {
            Expr::App { fun, .. } => self.head_const(fun),
            Expr::Const { name, .. } => Some(name),
            _ => None,
        }
    }

    fn binder_const(&self, e: ExprPtr, n: usize) -> (r: Option<NamePtr>)
        requires
            self.wf(),
            self.e_ok(e),
        ensures
            r == self.e(e).binder_const(n as nat),
        decreases n,
    {
        match self.read_expr(e) {
            Expr::Pi { binder_type, body, .. } => if n == 0 {
                self.head_const(binder_type)
            } else {
                self.binder_const(body, n - 1)
            },
            _ => None,
        }
    }

    /// The inductive type of a recursor's major premise, read off the type of
    /// the recursor.
    pub fn get_major_induct(&self, rec: &RecursorData) -> (r: Option<NamePtr>)
        requires
            self.wf(),
            self.e_ok(rec.info.ty),
        ensures
            r == rec.g(self).major_ind,
    {
        self.binder_const(rec.info.ty, rec.major_idx())
    }

    /// Expressions hold no conversion variables.
    pub proof fn lemma_no_bv(&self, e: ExprPtr)
        requires
            self.wf(),
            self.e_ok(e),
        ensures
            self.e(e).bvb() == 0,
        decreases e,
    {
        let x = self.lemma_shape(e);
        match x {
            Expr::App { fun, arg } => {
                self.lemma_no_bv(fun);
                self.lemma_no_bv(arg);
            },
            Expr::Lambda { binder_type, body, .. } => {
                self.lemma_no_bv(binder_type);
                self.lemma_no_bv(body);
            },
            Expr::Pi { binder_type, body, .. } => {
                self.lemma_no_bv(binder_type);
                self.lemma_no_bv(body);
            },
            Expr::Let { binder_type, val, body, .. } => {
                self.lemma_no_bv(binder_type);
                self.lemma_no_bv(val);
                self.lemma_no_bv(body);
            },
            Expr::Proj { structure, .. } => {
                self.lemma_no_bv(structure);
            },
            Expr::Local { binder_type, .. } => {
                self.lemma_no_bv(binder_type);
            },
            _ => {},
        }
    }
}

} // verus!
