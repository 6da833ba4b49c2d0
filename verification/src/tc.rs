//! The type checker: a check in progress against an environment.
use crate::closure::{Clo, EnvId};
use crate::ctx::TcCtx;
use crate::env::{DeclarInfo, Env};
use crate::error::{Reason, TcError};
use crate::expr::{BigUintPtr, ExprPtr, Store, StringPtr};
use crate::level::{LevelPtr, LevelsPtr};
use crate::names::NameTable;
use crate::rapier::RapierSt;
use crate::nbe::{ConstKind, RigidHead, SpineId, ValId, Value};
use crate::term::{Lvl, Term};
use crate::theory::{ElimT, Sig};
use vstd::prelude::*;

verus! {

/// How deep the recursion of one question may go.
pub const DEPTH_LIMIT: u32 = 0x10_0000;

/// A flag that accompanies calls to type inference: with `Check`, additional
/// definitional equality checks are made (for example, that the type of an
/// argument is the domain of the function).  These checks are costly, and
/// inference during reduction works on terms known to be well-typed, so they
/// are omitted with `InferOnly`.
#[derive(Clone, Copy, PartialEq, Eq, Structural, Debug)]
pub enum InferFlag {
    InferOnly,
    Check,
}

/// What a check has come to so far.
pub struct Log {
    /// The values found to be in weak head normal form.
    settled: Ghost<Set<ValId>>,
    /// The pairs of values found to differ.
    unlike: Ghost<Set<(ValId, ValId)>>,
    /// The terms refused a type, with whether arguments were checked and why.
    refused: Ghost<Set<(bool, Reason, Term)>>,
    /// The terms on which evaluating or comparing failed, and why.
    tripped: Ghost<Set<(Reason, Term)>>,
    /// The types that no universe was found for.
    unsorted: Ghost<Set<Term>>,
    /// The pairs of values found not to be proofs of one proposition.
    unproved: Ghost<Set<(ValId, ValId)>>,
}

impl Log {
    /// Nothing yet.
    pub fn new() -> (r: Log) {
        Log {
            settled: Ghost(Set::empty()),
            unlike: Ghost(Set::empty()),
            refused: Ghost(Set::empty()),
            tripped: Ghost(Set::empty()),
            unsorted: Ghost(Set::empty()),
            unproved: Ghost(Set::empty()),
        }
    }

    /// All that `o` holds is here.
    pub closed spec fn grows(self, o: Log) -> bool {
        &&& o.settled@.subset_of(self.settled@)
        &&& o.unlike@.subset_of(self.unlike@)
        &&& o.refused@.subset_of(self.refused@)
        &&& o.tripped@.subset_of(self.tripped@)
        &&& o.unsorted@.subset_of(self.unsorted@)
        &&& o.unproved@.subset_of(self.unproved@)
    }

    pub broadcast proof fn lemma_refl(self)
        ensures
            #[trigger] self.grows(self),
    {
    }
}

/// A check in progress.
pub struct TypeChecker<'x> {
    pub ctx: TcCtx,
    /// The declarations in scope.  A temporary extension, which holds what is
    /// created while checking nested inductives, is searched first.
    pub env: &'x Env<'x>,
    /// The declaration being checked, if there is one: the level parameters
    /// used must be among its own.
    pub declar_info: Option<DeclarInfo>,
    /// The names declarations go by.
    pub name_tab: &'x NameTable,
    /// What the delayed-instantiation core remembers.
    pub rs: RapierSt,
    /// The expressions the environment was read against.
    pub st0: Ghost<Store>,
    /// How often a call found its depth used up or a store full.
    pub gone: Ghost<nat>,
    /// The pairs of terms that a comparison has answered no to.
    pub no: Ghost<Set<(Term, Term)>>,
    /// The rejections so far, each with the two terms it was for.
    pub faults: Ghost<Seq<(Reason, Term, Term)>>,
    /// What it has come to.
    pub log: Log,
}

impl<'x> TypeChecker<'x> {
    /// The signature checked against.
    #[verifier::inline]
    pub open spec fn g(&self) -> Sig {
        self.ctx.w@.g
    }

    #[verifier::inline]
    pub open spec fn v_ok(&self, v: ValId) -> bool {
        self.ctx.w@.v_ok(v)
    }

    /// The term value `v` stands for.
    #[verifier::inline]
    pub open spec fn v(&self, v: ValId) -> Term {
        self.ctx.w@.v(v)
    }

    /// Value `v` is evaluated: its node is no delayed expression.
    pub open spec fn done(&self, v: ValId) -> bool {
        !(self.ctx.nb.vals@[v as int] is Thunk)
    }

    /// The values are named.
    #[verifier::inline]
    pub open spec fn vs_ok(&self, v: Seq<ValId>) -> bool {
        self.ctx.vs_ok(v)
    }

    /// What the values stand for.
    #[verifier::inline]
    pub open spec fn vs(&self, v: Seq<ValId>) -> Seq<Term> {
        self.ctx.vs(v)
    }

    /// The level parameters in scope are those of the declaration.
    pub open spec fn scope_ok(&self) -> bool {
        match self.declar_info {
            Some(d) => self.ctx.st.ls_ok(d.uparams) && self.g().uparams == Some(self.ctx.st.ls(d.uparams)),
            None => self.g().uparams is None,
        }
    }

    /// The state of the check is well formed, and the signature is the one the
    /// environment stands for.
    #[verifier::opaque]
    pub open spec fn wf(&self) -> bool {
        &&& self.ctx.wf()
        &&& self.env.models(&self.st0@, self.g())
        &&& self.ctx.st.ext(&self.st0@)
        &&& self.scope_ok()
        &&& self.rs.ok(self.ctx.w@, &self.ctx.st)
    }

    /// Everything named in `o` is named here and stands for the same.
    #[verifier::opaque]
    pub open spec fn ext(&self, o: &TypeChecker) -> bool {
        &&& self.ctx.ext(&o.ctx)
        &&& self.env == o.env
        &&& self.declar_info == o.declar_info
        &&& self.name_tab == o.name_tab
        &&& self.st0 == o.st0
        &&& self.gone@ >= o.gone@
        &&& o.no@.subset_of(self.no@)
        &&& o.faults@.is_prefix_of(self.faults@)
        &&& self.log.grows(o.log)
    }

    /// Value `x` was found to be in weak head normal form.
    pub closed spec fn settled(&self, x: ValId) -> bool {
        self.log.settled@.contains(x)
    }

    /// The term `m` reduces to a weak head normal form, which is, or reduces
    /// further to, a term that no rule of the recursor `n` applies to.
    pub open spec fn no_rule_for(&self, n: u32, m: Term) -> bool {
        exists|x: ValId, w: Term|
            self.settled(x) && self.v_ok(x) && self.g().red(m, self.v(x)) && #[trigger] self.g().red(self.v(x), w)
                && w.headed()
                && self.g().no_fire(n, w)
    }

    /// The term `m` reduces to a weak head normal form that is no class of a
    /// quotient.
    pub open spec fn no_class_for(&self, m: Term) -> bool {
        exists|x: ValId| #[trigger]
            self.settled(x) && self.v_ok(x) && self.g().red(m, self.v(x)) && self.g().no_mk(self.v(x))
    }

    /// No recursor and no quotient eliminator at the head of `t` has what it
    /// takes to compute: what it scrutinizes reduces to no constructor
    /// application that it has a rule for, and to no class.
    #[verifier::opaque]
    pub open spec fn iota_stuck(&self, t: Term) -> bool {
        forall|n: u32, ls: Seq<Lvl>, args: Seq<Term>| t == #[trigger] Term::apps(Term::Const(n, ls), args) ==> {
            &&& self.g().is_rec(n) && ls.len() == self.g().decls[n].uparams.len() && self.g().rec(n).major() < args.len()
                ==> self.no_rule_for(n, args[self.g().rec(n).major() as int])
            &&& self.g().is_quot(n) && self.g().quot_pos(n) is Some && self.g().quot_pos(n)->0 < args.len()
                ==> self.no_class_for(args[self.g().quot_pos(n)->0 as int])
        }
    }

    /// Value `x` is in weak head normal form: it is evaluated; where it is a
    /// folded constant, that has no body, is a `Nat` primitive, or unfolds to
    /// the value itself; and no recursor or quotient eliminator at its head has
    /// what it takes to compute.
    pub open spec fn at_rest(&self, x: ValId) -> bool {
        match self.ctx.nb.vals@[x as int] {
            Value::Thunk { .. } => false,
            Value::Unfold { name, levels, spine, .. } => self.g().idle(
                self.ctx.nat_ext,
                name,
                self.ctx.st.ls(levels),
                self.ctx.w@.s(spine),
                self.v(x),
            ),
            Value::Rigid { head: RigidHead::Const(k, _, _), .. } => k == ConstKind::Recursor || k == ConstKind::QuotConst
                ==> self.iota_stuck(self.v(x)),
            _ => true,
        }
    }

    /// The term `t` was refused a type for `w`, with its arguments checked if `k`.
    pub closed spec fn refuses(&self, k: bool, w: Reason, t: Term) -> bool {
        self.log.refused@.contains((k, w, t))
    }

    /// Evaluating the term `t`, or comparing it, was rejected for `w`.
    pub closed spec fn trips(&self, w: Reason, t: Term) -> bool {
        self.log.tripped@.contains((w, t))
    }

    /// The term `t` is refused a type for `w`.
    pub fn refuse(&mut self, w: Reason, Ghost(k): Ghost<bool>, Ghost(t): Ghost<Term>)
        requires
            old(self).wf(),
            old(self).grounds(k, w, t),
        ensures
            final(self).refuses(k, w, t),
            final(self).wf(),
            final(self).ext(old(self)),
            *final(self) == (TypeChecker { log: final(self).log, ..*old(self) }),
    {
        let ghost o = *self;
        proof {
            self.log.refused@ = self.log.refused@.insert((k, w, t));
            reveal(TypeChecker::wf);
            reveal(TypeChecker::ext);
            o.ctx.lemma_ext_refl();
        }
    }

    /// Evaluating or comparing the term `t` was rejected for `w` since `o`.
    pub fn trip(&mut self, w: Reason, Ghost(t): Ghost<Term>, Ghost(o): Ghost<TypeChecker>)
        requires
            old(self).wf(),
            old(self).accounts(&o, TcError::Reject(w)),
        ensures
            final(self).trips(w, t),
            final(self).wf(),
            final(self).ext(old(self)),
            *final(self) == (TypeChecker { log: final(self).log, ..*old(self) }),
    {
        let ghost s = *self;
        proof {
            self.log.tripped@ = self.log.tripped@.insert((w, t));
            reveal(TypeChecker::wf);
            reveal(TypeChecker::ext);
            s.ctx.lemma_ext_refl();
        }
    }

    /// A comparison of the values `x` and `y` was answered no.
    pub closed spec fn unlike(&self, x: ValId, y: ValId) -> bool {
        self.log.unlike@.contains((x, y))
    }

    /// The values `x` and `y` were found to differ since `o`.
    pub fn differ(&mut self, x: ValId, y: ValId, Ghost(rigid): Ghost<bool>, Ghost(o): Ghost<TypeChecker>)
        requires
            old(self).wf(),
            old(self).tells(&o, rigid, old(self).v(x), old(self).v(y)),
        ensures
            final(self).unlike(x, y),
            final(self).wf(),
            final(self).ext(old(self)),
            *final(self) == (TypeChecker { log: final(self).log, ..*old(self) }),
    {
        let ghost s = *self;
        proof {
            self.log.unlike@ = self.log.unlike@.insert((x, y));
            reveal(TypeChecker::wf);
            reveal(TypeChecker::ext);
            s.ctx.lemma_ext_refl();
        }
    }

    /// No universe was found for the type `t`.
    pub closed spec fn unsorted(&self, t: Term) -> bool {
        self.log.unsorted@.contains(t)
    }

    /// The values `x` and `y` were found not to be proofs of one proposition.
    pub closed spec fn unproved(&self, x: ValId, y: ValId) -> bool {
        self.log.unproved@.contains((x, y))
    }

    /// No universe is found for the type `t`.
    pub fn unsort(&mut self, Ghost(t): Ghost<Term>)
        requires
            old(self).wf(),
        ensures
            final(self).unsorted(t),
            final(self).wf(),
            final(self).ext(old(self)),
            *final(self) == (TypeChecker { log: final(self).log, ..*old(self) }),
    {
        let ghost s = *self;
        proof {
            self.log.unsorted@ = self.log.unsorted@.insert(t);
            reveal(TypeChecker::wf);
            reveal(TypeChecker::ext);
            s.ctx.lemma_ext_refl();
        }
    }

    /// The values `x` and `y` of `o` are not proofs of one proposition.
    pub fn unprove(&mut self, x: ValId, y: ValId, Ghost(o): Ghost<TypeChecker>)
        requires
            old(self).wf(),
            old(self).irrel_fails(&o, x, y),
        ensures
            final(self).unproved(x, y),
            final(self).wf(),
            final(self).ext(old(self)),
            *final(self) == (TypeChecker { log: final(self).log, ..*old(self) }),
    {
        let ghost s = *self;
        proof {
            self.log.unproved@ = self.log.unproved@.insert((x, y));
            reveal(TypeChecker::wf);
            reveal(TypeChecker::ext);
            s.ctx.lemma_ext_refl();
        }
    }

    /// What a check has come to is read off its log.
    pub proof fn lemma_log(&self, o: &TypeChecker)
        requires
            self.log == o.log,
        ensures
            forall|x: ValId| #[trigger] self.settled(x) == o.settled(x),
            forall|x: ValId, y: ValId| #[trigger] self.unlike(x, y) == o.unlike(x, y),
            forall|k: bool, w: Reason, t: Term| #[trigger] self.refuses(k, w, t) == o.refuses(k, w, t),
            forall|w: Reason, t: Term| #[trigger] self.trips(w, t) == o.trips(w, t),
    {
    }

    /// Value `x` is in weak head normal form.
    pub fn settle(&mut self, x: ValId)
        requires
            old(self).wf(),
            old(self).v_ok(x),
            old(self).v(x).headed(),
            old(self).at_rest(x),
        ensures
            final(self).settled(x),
            final(self).wf(),
            final(self).ext(old(self)),
            *final(self) == (TypeChecker { log: final(self).log, ..*old(self) }),
    {
        let ghost o = *self;
        proof {
            self.log.settled@ = self.log.settled@.insert(x);
            reveal(TypeChecker::wf);
            reveal(TypeChecker::ext);
            o.ctx.lemma_ext_refl();
        }
    }

    /// A term is rejected for `w` because of `x` and `y`: a mismatch is of two
    /// terms that a comparison has answered no to, an unknown constant is not
    /// declared, a level parameter is not in scope, what has no sort reduces
    /// to a term with no redex at its head that is no sort, what is no
    /// proposition is of a sort that is not zero, a free variable occurs, and
    /// level parameters are repeated or are none.
    pub open spec fn at_fault(&self, w: Reason, x: Term, y: Term) -> bool {
        match w {
            Reason::ArgMismatch | Reason::ValueMismatch | Reason::NotEqual => self.apart(x, y),
            Reason::UnknownConst => x matches Term::Const(n, _) && !self.g().decls.contains_key(n),
            Reason::NotASort => self.g().red(x, y) && y.headed() && !(y is Sort),
            Reason::NotAProp => y matches Term::Sort(l) && !l.is_zero() && exists|s: Term| #[trigger]
                self.g().ty(true, x, s) && self.g().red(s, y),
            Reason::FreeVar => x.has_fv(),
            Reason::DuplicateParam => match x {
                Term::Const(_, ls) => !ls.no_duplicates() || exists|i: int| 0 <= i < ls.len() && !(#[trigger] ls[i] is Param),
                _ => false,
            },
            Reason::LevelParam => match x {
                Term::Sort(l) => !self.g().level_ok(l),
                Term::Const(_, ls) => !self.g().levels_ok(ls),
                _ => false,
            },
            _ => true,
        }
    }

    /// The error `e` came up since `o`: a rejection was made for its reason, or a
    /// call found its depth used up or a store full.
    #[verifier::opaque]
    pub open spec fn accounts(&self, o: &TypeChecker, e: TcError) -> bool {
        match e {
            TcError::Reject(w) => exists|i: int|
                o.faults@.len() <= i < self.faults@.len() && (#[trigger] self.faults@[i]).0 == w && self.at_fault(
                    w,
                    self.faults@[i].1,
                    self.faults@[i].2,
                ),
            _ => self.ran_out(o),
        }
    }

    /// A comparison of `x` with `y` has answered no.
    #[verifier::opaque]
    pub open spec fn apart(&self, x: Term, y: Term) -> bool {
        self.no@.contains((x, y))
    }

    /// Eliminations that differ: arguments a comparison has answered no to,
    /// different fields, or an argument and a field.
    pub open spec fn elims_apart(&self, a: ElimT, b: ElimT) -> bool {
        match (a, b) {
            (ElimT::App(x), ElimT::App(y)) => self.apart(x, y),
            _ => a != b,
        }
    }

    /// Spines that differ in length, or in one elimination.
    pub open spec fn spines_apart(&self, a: Seq<ElimT>, b: Seq<ElimT>) -> bool {
        a.len() != b.len() || exists|i: int| 0 <= i < a.len() && #[trigger] self.elims_apart(a[i], b[i])
    }

    /// A comparison has answered no to what two bodies reduce to at one argument.
    pub open spec fn bodies_apart(&self, b: Term, d: Term) -> bool {
        exists|z: Term, p: Term, q: Term|
            self.apart(p, q) && #[trigger] self.g().red(b.inst(0, seq![z]), p) && #[trigger] self.g().red(
                d.inst(0, seq![z]),
                q,
            )
    }

    /// Since `o` a call found its depth used up or a store full.
    #[verifier::opaque]
    pub open spec fn ran_out(&self, o: &TypeChecker) -> bool {
        self.gone@ > o.gone@
    }

    /// The state of the check is well formed.
    pub proof fn lemma_ctx(&self)
        requires
            self.wf(),
        ensures
            self.ctx.wf(),
            self.ctx.st.wf(),
    {
        reveal(TypeChecker::wf);
        self.ctx.lemma_wf();
    }

    /// The empty spine and the empty environment.
    pub proof fn lemma_base(&self)
        requires
            self.wf(),
        ensures
            self.ctx.st.wf(),
            self.ctx.w@.s_ok(0),
            self.ctx.w@.s(0) == Seq::<ElimT>::empty(),
            self.ctx.w@.n_ok(0),
            self.ctx.w@.n(0) == Seq::<Term>::empty(),
            self.ctx.w@.plain(0),
            self.g().names == self.ctx.names,
            self.g().nat_ext == self.ctx.nat_ext,
            self.g().str_ext == self.ctx.str_ext,
    {
        self.lemma_ctx();
        self.ctx.lemma_wf();
    }

    /// The environment stands for the signature over what is named now.
    pub proof fn lemma_env(&self)
        requires
            self.wf(),
        ensures
            self.env.models(&self.ctx.st, self.g()),
            self.env.wf(),
            self.scope_ok(),
    {
        reveal(TypeChecker::wf);
        self.env.lemma_ext(&self.st0@, &self.ctx.st, self.g());
    }

    /// The check stays well formed as its state grows.
    pub proof fn lemma_step(&self, o: &TypeChecker)
        requires
            o.wf(),
            self.ctx.wf(),
            self.ctx.ext(&o.ctx),
            self.env == o.env,
            self.declar_info == o.declar_info,
            self.name_tab == o.name_tab,
            self.st0 == o.st0,
            self.gone@ >= o.gone@,
            self.no == o.no,
            self.faults == o.faults,
            self.log == o.log,
            self.rs == o.rs,
        ensures
            self.wf(),
            self.ext(o),
    {
        reveal(TypeChecker::wf);
        reveal(TypeChecker::ext);
        self.rs.lemma_ext(self.ctx.w@, o.ctx.w@, &self.ctx.st, &o.ctx.st);
    }

    pub proof fn lemma_refl(&self)
        ensures
            self.ext(self),
    {
        reveal(TypeChecker::ext);
    }

    pub proof fn lemma_vtime(&self, v: ValId)
        requires
            self.wf(),
            self.v_ok(v),
        ensures
            self.ctx.w@.vtime(v) < self.ctx.w@.clock,
            self.v(v).nl() == 0,
    {
        self.lemma_ctx();
        self.ctx.lemma_vtime(v);
    }

    pub proof fn lemma_ntime(&self, n: EnvId)
        requires
            self.wf(),
            self.ctx.w@.n_ok(n),
        ensures
            self.ctx.w@.ntime(n) < self.ctx.w@.clock,
            Term::closed_seq(self.ctx.w@.n(n)),
            self.ctx.w@.plain(n) ==> Term::ml_seq(self.ctx.w@.n(n), self.ctx.w@.nlevel(n)),
    {
        self.lemma_ctx();
        self.ctx.lemma_ntime(n);
    }

    /// The error of a call without depth or steps left.
    pub fn out_of_depth(&mut self, left: u64) -> (r: TcError)
        requires
            old(self).wf(),
            left == 0,
        ensures
            r == TcError::Depth,
            final(self).wf(),
            final(self).ext(old(self)),
            final(self).ran_out(old(self)),
            *final(self) == (TypeChecker { gone: final(self).gone, ..*old(self) }),
    {
        let ghost o = *self;
        proof {
            reveal(TypeChecker::ran_out);
            self.gone@ = self.gone@ + 1;
            o.lemma_ctx();
            o.ctx.lemma_ext_refl();
            self.lemma_step(&o);
        }
        TcError::Depth
    }

    /// The error of a call that would have to go past a limit of its own.
    pub fn over_limit(&mut self) -> (r: TcError)
        requires
            old(self).wf(),
        ensures
            r == TcError::Full,
            final(self).wf(),
            final(self).ext(old(self)),
            final(self).ran_out(old(self)),
            *final(self) == (TypeChecker { gone: final(self).gone, ..*old(self) }),
    {
        let ghost o = *self;
        proof {
            reveal(TypeChecker::ran_out);
            self.gone@ = self.gone@ + 1;
            o.lemma_ctx();
            o.ctx.lemma_ext_refl();
            self.lemma_step(&o);
        }
        TcError::Full
    }

    /// The answer `b` to a comparison of `x` with `y`.
    pub fn answer(&mut self, b: bool, Ghost(x): Ghost<Term>, Ghost(y): Ghost<Term>) -> (r: bool)
        requires
            old(self).wf(),
        ensures
            r == b,
            !b ==> final(self).apart(x, y),
            final(self).wf(),
            final(self).ext(old(self)),
            *final(self) == (TypeChecker { no: final(self).no, ..*old(self) }),
    {
        let ghost o = *self;
        proof {
            if !b {
                self.no@ = self.no@.insert((x, y));
            }
            reveal(TypeChecker::wf);
            reveal(TypeChecker::ext);
            reveal(TypeChecker::apart);
            o.ctx.lemma_ext_refl();
        }
        b
    }

    /// Reject for `w`.
    pub fn reject(&mut self, w: Reason) -> (r: TcError)
        requires
            old(self).wf(),
            old(self).at_fault(w, Term::Nat(0), Term::Nat(0)),
        ensures
            r == TcError::Reject(w),
            final(self).wf(),
            final(self).ext(old(self)),
            final(self).accounts(old(self), r),
            *final(self) == (TypeChecker { faults: final(self).faults, ..*old(self) }),
    {
        let ghost o = *self;
        proof {
            self.faults@ = self.faults@.push((w, Term::Nat(0), Term::Nat(0)));
            reveal(TypeChecker::apart);
            assert(self.faults@.drop_last() =~= o.faults@);
            self.lemma_fault(&o, w);
        }
        TcError::Reject(w)
    }

    /// Reject for `w`, because of `x` and `y`.
    pub fn blame(&mut self, w: Reason, Ghost(x): Ghost<Term>, Ghost(y): Ghost<Term>) -> (r: TcError)
        requires
            old(self).wf(),
            old(self).at_fault(w, x, y),
        ensures
            r == TcError::Reject(w),
            final(self).wf(),
            final(self).ext(old(self)),
            final(self).accounts(old(self), r),
            *final(self) == (TypeChecker { faults: final(self).faults, ..*old(self) }),
    {
        let ghost o = *self;
        proof {
            self.faults@ = self.faults@.push((w, x, y));
            reveal(TypeChecker::apart);
            assert(self.faults@.drop_last() =~= o.faults@);
            self.lemma_fault(&o, w);
        }
        TcError::Reject(w)
    }

    /// One rejection more.
    proof fn lemma_fault(&self, o: &TypeChecker, w: Reason)
        requires
            o.wf(),
            *self == (TypeChecker { faults: self.faults, ..*o }),
            self.faults@.len() == o.faults@.len() + 1,
            self.faults@.last().0 == w,
            self.faults@.drop_last() == o.faults@,
            self.at_fault(w, self.faults@.last().1, self.faults@.last().2),
        ensures
            self.wf(),
            self.ext(o),
            self.accounts(o, TcError::Reject(w)),
    {
        reveal(TypeChecker::wf);
        reveal(TypeChecker::ext);
        reveal(TypeChecker::accounts);
        o.ctx.lemma_ext_refl();
        assert(self.faults@[o.faults@.len() as int].0 == w);
    }

    /// Count one more at counter `i`.
    pub fn tick(&mut self, i: usize)
        requires
            old(self).wf(),
        ensures
            final(self).wf(),
            final(self).ext(old(self)),
            final(self).ctx.but_ctrs(&old(self).ctx),
    {
        let ghost o = *self;
        proof {
            self.lemma_ctx();
        }
        self.ctx.tick(i);
        proof {
            self.lemma_step(&o);
        }
    }

    /// The node of a value.
    pub fn get(&self, v: ValId) -> (r: Value)
        requires
            self.wf(),
            self.v_ok(v),
        ensures
            self.ctx.is_node(v, r),
            r == self.ctx.nb.vals@[v as int],
            self.ctx.w@.vtime(v) < self.ctx.w@.clock,
            self.v(v).nl() == 0,
    {
        proof {
            self.lemma_vtime(v);
            self.lemma_ctx();
        }
        self.ctx.get(v)
    }
}

// ---- what is kept as a check grows ----

pub broadcast proof fn tc_refl<'x>(a: TypeChecker<'x>)
    ensures
        #[trigger] a.ext(&a),
{
    a.lemma_refl();
}

pub broadcast proof fn tc_trans<'x>(a: TypeChecker<'x>, b: TypeChecker<'x>, c: TypeChecker<'x>)
    requires
        #[trigger] a.ext(&b),
        b.ext(&c),
    ensures
        #[trigger] a.ext(&c),
{
    reveal(TypeChecker::ext);
}

pub broadcast proof fn tc_out_before<'x>(a: TypeChecker<'x>, b: TypeChecker<'x>, c: TypeChecker<'x>)
    requires
        #[trigger] a.ran_out(&b),
        b.ext(&c),
    ensures
        #[trigger] a.ran_out(&c),
{
    reveal(TypeChecker::ext);
    reveal(TypeChecker::ran_out);
}

pub broadcast proof fn tc_out_after<'x>(a: TypeChecker<'x>, b: TypeChecker<'x>, c: TypeChecker<'x>)
    requires
        #[trigger] a.ext(&b),
        b.ran_out(&c),
    ensures
        #[trigger] a.ran_out(&c),
{
    reveal(TypeChecker::ext);
    reveal(TypeChecker::ran_out);
}

pub broadcast proof fn tc_apart<'x>(a: TypeChecker<'x>, b: TypeChecker<'x>, x: Term, y: Term)
    requires
        #[trigger] a.ext(&b),
        #[trigger] b.apart(x, y),
    ensures
        a.apart(x, y),
{
    reveal(TypeChecker::ext);
    reveal(TypeChecker::apart);
}

pub broadcast proof fn tc_settled<'x>(a: TypeChecker<'x>, b: TypeChecker<'x>, x: ValId)
    requires
        #[trigger] a.ext(&b),
        #[trigger] b.settled(x),
    ensures
        a.settled(x),
{
    reveal(TypeChecker::ext);
}

pub broadcast proof fn tc_unlike<'x>(a: TypeChecker<'x>, b: TypeChecker<'x>, x: ValId, y: ValId)
    requires
        #[trigger] a.ext(&b),
        #[trigger] b.unlike(x, y),
    ensures
        a.unlike(x, y),
{
    reveal(TypeChecker::ext);
}

pub broadcast proof fn tc_unsorted<'x>(a: TypeChecker<'x>, b: TypeChecker<'x>, t: Term)
    requires
        #[trigger] a.ext(&b),
        #[trigger] b.unsorted(t),
    ensures
        a.unsorted(t),
{
    reveal(TypeChecker::ext);
}

pub broadcast proof fn tc_unproved<'x>(a: TypeChecker<'x>, b: TypeChecker<'x>, x: ValId, y: ValId)
    requires
        #[trigger] a.ext(&b),
        #[trigger] b.unproved(x, y),
    ensures
        a.unproved(x, y),
{
    reveal(TypeChecker::ext);
}

pub broadcast proof fn tc_refuses<'x>(a: TypeChecker<'x>, b: TypeChecker<'x>, k: bool, w: Reason, t: Term)
    requires
        #[trigger] a.ext(&b),
        #[trigger] b.refuses(k, w, t),
    ensures
        a.refuses(k, w, t),
{
    reveal(TypeChecker::ext);
}

pub broadcast proof fn tc_trips<'x>(a: TypeChecker<'x>, b: TypeChecker<'x>, w: Reason, t: Term)
    requires
        #[trigger] a.ext(&b),
        #[trigger] b.trips(w, t),
    ensures
        a.trips(w, t),
{
    reveal(TypeChecker::ext);
}

pub broadcast proof fn tc_iota_stuck<'x>(a: TypeChecker<'x>, b: TypeChecker<'x>, t: Term)
    requires
        #[trigger] a.ext(&b),
        #[trigger] b.iota_stuck(t),
    ensures
        a.iota_stuck(t),
{
    reveal(TypeChecker::iota_stuck);
    let g = b.g();
    assert forall|n: u32, m: Term| #[trigger] b.no_rule_for(n, m) implies a.no_rule_for(n, m) by {
        tc_base(a, b);
        let (x, w) = choose|x: ValId, w: Term|
            b.settled(x) && b.v_ok(x) && g.red(m, b.v(x)) && #[trigger] g.red(b.v(x), w) && w.headed() && g.no_fire(n, w);
        tc_v(a, b, x);
        tc_settled(a, b, x);
        assert(a.g().red(a.v(x), w));
    }
    assert forall|m: Term| #[trigger] b.no_class_for(m) implies a.no_class_for(m) by {
        tc_base(a, b);
        let x = choose|x: ValId| #[trigger] b.settled(x) && b.v_ok(x) && g.red(m, b.v(x)) && g.no_mk(b.v(x));
        tc_v(a, b, x);
        tc_settled(a, b, x);
    }
    tc_base(a, b);
}

pub broadcast proof fn tc_spines_apart<'x>(a: TypeChecker<'x>, b: TypeChecker<'x>, x: Seq<ElimT>, y: Seq<ElimT>)
    requires
        #[trigger] a.ext(&b),
        #[trigger] b.spines_apart(x, y),
    ensures
        a.spines_apart(x, y),
{
    reveal(TypeChecker::ext);
    reveal(TypeChecker::apart);
    if x.len() == y.len() {
        let i = choose|i: int| 0 <= i < x.len() && #[trigger] b.elims_apart(x[i], y[i]);
        assert(a.elims_apart(x[i], y[i]));
    }
}

pub broadcast proof fn tc_bodies_apart<'x>(a: TypeChecker<'x>, b: TypeChecker<'x>, x: Term, y: Term)
    requires
        #[trigger] a.ext(&b),
        #[trigger] b.bodies_apart(x, y),
    ensures
        a.bodies_apart(x, y),
{
    reveal(TypeChecker::ext);
    reveal(TypeChecker::apart);
    let (z, p, q) = choose|z: Term, p: Term, q: Term|
        b.apart(p, q) && #[trigger] b.g().red(x.inst(0, seq![z]), p) && #[trigger] b.g().red(y.inst(0, seq![z]), q);
    assert(a.g().red(x.inst(0, seq![z]), p) && a.g().red(y.inst(0, seq![z]), q));
}

pub broadcast proof fn tc_accounts_before<'x>(a: TypeChecker<'x>, b: TypeChecker<'x>, c: TypeChecker<'x>, e: TcError)
    requires
        #[trigger] a.accounts(&b, e),
        b.ext(&c),
    ensures
        #[trigger] a.accounts(&c, e),
{
    reveal(TypeChecker::ext);
    reveal(TypeChecker::ran_out);
    reveal(TypeChecker::accounts);
}

pub broadcast proof fn tc_accounts_after<'x>(a: TypeChecker<'x>, b: TypeChecker<'x>, c: TypeChecker<'x>, e: TcError)
    requires
        #[trigger] a.ext(&b),
        b.accounts(&c, e),
    ensures
        #[trigger] a.accounts(&c, e),
{
    reveal(TypeChecker::ext);
    reveal(TypeChecker::apart);
    reveal(TypeChecker::ran_out);
    reveal(TypeChecker::accounts);
    if let TcError::Reject(w) = e {
        let i = choose|i: int|
            c.faults@.len() <= i < b.faults@.len() && (#[trigger] b.faults@[i]).0 == w && b.at_fault(
                w,
                b.faults@[i].1,
                b.faults@[i].2,
            );
        assert(a.faults@[i] == b.faults@[i]);
    }
}

pub broadcast proof fn tc_accounts_out<'x>(a: TypeChecker<'x>, b: TypeChecker<'x>)
    requires
        #[trigger] a.ran_out(&b),
    ensures
        a.accounts(&b, TcError::Depth),
        a.accounts(&b, TcError::Full),
{
    reveal(TypeChecker::accounts);
}

pub broadcast proof fn tc_base<'x>(a: TypeChecker<'x>, b: TypeChecker<'x>)
    requires
        #[trigger] a.ext(&b),
    ensures
        a.g() == b.g(),
        a.ctx.w@.clock >= b.ctx.w@.clock,
        a.ctx.names == b.ctx.names,
        a.ctx.nat_ext == b.ctx.nat_ext,
        a.ctx.str_ext == b.ctx.str_ext,
        a.env == b.env,
        a.declar_info == b.declar_info,
        a.name_tab == b.name_tab,
        a.st0 == b.st0,
{
    reveal(TypeChecker::ext);
}

pub broadcast proof fn tc_v<'x>(a: TypeChecker<'x>, b: TypeChecker<'x>, i: ValId)
    requires
        #[trigger] a.ext(&b),
        #[trigger] b.ctx.w@.v_ok(i),
    ensures
        a.ctx.w@.v_ok(i),
        a.ctx.w@.v(i) == b.ctx.w@.v(i),
        a.ctx.w@.vtime(i) == b.ctx.w@.vtime(i),
{
    reveal(TypeChecker::ext);
}

pub broadcast proof fn tc_vs<'x>(a: TypeChecker<'x>, b: TypeChecker<'x>, s: Seq<ValId>)
    requires
        #[trigger] a.ext(&b),
        #[trigger] b.ctx.vs_ok(s),
    ensures
        a.ctx.vs_ok(s),
        a.ctx.vs(s) == b.ctx.vs(s),
{
    reveal(TypeChecker::ext);
    assert(a.ctx.vs(s) =~= b.ctx.vs(s));
}

pub broadcast proof fn tc_s<'x>(a: TypeChecker<'x>, b: TypeChecker<'x>, i: SpineId)
    requires
        #[trigger] a.ext(&b),
        #[trigger] b.ctx.w@.s_ok(i),
    ensures
        a.ctx.w@.s_ok(i),
        a.ctx.w@.s(i) == b.ctx.w@.s(i),
        a.ctx.w@.stime(i) == b.ctx.w@.stime(i),
{
    reveal(TypeChecker::ext);
}

pub broadcast proof fn tc_n<'x>(a: TypeChecker<'x>, b: TypeChecker<'x>, i: EnvId)
    requires
        #[trigger] a.ext(&b),
        #[trigger] b.ctx.w@.n_ok(i),
    ensures
        a.ctx.w@.n_ok(i),
        a.ctx.w@.n(i) == b.ctx.w@.n(i),
        a.ctx.w@.ntime(i) == b.ctx.w@.ntime(i),
        a.ctx.w@.nlevel(i) == b.ctx.w@.nlevel(i),
        a.ctx.w@.plain(i) == b.ctx.w@.plain(i),
{
    reveal(TypeChecker::ext);
}

pub broadcast proof fn tc_e<'x>(a: TypeChecker<'x>, b: TypeChecker<'x>, i: ExprPtr)
    requires
        #[trigger] a.ext(&b),
        #[trigger] b.ctx.st.e_ok(i),
    ensures
        a.ctx.st.e_ok(i),
        a.ctx.st.e(i) == b.ctx.st.e(i),
{
    reveal(TypeChecker::ext);
}

pub broadcast proof fn tc_l<'x>(a: TypeChecker<'x>, b: TypeChecker<'x>, i: LevelPtr)
    requires
        #[trigger] a.ext(&b),
        #[trigger] b.ctx.st.l_ok(i),
    ensures
        a.ctx.st.l_ok(i),
        a.ctx.st.l(i) == b.ctx.st.l(i),
{
    reveal(TypeChecker::ext);
}

pub broadcast proof fn tc_ls<'x>(a: TypeChecker<'x>, b: TypeChecker<'x>, i: LevelsPtr)
    requires
        #[trigger] a.ext(&b),
        #[trigger] b.ctx.st.ls_ok(i),
    ensures
        a.ctx.st.ls_ok(i),
        a.ctx.st.ls(i) == b.ctx.st.ls(i),
{
    reveal(TypeChecker::ext);
}

pub broadcast proof fn tc_nat<'x>(a: TypeChecker<'x>, b: TypeChecker<'x>, i: BigUintPtr)
    requires
        #[trigger] a.ext(&b),
        #[trigger] b.ctx.st.n_ok(i),
    ensures
        a.ctx.st.n_ok(i),
        a.ctx.st.n(i) == b.ctx.st.n(i),
{
    reveal(TypeChecker::ext);
}

pub broadcast proof fn tc_str<'x>(a: TypeChecker<'x>, b: TypeChecker<'x>, i: StringPtr)
    requires
        #[trigger] a.ext(&b),
        #[trigger] b.ctx.st.s_ok(i),
    ensures
        a.ctx.st.s_ok(i),
        a.ctx.st.s(i) == b.ctx.st.s(i),
{
    reveal(TypeChecker::ext);
}

pub broadcast proof fn tc_head<'x>(a: TypeChecker<'x>, b: TypeChecker<'x>, h: RigidHead, t: nat)
    requires
        #[trigger] a.ext(&b),
        #[trigger] b.ctx.w@.head_ok(&b.ctx.st, h, t),
    ensures
        a.ctx.w@.head_ok(&a.ctx.st, h, t),
        a.ctx.w@.head(&a.ctx.st, h) == b.ctx.w@.head(&b.ctx.st, h),
{
    reveal(TypeChecker::ext);
}

pub broadcast proof fn tc_clo<'x>(a: TypeChecker<'x>, b: TypeChecker<'x>, c: Clo)
    requires
        #[trigger] a.ext(&b),
        #[trigger] b.ctx.clo_ok(c),
    ensures
        a.ctx.clo_ok(c),
        a.ctx.clo(c) == b.ctx.clo(c),
{
    reveal(TypeChecker::ext);
}

pub broadcast group group_tc {
    tc_refl,
    tc_trans,
    tc_out_before,
    tc_out_after,
    tc_accounts_before,
    tc_accounts_after,
    tc_accounts_out,
    tc_apart,
    tc_settled,
    tc_unlike,
    tc_unsorted,
    tc_unproved,
    tc_refuses,
    tc_trips,
    tc_iota_stuck,
    tc_spines_apart,
    tc_bodies_apart,
    tc_base,
    tc_v,
    tc_vs,
    tc_s,
    tc_n,
    tc_e,
    tc_l,
    tc_ls,
    tc_nat,
    tc_str,
    tc_head,
    tc_clo,
}

} // verus!
