//! What a check remembers, and that it stays true.
use crate::closure::{Clo, CloMemos, EnvId};
use crate::ctx::TcCtx;
use crate::expr::ExprPtr;
use crate::level::{LevelPtr, LevelsPtr, NamePtr};
use crate::nbe::{Memos, Probe, SpineId, ValId, Vals};
use crate::rc::{dec_val, inc_val, Counts, Kind, Word, COUNT_MAX};
use crate::term::Term;
use vstd::prelude::*;

verus! {

impl Counts {
    /// There are as many nodes of each kind as in `o`.
    pub open spec fn same_sizes(&self, o: &Counts) -> bool {
        &&& self.vals@.len() == o.vals@.len()
        &&& self.spines@.len() == o.spines@.len()
        &&& self.envs@.len() == o.envs@.len()
    }

    /// A cache that named `a`, if anything, names `b` instead: `b` has one more
    /// holder than in `o`, and `a` one less.
    pub open spec fn rooted(&self, o: &Counts, a: Option<u32>, b: Option<u32>) -> bool {
        &&& a == b ==> *self == *o
        &&& a is None && b is Some ==> self.only_words(
            o,
            Kind::Val,
            o.words(Kind::Val).update(b->0 as int, Counts::bumped(o.words(Kind::Val)[b->0 as int])),
        )
        &&& a is Some && a != b && 0 < o.count(Kind::Val, a->0) < COUNT_MAX ==> self.count(Kind::Val, a->0)
            == o.count(Kind::Val, a->0) - 1
        &&& a is Some && b is Some && a != b ==> self.words(Kind::Val)[b->0 as int] == Counts::bumped(
            o.words(Kind::Val)[b->0 as int],
        )
        &&& forall|i: u32|
            Some(i) != a && Some(i) != b && i < o.words(Kind::Val).len() ==> #[trigger] self.words(Kind::Val)[i as int]
                == o.words(Kind::Val)[i as int]
    }
}

/// Take a reference to `b`, and give back the one to `a`.
fn hold_instead(c: &mut Counts, a: Option<ValId>, b: Option<ValId>)
    requires
        old(c).wf(),
        old(c).all_live(),
        a matches Some(x) ==> x < old(c).vals@.len(),
        b matches Some(y) ==> y < old(c).vals@.len(),
    ensures
        final(c).wf(),
        final(c).all_live(),
        final(c).same_sizes(old(c)),
        final(c).rooted(old(c), a, b),
{
    if a == b {
        return ;
    }
    if let Some(y) = b {
        inc_val(c, y);
        proof {
            let w = old(c).words(Kind::Val)[y as int];
            assert(Word::of(Counts::bumped(w)).alloc == Word::of(w).alloc);
        }
    }
    if let Some(x) = a {
        if c.count_of(Kind::Val, x) > 0 {
            dec_val(c, x);
        }
    }
}

impl TcCtx {
    /// Only what is remembered over values, and the state of speculation,
    /// differ from `o`.
    pub open spec fn recalled(&self, o: &TcCtx) -> bool {
        &&& self.remembered(o)
        &&& self.counts == o.counts
    }

    /// Only what is remembered over values, the state of speculation and the
    /// counts differ from `o`.
    pub open spec fn remembered(&self, o: &TcCtx) -> bool {
        &&& self.st == o.st
        &&& self.rp == o.rp
        &&& self.w == o.w
        &&& self.names == o.names
        &&& self.nat_ext == o.nat_ext
        &&& self.str_ext == o.str_ext
        &&& self.eager_mode == o.eager_mode
        &&& self.nb.vals == o.nb.vals
        &&& self.nb.spines == o.nb.spines
        &&& self.nb.tabs == o.nb.tabs
    }

    /// What is remembered may change as long as it is true.
    pub proof fn lemma_recalled(&self, o: &TcCtx)
        requires
            o.wf(),
            self.remembered(o),
            self.counts == o.counts || self.counts.wf() && self.counts.all_live() && self.counts.same_sizes(&o.counts),
            self.nb.memo.ok(self.w@, &self.st),
        ensures
            self.wf(),
            self.ext(o),
    {
        reveal(TcCtx::wf);
        reveal(Vals::wf);
        assert(self.nb.wf(&self.counts)) by {
            assert forall|i: int| 0 <= i < self.nb.spines@.len() implies #[trigger] self.nb.spine_ok(i) by {
                assert(o.nb.spine_ok(i));
            }
            assert(o.nb.tabs_ok());
        }
    }

    /// Change the state of speculation.
    pub fn set_probe(&mut self, p: Probe)
        requires
            old(self).wf(),
        ensures
            final(self).wf(),
            final(self).ext(old(self)),
            final(self).recalled(old(self)),
            final(self).nb.probe == p,
            final(self).nb.memo == old(self).nb.memo,
    {
        let ghost o = *self;
        self.nb.probe = p;
        proof {
            o.lemma_memo();
            self.lemma_recalled(&o);
        }
    }

    /// The value of a closure.
    pub fn recall_clo(&self, e: ExprPtr, env: EnvId) -> (r: Option<ValId>)
        requires
            self.wf(),
        ensures
            r matches Some(v) ==> self.clo_ok(Clo { e, env }) && self.w@.v_ok(v)
                && self.w@.g.steps(self.clo(Clo { e, env }), self.w@.v(v)),
    {
        let r = self.nb.memo.clo_val.get((e, env, 0, 0));
        proof {
            self.lemma_memo();
            if r is Some {
                reveal(Memos::ok);
                assert(self.nb.memo.clo_val@.contains_key((e, env, 0, 0)));
            }
        }
        r
    }

    pub fn note_clo(&mut self, e: ExprPtr, env: EnvId, v: ValId)
        requires
            old(self).wf(),
            old(self).clo_ok(Clo { e, env }) && old(self).w@.v_ok(v)
                && old(self).w@.g.steps(old(self).clo(Clo { e, env }), old(self).w@.v(v)),
        ensures
            final(self).wf(),
            final(self).ext(old(self)),
            final(self).remembered(old(self)),
            final(self).counts.rooted(
                &old(self).counts,
                (if old(self).nb.memo.clo_val@.contains_key((e, env, 0, 0)) {
                    Some(old(self).nb.memo.clo_val@[(e, env, 0, 0)])
                } else {
                    None
                }),
                Some(v),
            ),
            final(self).nb.memo.clo_val@ == old(self).nb.memo.clo_val@.insert((e, env, 0, 0), v),
            final(self).nb.probe == old(self).nb.probe,
    {
        let ghost o = *self;
        proof {
            self.lemma_memo();
            self.lemma_wf_live();
            if self.nb.memo.clo_val@.contains_key((e, env, 0, 0)) {
                reveal(Memos::ok);
            }
        }
        let before: Option<ValId> = self.nb.memo.clo_val.get((e, env, 0, 0));
        hold_instead(&mut self.counts, before, Some(v));
        self.nb.memo.clo_val.insert((e, env, 0, 0), v);
        proof {
            assert(self.nb.memo.ok(self.w@, &self.st)) by {
                reveal(Memos::ok);
            }
            self.lemma_recalled(&o);
        }
    }

    /// The value of the body of a constant.
    pub fn recall_unfolding(&self, name: NamePtr, levels: LevelsPtr) -> (r: Option<Option<ValId>>)
        requires
            self.wf(),
        ensures
            r matches Some(Some(v))
                ==> self.st.ls_ok(levels) && self.w@.v_ok(v)
                && self.w@.g.unfolds(name, self.st.ls(levels), self.w@.v(v)),
            r == Some(None::<ValId>) ==> self.st.ls_ok(levels) && self.w@.g.body_of(name, self.st.ls(levels)) is None,
    {
        let r = self.nb.memo.unfold.get((name, levels, 0, 0));
        proof {
            self.lemma_memo();
            if r is Some {
                reveal(Memos::ok);
                assert(self.nb.memo.unfold@.contains_key((name, levels, 0, 0)));
            }
        }
        r
    }

    pub fn note_unfolding(&mut self, name: NamePtr, levels: LevelsPtr, u: Option<ValId>)
        requires
            old(self).wf(),
            old(self).st.ls_ok(levels),
            match u {
                Some(v) => old(self).w@.v_ok(v)
                    && old(self).w@.g.unfolds(name, old(self).st.ls(levels), old(self).w@.v(v)),
                None => old(self).w@.g.body_of(name, old(self).st.ls(levels)) is None,
            },
        ensures
            final(self).wf(),
            final(self).ext(old(self)),
            final(self).remembered(old(self)),
            final(self).counts.rooted(
                &old(self).counts,
                (if old(self).nb.memo.unfold@.contains_key((name, levels, 0, 0)) {
                    old(self).nb.memo.unfold@[(name, levels, 0, 0)]
                } else {
                    None
                }),
                u,
            ),
            final(self).nb.memo.unfold@ == old(self).nb.memo.unfold@.insert((name, levels, 0, 0), u),
            final(self).nb.probe == old(self).nb.probe,
    {
        let ghost o = *self;
        proof {
            self.lemma_memo();
            self.lemma_wf_live();
            if self.nb.memo.unfold@.contains_key((name, levels, 0, 0)) {
                reveal(Memos::ok);
            }
        }
        let before: Option<ValId> = match self.nb.memo.unfold.get((name, levels, 0, 0)) {
            Some(u) => u,
            None => None,
        };
        hold_instead(&mut self.counts, before, u);
        self.nb.memo.unfold.insert((name, levels, 0, 0), u);
        proof {
            assert(self.nb.memo.ok(self.w@, &self.st)) by {
                reveal(Memos::ok);
            }
            self.lemma_recalled(&o);
        }
    }

    /// The value of a constant.
    pub fn recall_const_val(&self, name: NamePtr, levels: LevelsPtr) -> (r: Option<ValId>)
        requires
            self.wf(),
        ensures
            r matches Some(v) ==> self.st.ls_ok(levels) && self.w@.v_ok(v)
                && self.w@.v(v) == Term::Const(name, self.st.ls(levels)),
    {
        let r = self.nb.memo.const_val.get((name, levels, 0, 0));
        proof {
            self.lemma_memo();
            if r is Some {
                reveal(Memos::ok);
                assert(self.nb.memo.const_val@.contains_key((name, levels, 0, 0)));
            }
        }
        r
    }

    pub fn note_const_val(&mut self, name: NamePtr, levels: LevelsPtr, v: ValId)
        requires
            old(self).wf(),
            old(self).st.ls_ok(levels) && old(self).w@.v_ok(v)
                && old(self).w@.v(v) == Term::Const(name, old(self).st.ls(levels)),
        ensures
            final(self).wf(),
            final(self).ext(old(self)),
            final(self).remembered(old(self)),
            final(self).counts.rooted(
                &old(self).counts,
                (if old(self).nb.memo.const_val@.contains_key((name, levels, 0, 0)) {
                    Some(old(self).nb.memo.const_val@[(name, levels, 0, 0)])
                } else {
                    None
                }),
                Some(v),
            ),
            final(self).nb.memo.const_val@ == old(self).nb.memo.const_val@.insert((name, levels, 0, 0), v),
            final(self).nb.probe == old(self).nb.probe,
    {
        let ghost o = *self;
        proof {
            self.lemma_memo();
            self.lemma_wf_live();
            if self.nb.memo.const_val@.contains_key((name, levels, 0, 0)) {
                reveal(Memos::ok);
            }
        }
        let before: Option<ValId> = self.nb.memo.const_val.get((name, levels, 0, 0));
        hold_instead(&mut self.counts, before, Some(v));
        self.nb.memo.const_val.insert((name, levels, 0, 0), v);
        proof {
            assert(self.nb.memo.ok(self.w@, &self.st)) by {
                reveal(Memos::ok);
            }
            self.lemma_recalled(&o);
        }
    }

    /// The value of the type of a constant.
    pub fn recall_const_ty(&self, name: NamePtr, levels: LevelsPtr) -> (r: Option<ValId>)
        requires
            self.wf(),
        ensures
            r matches Some(v) ==> self.st.ls_ok(levels) && self.w@.v_ok(v)
                && self.w@.g.has(Term::Const(name, self.st.ls(levels)), self.w@.v(v)),
    {
        let r = self.nb.memo.const_ty.get((name, levels, 0, 0));
        proof {
            self.lemma_memo();
            if r is Some {
                reveal(Memos::ok);
                assert(self.nb.memo.const_ty@.contains_key((name, levels, 0, 0)));
            }
        }
        r
    }

    pub fn note_const_ty(&mut self, name: NamePtr, levels: LevelsPtr, v: ValId)
        requires
            old(self).wf(),
            old(self).st.ls_ok(levels) && old(self).w@.v_ok(v)
                && old(self).w@.g.has(Term::Const(name, old(self).st.ls(levels)), old(self).w@.v(v)),
        ensures
            final(self).wf(),
            final(self).ext(old(self)),
            final(self).remembered(old(self)),
            final(self).counts.rooted(
                &old(self).counts,
                (if old(self).nb.memo.const_ty@.contains_key((name, levels, 0, 0)) {
                    Some(old(self).nb.memo.const_ty@[(name, levels, 0, 0)])
                } else {
                    None
                }),
                Some(v),
            ),
            final(self).nb.memo.const_ty@ == old(self).nb.memo.const_ty@.insert((name, levels, 0, 0), v),
            final(self).nb.probe == old(self).nb.probe,
    {
        let ghost o = *self;
        proof {
            self.lemma_memo();
            self.lemma_wf_live();
            if self.nb.memo.const_ty@.contains_key((name, levels, 0, 0)) {
                reveal(Memos::ok);
            }
        }
        let before: Option<ValId> = self.nb.memo.const_ty.get((name, levels, 0, 0));
        hold_instead(&mut self.counts, before, Some(v));
        self.nb.memo.const_ty.insert((name, levels, 0, 0), v);
        proof {
            assert(self.nb.memo.ok(self.w@, &self.st)) by {
                reveal(Memos::ok);
            }
            self.lemma_recalled(&o);
        }
    }

    /// The sort the type of a constant ends in.
    pub fn recall_const_lvl(&self, name: NamePtr, levels: LevelsPtr) -> (r: Option<Option<LevelPtr>>)
        requires
            self.wf(),
        ensures
            r matches Some(Some(v))
                ==> self.st.ls_ok(levels) && self.st.l_ok(v)
                && self.w@.const_level(name, self.st.ls(levels), self.st.l(v)),
    {
        let r = self.nb.memo.const_lvl.get((name, levels, 0, 0));
        proof {
            self.lemma_memo();
            if r is Some {
                reveal(Memos::ok);
                assert(self.nb.memo.const_lvl@.contains_key((name, levels, 0, 0)));
            }
        }
        r
    }

    pub fn note_const_lvl(&mut self, name: NamePtr, levels: LevelsPtr, u: Option<LevelPtr>)
        requires
            old(self).wf(),
            u matches Some(v) ==> old(self).st.ls_ok(levels) && old(self).st.l_ok(v)
                && old(self).w@.const_level(name, old(self).st.ls(levels), old(self).st.l(v)),
        ensures
            final(self).wf(),
            final(self).ext(old(self)),
            final(self).recalled(old(self)),
            final(self).nb.probe == old(self).nb.probe,
    {
        let ghost o = *self;
        proof {
            self.lemma_memo();
        }
        self.nb.memo.const_lvl.insert((name, levels, 0, 0), u);
        proof {
            assert(self.nb.memo.ok(self.w@, &self.st)) by {
                reveal(Memos::ok);
            }
            self.lemma_recalled(&o);
        }
    }

    /// The value of a recursor rule.
    pub fn recall_rec_rule(&self, e: ExprPtr, up: LevelsPtr, levels: LevelsPtr) -> (r: Option<ValId>)
        requires
            self.wf(),
        ensures
            r matches Some(v) ==> self.st.e_ok(e) && self.st.ls_ok(up) && self.st.ls_ok(levels) && self.w@.v_ok(v)
                && self.w@.g.steps(self.st.e(e).tsubst(self.st.ls(up), self.st.ls(levels)), self.w@.v(v)),
    {
        let r = self.nb.memo.rec_rule.get((e, up, levels, 0));
        proof {
            self.lemma_memo();
            if r is Some {
                reveal(Memos::ok);
                assert(self.nb.memo.rec_rule@.contains_key((e, up, levels, 0)));
            }
        }
        r
    }

    pub fn note_rec_rule(&mut self, e: ExprPtr, up: LevelsPtr, levels: LevelsPtr, v: ValId)
        requires
            old(self).wf(),
            old(self).st.e_ok(e) && old(self).st.ls_ok(up) && old(self).st.ls_ok(levels) && old(self).w@.v_ok(v)
                && old(self).w@.g.steps(old(self).st.e(e).tsubst(old(self).st.ls(up), old(self).st.ls(levels)),
                old(self).w@.v(v)),
        ensures
            final(self).wf(),
            final(self).ext(old(self)),
            final(self).remembered(old(self)),
            final(self).counts.rooted(
                &old(self).counts,
                (if old(self).nb.memo.rec_rule@.contains_key((e, up, levels, 0)) {
                    Some(old(self).nb.memo.rec_rule@[(e, up, levels, 0)])
                } else {
                    None
                }),
                Some(v),
            ),
            final(self).nb.memo.rec_rule@ == old(self).nb.memo.rec_rule@.insert((e, up, levels, 0), v),
            final(self).nb.probe == old(self).nb.probe,
    {
        let ghost o = *self;
        proof {
            self.lemma_memo();
            self.lemma_wf_live();
            if self.nb.memo.rec_rule@.contains_key((e, up, levels, 0)) {
                reveal(Memos::ok);
            }
        }
        let before: Option<ValId> = self.nb.memo.rec_rule.get((e, up, levels, 0));
        hold_instead(&mut self.counts, before, Some(v));
        self.nb.memo.rec_rule.insert((e, up, levels, 0), v);
        proof {
            assert(self.nb.memo.ok(self.w@, &self.st)) by {
                reveal(Memos::ok);
            }
            self.lemma_recalled(&o);
        }
    }

    /// What a stuck application reduces to.
    pub fn recall_iota(&self, x: ValId) -> (r: Option<Option<ValId>>)
        requires
            self.wf(),
        ensures
            r matches Some(Some(v))
                ==> self.w@.v_ok(x) && self.w@.v_ok(v) && self.w@.g.steps(self.w@.v(x), self.w@.v(v)),
    {
        let r = self.nb.memo.iota.get((x, 0, 0, 0));
        proof {
            self.lemma_memo();
            if r is Some {
                reveal(Memos::ok);
                assert(self.nb.memo.iota@.contains_key((x, 0, 0, 0)));
            }
        }
        r
    }

    pub fn note_iota(&mut self, x: ValId, u: Option<ValId>)
        requires
            old(self).wf(),
            u matches Some(v) ==> old(self).w@.v_ok(x) && old(self).w@.v_ok(v)
                && old(self).w@.g.steps(old(self).w@.v(x), old(self).w@.v(v)),
        ensures
            final(self).wf(),
            final(self).ext(old(self)),
            final(self).recalled(old(self)),
            final(self).nb.probe == old(self).nb.probe,
    {
        let ghost o = *self;
        proof {
            self.lemma_memo();
        }
        self.nb.memo.iota.insert((x, 0, 0, 0), u);
        proof {
            assert(self.nb.memo.ok(self.w@, &self.st)) by {
                reveal(Memos::ok);
            }
            self.lemma_recalled(&o);
        }
    }

    /// The constructor application a value expands to.
    pub fn recall_struct_eta(&self, x: ValId, ind: NamePtr) -> (r: Option<Option<ValId>>)
        requires
            self.wf(),
        ensures
            r matches Some(Some(v))
                ==> self.w@.v_ok(x) && self.w@.v_ok(v) && self.w@.g.steps(self.w@.v(x), self.w@.v(v)),
    {
        let r = self.nb.memo.struct_eta.get((x, ind, 0, 0));
        proof {
            self.lemma_memo();
            if r is Some {
                reveal(Memos::ok);
                assert(self.nb.memo.struct_eta@.contains_key((x, ind, 0, 0)));
            }
        }
        r
    }

    pub fn note_struct_eta(&mut self, x: ValId, ind: NamePtr, u: Option<ValId>)
        requires
            old(self).wf(),
            u matches Some(v) ==> old(self).w@.v_ok(x) && old(self).w@.v_ok(v)
                && old(self).w@.g.steps(old(self).w@.v(x), old(self).w@.v(v)),
        ensures
            final(self).wf(),
            final(self).ext(old(self)),
            final(self).recalled(old(self)),
            final(self).nb.probe == old(self).nb.probe,
    {
        let ghost o = *self;
        proof {
            self.lemma_memo();
        }
        self.nb.memo.struct_eta.insert((x, ind, 0, 0), u);
        proof {
            assert(self.nb.memo.ok(self.w@, &self.st)) by {
                reveal(Memos::ok);
            }
            self.lemma_recalled(&o);
        }
    }

    /// The value of the type of a value.
    pub fn recall_type_of(&self, x: ValId) -> (r: Option<ValId>)
        requires
            self.wf(),
        ensures
            r matches Some(v) ==> self.w@.v_ok(x) && self.w@.v_ok(v) && self.w@.g.has(self.w@.v(x), self.w@.v(v)),
    {
        let r = self.nb.memo.types.get((x, 0, 0, 0));
        proof {
            self.lemma_memo();
            if r is Some {
                reveal(Memos::ok);
                assert(self.nb.memo.types@.contains_key((x, 0, 0, 0)));
            }
        }
        r
    }

    pub fn note_type_of(&mut self, x: ValId, v: ValId)
        requires
            old(self).wf(),
            old(self).w@.v_ok(x) && old(self).w@.v_ok(v) && old(self).w@.g.has(old(self).w@.v(x), old(self).w@.v(v)),
        ensures
            final(self).wf(),
            final(self).ext(old(self)),
            final(self).recalled(old(self)),
            final(self).nb.probe == old(self).nb.probe,
    {
        let ghost o = *self;
        proof {
            self.lemma_memo();
        }
        self.nb.memo.types.insert((x, 0, 0, 0), v);
        proof {
            assert(self.nb.memo.ok(self.w@, &self.st)) by {
                reveal(Memos::ok);
            }
            self.lemma_recalled(&o);
        }
    }

    /// The value of a free variable.
    pub fn recall_local(&self, e: ExprPtr) -> (r: Option<ValId>)
        requires
            self.wf(),
        ensures
            r matches Some(v) ==> self.st.e_ok(e) && self.w@.v_ok(v) && self.w@.v(v) == self.st.e(e),
    {
        let r = self.nb.memo.local.get((e, 0, 0, 0));
        proof {
            self.lemma_memo();
            if r is Some {
                reveal(Memos::ok);
                assert(self.nb.memo.local@.contains_key((e, 0, 0, 0)));
            }
        }
        r
    }

    pub fn note_local(&mut self, e: ExprPtr, v: ValId)
        requires
            old(self).wf(),
            old(self).st.e_ok(e) && old(self).w@.v_ok(v) && old(self).w@.v(v) == old(self).st.e(e),
        ensures
            final(self).wf(),
            final(self).ext(old(self)),
            final(self).remembered(old(self)),
            final(self).counts.rooted(
                &old(self).counts,
                (if old(self).nb.memo.local@.contains_key((e, 0, 0, 0)) {
                    Some(old(self).nb.memo.local@[(e, 0, 0, 0)])
                } else {
                    None
                }),
                Some(v),
            ),
            final(self).nb.memo.local@ == old(self).nb.memo.local@.insert((e, 0, 0, 0), v),
            final(self).nb.probe == old(self).nb.probe,
    {
        let ghost o = *self;
        proof {
            self.lemma_memo();
            self.lemma_wf_live();
            if self.nb.memo.local@.contains_key((e, 0, 0, 0)) {
                reveal(Memos::ok);
            }
        }
        let before: Option<ValId> = self.nb.memo.local.get((e, 0, 0, 0));
        hold_instead(&mut self.counts, before, Some(v));
        self.nb.memo.local.insert((e, 0, 0, 0), v);
        proof {
            assert(self.nb.memo.ok(self.w@, &self.st)) by {
                reveal(Memos::ok);
            }
            self.lemma_recalled(&o);
        }
    }

    /// Whether a variable is found in a value.
    pub fn recall_open(&self, x: ValId) -> (r: Option<bool>)
        requires
            self.wf(),
        ensures
            r matches Some(b) ==> self.w@.v_ok(x) && self.w@.open_answer(self.w@.v(x), b),
    {
        let r = self.nb.memo.open.get((x, 0, 0, 0));
        proof {
            self.lemma_memo();
            if r is Some {
                reveal(Memos::ok);
                assert(self.nb.memo.open@.contains_key((x, 0, 0, 0)));
            }
        }
        r
    }

    /// Whether a variable occurs in a value.
    pub fn note_open(&mut self, x: ValId, v: bool)
        requires
            old(self).wf(),
            old(self).w@.v_ok(x),
            old(self).w@.open_answer(old(self).w@.v(x), v),
        ensures
            final(self).wf(),
            final(self).ext(old(self)),
            final(self).recalled(old(self)),
            final(self).nb.probe == old(self).nb.probe,
    {
        let ghost o = *self;
        proof {
            self.lemma_memo();
        }
        self.nb.memo.open.insert((x, 0, 0, 0), v);
        proof {
            assert(self.nb.memo.ok(self.w@, &self.st)) by {
                reveal(Memos::ok);
            }
            self.lemma_recalled(&o);
        }
    }

    /// Pairs found different.
    pub fn note_conv_neg(&mut self, x: ValId, y: ValId, v: bool)
        requires
            old(self).wf(),
        ensures
            final(self).wf(),
            final(self).ext(old(self)),
            final(self).recalled(old(self)),
            final(self).nb.probe == old(self).nb.probe,
    {
        let ghost o = *self;
        proof {
            self.lemma_memo();
        }
        self.nb.memo.conv_neg.insert((x, y, 0, 0), v);
        proof {
            assert(self.nb.memo.ok(self.w@, &self.st)) by {
                reveal(Memos::ok);
            }
            self.lemma_recalled(&o);
        }
    }

    /// Pairs found different under speculation.
    pub fn note_conv_neg_probe(&mut self, x: ValId, y: ValId, v: bool)
        requires
            old(self).wf(),
        ensures
            final(self).wf(),
            final(self).ext(old(self)),
            final(self).recalled(old(self)),
            final(self).nb.probe == old(self).nb.probe,
    {
        let ghost o = *self;
        proof {
            self.lemma_memo();
        }
        self.nb.memo.conv_neg_probe.insert((x, y, 0, 0), v);
        proof {
            assert(self.nb.memo.ok(self.w@, &self.st)) by {
                reveal(Memos::ok);
            }
            self.lemma_recalled(&o);
        }
    }

    /// Spines whose speculative comparison failed.
    pub fn note_probe_fail(&mut self, x: SpineId, y: SpineId, v: bool)
        requires
            old(self).wf(),
        ensures
            final(self).wf(),
            final(self).ext(old(self)),
            final(self).recalled(old(self)),
            final(self).nb.probe == old(self).nb.probe,
    {
        let ghost o = *self;
        proof {
            self.lemma_memo();
        }
        self.nb.memo.probe_fail.insert((x, y, 0, 0), v);
        proof {
            assert(self.nb.memo.ok(self.w@, &self.st)) by {
                reveal(Memos::ok);
            }
            self.lemma_recalled(&o);
        }
    }

    /// Forget the pairs found different under speculation.
    pub fn drop_conv_neg_probe(&mut self)
        requires
            old(self).wf(),
        ensures
            final(self).wf(),
            final(self).ext(old(self)),
            final(self).recalled(old(self)),
            final(self).nb.probe == old(self).nb.probe,
    {
        let ghost o = *self;
        proof {
            self.lemma_memo();
        }
        self.nb.memo.conv_neg_probe.clear();
        proof {
            assert(self.nb.memo.ok(self.w@, &self.st)) by {
                reveal(Memos::ok);
            }
            self.lemma_recalled(&o);
        }
    }

    /// Pairs found equal.
    pub fn recall_conv(&self, x: ValId, y: ValId) -> (r: bool)
        requires
            self.wf(),
        ensures
            r ==> self.w@.v_ok(x) && self.w@.v_ok(y) && self.w@.g.eq(self.w@.v(x), self.w@.v(y)),
    {
        let r = self.nb.memo.conv_pos.get((x, y, 0, 0));
        proof {
            self.lemma_memo();
            if r is Some {
                reveal(Memos::ok);
                assert(self.nb.memo.conv_pos@.contains_key((x, y, 0, 0)));
            }
        }
        r.is_some()
    }

    pub fn note_conv(&mut self, x: ValId, y: ValId)
        requires
            old(self).wf(),
            old(self).w@.v_ok(x),
            old(self).w@.v_ok(y),
            old(self).w@.g.eq(old(self).w@.v(x), old(self).w@.v(y)),
        ensures
            final(self).wf(),
            final(self).ext(old(self)),
            final(self).recalled(old(self)),
            final(self).nb.probe == old(self).nb.probe,
    {
        let ghost o = *self;
        proof {
            self.lemma_memo();
        }
        self.nb.memo.conv_pos.insert((x, y, 0, 0), true);
        proof {
            assert(self.nb.memo.ok(self.w@, &self.st)) by {
                reveal(Memos::ok);
            }
            self.lemma_recalled(&o);
        }
    }

    /// The type found for a key while checking.
    pub fn recall_infer_check(&self, e: ExprPtr, n: EnvId) -> (r: Option<ExprPtr>)
        requires
            self.wf(),
        ensures
            r matches Some(v) ==> self.w@.infer_fact(&self.st, true, e, n, v),
    {
        let r = self.rp.memo.infer_check.get((e, n, 0, 0));
        proof {
            self.lemma_memo();
            if r is Some {
                reveal(CloMemos::ok);
                assert(self.rp.memo.infer_check@.contains_key((e, n, 0, 0)));
            }
        }
        r
    }

    pub fn note_infer_check(&mut self, e: ExprPtr, n: EnvId, v: ExprPtr)
        requires
            old(self).wf(),
            old(self).w@.infer_fact(&old(self).st, true, e, n, v),
        ensures
            final(self).wf(),
            final(self).ext(old(self)),
            final(self).same_world(old(self)),
    {
        let ghost o = *self;
        proof {
            self.lemma_memo();
        }
        self.rp.memo.infer_check.insert((e, n, 0, 0), v);
        proof {
            assert(self.rp.memo.ok(self.w@, &self.st)) by {
                reveal(CloMemos::ok);
            }
            self.lemma_memo_step(&o);
        }
    }

    /// The type inferred for a key.
    pub fn recall_infer_only(&self, e: ExprPtr, n: EnvId) -> (r: Option<ExprPtr>)
        requires
            self.wf(),
        ensures
            r matches Some(v) ==> self.w@.infer_fact(&self.st, false, e, n, v),
    {
        let r = self.rp.memo.infer_only.get((e, n, 0, 0));
        proof {
            self.lemma_memo();
            if r is Some {
                reveal(CloMemos::ok);
                assert(self.rp.memo.infer_only@.contains_key((e, n, 0, 0)));
            }
        }
        r
    }

    pub fn note_infer_only(&mut self, e: ExprPtr, n: EnvId, v: ExprPtr)
        requires
            old(self).wf(),
            old(self).w@.infer_fact(&old(self).st, false, e, n, v),
        ensures
            final(self).wf(),
            final(self).ext(old(self)),
            final(self).same_world(old(self)),
    {
        let ghost o = *self;
        proof {
            self.lemma_memo();
        }
        self.rp.memo.infer_only.insert((e, n, 0, 0), v);
        proof {
            assert(self.rp.memo.ok(self.w@, &self.st)) by {
                reveal(CloMemos::ok);
            }
            self.lemma_memo_step(&o);
        }
    }

    /// Whether a type is a proposition.
    pub fn recall_prop(&self, e: ExprPtr) -> (r: Option<bool>)
        requires
            self.wf(),
        ensures
            r matches Some(v) ==> self.st.e_ok(e) && self.w@.prop_answer(self.st.e(e), v),
    {
        let r = self.rp.memo.prop.get((e, 0, 0, 0));
        proof {
            self.lemma_memo();
            if r is Some {
                reveal(CloMemos::ok);
                assert(self.rp.memo.prop@.contains_key((e, 0, 0, 0)));
            }
        }
        r
    }

    pub fn note_prop(&mut self, e: ExprPtr, v: bool)
        requires
            old(self).wf(),
            old(self).st.e_ok(e) && old(self).w@.prop_answer(old(self).st.e(e), v),
        ensures
            final(self).wf(),
            final(self).ext(old(self)),
            final(self).same_world(old(self)),
    {
        let ghost o = *self;
        proof {
            self.lemma_memo();
        }
        self.rp.memo.prop.insert((e, 0, 0, 0), v);
        proof {
            assert(self.rp.memo.ok(self.w@, &self.st)) by {
                reveal(CloMemos::ok);
            }
            self.lemma_memo_step(&o);
        }
    }

    /// The definition of a constant.
    pub fn recall_g_unfold(&self, e: ExprPtr) -> (r: Option<ExprPtr>)
        requires
            self.wf(),
        ensures
            r matches Some(v) ==> self.st.e_ok(e) && self.st.e_ok(v) && self.w@.unfold_fact(self.st.e(e), self.st.e(v)),
    {
        let r = self.rp.memo.g_unfold.get((e, 0, 0, 0));
        proof {
            self.lemma_memo();
            if r is Some {
                reveal(CloMemos::ok);
                assert(self.rp.memo.g_unfold@.contains_key((e, 0, 0, 0)));
            }
        }
        r
    }

    pub fn note_g_unfold(&mut self, e: ExprPtr, v: ExprPtr)
        requires
            old(self).wf(),
            old(self).st.e_ok(e) && old(self).st.e_ok(v)
                && old(self).w@.unfold_fact(old(self).st.e(e), old(self).st.e(v)),
        ensures
            final(self).wf(),
            final(self).ext(old(self)),
            final(self).same_world(old(self)),
    {
        let ghost o = *self;
        proof {
            self.lemma_memo();
        }
        self.rp.memo.g_unfold.insert((e, 0, 0, 0), v);
        proof {
            assert(self.rp.memo.ok(self.w@, &self.st)) by {
                reveal(CloMemos::ok);
            }
            self.lemma_memo_step(&o);
        }
    }

    /// The type of a constant.
    pub fn recall_g_inst_ty(&self, e: ExprPtr) -> (r: Option<ExprPtr>)
        requires
            self.wf(),
        ensures
            r matches Some(v) ==> self.st.e_ok(e) && self.st.e_ok(v) && self.w@.type_fact(self.st.e(e), self.st.e(v)),
    {
        let r = self.rp.memo.g_inst_ty.get((e, 0, 0, 0));
        proof {
            self.lemma_memo();
            if r is Some {
                reveal(CloMemos::ok);
                assert(self.rp.memo.g_inst_ty@.contains_key((e, 0, 0, 0)));
            }
        }
        r
    }

    pub fn note_g_inst_ty(&mut self, e: ExprPtr, v: ExprPtr)
        requires
            old(self).wf(),
            old(self).st.e_ok(e) && old(self).st.e_ok(v)
                && old(self).w@.type_fact(old(self).st.e(e), old(self).st.e(v)),
        ensures
            final(self).wf(),
            final(self).ext(old(self)),
            final(self).same_world(old(self)),
    {
        let ghost o = *self;
        proof {
            self.lemma_memo();
        }
        self.rp.memo.g_inst_ty.insert((e, 0, 0, 0), v);
        proof {
            assert(self.rp.memo.ok(self.w@, &self.st)) by {
                reveal(CloMemos::ok);
            }
            self.lemma_memo_step(&o);
        }
    }
}

} // verus!
