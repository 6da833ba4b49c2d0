//! Starting a check, and starting over for the next declaration.
use crate::closure::{CloState, Entry};
use crate::counters::Counters;
use crate::ctx::{TcCtx, World};
use crate::expr::Store;
use crate::nbe::Vals;
use crate::rc::{new_sentinel, reset, Counts, Kind, RING_CAP};
use crate::table::Key;
use crate::term::Term;
use crate::theory::{ElimT, Names, Sig};
use vstd::prelude::*;

verus! {

impl World {
    /// No values, the empty spine and the empty environment.
    pub open spec fn fresh(g: Sig) -> World {
        World {
            g,
            vd: Seq::empty(),
            vt: Seq::empty(),
            sd: seq![Seq::<ElimT>::empty()],
            spt: seq![0],
            nc: seq![Seq::<Entry>::empty()],
            nd: seq![Seq::<Term>::empty()],
            nt: seq![0],
            nlv: seq![0],
            np: seq![true],
            clock: 1,
        }
    }
}

impl CloState {
    /// Clear the state of a declaration.  What depends on expressions and
    /// constants alone is kept.
    pub fn reset_decl(&mut self)
        requires
            old(self).envs@.len() >= 1,
        ensures
            final(self).envs@ == old(self).envs@.take(1),
            final(self).env_intern@ == Map::<Key, u32>::empty(),
            final(self).memo.infer_check@ == Map::<Key, u32>::empty(),
            final(self).memo.infer_only@ == Map::<Key, u32>::empty(),
            forall|k: Key, v: u32| !#[trigger] final(self).memo.reify_go.holds(k, v),
            final(self).memo.lvl@ == Map::<Key, u32>::empty(),
            final(self).memo.prop@ == Map::<Key, bool>::empty(),
            final(self).memo.proj@ == Map::<Key, u32>::empty(),
            final(self).memo.proj_w@ == Map::<Key, u32>::empty(),
            forall|k: Key, v: u32| !#[trigger] final(self).memo.view.holds(k, v),
            forall|k: Key, v: u32| !#[trigger] final(self).memo.view_w.holds(k, v),
            final(self).memo.views.wf(),
            final(self).memo.views@.len() == 0,
            final(self).memo.sides@ == Map::<Key, u32>::empty(),
            forall|k: Key, v: bool| !#[trigger] final(self).memo.eq_mod.holds(k, v),
            final(self).memo.umask == old(self).memo.umask,
            final(self).memo.wide == old(self).memo.wide,
            final(self).memo.g_unfold == old(self).memo.g_unfold,
            final(self).memo.g_inst_ty == old(self).memo.g_inst_ty,
    {
        self.envs.truncate(1);
        self.env_intern.clear();
        self.memo.infer_check.clear();
        self.memo.infer_only.clear();
        self.memo.reify_go.reset_decl();
        self.memo.lvl.clear();
        self.memo.prop.clear();
        self.memo.proj.clear();
        self.memo.proj_w.clear();
        self.memo.view.reset_decl();
        self.memo.view_w.reset_decl();
        self.memo.views.clear();
        self.memo.sides.clear();
        self.memo.num_sides = 0;
        self.memo.eq_mod.reset_decl();
    }

    /// Clear what is kept between declarations: the constant instantiations,
    /// and the read sets, which depend on the expression alone.
    pub fn reset_const_caches(&mut self)
        ensures
            final(self).memo.g_unfold@ == Map::<Key, u32>::empty(),
            final(self).memo.g_inst_ty@ == Map::<Key, u32>::empty(),
            final(self).memo.umask@ == Map::<Key, crate::closure::Uses>::empty(),
            final(self).memo.wide.wf(),
            final(self).memo.wide@.len() == 0,
            final(self).envs == old(self).envs,
            final(self).env_intern == old(self).env_intern,
            final(self).memo.infer_check == old(self).memo.infer_check,
            final(self).memo.infer_only == old(self).memo.infer_only,
            final(self).memo.reify_go == old(self).memo.reify_go,
            final(self).memo.lvl == old(self).memo.lvl,
            final(self).memo.prop == old(self).memo.prop,
            final(self).memo.proj == old(self).memo.proj,
            final(self).memo.proj_w == old(self).memo.proj_w,
            final(self).memo.view == old(self).memo.view,
            final(self).memo.view_w == old(self).memo.view_w,
            final(self).memo.views == old(self).memo.views,
            final(self).memo.sides == old(self).memo.sides,
            final(self).memo.num_sides == old(self).memo.num_sides,
            final(self).memo.eq_mod == old(self).memo.eq_mod,
    {
        self.memo.g_unfold.clear();
        self.memo.g_inst_ty.clear();
        self.memo.umask.clear();
        self.memo.wide.clear();
    }
}

impl TcCtx {
    /// A check over the expressions of `st`, with nothing computed yet.
    pub(crate) fn make(st: Store, names: Names, nat_ext: bool, str_ext: bool, Ghost(g): Ghost<Sig>) -> (r: TcCtx)
        requires
            st.wf(),
            g.names == names,
            g.nat_ext == nat_ext,
            g.str_ext == str_ext,
        ensures
            r.wf(),
            r.st == st,
            r.w@ == World::fresh(g),
            r.names == names,
            r.nat_ext == nat_ext,
            r.str_ext == str_ext,
            !r.eager_mode,
    {
        let mut counts = Counts::with_ring(RING_CAP);
        assert(counts.words(Kind::Val).len() == 0);
        assert(counts.words(Kind::Spine).len() == 0);
        assert(counts.words(Kind::Env).len() == 0);
        new_sentinel(&mut counts, Kind::Env);
        let nb = Vals::new(&mut counts);
        let rp = CloState::new();
        let r = TcCtx {
            st,
            nb,
            rp,
            counts,
            names,
            nat_ext,
            str_ext,
            eager_mode: false,
            ctrs: Counters::new(),
            w: Ghost(World::fresh(g)),
        };
        proof {
            r.lemma_fresh(g);
        }
        r
    }

    /// A check without nodes is well formed.
    proof fn lemma_fresh(&self, g: Sig)
        requires
            self.st.wf(),
            self.w@ == World::fresh(g),
            g.names == self.names,
            g.nat_ext == self.nat_ext,
            g.str_ext == self.str_ext,
            self.counts.wf(),
            self.counts.all_live(),
            self.nb.wf(&self.counts),
            Vals::named(self.nb.tabs, self.nb.vals@, self.nb.spines@),
            self.nb.fresh(),
            self.counts.envs@.len() == 1,
            self.rp.envs@.len() == 1,
            self.rp.envs@[0].len == 0,
            self.rp.envs@[0].next_level == 0,
            self.rp.envs@[0].parent == 0,
            self.rp.envs@[0].jump == 0,
            self.rp.envs@[0].plain,
            self.rp.env_intern@ == Map::<Key, u32>::empty(),
            self.rp.memo.empty(),
        ensures
            self.wf(),
    {
        reveal(TcCtx::wf);
        reveal(Vals::wf);
        self.nb.memo.lemma_empty(self.w@, &self.st);
        self.rp.memo.lemma_empty(self.w@, &self.st);
        assert(self.w@.env_ok(&self.st, 0, self.rp.envs@[0]));
        assert(self.w@.spine_ok(0, self.nb.spines@[0]));
    }

    /// Start over for the next declaration: nothing computed survives, the
    /// expressions stay.
    pub(crate) fn start_over(&mut self, Ghost(g): Ghost<Sig>)
        requires
            old(self).wf(),
            g.names == old(self).names,
            g.nat_ext == old(self).nat_ext,
            g.str_ext == old(self).str_ext,
        ensures
            final(self).wf(),
            final(self).st == old(self).st,
            final(self).w@ == World::fresh(g),
            final(self).names == old(self).names,
            final(self).nat_ext == old(self).nat_ext,
            final(self).str_ext == old(self).str_ext,
            final(self).eager_mode == old(self).eager_mode,
    {
        proof {
            reveal(TcCtx::wf);
            self.nb.lemma_wf(&self.counts);
            assert(self.w@.env_ok(&self.st, 0, self.rp.envs@[0]));
        }
        self.rp.reset_decl();
        self.rp.reset_const_caches();
        self.nb.reset_decl(&mut self.counts);
        reset(&mut self.counts, Kind::Env, 1);
        proof {
            assert(self.counts.words(Kind::Env)[0] == self.counts.envs@[0]);
            assert(self.counts.all_live());
            reveal(Vals::wf);
            self.w@ = World::fresh(g);
            self.lemma_fresh(g);
        }
    }
}

} // verus!
