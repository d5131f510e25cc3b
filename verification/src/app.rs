//! The render loop of a whole application.
//!
//! `hooks` keeps the state of each component instance; an `App` re-renders
//! the whole tree from its root as soon as any instance has asked for it,
//! and diffs the result against the previous tree. Nested components are
//! render functions that call `run_component` for their children, so
//! re-running the root re-evaluates all of them with their current state.
//! Re-rendering only the subtrees that changed is left out: correctness
//! first.

use vstd::prelude::*;
use crate::vnode::VNode;
use crate::dom_bridge::{DomNode, apply_patch, applicable, spec_apply};
use crate::diff::{Patch, diff, spec_diff};
use crate::hooks::{ComponentId, HookStore, HookStoreView, begun, ended, begin_render, end_render, any_dirty,
    clear_all_dirty};

verus! {

/// The store with every re-render flag consumed.
pub open spec fn cleared<S>(st: HookStoreView<S>) -> HookStoreView<S> {
    HookStoreView { frames: st.frames, active: st.active, dirty: Set::empty() }
}

/// The re-render that `tick` runs begins with no instance marked for a
/// re-render, and ending it keeps exactly the marks made during it: every
/// request made before the tick is answered, so when the render marks
/// nothing, nothing is marked afterwards and the next tick renders nothing.
pub proof fn lemma_tick_consumes_flags<S>(st: HookStoreView<S>, root: ComponentId, after: HookStoreView<S>)
    ensures
        begun(cleared(st), root).dirty == Set::<ComponentId>::empty(),
        ended(after, st.active).dirty == after.dirty,
{
    assert(begun(cleared(st), root).dirty =~= Set::<ComponentId>::empty());
}

/// A mounted application: the root instance's id, its render function, and
/// the tree of the last render.
pub struct App<F> {
    root_id: ComponentId,
    render_fn: F,
    tree: VNode,
}

impl<F> App<F> {
    pub closed spec fn root(&self) -> ComponentId {
        self.root_id
    }

    pub closed spec fn renderer(&self) -> F {
        self.render_fn
    }

    /// The tree of the last render.
    pub closed spec fn current(&self) -> VNode {
        self.tree
    }

    /// Renders the root once and keeps the result as the current tree (the
    /// first render: nothing is diffed or patched).
    pub fn mount<S>(store: &mut HookStore<S>, root_id: ComponentId, render_fn: F) -> (app: Self) where
        F: Fn(&mut HookStore<S>) -> VNode,

        requires
            forall|m: &mut HookStore<S>| (*m)@ == begun(old(store)@, root_id) ==> #[trigger] render_fn.requires((m,)),
        ensures
            app.root() == root_id,
            app.renderer() == render_fn,
            final(store)@.active == old(store)@.active,
            exists|m: &mut HookStore<S>|
                #![trigger render_fn.ensures((m,), app.current())]
                (*m)@ == begun(old(store)@, root_id) && ended((*final(m))@, old(store)@.active) == final(store)@
                    && render_fn.ensures((m,), app.current()),
    {
        let saved = begin_render(store, root_id);
        let tree = render_fn(store);
        end_render(store, saved);
        App { root_id, render_fn, tree }
    }

    /// The tree of the last `mount` or `tick`.
    pub fn tree(&self) -> (t: &VNode)
        ensures
            *t == self.current(),
    {
        &self.tree
    }

    /// If some instance asked for a re-render, renders the root again and
    /// returns the patch from the previous tree to the new one; otherwise
    /// does not render at all and returns `None` (unlike a loop that polls
    /// `take_dirty`, which would consume the flags and render needlessly).
    pub fn tick<S>(&mut self, store: &mut HookStore<S>) -> (r: Option<Patch>) where
        F: Fn(&mut HookStore<S>) -> VNode,

        requires
            forall|m: &mut HookStore<S>| (*m)@ == begun(cleared(old(store)@), old(self).root())
                ==> #[trigger] old(self).renderer().requires((m,)),
        ensures
            final(self).root() == old(self).root(),
            final(self).renderer() == old(self).renderer(),
            old(store)@.dirty == Set::<ComponentId>::empty() ==> r is None && final(store)@ == old(store)@
                && final(self).current() == old(self).current(),
            old(store)@.dirty != Set::<ComponentId>::empty() ==> {
                &&& exists|m: &mut HookStore<S>|
                    #![trigger old(self).renderer().ensures((m,), final(self).current())]
                    (*m)@ == begun(cleared(old(store)@), old(self).root()) && ended((*final(m))@, old(store)@.active)
                        == final(store)@ && old(self).renderer().ensures((m,), final(self).current())
                        && (*m)@.dirty == Set::<ComponentId>::empty() && final(store)@.dirty == (*final(m))@.dirty
                &&& r matches Some(p) && p@ == spec_diff(old(self).current()@, final(self).current()@)
            },
    {
        if !any_dirty(store) {
            return None;
        }
        // The whole tree renders again, so every flag is consumed at once.
        clear_all_dirty(store);
        let ghost mid = store@;
        assert(mid == cleared(old(store)@)) by {
            assert(mid.dirty =~= Set::<ComponentId>::empty());
        }
        let saved = begin_render(store, self.root_id);
        assert(self.render_fn == old(self).renderer());
        assert(self.render_fn.requires((store,)));
        let new_tree = (self.render_fn)(store);
        end_render(store, saved);
        let patch = diff(&self.tree, &new_tree);
        self.tree = new_tree;
        Some(patch)
    }

    /// `tick`, and when it gives a patch, applies it at once to the document
    /// `document`. Returns whether a patch was applied. Every tree the render
    /// function may give must diff into a patch that fits `document`
    /// (`lemma_apply_diff_to` shows that it does when `document` stands for
    /// the current tree, and that `document` then stands for the new one).
    pub fn tick_and_apply<S>(&mut self, store: &mut HookStore<S>, document: &mut DomNode) -> (applied: bool) where
        F: Fn(&mut HookStore<S>) -> VNode,

        requires
            forall|m: &mut HookStore<S>| (*m)@ == begun(cleared(old(store)@), old(self).root())
                ==> #[trigger] old(self).renderer().requires((m,)),
            old(store)@.dirty != Set::<ComponentId>::empty() ==> forall|m: &mut HookStore<S>, t: VNode|
                #[trigger] old(self).renderer().ensures((m,), t) ==> applicable(
                    old(document)@,
                    spec_diff(old(self).current()@, t@),
                ),
        ensures
            final(self).root() == old(self).root(),
            final(self).renderer() == old(self).renderer(),
            applied == (old(store)@.dirty != Set::<ComponentId>::empty()),
            !applied ==> final(document)@ == old(document)@ && final(store)@ == old(store)@ && final(self).current()
                == old(self).current(),
            applied ==> {
                &&& exists|m: &mut HookStore<S>|
                    #![trigger old(self).renderer().ensures((m,), final(self).current())]
                    (*m)@ == begun(cleared(old(store)@), old(self).root()) && ended((*final(m))@, old(store)@.active)
                        == final(store)@ && old(self).renderer().ensures((m,), final(self).current())
                        && (*m)@.dirty == Set::<ComponentId>::empty() && final(store)@.dirty == (*final(m))@.dirty
                &&& final(document)@ == spec_apply(
                    old(document)@,
                    spec_diff(old(self).current()@, final(self).current()@),
                )
            },
    {
        match self.tick(store) {
            Some(patch) => {
                apply_patch(document, &patch);
                true
            },
            None => false,
        }
    }
}

} // verus!
