//! Components with state: function components and the `use_state` hook.
//!
//! As in React, a component calls its hooks in the same order on every
//! render, outside of branches and loops: the position of a call is what
//! identifies its state. The state of each component instance is kept in a
//! `HookStore` under the instance's `ComponentId` (chosen by the caller,
//! from the instance's place in the tree or its `key`), and survives from
//! one render to the next.

use vstd::prelude::*;
use std::collections::{HashMap, HashSet};

verus! {

broadcast use vstd::std_specs::hash::group_hash_axioms;

/// Identifies a component instance. The caller (the render loop of the
/// application) derives it from the instance's place in the tree or from a
/// `key`, and passes the same value for the same instance on every render.
pub type ComponentId = u64;

struct HookFrame<S> {
    states: Vec<S>,
    cursor: usize,
}

impl<S> HookFrame<S> {
    fn new() -> (f: Self)
        ensures
            f.states@ == Seq::<S>::empty(),
            f.cursor == 0,
    {
        HookFrame { states: Vec::new(), cursor: 0 }
    }
}

/// The state slots of one component instance, and the position of the next
/// `use_state` call in the current render.
pub struct FrameView<S> {
    pub states: Seq<S>,
    pub cursor: nat,
}

pub struct HookStoreView<S> {
    /// Each instance's slots.
    pub frames: Map<ComponentId, FrameView<S>>,
    /// The instances being rendered, innermost last.
    pub active: Seq<ComponentId>,
    /// The instances that asked for a re-render since their last render
    /// began and since they were last asked.
    pub dirty: Set<ComponentId>,
}

spec fn frame_view<S>(f: HookFrame<S>) -> FrameView<S> {
    FrameView { states: f.states@, cursor: f.cursor as nat }
}

/// The state of all component instances: their slots, the instances being
/// rendered, and those that asked for a re-render.
pub struct HookStore<S> {
    frames: HashMap<ComponentId, HookFrame<S>>,
    active: Vec<ComponentId>,
    dirty: HashSet<ComponentId>,
}

impl<S> View for HookStore<S> {
    type V = HookStoreView<S>;

    closed spec fn view(&self) -> HookStoreView<S> {
        HookStoreView {
            frames: self.frames@.map_values(|f: HookFrame<S>| frame_view(f)),
            active: self.active@,
            dirty: self.dirty@,
        }
    }
}

/// The store after `begin_render(id)`: the instance has slots (empty ones
/// if it is new), its cursor is back at the first, it is the innermost
/// instance being rendered, and the render answers any earlier request
/// for one, so its re-render flag is cleared.
pub open spec fn begun<S>(st: HookStoreView<S>, id: ComponentId) -> HookStoreView<S> {
    HookStoreView {
        frames: st.frames.insert(
            id,
            FrameView {
                states: if st.frames.contains_key(id) {
                    st.frames[id].states
                } else {
                    Seq::empty()
                },
                cursor: 0,
            },
        ),
        active: st.active.push(id),
        dirty: st.dirty.remove(id),
    }
}

/// The store after `end_render(saved)`: the instances being rendered are
/// again those of before the render began.
pub open spec fn ended<S>(st: HookStoreView<S>, saved: Seq<ComponentId>) -> HookStoreView<S> {
    HookStoreView { frames: st.frames, active: saved, dirty: st.dirty }
}

/// `id`'s slot `index` holds a value.
pub open spec fn has_slot<S>(st: HookStoreView<S>, id: ComponentId, index: nat) -> bool {
    st.frames.contains_key(id) && index < st.frames[id].states.len()
}

/// The store after writing `value` into `id`'s slot `index`: the slot holds
/// it and the instance is marked for a re-render.
pub open spec fn written<S>(st: HookStoreView<S>, id: ComponentId, index: nat, value: S) -> HookStoreView<S> {
    HookStoreView {
        frames: st.frames.insert(
            id,
            FrameView {
                states: st.frames[id].states.update(index as int, value),
                cursor: st.frames[id].cursor,
            },
        ),
        active: st.active,
        dirty: st.dirty.insert(id),
    }
}

impl<S> HookStore<S> {
    #[verifier::type_invariant]
    closed spec fn cursors_in_range(self) -> bool {
        forall|id: ComponentId| #[trigger] self.frames@.contains_key(id) ==> self.frames@[id].cursor
            <= self.frames@[id].states.len()
    }

    /// A store with no instances.
    pub fn new() -> (st: Self)
        ensures
            st@.frames == Map::<ComponentId, FrameView<S>>::empty(),
            st@.active == Seq::<ComponentId>::empty(),
            st@.dirty == Set::<ComponentId>::empty(),
    {
        let st = HookStore { frames: HashMap::new(), active: Vec::new(), dirty: HashSet::new() };
        assert(st@.frames =~= Map::<ComponentId, FrameView<S>>::empty());
        st
    }
}

/// A value written through a setter is what the next render of the
/// instance finds in that slot.
pub proof fn lemma_write_then_render<S>(st: HookStoreView<S>, id: ComponentId, index: nat, value: S)
    requires
        has_slot(st, id, index),
    ensures
        has_slot(begun(written(st, id, index, value), id), id, index),
        begun(written(st, id, index, value), id).frames[id].states[index as int] == value,
{
}

/// Writing slot `index` of an instance changes that slot only: the instance
/// keeps as many slots as before, every other slot holds what it held, the
/// written one holds `value`, and the render position is unchanged.
pub proof fn lemma_write_touches_one_slot<S>(st: HookStoreView<S>, id: ComponentId, index: nat, value: S)
    requires
        has_slot(st, id, index),
    ensures
        written(st, id, index, value).frames.dom() == st.frames.dom(),
        written(st, id, index, value).frames[id].states.len() == st.frames[id].states.len(),
        written(st, id, index, value).frames[id].states[index as int] == value,
        forall|j: int| 0 <= j < st.frames[id].states.len() && j != index ==> #[trigger] written(st, id, index, value).frames[id].states[j]
            == st.frames[id].states[j],
        written(st, id, index, value).frames[id].cursor == st.frames[id].cursor,
{
    assert(written(st, id, index, value).frames.dom() =~= st.frames.dom());
}

/// Writing one instance's slot leaves every other instance's slots as they were.
pub proof fn lemma_instances_independent<S>(st: HookStoreView<S>, id: ComponentId, index: nat, value: S, other: ComponentId)
    requires
        has_slot(st, id, index),
        other != id,
    ensures
        written(st, id, index, value).frames.contains_key(other) == st.frames.contains_key(other),
        st.frames.contains_key(other) ==> written(st, id, index, value).frames[other] == st.frames[other],
{
}

/// A write marks the instance for a re-render; asking consumes the mark.
pub proof fn lemma_write_marks_dirty<S>(st: HookStoreView<S>, id: ComponentId, index: nat, value: S)
    requires
        has_slot(st, id, index),
    ensures
        written(st, id, index, value).dirty.contains(id),
        !written(st, id, index, value).dirty.remove(id).contains(id),
{
}

/// A render of an instance that already has slots starts over at its first
/// slot and finds the values the slots hold, so hooks called in the same
/// order see the same state; the render answers any pending request for a
/// re-render of the instance, and leaves every other instance as it was.
pub proof fn lemma_render_sees_same_slots<S>(st: HookStoreView<S>, id: ComponentId, other: ComponentId)
    requires
        st.frames.contains_key(id),
        other != id,
    ensures
        begun(st, id).frames.dom() == st.frames.dom(),
        begun(st, id).frames[id].states == st.frames[id].states,
        begun(st, id).frames[id].cursor == 0,
        !begun(st, id).dirty.contains(id),
        begun(st, id).dirty.contains(other) == st.dirty.contains(other),
        st.frames.contains_key(other) ==> begun(st, id).frames[other] == st.frames[other],
{
    assert(begun(st, id).frames.dom() =~= st.frames.dom());
}

/// A copy of the stack of instances being rendered.
fn copy_stack(stack: &Vec<ComponentId>) -> (c: Vec<ComponentId>)
    ensures
        c@ == stack@,
{
    let mut c: Vec<ComponentId> = Vec::new();
    let mut i: usize = 0;
    while i < stack.len()
        invariant
            i <= stack.len(),
            c@ == stack@.take(i as int),
        decreases stack.len() - i,
    {
        c.push(stack[i]);
        i = i + 1;
        assert(c@ =~= stack@.take(i as int));
    }
    assert(stack@.take(i as int) =~= stack@);
    c
}

/// Resets `id`'s hook cursor before its render function runs, clears its
/// re-render flag, and makes it the innermost instance being rendered.
/// Returns the stack of instances being rendered before, for `end_render`.
pub(crate) fn begin_render<S>(store: &mut HookStore<S>, id: ComponentId) -> (saved: Vec<ComponentId>)
    ensures
        saved@ == old(store)@.active,
        final(store)@ == begun(old(store)@, id),
{
    proof {
        use_type_invariant(&*store);
    }
    let mut frames: HashMap<ComponentId, HookFrame<S>> = HashMap::new();
    std::mem::swap(&mut frames, &mut store.frames);
    let frame = match frames.remove(&id) {
        Some(f) => HookFrame { states: f.states, cursor: 0 },
        None => HookFrame::new(),
    };
    frames.insert(id, frame);
    store.frames = frames;
    let mut dirty: HashSet<ComponentId> = HashSet::new();
    std::mem::swap(&mut dirty, &mut store.dirty);
    let _ = dirty.remove(&id);
    store.dirty = dirty;
    let mut active: Vec<ComponentId> = Vec::new();
    std::mem::swap(&mut active, &mut store.active);
    let saved = copy_stack(&active);
    active.push(id);
    store.active = active;
    proof {
        assert(store@.frames =~= begun(old(store)@, id).frames);
    }
    saved
}

/// Ends a render: the instances being rendered are again `saved`, those of
/// before `begin_render`.
pub(crate) fn end_render<S>(store: &mut HookStore<S>, saved: Vec<ComponentId>)
    ensures
        final(store)@ == ended(old(store)@, saved@),
{
    proof {
        use_type_invariant(&*store);
    }
    store.active = saved;
}

/// The instance being rendered: the innermost one.
fn current_id<S>(store: &HookStore<S>) -> (id: ComponentId)
    requires
        store@.active.len() > 0,
    ensures
        id == store@.active.last(),
{
    store.active[store.active.len() - 1]
}

/// Runs `render_fn` once with its hooks bound to instance `id`: every
/// `use_state` inside it reads and writes `id`'s slots, numbered from the
/// first. Afterwards the instances being rendered are those of before, so
/// an enclosing render goes on with its own instance and slots.
pub fn run_component<S, T, F: FnOnce(&mut HookStore<S>) -> T>(store: &mut HookStore<S>, id: ComponentId, render_fn: F) -> (r: T)
    requires
        forall|m: &mut HookStore<S>| (*m)@ == begun(old(store)@, id) ==> #[trigger] render_fn.requires((m,)),
    ensures
        final(store)@.active == old(store)@.active,
        exists|m: &mut HookStore<S>|
            #![trigger render_fn.ensures((m,), r)]
            (*m)@ == begun(old(store)@, id) && ended((*final(m))@, old(store)@.active) == final(store)@
                && render_fn.ensures((m,), r),
{
    let saved = begin_render(store, id);
    let result = render_fn(store);
    end_render(store, saved);
    result
}

/// Whether instance `id` asked for a re-render (a `StateSetter` of it was
/// used) since the last `run_component` of it began, and since it was last
/// asked; asking consumes the flag.
pub fn take_dirty<S>(store: &mut HookStore<S>, id: ComponentId) -> (r: bool)
    ensures
        r == old(store)@.dirty.contains(id),
        final(store)@.dirty == old(store)@.dirty.remove(id),
        final(store)@.frames == old(store)@.frames,
        final(store)@.active == old(store)@.active,
{
    proof {
        use_type_invariant(&*store);
    }
    let mut dirty: HashSet<ComponentId> = HashSet::new();
    std::mem::swap(&mut dirty, &mut store.dirty);
    let r = dirty.remove(&id);
    store.dirty = dirty;
    r
}

/// Whether any instance asked for a re-render.
pub fn any_dirty<S>(store: &HookStore<S>) -> (r: bool)
    ensures
        r == (store@.dirty != Set::<ComponentId>::empty()),
{
    !store.dirty.is_empty()
}

/// Consumes every instance's re-render flag.
pub fn clear_all_dirty<S>(store: &mut HookStore<S>)
    ensures
        final(store)@.dirty == Set::<ComponentId>::empty(),
        final(store)@.frames == old(store)@.frames,
        final(store)@.active == old(store)@.active,
{
    proof {
        use_type_invariant(&*store);
    }
    let mut dirty: HashSet<ComponentId> = HashSet::new();
    std::mem::swap(&mut dirty, &mut store.dirty);
    dirty.clear();
    store.dirty = dirty;
}

/// Discards the state of instance `id` (what unmounting a component does).
pub fn drop_instance<S>(store: &mut HookStore<S>, id: ComponentId)
    ensures
        final(store)@.frames == old(store)@.frames.remove(id),
        final(store)@.dirty == old(store)@.dirty.remove(id),
        final(store)@.active == old(store)@.active,
{
    proof {
        use_type_invariant(&*store);
    }
    let mut frames: HashMap<ComponentId, HookFrame<S>> = HashMap::new();
    std::mem::swap(&mut frames, &mut store.frames);
    let _ = frames.remove(&id);
    store.frames = frames;
    let mut dirty: HashSet<ComponentId> = HashSet::new();
    std::mem::swap(&mut dirty, &mut store.dirty);
    let _ = dirty.remove(&id);
    store.dirty = dirty;
    proof {
        assert(store@.frames =~= old(store)@.frames.remove(id));
    }
}

/// A handle that updates one state slot. Using it writes the store at once
/// and marks the instance for `take_dirty` (a plain synchronous write, with
/// no batching).
pub struct StateSetter<S> {
    id: ComponentId,
    index: usize,
    marker: std::marker::PhantomData<S>,
}

impl<S> Clone for StateSetter<S> {
    fn clone(&self) -> (r: Self)
        ensures
            r.id() == self.id(),
            r.index() == self.index(),
    {
        StateSetter { id: self.id, index: self.index, marker: std::marker::PhantomData }
    }
}

impl<S> StateSetter<S> {
    /// The instance whose slot this handle writes.
    pub closed spec fn id(&self) -> ComponentId {
        self.id
    }

    /// The position of the slot among the instance's slots.
    pub closed spec fn index(&self) -> nat {
        self.index as nat
    }

    /// Writes `value` into the slot and marks the instance for a re-render.
    pub fn set(&self, store: &mut HookStore<S>, value: S)
        requires
            has_slot(old(store)@, self.id(), self.index()),
        ensures
            final(store)@ == written(old(store)@, self.id(), self.index(), value),
    {
        proof {
            use_type_invariant(&*store);
        }
        let mut frames: HashMap<ComponentId, HookFrame<S>> = HashMap::new();
        std::mem::swap(&mut frames, &mut store.frames);
        let frame = frames.remove(&self.id);
        match frame {
            Some(f) => {
                let mut states = f.states;
                states.set(self.index, value);
                frames.insert(self.id, HookFrame { states, cursor: f.cursor });
            },
            None => {},
        }
        store.frames = frames;
        let mut dirty: HashSet<ComponentId> = HashSet::new();
        std::mem::swap(&mut dirty, &mut store.dirty);
        dirty.insert(self.id);
        store.dirty = dirty;
        proof {
            assert(store@.frames =~= written(old(store)@, self.id(), self.index(), value).frames);
        }
    }

    /// Writes what `f` makes of the slot's current value (the counterpart of
    /// React's `setState(prev => next)`).
    pub fn update<F: FnOnce(&S) -> S>(&self, store: &mut HookStore<S>, f: F)
        requires
            has_slot(old(store)@, self.id(), self.index()),
            f.requires((&old(store)@.frames[self.id()].states[self.index() as int],)),
        ensures
            exists|next: S|
                #![trigger f.ensures((&old(store)@.frames[self.id()].states[self.index() as int],), next)]
                f.ensures((&old(store)@.frames[self.id()].states[self.index() as int],), next) && final(store)@
                    == written(old(store)@, self.id(), self.index(), next),
    {
        proof {
            use_type_invariant(&*store);
        }
        let next = match self.frames_get(store) {
            Some(current) => f(current),
            None => {
                assert(false);
                return;
            },
        };
        self.set(store, next);
    }

    fn frames_get<'a>(&self, store: &'a HookStore<S>) -> (r: Option<&'a S>)
        requires
            has_slot(store@, self.id(), self.index()),
        ensures
            r == Some(&store@.frames[self.id()].states[self.index() as int]),
    {
        match store.frames.get(&self.id) {
            Some(frame) => Some(&frame.states[self.index]),
            None => None,
        }
    }
}

/// The `use_state` hook: the current value of the next state slot of the
/// instance being rendered (a clone of it), and a handle that updates it.
/// `init` runs only the first time the instance reaches this slot.
pub fn use_state<S: Clone, F: FnOnce() -> S>(store: &mut HookStore<S>, init: F) -> (r: (S, StateSetter<S>))
    requires
        old(store)@.active.len() > 0,
        old(store)@.frames.contains_key(old(store)@.active.last()),
        old(store)@.frames[old(store)@.active.last()].states.len() < usize::MAX,
        old(store)@.frames[old(store)@.active.last()].cursor == old(store)@.frames[old(store)@.active.last()].states.len()
            ==> init.requires(()),
    ensures
        ({
            let id = old(store)@.active.last();
            let fr = old(store)@.frames[id];
            let index = fr.cursor;
            &&& r.1.id() == id
            &&& r.1.index() == index
            &&& final(store)@.active == old(store)@.active
            &&& final(store)@.dirty == old(store)@.dirty
            &&& final(store)@.frames.dom() == old(store)@.frames.dom()
            &&& forall|other: ComponentId| other != id && #[trigger] old(store)@.frames.contains_key(other)
                ==> final(store)@.frames[other] == old(store)@.frames[other]
            &&& final(store)@.frames[id].cursor == index + 1
            &&& if index < fr.states.len() {
                final(store)@.frames[id].states == fr.states
            } else {
                final(store)@.frames[id].states.len() == index + 1
                    && final(store)@.frames[id].states.take(index as int) == fr.states
                    && init.ensures((), final(store)@.frames[id].states[index as int])
            }
            &&& cloned(final(store)@.frames[id].states[index as int], r.0)
        }),
{
    proof {
        use_type_invariant(&*store);
    }
    let id = current_id(store);
    let mut frames: HashMap<ComponentId, HookFrame<S>> = HashMap::new();
    std::mem::swap(&mut frames, &mut store.frames);
    let (mut states, cursor) = match frames.remove(&id) {
        Some(f) => (f.states, f.cursor),
        None => {
            assert(false);
            (Vec::new(), 0)
        },
    };
    let index = cursor;
    let ghost old_states = states@;
    if index == states.len() {
        states.push(init());
    }
    let value = states[index].clone();
    frames.insert(id, HookFrame { states, cursor: index + 1 });
    store.frames = frames;
    proof {
        if index < old_states.len() {
            assert(store@.frames[id].states =~= old_states);
        } else {
            assert(store@.frames[id].states.take(index as int) =~= old_states);
        }
        assert(store@.frames.dom() =~= old(store)@.frames.dom());
    }
    (value, StateSetter { id, index, marker: std::marker::PhantomData })
}

} // verus!
