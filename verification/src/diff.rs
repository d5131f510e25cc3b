//! Reconciliation of two virtual trees. As in React: a node at the same
//! place with the same type is updated in place, a node whose type changed
//! is replaced, and children that carry a `key` are matched by that key.
//! The whole tree is compared in one synchronous pass that yields a patch.

use vstd::prelude::*;
use std::collections::HashSet;
use crate::attrs::{AttrView, attr_lookup, pairs_view, pair_view};
use crate::vnode::{VNode, VElement, NodeView, key_of, node_view, nodes_view, lemma_nodes_view, opt_str_view};

verus! {

broadcast use vstd::std_specs::hash::group_hash_axioms;

#[derive(Debug, PartialEq, Eq)]
pub enum Patch {
    /// Replace the node here by a new one (the tag changed, or text and
    /// element swapped places).
    Replace(VNode),
    /// New content for a text node.
    UpdateText(String),
    /// In-place update of the same element (same tag, same key). At least
    /// one of the two parts is present: with no change the patch is `NoOp`.
    UpdateElement { attrs: Option<AttrsPatch>, children: Option<Vec<ChildPatch>> },
    /// Nothing changed.
    NoOp,
}

#[derive(Debug, PartialEq, Eq)]
pub struct AttrsPatch {
    pub set: Vec<(String, String)>,
    pub remove: Vec<String>,
}

#[derive(Debug, PartialEq, Eq)]
pub enum ChildPatch {
    /// Insert a new child at position `index`.
    Insert { index: usize, node: VNode },
    /// Remove the child at position `index`.
    Remove { index: usize },
    /// The child that stood at `old_index` goes to `new_index`, and `patch`
    /// updates what is inside it.
    Update { old_index: usize, new_index: usize, patch: Box<Patch> },
}

// ---------------------------------------------------------------------
// The patch as the specifications see it.

pub enum PatchView {
    Replace(NodeView),
    UpdateText(Seq<char>),
    UpdateElement { attrs: Option<AttrsPatchView>, children: Option<Seq<ChildPatchView>> },
    NoOp,
}

pub struct AttrsPatchView {
    pub set: Seq<AttrView>,
    pub remove: Seq<Seq<char>>,
}

pub enum ChildPatchView {
    Insert { index: nat, node: NodeView },
    Remove { index: nat },
    Update { old_index: nat, new_index: nat, patch: PatchView },
}

pub open spec fn strings_view(v: Seq<String>) -> Seq<Seq<char>> {
    v.map_values(|s: String| s@)
}

pub open spec fn attrs_patch_view(a: AttrsPatch) -> AttrsPatchView {
    AttrsPatchView { set: pairs_view(a.set@), remove: strings_view(a.remove@) }
}

pub open spec fn patch_view(p: Patch) -> PatchView
    decreases p,
{
    match p {
        Patch::Replace(n) => PatchView::Replace(n@),
        Patch::UpdateText(t) => PatchView::UpdateText(t@),
        Patch::UpdateElement { attrs, children } => PatchView::UpdateElement {
            attrs: match attrs {
                Some(a) => Some(attrs_patch_view(a)),
                None => None,
            },
            children: match children {
                Some(c) => {
                    proof {
                        assert(decreases_to!(c => c@));
                    }
                    Some(child_patches_view(c@))
                },
                None => None,
            },
        },
        Patch::NoOp => PatchView::NoOp,
    }
}

pub open spec fn child_patch_view(c: ChildPatch) -> ChildPatchView
    decreases c,
{
    match c {
        ChildPatch::Insert { index, node } => ChildPatchView::Insert { index: index as nat, node: node@ },
        ChildPatch::Remove { index } => ChildPatchView::Remove { index: index as nat },
        ChildPatch::Update { old_index, new_index, patch } => ChildPatchView::Update {
            old_index: old_index as nat,
            new_index: new_index as nat,
            patch: patch_view(*patch),
        },
    }
}

pub open spec fn child_patches_view(s: Seq<ChildPatch>) -> Seq<ChildPatchView>
    decreases s,
{
    if s.len() == 0 {
        Seq::empty()
    } else {
        proof {
            assert(decreases_to!(s => s.subrange(0, s.len() - 1)));
        }
        child_patches_view(s.drop_last()).push(child_patch_view(s.last()))
    }
}

pub proof fn lemma_child_patches_view(s: Seq<ChildPatch>)
    ensures
        child_patches_view(s).len() == s.len(),
        forall|i: int| 0 <= i < s.len() ==> #[trigger] child_patches_view(s)[i] == child_patch_view(s[i]),
    decreases s.len(),
{
    if s.len() > 0 {
        lemma_child_patches_view(s.drop_last());
    }
}

impl View for Patch {
    type V = PatchView;

    open spec fn view(&self) -> PatchView {
        patch_view(*self)
    }
}

impl View for ChildPatch {
    type V = ChildPatchView;

    open spec fn view(&self) -> ChildPatchView {
        child_patch_view(*self)
    }
}

impl View for AttrsPatch {
    type V = AttrsPatchView;

    open spec fn view(&self) -> AttrsPatchView {
        attrs_patch_view(*self)
    }
}

// ---------------------------------------------------------------------
// What `diff` computes.

/// The pairs of `new` whose name is unbound in `old` or bound to another value.
pub open spec fn attrs_to_set(old: Seq<AttrView>, new: Seq<AttrView>) -> Seq<AttrView>
    decreases new.len(),
{
    if new.len() == 0 {
        Seq::empty()
    } else {
        let rest = attrs_to_set(old, new.drop_last());
        let p = new.last();
        if attr_lookup(old, p.0) == Some(p.1) {
            rest
        } else {
            rest.push(p)
        }
    }
}

/// The names of `old` that `new` does not bind.
pub open spec fn attrs_to_remove(old: Seq<AttrView>, new: Seq<AttrView>) -> Seq<Seq<char>>
    decreases old.len(),
{
    if old.len() == 0 {
        Seq::empty()
    } else {
        let rest = attrs_to_remove(old.drop_last(), new);
        let p = old.last();
        if attr_lookup(new, p.0) is Some {
            rest
        } else {
            rest.push(p.0)
        }
    }
}

pub open spec fn spec_attrs_patch(old: Seq<AttrView>, new: Seq<AttrView>) -> Option<AttrsPatchView> {
    let set = attrs_to_set(old, new);
    let remove = attrs_to_remove(old, new);
    if set.len() == 0 && remove.len() == 0 {
        None
    } else {
        Some(AttrsPatchView { set, remove })
    }
}

/// Some old child carries key `k`.
pub open spec fn has_keyed(old: Seq<NodeView>, k: Seq<char>) -> bool {
    exists|i: int| 0 <= i < old.len() && #[trigger] key_of(old[i]) == Some(k)
}

/// The first old child from position `from` on that carries key `k` and
/// that no earlier new child has been matched with.
pub open spec fn first_unused_keyed(old: Seq<NodeView>, used: Set<nat>, k: Seq<char>, from: nat) -> Option<nat>
    decreases old.len() - from,
{
    if from >= old.len() {
        None
    } else if key_of(old[from as int]) == Some(k) && !used.contains(from) {
        Some(from)
    } else {
        first_unused_keyed(old, used, k, from + 1)
    }
}

/// The old child that the new child at `ni` is compared with, given the
/// old positions `used` by earlier new children. A child whose key some
/// old child carries takes the first unused old child with that key (none
/// if all are used); otherwise (no key, or a key no old child carries) it
/// takes the old child at the same position if that one has no key.
pub open spec fn matched_index(old: Seq<NodeView>, used: Set<nat>, child: NodeView, ni: nat) -> Option<nat> {
    match key_of(child) {
        Some(k) if has_keyed(old, k) => first_unused_keyed(old, used, k, 0),
        _ => if ni < old.len() && key_of(old[ni as int]) is None {
            Some(ni)
        } else {
            None
        },
    }
}

/// The first `n` new children, in order: the patches they give and the old
/// positions they have used up.
pub open spec fn children_scan(old: Seq<NodeView>, new: Seq<NodeView>, n: nat) -> (Seq<ChildPatchView>, Set<nat>)
    decreases old, n,
{
    if n == 0 || n > new.len() {
        (Seq::empty(), Set::empty())
    } else {
        let (ps, used) = children_scan(old, new, (n - 1) as nat);
        let ni = (n - 1) as nat;
        let child = new[ni as int];
        match matched_index(old, used, child, ni) {
            Some(oi) => if !used.contains(oi) && oi < old.len() {
                let inner = spec_diff(old[oi as int], child);
                let ps2 = if !(inner is NoOp) || oi != ni {
                    ps.push(ChildPatchView::Update { old_index: oi, new_index: ni, patch: inner })
                } else {
                    ps
                };
                (ps2, used.insert(oi))
            } else {
                (ps.push(ChildPatchView::Insert { index: ni, node: child }), used)
            },
            None => (ps.push(ChildPatchView::Insert { index: ni, node: child }), used),
        }
    }
}

/// Removal of every old position below `count` that nothing used, ascending.
pub open spec fn removals(count: nat, used: Set<nat>) -> Seq<ChildPatchView>
    decreases count,
{
    if count == 0 {
        Seq::empty()
    } else {
        let rest = removals((count - 1) as nat, used);
        if used.contains((count - 1) as nat) {
            rest
        } else {
            rest.push(ChildPatchView::Remove { index: (count - 1) as nat })
        }
    }
}

pub open spec fn spec_diff_children(old: Seq<NodeView>, new: Seq<NodeView>) -> Option<Seq<ChildPatchView>>
    decreases old, new.len() + 1,
{
    let (ps, used) = children_scan(old, new, new.len());
    let all = ps + removals(old.len(), used);
    if all.len() == 0 {
        None
    } else {
        Some(all)
    }
}

/// The in-place update of an element with attributes `oa` and children
/// `oc` into one with attributes `na` and children `nc`: the attribute
/// part and the children part, or `NoOp` when both are empty.
pub open spec fn spec_update_element(
    oa: Seq<AttrView>,
    oc: Seq<NodeView>,
    na: Seq<AttrView>,
    nc: Seq<NodeView>,
) -> PatchView
    decreases oc, nc.len() + 2,
{
    let attrs = spec_attrs_patch(oa, na);
    let children = spec_diff_children(oc, nc);
    if attrs is None && children is None {
        PatchView::NoOp
    } else {
        PatchView::UpdateElement { attrs, children }
    }
}

/// The patch that turns `old` into `new`.
pub open spec fn spec_diff(old: NodeView, new: NodeView) -> PatchView
    decreases old, 0int,
{
    match old {
        NodeView::Text(a) => match new {
            NodeView::Text(b) => if a == b {
                PatchView::NoOp
            } else {
                PatchView::UpdateText(b)
            },
            NodeView::Element { .. } => PatchView::Replace(new),
        },
        NodeView::Element { tag: ot, attrs: oa, key: ok, children: oc } => match new {
            NodeView::Element { tag: nt, attrs: na, key: nk, children: nc } => if ot == nt && ok == nk {
                spec_update_element(oa, oc, na, nc)
            } else {
                PatchView::Replace(new)
            },
            NodeView::Text(_) => PatchView::Replace(new),
        },
    }
}

/// An element update always carries a change: with neither an attribute
/// change nor a child change the diff is `NoOp`.
pub proof fn lemma_update_element_nonempty(old: NodeView, new: NodeView)
    ensures
        spec_diff(old, new) matches PatchView::UpdateElement { attrs, children } ==> attrs is Some || children is Some,
{
}

// ---------------------------------------------------------------------
// The computation.

fn opt_str_equal(a: &Option<String>, b: &Option<String>) -> (r: bool)
    ensures
        r == (opt_str_view(*a) == opt_str_view(*b)),
{
    match a {
        Some(x) => match b {
            Some(y) => *x == *y,
            None => false,
        },
        None => b.is_none(),
    }
}

/// The patch that turns `old` into `new`.
pub fn diff(old: &VNode, new: &VNode) -> (p: Patch)
    ensures
        p@ == spec_diff(old@, new@),
    decreases old,
{
    match old {
        VNode::Text(old_text) => match new {
            VNode::Text(new_text) => if *old_text == *new_text {
                Patch::NoOp
            } else {
                Patch::UpdateText(new_text.clone())
            },
            VNode::Element(_) => Patch::Replace(new.clone()),
        },
        VNode::Element(old_el) => match new {
            VNode::Element(new_el) => {
                if old_el.tag == new_el.tag && opt_str_equal(&old_el.key, &new_el.key) {
                    proof {
                        assert(decreases_to!(*old => (*old)->Element_0));
                    }
                    diff_element(old_el, new_el)
                } else {
                    Patch::Replace(new.clone())
                }
            },
            VNode::Text(_) => Patch::Replace(new.clone()),
        },
    }
}

/// The in-place update of `old_el` into `new_el`: attributes set or
/// removed, children patched.
fn diff_element(old_el: &VElement, new_el: &VElement) -> (p: Patch)
    ensures
        p@ == spec_update_element(
            old_el.attrs@,
            nodes_view(old_el.children@),
            new_el.attrs@,
            nodes_view(new_el.children@),
        ),
    decreases old_el,
{
    let ghost oa = old_el.attrs@;
    let ghost na = new_el.attrs@;
    let mut set: Vec<(String, String)> = Vec::new();
    let mut remove: Vec<String> = Vec::new();
    let new_entries = new_el.attrs.entries();
    let nn = new_entries.len();
    let mut i: usize = 0;
    while i < nn
        invariant
            nn == new_entries.len(),
            pairs_view(new_entries@) == na,
            oa == old_el.attrs@,
            i <= nn,
            pairs_view(set@) == attrs_to_set(oa, na.take(i as int)),
        decreases nn - i,
    {
        let name = &new_entries[i].0;
        let new_value = &new_entries[i].1;
        proof {
            assert(na.take(i + 1).drop_last() =~= na.take(i as int));
            assert(na.take(i + 1).last() == pair_view(new_entries@[i as int]));
        }
        let unchanged = match old_el.attrs.get(name.as_str()) {
            Some(old_value) => *old_value == *new_value,
            None => false,
        };
        if !unchanged {
            let ghost before = set@;
            set.push((name.clone(), new_value.clone()));
            proof {
                assert(pairs_view(set@) =~= pairs_view(before).push(pair_view(new_entries@[i as int])));
            }
        }
        i = i + 1;
    }
    proof {
        assert(na.take(nn as int) =~= na);
    }
    let old_entries = old_el.attrs.entries();
    let on = old_entries.len();
    let mut j: usize = 0;
    while j < on
        invariant
            on == old_entries.len(),
            pairs_view(old_entries@) == oa,
            na == new_el.attrs@,
            j <= on,
            strings_view(remove@) == attrs_to_remove(oa.take(j as int), na),
        decreases on - j,
    {
        let name = &old_entries[j].0;
        proof {
            assert(oa.take(j + 1).drop_last() =~= oa.take(j as int));
            assert(oa.take(j + 1).last() == pair_view(old_entries@[j as int]));
        }
        if !new_el.attrs.contains_key(name.as_str()) {
            let ghost before = remove@;
            remove.push(name.clone());
            proof {
                assert(strings_view(remove@) =~= strings_view(before).push(name@));
            }
        }
        j = j + 1;
    }
    proof {
        assert(oa.take(on as int) =~= oa);
    }
    let attrs = if set.len() == 0 && remove.len() == 0 {
        None
    } else {
        Some(AttrsPatch { set, remove })
    };
    proof {
        assert(decreases_to!(*old_el => old_el.children));
    }
    let children = diff_children(&old_el.children, &new_el.children);
    if attrs.is_none() && children.is_none() {
        Patch::NoOp
    } else {
        Patch::UpdateElement { attrs, children }
    }
}

/// Whether some old child carries key `k`, and the first one that does and
/// is not among the positions `used` (which stand for `used_view`).
fn find_keyed(old_children: &Vec<VNode>, used: &HashSet<usize>, k: &str, Ghost(used_view): Ghost<Set<nat>>) -> (r: (
    bool,
    Option<usize>,
))
    requires
        forall|m: nat| m < old_children.len() ==> (#[trigger] used_view.contains(m) <==> used@.contains(m as usize)),
    ensures
        r.0 == has_keyed(nodes_view(old_children@), k@),
        match r.1 {
            Some(i) => i < old_children.len() && first_unused_keyed(nodes_view(old_children@), used_view, k@, 0)
                == Some(i as nat),
            None => first_unused_keyed(nodes_view(old_children@), used_view, k@, 0) is None,
        },
{
    let ghost ov = nodes_view(old_children@);
    proof {
        lemma_nodes_view(old_children@);
    }
    let len = old_children.len();
    let mut found = false;
    let mut first: Option<usize> = None;
    let mut i: usize = 0;
    while i < len
        invariant
            len == old_children.len(),
            i <= len,
            ov == nodes_view(old_children@),
            ov.len() == len,
            forall|m: int| 0 <= m < ov.len() ==> #[trigger] ov[m] == node_view(old_children@[m]),
            forall|m: nat| m < old_children.len() ==> (#[trigger] used_view.contains(m) <==> used@.contains(m as usize)),
            found <==> exists|j: int| 0 <= j < i && #[trigger] key_of(ov[j]) == Some(k@),
            match first {
                Some(f) => f < i && first_unused_keyed(ov, used_view, k@, 0) == Some(f as nat),
                None => first_unused_keyed(ov, used_view, k@, 0) == first_unused_keyed(ov, used_view, k@, i as nat),
            },
        decreases len - i,
    {
        let matches = match old_children[i].key() {
            Some(ck) => crate::text::str_equal(ck, k),
            None => false,
        };
        proof {
            assert(ov[i as int] == old_children@[i as int]@);
            assert(matches == (key_of(ov[i as int]) == Some(k@)));
            assert(used_view.contains(i as nat) <==> used@.contains(i));
        }
        if matches {
            found = true;
            if first.is_none() && !used.contains(&i) {
                first = Some(i);
            }
        }
        i = i + 1;
    }
    (found, first)
}

/// Children with a key are matched by key (each with the first old child of
/// that key not yet matched), those without by position. This keeps the
/// diff correct without making the moves minimal.
fn diff_children(old_children: &Vec<VNode>, new_children: &Vec<VNode>) -> (r: Option<Vec<ChildPatch>>)
    ensures
        match r {
            Some(v) => spec_diff_children(nodes_view(old_children@), nodes_view(new_children@))
                == Some(child_patches_view(v@)),
            None => spec_diff_children(nodes_view(old_children@), nodes_view(new_children@)) is None,
        },
    decreases old_children,
{
    let ghost ov = nodes_view(old_children@);
    let ghost nv = nodes_view(new_children@);
    proof {
        lemma_nodes_view(old_children@);
        lemma_nodes_view(new_children@);
    }
    let on = old_children.len();
    let nn = new_children.len();
    let mut used: HashSet<usize> = HashSet::new();
    let mut patches: Vec<ChildPatch> = Vec::new();
    let mut ni: usize = 0;
    while ni < nn
        invariant
            on == old_children.len(),
            nn == new_children.len(),
            ov == nodes_view(old_children@),
            nv == nodes_view(new_children@),
            ov.len() == on,
            nv.len() == nn,
            forall|m: int| 0 <= m < ov.len() ==> #[trigger] ov[m] == node_view(old_children@[m]),
            forall|m: int| 0 <= m < nv.len() ==> #[trigger] nv[m] == node_view(new_children@[m]),
            ni <= nn,
            forall|x: usize| #[trigger] used@.contains(x) ==> x < on,
            children_scan(ov, nv, ni as nat).0 == child_patches_view(patches@),
            forall|m: nat| #[trigger] children_scan(ov, nv, ni as nat).1.contains(m) <==> (m < on && used@.contains(
                m as usize,
            )),
        decreases nn - ni,
    {
        let new_child = &new_children[ni];
        let ghost used_view = children_scan(ov, nv, ni as nat).1;
        let keyed = match new_child.key() {
            Some(key) => {
                let (any, first) = find_keyed(old_children, &used, key, Ghost(used_view));
                if any {
                    Some(first)
                } else {
                    None
                }
            },
            None => None,
        };
        let matched = match keyed {
            Some(r) => r,
            None => if ni < on && old_children[ni].key().is_none() {
                Some(ni)
            } else {
                None
            },
        };
        proof {
            assert(nv[ni as int] == new_child@);
            if ni < on {
                assert(ov[ni as int] == old_children@[ni as int]@);
            }
            assert(matched_index(ov, used_view, nv[ni as int], ni as nat) == match matched {
                Some(x) => Some(x as nat),
                None => None::<nat>,
            });
            if let Some(x) = matched {
                assert(x < on);
            }
        }
        let ghost prev = children_scan(ov, nv, ni as nat);
        let ghost before = patches@;
        let fresh = match matched {
            Some(oi) => !used.contains(&oi),
            None => false,
        };
        match matched {
            Some(oi) if fresh => {
                used.insert(oi);
                proof {
                    assert(decreases_to!(*old_children => old_children[oi as int]));
                    assert(ov[oi as int] == old_children@[oi as int]@);
                }
                let inner = diff(&old_children[oi], new_child);
                let is_noop = match inner {
                    Patch::NoOp => true,
                    _ => false,
                };
                if !is_noop || oi != ni {
                    patches.push(ChildPatch::Update { old_index: oi, new_index: ni, patch: Box::new(inner) });
                    proof {
                        lemma_child_patches_view(patches@);
                        lemma_child_patches_view(before);
                        assert(child_patches_view(patches@) =~= child_patches_view(before).push(
                            child_patch_view(patches@.last()),
                        ));
                    }
                } else {
                    proof {
                        assert(patches@ == before);
                    }
                }
                proof {
                    assert forall|m: nat| #[trigger] children_scan(ov, nv, (ni + 1) as nat).1.contains(m) <==> (m < on
                        && used@.contains(m as usize)) by {
                        assert(children_scan(ov, nv, (ni + 1) as nat).1 == prev.1.insert(oi as nat));
                    }
                }
            },
            _ => {
                let node = new_child.clone();
                patches.push(ChildPatch::Insert { index: ni, node });
                proof {
                    lemma_child_patches_view(patches@);
                    lemma_child_patches_view(before);
                    assert(child_patches_view(patches@) =~= child_patches_view(before).push(
                        child_patch_view(patches@.last()),
                    ));
                }
            },
        }
        ni = ni + 1;
    }
    let ghost scanned = children_scan(ov, nv, nn as nat);
    let mut oi: usize = 0;
    let ghost base = patches@;
    while oi < on
        invariant
            on == old_children.len(),
            oi <= on,
            forall|m: nat| #[trigger] scanned.1.contains(m) <==> (m < on && used@.contains(m as usize)),
            child_patches_view(patches@) == child_patches_view(base) + removals(oi as nat, scanned.1),
        decreases on - oi,
    {
        if !used.contains(&oi) {
            let ghost before = patches@;
            patches.push(ChildPatch::Remove { index: oi });
            proof {
                lemma_child_patches_view(patches@);
                lemma_child_patches_view(before);
                assert(child_patches_view(patches@) =~= child_patches_view(before).push(
                    ChildPatchView::Remove { index: oi as nat },
                ));
            }
        }
        oi = oi + 1;
    }
    proof {
        lemma_child_patches_view(patches@);
    }
    if patches.len() == 0 {
        None
    } else {
        Some(patches)
    }
}

} // verus!
