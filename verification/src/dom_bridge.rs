//! The concrete document tree that patches are applied to, and the bridge
//! between it and the virtual tree: turning a document into virtual nodes
//! (with the styles a stylesheet gives each element merged into its
//! attributes), and applying a `Patch` to the document.
//!
//! Comments have no virtual counterpart and are skipped when a document is
//! turned into virtual nodes, so sibling indices of the two trees agree
//! exactly for documents without comments.

use vstd::prelude::*;
use std::collections::{HashMap, HashSet};
use crate::attrs::{AttrView, AttrMap, pairs_view, pair_view, attrs_insert};
use crate::vnode::{VNode, VElement, NodeView, node_view, nodes_view, lemma_nodes_view, opt_str_view};
use crate::diff::{Patch, AttrsPatch, ChildPatch, PatchView, AttrsPatchView, ChildPatchView, patch_view,
    child_patch_view, child_patches_view, lemma_child_patches_view, strings_view, attrs_patch_view};

verus! {

broadcast use vstd::std_specs::hash::group_hash_axioms;

#[derive(Debug, PartialEq, Eq)]
pub struct DomAttribute {
    pub name: String,
    pub value: String,
}

#[derive(Debug, PartialEq, Eq)]
pub struct DomElement {
    pub tag_name: String,
    /// In document order; a name may occur more than once.
    pub attrs: Vec<DomAttribute>,
    pub children: Vec<DomNode>,
}

#[derive(Debug, PartialEq, Eq)]
pub enum DomNode {
    Element(DomElement),
    Text(String),
    Comment(String),
}

#[derive(Debug, PartialEq, Eq)]
pub struct DomDocument {
    pub children: Vec<DomNode>,
}

/// A document node as the specifications see it.
pub enum DomView {
    Element { tag: Seq<char>, attrs: Seq<AttrView>, children: Seq<DomView> },
    Text(Seq<char>),
    Comment(Seq<char>),
}

pub open spec fn dom_attrs_view(v: Seq<DomAttribute>) -> Seq<AttrView> {
    v.map_values(|a: DomAttribute| (a.name@, a.value@))
}

pub open spec fn dom_view(n: DomNode) -> DomView
    decreases n,
{
    match n {
        DomNode::Text(t) => DomView::Text(t@),
        DomNode::Comment(t) => DomView::Comment(t@),
        DomNode::Element(el) => {
            proof {
                assert(decreases_to!(el => el.children));
                assert(decreases_to!(el.children => el.children@));
            }
            DomView::Element {
                tag: el.tag_name@,
                attrs: dom_attrs_view(el.attrs@),
                children: doms_view(el.children@),
            }
        },
    }
}

pub open spec fn doms_view(s: Seq<DomNode>) -> Seq<DomView>
    decreases s,
{
    if s.len() == 0 {
        Seq::empty()
    } else {
        proof {
            assert(decreases_to!(s => s.subrange(0, s.len() - 1)));
        }
        doms_view(s.drop_last()).push(dom_view(s.last()))
    }
}

pub proof fn lemma_doms_view(s: Seq<DomNode>)
    ensures
        doms_view(s).len() == s.len(),
        forall|i: int| 0 <= i < s.len() ==> #[trigger] doms_view(s)[i] == dom_view(s[i]),
    decreases s.len(),
{
    if s.len() > 0 {
        lemma_doms_view(s.drop_last());
    }
}

impl DomElement {
    /// The value of the first attribute named `name`.
    pub fn attr(&self, name: &str) -> (r: Option<&str>)
        ensures
            match first_attr_index(dom_attrs_view(self.attrs@), name@) {
                Some(i) => r matches Some(v) && v@ == self.attrs@[i as int].value@,
                None => r is None,
            },
    {
        let ghost a = dom_attrs_view(self.attrs@);
        let n = self.attrs.len();
        let mut i: usize = 0;
        while i < n
            invariant
                n == self.attrs.len(),
                a == dom_attrs_view(self.attrs@),
                i <= n,
                first_attr_index(a.take(i as int), name@) is None,
            decreases n - i,
        {
            proof {
                assert(a.take(i + 1).drop_last() =~= a.take(i as int));
            }
            if crate::text::str_equal(self.attrs[i].name.as_str(), name) {
                proof {
                    lemma_first_attr_index_prefix(a, i + 1, name@);
                }
                return Some(self.attrs[i].value.as_str());
            }
            i = i + 1;
        }
        proof {
            assert(a.take(n as int) =~= a);
        }
        None
    }
}

impl View for DomNode {
    type V = DomView;

    open spec fn view(&self) -> DomView {
        dom_view(*self)
    }
}

impl Clone for DomNode {
    fn clone(&self) -> (r: DomNode)
        ensures
            r@ == self@,
        decreases self,
    {
        match self {
            DomNode::Text(t) => DomNode::Text(t.clone()),
            DomNode::Comment(t) => DomNode::Comment(t.clone()),
            DomNode::Element(el) => {
                let mut attrs: Vec<DomAttribute> = Vec::new();
                let na = el.attrs.len();
                let mut k: usize = 0;
                while k < na
                    invariant
                        na == el.attrs.len(),
                        k <= na,
                        dom_attrs_view(attrs@) =~= dom_attrs_view(el.attrs@).take(k as int),
                    decreases na - k,
                {
                    let ghost before = attrs@;
                    attrs.push(DomAttribute { name: el.attrs[k].name.clone(), value: el.attrs[k].value.clone() });
                    proof {
                        assert(dom_attrs_view(attrs@) =~= dom_attrs_view(before).push(
                            dom_attrs_view(el.attrs@)[k as int],
                        ));
                    }
                    k = k + 1;
                }
                proof {
                    assert(dom_attrs_view(el.attrs@).take(na as int) =~= dom_attrs_view(el.attrs@));
                }
                let n = el.children.len();
                let mut children: Vec<DomNode> = Vec::new();
                let mut i: usize = 0;
                while i < n
                    invariant
                        *self == DomNode::Element(*el),
                        n == el.children.len(),
                        i <= n,
                        children@.len() == i,
                        forall|j: int| 0 <= j < i ==> (#[trigger] children@[j])@ == el.children@[j]@,
                    decreases n - i,
                {
                    proof {
                        assert(decreases_to!(*self => (*self)->Element_0));
                        assert(decreases_to!(*el => el.children));
                        assert(decreases_to!(el.children => el.children[i as int]));
                    }
                    let c = el.children[i].clone();
                    children.push(c);
                    i = i + 1;
                }
                proof {
                    lemma_doms_view(children@);
                    lemma_doms_view(el.children@);
                    assert(doms_view(children@) =~= doms_view(el.children@));
                }
                DomNode::Element(DomElement { tag_name: el.tag_name.clone(), attrs, children })
            },
        }
    }
}

// ---------------------------------------------------------------------
// From virtual nodes to document nodes.

/// The document node that a virtual node stands for.
pub open spec fn to_dom(n: NodeView) -> DomView
    decreases n, 0int,
{
    match n {
        NodeView::Text(t) => DomView::Text(t),
        NodeView::Element { tag, attrs, children, .. } => DomView::Element {
            tag,
            attrs,
            children: to_doms(children, children.len()),
        },
    }
}

/// The document nodes for the first `k` of `s`.
pub open spec fn to_doms(s: Seq<NodeView>, k: nat) -> Seq<DomView>
    decreases s, k,
{
    if k == 0 || k > s.len() {
        Seq::empty()
    } else {
        to_doms(s, (k - 1) as nat).push(to_dom(s[k - 1]))
    }
}

pub proof fn lemma_to_doms(s: Seq<NodeView>, k: nat)
    requires
        k <= s.len(),
    ensures
        to_doms(s, k).len() == k,
        forall|i: int| 0 <= i < k ==> #[trigger] to_doms(s, k)[i] == to_dom(s[i]),
    decreases k,
{
    if k > 0 {
        lemma_to_doms(s, (k - 1) as nat);
    }
}

// ---------------------------------------------------------------------
// What applying a patch does.

/// The first attribute that carries `name`.
pub open spec fn first_attr_index(attrs: Seq<AttrView>, name: Seq<char>) -> Option<nat>
    decreases attrs.len(),
{
    if attrs.len() == 0 {
        None
    } else {
        match first_attr_index(attrs.drop_last(), name) {
            Some(i) => Some(i),
            None => if attrs.last().0 == name {
                Some((attrs.len() - 1) as nat)
            } else {
                None
            },
        }
    }
}

/// Sets one attribute: the first one of that name gets the value, or the
/// pair is appended.
pub open spec fn set_attr(attrs: Seq<AttrView>, p: AttrView) -> Seq<AttrView> {
    match first_attr_index(attrs, p.0) {
        Some(i) => attrs.update(i as int, (attrs[i as int].0, p.1)),
        None => attrs.push(p),
    }
}

pub open spec fn set_attrs(attrs: Seq<AttrView>, set: Seq<AttrView>) -> Seq<AttrView>
    decreases set.len(),
{
    if set.len() == 0 {
        attrs
    } else {
        set_attr(set_attrs(attrs, set.drop_last()), set.last())
    }
}

/// The attributes whose name is not in `remove`, in their order.
pub open spec fn drop_removed(attrs: Seq<AttrView>, remove: Seq<Seq<char>>) -> Seq<AttrView>
    decreases attrs.len(),
{
    if attrs.len() == 0 {
        attrs
    } else {
        let rest = drop_removed(attrs.drop_last(), remove);
        if remove.contains(attrs.last().0) {
            rest
        } else {
            rest.push(attrs.last())
        }
    }
}

pub open spec fn apply_attrs(attrs: Seq<AttrView>, ap: AttrsPatchView) -> Seq<AttrView> {
    drop_removed(set_attrs(attrs, ap.set), ap.remove)
}

/// The positions that the `Insert` patches name, in order.
pub open spec fn insert_indices(cps: Seq<ChildPatchView>) -> Seq<nat>
    decreases cps.len(),
{
    if cps.len() == 0 {
        Seq::empty()
    } else {
        let rest = insert_indices(cps.drop_last());
        match cps.last() {
            ChildPatchView::Insert { index, .. } => rest.push(index),
            _ => rest,
        }
    }
}

/// The positions that the `Remove` patches name, in order.
pub open spec fn remove_indices(cps: Seq<ChildPatchView>) -> Seq<nat>
    decreases cps.len(),
{
    if cps.len() == 0 {
        Seq::empty()
    } else {
        let rest = remove_indices(cps.drop_last());
        match cps.last() {
            ChildPatchView::Remove { index } => rest.push(index),
            _ => rest,
        }
    }
}

/// The number of children after the patches: the old ones, plus one per
/// position inserted at, less one per position removed.
pub open spec fn children_final_len(old_len: nat, cps: Seq<ChildPatchView>) -> int {
    old_len + insert_indices(cps).to_set().len() - remove_indices(cps).to_set().len()
}

/// The last `Insert` at position `ni`.
pub open spec fn last_insert_index(cps: Seq<ChildPatchView>, ni: nat) -> Option<int>
    decreases cps.len(),
{
    if cps.len() == 0 {
        None
    } else if cps.last() matches ChildPatchView::Insert { index, .. } && index == ni {
        Some(cps.len() - 1)
    } else {
        last_insert_index(cps.drop_last(), ni)
    }
}

/// The last `Update` to position `ni`.
pub open spec fn last_update_index(cps: Seq<ChildPatchView>, ni: nat) -> Option<int>
    decreases cps.len(),
{
    if cps.len() == 0 {
        None
    } else if cps.last() matches ChildPatchView::Update { new_index, .. } && new_index == ni {
        Some(cps.len() - 1)
    } else {
        last_update_index(cps.drop_last(), ni)
    }
}

/// The child at position `ni` after the patches: the node inserted there;
/// else the old child that is updated into it; else the old child at that
/// position, untouched.
pub open spec fn child_after(dc: Seq<DomView>, cps: Seq<ChildPatchView>, ni: nat) -> DomView
    decreases cps, ni,
{
    match last_insert_index(cps, ni) {
        Some(j) => if 0 <= j < cps.len() {
            match cps[j] {
                ChildPatchView::Insert { node, .. } => to_dom(node),
                _ => dc[ni as int],
            }
        } else {
            dc[ni as int]
        },
        None => match last_update_index(cps, ni) {
            Some(j) => if 0 <= j < cps.len() {
                match cps[j] {
                    ChildPatchView::Update { old_index, patch, .. } => spec_apply(dc[old_index as int], patch),
                    _ => dc[ni as int],
                }
            } else {
                dc[ni as int]
            },
            None => dc[ni as int],
        },
    }
}

/// The first `n` children after the patches.
pub open spec fn apply_children(dc: Seq<DomView>, cps: Seq<ChildPatchView>, n: nat) -> Seq<DomView>
    decreases cps, n,
{
    if n == 0 {
        Seq::empty()
    } else {
        apply_children(dc, cps, (n - 1) as nat).push(child_after(dc, cps, (n - 1) as nat))
    }
}

/// The document node after applying `p` to `d`. A patch of another kind of
/// node than `d` leaves `d` as it is.
pub open spec fn spec_apply(d: DomView, p: PatchView) -> DomView
    decreases p, 0int,
{
    match p {
        PatchView::NoOp => d,
        PatchView::Replace(n) => to_dom(n),
        PatchView::UpdateText(t) => match d {
            DomView::Text(_) => DomView::Text(t),
            _ => d,
        },
        PatchView::UpdateElement { attrs, children } => match d {
            DomView::Element { tag, attrs: da, children: dc } => DomView::Element {
                tag,
                attrs: match attrs {
                    Some(ap) => apply_attrs(da, ap),
                    None => da,
                },
                children: match children {
                    Some(cps) => apply_children(dc, cps, children_final_len(dc.len(), cps) as nat),
                    None => dc,
                },
            },
            _ => d,
        },
    }
}

/// Whether position `ni` can be filled without reading past the old
/// children.
pub open spec fn position_ok(dc: Seq<DomView>, cps: Seq<ChildPatchView>, ni: nat) -> bool
    decreases cps, ni,
{
    match last_insert_index(cps, ni) {
        Some(_) => true,
        None => match last_update_index(cps, ni) {
            Some(j) => 0 <= j < cps.len() && match cps[j] {
                ChildPatchView::Update { old_index, patch, .. } => old_index < dc.len() && applicable(
                    dc[old_index as int],
                    patch,
                ),
                _ => false,
            },
            None => ni < dc.len(),
        },
    }
}

/// Whether the first `n` positions can be filled without reading past the
/// old children.
pub open spec fn children_applicable(dc: Seq<DomView>, cps: Seq<ChildPatchView>, n: nat) -> bool
    decreases cps, n,
{
    if n == 0 {
        true
    } else {
        children_applicable(dc, cps, (n - 1) as nat) && position_ok(dc, cps, (n - 1) as nat)
    }
}

proof fn lemma_children_applicable_at(dc: Seq<DomView>, cps: Seq<ChildPatchView>, n: nat, ni: nat)
    requires
        ni < n,
        children_applicable(dc, cps, n),
    ensures
        position_ok(dc, cps, ni),
    decreases n,
{
    if ni + 1 < n {
        lemma_children_applicable_at(dc, cps, (n - 1) as nat, ni);
    }
}

/// Whether applying `p` to `d` stays within `d`'s children: every
/// position is filled from an insert, an update of an existing old child, or
/// an existing old child, and the count does not go below zero.
pub open spec fn applicable(d: DomView, p: PatchView) -> bool
    decreases p, 0int,
{
    match p {
        PatchView::UpdateElement { children: Some(cps), .. } => match d {
            DomView::Element { children: dc, .. } => {
                &&& 0 <= children_final_len(dc.len(), cps) <= usize::MAX
                &&& children_applicable(dc, cps, children_final_len(dc.len(), cps) as nat)
            },
            _ => true,
        },
        _ => true,
    }
}

// ---------------------------------------------------------------------
// Applying a patch.

/// The document node for a virtual node (used where `Replace` and `Insert`
/// bring new nodes into the document).
pub fn vnode_to_node(vnode: &VNode) -> (d: DomNode)
    ensures
        d@ == to_dom(vnode@),
    decreases vnode,
{
    match vnode {
        VNode::Text(text) => DomNode::Text(text.clone()),
        VNode::Element(el) => {
            let entries = el.attrs.entries();
            let na = entries.len();
            let mut attrs: Vec<DomAttribute> = Vec::new();
            let mut k: usize = 0;
            while k < na
                invariant
                    na == entries.len(),
                    k <= na,
                    dom_attrs_view(attrs@) =~= pairs_view(entries@).take(k as int),
                decreases na - k,
            {
                let ghost before = attrs@;
                attrs.push(DomAttribute { name: entries[k].0.clone(), value: entries[k].1.clone() });
                proof {
                    assert(dom_attrs_view(attrs@) =~= dom_attrs_view(before).push(pair_view(entries@[k as int])));
                }
                k = k + 1;
            }
            proof {
                assert(pairs_view(entries@).take(na as int) =~= pairs_view(entries@));
            }
            let n = el.children.len();
            let mut children: Vec<DomNode> = Vec::new();
            let mut i: usize = 0;
            while i < n
                invariant
                    *vnode == VNode::Element(*el),
                    n == el.children.len(),
                    i <= n,
                    children@.len() == i,
                    forall|j: int| 0 <= j < i ==> (#[trigger] children@[j])@ == to_dom(el.children@[j]@),
                decreases n - i,
            {
                proof {
                    assert(decreases_to!(*vnode => (*vnode)->Element_0));
                    assert(decreases_to!(*el => el.children));
                    assert(decreases_to!(el.children => el.children[i as int]));
                }
                let c = vnode_to_node(&el.children[i]);
                children.push(c);
                i = i + 1;
            }
            proof {
                let cv = nodes_view(el.children@);
                lemma_doms_view(children@);
                lemma_nodes_view(el.children@);
                lemma_to_doms(cv, cv.len());
                assert(doms_view(children@) =~= to_doms(cv, cv.len()));
            }
            DomNode::Element(DomElement { tag_name: el.tag.clone(), attrs, children })
        },
    }
}

proof fn lemma_first_attr_index_prefix(a: Seq<AttrView>, k: int, name: Seq<char>)
    requires
        0 <= k <= a.len(),
        first_attr_index(a.take(k), name) is Some,
    ensures
        first_attr_index(a, name) == first_attr_index(a.take(k), name),
    decreases a.len() - k,
{
    if k < a.len() {
        assert(a.take(k + 1).drop_last() =~= a.take(k));
        lemma_first_attr_index_prefix(a, k + 1, name);
    } else {
        assert(a.take(k) =~= a);
    }
}

fn apply_attrs_patch(attrs: &mut Vec<DomAttribute>, patch: &AttrsPatch)
    ensures
        dom_attrs_view(final(attrs)@) == apply_attrs(dom_attrs_view(old(attrs)@), patch@),
{
    let ghost start = dom_attrs_view(attrs@);
    let ghost setv = pairs_view(patch.set@);
    let ns = patch.set.len();
    let mut s: usize = 0;
    while s < ns
        invariant
            ns == patch.set.len(),
            setv == pairs_view(patch.set@),
            s <= ns,
            dom_attrs_view(attrs@) == set_attrs(start, setv.take(s as int)),
        decreases ns - s,
    {
        let name = &patch.set[s].0;
        let value = &patch.set[s].1;
        proof {
            assert(setv.take(s + 1).drop_last() =~= setv.take(s as int));
        }
        let ghost cur = dom_attrs_view(attrs@);
        let n = attrs.len();
        let mut i: usize = 0;
        while i < n
            invariant
                n == attrs.len(),
                cur == dom_attrs_view(attrs@),
                i <= n,
                first_attr_index(cur.take(i as int), name@) is None,
            ensures
                n == attrs.len(),
                cur == dom_attrs_view(attrs@),
                i <= n,
                i < n ==> first_attr_index(cur.take(i + 1), name@) == Some(i as nat),
                i == n ==> first_attr_index(cur.take(i as int), name@) is None,
            decreases n - i,
        {
            proof {
                assert(cur.take(i + 1).drop_last() =~= cur.take(i as int));
            }
            if attrs[i].name == *name {
                break;
            }
            i = i + 1;
        }
        if i < n {
            proof {
                lemma_first_attr_index_prefix(cur, i + 1, name@);
            }
            let old_name = attrs[i].name.clone();
            attrs.set(i, DomAttribute { name: old_name, value: value.clone() });
            proof {
                assert(dom_attrs_view(attrs@) =~= set_attr(cur, setv[s as int]));
            }
        } else {
            proof {
                assert(cur.take(n as int) =~= cur);
            }
            attrs.push(DomAttribute { name: name.clone(), value: value.clone() });
            proof {
                assert(dom_attrs_view(attrs@) =~= set_attr(cur, setv[s as int]));
            }
        }
        s = s + 1;
    }
    proof {
        assert(setv.take(ns as int) =~= setv);
    }
    if patch.remove.len() > 0 {
        let ghost mid = dom_attrs_view(attrs@);
        let ghost rem = strings_view(patch.remove@);
        let mut kept: Vec<DomAttribute> = Vec::new();
        let mut rest: Vec<DomAttribute> = Vec::new();
        std::mem::swap(&mut rest, attrs);
        let n = rest.len();
        let mut i: usize = 0;
        while i < n
            invariant
                n == rest.len(),
                mid == dom_attrs_view(rest@),
                rem == strings_view(patch.remove@),
                i <= n,
                dom_attrs_view(kept@) == drop_removed(mid.take(i as int), rem),
            decreases n - i,
        {
            proof {
                assert(mid.take(i + 1).drop_last() =~= mid.take(i as int));
            }
            let mut listed = false;
            let nr = patch.remove.len();
            let mut r: usize = 0;
            while r < nr
                invariant
                    nr == patch.remove.len(),
                    rem == strings_view(patch.remove@),
                    n == rest.len(),
                    i < n,
                    r <= nr,
                    listed == exists|q: int| 0 <= q < r && rem[q] == rest@[i as int].name@,
                decreases nr - r,
            {
                proof {
                    assert(rem[r as int] == patch.remove@[r as int]@);
                }
                if patch.remove[r] == rest[i].name {
                    listed = true;
                }
                proof {
                    if listed {
                        assert(0 <= r < r + 1 && rem[r as int] == rest@[i as int].name@ || exists|q: int|
                            0 <= q < r && rem[q] == rest@[i as int].name@);
                    }
                }
                r = r + 1;
            }
            proof {
                assert(mid.take(i + 1).last() == (rest@[i as int].name@, rest@[i as int].value@));
                if rem.contains(rest@[i as int].name@) {
                    let q = choose|q: int| 0 <= q < rem.len() && rem[q] == rest@[i as int].name@;
                    assert(0 <= q < nr);
                }
            }
            if !listed {
                let ghost before = kept@;
                kept.push(DomAttribute { name: rest[i].name.clone(), value: rest[i].value.clone() });
                proof {
                    assert(dom_attrs_view(kept@) =~= dom_attrs_view(before).push(mid.take(i + 1).last()));
                }
            }
            i = i + 1;
        }
        proof {
            assert(mid.take(n as int) =~= mid);
        }
        *attrs = kept;
    } else {
        proof {
            let a = dom_attrs_view(attrs@);
            assert(drop_removed(a, strings_view(patch.remove@)) =~= a) by {
                lemma_drop_none(a, strings_view(patch.remove@));
            }
        }
    }
}

proof fn lemma_drop_none(a: Seq<AttrView>, remove: Seq<Seq<char>>)
    requires
        remove.len() == 0,
    ensures
        drop_removed(a, remove) == a,
    decreases a.len(),
{
    if a.len() > 0 {
        lemma_drop_none(a.drop_last(), remove);
        assert(a.drop_last().push(a.last()) =~= a);
    }
}

/// The child patches by position: for each position the last `Insert` at
/// it and the last `Update` into it (as indices into the patches), and the
/// positions removed.
struct PatchIndex {
    inserts: HashMap<usize, usize>,
    updates: HashMap<usize, usize>,
    removed: HashSet<usize>,
}

/// Some `Insert` names position `ni` exactly when there is a last one.
proof fn lemma_insert_named(cps: Seq<ChildPatchView>, ni: nat)
    ensures
        insert_indices(cps).contains(ni) <==> last_insert_index(cps, ni) is Some,
    decreases cps.len(),
{
    if cps.len() > 0 {
        let t = cps.drop_last();
        lemma_insert_named(t, ni);
        let ii = insert_indices(t);
        if let ChildPatchView::Insert { index, .. } = cps.last() {
            assert(insert_indices(cps) == ii.push(index));
            if index != ni && ii.push(index).contains(ni) {
                let q = choose|q: int| 0 <= q < ii.push(index).len() && ii.push(index)[q] == ni;
                assert(ii[q] == ni);
            }
            if index == ni {
                assert(ii.push(index)[ii.len() as int] == ni);
            }
            if ii.contains(ni) {
                let q = choose|q: int| 0 <= q < ii.len() && ii[q] == ni;
                assert(ii.push(index)[q] == ni);
            }
        } else {
            assert(insert_indices(cps) == ii);
        }
    }
}

/// What `index_patches` has gathered from the first `k` patches.
spec fn index_holds(ix: PatchIndex, cps: Seq<ChildPatchView>, k: nat) -> bool {
    let t = cps.take(k as int);
    &&& forall|x: usize| #[trigger] ix.inserts@.contains_key(x) <==> last_insert_index(t, x as nat) is Some
    &&& forall|x: usize| ix.inserts@.contains_key(x) ==> last_insert_index(t, x as nat) == Some(
        #[trigger] ix.inserts@[x] as int,
    )
    &&& forall|x: usize| #[trigger] ix.updates@.contains_key(x) <==> last_update_index(t, x as nat) is Some
    &&& forall|x: usize| ix.updates@.contains_key(x) ==> last_update_index(t, x as nat) == Some(
        #[trigger] ix.updates@[x] as int,
    )
    &&& forall|x: usize| #[trigger] ix.removed@.contains(x) <==> remove_indices(t).contains(x as nat)
    &&& ix.inserts@.dom().finite()
    &&& ix.removed@.finite()
    &&& ix.inserts@.len() == insert_indices(t).to_set().len()
    &&& ix.removed@.len() == remove_indices(t).to_set().len()
}

/// Gathers the child patches by position, a later patch for a position
/// replacing an earlier one.
fn index_patches(patches: &Vec<ChildPatch>) -> (ix: PatchIndex)
    ensures
        index_holds(ix, child_patches_view(patches@), patches.len() as nat),
{
    let ghost cps = child_patches_view(patches@);
    proof {
        lemma_child_patches_view(patches@);
    }
    let mut ix = PatchIndex { inserts: HashMap::new(), updates: HashMap::new(), removed: HashSet::new() };
    proof {
        assert(cps.take(0) =~= Seq::<ChildPatchView>::empty());
        assert(insert_indices(cps.take(0)).to_set() =~= Set::<nat>::empty());
        assert(remove_indices(cps.take(0)).to_set() =~= Set::<nat>::empty());
        assert(ix.inserts@.dom() =~= Set::<usize>::empty());
    }
    let mut k: usize = 0;
    while k < patches.len()
        invariant
            k <= patches.len(),
            cps == child_patches_view(patches@),
            cps.len() == patches.len(),
            forall|m: int| 0 <= m < cps.len() ==> #[trigger] cps[m] == child_patch_view(patches@[m]),
            index_holds(ix, cps, k as nat),
        decreases patches.len() - k,
    {
        let ghost t = cps.take(k as int);
        let ghost t1 = cps.take(k + 1);
        let ghost before = ix;
        proof {
            assert(t1.drop_last() =~= t);
            assert(t1.last() == cps[k as int]);
            vstd::seq_lib::seq_to_set_is_finite(insert_indices(t));
            vstd::seq_lib::seq_to_set_is_finite(remove_indices(t));
        }
        match &patches[k] {
            ChildPatch::Insert { index, .. } => {
                let x = *index;
                proof {
                    lemma_insert_named(t, x as nat);
                    assert(insert_indices(t1) == insert_indices(t).push(x as nat));
                    insert_indices(t).lemma_push_to_set_commute(x as nat);
                    assert(ix.inserts@.dom().insert(x).len() == ix.inserts@.dom().len() + if ix.inserts@.dom().contains(x) {
                        0int
                    } else {
                        1int
                    });
                    assert(ix.inserts@.insert(x, k).dom() =~= ix.inserts@.dom().insert(x));
                }
                ix.inserts.insert(x, k);
                proof {
                    assert(remove_indices(t1) == remove_indices(t));
                    assert forall|y: usize| #[trigger] ix.inserts@.contains_key(y) <==> last_insert_index(t1, y as nat) is Some by {}
                }
            },
            ChildPatch::Update { new_index, .. } => {
                let x = *new_index;
                ix.updates.insert(x, k);
                proof {
                    assert(insert_indices(t1) == insert_indices(t));
                    assert(remove_indices(t1) == remove_indices(t));
                }
            },
            ChildPatch::Remove { index } => {
                let x = *index;
                proof {
                    assert(remove_indices(t1) == remove_indices(t).push(x as nat));
                    remove_indices(t).lemma_push_to_set_commute(x as nat);
                    assert(remove_indices(t).to_set().contains(x as nat) == remove_indices(t).contains(x as nat));
                }
                ix.removed.insert(x);
                proof {
                    assert(insert_indices(t1) == insert_indices(t));
                    assert forall|y: usize| #[trigger] ix.removed@.contains(y) <==> remove_indices(t1).contains(y as nat) by {
                        let r = remove_indices(t);
                        if y != x && r.push(x as nat).contains(y as nat) {
                            let q = choose|q: int| 0 <= q < r.push(x as nat).len() && r.push(x as nat)[q] == y as nat;
                            assert(r[q] == y as nat);
                        }
                        if y == x {
                            assert(r.push(x as nat)[r.len() as int] == y as nat);
                        }
                        if r.contains(y as nat) {
                            let q = choose|q: int| 0 <= q < r.len() && r[q] == y as nat;
                            assert(r.push(x as nat)[q] == y as nat);
                        }
                    }
                }
            },
        }
        k = k + 1;
    }
    ix
}

proof fn lemma_last_insert_index(cps: Seq<ChildPatchView>, ni: nat)
    ensures
        last_insert_index(cps, ni) matches Some(j) ==> (0 <= j < cps.len() && (cps[j] matches ChildPatchView::Insert {
            index,
            ..
        } && index == ni)),
    decreases cps.len(),
{
    if cps.len() > 0 {
        lemma_last_insert_index(cps.drop_last(), ni);
    }
}

proof fn lemma_last_update_index(cps: Seq<ChildPatchView>, ni: nat)
    ensures
        last_update_index(cps, ni) matches Some(j) ==> (0 <= j < cps.len() && (cps[j] matches ChildPatchView::Update {
            new_index,
            ..
        } && new_index == ni)),
    decreases cps.len(),
{
    if cps.len() > 0 {
        lemma_last_update_index(cps.drop_last(), ni);
    }
}

fn apply_children_patches(children: &mut Vec<DomNode>, patches: &Vec<ChildPatch>)
    requires
        applicable(
            DomView::Element { tag: Seq::empty(), attrs: Seq::empty(), children: doms_view(old(children)@) },
            PatchView::UpdateElement { attrs: None, children: Some(child_patches_view(patches@)) },
        ),
    ensures
        doms_view(final(children)@) == apply_children(
            doms_view(old(children)@),
            child_patches_view(patches@),
            children_final_len(old(children)@.len(), child_patches_view(patches@)) as nat,
        ),
    decreases patches,
{
    let ghost dc = doms_view(children@);
    let ghost cps = child_patches_view(patches@);
    proof {
        lemma_doms_view(children@);
        lemma_child_patches_view(patches@);
    }
    let mut old_snapshot: Vec<DomNode> = Vec::new();
    std::mem::swap(&mut old_snapshot, children);
    let ix = index_patches(patches);
    proof {
        assert(cps.take(cps.len() as int) =~= cps);
    }
    let inserted = ix.inserts.len();
    let removed = ix.removed.len();
    let final_len = if inserted >= removed {
        old_snapshot.len() + (inserted - removed)
    } else {
        old_snapshot.len() - (removed - inserted)
    };
    let mut result: Vec<DomNode> = Vec::new();
    let mut ni: usize = 0;
    while ni < final_len
        invariant
            dc == doms_view(old_snapshot@),
            cps == child_patches_view(patches@),
            dc.len() == old_snapshot.len(),
            cps.len() == patches.len(),
            forall|m: int| 0 <= m < dc.len() ==> #[trigger] dc[m] == dom_view(old_snapshot@[m]),
            forall|m: int| 0 <= m < cps.len() ==> #[trigger] cps[m] == child_patch_view(patches@[m]),
            final_len == children_final_len(dc.len(), cps),
            children_applicable(dc, cps, final_len as nat),
            index_holds(ix, cps, cps.len()),
            cps.take(cps.len() as int) == cps,
            ni <= final_len,
            doms_view(result@) == apply_children(dc, cps, ni as nat),
        decreases final_len - ni,
    {
        proof {
            lemma_children_applicable_at(dc, cps, final_len as nat, ni as nat);
            lemma_last_insert_index(cps, ni as nat);
            lemma_last_update_index(cps, ni as nat);
        }
        let ghost before = result@;
        match ix.inserts.get(&ni) {
            Some(j) => {
                let j = *j;
                match &patches[j] {
                    ChildPatch::Insert { node, .. } => {
                        let d = vnode_to_node(node);
                        result.push(d);
                    },
                    _ => {
                        assert(false);
                    },
                }
            },
            None => match ix.updates.get(&ni) {
                Some(j) => {
                    let j = *j;
                    match &patches[j] {
                        ChildPatch::Update { old_index, patch, .. } => {
                            let mut moved = old_snapshot[*old_index].clone();
                            proof {
                                assert(decreases_to!(*patches => patches[j as int]));
                                assert(decreases_to!(patches[j as int] => patches[j as int]->patch));
                            }
                            apply_patch(&mut moved, patch);
                            result.push(moved);
                        },
                        _ => {
                            assert(false);
                        },
                    }
                },
                None => {
                    let d = old_snapshot[ni].clone();
                    result.push(d);
                },
            },
        }
        proof {
            lemma_doms_view(result@);
            lemma_doms_view(before);
            assert(doms_view(result@) =~= doms_view(before).push(dom_view(result@.last())));
            assert(dom_view(result@.last()) == child_after(dc, cps, ni as nat));
            assert(apply_children(dc, cps, (ni + 1) as nat) == apply_children(dc, cps, ni as nat).push(
                child_after(dc, cps, ni as nat),
            ));
        }
        ni = ni + 1;
    }
    *children = result;
}

fn children_can_apply(children: &Vec<DomNode>, patches: &Vec<ChildPatch>) -> (b: bool)
    ensures
        b == applicable(
            DomView::Element { tag: Seq::empty(), attrs: Seq::empty(), children: doms_view(children@) },
            PatchView::UpdateElement { attrs: None, children: Some(child_patches_view(patches@)) },
        ),
    decreases patches,
{
    let ghost dc = doms_view(children@);
    let ghost cps = child_patches_view(patches@);
    proof {
        lemma_doms_view(children@);
        lemma_child_patches_view(patches@);
    }
    let ix = index_patches(patches);
    proof {
        assert(cps.take(cps.len() as int) =~= cps);
    }
    let inserted = ix.inserts.len();
    let removed = ix.removed.len();
    let old_len = children.len();
    let final_len = if inserted >= removed {
        if old_len > usize::MAX - (inserted - removed) {
            return false;
        }
        old_len + (inserted - removed)
    } else {
        if removed - inserted > old_len {
            return false;
        }
        old_len - (removed - inserted)
    };
    let mut ni: usize = 0;
    while ni < final_len
        invariant
            dc == doms_view(children@),
            cps == child_patches_view(patches@),
            dc.len() == children.len(),
            cps.len() == patches.len(),
            forall|m: int| 0 <= m < dc.len() ==> #[trigger] dc[m] == dom_view(children@[m]),
            forall|m: int| 0 <= m < cps.len() ==> #[trigger] cps[m] == child_patch_view(patches@[m]),
            final_len == children_final_len(dc.len(), cps),
            index_holds(ix, cps, cps.len()),
            cps.take(cps.len() as int) == cps,
            ni <= final_len,
            children_applicable(dc, cps, ni as nat),
        decreases final_len - ni,
    {
        proof {
            lemma_last_insert_index(cps, ni as nat);
            lemma_last_update_index(cps, ni as nat);
        }
        let ok = match ix.inserts.get(&ni) {
            Some(_) => true,
            None => match ix.updates.get(&ni) {
                Some(j) => match &patches[*j] {
                    ChildPatch::Update { old_index, patch, .. } => {
                        if *old_index < children.len() {
                            proof {
                                assert(decreases_to!(*patches => patches[*j as int]));
                                assert(decreases_to!(patches[*j as int] => patches[*j as int]->patch));
                            }
                            can_apply(&children[*old_index], patch)
                        } else {
                            false
                        }
                    },
                    _ => false,
                },
                None => ni < children.len(),
            },
        };
        if !ok {
            proof {
                if children_applicable(dc, cps, final_len as nat) {
                    lemma_children_applicable_at(dc, cps, final_len as nat, ni as nat);
                }
            }
            return false;
        }
        proof {
            assert(position_ok(dc, cps, ni as nat));
            assert(children_applicable(dc, cps, (ni + 1) as nat));
        }
        ni = ni + 1;
    }
    true
}

/// Whether `patch` can be applied to `node`: every child position it
/// produces is filled from an insert, from an existing old child or from
/// an update of one.
pub fn can_apply(node: &DomNode, patch: &Patch) -> (b: bool)
    ensures
        b == applicable(node@, patch@),
    decreases patch,
{
    match patch {
        Patch::UpdateElement { children: Some(children_patches), .. } => match node {
            DomNode::Element(el) => {
                proof {
                    lemma_doms_view(el.children@);
                    assert(decreases_to!(*patch => (*patch)->children));
                    assert(decreases_to!((*patch)->children => (*patch)->children->0));
                }
                children_can_apply(&el.children, children_patches)
            },
            _ => true,
        },
        _ => true,
    }
}

/// Applies `patch` to the document node `node`. Positions that no child
/// patch names keep their old child: the diff emits nothing for a child that
/// stayed where it was and did not change.
pub fn apply_patch(node: &mut DomNode, patch: &Patch)
    requires
        applicable(old(node)@, patch@),
    ensures
        final(node)@ == spec_apply(old(node)@, patch@),
    decreases patch,
{
    match patch {
        Patch::NoOp => {},
        Patch::Replace(new_vnode) => {
            *node = vnode_to_node(new_vnode);
        },
        Patch::UpdateText(text) => {
            let is_text = match node {
                DomNode::Text(_) => true,
                _ => false,
            };
            if is_text {
                *node = DomNode::Text(text.clone());
            }
        },
        Patch::UpdateElement { attrs, children } => {
            let mut taken = DomNode::Text(String::new());
            std::mem::swap(&mut taken, node);
            match taken {
                DomNode::Element(mut el) => {
                    proof {
                        lemma_doms_view(el.children@);
                    }
                    match attrs {
                        Some(attrs_patch) => apply_attrs_patch(&mut el.attrs, attrs_patch),
                        None => {},
                    }
                    match children {
                        Some(children_patches) => {
                            proof {
                                assert(decreases_to!(*patch => (*patch)->children));
                                assert(decreases_to!((*patch)->children => (*patch)->children->0));
                            }
                            apply_children_patches(&mut el.children, children_patches);
                        },
                        None => {},
                    }
                    *node = DomNode::Element(el);
                },
                other => {
                    *node = other;
                },
            }
        },
    }
}

// ---------------------------------------------------------------------
// From a document to virtual nodes.

/// The attribute map that a list of attributes gives when inserted in
/// order (a later attribute of the same name wins).
pub open spec fn collect_attrs(s: Seq<AttrView>) -> Seq<AttrView>
    decreases s.len(),
{
    if s.len() == 0 {
        Seq::empty()
    } else {
        let rest = collect_attrs(s.drop_last());
        attrs_insert(rest, s.last().0, s.last().1)
    }
}

/// The elements among the first `k` nodes, in document order.
pub open spec fn preceding_elements(nodes: Seq<DomNode>, k: nat) -> Seq<DomElement>
    decreases k,
{
    if k == 0 || k > nodes.len() {
        Seq::empty()
    } else {
        let rest = preceding_elements(nodes, (k - 1) as nat);
        match nodes[k - 1] {
            DomNode::Element(el) => rest.push(el),
            _ => rest,
        }
    }
}

pub open spec fn elements_of(v: Seq<&DomElement>) -> Seq<DomElement> {
    v.map_values(|e: &DomElement| *e)
}

/// `out` is a style that `style` may give element `el`, its ancestors
/// being `ancestors` (nearest first) and its preceding sibling elements
/// `siblings` (nearest first).
pub open spec fn styled<F: Fn(&DomElement, &Vec<&DomElement>, &Vec<&DomElement>) -> Option<String>>(
    style: F,
    el: DomElement,
    ancestors: Seq<DomElement>,
    siblings: Seq<DomElement>,
    out: Option<Seq<char>>,
) -> bool {
    exists|a: Vec<&DomElement>, s: Vec<&DomElement>, r: Option<String>|
        #![trigger style.ensures((&el, &a, &s), r)]
        elements_of(a@) == ancestors && elements_of(s@) == siblings && style.ensures((&el, &a, &s), r)
            && opt_str_view(r) == out
}

/// The attributes of the virtual node for an element: its own, and the
/// style, when there is one, under `style`.
pub open spec fn with_style(attrs: Seq<AttrView>, style: Option<Seq<char>>) -> Seq<AttrView> {
    match style {
        Some(s) => attrs_insert(attrs, "style"@, s),
        None => attrs,
    }
}

/// `out` is what rendering the first `k` of `nodes` gives, their ancestors
/// being `ancestors`: a text node for each text, nothing for a comment, and
/// for each element an element node with its attributes, the style that
/// `style` gives it, no key, and its rendered children.
pub open spec fn rendered_nodes<F: Fn(&DomElement, &Vec<&DomElement>, &Vec<&DomElement>) -> Option<String>>(
    style: F,
    nodes: Seq<DomNode>,
    k: nat,
    ancestors: Seq<DomElement>,
    out: Seq<NodeView>,
) -> bool
    decreases nodes, k,
{
    if k == 0 || k > nodes.len() {
        k == 0 && out.len() == 0
    } else {
        match nodes[k - 1] {
            DomNode::Comment(_) => rendered_nodes(style, nodes, (k - 1) as nat, ancestors, out),
            DomNode::Text(t) => out.len() > 0 && out.last() == NodeView::Text(t@) && rendered_nodes(
                style,
                nodes,
                (k - 1) as nat,
                ancestors,
                out.drop_last(),
            ),
            DomNode::Element(el) => out.len() > 0 && rendered_nodes(
                style,
                nodes,
                (k - 1) as nat,
                ancestors,
                out.drop_last(),
            ) && rendered_element(
                style,
                el,
                ancestors,
                preceding_elements(nodes, (k - 1) as nat).reverse(),
                out.last(),
            ),
        }
    }
}

pub open spec fn rendered_element<F: Fn(&DomElement, &Vec<&DomElement>, &Vec<&DomElement>) -> Option<String>>(
    style: F,
    el: DomElement,
    ancestors: Seq<DomElement>,
    siblings: Seq<DomElement>,
    v: NodeView,
) -> bool
    decreases el, 0int,
{
    proof {
        assert(decreases_to!(el => el.children));
        assert(decreases_to!(el.children => el.children@));
    }
    &&& v matches NodeView::Element { tag, attrs, key, children }
    &&& tag == el.tag_name@
    &&& key is None
    &&& exists|st: Option<Seq<char>>| #[trigger] styled(style, el, ancestors, siblings, st) && attrs == with_style(
        collect_attrs(dom_attrs_view(el.attrs@)),
        st,
    )
    &&& rendered_nodes(style, el.children@, el.children.len() as nat, seq![el] + ancestors, v->children)
}

/// Without comments, rendering keeps the sibling positions: the i-th node
/// gives the i-th virtual node, so patch indices on the virtual tree are
/// indices into the document.
pub proof fn lemma_render_keeps_positions<F: Fn(&DomElement, &Vec<&DomElement>, &Vec<&DomElement>) -> Option<String>>(
    style: F,
    nodes: Seq<DomNode>,
    k: nat,
    ancestors: Seq<DomElement>,
    out: Seq<NodeView>,
)
    requires
        k <= nodes.len(),
        forall|i: int| 0 <= i < nodes.len() ==> !(#[trigger] nodes[i] is Comment),
        rendered_nodes(style, nodes, k, ancestors, out),
    ensures
        out.len() == k,
        forall|i: int| 0 <= i < k ==> (#[trigger] nodes[i] is Text <==> out[i] is Text),
    decreases k,
{
    if k > 0 {
        assert(!(nodes[k - 1] is Comment));
        lemma_render_keeps_positions(style, nodes, (k - 1) as nat, ancestors, out.drop_last());
        assert forall|i: int| 0 <= i < k implies (#[trigger] nodes[i] is Text <==> out[i] is Text) by {
            if i < k - 1 {
                assert(out[i] == out.drop_last()[i]);
            } else {
                assert(out[i] == out.last());
                match nodes[i] {
                    DomNode::Element(el) => {
                        assert(rendered_element(style, el, ancestors, preceding_elements(nodes, (k - 1) as nat).reverse(), out.last()));
                        assert(out.last() is Element);
                    },
                    _ => {},
                }
            }
        }
    }
}

/// Without comments, the element at position `i` renders to `out[i]` with
/// the style computed from its preceding sibling elements, nearest first.
proof fn lemma_rendered_at<F: Fn(&DomElement, &Vec<&DomElement>, &Vec<&DomElement>) -> Option<String>>(
    style: F,
    nodes: Seq<DomNode>,
    k: nat,
    ancestors: Seq<DomElement>,
    out: Seq<NodeView>,
    i: int,
)
    requires
        k <= nodes.len(),
        0 <= i < k,
        forall|m: int| 0 <= m < nodes.len() ==> !(#[trigger] nodes[m] is Comment),
        rendered_nodes(style, nodes, k, ancestors, out),
        nodes[i] is Element,
    ensures
        out.len() == k,
        rendered_element(style, nodes[i]->Element_0, ancestors, preceding_elements(nodes, i as nat).reverse(), out[i]),
    decreases k,
{
    lemma_render_keeps_positions(style, nodes, k, ancestors, out);
    assert(!(nodes[k - 1] is Comment));
    if i < k - 1 {
        lemma_rendered_at(style, nodes, (k - 1) as nat, ancestors, out.drop_last(), i);
        assert(out.drop_last()[i] == out[i]);
    }
}

/// The last element among the first `i` nodes is the element at `j` when
/// no element stands between `j` and `i`.
proof fn lemma_nearest_preceding(nodes: Seq<DomNode>, i: int, j: int)
    requires
        0 <= j < i <= nodes.len(),
        nodes[j] is Element,
        forall|m: int| j < m < i ==> !(#[trigger] nodes[m] is Element),
    ensures
        preceding_elements(nodes, i as nat).len() > 0,
        preceding_elements(nodes, i as nat).last() == nodes[j]->Element_0,
    decreases i,
{
    if i > j + 1 {
        assert(!(nodes[i - 1] is Element));
        lemma_nearest_preceding(nodes, i - 1, j);
    }
}

/// Each element's style is computed with its preceding sibling elements
/// nearest first (as an adjacent-sibling selector needs): the first sibling
/// handed to `style` is the element right before it among its siblings,
/// text between them not counting.
pub proof fn lemma_siblings_nearest_first<F: Fn(&DomElement, &Vec<&DomElement>, &Vec<&DomElement>) -> Option<String>>(
    style: F,
    nodes: Seq<DomNode>,
    ancestors: Seq<DomElement>,
    out: Seq<NodeView>,
    i: int,
    j: int,
)
    requires
        forall|m: int| 0 <= m < nodes.len() ==> !(#[trigger] nodes[m] is Comment),
        rendered_nodes(style, nodes, nodes.len(), ancestors, out),
        0 <= j < i < nodes.len(),
        nodes[i] is Element,
        nodes[j] is Element,
        forall|m: int| j < m < i ==> !(#[trigger] nodes[m] is Element),
    ensures
        exists|siblings: Seq<DomElement>|
            #[trigger] rendered_element(style, nodes[i]->Element_0, ancestors, siblings, out[i]) && siblings.len() > 0
                && siblings[0] == nodes[j]->Element_0,
{
    lemma_rendered_at(style, nodes, nodes.len(), ancestors, out, i);
    lemma_nearest_preceding(nodes, i, j);
    let s = preceding_elements(nodes, i as nat).reverse();
    assert(s[0] == preceding_elements(nodes, i as nat).last());
    assert(rendered_element(style, nodes[i]->Element_0, ancestors, s, out[i]));
}

/// Turns the top-level nodes of `document` into virtual nodes, merging into
/// each element's attributes, under `style`, the style that `style` gives
/// it (`None` when no rule applies). `style` receives the element, its
/// ancestors (nearest first) and its preceding sibling elements (nearest
/// first; text and comments are not siblings here, as in the DOM).
/// Comments have no virtual counterpart and are skipped.
pub fn render_to_vnode<F: Fn(&DomElement, &Vec<&DomElement>, &Vec<&DomElement>) -> Option<String>>(
    document: &DomDocument,
    style: &F,
) -> (out: Vec<VNode>)
    requires
        forall|e: &DomElement, a: &Vec<&DomElement>, s: &Vec<&DomElement>| #[trigger] style.requires((e, a, s)),
    ensures
        rendered_nodes(*style, document.children@, document.children.len() as nat, Seq::empty(), nodes_view(out@)),
{
    let ancestors: Vec<&DomElement> = Vec::new();
    assert(elements_of(ancestors@) =~= Seq::<DomElement>::empty());
    render_nodes(&document.children, &ancestors, style)
}

fn render_nodes<'a, F: Fn(&DomElement, &Vec<&DomElement>, &Vec<&DomElement>) -> Option<String>>(
    nodes: &'a Vec<DomNode>,
    ancestors: &Vec<&'a DomElement>,
    style: &F,
) -> (out: Vec<VNode>)
    requires
        forall|e: &DomElement, a: &Vec<&DomElement>, s: &Vec<&DomElement>| #[trigger] style.requires((e, a, s)),
    ensures
        rendered_nodes(*style, nodes@, nodes.len() as nat, elements_of(ancestors@), nodes_view(out@)),
    decreases nodes,
{
    let ghost anc = elements_of(ancestors@);
    // The elements seen so far: adjacent-sibling selectors look at them.
    let mut preceding: Vec<&DomElement> = Vec::new();
    let mut out: Vec<VNode> = Vec::new();
    let n = nodes.len();
    let mut i: usize = 0;
    assert(elements_of(preceding@) =~= preceding_elements(nodes@, 0));
    assert(nodes_view(out@) =~= Seq::<NodeView>::empty());
    while i < n
        invariant
            n == nodes.len(),
            i <= n,
            anc == elements_of(ancestors@),
            forall|e: &DomElement, a: &Vec<&DomElement>, s: &Vec<&DomElement>| #[trigger] style.requires((e, a, s)),
            elements_of(preceding@) == preceding_elements(nodes@, i as nat),
            rendered_nodes(*style, nodes@, i as nat, anc, nodes_view(out@)),
        decreases n - i,
    {
        let node = &nodes[i];
        let plen = preceding.len();
        let mut siblings: Vec<&DomElement> = Vec::new();
        let mut k: usize = 0;
        while k < plen
            invariant
                plen == preceding.len(),
                k <= plen,
                siblings@.len() == k,
                forall|m: int| 0 <= m < k ==> #[trigger] siblings@[m] == preceding@[plen - 1 - m],
            decreases plen - k,
        {
            siblings.push(preceding[plen - 1 - k]);
            k = k + 1;
        }
        proof {
            assert(elements_of(siblings@) =~= preceding_elements(nodes@, i as nat).reverse());
            assert(decreases_to!(*nodes => nodes[i as int]));
        }
        let ghost before = out@;
        match render_node(node, ancestors, &siblings, style) {
            Some(v) => {
                out.push(v);
            },
            None => {},
        }
        proof {
            lemma_nodes_view(out@);
            lemma_nodes_view(before);
            if out@.len() > before.len() {
                assert(nodes_view(out@).drop_last() =~= nodes_view(before));
            } else {
                assert(out@ == before);
            }
        }
        match node {
            DomNode::Element(el) => {
                preceding.push(el);
                proof {
                    assert(elements_of(preceding@) =~= preceding_elements(nodes@, (i + 1) as nat));
                }
            },
            _ => {
                proof {
                    assert(elements_of(preceding@) =~= preceding_elements(nodes@, (i + 1) as nat));
                }
            },
        }
        i = i + 1;
    }
    out
}

fn render_node<'a, F: Fn(&DomElement, &Vec<&DomElement>, &Vec<&DomElement>) -> Option<String>>(
    node: &'a DomNode,
    ancestors: &Vec<&'a DomElement>,
    siblings: &Vec<&'a DomElement>,
    style: &F,
) -> (r: Option<VNode>)
    requires
        forall|e: &DomElement, a: &Vec<&DomElement>, s: &Vec<&DomElement>| #[trigger] style.requires((e, a, s)),
    ensures
        match *node {
            DomNode::Comment(_) => r is None,
            DomNode::Text(t) => r matches Some(v) && v@ == NodeView::Text(t@),
            DomNode::Element(el) => r matches Some(v) && rendered_element(
                *style,
                el,
                elements_of(ancestors@),
                elements_of(siblings@),
                v@,
            ),
        },
    decreases node,
{
    match node {
        DomNode::Text(text) => Some(VNode::Text(text.clone())),
        DomNode::Comment(_) => None,
        DomNode::Element(el) => {
            let computed = style(el, ancestors, siblings);
            let mut attrs = AttrMap::new();
            let ghost da = dom_attrs_view(el.attrs@);
            let na = el.attrs.len();
            let mut k: usize = 0;
            assert(da.take(0) =~= Seq::<AttrView>::empty());
            while k < na
                invariant
                    na == el.attrs.len(),
                    da == dom_attrs_view(el.attrs@),
                    k <= na,
                    attrs@ == collect_attrs(da.take(k as int)),
                decreases na - k,
            {
                proof {
                    assert(da.take(k + 1).drop_last() =~= da.take(k as int));
                }
                attrs.insert(el.attrs[k].name.clone(), el.attrs[k].value.clone());
                k = k + 1;
            }
            proof {
                assert(da.take(na as int) =~= da);
            }
            let ghost st = opt_str_view(computed);
            match computed {
                Some(s) => {
                    attrs.insert("style".to_string(), s);
                },
                None => {},
            }
            let mut child_ancestors: Vec<&DomElement> = Vec::new();
            child_ancestors.push(el);
            let alen = ancestors.len();
            let mut j: usize = 0;
            while j < alen
                invariant
                    alen == ancestors.len(),
                    j <= alen,
                    child_ancestors@.len() == j + 1,
                    *child_ancestors@[0] == *el,
                    forall|m: int| 0 <= m < j ==> *child_ancestors@[m + 1] == *(#[trigger] ancestors@[m]),
                decreases alen - j,
            {
                child_ancestors.push(ancestors[j]);
                j = j + 1;
            }
            proof {
                assert(elements_of(child_ancestors@) =~= seq![*el] + elements_of(ancestors@));
                assert(decreases_to!(*node => (*node)->Element_0));
                assert(decreases_to!(*el => el.children));
            }
            let children = render_nodes(&el.children, &child_ancestors, style);
            proof {
                assert(styled(*style, *el, elements_of(ancestors@), elements_of(siblings@), st));
            }
            Some(VNode::Element(VElement { tag: el.tag_name.clone(), attrs, key: None, children }))
        },
    }
}

} // verus!
