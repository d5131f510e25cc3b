//! Applying the patch that `diff` computes to the document built from the
//! old tree yields the document built from the new tree.

use vstd::prelude::*;
use crate::attrs::{AttrView, attrs_sorted, attr_lookup};
use crate::text::lemma_str_lt_irreflexive;
use crate::vnode::{NodeView, VNode, key_of, nodes_view, lemma_nodes_view};
use crate::dom_bridge::{DomView, to_dom, to_doms, lemma_to_doms, first_attr_index, set_attr, set_attrs, drop_removed, apply_attrs};
use crate::diff::{AttrsPatchView, ChildPatchView, PatchView, attrs_to_set, attrs_to_remove, spec_attrs_patch,
    spec_diff, spec_diff_children, children_scan, matched_index, removals, first_unused_keyed, has_keyed};
use crate::dom_bridge::{insert_indices, remove_indices, last_insert_index, last_update_index, child_after,
    apply_children, position_ok, children_applicable, children_final_len, applicable, spec_apply};

verus! {

/// No attribute name occurs twice.
pub open spec fn names_distinct(a: Seq<AttrView>) -> bool {
    forall|i: int, j: int| 0 <= i < a.len() && 0 <= j < a.len() && i != j ==> #[trigger] a[i].0 != #[trigger] a[j].0
}

/// Two attribute lists that bind the same names to the same values, each
/// name once (the same attribute map, whatever the order).
pub open spec fn attrs_same(a: Seq<AttrView>, b: Seq<AttrView>) -> bool {
    &&& names_distinct(a)
    &&& names_distinct(b)
    &&& forall|k: Seq<char>| #[trigger] attr_lookup(a, k) == attr_lookup(b, k)
}

/// The same document up to the order of each element's attributes.
pub open spec fn dom_equiv(a: DomView, b: DomView) -> bool
    decreases a,
{
    match a {
        DomView::Text(x) => b == DomView::Text(x),
        DomView::Comment(x) => b == DomView::Comment(x),
        DomView::Element { tag, attrs, children } => match b {
            DomView::Element { tag: tag2, attrs: attrs2, children: children2 } => {
                &&& tag == tag2
                &&& attrs_same(attrs, attrs2)
                &&& children.len() == children2.len()
                &&& forall|i: int| 0 <= i < children.len() ==> dom_equiv(#[trigger] children[i], children2[i])
            },
            _ => false,
        },
    }
}

/// Every element's attribute names ascend, and its children can be counted
/// in a `usize`.
pub open spec fn tree_wf(n: NodeView) -> bool
    decreases n,
{
    match n {
        NodeView::Text(_) => true,
        NodeView::Element { attrs, children, .. } => {
            &&& attrs_sorted(attrs)
            &&& children.len() <= usize::MAX
            &&& forall|i: int| 0 <= i < children.len() ==> tree_wf(#[trigger] children[i])
        },
    }
}

proof fn lemma_sorted_distinct(a: Seq<AttrView>)
    requires
        attrs_sorted(a),
    ensures
        names_distinct(a),
{
    assert forall|i: int, j: int| 0 <= i < a.len() && 0 <= j < a.len() && i != j implies #[trigger] a[i].0
        != #[trigger] a[j].0 by {
        if i < j {
            assert(crate::text::str_lt(a[i].0, a[j].0));
            lemma_str_lt_irreflexive(a[i].0);
        } else {
            assert(crate::text::str_lt(a[j].0, a[i].0));
            lemma_str_lt_irreflexive(a[j].0);
        }
    }
}

/// A document built from a well-formed tree is equivalent to itself.
pub proof fn lemma_dom_equiv_refl(n: NodeView)
    requires
        tree_wf(n),
    ensures
        dom_equiv(to_dom(n), to_dom(n)),
    decreases n,
{
    match n {
        NodeView::Text(_) => {},
        NodeView::Element { attrs, children, .. } => {
            lemma_sorted_distinct(attrs);
            lemma_to_doms(children, children.len());
            let d = to_doms(children, children.len());
            assert forall|i: int| 0 <= i < d.len() implies dom_equiv(#[trigger] d[i], d[i]) by {
                lemma_dom_equiv_refl(children[i]);
            }
        },
    }
}

/// Looking up in a list with one more pair at the end.
proof fn lemma_lookup_push(s: Seq<AttrView>, p: AttrView, k: Seq<char>)
    ensures
        attr_lookup(s.push(p), k) == (match attr_lookup(s, k) {
            Some(v) => Some(v),
            None => if p.0 == k {
                Some(p.1)
            } else {
                None
            },
        }),
    decreases s.len(),
{
    if s.len() == 0 {
        assert(s.push(p).drop_first() =~= Seq::<AttrView>::empty());
        assert(attr_lookup(s.push(p).drop_first(), k) is None);
        assert(s.push(p)[0] == p);
    } else {
        assert(s.push(p).drop_first() =~= s.drop_first().push(p));
        assert(s.push(p)[0] == s[0]);
        lemma_lookup_push(s.drop_first(), p, k);
    }
}

/// In a list without repeated names, a name is bound to the value of the one
/// pair that carries it.
proof fn lemma_lookup_distinct(s: Seq<AttrView>, i: int)
    requires
        names_distinct(s),
        0 <= i < s.len(),
    ensures
        attr_lookup(s, s[i].0) == Some(s[i].1),
    decreases s.len(),
{
    if i > 0 {
        assert(s[0].0 != s[i].0);
        let t = s.drop_first();
        assert(names_distinct(t)) by {
            assert forall|a: int, b: int| 0 <= a < t.len() && 0 <= b < t.len() && a != b implies #[trigger] t[a].0
                != #[trigger] t[b].0 by {
                assert(s[a + 1].0 != s[b + 1].0);
            }
        }
        lemma_lookup_distinct(t, i - 1);
    }
}

proof fn lemma_lookup_none(s: Seq<AttrView>, k: Seq<char>)
    requires
        forall|i: int| 0 <= i < s.len() ==> (#[trigger] s[i]).0 != k,
    ensures
        attr_lookup(s, k) is None,
{
    crate::attrs::lemma_lookup_some(s, k);
}

proof fn lemma_first_attr_index(a: Seq<AttrView>, name: Seq<char>)
    ensures
        match first_attr_index(a, name) {
            Some(i) => i < a.len() && a[i as int].0 == name,
            None => forall|j: int| 0 <= j < a.len() ==> (#[trigger] a[j]).0 != name,
        },
    decreases a.len(),
{
    if a.len() > 0 {
        lemma_first_attr_index(a.drop_last(), name);
        assert forall|j: int| 0 <= j < a.len() - 1 implies (#[trigger] a[j]) == a.drop_last()[j] by {}
    }
}

/// Setting one attribute in a list without repeated names.
proof fn lemma_set_attr(a: Seq<AttrView>, p: AttrView)
    requires
        names_distinct(a),
    ensures
        names_distinct(set_attr(a, p)),
        forall|k: Seq<char>| #[trigger] attr_lookup(set_attr(a, p), k) == if k == p.0 {
            Some(p.1)
        } else {
            attr_lookup(a, k)
        },
{
    lemma_first_attr_index(a, p.0);
    let r = set_attr(a, p);
    match first_attr_index(a, p.0) {
        Some(i) => {
            assert(r.len() == a.len());
            assert forall|x: int, y: int| 0 <= x < r.len() && 0 <= y < r.len() && x != y implies #[trigger] r[x].0
                != #[trigger] r[y].0 by {
                assert(r[x].0 == a[x].0 && r[y].0 == a[y].0);
            }
            assert forall|k: Seq<char>| #[trigger] attr_lookup(r, k) == if k == p.0 {
                Some(p.1)
            } else {
                attr_lookup(a, k)
            } by {
                if k == p.0 {
                    lemma_lookup_distinct(r, i as int);
                } else {
                    crate::attrs::lemma_lookup_some(a, k);
                    crate::attrs::lemma_lookup_some(r, k);
                    if attr_lookup(a, k) is Some {
                        let j = choose|j: int| 0 <= j < a.len() && #[trigger] a[j].0 == k && a[j].1 == attr_lookup(a, k)->0;
                        assert(r[j] == a[j]);
                        lemma_lookup_distinct(r, j);
                    } else {
                        assert forall|j: int| 0 <= j < r.len() implies (#[trigger] r[j]).0 != k by {
                            if j != i {
                                assert(r[j] == a[j]);
                            }
                        }
                        lemma_lookup_none(r, k);
                    }
                }
            }
        },
        None => {
            assert(r == a.push(p));
            assert forall|x: int, y: int| 0 <= x < r.len() && 0 <= y < r.len() && x != y implies #[trigger] r[x].0
                != #[trigger] r[y].0 by {
                if x < a.len() && y < a.len() {
                    assert(r[x] == a[x] && r[y] == a[y]);
                } else if x < a.len() {
                    assert(r[x] == a[x]);
                } else {
                    assert(r[y] == a[y]);
                }
            }
            assert forall|k: Seq<char>| #[trigger] attr_lookup(r, k) == if k == p.0 {
                Some(p.1)
            } else {
                attr_lookup(a, k)
            } by {
                lemma_lookup_push(a, p, k);
                if k == p.0 {
                    lemma_lookup_none(a, k);
                }
            }
        },
    }
}

proof fn lemma_distinct_drop_last(s: Seq<AttrView>)
    requires
        names_distinct(s),
        s.len() > 0,
    ensures
        names_distinct(s.drop_last()),
        forall|i: int| 0 <= i < s.len() - 1 ==> (#[trigger] s.drop_last()[i]).0 != s.last().0,
        s == s.drop_last().push(s.last()),
{
    assert(s =~= s.drop_last().push(s.last()));
    assert forall|i: int| 0 <= i < s.len() - 1 implies (#[trigger] s.drop_last()[i]).0 != s.last().0 by {
        assert(s[i].0 != s[s.len() - 1].0);
    }
}

proof fn lemma_set_attrs(a: Seq<AttrView>, s: Seq<AttrView>)
    requires
        names_distinct(a),
        names_distinct(s),
    ensures
        names_distinct(set_attrs(a, s)),
        forall|k: Seq<char>| #[trigger] attr_lookup(set_attrs(a, s), k) == match attr_lookup(s, k) {
            Some(v) => Some(v),
            None => attr_lookup(a, k),
        },
    decreases s.len(),
{
    if s.len() > 0 {
        let t = s.drop_last();
        let p = s.last();
        lemma_distinct_drop_last(s);
        lemma_set_attrs(a, t);
        lemma_set_attr(set_attrs(a, t), p);
        lemma_lookup_none(t, p.0);
        assert forall|k: Seq<char>| #[trigger] attr_lookup(set_attrs(a, s), k) == match attr_lookup(s, k) {
            Some(v) => Some(v),
            None => attr_lookup(a, k),
        } by {
            lemma_lookup_push(t, p, k);
        }
    }
}

proof fn lemma_drop_removed(x: Seq<AttrView>, remove: Seq<Seq<char>>)
    requires
        names_distinct(x),
    ensures
        names_distinct(drop_removed(x, remove)),
        forall|i: int| 0 <= i < drop_removed(x, remove).len() ==> exists|j: int|
            0 <= j < x.len() && (#[trigger] drop_removed(x, remove)[i]).0 == x[j].0,
        forall|k: Seq<char>| #[trigger] attr_lookup(drop_removed(x, remove), k) == if remove.contains(k) {
            None
        } else {
            attr_lookup(x, k)
        },
    decreases x.len(),
{
    if x.len() > 0 {
        let t = x.drop_last();
        let p = x.last();
        lemma_distinct_drop_last(x);
        lemma_drop_removed(t, remove);
        let rest = drop_removed(t, remove);
        let r = drop_removed(x, remove);
        if remove.contains(p.0) {
            assert forall|k: Seq<char>| #[trigger] attr_lookup(r, k) == if remove.contains(k) {
                None
            } else {
                attr_lookup(x, k)
            } by {
                lemma_lookup_push(t, p, k);
            }
            assert forall|i: int| 0 <= i < r.len() implies exists|j: int| 0 <= j < x.len() && (#[trigger] r[i]).0
                == x[j].0 by {
                let j = choose|j: int| 0 <= j < t.len() && rest[i].0 == t[j].0;
                assert(x[j] == t[j]);
            }
        } else {
            assert(r == rest.push(p));
            assert forall|i: int| 0 <= i < rest.len() implies (#[trigger] rest[i]).0 != p.0 by {
                let j = choose|j: int| 0 <= j < t.len() && rest[i].0 == t[j].0;
            }
            assert forall|a: int, b: int| 0 <= a < r.len() && 0 <= b < r.len() && a != b implies #[trigger] r[a].0
                != #[trigger] r[b].0 by {
                if a < rest.len() && b < rest.len() {
                    assert(r[a] == rest[a] && r[b] == rest[b]);
                } else if a < rest.len() {
                    assert(r[a] == rest[a]);
                } else {
                    assert(r[b] == rest[b]);
                }
            }
            assert forall|k: Seq<char>| #[trigger] attr_lookup(r, k) == if remove.contains(k) {
                None
            } else {
                attr_lookup(x, k)
            } by {
                lemma_lookup_push(t, p, k);
                lemma_lookup_push(rest, p, k);
                if k == p.0 {
                    lemma_lookup_none(t, k);
                    lemma_lookup_none(rest, k);
                }
            }
            assert forall|i: int| 0 <= i < r.len() implies exists|j: int| 0 <= j < x.len() && (#[trigger] r[i]).0
                == x[j].0 by {
                if i < rest.len() {
                    assert(r[i] == rest[i]);
                    let j = choose|j: int| 0 <= j < t.len() && rest[i].0 == t[j].0;
                    assert(x[j] == t[j]);
                } else {
                    assert(r[i] == x[x.len() - 1]);
                }
            }
        }
    }
}

proof fn lemma_to_set(old: Seq<AttrView>, new: Seq<AttrView>)
    requires
        names_distinct(new),
    ensures
        names_distinct(attrs_to_set(old, new)),
        forall|i: int| 0 <= i < attrs_to_set(old, new).len() ==> exists|j: int|
            0 <= j < new.len() && (#[trigger] attrs_to_set(old, new)[i]).0 == new[j].0,
        forall|k: Seq<char>| #[trigger] attr_lookup(attrs_to_set(old, new), k) == match attr_lookup(new, k) {
            Some(v) => if attr_lookup(old, k) == Some(v) {
                None
            } else {
                Some(v)
            },
            None => None,
        },
    decreases new.len(),
{
    if new.len() > 0 {
        let t = new.drop_last();
        let p = new.last();
        lemma_distinct_drop_last(new);
        lemma_to_set(old, t);
        let rest = attrs_to_set(old, t);
        let r = attrs_to_set(old, new);
        lemma_lookup_none(t, p.0);
        if attr_lookup(old, p.0) == Some(p.1) {
            assert forall|k: Seq<char>| #[trigger] attr_lookup(r, k) == match attr_lookup(new, k) {
                Some(v) => if attr_lookup(old, k) == Some(v) {
                    None
                } else {
                    Some(v)
                },
                None => None,
            } by {
                lemma_lookup_push(t, p, k);
            }
            assert forall|i: int| 0 <= i < r.len() implies exists|j: int| 0 <= j < new.len() && (#[trigger] r[i]).0
                == new[j].0 by {
                let j = choose|j: int| 0 <= j < t.len() && rest[i].0 == t[j].0;
                assert(new[j] == t[j]);
            }
        } else {
            assert(r == rest.push(p));
            assert forall|i: int| 0 <= i < rest.len() implies (#[trigger] rest[i]).0 != p.0 by {
                let j = choose|j: int| 0 <= j < t.len() && rest[i].0 == t[j].0;
            }
            assert forall|a: int, b: int| 0 <= a < r.len() && 0 <= b < r.len() && a != b implies #[trigger] r[a].0
                != #[trigger] r[b].0 by {
                if a < rest.len() && b < rest.len() {
                    assert(r[a] == rest[a] && r[b] == rest[b]);
                } else if a < rest.len() {
                    assert(r[a] == rest[a]);
                } else {
                    assert(r[b] == rest[b]);
                }
            }
            lemma_lookup_none(rest, p.0);
            assert forall|k: Seq<char>| #[trigger] attr_lookup(r, k) == match attr_lookup(new, k) {
                Some(v) => if attr_lookup(old, k) == Some(v) {
                    None
                } else {
                    Some(v)
                },
                None => None,
            } by {
                lemma_lookup_push(t, p, k);
                lemma_lookup_push(rest, p, k);
            }
            assert forall|i: int| 0 <= i < r.len() implies exists|j: int| 0 <= j < new.len() && (#[trigger] r[i]).0
                == new[j].0 by {
                if i < rest.len() {
                    assert(r[i] == rest[i]);
                    let j = choose|j: int| 0 <= j < t.len() && rest[i].0 == t[j].0;
                    assert(new[j] == t[j]);
                } else {
                    assert(r[i] == new[new.len() - 1]);
                }
            }
        }
    }
}

proof fn lemma_to_remove(old: Seq<AttrView>, new: Seq<AttrView>)
    ensures
        forall|k: Seq<char>| #[trigger] attrs_to_remove(old, new).contains(k) <==> (attr_lookup(old, k) is Some
            && attr_lookup(new, k) is None),
    decreases old.len(),
{
    if old.len() > 0 {
        let t = old.drop_last();
        let p = old.last();
        lemma_to_remove(t, new);
        assert(old == t.push(p)) by {
            assert(old =~= t.push(p));
        }
        let rest = attrs_to_remove(t, new);
        assert forall|k: Seq<char>| #[trigger] attrs_to_remove(old, new).contains(k) <==> (attr_lookup(old, k) is Some
            && attr_lookup(new, k) is None) by {
            lemma_lookup_push(t, p, k);
            if attr_lookup(new, p.0) is None {
                assert(attrs_to_remove(old, new) == rest.push(p.0));
                if rest.push(p.0).contains(k) {
                    let i = choose|i: int| 0 <= i < rest.push(p.0).len() && rest.push(p.0)[i] == k;
                    if i < rest.len() {
                        assert(rest[i] == k);
                    }
                }
                if rest.contains(k) {
                    let i = choose|i: int| 0 <= i < rest.len() && rest[i] == k;
                    assert(rest.push(p.0)[i] == k);
                }
                if k == p.0 {
                    assert(rest.push(p.0)[rest.len() as int] == k);
                }
            }
        }
    }
}

/// What the attribute part of a diff does to attributes that bind what the
/// old ones bind: afterwards they bind exactly what the new ones bind. No
/// name is both set and removed.
pub proof fn lemma_attrs_patch(da: Seq<AttrView>, old: Seq<AttrView>, new: Seq<AttrView>)
    requires
        attrs_same(da, old),
        attrs_sorted(old),
        attrs_sorted(new),
    ensures
        match spec_attrs_patch(old, new) {
            Some(ap) => {
                &&& attrs_same(apply_attrs(da, ap), new)
                &&& forall|i: int| 0 <= i < ap.set.len() ==> !ap.remove.contains(#[trigger] ap.set[i].0)
            },
            None => attrs_same(da, new),
        },
{
    lemma_sorted_distinct(old);
    lemma_sorted_distinct(new);
    let set = attrs_to_set(old, new);
    let remove = attrs_to_remove(old, new);
    lemma_to_set(old, new);
    lemma_to_remove(old, new);
    lemma_set_attrs(da, set);
    lemma_drop_removed(set_attrs(da, set), remove);
    let r = apply_attrs(da, AttrsPatchView { set, remove });
    assert forall|i: int| 0 <= i < set.len() implies !remove.contains(#[trigger] set[i].0) by {
        crate::attrs::lemma_lookup_some(set, set[i].0);
        assert(attr_lookup(set, set[i].0) is Some);
    }
    assert forall|k: Seq<char>| #[trigger] attr_lookup(r, k) == attr_lookup(new, k) by {
        assert(attr_lookup(da, k) == attr_lookup(old, k));
        assert(attr_lookup(r, k) == if remove.contains(k) {
            None
        } else {
            attr_lookup(set_attrs(da, set), k)
        });
    }
    if set.len() == 0 && remove.len() == 0 {
        assert forall|k: Seq<char>| #[trigger] attr_lookup(da, k) == attr_lookup(new, k) by {
            assert(attr_lookup(r, k) == attr_lookup(new, k));
            assert(attr_lookup(da, k) == attr_lookup(old, k));
            crate::attrs::lemma_lookup_some(set, k);
            assert(!remove.contains(k));
        }
    }
}

// ---------------------------------------------------------------------
// The children part of a diff.

/// What the scan has recorded for new position `ni`: the node inserted
/// there, or the update of the old child it was matched with, or nothing
/// because it was matched with the old child at the same position and
/// nothing changed.
pub open spec fn outcome_ok(oc: Seq<NodeView>, nc: Seq<NodeView>, ps: Seq<ChildPatchView>, ni: nat) -> bool {
    match last_insert_index(ps, ni) {
        Some(j) => 0 <= j < ps.len() && ps[j] == ChildPatchView::Insert { index: ni, node: nc[ni as int] },
        None => match last_update_index(ps, ni) {
            Some(j) => 0 <= j < ps.len() && (ps[j] matches ChildPatchView::Update { old_index, new_index, patch }
                && new_index == ni && old_index < oc.len() && patch == spec_diff(oc[old_index as int], nc[ni as int])),
            None => ni < oc.len() && spec_diff(oc[ni as int], nc[ni as int]) is NoOp,
        },
    }
}

pub open spec fn is_remove(c: ChildPatchView) -> bool {
    c is Remove
}

/// What holds of the scan of the first `n` new children.
pub open spec fn scan_inv(oc: Seq<NodeView>, nc: Seq<NodeView>, n: nat, ps: Seq<ChildPatchView>, used: Set<nat>) -> bool {
    &&& used.finite()
    &&& forall|x: nat| #[trigger] used.contains(x) ==> x < oc.len()
    &&& forall|ni: nat| ni >= n ==> #[trigger] last_insert_index(ps, ni) is None && last_update_index(ps, ni) is None
    &&& forall|ni: nat| ni < n ==> #[trigger] outcome_ok(oc, nc, ps, ni)
    &&& forall|j: int| 0 <= j < ps.len() ==> !is_remove(#[trigger] ps[j])
    &&& insert_indices(ps).no_duplicates()
    &&& forall|j: int| 0 <= j < insert_indices(ps).len() ==> #[trigger] insert_indices(ps)[j] < n
    &&& insert_indices(ps).len() + used.len() == n
}

proof fn lemma_last_index_push(ps: Seq<ChildPatchView>, x: ChildPatchView, ni: nat)
    ensures
        last_insert_index(ps.push(x), ni) == if x matches ChildPatchView::Insert { index, .. } && index == ni {
            Some(ps.len() as int)
        } else {
            last_insert_index(ps, ni)
        },
        last_update_index(ps.push(x), ni) == if x matches ChildPatchView::Update { new_index, .. } && new_index == ni {
            Some(ps.len() as int)
        } else {
            last_update_index(ps, ni)
        },
        insert_indices(ps.push(x)) == match x {
            ChildPatchView::Insert { index, .. } => insert_indices(ps).push(index),
            _ => insert_indices(ps),
        },
        remove_indices(ps.push(x)) == match x {
            ChildPatchView::Remove { index } => remove_indices(ps).push(index),
            _ => remove_indices(ps),
        },
{
    assert(ps.push(x).drop_last() =~= ps);
}

proof fn lemma_last_index_bound(ps: Seq<ChildPatchView>, ni: nat)
    ensures
        last_insert_index(ps, ni) matches Some(j) ==> 0 <= j < ps.len(),
        last_update_index(ps, ni) matches Some(j) ==> 0 <= j < ps.len(),
    decreases ps.len(),
{
    if ps.len() > 0 {
        lemma_last_index_bound(ps.drop_last(), ni);
    }
}

proof fn lemma_scan(oc: Seq<NodeView>, nc: Seq<NodeView>, n: nat)
    requires
        n <= nc.len(),
    ensures
        scan_inv(oc, nc, n, children_scan(oc, nc, n).0, children_scan(oc, nc, n).1),
    decreases n,
{
    let (ps, used) = children_scan(oc, nc, n);
    if n == 0 {
        assert(insert_indices(ps) =~= Seq::<nat>::empty());
    } else {
        let ni = (n - 1) as nat;
        lemma_scan(oc, nc, ni);
        let (ps0, used0) = children_scan(oc, nc, ni);
        let child = nc[ni as int];
        let m = matched_index(oc, used0, child, ni);
        let ins = ChildPatchView::Insert { index: ni, node: child };
        if m matches Some(oi) && !used0.contains(oi) && oi < oc.len() {
            let oi = m->0;
            let inner = spec_diff(oc[oi as int], child);
            let upd = ChildPatchView::Update { old_index: oi, new_index: ni, patch: inner };
            assert(used == used0.insert(oi));
            if !(inner is NoOp) || oi != ni {
                assert(ps == ps0.push(upd));
                assert forall|k: nat| true implies #[trigger] last_insert_index(ps, k) == last_insert_index(ps0, k)
                    && (k != ni ==> last_update_index(ps, k) == last_update_index(ps0, k)) by {
                    lemma_last_index_push(ps0, upd, k);
                }
                lemma_last_index_push(ps0, upd, ni);
                assert forall|k: nat| k < n implies #[trigger] outcome_ok(oc, nc, ps, k) by {
                    lemma_last_index_bound(ps0, k);
                    if k < ni {
                        assert(outcome_ok(oc, nc, ps0, k));
                        if let Some(j) = last_insert_index(ps0, k) {
                            assert(ps[j] == ps0[j]);
                        } else if let Some(j) = last_update_index(ps0, k) {
                            assert(ps[j] == ps0[j]);
                        }
                    }
                }
                assert forall|j: int| 0 <= j < ps.len() implies !is_remove(#[trigger] ps[j]) by {
                    if j < ps0.len() {
                        assert(ps[j] == ps0[j]);
                    }
                }
            } else {
                assert(ps == ps0);
                assert forall|k: nat| k < n implies #[trigger] outcome_ok(oc, nc, ps, k) by {
                    if k < ni {
                        assert(outcome_ok(oc, nc, ps0, k));
                    }
                }
            }
            assert(used.len() == used0.len() + 1);
        } else {
            assert(ps == ps0.push(ins) && used == used0);
            assert forall|k: nat| true implies #[trigger] last_update_index(ps, k) == last_update_index(ps0, k)
                && (k != ni ==> last_insert_index(ps, k) == last_insert_index(ps0, k)) by {
                lemma_last_index_push(ps0, ins, k);
            }
            lemma_last_index_push(ps0, ins, ni);
            assert forall|k: nat| k < n implies #[trigger] outcome_ok(oc, nc, ps, k) by {
                lemma_last_index_bound(ps0, k);
                if k < ni {
                    assert(outcome_ok(oc, nc, ps0, k));
                    if let Some(j) = last_insert_index(ps0, k) {
                        assert(ps[j] == ps0[j]);
                    } else if let Some(j) = last_update_index(ps0, k) {
                        assert(ps[j] == ps0[j]);
                    }
                }
            }
            assert forall|j: int| 0 <= j < ps.len() implies !is_remove(#[trigger] ps[j]) by {
                if j < ps0.len() {
                    assert(ps[j] == ps0[j]);
                }
            }
            let ii = insert_indices(ps0);
            assert(insert_indices(ps) == ii.push(ni));
            assert forall|a: int, b: int| 0 <= a < ii.push(ni).len() && 0 <= b < ii.push(ni).len() && a != b implies
                ii.push(ni)[a] != ii.push(ni)[b] by {
                if a < ii.len() && b < ii.len() {
                } else if a < ii.len() {
                    assert(ii[a] < ni);
                } else {
                    assert(ii[b] < ni);
                }
            }
            assert forall|j: int| 0 <= j < ii.push(ni).len() implies #[trigger] ii.push(ni)[j] < n by {
                if j < ii.len() {
                    assert(ii[j] < ni);
                }
            }
        }
    }
}

/// The positions below `count` in `used`.
pub open spec fn used_below(used: Set<nat>, count: nat) -> Set<nat> {
    Set::new(|x: nat| x < count && used.contains(x))
}

proof fn lemma_removals(count: nat, used: Set<nat>)
    ensures
        forall|j: int| 0 <= j < removals(count, used).len() ==> is_remove(#[trigger] removals(count, used)[j]),
        remove_indices(removals(count, used)).no_duplicates(),
        forall|j: int| 0 <= j < remove_indices(removals(count, used)).len() ==> #[trigger] remove_indices(
            removals(count, used),
        )[j] < count,
        used_below(used, count).finite(),
        remove_indices(removals(count, used)).len() + used_below(used, count).len() == count,
    decreases count,
{
    if count == 0 {
        assert(used_below(used, 0) =~= Set::<nat>::empty());
    } else {
        let c = (count - 1) as nat;
        lemma_removals(c, used);
        let r0 = removals(c, used);
        let ri0 = remove_indices(r0);
        if used.contains(c) {
            assert(used_below(used, count) =~= used_below(used, c).insert(c));
        } else {
            assert(used_below(used, count) =~= used_below(used, c));
            let x = ChildPatchView::Remove { index: c };
            lemma_last_index_push(r0, x, 0);
            assert(removals(count, used) == r0.push(x));
            assert(remove_indices(removals(count, used)) == ri0.push(c));
            assert forall|j: int| 0 <= j < r0.push(x).len() implies is_remove(#[trigger] r0.push(x)[j]) by {
                if j < r0.len() {
                    assert(r0.push(x)[j] == r0[j]);
                }
            }
            assert forall|a: int, b: int| 0 <= a < ri0.push(c).len() && 0 <= b < ri0.push(c).len() && a != b implies
                ri0.push(c)[a] != ri0.push(c)[b] by {
                if a < ri0.len() && b < ri0.len() {
                } else if a < ri0.len() {
                    assert(ri0[a] < c);
                } else {
                    assert(ri0[b] < c);
                }
            }
            assert forall|j: int| 0 <= j < ri0.push(c).len() implies #[trigger] ri0.push(c)[j] < count by {
                if j < ri0.len() {
                    assert(ri0[j] < c);
                }
            }
        }
    }
}

proof fn lemma_append_removes(ps: Seq<ChildPatchView>, r: Seq<ChildPatchView>, ni: nat)
    requires
        forall|j: int| 0 <= j < r.len() ==> is_remove(#[trigger] r[j]),
    ensures
        last_insert_index(ps + r, ni) == last_insert_index(ps, ni),
        last_update_index(ps + r, ni) == last_update_index(ps, ni),
        insert_indices(ps + r) == insert_indices(ps),
        remove_indices(ps + r) == remove_indices(ps) + remove_indices(r),
    decreases r.len(),
{
    if r.len() == 0 {
        assert(ps + r =~= ps);
        assert(remove_indices(ps) + remove_indices(r) =~= remove_indices(ps));
    } else {
        let r0 = r.drop_last();
        let x = r.last();
        assert(is_remove(r[r.len() - 1]));
        lemma_append_removes(ps, r0, ni);
        assert(ps + r == (ps + r0).push(x)) by {
            assert(ps + r =~= (ps + r0).push(x));
        }
        assert(r == r0.push(x)) by {
            assert(r =~= r0.push(x));
        }
        lemma_last_index_push(ps + r0, x, ni);
        lemma_last_index_push(r0, x, ni);
        assert(remove_indices(ps + r) =~= remove_indices(ps) + remove_indices(r));
    }
}

proof fn lemma_no_removes(ps: Seq<ChildPatchView>)
    requires
        forall|j: int| 0 <= j < ps.len() ==> !is_remove(#[trigger] ps[j]),
    ensures
        remove_indices(ps) == Seq::<nat>::empty(),
    decreases ps.len(),
{
    if ps.len() > 0 {
        assert(!is_remove(ps[ps.len() - 1]));
        lemma_no_removes(ps.drop_last());
    }
}

proof fn lemma_apply_children_index(dc: Seq<DomView>, cps: Seq<ChildPatchView>, n: nat)
    ensures
        apply_children(dc, cps, n).len() == n,
        forall|i: int| 0 <= i < n ==> #[trigger] apply_children(dc, cps, n)[i] == child_after(dc, cps, i as nat),
    decreases n,
{
    if n > 0 {
        lemma_apply_children_index(dc, cps, (n - 1) as nat);
    }
}

proof fn lemma_children_applicable_from(dc: Seq<DomView>, cps: Seq<ChildPatchView>, n: nat)
    requires
        forall|i: nat| i < n ==> #[trigger] position_ok(dc, cps, i),
    ensures
        children_applicable(dc, cps, n),
    decreases n,
{
    if n > 0 {
        lemma_children_applicable_from(dc, cps, (n - 1) as nat);
        assert(position_ok(dc, cps, (n - 1) as nat));
    }
}

/// The round trip on children: applying the child patches of a diff to
/// documents equivalent to those built from the old children fits them, and
/// leaves as many children as there are new ones, each equivalent to the
/// document built from the new child at its position. Where the diff has no
/// child patches, the documents are already those of the new children.
pub proof fn lemma_children_roundtrip(dc: Seq<DomView>, oc: Seq<NodeView>, nc: Seq<NodeView>)
    requires
        dc.len() == oc.len(),
        forall|i: int| 0 <= i < oc.len() ==> dom_equiv(#[trigger] dc[i], to_dom(oc[i])),
        forall|i: int| 0 <= i < oc.len() ==> tree_wf(#[trigger] oc[i]),
        forall|i: int| 0 <= i < nc.len() ==> tree_wf(#[trigger] nc[i]),
        nc.len() <= usize::MAX,
    ensures
        ({
            match spec_diff_children(oc, nc) {
                Some(all) => {
                    &&& children_final_len(dc.len(), all) == nc.len()
                    &&& children_applicable(dc, all, nc.len())
                    &&& apply_children(dc, all, nc.len()).len() == nc.len()
                    &&& forall|i: int| 0 <= i < nc.len() ==> dom_equiv(
                        #[trigger] apply_children(dc, all, nc.len())[i],
                        to_dom(nc[i]),
                    )
                },
                None => {
                    &&& dc.len() == nc.len()
                    &&& forall|i: int| 0 <= i < nc.len() ==> dom_equiv(#[trigger] dc[i], to_dom(nc[i]))
                },
            }
        }),
    decreases oc, 1int,
{
    lemma_scan(oc, nc, nc.len());
    let (ps, used) = children_scan(oc, nc, nc.len());
    let r = removals(oc.len(), used);
    let all = ps + r;
    lemma_removals(oc.len(), used);
    assert(used_below(used, oc.len()) =~= used);
    lemma_no_removes(ps);
    assert forall|ni: nat| true implies #[trigger] last_insert_index(all, ni) == last_insert_index(ps, ni)
        && last_update_index(all, ni) == last_update_index(ps, ni) by {
        lemma_append_removes(ps, r, ni);
    }
    lemma_append_removes(ps, r, 0);
    assert(remove_indices(all) =~= remove_indices(r));
    insert_indices(ps).unique_seq_to_set();
    remove_indices(r).unique_seq_to_set();
    assert(children_final_len(dc.len(), all) == nc.len());
    // Each new position, by what the scan recorded for it.
    assert forall|ni: nat| ni < nc.len() implies #[trigger] position_ok(dc, all, ni) && dom_equiv(
        child_after(dc, all, ni),
        to_dom(nc[ni as int]),
    ) by {
        let i = ni as int;
        assert(outcome_ok(oc, nc, ps, ni));
        lemma_last_index_bound(ps, ni);
        match last_insert_index(ps, ni) {
            Some(j) => {
                assert(all[j] == ps[j]);
                lemma_dom_equiv_refl(nc[i]);
            },
            None => match last_update_index(ps, ni) {
                Some(j) => {
                    assert(all[j] == ps[j]);
                    let oi = ps[j]->old_index;
                    assert(decreases_to!(oc => oc[oi as int]));
                    lemma_apply_diff_to(dc[oi as int], oc[oi as int], nc[i]);
                },
                None => {
                    assert(decreases_to!(oc => oc[i]));
                    lemma_apply_diff_to(dc[i], oc[i], nc[i]);
                },
            },
        }
    }
    lemma_apply_children_index(dc, all, nc.len());
    assert forall|i: int| 0 <= i < nc.len() implies dom_equiv(
        #[trigger] apply_children(dc, all, nc.len())[i],
        to_dom(nc[i]),
    ) by {
        assert(position_ok(dc, all, i as nat));
    }
    lemma_children_applicable_from(dc, all, nc.len());
    if all.len() == 0 {
        assert(insert_indices(ps).len() == 0);
        assert(dc.len() == nc.len());
        assert forall|i: int| 0 <= i < nc.len() implies dom_equiv(#[trigger] dc[i], to_dom(nc[i])) by {
            assert(position_ok(dc, all, i as nat));
            assert(last_insert_index(all, i as nat) is None);
            assert(last_update_index(all, i as nat) is None);
        }
    }
}

/// Applying `spec_diff(old, new)` to a document equivalent to the one built
/// from `old` gives a document equivalent to the one built from `new`, and
/// never reads past the old children.
pub proof fn lemma_apply_diff_to(d: DomView, old: NodeView, new: NodeView)
    requires
        dom_equiv(d, to_dom(old)),
        tree_wf(old),
        tree_wf(new),
    ensures
        applicable(d, spec_diff(old, new)),
        dom_equiv(spec_apply(d, spec_diff(old, new)), to_dom(new)),
    decreases old, 0int,
{
    match old {
        NodeView::Text(a) => match new {
            NodeView::Text(b) => {},
            NodeView::Element { .. } => {
                lemma_dom_equiv_refl(new);
            },
        },
        NodeView::Element { tag: ot, attrs: oa, key: ok, children: oc } => match new {
            NodeView::Element { tag: nt, attrs: na, key: nk, children: nc } => {
                if ot == nt && ok == nk {
                    let da = d->attrs;
                    let dc = d->children;
                    lemma_attrs_patch(da, oa, na);
                    lemma_to_doms(nc, nc.len());
                    lemma_to_doms(oc, oc.len());
                    assert forall|i: int| 0 <= i < oc.len() implies dom_equiv(#[trigger] dc[i], to_dom(oc[i])) by {
                        assert(to_doms(oc, oc.len())[i] == to_dom(oc[i]));
                    }
                    lemma_children_roundtrip(dc, oc, nc);
                } else {
                    lemma_dom_equiv_refl(new);
                }
            },
            NodeView::Text(_) => {
                lemma_dom_equiv_refl(new);
            },
        },
    }
}

/// Applying `spec_diff(old, new)` to the document built from `old` gives a
/// document equivalent to the one built from `new`, and never reads past
/// the old children.
pub proof fn lemma_apply_diff(old: NodeView, new: NodeView)
    requires
        tree_wf(old),
        tree_wf(new),
    ensures
        applicable(to_dom(old), spec_diff(old, new)),
        dom_equiv(spec_apply(to_dom(old), spec_diff(old, new)), to_dom(new)),
{
    lemma_dom_equiv_refl(old);
    lemma_apply_diff_to(to_dom(old), old, new);
}

/// A diff of `NoOp` means the two trees build equivalent documents.
pub proof fn lemma_no_op_means_equivalent(old: NodeView, new: NodeView)
    requires
        tree_wf(old),
        tree_wf(new),
        spec_diff(old, new) is NoOp,
    ensures
        dom_equiv(to_dom(old), to_dom(new)),
{
    lemma_apply_diff(old, new);
}

/// Two attribute lists with ascending names that bind the same names to the
/// same values are the same list.
proof fn lemma_sorted_same_lookup(a: Seq<AttrView>, b: Seq<AttrView>)
    requires
        attrs_sorted(a),
        attrs_sorted(b),
        forall|k: Seq<char>| #[trigger] attr_lookup(a, k) == attr_lookup(b, k),
    ensures
        a == b,
    decreases a.len(),
{
    if a.len() == 0 {
        if b.len() > 0 {
            assert(attr_lookup(b, b[0].0) is Some);
            assert(attr_lookup(a, b[0].0) is None);
        }
        assert(a =~= b);
    } else {
        if b.len() == 0 {
            assert(attr_lookup(a, a[0].0) is Some);
            assert(attr_lookup(b, a[0].0) is None);
        }
        let x = a[0];
        let y = b[0];
        assert(attr_lookup(a, x.0) == Some(x.1));
        assert(attr_lookup(b, y.0) == Some(y.1));
        if x.0 != y.0 {
            crate::attrs::lemma_lookup_some(b, x.0);
            crate::attrs::lemma_lookup_some(a, y.0);
            let j = choose|j: int| 0 <= j < b.len() && #[trigger] b[j].0 == x.0;
            let i = choose|i: int| 0 <= i < a.len() && #[trigger] a[i].0 == y.0;
            assert(j > 0 && i > 0);
            assert(crate::text::str_lt(b[0].0, b[j].0));
            assert(crate::text::str_lt(a[0].0, a[i].0));
            crate::text::lemma_str_lt_transitive(x.0, y.0, x.0);
            lemma_str_lt_irreflexive(x.0);
        }
        assert(x == y);
        let ta = a.drop_first();
        let tb = b.drop_first();
        assert forall|k: Seq<char>| #[trigger] attr_lookup(ta, k) == attr_lookup(tb, k) by {
            if k == x.0 {
                assert forall|i: int| 0 <= i < ta.len() implies (#[trigger] ta[i]).0 != k by {
                    assert(crate::text::str_lt(a[0].0, a[i + 1].0));
                    lemma_str_lt_irreflexive(k);
                }
                assert forall|i: int| 0 <= i < tb.len() implies (#[trigger] tb[i]).0 != k by {
                    assert(crate::text::str_lt(b[0].0, b[i + 1].0));
                    lemma_str_lt_irreflexive(k);
                }
                lemma_lookup_none(ta, k);
                lemma_lookup_none(tb, k);
            } else {
                assert(attr_lookup(a, k) == attr_lookup(ta, k));
                assert(attr_lookup(b, k) == attr_lookup(tb, k));
            }
        }
        assert(attrs_sorted(ta)) by {
            assert forall|i: int, j: int| 0 <= i < j < ta.len() implies crate::text::str_lt(
                #[trigger] ta[i].0,
                #[trigger] ta[j].0,
            ) by {
                assert(crate::text::str_lt(a[i + 1].0, a[j + 1].0));
            }
        }
        assert(attrs_sorted(tb)) by {
            assert forall|i: int, j: int| 0 <= i < j < tb.len() implies crate::text::str_lt(
                #[trigger] tb[i].0,
                #[trigger] tb[j].0,
            ) by {
                assert(crate::text::str_lt(b[i + 1].0, b[j + 1].0));
            }
        }
        lemma_sorted_same_lookup(ta, tb);
        assert(a =~= b) by {
            assert forall|i: int| 0 <= i < a.len() implies a[i] == b[i] by {
                if i > 0 {
                    assert(a[i] == ta[i - 1]);
                    assert(b[i] == tb[i - 1]);
                }
            }
        }
    }
}

/// A diff of `NoOp` means the two trees are the same.
proof fn lemma_no_op_equal(old: NodeView, new: NodeView)
    requires
        tree_wf(old),
        tree_wf(new),
        spec_diff(old, new) is NoOp,
    ensures
        old == new,
    decreases old,
{
    match old {
        NodeView::Text(_) => {},
        NodeView::Element { tag: ot, attrs: oa, key: ok, children: oc } => match new {
            NodeView::Text(_) => {},
            NodeView::Element { tag: nt, attrs: na, key: nk, children: nc } => {
                assert(ot == nt && ok == nk);
                let set = attrs_to_set(oa, na);
                let remove = attrs_to_remove(oa, na);
                assert(set.len() == 0 && remove.len() == 0);
                lemma_sorted_distinct(na);
                lemma_to_set(oa, na);
                lemma_to_remove(oa, na);
                assert forall|k: Seq<char>| #[trigger] attr_lookup(oa, k) == attr_lookup(na, k) by {
                    assert(attr_lookup(set, k) is None);
                    assert(!remove.contains(k));
                }
                lemma_sorted_same_lookup(oa, na);
                let (ps, used) = children_scan(oc, nc, nc.len());
                let rm = removals(oc.len(), used);
                assert((ps + rm).len() == 0);
                assert(ps.len() == 0 && rm.len() == 0);
                lemma_scan(oc, nc, nc.len());
                lemma_removals(oc.len(), used);
                assert(insert_indices(ps) == Seq::<nat>::empty());
                assert(remove_indices(rm) == Seq::<nat>::empty());
                assert(used_below(used, oc.len()) =~= used);
                assert(nc.len() == oc.len());
                assert forall|i: int| 0 <= i < nc.len() implies oc[i] == nc[i] by {
                    assert(outcome_ok(oc, nc, ps, i as nat));
                    assert(last_insert_index(ps, i as nat) is None);
                    assert(last_update_index(ps, i as nat) is None);
                    assert(decreases_to!(old => oc[i]));
                    lemma_no_op_equal(oc[i], nc[i]);
                }
                assert(oc =~= nc);
            },
        },
    }
}

/// A diff is `NoOp` exactly when the two trees are the same: nothing
/// changed gives no patch, and no patch means nothing changed.
pub proof fn lemma_no_op_iff_equal(old: NodeView, new: NodeView)
    requires
        tree_wf(old),
        tree_wf(new),
    ensures
        (spec_diff(old, new) is NoOp) <==> old == new,
{
    if old == new {
        lemma_diff_identical(old);
    } else if spec_diff(old, new) is NoOp {
        lemma_no_op_equal(old, new);
    }
}

/// A new position that no `Insert` and no `Update` of the child patches
/// names keeps the old child at the same position, which did not change.
pub proof fn lemma_unnamed_position_unchanged(oc: Seq<NodeView>, nc: Seq<NodeView>, ni: nat)
    requires
        ni < nc.len(),
        spec_diff_children(oc, nc) matches Some(all) ==> last_insert_index(all, ni) is None && last_update_index(
            all,
            ni,
        ) is None,
    ensures
        ni < oc.len(),
        spec_diff(oc[ni as int], nc[ni as int]) is NoOp,
{
    lemma_scan(oc, nc, nc.len());
    let (ps, used) = children_scan(oc, nc, nc.len());
    let r = removals(oc.len(), used);
    lemma_removals(oc.len(), used);
    lemma_append_removes(ps, r, ni);
    assert(outcome_ok(oc, nc, ps, ni));
}

// ---------------------------------------------------------------------
// Diffing a tree against itself.

/// With every old position before `ni` used, the first unused old child
/// from `from` on with key `k` is the one at `ni`, when it carries `k` and
/// is unused.
proof fn lemma_first_unused_at(c: Seq<NodeView>, used: Set<nat>, k: Seq<char>, from: nat, ni: nat)
    requires
        from <= ni < c.len(),
        key_of(c[ni as int]) == Some(k),
        !used.contains(ni),
        forall|x: nat| from <= x < ni ==> #[trigger] used.contains(x),
    ensures
        first_unused_keyed(c, used, k, from) == Some(ni),
    decreases ni - from,
{
    if from < ni {
        assert(used.contains(from));
        lemma_first_unused_at(c, used, k, from + 1, ni);
    }
}

/// Scanning children against themselves: each new child is matched with
/// the old child at its own position, which needs no patch.
proof fn lemma_scan_identical(c: Seq<NodeView>, n: nat)
    requires
        n <= c.len(),
        forall|i: int| 0 <= i < c.len() ==> tree_wf(#[trigger] c[i]),
    ensures
        children_scan(c, c, n).0 == Seq::<ChildPatchView>::empty(),
        children_scan(c, c, n).1 == Set::new(|x: nat| x < n),
    decreases c, n,
{
    if n > 0 {
        let ni = (n - 1) as nat;
        lemma_scan_identical(c, ni);
        let used0 = children_scan(c, c, ni).1;
        let child = c[ni as int];
        match key_of(child) {
            Some(k) => {
                assert(has_keyed(c, k)) by {
                    assert(key_of(c[ni as int]) == Some(k));
                }
                lemma_first_unused_at(c, used0, k, 0, ni);
            },
            None => {},
        }
        assert(matched_index(c, used0, child, ni) == Some(ni));
        assert(decreases_to!(c => c[ni as int]));
        lemma_diff_identical(child);
        assert(children_scan(c, c, n).1 =~= Set::new(|x: nat| x < n));
    }
}

proof fn lemma_removals_none(count: nat, used: Set<nat>)
    requires
        forall|x: nat| x < count ==> #[trigger] used.contains(x),
    ensures
        removals(count, used) == Seq::<ChildPatchView>::empty(),
    decreases count,
{
    if count > 0 {
        lemma_removals_none((count - 1) as nat, used);
        assert(used.contains((count - 1) as nat));
    }
}

/// Diffing a tree against itself gives no patch: nothing changed, so the
/// diff is `NoOp`.
pub proof fn lemma_diff_identical(n: NodeView)
    requires
        tree_wf(n),
    ensures
        spec_diff(n, n) == PatchView::NoOp,
    decreases n, 0int,
{
    match n {
        NodeView::Text(_) => {},
        NodeView::Element { attrs, children, .. } => {
            lemma_sorted_distinct(attrs);
            lemma_to_set(attrs, attrs);
            lemma_to_remove(attrs, attrs);
            assert forall|i: int| 0 <= i < attrs.len() implies attr_lookup(attrs, #[trigger] attrs[i].0) == Some(
                attrs[i].1,
            ) by {
                lemma_lookup_distinct(attrs, i);
            }
            let set = attrs_to_set(attrs, attrs);
            if set.len() > 0 {
                let j = choose|j: int| 0 <= j < attrs.len() && set[0].0 == attrs[j].0;
                assert(attr_lookup(set, set[0].0) is Some) by {
                    crate::attrs::lemma_lookup_some(set, set[0].0);
                }
            }
            let remove = attrs_to_remove(attrs, attrs);
            if remove.len() > 0 {
                assert(remove.contains(remove[0]));
            }
            lemma_scan_identical(children, children.len());
            lemma_removals_none(children.len(), Set::new(|x: nat| x < children.len()));
            assert(children_scan(children, children, children.len()).0 + removals(
                children.len(),
                children_scan(children, children, children.len()).1,
            ) =~= Seq::<ChildPatchView>::empty());
        },
    }
}

/// Every tree that exists at run time is well formed: attribute maps keep
/// their names ascending, and a `Vec` counts its children in a `usize`.
pub fn check_tree(n: &VNode)
    ensures
        tree_wf(n@),
    decreases n,
{
    match n {
        VNode::Text(_) => {},
        VNode::Element(el) => {
            el.attrs.check_sorted();
            let len = el.children.len();
            let mut i: usize = 0;
            while i < len
                invariant
                    *n == VNode::Element(*el),
                    len == el.children.len(),
                    i <= len,
                    forall|j: int| 0 <= j < i ==> tree_wf(#[trigger] el.children@[j]@),
                decreases len - i,
            {
                proof {
                    assert(decreases_to!(*n => (*n)->Element_0));
                    assert(decreases_to!(*el => el.children));
                    assert(decreases_to!(el.children => el.children[i as int]));
                }
                check_tree(&el.children[i]);
                i = i + 1;
            }
            proof {
                lemma_nodes_view(el.children@);
                let cv = nodes_view(el.children@);
                assert forall|j: int| 0 <= j < cv.len() implies tree_wf(#[trigger] cv[j]) by {
                    assert(cv[j] == el.children@[j]@);
                }
            }
        },
    }
}


// ---------------------------------------------------------------------
// Keyed children keep their identity.

/// A match by key is an old child that carries the key and is not yet used.
proof fn lemma_first_unused_keyed_found(c: Seq<NodeView>, used: Set<nat>, k: Seq<char>, from: nat)
    ensures
        first_unused_keyed(c, used, k, from) matches Some(x) ==> x < c.len() && key_of(c[x as int]) == Some(k)
            && !used.contains(x),
    decreases c.len() - from,
{
    if from < c.len() {
        lemma_first_unused_keyed_found(c, used, k, from + 1);
    }
}

/// When only old child `oi` carries key `k` and it is unused, the key
/// match from `from` on is `oi`.
proof fn lemma_first_unused_only(c: Seq<NodeView>, used: Set<nat>, k: Seq<char>, from: nat, oi: nat)
    requires
        from <= oi < c.len(),
        key_of(c[oi as int]) == Some(k),
        !used.contains(oi),
        forall|x: int| 0 <= x < c.len() && x != oi ==> key_of(#[trigger] c[x]) != Some(k),
    ensures
        first_unused_keyed(c, used, k, from) == Some(oi),
    decreases oi - from,
{
    if from < oi {
        assert(key_of(c[from as int]) != Some(k));
        lemma_first_unused_only(c, used, k, from + 1, oi);
    }
}

/// Before any new child carrying `k` is scanned, the only old child with
/// key `k` is still unused.
proof fn lemma_keyed_unused(oc: Seq<NodeView>, nc: Seq<NodeView>, n: nat, oi: nat, k: Seq<char>)
    requires
        n <= nc.len(),
        oi < oc.len(),
        key_of(oc[oi as int]) == Some(k),
        forall|j: int| 0 <= j < n ==> key_of(#[trigger] nc[j]) != Some(k),
    ensures
        !children_scan(oc, nc, n).1.contains(oi),
    decreases n,
{
    if n > 0 {
        let ni = (n - 1) as nat;
        lemma_keyed_unused(oc, nc, ni, oi, k);
        let used0 = children_scan(oc, nc, ni).1;
        let child = nc[ni as int];
        assert(key_of(child) != Some(k));
        match key_of(child) {
            Some(k2) => {
                lemma_first_unused_keyed_found(oc, used0, k2, 0);
            },
            None => {},
        }
    }
}

/// No `Insert` at position `ni` when there is no last one.
proof fn lemma_no_insert_at(ps: Seq<ChildPatchView>, ni: nat)
    requires
        last_insert_index(ps, ni) is None,
    ensures
        forall|j: int| 0 <= j < ps.len() ==> !(#[trigger] ps[j] matches ChildPatchView::Insert { index, .. } && index == ni),
    decreases ps.len(),
{
    if ps.len() > 0 {
        lemma_no_insert_at(ps.drop_last(), ni);
        assert forall|j: int| 0 <= j < ps.len() implies !(#[trigger] ps[j] matches ChildPatchView::Insert { index, .. }
            && index == ni) by {
            if j < ps.len() - 1 {
                assert(ps[j] == ps.drop_last()[j]);
            }
        }
    }
}

/// Scanning past new position `ni` adds patches for later positions only:
/// what was recorded for `ni` stays, at the same place.
proof fn lemma_scan_keeps(oc: Seq<NodeView>, nc: Seq<NodeView>, ni: nat, n: nat)
    requires
        ni < n <= nc.len(),
    ensures
        children_scan(oc, nc, (ni + 1) as nat).0.len() <= children_scan(oc, nc, n).0.len(),
        forall|j: int| 0 <= j < children_scan(oc, nc, (ni + 1) as nat).0.len() ==> #[trigger] children_scan(oc, nc, n).0[j]
            == children_scan(oc, nc, (ni + 1) as nat).0[j],
        last_insert_index(children_scan(oc, nc, n).0, ni) == last_insert_index(children_scan(oc, nc, (ni + 1) as nat).0, ni),
        last_update_index(children_scan(oc, nc, n).0, ni) == last_update_index(children_scan(oc, nc, (ni + 1) as nat).0, ni),
    decreases n,
{
    if n > ni + 1 {
        let m = (n - 1) as nat;
        lemma_scan_keeps(oc, nc, ni, m);
        let ps0 = children_scan(oc, nc, m).0;
        let ps = children_scan(oc, nc, n).0;
        if ps != ps0 {
            let x = ps.last();
            assert(ps == ps0.push(x));
            assert((x matches ChildPatchView::Insert { index, .. } && index == m) || (x matches ChildPatchView::Update {
                new_index,
                ..
            } && new_index == m));
            lemma_last_index_push(ps0, x, ni);
        }
    }
}

/// Children keep their identity by key: a new child whose key exactly one
/// old child carries, with no earlier new child carrying it, is never
/// inserted afresh. It is matched with that old child: an `Update` from the
/// old child's position to its own carries the diff of the two, unless it
/// stayed at its position unchanged, in which case no patch names it.
pub proof fn lemma_keyed_child_tracked(oc: Seq<NodeView>, nc: Seq<NodeView>, ni: nat, oi: nat, k: Seq<char>)
    requires
        ni < nc.len(),
        oi < oc.len(),
        key_of(nc[ni as int]) == Some(k),
        key_of(oc[oi as int]) == Some(k),
        forall|x: int| 0 <= x < oc.len() && x != oi ==> key_of(#[trigger] oc[x]) != Some(k),
        forall|j: int| 0 <= j < ni ==> key_of(#[trigger] nc[j]) != Some(k),
    ensures
        match spec_diff_children(oc, nc) {
            Some(ps) => {
                &&& forall|j: int| 0 <= j < ps.len() ==> !(#[trigger] ps[j] matches ChildPatchView::Insert { index, .. }
                    && index == ni)
                &&& (oi != ni || !(spec_diff(oc[oi as int], nc[ni as int]) is NoOp)) ==> exists|j: int|
                    0 <= j < ps.len() && #[trigger] ps[j] == (ChildPatchView::Update {
                        old_index: oi,
                        new_index: ni,
                        patch: spec_diff(oc[oi as int], nc[ni as int]),
                    })
            },
            None => oi == ni && spec_diff(oc[oi as int], nc[ni as int]) is NoOp,
        },
{
    let n1 = (ni + 1) as nat;
    lemma_keyed_unused(oc, nc, ni, oi, k);
    lemma_scan(oc, nc, ni);
    let (ps0, used0) = children_scan(oc, nc, ni);
    assert(has_keyed(oc, k)) by {
        assert(key_of(oc[oi as int]) == Some(k));
    }
    lemma_first_unused_only(oc, used0, k, 0, oi);
    assert(matched_index(oc, used0, nc[ni as int], ni) == Some(oi));
    let inner = spec_diff(oc[oi as int], nc[ni as int]);
    let upd = ChildPatchView::Update { old_index: oi, new_index: ni, patch: inner };
    let ps1 = children_scan(oc, nc, n1).0;
    assert(last_insert_index(ps0, ni) is None);
    assert(last_update_index(ps0, ni) is None);
    if oi != ni || !(inner is NoOp) {
        assert(ps1 == ps0.push(upd));
        lemma_last_index_push(ps0, upd, ni);
    } else {
        assert(ps1 == ps0);
    }
    lemma_scan_keeps(oc, nc, ni, nc.len());
    let (ps, used) = children_scan(oc, nc, nc.len());
    let r = removals(oc.len(), used);
    lemma_removals(oc.len(), used);
    lemma_append_removes(ps, r, ni);
    lemma_last_index_bound(ps + r, ni);
    match spec_diff_children(oc, nc) {
        Some(all) => {
            assert(all == ps + r);
            lemma_no_insert_at(all, ni);
            if oi != ni || !(inner is NoOp) {
                let j = ps0.len() as int;
                assert(ps1[j] == upd);
                assert(ps[j] == upd);
                assert(all[j] == upd);
            }
        },
        None => {
            if oi != ni || !(inner is NoOp) {
                assert(ps.len() > ps0.len());
                assert((ps + r).len() > 0);
            }
        },
    }
}

} // verus!
