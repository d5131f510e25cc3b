use std::collections::BTreeMap;

use rreact::hooks::{any_dirty, clear_all_dirty};
use rreact::text::{str_equal, str_less};
use rreact::{
    apply_patch, can_apply, diff, drop_instance, render_to_vnode, run_component, take_dirty, use_state,
    vnode_to_node, App, AttrMap, AttrsPatch, ChildPatch, DomAttribute, DomDocument, DomElement, DomNode,
    HookStore, Patch, VNode,
};

/// A document node with each element's attributes as a map: two documents
/// that differ only in attribute order compare equal.
#[derive(Debug, PartialEq)]
enum Shape {
    Element(String, BTreeMap<String, String>, Vec<Shape>),
    Text(String),
    Comment(String),
}

fn shape(n: &DomNode) -> Shape {
    match n {
        DomNode::Text(t) => Shape::Text(t.clone()),
        DomNode::Comment(t) => Shape::Comment(t.clone()),
        DomNode::Element(el) => {
            let mut attrs = BTreeMap::new();
            for a in &el.attrs {
                assert!(attrs.insert(a.name.clone(), a.value.clone()).is_none(), "attribute named twice");
            }
            Shape::Element(el.tag_name.clone(), attrs, el.children.iter().map(shape).collect())
        }
    }
}

fn assert_round_trip(old: &VNode, new: &VNode) {
    let mut real = vnode_to_node(old);
    let patch = diff(old, new);
    assert!(can_apply(&real, &patch));
    apply_patch(&mut real, &patch);
    assert_eq!(shape(&real), shape(&vnode_to_node(new)));
}

fn li(key: &str, text: &str) -> VNode {
    VNode::element("li").key(key).child(VNode::text(text)).build()
}

#[test]
fn applying_the_diff_reproduces_the_new_tree() {
    let old = VNode::element("ul")
        .attr("class", "list")
        .attr("id", "x")
        .child(li("a", "A"))
        .child(li("b", "B"))
        .child(VNode::text("tail"))
        .child(li("c", "C"))
        .build();
    let new = VNode::element("ul")
        .attr("class", "list2")
        .attr("data-n", "3")
        .child(li("c", "C!"))
        .child(VNode::element("p").child(VNode::text("new")).build())
        .child(li("a", "A"))
        .build();
    assert_round_trip(&old, &new);
    assert_round_trip(&new, &old);
}

#[test]
fn applying_the_diff_handles_type_changes_and_unkeyed_children() {
    let old = VNode::element("div").child(VNode::text("a")).child(VNode::element("b").build()).build();
    let new = VNode::element("div")
        .child(VNode::element("i").build())
        .child(VNode::text("b"))
        .child(VNode::text("c"))
        .build();
    assert_round_trip(&old, &new);
    assert_round_trip(&new, &old);
    assert_round_trip(&VNode::text("x"), &new);
    assert_round_trip(&new, &VNode::text("x"));
}

#[test]
fn applying_the_diff_with_repeated_keys_still_reproduces_the_new_tree() {
    let old = VNode::element("ul").child(li("a", "1")).child(li("a", "2")).build();
    let new = VNode::element("ul").child(li("a", "2")).child(li("a", "3")).child(li("a", "4")).build();
    assert_round_trip(&old, &new);
    assert_round_trip(&new, &old);
}

#[test]
fn a_tree_diffed_against_itself_gives_no_op() {
    let tree = VNode::element("section")
        .attr("b", "2")
        .attr("a", "1")
        .child(VNode::element("ul").child(li("x", "X")).child(li("y", "Y")).build())
        .child(VNode::text("t"))
        .build();
    assert_eq!(diff(&tree, &tree.clone()), Patch::NoOp);
}

#[test]
fn siblings_sharing_a_key_still_give_no_op_against_themselves() {
    // Each new child takes the first old child with its key that no earlier
    // child has taken, so both keep their own positions.
    let tree = VNode::element("ul").child(li("a", "1")).child(li("a", "1")).build();
    assert_eq!(diff(&tree, &tree.clone()), Patch::NoOp);
}

#[test]
fn siblings_sharing_a_key_are_matched_in_order() {
    let old = VNode::element("ul").child(li("a", "1")).child(li("a", "2")).build();
    let new = VNode::element("ul").child(li("a", "1")).child(li("a", "3")).child(li("a", "4")).build();
    let Patch::UpdateElement { attrs: None, children: Some(patches) } = diff(&old, &new) else {
        panic!("expected a children update")
    };
    assert_eq!(
        patches,
        vec![
            ChildPatch::Update { old_index: 1, new_index: 1, patch: Box::new(diff(&li("a", "2"), &li("a", "3"))) },
            ChildPatch::Insert { index: 2, node: li("a", "4") },
        ]
    );
    assert_round_trip(&old, &new);
}

#[test]
fn attribute_changes_come_out_in_name_order() {
    let a = VNode::element("div").attr("z", "1").attr("m", "1").attr("a", "1").attr("q", "1").build();
    let b = VNode::element("div").attr("z", "2").attr("m", "1").attr("b", "2").build();
    assert_eq!(
        diff(&a, &b),
        Patch::UpdateElement {
            attrs: Some(AttrsPatch {
                set: vec![("b".to_string(), "2".to_string()), ("z".to_string(), "2".to_string())],
                remove: vec!["a".to_string(), "q".to_string()],
            }),
            children: None,
        }
    );
}

#[test]
fn a_keyed_child_without_old_match_falls_back_to_its_position() {
    // The new keyed child has no old child with its key; the old child at its
    // position has no key, so the two are compared in place.
    let a = VNode::element("ul").child(VNode::element("li").child(VNode::text("A")).build()).build();
    let b = VNode::element("ul").child(li("k", "A")).build();
    assert_eq!(
        diff(&a, &b),
        Patch::UpdateElement {
            attrs: None,
            children: Some(vec![ChildPatch::Update {
                old_index: 0,
                new_index: 0,
                patch: Box::new(Patch::Replace(li("k", "A"))),
            }]),
        }
    );
}

#[test]
fn different_key_produces_replace() {
    let a = li("a", "A");
    let b = li("b", "A");
    assert_eq!(diff(&a, &b), Patch::Replace(li("b", "A")));
    assert_eq!(diff(&VNode::text("t"), &li("b", "A")), Patch::Replace(li("b", "A")));
    assert_eq!(diff(&li("b", "A"), &VNode::text("t")), Patch::Replace(VNode::text("t")));
}

#[test]
fn attribute_map_keeps_names_sorted_and_last_binding() {
    let mut m = AttrMap::new();
    m.insert("b".to_string(), "1".to_string());
    m.insert("a".to_string(), "2".to_string());
    m.insert("c".to_string(), "3".to_string());
    m.insert("b".to_string(), "4".to_string());
    assert_eq!(m.len(), 3);
    let names: Vec<&str> = m.entries().iter().map(|(n, _)| n.as_str()).collect();
    assert_eq!(names, vec!["a", "b", "c"]);
    assert_eq!(m.get("b"), Some(&"4".to_string()));
    assert!(m.contains_key("c"));
    assert!(!m.contains_key("d"));
    assert_eq!(m.get("d"), None);
}

#[test]
fn string_order_is_by_code_point() {
    assert!(str_less("a", "b"));
    assert!(str_less("ab", "abc"));
    assert!(!str_less("abc", "ab"));
    assert!(!str_less("x", "x"));
    assert!(str_less("Z", "a"));
    assert!(str_less("é", "日"));
    assert!(str_equal("日本", "日本"));
    assert!(!str_equal("日本", "日"));
}

#[test]
fn builder_children_appends_in_order() {
    let node = VNode::element("ol")
        .child(VNode::text("0"))
        .children(vec![VNode::text("1"), VNode::text("2")])
        .build();
    let VNode::Element(el) = &node else { panic!("expected element") };
    assert_eq!(el.children, vec![VNode::text("0"), VNode::text("1"), VNode::text("2")]);
    assert_eq!(node.key(), None);
    assert_eq!(li("k", "x").key(), Some("k"));
    assert_eq!(VNode::text("t").key(), None);
}

#[test]
fn patch_naming_missing_children_cannot_apply() {
    let real = vnode_to_node(&VNode::element("ul").child(VNode::text("a")).build());
    let remove_far = Patch::UpdateElement { attrs: None, children: Some(vec![ChildPatch::Remove { index: 5 }, ChildPatch::Remove { index: 6 }]) };
    assert!(!can_apply(&real, &remove_far));
    let update_far = Patch::UpdateElement {
        attrs: None,
        children: Some(vec![ChildPatch::Update { old_index: 3, new_index: 0, patch: Box::new(Patch::NoOp) }]),
    };
    assert!(!can_apply(&real, &update_far));
    let grow = Patch::UpdateElement { attrs: None, children: Some(vec![ChildPatch::Insert { index: 1, node: VNode::text("b") }]) };
    assert!(can_apply(&real, &grow));
    // A patch for another kind of node leaves the node as it is.
    let mut text = DomNode::Text("t".to_string());
    assert!(can_apply(&text, &grow));
    apply_patch(&mut text, &grow);
    assert_eq!(text, DomNode::Text("t".to_string()));
}

#[test]
fn rendering_skips_comments_and_lets_the_last_attribute_win() {
    let doc = DomDocument {
        children: vec![
            DomNode::Comment("c".to_string()),
            DomNode::Element(DomElement {
                tag_name: "p".to_string(),
                attrs: vec![
                    DomAttribute { name: "id".to_string(), value: "1".to_string() },
                    DomAttribute { name: "id".to_string(), value: "2".to_string() },
                ],
                children: vec![DomNode::Comment("inner".to_string()), DomNode::Text("x".to_string())],
            }),
        ],
    };
    let nodes = render_to_vnode(&doc, &|_: &DomElement, _: &Vec<&DomElement>, _: &Vec<&DomElement>| None);
    assert_eq!(nodes, vec![VNode::element("p").attr("id", "2").child(VNode::text("x")).build()]);
    let DomNode::Element(p) = &doc.children[1] else { panic!("expected element") };
    assert_eq!(p.attr("id"), Some("1"));
}

#[test]
fn tick_and_apply_keeps_the_document_in_step_with_the_tree() {
    let mut store: HookStore<i32> = HookStore::new();
    let root = 200;
    let setter = run_component(&mut store, root, |s: &mut HookStore<i32>| use_state(s, || 1i32).1);
    let mut app = App::mount(&mut store, root, |s: &mut HookStore<i32>| {
        let (n, _) = use_state(s, || 1i32);
        let mut list = VNode::element("ul").attr("data-n", &n.to_string());
        for i in 0..n {
            list = list.child(li(&i.to_string(), &format!("item {i}")));
        }
        list.build()
    });
    let mut real = vnode_to_node(app.tree());
    assert!(!app.tick_and_apply(&mut store, &mut real));

    setter.set(&mut store, 3);
    assert!(any_dirty(&store));
    assert!(app.tick_and_apply(&mut store, &mut real));
    assert!(!any_dirty(&store));
    assert_eq!(shape(&real), shape(&vnode_to_node(app.tree())));

    setter.set(&mut store, 2);
    assert!(app.tick_and_apply(&mut store, &mut real));
    assert_eq!(shape(&real), shape(&vnode_to_node(app.tree())));
    drop_instance(&mut store, root);
}

#[test]
fn clearing_the_flags_stops_a_tick() {
    let mut store: HookStore<i32> = HookStore::new();
    let setter = run_component(&mut store, 300, |s: &mut HookStore<i32>| use_state(s, || 0i32).1);
    let mut app = App::mount(&mut store, 301, |_: &mut HookStore<i32>| VNode::text("x"));
    setter.set(&mut store, 1);
    clear_all_dirty(&mut store);
    assert!(!take_dirty(&mut store, 300));
    assert!(app.tick(&mut store).is_none());
}

#[test]
fn init_runs_only_for_a_new_slot() {
    let mut store: HookStore<i32> = HookStore::new();
    let first = run_component(&mut store, 400, |s: &mut HookStore<i32>| use_state(s, || 7i32).0);
    let second = run_component(&mut store, 400, |s: &mut HookStore<i32>| use_state(s, || 99i32).0);
    assert_eq!((first, second), (7, 7));
    drop_instance(&mut store, 400);
    let third = run_component(&mut store, 400, |s: &mut HookStore<i32>| use_state(s, || 99i32).0);
    assert_eq!(third, 99);
}
