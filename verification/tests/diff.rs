use rreact::{diff, AttrsPatch, ChildPatch, Patch, VNode};

#[test]
fn identical_trees_produce_no_op() {
    let a = VNode::element("div").attr("class", "x").child(VNode::text("hi")).build();
    let b = a.clone();
    assert_eq!(diff(&a, &b), Patch::NoOp);
}

#[test]
fn text_change_produces_update_text() {
    let a = VNode::text("old");
    let b = VNode::text("new");
    assert_eq!(diff(&a, &b), Patch::UpdateText("new".to_string()));
}

#[test]
fn different_tag_produces_replace() {
    let a = VNode::element("div").build();
    let b = VNode::element("span").build();
    assert_eq!(diff(&a, &b), Patch::Replace(b));
}

#[test]
fn attribute_change_produces_update_element_with_attrs_only() {
    let a = VNode::element("div").attr("class", "a").build();
    let b = VNode::element("div").attr("class", "b").build();
    assert_eq!(
        diff(&a, &b),
        Patch::UpdateElement {
            attrs: Some(AttrsPatch { set: vec![("class".to_string(), "b".to_string())], remove: vec![] }),
            children: None,
        }
    );
}

#[test]
fn removed_attribute_is_reported() {
    let a = VNode::element("div").attr("disabled", "").build();
    let b = VNode::element("div").build();
    assert_eq!(
        diff(&a, &b),
        Patch::UpdateElement {
            attrs: Some(AttrsPatch { set: vec![], remove: vec!["disabled".to_string()] }),
            children: None,
        }
    );
}

#[test]
fn appending_a_child_produces_an_insert_patch() {
    let a = VNode::element("ul").child(VNode::text("a")).build();
    let b = VNode::element("ul").child(VNode::text("a")).child(VNode::text("b")).build();
    assert_eq!(
        diff(&a, &b),
        Patch::UpdateElement {
            attrs: None,
            children: Some(vec![ChildPatch::Insert { index: 1, node: VNode::text("b") }]),
        }
    );
}

#[test]
fn removing_a_child_produces_a_remove_patch() {
    let a = VNode::element("ul").child(VNode::text("a")).child(VNode::text("b")).build();
    let b = VNode::element("ul").child(VNode::text("a")).build();
    assert_eq!(
        diff(&a, &b),
        Patch::UpdateElement { attrs: None, children: Some(vec![ChildPatch::Remove { index: 1 }]) }
    );
}

#[test]
fn attribute_and_children_changes_are_both_reported_together() {
    let a = VNode::element("div").attr("class", "a").child(VNode::text("x")).build();
    let b = VNode::element("div").attr("class", "b").child(VNode::text("x")).child(VNode::text("y")).build();
    assert_eq!(
        diff(&a, &b),
        Patch::UpdateElement {
            attrs: Some(AttrsPatch { set: vec![("class".to_string(), "b".to_string())], remove: vec![] }),
            children: Some(vec![ChildPatch::Insert { index: 1, node: VNode::text("y") }]),
        }
    );
}

#[test]
fn keyed_children_are_tracked_by_identity_across_reordering() {
    let a = VNode::element("ul")
        .child(VNode::element("li").key("a").child(VNode::text("A")).build())
        .child(VNode::element("li").key("b").child(VNode::text("B")).build())
        .build();
    let b = VNode::element("ul")
        .child(VNode::element("li").key("b").child(VNode::text("B")).build())
        .child(VNode::element("li").key("a").child(VNode::text("A")).build())
        .build();

    let patch = diff(&a, &b);
    // Only the order changed, not the content: both children show up as
    // updates because their old and new positions differ.
    let Patch::UpdateElement { children: Some(patches), .. } = patch else { panic!("expected children patch") };
    assert_eq!(patches.len(), 2);
    assert!(patches.iter().all(|p| matches!(p, ChildPatch::Update { .. })));
}

#[test]
fn attribute_patch_sets_and_removes_disjoint_names() {
    let a = VNode::element("a").attr("href", "/x").attr("title", "t").attr("rel", "r").build();
    let b = VNode::element("a").attr("href", "/y").attr("target", "_blank").build();
    match diff(&a, &b) {
        Patch::UpdateElement { attrs: Some(p), children: None } => {
            assert_eq!(
                p.set,
                vec![("href".to_string(), "/y".to_string()), ("target".to_string(), "_blank".to_string())]
            );
            assert_eq!(p.remove, vec!["rel".to_string(), "title".to_string()]);
            for (name, _) in &p.set {
                assert!(!p.remove.contains(name));
            }
        }
        other => panic!("unexpected patch {other:?}"),
    }
}

#[test]
fn elements_of_different_tags_are_replaced() {
    let a = VNode::element("p").attr("class", "x").build();
    let b = VNode::element("span").attr("class", "x").build();
    assert_eq!(diff(&a, &b), Patch::Replace(b.clone()));
}
