use rreact::{
    apply_patch, diff, render_to_vnode, vnode_to_node, ChildPatch, DomAttribute, DomDocument, DomElement, DomNode,
    Patch, VNode,
};

fn text(t: &str) -> DomNode {
    DomNode::Text(t.to_string())
}

fn element(tag: &str, attrs: &[(&str, &str)], children: Vec<DomNode>) -> DomNode {
    DomNode::Element(DomElement {
        tag_name: tag.to_string(),
        attrs: attrs.iter().map(|(n, v)| DomAttribute { name: n.to_string(), value: v.to_string() }).collect(),
        children,
    })
}

fn document(children: Vec<DomNode>) -> DomDocument {
    DomDocument { children }
}

fn has_class(el: &DomElement, class: &str) -> bool {
    el.attr("class").map(|c| c.split_whitespace().any(|x| x == class)).unwrap_or(false)
}

/// No stylesheet: no element gets a style.
fn no_style(_el: &DomElement, _ancestors: &Vec<&DomElement>, _siblings: &Vec<&DomElement>) -> Option<String> {
    None
}

#[test]
fn simple_element_gets_computed_style_merged_into_attrs() {
    // <p class="foo">hi</p> with `.foo { color: red; }`
    let doc = document(vec![element("p", &[("class", "foo")], vec![text("hi")])]);
    let stylesheet = |el: &DomElement, _a: &Vec<&DomElement>, _s: &Vec<&DomElement>| {
        if has_class(el, "foo") { Some("color: red;".to_string()) } else { None }
    };
    let nodes = render_to_vnode(&doc, &stylesheet);

    assert_eq!(nodes.len(), 1);
    let VNode::Element(p) = &nodes[0] else { panic!("expected element") };
    assert_eq!(p.tag, "p");
    assert_eq!(p.attrs.get("class"), Some(&"foo".to_string()));
    assert_eq!(p.attrs.get("style"), Some(&"color: red;".to_string()));
    assert_eq!(p.children, vec![VNode::text("hi")]);
}

/// `div p { color: green; }`
fn div_p_green(el: &DomElement, ancestors: &Vec<&DomElement>, _s: &Vec<&DomElement>) -> Option<String> {
    if el.tag_name == "p" && ancestors.iter().any(|a| a.tag_name == "div") {
        Some("color: green;".to_string())
    } else {
        None
    }
}

#[test]
fn descendant_combinator_resolves_through_the_parsed_ancestor_chain() {
    // <div><p>hi</p></div>
    let doc = document(vec![element("div", &[], vec![element("p", &[], vec![text("hi")])])]);
    let nodes = render_to_vnode(&doc, &div_p_green);

    let VNode::Element(div) = &nodes[0] else { panic!("expected element") };
    let VNode::Element(p) = &div.children[0] else { panic!("expected element") };
    assert_eq!(p.attrs.get("style"), Some(&"color: green;".to_string()));
}

#[test]
fn non_matching_descendant_selector_does_not_add_a_style_attr() {
    // <section><p>hi</p></section>
    let doc = document(vec![element("section", &[], vec![element("p", &[], vec![text("hi")])])]);
    let nodes = render_to_vnode(&doc, &div_p_green);

    let VNode::Element(section) = &nodes[0] else { panic!("expected element") };
    let VNode::Element(p) = &section.children[0] else { panic!("expected element") };
    assert_eq!(p.attrs.get("style"), None);
}

#[test]
fn child_combinator_resolves_through_the_parsed_immediate_parent() {
    // <div><section><p>hi</p></section></div>
    let doc = document(vec![element("div", &[], vec![element("section", &[], vec![element("p", &[], vec![text("hi")])])])]);
    // `div > p { color: red; } section > p { color: purple; }`: the div is the
    // grandparent, not the parent, so only the second rule applies.
    let stylesheet = |el: &DomElement, ancestors: &Vec<&DomElement>, _s: &Vec<&DomElement>| {
        let parent = ancestors.first().map(|a| a.tag_name.as_str());
        if el.tag_name == "p" && parent == Some("section") {
            Some("color: purple;".to_string())
        } else if el.tag_name == "p" && parent == Some("div") {
            Some("color: red;".to_string())
        } else {
            None
        }
    };
    let nodes = render_to_vnode(&doc, &stylesheet);

    let VNode::Element(div) = &nodes[0] else { panic!("expected element") };
    let VNode::Element(section) = &div.children[0] else { panic!("expected element") };
    let VNode::Element(p) = &section.children[0] else { panic!("expected element") };
    assert_eq!(p.attrs.get("style"), Some(&"color: purple;".to_string()));
}

#[test]
fn adjacent_sibling_combinator_resolves_through_the_parsed_sibling_list() {
    // <ul><li>a</li><li>b</li><li>c</li></ul>
    let doc = document(vec![element(
        "ul",
        &[],
        vec![element("li", &[], vec![text("a")]), element("li", &[], vec![text("b")]), element("li", &[], vec![text("c")])],
    )]);
    // `li + li { color: orange; }`
    let stylesheet = |el: &DomElement, _a: &Vec<&DomElement>, siblings: &Vec<&DomElement>| {
        if el.tag_name == "li" && siblings.first().map(|s| s.tag_name.as_str()) == Some("li") {
            Some("color: orange;".to_string())
        } else {
            None
        }
    };
    let nodes = render_to_vnode(&doc, &stylesheet);

    let VNode::Element(ul) = &nodes[0] else { panic!("expected element") };
    let VNode::Element(first) = &ul.children[0] else { panic!("expected element") };
    let VNode::Element(second) = &ul.children[1] else { panic!("expected element") };
    let VNode::Element(third) = &ul.children[2] else { panic!("expected element") };

    // The first li has no preceding sibling.
    assert_eq!(first.attrs.get("style"), None);
    // The second and third both follow an li.
    assert_eq!(second.attrs.get("style"), Some(&"color: orange;".to_string()));
    assert_eq!(third.attrs.get("style"), Some(&"color: orange;".to_string()));
}

#[test]
fn end_to_end_pipeline_feeds_into_vdom_diff() {
    // `p { color: red; }`
    let stylesheet = |el: &DomElement, _a: &Vec<&DomElement>, _s: &Vec<&DomElement>| {
        if el.tag_name == "p" { Some("color: red;".to_string()) } else { None }
    };

    let old_doc = document(vec![element("div", &[], vec![element("p", &[], vec![text("hi")])])]);
    let old_nodes = render_to_vnode(&old_doc, &stylesheet);

    let new_doc = document(vec![element("div", &[], vec![element("p", &[], vec![text("bye")])])]);
    let new_nodes = render_to_vnode(&new_doc, &stylesheet);

    // At the top (div): one in-place update of the child p.
    let patch = diff(&old_nodes[0], &new_nodes[0]);
    let Patch::UpdateElement { attrs, children: Some(children) } = patch else {
        panic!("expected an element update patch with child changes")
    };
    assert!(attrs.is_none(), "style/class attrs are identical, only the text child changed");
    assert_eq!(children.len(), 1);
    let ChildPatch::Update { patch: p_patch, .. } = &children[0] else { panic!("expected an update patch") };

    // In p: one in-place update of the text child ("hi" to "bye").
    let Patch::UpdateElement { attrs: p_attrs, children: Some(p_children) } = p_patch.as_ref() else {
        panic!("expected p's own element update patch")
    };
    assert!(p_attrs.is_none());
    assert_eq!(p_children.len(), 1);
    let ChildPatch::Update { patch: text_patch, .. } = &p_children[0] else { panic!("expected an update patch") };
    assert_eq!(**text_patch, Patch::UpdateText("bye".to_string()));
}

/// A document node and the virtual node rendered from it without styles.
fn real_and_virtual(node: DomNode) -> (DomNode, VNode) {
    let doc = document(vec![node]);
    let vnodes = render_to_vnode(&doc, &no_style);
    (doc.children.into_iter().next().unwrap(), vnodes.into_iter().next().unwrap())
}

#[test]
fn apply_patch_updates_text_in_place() {
    let (mut real, old_vnode) = real_and_virtual(element("p", &[], vec![text("hi")]));
    let new_vnode = VNode::element("p").child(VNode::text("bye")).build();

    // The diff of p itself updates its text child, whose patch is an UpdateText.
    let Patch::UpdateElement { children: Some(children), .. } = diff(&old_vnode, &new_vnode) else {
        panic!("expected element update")
    };
    let ChildPatch::Update { patch: text_patch, .. } = &children[0] else { panic!("expected update") };

    let DomNode::Element(el) = &mut real else { panic!("expected element") };
    apply_patch(&mut el.children[0], text_patch);

    assert_eq!(el.children[0], DomNode::Text("bye".to_string()));
}

#[test]
fn apply_patch_sets_and_removes_attributes() {
    let (mut real, old_vnode) = real_and_virtual(element("div", &[("class", "a"), ("disabled", "")], vec![]));
    let new_vnode = VNode::element("div").attr("class", "b").build();

    let patch = diff(&old_vnode, &new_vnode);
    apply_patch(&mut real, &patch);

    let DomNode::Element(el) = &real else { panic!("expected element") };
    assert_eq!(el.attr("class"), Some("b"));
    assert_eq!(el.attr("disabled"), None);
}

#[test]
fn apply_patch_inserts_and_removes_children() {
    let (mut real, old_vnode) = real_and_virtual(element(
        "ul",
        &[],
        vec![element("li", &[], vec![text("a")]), element("li", &[], vec![text("b")])],
    ));
    let new_vnode = VNode::element("ul")
        .child(VNode::element("li").child(VNode::text("a")).build())
        .child(VNode::element("li").child(VNode::text("c")).build())
        .build();

    let patch = diff(&old_vnode, &new_vnode);
    apply_patch(&mut real, &patch);

    let DomNode::Element(ul) = &real else { panic!("expected element") };
    assert_eq!(ul.children.len(), 2);
    let DomNode::Element(second) = &ul.children[1] else { panic!("expected element") };
    assert_eq!(second.children, vec![DomNode::Text("c".to_string())]);
}

#[test]
fn apply_patch_reorders_keyed_children_and_preserves_untouched_ones() {
    let old_vnode = VNode::element("ul")
        .child(VNode::element("li").key("a").child(VNode::text("A")).build())
        .child(VNode::element("li").key("b").child(VNode::text("B")).build())
        .child(VNode::element("li").key("c").child(VNode::text("C")).build())
        .build();
    let mut real = vnode_to_node(&old_vnode);

    // b, a, c (c stays: old_index == new_index == 2, no patch names it).
    let new_vnode = VNode::element("ul")
        .child(VNode::element("li").key("b").child(VNode::text("B")).build())
        .child(VNode::element("li").key("a").child(VNode::text("A")).build())
        .child(VNode::element("li").key("c").child(VNode::text("C")).build())
        .build();

    let patch = diff(&old_vnode, &new_vnode);
    apply_patch(&mut real, &patch);

    let DomNode::Element(ul) = &real else { panic!("expected element") };
    assert_eq!(ul.children.len(), 3);
    let texts: Vec<&str> = ul
        .children
        .iter()
        .map(|n| {
            let DomNode::Element(li) = n else { panic!("expected li") };
            let DomNode::Text(t) = &li.children[0] else { panic!("expected text") };
            t.as_str()
        })
        .collect();
    assert_eq!(texts, vec!["B", "A", "C"]);
}

#[test]
fn apply_patch_replaces_node_when_tag_changes() {
    let old_vnode = VNode::element("div").build();
    let mut real = vnode_to_node(&old_vnode);
    let new_vnode = VNode::element("span").attr("class", "x").build();

    let patch = diff(&old_vnode, &new_vnode);
    apply_patch(&mut real, &patch);

    let DomNode::Element(el) = &real else { panic!("expected element") };
    assert_eq!(el.tag_name, "span");
    assert_eq!(el.attr("class"), Some("x"));
}

#[test]
fn apply_patch_no_op_leaves_real_dom_untouched() {
    let vnode = VNode::element("div").attr("class", "a").child(VNode::text("hi")).build();
    let mut real = vnode_to_node(&vnode);
    let untouched = real.clone();

    let patch = diff(&vnode, &vnode.clone());
    assert_eq!(patch, Patch::NoOp);
    apply_patch(&mut real, &patch);

    assert_eq!(real, untouched);
}
