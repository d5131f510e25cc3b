use rreact::VNode;

#[test]
fn builder_produces_expected_element_shape() {
    let node = VNode::element("div").attr("class", "greeting").key("row-1").child(VNode::text("Hello")).build();

    let VNode::Element(el) = node else { panic!("expected element") };
    assert_eq!(el.tag, "div");
    assert_eq!(el.attrs.get("class"), Some(&"greeting".to_string()));
    assert_eq!(el.key.as_deref(), Some("row-1"));
    assert_eq!(el.children, vec![VNode::text("Hello")]);
}
