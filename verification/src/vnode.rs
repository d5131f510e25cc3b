//! The virtual DOM node: a snapshot of an element tree, the counterpart
//! of React's VNode.

use vstd::prelude::*;
use crate::attrs::{AttrMap, AttrView, attrs_insert};

verus! {

/// A node of the virtual tree as the specifications see it.
pub enum NodeView {
    Element { tag: Seq<char>, attrs: Seq<AttrView>, key: Option<Seq<char>>, children: Seq<NodeView> },
    Text(Seq<char>),
}

/// The key of a node: an element's `key`, none for text.
pub open spec fn key_of(n: NodeView) -> Option<Seq<char>> {
    match n {
        NodeView::Element { key, .. } => key,
        NodeView::Text(_) => None,
    }
}

pub open spec fn opt_str_view(o: Option<String>) -> Option<Seq<char>> {
    match o {
        Some(s) => Some(s@),
        None => None,
    }
}

#[derive(Debug, PartialEq, Eq)]
pub enum VNode {
    Element(VElement),
    Text(String),
}

#[derive(Debug, PartialEq, Eq)]
pub struct VElement {
    pub tag: String,
    /// Attributes, kept in name order so that diffs come out deterministic.
    pub attrs: AttrMap,
    /// The counterpart of React's `key` prop: the identity of a child in a list.
    pub key: Option<String>,
    pub children: Vec<VNode>,
}

pub open spec fn node_view(n: VNode) -> NodeView
    decreases n,
{
    match n {
        VNode::Text(t) => NodeView::Text(t@),
        VNode::Element(el) => {
            proof {
                assert(decreases_to!(el => el.children));
                assert(decreases_to!(el.children => el.children@));
            }
            NodeView::Element {
                tag: el.tag@,
                attrs: el.attrs@,
                key: opt_str_view(el.key),
                children: nodes_view(el.children@),
            }
        },
    }
}

pub open spec fn nodes_view(s: Seq<VNode>) -> Seq<NodeView>
    decreases s,
{
    if s.len() == 0 {
        Seq::empty()
    } else {
        proof {
            assert(decreases_to!(s => s.subrange(0, s.len() - 1)));
        }
        nodes_view(s.drop_last()).push(node_view(s.last()))
    }
}

pub proof fn lemma_nodes_view(s: Seq<VNode>)
    ensures
        nodes_view(s).len() == s.len(),
        forall|i: int| 0 <= i < s.len() ==> #[trigger] nodes_view(s)[i] == node_view(s[i]),
    decreases s.len(),
{
    if s.len() > 0 {
        lemma_nodes_view(s.drop_last());
    }
}

impl View for VNode {
    type V = NodeView;

    open spec fn view(&self) -> NodeView {
        node_view(*self)
    }
}

impl Clone for VNode {
    fn clone(&self) -> (r: VNode)
        ensures
            r@ == self@,
        decreases self,
    {
        match self {
            VNode::Text(t) => VNode::Text(t.clone()),
            VNode::Element(el) => {
                let n = el.children.len();
                let mut children: Vec<VNode> = Vec::new();
                let mut i: usize = 0;
                while i < n
                    invariant
                        *self == VNode::Element(*el),
                        n == el.children.len(),
                        i <= n,
                        children@.len() == i,
                        forall|j: int| 0 <= j < i ==> (#[trigger] children@[j])@ == el.children@[j]@,
                    decreases n - i,
                {
                    proof {
                        assert(decreases_to!(*self => (*self)->Element_0));
                        assert(decreases_to!(*el => el.children));
                        assert(decreases_to!(el.children => el.children[i as int]));
                    }
                    let c = el.children[i].clone();
                    children.push(c);
                    i = i + 1;
                }
                proof {
                    lemma_nodes_view(children@);
                    lemma_nodes_view(el.children@);
                    assert(nodes_view(children@) =~= nodes_view(el.children@));
                }
                VNode::Element(VElement {
                    tag: el.tag.clone(),
                    attrs: el.attrs.clone(),
                    key: match &el.key {
                        Some(k) => Some(k.clone()),
                        None => None,
                    },
                    children,
                })
            },
        }
    }
}

impl VNode {
    /// Starts building an element with tag `tag`.
    pub fn element(tag: &str) -> (b: VElementBuilder)
        ensures
            b@ == (NodeView::Element {
                tag: tag@,
                attrs: Seq::empty(),
                key: None,
                children: Seq::empty(),
            }),
    {
        let b = VElementBuilder {
            tag: tag.to_string(),
            attrs: AttrMap::new(),
            key: None,
            children: Vec::new(),
        };
        proof {
            assert(nodes_view(b.children@) =~= Seq::<NodeView>::empty());
        }
        b
    }

    /// A text node holding `value`.
    pub fn text(value: &str) -> (n: VNode)
        ensures
            n@ == NodeView::Text(value@),
    {
        VNode::Text(value.to_string())
    }

    /// The node's key: an element's `key`, none for a text node.
    pub fn key(&self) -> (r: Option<&str>)
        ensures
            match r {
                Some(k) => key_of(self@) == Some(k@),
                None => key_of(self@) is None,
            },
    {
        match self {
            VNode::Element(el) => match &el.key {
                Some(k) => Some(k.as_str()),
                None => None,
            },
            VNode::Text(_) => None,
        }
    }
}

/// A small builder for elements, the counterpart of `React.createElement`:
/// `VNode::element("div").attr("class", "a").child(...)`.
pub struct VElementBuilder {
    tag: String,
    attrs: AttrMap,
    key: Option<String>,
    children: Vec<VNode>,
}

impl View for VElementBuilder {
    type V = NodeView;

    /// The element that `build` makes.
    closed spec fn view(&self) -> NodeView {
        NodeView::Element {
            tag: self.tag@,
            attrs: self.attrs@,
            key: opt_str_view(self.key),
            children: nodes_view(self.children@),
        }
    }
}

impl VElementBuilder {
    /// Binds attribute `name` to `value` (a later binding of a name wins).
    pub fn attr(self, name: &str, value: &str) -> (b: VElementBuilder)
        ensures
            b@ == (NodeView::Element {
                tag: self@->tag,
                attrs: attrs_insert(self@->attrs, name@, value@),
                key: self@->key,
                children: self@->children,
            }),
    {
        let mut b = self;
        b.attrs.insert(name.to_string(), value.to_string());
        b
    }

    /// Sets the element's key.
    pub fn key(self, key: &str) -> (b: VElementBuilder)
        ensures
            b@ == (NodeView::Element {
                tag: self@->tag,
                attrs: self@->attrs,
                key: Some(key@),
                children: self@->children,
            }),
    {
        let mut b = self;
        b.key = Some(key.to_string());
        b
    }

    /// Appends one child.
    pub fn child(self, child: VNode) -> (b: VElementBuilder)
        ensures
            b@ == (NodeView::Element {
                tag: self@->tag,
                attrs: self@->attrs,
                key: self@->key,
                children: self@->children.push(child@),
            }),
    {
        let mut b = self;
        let ghost old_children = b.children@;
        b.children.push(child);
        proof {
            assert(b.children@.drop_last() =~= old_children);
        }
        b
    }

    /// Appends children, in order.
    pub fn children(self, children: Vec<VNode>) -> (b: VElementBuilder)
        ensures
            b@ == (NodeView::Element {
                tag: self@->tag,
                attrs: self@->attrs,
                key: self@->key,
                children: self@->children + nodes_view(children@),
            }),
    {
        let mut b = self;
        let mut rest = children;
        let ghost old_children = b.children@;
        let ghost added = rest@;
        b.children.append(&mut rest);
        proof {
            assert(b.children@ =~= old_children + added);
            lemma_nodes_view(b.children@);
            lemma_nodes_view(old_children);
            lemma_nodes_view(added);
            assert(nodes_view(b.children@) =~= nodes_view(old_children) + nodes_view(added));
        }
        b
    }

    /// The finished element.
    pub fn build(self) -> (n: VNode)
        ensures
            n@ == self@,
    {
        VNode::Element(VElement { tag: self.tag, attrs: self.attrs, key: self.key, children: self.children })
    }
}

} // verus!
