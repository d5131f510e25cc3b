//! A virtual DOM in the style of React: a node tree (`vnode`), the
//! reconciliation that turns two trees into a patch (`diff`), the
//! application of a patch to a concrete document tree (`dom_bridge`),
//! a component model with `use_state` hooks (`hooks`) and the
//! re-render loop that ties them together (`app`).

pub mod text;
pub mod attrs;
pub mod vnode;
pub mod diff;
pub mod dom_bridge;
pub mod hooks;
pub mod app;

pub use app::App;
pub use attrs::AttrMap;
pub use diff::{diff, AttrsPatch, ChildPatch, Patch};
pub use dom_bridge::{apply_patch, can_apply, render_to_vnode, vnode_to_node, DomAttribute, DomDocument, DomElement, DomNode};
pub use hooks::{drop_instance, run_component, take_dirty, use_state, ComponentId, HookStore, StateSetter};
pub use vnode::{VElement, VElementBuilder, VNode};
pub mod roundtrip;
