//! A virtual-DOM core: a virtual node tree, an in-memory rendering surface,
//! a create/patch reconciliation engine with keyed and non-keyed child
//! reconciliation, a memoization wrapper for deferred subtrees, and a
//! message-functor transform, together with the markup template parser and
//! the builder that turns a parsed template into element-builder code.

mod builder;
mod lazy;
mod parser;
mod reconcile;
mod surface;
mod vnode;

pub use builder::{build, build_expr, build_node};
pub use lazy::{Lazy, Renderer};
pub use parser::{parse_args_opt, parse_doc, parse_nodes_opt, Arg, Expression, Node, ParseError, Tag};
pub use reconcile::{create, destroy, patch, PatchError};
pub use surface::{Mutation, Op, Surface};
pub use vnode::{
    lemma_do_map_compose, Attribute, Children, Element, Listener, Namespace, VNode,
};
