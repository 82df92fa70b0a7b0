//! Tree-construction core for an HTML parsing pipeline.
//!
//! An external parsing driver issues structural instructions (create an
//! element here, insert this text there, reparent these children); this
//! crate maintains a consistent, traversable document tree and can render
//! it back to markup text.

mod document;
mod dom;
mod layout;
mod node;
mod serializer;
mod sink;
mod traversal;

pub use document::Document;
pub use dom::DOMTree;
pub use dom::QuirksMode;
pub use dom::SerializableNode;
pub use layout::LayoutDocument;
pub use layout::LayoutElement;
pub use layout::LayoutNode;
pub use layout::LayoutShadowRoot;
pub use node::Attr;
pub use node::ElementData;
pub use node::Node;
pub use node::NodeData;
pub use node::NodeId;
pub use serializer::TraversalScope;
pub use serializer::serialize_subtree;
pub use sink::GenericSink;
pub use sink::NodeOrText;
pub use traversal::Edge;
pub use traversal::Traversal;
pub use traversal::TreeTraversal;
