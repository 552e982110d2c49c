pub mod node;
pub mod node_lemmas;
pub mod tree;
pub mod walk;

pub use node::BTreeNode;
pub use tree::BTree;
