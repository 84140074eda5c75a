//! The write path of an embedded graph store: nodes with labelled, typed
//! properties; a byte encoding for them; time-ordered ids; a node table and
//! secondary-index tables written inside a transaction; and the add-node step of
//! a traversal.

pub mod codec;
pub mod id;
pub mod storage;
pub mod traversal;
pub mod value;

pub use codec::{decode_node, encode_node, encode_value, CodecError};
pub use id::IdGenerator;
pub use storage::{GraphStorage, IndexDecl, StorageError};
pub use traversal::{AddNAdapter, AddNIterator, GraphError, RwTraversalIterator, RwTxn, TraversalVal};
pub use value::{Node, Value};
