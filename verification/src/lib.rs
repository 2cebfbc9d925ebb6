//! Verified in-memory data structures, codecs and small state machines.
//!
//! The centre of the crate is [`btree::BTree`], an ordered key-value B-tree
//! whose search, insertion and deletion are proved against a `Map` view.
//! Around it stand an AVL tree, a fixed-capacity hash map, Base64, a reader
//! for JSON scalars, a packet splitter, and the bookkeeping of a thread pool.

pub mod atomic_boolean;
pub mod avl_tree;
pub mod base64;
pub mod blocking_queue;
pub mod btree;
pub mod builder_pattern;
pub mod hash_map;
pub mod json;
pub mod observer_pattern;
pub mod order;
pub mod packet_split;
pub mod singleton;
pub mod thread_pool;
