//! The nodes of a B+ tree: sorted leaves and indexes over byte-string keys,
//! stored with the bytes that all keys of a node share left out.

pub mod data;
pub mod ivec;
pub mod laws;
pub mod link;
pub mod model;
pub mod node;
pub mod order;
pub mod page;
pub mod prefix;
pub mod search;
pub mod sorted;

pub use data::{Data, Index, Leaf};
pub use ivec::IVec;
pub use link::Link;
pub use node::Node;
pub use page::{NonZeroPid, PageId};
pub use sorted::is_sorted;
