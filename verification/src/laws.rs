//! What holds of nodes as a whole, over the model that the operations' own
//! contracts speak of.

pub mod effects;
pub mod index;
pub mod keys;
pub mod leaf;
pub mod life;
pub mod memory;
pub mod merge;
pub mod split;
pub mod words;
