//! A compact binary codec and content hash for a tree of key/value state.
//!
//! [`buf_view::BufView`] is a bounds-tracked cursor over borrowed bytes.
//! [`node::Node`] is the tree, with its canonical encoding, its decoder and
//! its digest.

pub mod buf_view;
pub mod digest;
pub mod node;
pub mod pretty;
pub mod sample;

pub use node::{DecodeError, EAddress, EValue, Node};
