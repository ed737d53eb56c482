//! Chained byte buffers.
//!
//! A [`Chain`] is a growable sequence of bytes held as an ordered list of
//! nodes. Each node is a window into a block of storage that several nodes,
//! in one chain or in many, may share. Bytes are appended and prepended
//! cheaply, moved between chains without being copied, and made contiguous
//! only on request.
//!
//! Every operation states its effect on two models: the bytes a chain holds
//! (`chain@`, a `Seq<u8>`) and the way they are laid out
//! (`chain.segments()`, a `Seq<Segment>`).
//!
//! - [`layout`] holds the model of a layout and what the operations do to it.
//! - [`storage`] holds the blocks of storage, [`node`] the windows into them.
//! - [`chainbuf`] holds the chain itself, [`search`] the substring search
//!   that reads a chain node by node.
//! - [`chb`] holds a simpler chain whose nodes share nothing.
//! - [`laws`] states what holds of several operations taken together.

pub mod chainbuf;
pub mod chb;
pub mod laws;
pub mod layout;
pub mod node;
pub mod search;
pub mod storage;

pub use crate::chainbuf::{Chain, InvalidUtf8, NodeAtPosInfo};
pub use crate::layout::{Segment, CHB_MIN_SIZE};
