pub mod assoc;
pub mod config;
pub mod deps;
pub mod frame;
pub mod graph;
pub mod maplike;
pub mod message;
pub mod node;
pub mod subscription;
pub mod transaction;

pub use graph::{Error, SceneGraph};
pub use node::Node;
pub use subscription::GraphUpdate;

use vstd::prelude::*;

verus! {

/// Number of channels in one DMX universe, and so in every frame.
pub const CHANNELS: usize = 512;

} // verus!
