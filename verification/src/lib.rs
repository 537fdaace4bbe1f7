//! The plugin execution layer of a document build tool: an in-memory tree of
//! chapters, two wire formats that carry the tree to plugins and back, the
//! bounds-checked marshalling for an untrusted sandboxed guest, and the
//! orchestration that sequences preprocessors and renderers.

use vstd::prelude::*;

pub mod book;
pub mod cmd;
pub mod codec;
pub mod pipeline;
pub mod sandbox;
pub mod uppercase;

verus! {

} // verus!
