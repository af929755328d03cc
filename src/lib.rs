//! Image variant cache engine: request descriptors and their codec, the
//! placeholder cache, the in-flight registry, admission control and the
//! orientation and clamping rules.

pub mod blur;
pub mod codec;
pub mod descriptor;
pub mod placeholder;
pub mod optimizer;
pub mod orient;
pub mod scheduler;
pub mod transform;
