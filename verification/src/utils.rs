//! Small helpers: character escapes and an owned wrapper.

pub mod deep_clone;
pub mod escaping;
pub mod tarjan_scc;

pub use deep_clone::DeepClone;
pub use escaping::Escaped;
pub use escaping::InvalidEscape;
pub use tarjan_scc::TarjanSccs;
pub use tarjan_scc::TarjanVertex;
