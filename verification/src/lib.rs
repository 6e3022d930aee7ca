//! Binary find-and-replace for executables, and the rules that inject the
//! patching step into Kubernetes pods.

pub mod search;
pub mod text;
pub mod hexcode;
pub mod patcher;
pub mod pod;
pub mod types;
pub mod mutator;
pub mod admission;
