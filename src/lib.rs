//! Package registry, dependency resolution in install order, and the path and
//! naming rules of a per-project Python environment.

pub mod env;
pub mod package;
pub mod registry;
pub mod resolver;
