//! A PEP 440-style version model and a lazy, caching dependency provider
//! for resolving Python package dependency graphs against a remote index.

pub mod provider;
pub mod ranges;
pub mod registry;
pub mod requirement;
pub mod text;
pub mod version;
