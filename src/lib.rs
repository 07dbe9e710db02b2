//! The variable-binding and value-lifecycle core of a small configuration
//! language interpreter: symbol tables, slot arrays, mutable and frozen value
//! heaps, the freezer that turns a module into an immutable snapshot, loading
//! between modules, list methods, a call profiler, and a lint for repeated
//! dictionary keys.
pub mod captured;
pub mod describe;
pub mod did_you_mean;
pub mod dubious;
pub mod flame_profile;
pub mod list;
pub mod modules;
pub mod names;
pub mod slots;
pub mod text;
pub mod value;
