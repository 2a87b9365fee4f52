//! Rust data handed over to a JS-managed heap, accessed through a context whose type
//! records what the context may do.
//!
//! - `context`: the context and its states, JS-managed data, roots and `JSRunnable`;
//! - `roots`: the registry of pinned roots, a doubly linked list in an arena;
//! - `trace`: tracers and traceable data;
//! - `class`: how native data is reflected by classes;
//! - `laws`: how the operations relate to one another.
use vstd::prelude::*;

pub mod class;
pub mod context;
pub mod laws;
pub mod roots;
pub mod trace;

pub use class::{DefaultInitializer, HasClass, HasInstance};
pub use context::{
    CanAccess, CanAlloc, CanCreate, CanExtend, HasGlobal, InCompartment, Initialized,
    Initializing, IsInitializing, JSCompartmentImpl, JSContext, JSManaged, JSPinnedRoot, JSRoot,
    JSRootable, JSRunnable, Snapshotted, Uninitialized,
};
pub use roots::JSPinnedRoots;
pub use trace::{JSTraceable, JSTracer};
