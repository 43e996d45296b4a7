//! Which of the store items that a set of derivations needs at run time are
//! already published on binary caches, and which have to be built.
//!
//! The work goes in four steps, each on plain values:
//!
//! * [`aterm`] and [`narinfo`] decode derivation files and the records of
//!   binary caches.
//! * [`store`] registers a derivation with whatever it needs to be built,
//!   asking for the derivation files it has to see ([`complete`] says what
//!   the cache then holds, and [`kept`] that no item is written over).
//! * [`fetch`] decides which cache root to ask next for the record of an
//!   output, and [`store`] takes the records found into the cache
//!   ([`merge`] says that their order does not matter).
//! * [`closure`] walks from the outputs to what they need at run time, and
//!   [`coverage`] counts how much of that the caches have ([`counting`]
//!   and [`derivers`] say what the count depends on).
//!
//! Reading files, sending requests and waiting are left to the caller.

pub mod aterm;
pub mod closure;
pub mod complete;
pub mod counting;
pub mod coverage;
pub mod derivation;
pub mod derivers;
pub mod fetch;
pub mod hash;
pub mod item;
pub mod kept;
pub mod merge;
pub mod narinfo;
pub mod runtime;
pub mod scan;
pub mod sorted;
pub mod store;
pub mod text;
pub mod whole;

pub use crate::closure::Closure;
pub use crate::coverage::CoverageStatistics;
pub use crate::hash::StoreHash;
pub use crate::item::StoreItem;
pub use crate::store::StoreCache;
