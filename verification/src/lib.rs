//! A sharded slab: a store that hands out a `usize` key for every value put into
//! it, and that several threads use. An operation is one step of one of them, and
//! steps are taken one at a time.
//!
//! Every thread puts values into a shard of its own. A shard is made of pages,
//! each twice as large as the one before it, and a page of slots. A value is
//! looked up by its key, which gives a reference to it; it can be removed or
//! taken by any thread, even while references to it are held.

pub mod capacity;
pub mod cfg;
pub mod effects;
pub mod key;
pub mod laws;
pub mod listing;
pub mod model;
pub mod pack;
pub mod page;
pub mod shard;
pub mod slab;
pub mod steps;
pub mod tid;

pub use cfg::{Config, DefaultConfig};
pub use pack::Pack;
pub use page::GetMutError;
pub use slab::{Claim, Guard, GuardMut, Slab, Take};
pub use tid::{Registry, Tid};
