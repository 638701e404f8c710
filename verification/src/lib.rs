//! Safe memory reclamation in the style of the Hyaline algorithm
//! (scalable multiple-list form, without stalled-thread support).
//!
//! Concurrent readers traverse shared structures while writers unlink
//! nodes; the reclamation layer defers destruction of unlinked objects
//! until no reader can still hold a reference, then reclaims them
//! deterministically.  This crate verifies the core of that engine as a
//! sequential state machine: the multi-slot reservation array, per-thread
//! retirement batches, batch publication across all slots, and the
//! reference-count bookkeeping that triggers destruction at exactly the
//! right moment.
//!
//! Retired payloads are represented by plain `u64` values; running a
//! payload's destructor is modeled by appending the payload to the
//! collector's `destroyed` log.  The correctness of the counting scheme —
//! each batch's counter receives one `ADJS` per slot plus one unit per
//! reader that must pass over it, and wraps to zero exactly when all of
//! them have settled — is stated in the contracts and proved in `laws`.

use vstd::prelude::*;

pub mod batch;
pub mod collector;
pub mod guard;
pub mod headnode;
pub mod laws;
pub mod node;

pub use crate::batch::Batch;
pub use crate::batch::Iter;
pub use crate::collector::Collector;
pub use crate::guard::Guard;
pub use crate::headnode::HeadNode;
pub use crate::headnode::NonAtomicHeadNode;
pub use crate::node::Node;
pub use crate::node::NodeRef;

verus! {

/// Number of reservation slots in a collector.
pub const SLOTS_LENGTH: usize = 64;

/// Capacity of a retirement batch: at most this many real retirements
/// before the batch is published across the slots.
pub const BATCH_SIZE: usize = 64;

/// Per-slot contribution to a batch's reference counter.  `SLOTS_LENGTH`
/// of these sum to 2^64, so once every slot has contributed (and every
/// reader has been paid out) the counter wraps to exactly zero.
pub const ADJS: u64 = u64::MAX / 64 + 1;

/// Bound on the number of readers simultaneously pinned to one slot.
/// Far beyond any machine's thread count; keeping head counts below it
/// keeps all counter arithmetic away from overflow.
pub const HEAD_COUNT_LIMIT: usize = 0x4000_0000;

} // verus!
