//! Enumeration of integer partitions with at least two parts.
//!
//! A partition is kept as a validated non-increasing sequence of positive
//! terms together with its cached total.  The crate offers the unit-transfer
//! and growth transformations on partitions, two independent enumeration
//! algorithms that build every partition of a given total, and a run-length
//! compressed display form.

pub mod frontier;
pub mod layers;
pub mod part_set;
pub mod partition;
pub mod rle;
