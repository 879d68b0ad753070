//! Integer core of an inverse-CDF sampler driven by a `u16` probe: the cost
//! of thinning each bin, the optimal distribution of a fixed point budget
//! over 32 bins, the 64-byte index table built from it, the thinning of a
//! uniform grid into the stored points, and the branch-free lookup of a
//! probe.
pub mod layout;
pub mod table;
pub mod binned;
pub mod budget;
pub mod error;
pub mod weights;
