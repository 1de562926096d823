//! The accumulator.
//!
//! `util` holds the arithmetic of positions, `types` the values that the
//! parts share, `transform` the schedule of a deletion, `graft` the
//! cutting and grafting in the trees, `index` the position index, and
//! `pollard` the forest itself. The other modules hold laws: what is
//! proved of the parts beyond the contracts of their functions.
pub mod add_laws;
pub mod graft;
pub mod graft_laws;
pub mod index;
pub mod leaf_laws;
pub mod merkle;
pub mod pollard;
pub mod remove_laws;
pub mod row_laws;
pub mod soundness;
pub mod transform;
pub mod transform_laws;
pub mod types;
pub mod util;
pub mod util_laws;
