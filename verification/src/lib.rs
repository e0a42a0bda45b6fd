//! Tiled matrices over the Mersenne-31 field.
//!
//! A matrix of field elements (integers modulo p = 2^31 - 1) is stored as a
//! contiguous sequence of 16-element tiles in tile-row-major order, so that
//! each tile-row is a contiguous range that can be folded independently and
//! in parallel.

pub mod fold;
pub mod m31;
pub mod tile;
pub mod tiled_mat;
