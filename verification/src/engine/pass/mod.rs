//! Normal-form passes: each is a deterministic function from a node (whose operands are already
//! normal) to a candidate replacement, committed only when it is strictly smaller.

pub mod scratch;
pub mod forms;
pub mod sums;
pub mod fold;
pub mod xor;
pub mod linear;
pub mod cases;
pub mod casts;
pub mod demanded;
pub mod tables;
pub mod bitwise;
pub mod shuffle;
pub mod ranks;
pub mod order;
pub mod residue;
pub mod runs;
pub mod spoken;
pub mod intervals;
pub mod shapes;
pub mod compares;
pub mod corners;
pub mod layers;
pub mod poly;
pub mod gf2;
pub mod invert;
pub mod linear_mba;
