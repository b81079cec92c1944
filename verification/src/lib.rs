//! Fixed-point weighted-pool math kernel (Balancer-style weighted pools),
//! with every arithmetic step proved free of overflow and every rounding
//! direction stated in its contract.

pub mod arith;
pub mod wide;
pub mod fixed;
pub mod series;
pub mod pow;
pub mod weighted;
pub mod harness;
pub mod accuracy;
pub mod curve;
pub mod shaping;
pub mod zkvm;
