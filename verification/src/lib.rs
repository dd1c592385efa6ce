//! Verified core of a small rough-set toolkit: binarisation of data matrices,
//! discernibility and basic matrices, testor search, and the counting parts
//! of a univariate estimation-of-distribution algorithm.
//!
//! Real-valued data are handled as the bit patterns of IEEE-754 single
//! precision numbers (`u32`); `float_order` gives their ordering exactly.
pub mod float_order;
pub mod testors;
pub mod thresholds;
pub mod population;
pub mod columns;
pub mod matrices;
pub mod text;
pub mod random;
