//! An AMR-WB speech codec in saturating fixed-point arithmetic.
//!
//! Every stage states its result over the basic operators of [`fixed_point`],
//! whose meaning is given on mathematical integers.

pub mod fixed_point;
pub mod math;
pub mod pulse;
pub mod codebook;
pub mod enc;
pub mod order;
pub mod noise;
pub mod conceal;
pub mod params;
pub mod gain;
pub mod excitation;
pub mod extrapolation;
pub mod output;
pub mod speech;
pub mod decoder;
pub mod readback;
pub mod enhance;
pub mod sort_tables;
pub mod sort_inverse;
pub mod mode;
pub mod bitstream;
pub mod ltp;
pub mod gain_tables;
pub mod isf_noise;
pub mod dtx;
pub mod lp;
pub mod lag;
pub mod highband;
pub mod vq;
pub mod isf_quant;
pub mod synthesis;
