//! The encoder's stages.

pub mod budget;
pub mod pack;
pub mod codebook;
pub mod search;
pub mod vad;
pub mod pitch;
pub mod gain_quant;
pub mod dtx;
pub mod levinson;
pub mod encoder;
pub mod subframe;
pub mod trace;
pub mod shaping;
pub mod high_band;
pub mod rate;
pub mod analysis;
pub mod preproc;
pub mod roots;
pub mod conditioning;
