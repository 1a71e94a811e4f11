//! Audio resampling, mixing and format conversion, and picture scaling.
//!
//! The audio half starts at `swr::SwrContext`, the picture half at
//! `scalecontext::ScaleContext`.
pub mod arith;
pub mod audio;
pub mod audioconvert;
pub mod bank;
pub mod blending;
pub mod bytes;
pub mod calls;
pub mod channel_layout;
pub mod clockwork;
pub mod convert;
pub mod depends;
pub mod device;
pub mod error;
pub mod float;
pub mod frames;
pub mod keeping;
pub mod kernels;
pub mod limits;
pub mod loudness;
pub mod lowpass;
pub mod mathematics;
pub mod mixdown;
pub mod mixtable;
pub mod nearness;
pub mod options;
pub mod order;
pub mod pacing;
pub mod packing;
pub mod pixels;
pub mod placing;
pub mod rematrix;
pub mod resample;
pub mod response;
pub mod samplefmt;
pub mod sampler;
pub mod scale;
pub mod scalecontext;
pub mod scalefilter;
pub mod scaleplan;
pub mod speakers;
pub mod stream;
pub mod swr;
pub mod text;
pub mod timing;
pub mod version;
