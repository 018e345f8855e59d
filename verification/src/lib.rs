//! Speech enhancement and background-speaker suppression with the Hush model.
//!
//! [`Hush`] is the loaded model. Below it, and public for reuse: [`dsp`] (frames, band features,
//! overlap-add), [`nn`] (products, convolutions, the recurrent unit), [`Encoder`], [`Decoders`]
//! and the [`Weights`] arena. Everything computes on [`F32`], IEEE 754 binary32 numbers in
//! integer arithmetic, so that a result is the same to the last bit on every machine.
//!
//! # Audio format
//!
//! Mono, 16 kHz, samples in `[-1, 1]`. See [`Hush::SAMPLE_RATE`]. The output lags the input by
//! [`Hush::LATENCY_SAMPLES`], one hop of 10 ms. Input is processed in whole hops; a trailing
//! partial hop is ignored.
//!
//! # What is proved
//!
//! Every function states its result to the last bit. Beside that stand laws on what the results mean,
//! on real numbers and over all frames: [`kernels`], [`dots`] and [`gates`] for the layers, [`wiring`] for
//! how these are put together, [`features`], [`streams`], [`limit`] and [`pipeline`] for the signal,
//! [`causal`] for what a frame cannot depend on, [`manifest`], [`loading`] and [`published`] for the
//! weights, [`samples`] and [`commands`] for the programs around the library, and [`values`],
//! [`shares`], [`whole`], [`halves`] and [`exponential`] for the numbers themselves.
//!
//! # What is left to the caller
//!
//! Files, and the functions of real numbers that have no exact value: the Fourier transforms, the
//! logarithm, the power of an attenuation limit, the window and the speed of the means. See
//! [`hush`] for where they come in.
#![allow(unused_imports)]

pub mod rounding;
pub mod float;
pub mod values;
pub mod half;
pub mod halves;
pub mod simd;
pub mod ranges;
pub mod accuracy;
pub mod exponential;
pub mod sums;
pub mod shares;
pub mod whole;
pub mod text;
pub mod error;
pub mod weights;
pub mod manifest;
pub mod rows;
pub mod nn;
pub mod kernels;
pub mod bank;
pub mod loading;
pub mod layers;
pub mod encoder;
pub mod decoders;
pub mod model;
pub mod dsp;
pub mod hush;
pub mod published;
pub mod pcm;
pub mod cli;
pub mod int8;
pub mod tools;
pub mod samples;
pub mod commands;
pub mod dots;
pub mod causal;
pub mod pipeline;
pub mod streams;
pub mod limit;
pub mod wiring;
pub mod features;
pub mod gates;

pub use crate::bank::WeightBank;
pub use crate::decoders::Decoders;
pub use crate::encoder::{EncOut, Encoder};
pub use crate::error::Error;
pub use crate::float::F32;
pub use crate::hush::Hush;
pub use crate::model::Model;
pub use crate::weights::Weights;
