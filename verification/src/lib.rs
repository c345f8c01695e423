//! Microphone spoofing runtime support for media capture clients.
//!
//! Capture clients get samples of an audio file in place of the microphone's. A decoder turns
//! the file into samples and writes them into a pipe ([`decoder`], [`decoder_start`],
//! [`decoder_loop`], [`decoder_run`], [`pcm`]); a source reads the pipe and hands the samples out in the rate,
//! channels and format that a client asks for ([`adapter`], [`read_samples`]). Which file that
//! is, and for whom, is decided in [`streaming`], [`custom_source`], [`default_path`],
//! [`pending`] and [`create`].
//!
//! Samples are binary32 numbers and are held as their bits ([`sample`]).
pub mod adapter;
pub mod bytes;
pub mod create;
pub mod custom_source;
pub mod decoder;
pub mod decoder_loop;
pub mod decoder_run;
pub mod decoder_start;
pub mod default_path;
pub mod error;
pub mod factory;
pub mod fuzz;
pub mod logging;
pub mod media_ndk;
pub mod pcm;
pub mod pending;
pub mod phase;
pub mod read_samples;
pub mod rounding;
pub mod sample;
pub mod stream;
pub mod streaming;
pub mod text;
pub mod wav;
