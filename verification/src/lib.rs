//! Counts lines, words, bytes, UTF-8 characters and the length of the
//! longest line in byte streams.
//!
//! A request names the metrics that are wanted. One of seven algorithms is
//! selected for it, the cheapest that can produce them ([`count::Strategy`]).
//! An input is counted as it arrives, chunk by chunk ([`scan::Scanner`]), or
//! as a whole ([`count::Counter`]). Where many inputs are counted at once,
//! their results are put back in the order of the inputs and summed up
//! ([`pipeline::Pipeline`]).
//!
//! The meaning of each number is stated over the bytes of the input in
//! [`model`], and over decoded text in [`text`]. The library reads no files
//! and writes no streams: it is handed bytes and hands back numbers and
//! lines of text.

pub mod args;
pub mod count;
pub mod model;
pub mod pipeline;
pub mod render;
pub mod scan;
pub mod siginfo;
pub mod text;
pub mod trusted;
