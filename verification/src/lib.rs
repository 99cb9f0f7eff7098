//! A model runtime whose decisions are proved: weight files are decoded, configurations are
//! normalised and GPU work is recorded by verified code; a thin host performs the I/O.

pub mod bytes;
pub mod config;
pub mod coverage;
pub mod dequant;
pub mod encoding;
pub mod error;
pub mod float;
pub mod generation;
pub mod gguf;
pub mod gpu;
pub mod json;
pub mod kernels;
pub mod models;
pub mod nn;
pub mod packing;
pub mod rounding;
pub mod settings;
pub mod shape;
pub mod source;
pub mod table;
pub mod text;
pub mod tokenizer;
