//! A small BitNet b1.58 language-model library: reverse-mode autograd over
//! row-major tensors, ternary weight and 8-bit activation quantisation,
//! a decoder-only transformer, tokenisers, sampling and the checkpoint format.
//!
//! The library never touches a floating-point number itself. Element
//! arithmetic comes in through the [`float::Float`] trait, which a caller
//! implements for its own 32-bit float type.
pub mod agreement;
pub mod attention;
pub mod autograd;
pub mod backward;
pub mod bitlinear;
pub mod block;
pub mod bpe;
pub mod calls;
pub mod chance;
pub mod cli;
pub mod codec;
pub mod config;
pub mod data;
pub mod descent;
pub mod device;
pub mod drawing;
pub mod exact;
pub mod export;
pub mod ffn;
pub mod fitting;
pub mod float;
pub mod formats;
pub mod gpu;
pub mod gradients;
pub mod identities;
pub mod inference;
pub mod inference_kv;
pub mod layout;
pub mod linear;
pub mod model;
pub mod ops;
pub mod optim;
pub mod plain;
pub mod quantising;
pub mod regression;
pub mod runs;
pub mod samples;
pub mod scoring;
pub mod slopes;
pub mod step;
pub mod stream;
pub mod sweep;
pub mod tensor;
pub mod train;
pub mod trainer;
pub mod turning;
pub mod words;
