//! TurboQuant vector store: the integer core of an IVF index with 2-bit and
//! 4-bit scalar quantization (SQ codes plus one QJL sign bit per coordinate).
//!
//! Floating-point arithmetic never appears here: scores travel as the raw bit
//! patterns of `f32` values, and everything that decides, selects, packs,
//! lays out or frames is stated over integers and proved.
pub mod config;
pub mod params;
pub mod score;
pub mod packing;
pub mod quantize;
pub mod topk;
pub mod search;
pub mod layout;
pub mod sampling;
pub mod protocol;
pub mod engine;
