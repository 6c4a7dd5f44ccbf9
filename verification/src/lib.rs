//! Verified core of the `.nnvis` model-visualisation preprocessor.
//!
//! The library holds the container format of `.nnvis` files, the
//! conceptual-layer model derived from a model's `config.json`, the
//! assignment of ONNX graph nodes to those layers, the grouped layer graph,
//! and the pure parts of the ONNX and SafeTensors readers.

pub mod container;
pub mod text;
pub mod assoc;
pub mod json;
pub mod config;
pub mod onnx;
pub mod scope;
pub mod assignment;
pub mod grouping;
pub mod safetensors;
