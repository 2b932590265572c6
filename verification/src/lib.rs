//! The verified core of a GGUF inference engine: the file format, the quantized
//! weight formats, the tokenizer, the transformer's forward pass and the sampler.
//!
//! Floating-point values that are compared or converted appear here as their IEEE
//! 754 bit patterns. Code that only computes with them is generic over the type of
//! a number and is handed the arithmetic.

pub mod text;
pub mod unpacking;
pub mod utf8;
pub mod ieee;
pub mod tensor;
pub mod gguf;
pub mod written;
pub mod quant;
pub mod byte_table;
pub mod pieces;
pub mod tokenizer;
pub mod merging;
pub mod kv_cache;
pub mod chat_template;
pub mod layout;
pub mod generation;
pub mod loading;
pub mod sources;
pub mod model;
pub mod settings;
pub mod run;
pub mod cli;
pub mod options;
pub mod sampler;
pub mod filtering;
pub mod reproducible;
pub mod repeatable;
pub mod rounds;
pub mod gpu_backend;
pub mod ranking;
pub mod arith;
pub mod exact;
pub mod math;
pub mod projection;
pub mod rope;
pub mod attention;
pub mod heads;
pub mod rmsnorm;
pub mod mlp;
pub mod transformer;
pub mod layers;
