//! A small language-model workbench: datasets, evaluation, training control,
//! model layout, quantised checkpoints and the model registry.
//!
//! The numeric kernels live outside this crate. Everything here works on
//! plain values, and every function carries a contract.

// Plain values: lists, texts, numbers, dates and paths.
pub mod list;
pub mod text;
pub mod number;
pub mod thousands;
pub mod calendar;
pub mod paths;
pub mod ids;
pub mod json;
pub mod error;
pub mod rng;

// Arithmetic corpora and what training reads of them.
pub mod problem;
pub mod corpus;
pub mod generate;
pub mod dataset;

// Models: their parameters, layout and files.
pub mod args;
pub mod schedule;
pub mod model;
pub mod layout;
pub mod names;
pub mod quantize;

// Runs: generation, training, evaluation and reinforcement.
pub mod decode;
pub mod training;
pub mod eval;
pub mod rft;
pub mod grpo;

// The registry of trained models.
pub mod record;
pub mod rows;
pub mod table;
pub mod snapshots;
pub mod registry;
pub mod jacobian;
