//! Fraud scoring by nearest neighbours: request scanning, the inverted-file
//! index, its two-phase search, and the preprocessing that builds it.
//!
//! Floating-point numbers appear here only as the bit patterns of their IEEE 754
//! encodings (`u32` for single precision, `u64` for double, `u16` for half).
//!
//! The modules whose names end in `_laws`, and [`written`], hold no code to run: they
//! state and prove what the library does in terms of its inputs and results alone.

pub mod assembly;
pub mod build_laws;
pub mod calendar;
pub mod chance;
pub mod cluster;
pub mod encode;
pub mod fold;
pub mod forest;
pub mod forest_laws;
pub mod format_laws;
pub mod ieee;
pub mod index;
pub mod keep_laws;
pub mod kmeans;
pub mod models;
pub mod nearest;
pub mod quantize;
pub mod quantize_laws;
pub mod rank;
pub mod recall;
pub mod recall_laws;
pub mod references;
pub mod request_laws;
pub mod respacing;
pub mod scan;
pub mod scan_laws;
pub mod search;
pub mod search_laws;
pub mod seeding;
pub mod spacing;
pub mod topk;
pub mod vectorize;
pub mod warmup;
pub mod written;
