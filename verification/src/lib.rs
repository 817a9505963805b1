//! Argus: the telemetry data model, the compressed metric store and the
//! query-language front end, with their contracts proved by Verus.

pub mod text;
pub mod timestamp;
pub mod bitstream;
pub mod gorilla;
pub mod fnv;
pub mod labels;
pub mod attributes;
pub mod resource;
pub mod hex;
pub mod trace;
pub mod rng;
pub mod log;
pub mod metric;
pub mod signal;
pub mod batch;
pub mod query;
pub mod series;
pub mod index;
pub mod metrics;
pub mod stats;
pub mod traces;
pub mod logs;
pub mod engine;
pub mod otlp;
pub mod correlate;
pub mod grouping;
pub mod token;
pub mod error;
pub mod lexer;
pub mod ast;
pub mod parser;
pub mod plan;
pub mod color;
pub mod topology;
