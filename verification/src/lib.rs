//! Layer-4 network health: packet decoding, flow tracking, anomaly detection and
//! the text formats the findings are published in.

pub mod accounting;
pub mod address;
pub mod addresses;
pub mod attribution;
pub mod behaviour;
pub mod binary;
pub mod bytes;
pub mod capture;
pub mod cli;
pub mod clock;
pub mod config;
pub mod coverage;
pub mod detectors;
pub mod document;
pub mod ebpf;
pub mod engine;
pub mod error;
pub mod exposition;
pub mod findings;
pub mod flow;
pub mod http;
pub mod json;
pub mod laws;
pub mod metrics;
pub mod number;
pub mod otlp;
pub mod parse;
pub mod pcapio;
pub mod pipeline;
pub mod posted;
pub mod rounding;
pub mod series;
pub mod shortest;
pub mod sink;
pub mod synthetic;
pub mod table;
pub mod text;
pub mod types;
pub mod window;
pub mod wire;
pub mod written;
