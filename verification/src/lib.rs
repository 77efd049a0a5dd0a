//! Profiling and observability for LLM inference engines: the verified core.
#![allow(unused_imports)]

pub mod accuracy;
pub mod binary64;
pub mod command;
pub mod cost;
pub mod decimal;
pub mod decoder;
pub mod derive;
pub mod energy;
pub mod error;
pub mod exposition;
pub mod gpu;
pub mod gpu_metrics;
pub mod kvcache;
pub mod lora;
pub mod metrics;
pub mod numeral;
pub mod otel;
pub mod period;
pub mod phase;
pub mod pricing;
pub mod probe;
pub mod procfs;
pub mod render;
pub mod resource;
pub mod rounding;
pub mod sampling;
pub mod schema;
pub mod scrape;
pub mod session;
pub mod shortest;
pub mod speculative;
pub mod stats;
pub mod steps;
pub mod text;
pub mod timing;
pub mod trajectory;
pub mod wire;
