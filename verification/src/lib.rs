//! The logic of a terminal dashboard for running language models: detecting
//! inference servers, reading model files, deriving rates from counters, and
//! judging where the tokens wait.
pub mod bandwidth;
pub mod big;
pub mod config;
pub mod dashboard;
pub mod dblog;
pub mod decimal;
pub mod demo;
pub mod float;
pub mod generator;
pub mod gguf;
pub mod gpu;
pub mod host;
pub mod laws;
pub mod llm;
pub mod micro;
pub mod model_detect;
pub mod observe;
pub mod order;
pub mod path;
pub mod perf;
pub mod pipeline;
pub mod text;
