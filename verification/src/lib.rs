pub mod types;
pub mod graph;
pub mod paths;
pub mod algorithms;
pub mod cycles;
pub mod csv;
pub mod rows;
pub mod ingest;
pub mod summary;
pub mod rng;
pub mod progress;
pub mod pipeline;
pub mod synth;
pub mod layout;
