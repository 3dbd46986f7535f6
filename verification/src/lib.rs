pub mod crypto;
pub mod encoding;
pub mod text;
pub mod types;
pub mod util;
pub mod zk;
pub mod aggregate;
pub mod query;
pub mod simulator;
pub mod level;
pub mod postgres;
pub mod circuit;
pub mod merkle;
pub mod aggregation_circuit;
