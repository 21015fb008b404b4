pub mod binary;
pub mod detectors;
pub mod engines;
pub mod fingerprint;
pub mod models;
pub mod numbers;
pub mod patterns;
pub mod scan;
pub mod text;
pub mod utils;
