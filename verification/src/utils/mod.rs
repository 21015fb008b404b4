pub mod treat_detection;
pub mod file;
