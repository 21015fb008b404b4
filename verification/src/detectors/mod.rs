pub mod decoder;
pub mod network;
pub mod plain;
