pub mod arrays;
pub mod memory;
pub mod obfuscation;
