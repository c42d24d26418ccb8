pub mod collections;
pub mod config;
pub mod matcher;
pub mod pattern;
pub mod pool;
pub mod reader;
pub mod render;
pub mod result;
pub mod text;
pub mod zero_copy;
