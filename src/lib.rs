pub mod bytes;
pub mod cache;
pub mod feature_buffer;
pub mod frame;
pub mod hashing;
pub mod line;
pub mod namespaces;
pub mod options;
pub mod persistence;
pub mod quantization;
pub mod schedule;
pub mod tokens;
