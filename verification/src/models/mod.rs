pub mod packed_laws;
pub mod qwen3;
pub mod qwen3_laws;
pub mod shape_laws;
