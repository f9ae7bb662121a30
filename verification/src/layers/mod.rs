pub mod attention;
pub mod dims_laws;
pub mod dist_util;
pub mod embed_head;
pub mod kv_cache;
pub mod layernorm;
pub mod linear;
pub mod load_laws;
pub mod tensor;
