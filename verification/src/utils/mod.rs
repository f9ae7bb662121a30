pub mod context;
pub mod dtype;
pub mod loader;
pub mod text;
pub mod text_laws;
