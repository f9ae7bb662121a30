//! The engine of an LLM inference server: requests are cut into fixed-size blocks of
//! tokens, blocks are shared between requests through a prefix cache, and a scheduler
//! batches requests step by step under a token budget.
pub mod args_laws;
pub mod chat;
pub mod client;
pub mod config;
pub mod engine;
pub mod layers;
pub mod models;
pub mod sampling_params;
pub mod serve;
pub mod template;
pub mod template_laws;
pub mod utils;
