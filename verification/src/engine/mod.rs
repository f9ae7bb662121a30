pub mod admission_laws;
pub mod block_laws;
pub mod block_manager;
pub mod block_proofs;
pub mod continuity_laws;
pub mod finish_laws;
pub mod history_laws;
pub mod layout_laws;
pub mod llm_engine;
pub mod model_runner;
pub mod outputs;
pub mod prefix_laws;
pub mod request_laws;
pub mod scheduler;
pub mod scheduler_laws;
pub mod scheduler_proofs;
pub mod sequence;
pub mod step_laws;
pub mod tokenizer;
pub mod tokenizer_laws;
pub mod worker;
