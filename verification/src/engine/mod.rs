//! Text refinement engines.

pub mod coze_refine;
pub mod correction;
pub mod llm;
pub mod llm_remote;
pub mod bpe;
pub mod bpe_roundtrip;
pub mod tokenizer_json;
