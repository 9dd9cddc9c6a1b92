//! Verified core of a memory control plane for agents.

pub mod text;
pub mod text_laws;
pub mod text_map;
pub mod sorting;
pub mod paths;
pub mod processes;
pub mod update;
pub mod update_text;
pub mod json;
pub mod toml_doc;
pub mod assistant;
pub mod registration;
pub mod session;
pub mod session_laws;
pub mod compat;
pub mod handshake;
pub mod doctor;
pub mod doctor_run;
pub mod lane;
pub mod scores;
pub mod clock;
pub mod memory;
pub mod retrieval;
pub mod gate;
pub mod tier;
pub mod position;
pub mod headroom;
pub mod savings;
pub mod receipts;
pub mod agent;
pub mod mcp_log;
pub mod qdrant;
pub mod bench;
pub mod setup;
pub mod gauge_args;
