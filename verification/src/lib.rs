//! The core of an agent loop: conversation history, turn decisions, context
//! accounting and the rules that guard them.

pub mod agent;
pub mod anchors;
pub mod breaker;
pub mod commands;
pub mod config;
pub mod digest;
pub mod event;
pub mod execution_provenance;
pub mod file_state;
pub mod history;
pub mod image;
pub mod inbox;
pub mod interaction;
pub mod json;
pub mod offload;
pub mod paths;
pub mod protocol;
pub mod request;
pub mod request_view;
pub mod restore;
pub mod routes;
pub mod session_file;
pub mod text;
pub mod tokens;
pub mod turn;
pub mod usage;
