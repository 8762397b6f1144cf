//! The broadcasting half of an internet radio server.

pub mod answer_laws;
pub mod broadcaster;
pub mod broadcaster_laws;
pub mod buffer;
pub mod chunker;
pub mod client;
pub mod client_laws;
pub mod config;
pub mod delivery;
pub mod framing;
pub mod joining;
pub mod outside;
pub mod request;
pub mod response;
pub mod service_laws;
pub mod state_laws;
pub mod stream;
pub mod text;
pub mod websocket;
