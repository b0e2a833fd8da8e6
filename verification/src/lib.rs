//! AntTP: request routing and archive resolution for an HTTP gateway onto the
//! Autonomi network, with the decisions made here verified against their contracts.

pub mod archive;
pub mod config;
pub mod paths;
pub mod routes;
pub mod text;
pub mod xor;
