//! Verified core of a realtime gateway: command routing rules, connection and
//! subscription bookkeeping, relay authorization and outbox dispatch.

pub mod text;
pub mod clock;
pub mod config;
pub mod auth;
pub mod table;
pub mod json;
pub mod message;
pub mod project;
pub mod routes;
pub mod connection;
pub mod pending;
pub mod relay;
pub mod order;
pub mod state;
pub mod ingress;
pub mod preauth;
pub mod broker;
pub mod transport;
pub mod api;
pub mod laws;
pub mod guarantees;
