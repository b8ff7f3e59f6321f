//! The verified core of a small Redis-compatible in-memory server.
pub mod command;
pub mod config;
pub mod database;
pub mod keyed_map;
pub mod resp;
pub mod score;
pub mod server;
pub mod session;
pub mod text;
