pub mod text;
pub mod crypto;
pub mod config;
pub mod auth;
pub mod models;
pub mod listing;
pub mod handlers;
pub mod storage;
pub mod mount;
