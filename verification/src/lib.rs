pub mod commands;
pub mod config;
pub mod constants;
pub mod handler;
pub mod judge;
pub mod logger;
pub mod scheduler;
