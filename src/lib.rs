//! Extraction and cross-source correlation of phone numbers, e-mail
//! addresses and IP addresses found in ingested files.

pub mod commands;
pub mod database;
pub mod error;
pub mod extractors;
pub mod file_processor;
pub mod models;
pub mod text;
