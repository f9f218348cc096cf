pub mod error;
pub mod record;
pub mod index;
pub mod merkle;
pub mod keyed;
pub mod db;
pub mod memory;
pub mod kv;
