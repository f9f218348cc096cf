pub mod enums;
pub mod error;
pub mod value;
pub mod table;
pub mod cfg;
pub mod parser;
pub mod manager;
