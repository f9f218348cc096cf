pub mod text;
pub mod common;
pub mod loglevel;
pub mod module;
pub mod paint;
pub mod format;
pub mod caller;
pub mod log4rs;
pub mod hook;
pub mod event;
pub mod layout;
pub mod consumer;
pub mod logcache;
pub mod logwrapper;
