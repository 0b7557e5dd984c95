//! Verified core of a session wrapper: identifiers, paths, naming, checks,
//! settings composition and the rendered artifacts.

pub mod account;
pub mod agent;
pub mod argv;
pub mod calendar;
pub mod checks;
pub mod child;
pub mod config;
pub mod consent;
pub mod digest;
pub mod doc;
pub mod doctor;
pub mod encoding;
pub mod entry;
pub mod error;
pub mod identifier;
pub mod invocation;
pub mod logging;
pub mod login;
pub mod paths;
pub mod merge;
pub mod namespace;
pub mod terminal;
pub mod text;
pub mod peers;
pub mod pointer;
pub mod registration;
pub mod profile;
pub mod report;
pub mod resolve;
pub mod secret;
pub mod session;
pub mod settings_schema;
pub mod strategy;
pub mod version;
pub mod witness;
