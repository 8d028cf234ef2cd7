//! Templated command launcher: command files, placeholder templates and the
//! decisions of the interactive picker, with their specifications.

pub mod text;
pub mod placeholder;
pub mod store;
pub mod session;
pub mod screen;
