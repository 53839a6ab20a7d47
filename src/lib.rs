//! Schema documents split across files and linked by `$ref`, resolved into one
//! tree; and the rules that keep generated output in step with them.

pub mod config;
pub mod json;
pub mod text;
pub mod reference;
pub mod resolver;
pub mod resolution;
pub mod loader;
pub mod pig;
pub mod watch;
