//! A writer for the Ninja build-file grammar: escaping of path tokens,
//! column-width-aware line wrapping that never breaks at an escaped space,
//! and formatters for the statement kinds (variable, rule, build, pool,
//! default, subninja, comment).

pub mod escaping;
pub mod wrapping;
pub mod writer;

pub use escaping::escape;
pub use escaping::escape_path;
pub use escaping::expand;
pub use escaping::NinjaError;
pub use writer::RuleDescriptor;
pub use writer::VariableValue;
pub use writer::Writer;
