//! FSON: a superset of JSON with references, reference declarations and
//! template strings, resolved into a plain value graph and rendered back to
//! canonical text.
pub mod generator;
pub mod host;
pub mod number;
pub mod parser;
pub mod stringify_json;
pub mod types;
pub mod utils;

pub use types::{Decimal, ReferenceAsValue, ReferencesManager, TemplateValue, Value};
pub use utils::{sanitize_string, stringify_value};
