//! A small text-templating engine with verified rendering.
//!
//! A template holds three kinds of directive: `{{ key }}` substitutes a bound
//! value, `{% repeat N times %}body{% endrepeat %}` writes a body N times, and
//! `{% if key %}then{% else %}other{% endif %}` chooses between two branches.
//! Rendering runs one pass per directive kind, in that order, each over the
//! output of the one before. Keys, counts and bodies are trimmed of
//! whitespace; blocks do not nest, and each closes at its nearest end tag.
pub mod bindings;
pub mod laws;
pub mod render;
pub mod text;
pub mod value;

pub use bindings::Bindings;
pub use render::{render, RenderError};
pub use value::Data;
