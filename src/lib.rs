//! Renders text documents by replacing `@type:key;` tokens with values drawn
//! from a hierarchical data context, and by keeping or repeating `{...}`
//! bodies of block tokens.

pub mod path;
pub mod render;
pub mod scan;
pub mod text;
pub mod value;

pub use path::{get_display_string, get_display_value};
pub use render::{parse, process_string};
pub use value::{Number, Value};
