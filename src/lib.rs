//! A recursive-descent parser from JSON text to a tree of values.
//!
//! Every grammar rule has a model in [`grammar`]; the executable parser in
//! [`parser`] is proved to compute exactly what the model says, value or
//! error, for every input.
use vstd::prelude::*;

pub mod error;
pub mod grammar;
pub mod number;
pub mod parser;
pub mod render;
pub mod value;

pub use error::Error;
pub use parser::{parse, JsonParser};
pub use value::{JsonNumber, JsonValue};

verus! {

} // verus!
