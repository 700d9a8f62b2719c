//! A reader for JSON text, verified with Verus.
//!
//! [`parse`] reads a whole document and [`value`] one value at a position.
//! What they return is stated over the grammar of module `grammar`, a set
//! of functions on sequences of characters. Modules `scanner` and `parser`
//! hold the executable reader, proved to compute what the grammar says.
//!
//! A number is held as its digits, as written: giving it a floating-point
//! value is left to the caller. An object holds one value for each key, the
//! last one that the text gives, and nesting is limited to `MAX_DEPTH`.
//!
//! Four modules state what holds of the grammar as a whole:
//! `document` and `written`, that the texts that are read are exactly the
//! texts that are written as JSON, each read as what it stands for;
//! `layout`, that whitespace between tokens changes nothing; `roundtrip`,
//! that the shortest text of a value is read as that value; and `results`,
//! that what is read is well formed and that a failure lies inside the
//! input.

pub mod document;
pub mod error;
pub mod grammar;
pub mod layout;
pub mod parser;
pub mod results;
pub mod roundtrip;
pub mod scanner;
pub mod text;
pub mod value;
pub mod written;

pub use error::{ErrorKind, Fault, ParseError, Position};
pub use grammar::MAX_DEPTH;
pub use parser::{parse, value};
pub use value::{Array, Exponent, Number, Object, Value};
