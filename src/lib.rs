//! Boolean formulas over single-letter variables: compilation of infix text
//! into a postfix program, evaluation of that program, enumeration of truth
//! assignments, and the classification of typed text for display.

pub mod bool_iterator;
pub mod function;
pub mod highlight;
pub mod input;
pub mod laws;
pub mod parse;
pub mod syntax;
pub mod table;
pub mod translate;

pub use bool_iterator::BoolIterator;
pub use function::{Function, PostfixToken};
pub use input::InputKind;
pub use parse::{ParseError, ParseErrorKind};
