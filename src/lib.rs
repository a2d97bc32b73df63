//! A parsing-combinator runtime: an immutable cursor over text, a result
//! that either goes on with a value or stops with a reason, combinators
//! that sequence, repeat, choose and look ahead, and ready-made matchers
//! for quoted strings, comments, brackets, numbers and colours. Offsets
//! are byte offsets into the whole input.
pub mod advance;
pub mod bracket;
pub mod builtin;
pub mod choice;
pub mod helpers;
pub mod patterns;
pub mod position;
pub mod regexp;
pub mod results;
pub mod state;
pub mod text;
pub mod traits;
pub mod utils;

pub use crate::advance::ParseAdvance;
pub use crate::bracket::{BracketPair, BracketPattern};
pub use crate::choice::ChoiceHelper;
pub use crate::patterns::{NamedPattern, StringView, SurroundPair, SurroundPattern};
pub use crate::results::{CustomError, ParseResult, StopBecause};
pub use crate::state::{ParseState, Parsed};
pub use crate::traits::Parse;
