//! Parsing and rolling of tabletop dice notation such as `2d6 + 1d4 - 2`.

mod ast;
mod error;
mod laws;
mod parser;
mod random;
mod roller;
mod text;

pub use ast::{DiceExpr, Keep, RollSpec};
pub use error::{DiceError, DiceErrorView, ParseErrorKind};
pub use parser::Parser;
pub use roller::{d100_face, ExprResult, RollDetail, RollResult, Roller};
pub use text::{decimal_value, is_ascii_digit, is_white_space, utf8_width};
