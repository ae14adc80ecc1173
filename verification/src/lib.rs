//! Parsing human-readable duration strings such as `"1h 2min 3s"`.

#[allow(unused_imports)]
use vstd::prelude::*;

pub mod chars;
pub mod duration;
pub mod error;
pub mod laws;
pub mod parser;
pub mod scanner;
pub mod text;
pub mod units;

pub use duration::Duration;
pub use error::Error;
pub use parser::{parse, Parser, ParserOptions};
pub use scanner::{Scanner, Token};
pub use units::ParserUnits;
