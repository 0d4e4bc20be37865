//! Reader and writer for Ion, a line-oriented format of named sections, each
//! holding a dictionary of typed values and a table of pipe-delimited rows.

pub mod text;
pub mod display;
pub mod error;
pub mod ion;
pub mod name_map;
pub mod parser;
pub mod round_trip;
pub mod section;
pub mod value;

pub use error::IonError;
pub use ion::{from_str, Ion};
pub use name_map::NameMap;
pub use parser::{Element, Parser, ParserError};
pub use section::{IntoIter, Section, DEFAULT_NAME};
pub use value::{Dictionary, Row, Value};
