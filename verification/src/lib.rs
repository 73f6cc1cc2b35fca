//! A JSON formatter that produces compact, human-readable output with
//! table-like alignment.

pub mod error;
pub mod model;
pub mod options;
pub mod text;
pub mod buffer;
pub mod tokenizer;
pub mod parse_spec;
pub mod parser;
pub mod number;
pub mod table_template;
pub mod formatter;
pub mod convert;
pub mod config;

pub use buffer::{CharCount, StringLength};
pub use convert::JsonValue;
pub use error::FracturedJsonError;
pub use formatter::Formatter;
pub use model::{InputPosition, JsonItem, JsonItemType};
pub use options::{
    CommentPolicy, EolStyle, FracturedJsonOptions, NumberListAlignment, TableCommaPlacement,
};
