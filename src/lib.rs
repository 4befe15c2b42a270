//! A zero-copy bencoding decoder: a single-pass tokenizer that indexes a
//! buffer with packed 64-bit tokens, and a navigation layer over the tokens.
use vstd::prelude::*;

pub mod bdecode_node;
pub mod commons;
pub mod decode;
pub mod error;
pub mod json;
pub mod laws;
pub mod limits;
pub mod navigate;
pub mod scan;
pub mod structure;
pub mod token;
pub mod tokenizer;
pub mod well_formed;

pub use commons::NodeType;
pub use decode::{BdecodeNode, Dict, End, IBdecodeNode, Int, List, Str, Style};
pub use error::BdecodeError;
pub use token::{BdecodeToken, BdecodeTokenType, TokenView};
