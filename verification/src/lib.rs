//! A streaming JSON parser, generator and tree builder with verified contracts.

pub mod bytes;
pub mod chunks;
pub mod encode;
pub mod ext;
pub mod gen;
pub mod lexer;
pub mod machine;
pub mod parser;
pub mod rparser;
pub mod status;
pub mod token;
pub mod tree;
