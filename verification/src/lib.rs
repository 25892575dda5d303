pub mod text;
pub mod wit_parser;
pub mod abi;
pub mod runtime;
pub mod loader;
