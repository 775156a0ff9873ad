pub mod token;
pub mod parser;
pub mod state;
pub mod language;
pub mod acceptance;
pub mod literal;
pub mod groups;
pub mod parse_laws;
