pub mod parse;
pub mod readonly;
