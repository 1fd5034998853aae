pub mod encoding;
pub mod hint;
pub mod hint_parser;
pub mod hint_processor;
