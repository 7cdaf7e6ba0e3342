pub mod decimal;
pub mod words;
