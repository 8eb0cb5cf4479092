pub mod decimal;
pub mod document;
