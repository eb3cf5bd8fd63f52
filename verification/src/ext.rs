pub mod json;
pub mod maps;
