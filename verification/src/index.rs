pub mod records;
pub mod sql;
