pub mod adapter;
pub mod fetch;
pub mod memory;
pub mod query;
