pub mod errors;
pub mod expansion;
pub mod filter;
pub mod ingestion;
pub mod pipeline;
pub mod search_pipeline;
pub mod voting;
