use vstd::prelude::*;

verus! {

/// One summary-node search hit from the relational index.
#[derive(Debug, Clone)]
pub struct SummaryNodeRecord {
    pub node_id: String,
    pub path: String,
    pub score: i64,
}

/// One page node fetched from under a summary node's tree path.
#[derive(Debug, Clone)]
pub struct PageNodeRecord {
    pub node_id: String,
    pub parent_node_id: String,
    pub path: String,
    pub content: String,
    pub image_url: Option<String>,
}

/// One summary node to be written into the relational index.
#[derive(Debug, Clone)]
pub struct IngestionSummaryNodeRecord {
    pub node_id: String,
    pub document_id: String,
    pub path: String,
    pub summary_text: String,
    pub embedding: Vec<i64>,
    pub metadata: serde_json::Value,
}

/// One page node to be written into the relational index.
#[derive(Debug, Clone)]
pub struct IngestionPageNodeRecord {
    pub node_id: String,
    pub parent_node_id: String,
    pub document_id: String,
    pub path: String,
    pub content: String,
    pub image_url: Option<String>,
    pub metadata: serde_json::Value,
}

} // verus!
