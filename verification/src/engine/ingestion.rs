use vstd::prelude::*;

use crate::engine::errors::{CoreError, CoreResult};
use crate::engine::search_pipeline::PostgresConfigPayload;
use crate::ext::json;
use crate::index::records::{IngestionPageNodeRecord, IngestionSummaryNodeRecord};
use crate::index::sql::{all_white, has_visible, str_eq};

verus! {

/// One summary node of an ingestion request.
#[derive(Debug, Clone)]
pub struct IngestionSummaryNodePayload {
    pub node_id: String,
    pub document_id: String,
    pub path: String,
    pub summary_text: String,
    pub embedding: Vec<i64>,
    pub metadata: Option<serde_json::Value>,
}

/// One page node of an ingestion request.
#[derive(Debug, Clone)]
pub struct IngestionPageNodePayload {
    pub node_id: String,
    pub parent_node_id: String,
    pub document_id: String,
    pub path: String,
    pub content: String,
    pub image_url: Option<String>,
    pub metadata: Option<serde_json::Value>,
}

/// One ingestion request.
#[derive(Debug, Clone)]
pub struct IngestionRequestPayload {
    pub operation: String,
    pub document_id: Option<String>,
    pub summary_nodes: Vec<IngestionSummaryNodePayload>,
    pub page_nodes: Vec<IngestionPageNodePayload>,
    pub postgres: PostgresConfigPayload,
}

/// Counters reported after an ingestion run.
#[derive(Debug, Clone)]
pub struct IngestionResultPayload {
    pub operation: String,
    pub upserted_summary_nodes: u64,
    pub upserted_page_nodes: u64,
    pub touched_summary_nodes: u64,
}

/// The database work one ingestion operation asks for.
#[derive(Debug, Clone, Copy, PartialEq, Eq)]
pub enum IngestionOp {
    /// Upsert the summary nodes, then the page nodes.
    UpsertDocument,
    /// Upsert the page nodes only.
    UpsertPages,
    /// Touch every summary node of one document.
    RebuildSummaryEmbeddings,
}

/// Decides which database work an ingestion request asks for: the
/// operation name picks the plan, a blank name is rejected, rebuilding
/// requires a document identifier, and any other name is unsupported.
pub fn plan_ingestion(operation: &str, has_document_id: bool) -> (r: CoreResult<IngestionOp>)
    ensures
        all_white(operation@) ==> (r matches Err(e) && e is InvalidInput),
        !all_white(operation@) && operation@ == "upsert_document"@ ==> r == Ok::<
            IngestionOp,
            CoreError,
        >(IngestionOp::UpsertDocument),
        !all_white(operation@) && operation@ == "upsert_pages"@ ==> r == Ok::<
            IngestionOp,
            CoreError,
        >(IngestionOp::UpsertPages),
        (!all_white(operation@) && operation@ == "rebuild_summary_embeddings"@
            && has_document_id) ==> r == Ok::<IngestionOp, CoreError>(
            IngestionOp::RebuildSummaryEmbeddings,
        ),
        (!all_white(operation@) && operation@ == "rebuild_summary_embeddings"@
            && !has_document_id) ==> (r matches Err(e) && e is InvalidInput),
        (!(operation@ == "upsert_document"@) && !(operation@ == "upsert_pages"@) && !(operation@
            == "rebuild_summary_embeddings"@)) ==> (r matches Err(e) && e is InvalidInput),
{
    proof {
        reveal_strlit("upsert_document");
        reveal_strlit("upsert_pages");
        reveal_strlit("rebuild_summary_embeddings");
    }
    if !has_visible(operation) {
        return Err(CoreError::InvalidInput("operation must not be empty".to_string()));
    }
    if str_eq(operation, "upsert_document") {
        Ok(IngestionOp::UpsertDocument)
    } else if str_eq(operation, "upsert_pages") {
        Ok(IngestionOp::UpsertPages)
    } else if str_eq(operation, "rebuild_summary_embeddings") {
        if has_document_id {
            Ok(IngestionOp::RebuildSummaryEmbeddings)
        } else {
            Err(CoreError::InvalidInput("document_id is required".to_string()))
        }
    } else {
        Err(CoreError::InvalidInput("unsupported operation".to_string()))
    }
}

/// Assembles the reported counters of one ingestion run from the plan and
/// the per-table affected-row counts.
pub fn summarize_ingestion(
    operation: String,
    op: IngestionOp,
    upserted_summary: u64,
    upserted_pages: u64,
    touched: u64,
) -> (r: IngestionResultPayload)
    ensures
        r.operation@ == operation@,
        op is UpsertDocument ==> r.upserted_summary_nodes == upserted_summary
            && r.upserted_page_nodes == upserted_pages && r.touched_summary_nodes == 0,
        op is UpsertPages ==> r.upserted_summary_nodes == 0 && r.upserted_page_nodes
            == upserted_pages && r.touched_summary_nodes == 0,
        op is RebuildSummaryEmbeddings ==> r.upserted_summary_nodes == 0 && r.upserted_page_nodes
            == 0 && r.touched_summary_nodes == touched,
{
    match op {
        IngestionOp::UpsertDocument => IngestionResultPayload {
            operation,
            upserted_summary_nodes: upserted_summary,
            upserted_page_nodes: upserted_pages,
            touched_summary_nodes: 0,
        },
        IngestionOp::UpsertPages => IngestionResultPayload {
            operation,
            upserted_summary_nodes: 0,
            upserted_page_nodes: upserted_pages,
            touched_summary_nodes: 0,
        },
        IngestionOp::RebuildSummaryEmbeddings => IngestionResultPayload {
            operation,
            upserted_summary_nodes: 0,
            upserted_page_nodes: 0,
            touched_summary_nodes: touched,
        },
    }
}

/// Turns one summary payload into its index record; a missing metadata
/// value becomes the JSON null.
pub fn map_summary_record(payload: IngestionSummaryNodePayload) -> (r: IngestionSummaryNodeRecord)
    ensures
        r.node_id@ == payload.node_id@,
        r.document_id@ == payload.document_id@,
        r.path@ == payload.path@,
        r.summary_text@ == payload.summary_text@,
        r.embedding@ == payload.embedding@,
        payload.metadata matches Some(m) ==> r.metadata == m,
{
    let metadata = match payload.metadata {
        Some(m) => m,
        None => json::json_null(),
    };
    IngestionSummaryNodeRecord {
        node_id: payload.node_id,
        document_id: payload.document_id,
        path: payload.path,
        summary_text: payload.summary_text,
        embedding: payload.embedding,
        metadata,
    }
}

/// Turns one page payload into its index record; a missing metadata value
/// becomes the JSON null.
pub fn map_page_record(payload: IngestionPageNodePayload) -> (r: IngestionPageNodeRecord)
    ensures
        r.node_id@ == payload.node_id@,
        r.parent_node_id@ == payload.parent_node_id@,
        r.document_id@ == payload.document_id@,
        r.path@ == payload.path@,
        r.content@ == payload.content@,
        r.image_url == payload.image_url,
        payload.metadata matches Some(m) ==> r.metadata == m,
{
    let metadata = match payload.metadata {
        Some(m) => m,
        None => json::json_null(),
    };
    IngestionPageNodeRecord {
        node_id: payload.node_id,
        parent_node_id: payload.parent_node_id,
        document_id: payload.document_id,
        path: payload.path,
        content: payload.content,
        image_url: payload.image_url,
        metadata,
    }
}

} // verus!
