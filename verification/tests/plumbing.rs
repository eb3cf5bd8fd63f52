use svve_core::engine::errors::CoreError;
use svve_core::engine::filter::{
    parse_filter_response, sort_decisions, validate_filter_config, FilterDecision,
    FilterHttpConfigPayload,
};
use svve_core::engine::ingestion::{
    map_page_record, map_summary_record, plan_ingestion, summarize_ingestion, IngestionOp,
    IngestionPageNodePayload, IngestionSummaryNodePayload,
};
use svve_core::engine::search_pipeline::{
    rank_candidates, to_candidate, validate_payload, PostgresConfigPayload,
    SearchCandidatePayload, SearchRequestPayload,
};
use svve_core::index::records::PageNodeRecord;
use svve_core::index::sql::validate_identifier;
use svve_core::math::linalg::FIXED_ONE;

fn postgres_config() -> PostgresConfigPayload {
    PostgresConfigPayload {
        dsn: "postgres://localhost/db".to_string(),
        summary_table: "summary_nodes".to_string(),
        page_table: "page_nodes".to_string(),
        pool_min: 1,
        pool_max: 4,
        connect_timeout_ms: 1000,
        statement_timeout_ms: 1000,
    }
}

fn filter_config() -> FilterHttpConfigPayload {
    FilterHttpConfigPayload {
        url: "http://localhost/filter".to_string(),
        timeout_ms: 1000,
        auth_token: None,
        model: None,
    }
}

fn search_request() -> SearchRequestPayload {
    SearchRequestPayload {
        job_id: "job-1".to_string(),
        question: "what is this".to_string(),
        query_embedding: vec![FIXED_ONE, 0, 0, 0],
        top_k: 5,
        entry_limit: 3,
        page_limit: 10,
        worker_concurrency: 2,
        postgres: postgres_config(),
        filter_http: filter_config(),
        metadata: None,
    }
}

#[test]
fn identifier_validation_accepts_safe_names_only() {
    assert!(validate_identifier("summary_nodes", "postgres.summary_table").is_ok());
    assert!(validate_identifier("T0_a", "postgres.summary_table").is_ok());
    assert!(matches!(
        validate_identifier("", "postgres.summary_table"),
        Err(CoreError::InvalidConfig(_))
    ));
    assert!(matches!(
        validate_identifier("  \t", "postgres.summary_table"),
        Err(CoreError::InvalidConfig(_))
    ));
    assert!(matches!(
        validate_identifier("nodes; DROP TABLE x", "postgres.summary_table"),
        Err(CoreError::InvalidConfig(_))
    ));
    assert!(matches!(
        validate_identifier("page-nodes", "postgres.page_table"),
        Err(CoreError::InvalidConfig(_))
    ));
}

#[test]
fn filter_config_validation() {
    assert!(validate_filter_config(&filter_config()).is_ok());
    let mut blank = filter_config();
    blank.url = "   ".to_string();
    assert!(matches!(
        validate_filter_config(&blank),
        Err(CoreError::InvalidConfig(_))
    ));
    let mut zero = filter_config();
    zero.timeout_ms = 0;
    assert!(matches!(
        validate_filter_config(&zero),
        Err(CoreError::InvalidConfig(_))
    ));
}

#[test]
fn filter_response_binary_forms() {
    assert_eq!(
        parse_filter_response("1"),
        Ok((true, "binary-response".to_string()))
    );
    assert_eq!(
        parse_filter_response(" 0 \n"),
        Ok((false, "binary-response".to_string()))
    );
}

#[test]
fn filter_response_json_forms() {
    assert_eq!(
        parse_filter_response("{\"keep\": true, \"reason\": \"relevant\"}"),
        Ok((true, "relevant".to_string()))
    );
    assert_eq!(
        parse_filter_response("{\"keep\": false}"),
        Ok((false, "json-response".to_string()))
    );
    assert_eq!(
        parse_filter_response("{\"result\": \"1\"}"),
        Ok((true, "json-result".to_string()))
    );
    assert_eq!(
        parse_filter_response("{\"result\": \"0\"}"),
        Ok((false, "json-result".to_string()))
    );
}

#[test]
fn filter_response_rejects_unsupported_shapes() {
    assert!(parse_filter_response("not json at all").is_err());
    assert!(parse_filter_response("{\"other\": 5}").is_err());
    assert!(parse_filter_response("{\"result\": \"2\"}").is_err());
}

#[test]
fn search_payload_validation_checks_every_field() {
    assert!(validate_payload(&search_request()).is_ok());
    let mut p = search_request();
    p.job_id = " ".to_string();
    assert!(matches!(validate_payload(&p), Err(CoreError::InvalidInput(_))));
    let mut p = search_request();
    p.question = "".to_string();
    assert!(matches!(validate_payload(&p), Err(CoreError::InvalidInput(_))));
    let mut p = search_request();
    p.query_embedding = vec![];
    assert!(matches!(validate_payload(&p), Err(CoreError::InvalidInput(_))));
    let mut p = search_request();
    p.top_k = 0;
    assert!(matches!(validate_payload(&p), Err(CoreError::InvalidInput(_))));
    let mut p = search_request();
    p.entry_limit = 0;
    assert!(matches!(validate_payload(&p), Err(CoreError::InvalidInput(_))));
    let mut p = search_request();
    p.page_limit = 0;
    assert!(matches!(validate_payload(&p), Err(CoreError::InvalidInput(_))));
    let mut p = search_request();
    p.worker_concurrency = 0;
    assert!(matches!(validate_payload(&p), Err(CoreError::InvalidInput(_))));
}

fn page() -> PageNodeRecord {
    PageNodeRecord {
        node_id: "n-1".to_string(),
        parent_node_id: "s-1".to_string(),
        path: "root.a.b".to_string(),
        content: "body".to_string(),
        image_url: None,
    }
}

#[test]
fn candidates_keep_the_filter_verdict_and_clamp_the_score() {
    let keep = FilterDecision {
        node_id: "n-1".to_string(),
        keep: true,
        reason: "relevant".to_string(),
    };
    let c = to_candidate(page(), Some(2 * FIXED_ONE), Some(&keep)).expect("kept");
    assert_eq!(c.score, FIXED_ONE);
    assert_eq!(c.reason, "relevant");
    let c2 = to_candidate(page(), Some(-5), Some(&keep)).expect("kept");
    assert_eq!(c2.score, 0);
    let c3 = to_candidate(page(), None, Some(&keep)).expect("kept");
    assert_eq!(c3.score, 0);
    let drop = FilterDecision {
        node_id: "n-1".to_string(),
        keep: false,
        reason: "off-topic".to_string(),
    };
    assert!(to_candidate(page(), Some(1), Some(&drop)).is_none());
    assert!(to_candidate(page(), Some(1), None).is_none());
}

#[test]
fn ingestion_plans_follow_the_operation_name() {
    assert_eq!(
        plan_ingestion("upsert_document", false),
        Ok(IngestionOp::UpsertDocument)
    );
    assert_eq!(plan_ingestion("upsert_pages", false), Ok(IngestionOp::UpsertPages));
    assert_eq!(
        plan_ingestion("rebuild_summary_embeddings", true),
        Ok(IngestionOp::RebuildSummaryEmbeddings)
    );
    assert!(matches!(
        plan_ingestion("rebuild_summary_embeddings", false),
        Err(CoreError::InvalidInput(_))
    ));
    assert!(matches!(plan_ingestion("  ", true), Err(CoreError::InvalidInput(_))));
    assert!(matches!(
        plan_ingestion("drop_everything", true),
        Err(CoreError::InvalidInput(_))
    ));
}

#[test]
fn ingestion_summary_reports_only_the_performed_work() {
    let a = summarize_ingestion("upsert_document".to_string(), IngestionOp::UpsertDocument, 3, 7, 9);
    assert_eq!(
        (a.upserted_summary_nodes, a.upserted_page_nodes, a.touched_summary_nodes),
        (3, 7, 0)
    );
    let b = summarize_ingestion("upsert_pages".to_string(), IngestionOp::UpsertPages, 3, 7, 9);
    assert_eq!(
        (b.upserted_summary_nodes, b.upserted_page_nodes, b.touched_summary_nodes),
        (0, 7, 0)
    );
    let c = summarize_ingestion(
        "rebuild_summary_embeddings".to_string(),
        IngestionOp::RebuildSummaryEmbeddings,
        3,
        7,
        9,
    );
    assert_eq!(
        (c.upserted_summary_nodes, c.upserted_page_nodes, c.touched_summary_nodes),
        (0, 0, 9)
    );
}

#[test]
fn ingestion_records_carry_the_payload_fields() {
    let s = map_summary_record(IngestionSummaryNodePayload {
        node_id: "s-1".to_string(),
        document_id: "d-1".to_string(),
        path: "root.a".to_string(),
        summary_text: "summary".to_string(),
        embedding: vec![FIXED_ONE, 0],
        metadata: None,
    });
    assert_eq!(s.node_id, "s-1");
    assert_eq!(s.embedding, vec![FIXED_ONE, 0]);
    assert!(s.metadata.is_null());
    let p = map_page_record(IngestionPageNodePayload {
        node_id: "p-1".to_string(),
        parent_node_id: "s-1".to_string(),
        document_id: "d-1".to_string(),
        path: "root.a.b".to_string(),
        content: "text".to_string(),
        image_url: Some("http://img".to_string()),
        metadata: Some(serde_json::from_str::<serde_json::Value>("{\"k\":1}").unwrap()),
    });
    assert_eq!(p.parent_node_id, "s-1");
    assert_eq!(p.metadata, serde_json::from_str::<serde_json::Value>("{\"k\":1}").unwrap());
}

fn decision(node_id: &str) -> FilterDecision {
    FilterDecision { node_id: node_id.to_string(), keep: true, reason: "r".to_string() }
}

#[test]
fn filter_decisions_sort_by_node_id() {
    let mut ds = vec![decision("n-3"), decision("n-10"), decision("n-1"), decision("n-2")];
    sort_decisions(&mut ds);
    let ids: Vec<&str> = ds.iter().map(|d| d.node_id.as_str()).collect();
    // Lexicographic, not numeric: "n-10" sorts before "n-2".
    assert_eq!(ids, vec!["n-1", "n-10", "n-2", "n-3"]);
}

fn candidate(path: &str, score: i64) -> SearchCandidatePayload {
    SearchCandidatePayload {
        node_id: path.to_string(),
        path: path.to_string(),
        score,
        content: "c".to_string(),
        image_url: None,
        reason: "r".to_string(),
    }
}

#[test]
fn candidates_rank_by_score_then_path_and_truncate() {
    let mut kept = vec![
        candidate("root.b", 500_000),
        candidate("root.a", 900_000),
        candidate("root.c", 900_000),
        candidate("root.d", 100_000),
    ];
    rank_candidates(&mut kept, 3);
    let paths: Vec<&str> = kept.iter().map(|c| c.path.as_str()).collect();
    assert_eq!(paths, vec!["root.a", "root.c", "root.b"]);
    let mut all = vec![candidate("x", 1), candidate("y", 2)];
    rank_candidates(&mut all, 10);
    assert_eq!(all.len(), 2);
    assert_eq!(all[0].path, "y");
}
