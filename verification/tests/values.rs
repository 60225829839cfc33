use db_sight_core::driver::mysql::{
    classify_backend_error, count_query, format_cell, not_connected_error, nullable_from_marker,
    select_page_query, show_databases_query, show_tables_query, text_or_lossy, total_from_count,
    CellProbes,
};
use db_sight_core::driver::classify_connect_failure;
use db_sight_core::strutil::{i64_to_string, str_contains, u64_to_string};
use db_sight_core::{DBError, TableDataPage};

fn no_probes() -> CellProbes {
    CellProbes {
        is_null: false,
        datetime_text: None,
        date_text: None,
        time_text: None,
        i64_value: None,
        i32_value: None,
        u64_value: None,
        u32_value: None,
        f64_text: None,
        f32_text: None,
        bool_value: None,
        json_text: None,
        text_value: None,
        bytes_value: None,
    }
}

#[test]
fn null_marker_decodes_to_null_literal() {
    let mut p = no_probes();
    p.is_null = true;
    p.text_value = Some("shadowed".to_string());
    assert_eq!(format_cell(&p), "NULL");
}

#[test]
fn empty_string_falls_back_to_byte_text() {
    let mut p = no_probes();
    p.text_value = Some(String::new());
    p.bytes_value = Some(b"fallback text".to_vec());
    assert_eq!(format_cell(&p), "fallback text");
}

#[test]
fn invalid_bytes_become_binary_placeholder() {
    let mut p = no_probes();
    p.bytes_value = Some(vec![0xff, 0xfe, 0x00]);
    assert_eq!(format_cell(&p), "<binary>");
}

#[test]
fn empty_bytes_become_binary_placeholder() {
    let mut p = no_probes();
    p.text_value = Some(String::new());
    p.bytes_value = Some(Vec::new());
    assert_eq!(format_cell(&p), "<binary>");
}

#[test]
fn no_successful_probe_is_unsupported() {
    assert_eq!(format_cell(&no_probes()), "<unsupported>");
}

#[test]
fn date_time_wins_over_numbers() {
    let mut p = no_probes();
    p.datetime_text = Some("2024-01-02 03:04:05".to_string());
    p.i64_value = Some(20240102030405);
    assert_eq!(format_cell(&p), "2024-01-02 03:04:05");
}

#[test]
fn widest_signed_integer_wins_over_text() {
    let mut p = no_probes();
    p.i64_value = Some(-5);
    p.u64_value = Some(5);
    p.text_value = Some("five".to_string());
    assert_eq!(format_cell(&p), "-5");
}

#[test]
fn unsigned_and_boolean_and_json_probes_format() {
    let mut p = no_probes();
    p.u64_value = Some(18446744073709551615);
    assert_eq!(format_cell(&p), "18446744073709551615");

    let mut q = no_probes();
    q.bool_value = Some(true);
    assert_eq!(format_cell(&q), "true");
    q.bool_value = Some(false);
    assert_eq!(format_cell(&q), "false");

    let mut j = no_probes();
    j.json_text = Some("{\"a\":1}".to_string());
    assert_eq!(format_cell(&j), "{\"a\":1}");
}

#[test]
fn decimal_renderings_are_exact() {
    assert_eq!(u64_to_string(0), "0");
    assert_eq!(u64_to_string(1234), "1234");
    assert_eq!(i64_to_string(-42), "-42");
    assert_eq!(i64_to_string(-9223372036854775808), "-9223372036854775808");
    assert_eq!(i64_to_string(9223372036854775807), "9223372036854775807");
}

#[test]
fn substring_search_matches_spec() {
    assert!(str_contains("Access denied for user 'root'", "Access denied"));
    assert!(!str_contains("connection refused", "Access denied"));
    assert!(str_contains("abc", ""));
}

#[test]
fn access_denied_with_auth_code_classifies_as_auth_failure() {
    let r = classify_connect_failure(
        Some("28000".to_string()),
        Some("Access denied for user 'root'@'localhost'".to_string()),
        false,
        "debug text".to_string(),
    );
    assert_eq!(r, DBError::AuthFailedError);
}

#[test]
fn pool_timeout_classifies_as_connection_timeout() {
    let r = classify_connect_failure(None, None, true, "timed out".to_string());
    assert_eq!(r, DBError::ConnectionTimeout);
}

#[test]
fn other_failures_classify_as_connection_error_with_cause() {
    let r = classify_connect_failure(
        Some("08S01".to_string()),
        Some("Lost connection".to_string()),
        false,
        "io error: broken pipe".to_string(),
    );
    match r {
        DBError::ConnectionError(msg) => {
            assert!(!msg.is_empty());
            assert_eq!(msg, "io error: broken pipe");
        }
        other => panic!("unexpected classification: {:?}", other),
    }
}

#[test]
fn wrong_code_with_denied_message_is_not_auth_failure() {
    let r = classify_connect_failure(
        Some("42000".to_string()),
        Some("Access denied".to_string()),
        false,
        "cause".to_string(),
    );
    assert_eq!(r, DBError::ConnectionError("cause".to_string()));
}

#[test]
fn sqlx_pool_timeout_value_classifies_through_the_wrappers() {
    let r = classify_backend_error(&sqlx::Error::PoolTimedOut);
    assert_eq!(r, DBError::ConnectionTimeout);
}

#[test]
fn other_backend_errors_carry_a_non_empty_description() {
    let r = classify_backend_error(&sqlx::Error::WorkerCrashed);
    match r {
        DBError::ConnectionError(msg) => assert!(!msg.is_empty()),
        other => panic!("unexpected classification: {:?}", other),
    }
}

#[test]
fn float_texts_win_over_booleans_and_text() {
    let mut p = no_probes();
    p.f64_text = Some("1.5".to_string());
    p.bool_value = Some(true);
    p.text_value = Some("one point five".to_string());
    assert_eq!(format_cell(&p), "1.5");
    let mut q = no_probes();
    q.f32_text = Some("2.25".to_string());
    q.text_value = Some("two".to_string());
    assert_eq!(format_cell(&q), "2.25");
}

#[test]
fn error_messages_render_their_taxonomy() {
    assert_eq!(DBError::ConnectionTimeout.message(), "Database connection timeout");
    assert_eq!(DBError::AuthFailedError.message(), "Database auth failed");
    assert_eq!(
        DBError::QueryError("boom".to_string()).message(),
        "Database query error: boom"
    );
    assert_eq!(
        DBError::UnderlyingDriverError("io".to_string()).message(),
        "Underlying driver error: io"
    );
    match not_connected_error() {
        DBError::ConnectionError(msg) => assert_eq!(msg, "Not connected"),
        other => panic!("unexpected: {:?}", other),
    }
}

#[test]
fn page_assembly_keeps_rows_and_total() {
    let columns = vec!["id".to_string(), "name".to_string()];
    let full_page: Vec<Vec<String>> =
        (0..100).map(|i| vec![i.to_string(), format!("row{}", i)]).collect();
    let page = TableDataPage::from_parts(columns.clone(), full_page, 250);
    assert_eq!(page.rows.len(), 100);
    assert_eq!(page.total, 250);

    let tail_page: Vec<Vec<String>> =
        (200..250).map(|i| vec![i.to_string(), format!("row{}", i)]).collect();
    let page2 = TableDataPage::from_parts(columns, tail_page, 250);
    assert_eq!(page2.rows.len(), 50);
    assert_eq!(page2.total, 250);
}

#[test]
fn zero_column_table_short_circuits_to_the_empty_page() {
    let page = TableDataPage::empty();
    assert!(page.columns.is_empty());
    assert!(page.rows.is_empty());
    assert_eq!(page.total, 0);
}

#[test]
fn query_builders_render_exactly() {
    let cols = vec!["id".to_string(), "name".to_string()];
    assert_eq!(
        select_page_query(&cols, "shop", "orders", 100, 0),
        "SELECT `id`,`name` FROM `shop`.`orders` LIMIT 100 OFFSET 0"
    );
    assert_eq!(
        select_page_query(&cols, "shop", "orders", 100, 200),
        "SELECT `id`,`name` FROM `shop`.`orders` LIMIT 100 OFFSET 200"
    );
    assert_eq!(count_query("shop", "orders"), "SELECT COUNT(*) AS cnt FROM `shop`.`orders`");
    assert_eq!(show_databases_query(), "SHOW DATABASES");
    assert_eq!(show_tables_query("shop"), "SHOW FULL TABLES FROM `shop`");
}

#[test]
fn listing_text_decodes_defensively() {
    assert_eq!(text_or_lossy(Some("plain".to_string()), None), "plain");
    assert_eq!(text_or_lossy(None, Some(b"bytes".to_vec())), "bytes");
    let lossy = text_or_lossy(None, Some(vec![b'h', 0xff, b'i']));
    assert_eq!(lossy, "h\u{FFFD}i");
    assert_eq!(text_or_lossy(None, None), "");
}

#[test]
fn nullable_marker_is_exactly_yes() {
    assert!(nullable_from_marker(Some("YES".to_string())));
    assert!(!nullable_from_marker(Some("NO".to_string())));
    assert!(!nullable_from_marker(Some("yes".to_string())));
    assert!(!nullable_from_marker(None));
}

#[test]
fn totals_clamp_negative_counts() {
    assert_eq!(total_from_count(250), 250);
    assert_eq!(total_from_count(0), 0);
    assert_eq!(total_from_count(-1), 0);
}
