use db_sight_core::{
    ConnectionConfig, ConnectionId, DBConfig, DatabaseType, Endpoint,
};

fn doc_with_two_profiles() -> DBConfig {
    DBConfig {
        version: "1.0".to_string(),
        connections: vec![
            ConnectionConfig {
                id: ConnectionId(0x123e4567e89b12d3a456426614174000),
                name: "prod \"main\"\nbox".to_string(),
                db_type: DatabaseType::MySql,
                endpoint: Endpoint::Tcp("db.example.com".to_string(), "3306".to_string()),
                remember_password: true,
                username: "root".to_string(),
                saved_password_len: Some(12),
            },
            ConnectionConfig {
                id: ConnectionId(0xffeeddccbbaa99887766554433221100),
                name: "local\\sock".to_string(),
                db_type: DatabaseType::MariaDB,
                endpoint: Endpoint::Unix("/var/run/mysqld.sock".to_string()),
                remember_password: false,
                username: "tab\there".to_string(),
                saved_password_len: None,
            },
        ],
        active_connection_ids: vec![
            ConnectionId(0xffeeddccbbaa99887766554433221100),
            ConnectionId(0x123e4567e89b12d3a456426614174000),
        ],
    }
}

fn assert_config_eq(a: &ConnectionConfig, b: &ConnectionConfig) {
    assert_eq!(a.id, b.id);
    assert_eq!(a.name, b.name);
    assert_eq!(a.db_type, b.db_type);
    match (&a.endpoint, &b.endpoint) {
        (Endpoint::Tcp(h1, p1), Endpoint::Tcp(h2, p2)) => {
            assert_eq!(h1, h2);
            assert_eq!(p1, p2);
        }
        (Endpoint::Unix(x1), Endpoint::Unix(x2)) => assert_eq!(x1, x2),
        _ => panic!("endpoint variants differ"),
    }
    assert_eq!(a.remember_password, b.remember_password);
    assert_eq!(a.username, b.username);
    assert_eq!(a.saved_password_len, b.saved_password_len);
}

#[test]
fn document_round_trip_is_field_for_field_equal() {
    let doc = doc_with_two_profiles();
    let json = doc.to_json_string();
    let back = DBConfig::from_json_string(&json).unwrap();
    assert_eq!(back.version, doc.version);
    assert_eq!(back.connections.len(), doc.connections.len());
    for (a, b) in back.connections.iter().zip(doc.connections.iter()) {
        assert_config_eq(a, b);
    }
    assert_eq!(back.active_connection_ids, doc.active_connection_ids);

    // The accepted document renders back to the very text it was read from.
    assert_eq!(back.to_json_string(), json);
}

#[test]
fn empty_document_renders_exactly() {
    let doc = DBConfig::new();
    let json = doc.to_json_string();
    assert_eq!(
        json,
        "{\n  \"version\": \"1.0\",\n  \"connections\": [],\n  \"active_connection_ids\": []\n}"
    );
    let back = DBConfig::from_json_string(&json).unwrap();
    assert_eq!(back.version, "1.0");
    assert!(back.connections.is_empty());
    assert!(back.active_connection_ids.is_empty());
}

#[test]
fn malformed_documents_surface_as_errors() {
    assert!(DBConfig::from_json_string("").is_err());
    assert!(DBConfig::from_json_string("{}").is_err());
    assert!(DBConfig::from_json_string("not json at all").is_err());
    let mut json = DBConfig::new().to_json_string();
    json.push_str("trailing");
    assert!(DBConfig::from_json_string(&json).is_err());
}

#[test]
fn connection_id_renders_as_hyphenated_lowercase_hex() {
    let id = ConnectionId(0x123e4567e89b12d3a456426614174000);
    assert_eq!(id.to_text(), "123e4567-e89b-12d3-a456-426614174000");
    assert_eq!(ConnectionId(0).to_text(), "00000000-0000-0000-0000-000000000000");
}

#[test]
fn extreme_hint_values_round_trip() {
    let mut doc = doc_with_two_profiles();
    doc.connections[0].saved_password_len = Some(255);
    doc.connections[1].saved_password_len = Some(0);
    let back = DBConfig::from_json_string(&doc.to_json_string()).unwrap();
    assert_eq!(back.connections[0].saved_password_len, Some(255));
    assert_eq!(back.connections[1].saved_password_len, Some(0));
}

#[test]
fn carriage_return_and_quote_heavy_names_round_trip() {
    let mut doc = doc_with_two_profiles();
    doc.connections[0].name = "a\rb\"c\\d\te\nf".to_string();
    let back = DBConfig::from_json_string(&doc.to_json_string()).unwrap();
    assert_eq!(back.connections[0].name, "a\rb\"c\\d\te\nf");
}

#[test]
fn non_canonical_documents_are_rejected() {
    let doc = doc_with_two_profiles();
    let json = doc.to_json_string();
    // Uppercase hex in an id is not the canonical form.
    let upper = json.replacen("123e4567", "123E4567", 1);
    assert!(DBConfig::from_json_string(&upper).is_err());
    // Collapsed whitespace is not the canonical form either.
    let collapsed = json.replace("\n  ", " ");
    assert!(DBConfig::from_json_string(&collapsed).is_err());
}

#[test]
fn rendered_strings_are_escaped() {
    let doc = doc_with_two_profiles();
    let json = doc.to_json_string();
    assert!(json.contains("prod \\\"main\\\"\\nbox"));
    assert!(json.contains("local\\\\sock"));
    assert!(json.contains("tab\\there"));
}
