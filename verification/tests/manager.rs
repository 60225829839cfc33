use db_sight_core::{
    ConnectionConfig, ConnectionId, DBManager, DatabaseType, Endpoint,
};

fn sample_config(id: u128, name: &str) -> ConnectionConfig {
    ConnectionConfig {
        id: ConnectionId(id),
        name: name.to_string(),
        db_type: DatabaseType::MySql,
        endpoint: Endpoint::Tcp("localhost".to_string(), "3306".to_string()),
        remember_password: true,
        username: "root".to_string(),
        saved_password_len: None,
    }
}

fn assert_config_eq(a: &ConnectionConfig, b: &ConnectionConfig) {
    assert_eq!(a.id, b.id);
    assert_eq!(a.name, b.name);
    assert_eq!(a.db_type, b.db_type);
    match (&a.endpoint, &b.endpoint) {
        (Endpoint::Tcp(h1, p1), Endpoint::Tcp(h2, p2)) => {
            assert_eq!(h1, h2);
            assert_eq!(p1, p2);
        }
        (Endpoint::Unix(x1), Endpoint::Unix(x2)) => assert_eq!(x1, x2),
        _ => panic!("endpoint variants differ"),
    }
    assert_eq!(a.remember_password, b.remember_password);
    assert_eq!(a.username, b.username);
    assert_eq!(a.saved_password_len, b.saved_password_len);
}

#[test]
fn save_then_get_returns_saved_config() {
    let mut mgr: DBManager<u32> = DBManager::new();
    let cfg = sample_config(7, "first");
    mgr.save_config(cfg.clone(), None).unwrap();
    let got = mgr.get_config_by_id(&ConnectionId(7)).unwrap();
    assert_config_eq(&got, &cfg);

    // Updating in place by id keeps a single entry with the new fields.
    let mut cfg2 = sample_config(7, "renamed");
    cfg2.username = "admin".to_string();
    mgr.save_config(cfg2.clone(), None).unwrap();
    assert_eq!(mgr.get_all_configs().len(), 1);
    let got2 = mgr.get_config_by_id(&ConnectionId(7)).unwrap();
    assert_config_eq(&got2, &cfg2);
}

#[test]
fn get_config_by_unknown_id_is_none() {
    let mgr: DBManager<u32> = DBManager::new();
    assert!(mgr.get_config_by_id(&ConnectionId(1)).is_none());
}

#[test]
fn add_active_connection_is_idempotent() {
    let mut mgr: DBManager<u32> = DBManager::new();
    mgr.add_active_connection(ConnectionId(1));
    mgr.add_active_connection(ConnectionId(2));
    mgr.add_active_connection(ConnectionId(1));
    let ids = mgr.get_active_config_ids();
    assert_eq!(ids, vec![ConnectionId(1), ConnectionId(2)]);
}

#[test]
fn remove_active_connection_is_tolerant() {
    let mut mgr: DBManager<u32> = DBManager::new();
    mgr.add_active_connection(ConnectionId(1));
    mgr.add_active_connection(ConnectionId(2));
    mgr.remove_active_connection(&ConnectionId(3));
    assert_eq!(mgr.get_active_config_ids().len(), 2);
    mgr.remove_active_connection(&ConnectionId(1));
    assert_eq!(mgr.get_active_config_ids(), vec![ConnectionId(2)]);
}

#[test]
fn active_configs_keep_order_and_drop_dangling_ids() {
    let mut mgr: DBManager<u32> = DBManager::new();
    mgr.save_config(sample_config(1, "one"), None).unwrap();
    mgr.save_config(sample_config(2, "two"), None).unwrap();
    mgr.save_config(sample_config(3, "three"), None).unwrap();
    mgr.add_active_connection(ConnectionId(3));
    mgr.add_active_connection(ConnectionId(99));
    mgr.add_active_connection(ConnectionId(1));
    let active = mgr.get_active_configs();
    assert!(active.len() <= mgr.get_active_config_ids().len());
    assert_eq!(active.len(), 2);
    assert_eq!(active[0].name, "three");
    assert_eq!(active[1].name, "one");
}

#[test]
fn driver_registry_inserts_and_replaces_by_key() {
    let mut mgr: DBManager<u32> = DBManager::new();
    assert!(mgr.get_connection("a").is_none());
    mgr.add_connection("a".to_string(), 10);
    mgr.add_connection("b".to_string(), 20);
    assert_eq!(*mgr.get_connection("a").unwrap(), 10);
    assert_eq!(*mgr.get_connection("b").unwrap(), 20);
    mgr.add_connection("a".to_string(), 30);
    assert_eq!(*mgr.get_connection("a").unwrap(), 30);
    assert_eq!(mgr.get_all_connections().len(), 2);
}

#[test]
fn save_and_activate_runs_both_steps() {
    let mut mgr: DBManager<u32> = DBManager::new();
    let cfg = sample_config(5, "combined");
    let returned = mgr.save_and_activate_connection(cfg.clone(), None).unwrap();
    assert_config_eq(&returned, &cfg);
    assert_eq!(mgr.get_active_config_ids(), vec![ConnectionId(5)]);
    assert_eq!(mgr.get_all_configs().len(), 1);
}

#[test]
fn save_and_activate_returns_the_stored_profile() {
    keyring_core::set_default_store(keyring_core::mock::Store::new().unwrap());
    let mut mgr: DBManager<u32> = DBManager::new();
    let cfg = sample_config(6, "with-secret");
    let returned = mgr
        .save_and_activate_connection(cfg.clone(), Some("pw12345".to_string()))
        .unwrap();
    // The returned profile is the one stored: the hint reflects the
    // supplied password's byte length.
    assert_eq!(returned.saved_password_len, Some(7));
    let stored = mgr.get_config_by_id(&cfg.id).unwrap();
    assert_config_eq(&returned, &stored);
    assert_eq!(mgr.get_active_config_ids(), vec![ConnectionId(6)]);
}

#[test]
fn load_config_without_file_resets_to_empty_document() {
    let mut mgr: DBManager<u32> = DBManager::new();
    mgr.save_config(sample_config(1, "one"), None).unwrap();
    mgr.load_config(None).unwrap();
    assert!(mgr.get_all_configs().is_empty());
    assert!(mgr.get_active_config_ids().is_empty());
}

#[test]
fn new_profile_gets_a_fresh_id_and_keeps_fields() {
    let a = ConnectionConfig::new(
        "label",
        DatabaseType::MariaDB,
        Endpoint::Unix("/tmp/db.sock".to_string()),
        false,
        "user",
        Some(3),
    );
    let b = ConnectionConfig::new(
        "label",
        DatabaseType::MariaDB,
        Endpoint::Unix("/tmp/db.sock".to_string()),
        false,
        "user",
        Some(3),
    );
    assert_eq!(a.name, "label");
    assert_eq!(a.username, "user");
    assert_eq!(a.saved_password_len, Some(3));
    assert_ne!(a.id, b.id);
}

#[test]
fn oversized_password_hint_wraps_by_byte_length() {
    keyring_core::set_default_store(keyring_core::mock::Store::new().unwrap());
    let mut mgr: DBManager<u32> = DBManager::new();
    let cfg = sample_config(42, "long-secret");
    let password = "x".repeat(300);
    mgr.save_config(cfg.clone(), Some(password)).unwrap();
    let got = mgr.get_config_by_id(&cfg.id).unwrap();
    assert_eq!(got.saved_password_len, Some((300 % 256) as u8));
}

#[test]
fn password_save_updates_store_hint_and_never_reaches_document() {
    keyring_core::set_default_store(keyring_core::mock::Store::new().unwrap());
    let mut mgr: DBManager<u32> = DBManager::new();
    let cfg = sample_config(0x123e4567e89b12d3a456426614174000, "secret-holder");
    let password = "s3cret-pw";
    mgr.save_config(cfg.clone(), Some(password.to_string())).unwrap();

    // The stored profile's hint reflects the password's byte length.
    let got = mgr.get_config_by_id(&cfg.id).unwrap();
    assert_eq!(got.saved_password_len, Some(password.len() as u8));

    // The credential store holds exactly that password under the id.
    let user = cfg.id.to_text();
    let entry = keyring_core::Entry::new("db-sight", &user).unwrap();
    assert_eq!(entry.get_password().unwrap(), password);

    // The persisted document carries the hint, never the plaintext.
    let json = mgr.config_json();
    assert!(!json.contains(password));
    assert!(json.contains("\"saved_password_len\": 9"));
}
