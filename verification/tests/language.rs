use db_sight_core::{AppIconName, DatabaseType, Endpoint, I18n, Language};

#[test]
fn language_codes_and_locale_matching() {
    assert_eq!(Language::En.code(), "en");
    assert_eq!(Language::ZhCN.code(), "zh-cn");
    assert_eq!(Language::from("zh-CN"), Language::ZhCN);
    assert_eq!(Language::from("zh-cn-x-private"), Language::ZhCN);
    assert_eq!(Language::from("en-US"), Language::En);
    assert_eq!(Language::from("fr"), Language::En);
    assert_eq!(Language::from(""), Language::En);
}

#[test]
fn i18n_lookup_and_fallback() {
    let mut i18n = I18n::with_lang(Language::En);
    assert_eq!(i18n.lang(), Language::En);
    assert_eq!(i18n.t("missing.key"), "");
    i18n.set_entries(vec![
        ("greeting".to_string(), "Hello, {{name}}!".to_string()),
        ("plain".to_string(), "No params".to_string()),
    ]);
    assert_eq!(i18n.t("plain"), "No params");
    assert_eq!(i18n.t("greeting"), "Hello, {{name}}!");
    assert_eq!(i18n.t("missing.key"), "");
}

#[test]
fn i18n_substitutes_parameters_in_order() {
    let mut i18n = I18n::with_lang(Language::En);
    i18n.set_entries(vec![(
        "msg".to_string(),
        "{{a}} and {{b}} and {{a}}".to_string(),
    )]);
    let out = i18n.t_with("msg", &[("a", "1"), ("b", "2")]);
    assert_eq!(out, "1 and 2 and 1");
    let missing = i18n.t_with("absent", &[("a", "1")]);
    assert_eq!(missing, "");
}

#[test]
fn set_lang_drops_stale_entries() {
    let mut i18n = I18n::with_lang(Language::En);
    i18n.set_entries(vec![("k".to_string(), "v".to_string())]);
    assert_eq!(i18n.t("k"), "v");
    i18n.set_lang(Language::ZhCN);
    assert_eq!(i18n.lang(), Language::ZhCN);
    assert_eq!(i18n.t("k"), "");
}

#[test]
fn backend_names_and_variants() {
    assert_eq!(DatabaseType::MySql.display_name(), "MySQL");
    assert_eq!(DatabaseType::Postgre.display_name(), "PostgreSQL");
    assert_eq!(
        DatabaseType::MicrosoftSQLServer.display_name(),
        "Microsoft SQL Server"
    );
    let all = DatabaseType::all();
    assert_eq!(all.len(), 8);
    assert_eq!(all[0], DatabaseType::Postgre);
    assert_eq!(all[7], DatabaseType::MicrosoftSQLServer);
}

#[test]
fn endpoints_display_as_address_or_path() {
    let tcp = Endpoint::Tcp("db.local".to_string(), "3306".to_string());
    assert_eq!(tcp.display_name(), "db.local:3306");
    let unix = Endpoint::Unix("/var/run/mysqld.sock".to_string());
    assert_eq!(unix.display_name(), "/var/run/mysqld.sock");
}

#[test]
fn backend_icons_map_and_have_paths() {
    assert_eq!(DatabaseType::MySql.to_icon(), AppIconName::DBMySql);
    assert_eq!(DatabaseType::Redis.to_icon(), AppIconName::DBRedis);
    assert_eq!(AppIconName::DBMySql.path(), "icons/db-mysql.svg");
    assert_eq!(AppIconName::IconDatabase.path(), "icons/icon-database.svg");
}
