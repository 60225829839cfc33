//! Core connectivity and metadata layer for a desktop database browser.
//!
//! The crate manages persistent connection profiles, an active-connection
//! subset, live driver handles, and on-demand schema/table/data retrieval.
//! Secrets are kept in an OS credential store and never enter the persisted
//! configuration document.

pub mod database;
pub mod db_config;
pub mod db_manager;
pub mod driver;
pub mod events;
pub mod i18n;
pub mod icons;
pub mod json;
pub mod keystore;
pub mod model;
pub mod strutil;

pub use database::{ConnectionConfig, ConnectionId, DatabaseType, Endpoint};
pub use db_config::DBConfig;
pub use db_manager::DBManager;
pub use driver::DBError;
pub use i18n::{I18n, Language};
pub use icons::AppIconName;
pub use model::schema::DBSchema;
pub use model::table::{TableColumn, TableDataPage, TableInfo};
