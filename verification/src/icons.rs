//! Icon naming: which asset each backend and UI element is drawn with.

use vstd::prelude::*;
use crate::database::DatabaseType;

verus! {

/// The closed set of icon assets the application ships.
#[derive(Debug, Clone, Copy, PartialEq, Eq, Structural)]
pub enum AppIconName {
    IconDatabase,
    IconLight,
    IconDark,
    IconChevronsUpDown,
    IconConnection,
    DBMySql,
    DBPostgre,
    DBMariaDB,
    DBRedis,
    DBSqlite,
    DBOracle,
    DBMongoDB,
    DBMicrosoftSQLServer,
}

/// The asset path each icon is loaded from.
pub open spec fn icon_path(i: AppIconName) -> Seq<char> {
    match i {
        AppIconName::IconDatabase => "icons/icon-database.svg"@,
        AppIconName::IconLight => "icons/icon-sun.svg"@,
        AppIconName::IconDark => "icons/icon-moon.svg"@,
        AppIconName::IconChevronsUpDown => "icons/icon-chevrons-up-down.svg"@,
        AppIconName::IconConnection => "icons/icon-connection.svg"@,
        AppIconName::DBMySql => "icons/db-mysql.svg"@,
        AppIconName::DBPostgre => "icons/db-postgre.svg"@,
        AppIconName::DBMariaDB => "icons/db-mariadb.svg"@,
        AppIconName::DBRedis => "icons/db-redis.svg"@,
        AppIconName::DBSqlite => "icons/db-sqlite.svg"@,
        AppIconName::DBOracle => "icons/db-oracle.svg"@,
        AppIconName::DBMongoDB => "icons/db-mongodb.svg"@,
        AppIconName::DBMicrosoftSQLServer => "icons/db-microsoft-sql-server.svg"@,
    }
}

impl AppIconName {
    /// The asset path of this icon.
    pub fn path(&self) -> (r: &'static str)
        ensures
            r@ == icon_path(*self),
    {
        match self {
            AppIconName::IconDatabase => "icons/icon-database.svg",
            AppIconName::IconLight => "icons/icon-sun.svg",
            AppIconName::IconDark => "icons/icon-moon.svg",
            AppIconName::IconChevronsUpDown => "icons/icon-chevrons-up-down.svg",
            AppIconName::IconConnection => "icons/icon-connection.svg",
            AppIconName::DBMySql => "icons/db-mysql.svg",
            AppIconName::DBPostgre => "icons/db-postgre.svg",
            AppIconName::DBMariaDB => "icons/db-mariadb.svg",
            AppIconName::DBRedis => "icons/db-redis.svg",
            AppIconName::DBSqlite => "icons/db-sqlite.svg",
            AppIconName::DBOracle => "icons/db-oracle.svg",
            AppIconName::DBMongoDB => "icons/db-mongodb.svg",
            AppIconName::DBMicrosoftSQLServer => "icons/db-microsoft-sql-server.svg",
        }
    }
}

/// Which icon stands for each backend.
pub open spec fn database_type_icon(t: DatabaseType) -> AppIconName {
    match t {
        DatabaseType::Postgre => AppIconName::DBPostgre,
        DatabaseType::MySql => AppIconName::DBMySql,
        DatabaseType::Sqlite => AppIconName::DBSqlite,
        DatabaseType::MariaDB => AppIconName::DBMariaDB,
        DatabaseType::Oracle => AppIconName::DBOracle,
        DatabaseType::Redis => AppIconName::DBRedis,
        DatabaseType::MongoDB => AppIconName::DBMongoDB,
        DatabaseType::MicrosoftSQLServer => AppIconName::DBMicrosoftSQLServer,
    }
}

impl DatabaseType {
    /// The icon this backend is shown with.
    pub fn to_icon(&self) -> (r: AppIconName)
        ensures
            r == database_type_icon(*self),
    {
        match self {
            DatabaseType::Postgre => AppIconName::DBPostgre,
            DatabaseType::MySql => AppIconName::DBMySql,
            DatabaseType::Sqlite => AppIconName::DBSqlite,
            DatabaseType::MariaDB => AppIconName::DBMariaDB,
            DatabaseType::Oracle => AppIconName::DBOracle,
            DatabaseType::Redis => AppIconName::DBRedis,
            DatabaseType::MongoDB => AppIconName::DBMongoDB,
            DatabaseType::MicrosoftSQLServer => AppIconName::DBMicrosoftSQLServer,
        }
    }
}

} // verus!
