use vstd::prelude::*;
use vstd::string::*;
use crate::strutil::{chars_string, hex_digits, push_range, u128_hex_chars};

verus! {

/// Identity of a connection profile: the 128 bits of a version-4 UUID,
/// generated once at profile creation and immutable afterwards.
#[derive(Debug, Clone, Copy, PartialEq, Eq, Structural, Hash)]
pub struct ConnectionId(pub u128);

/// The canonical hyphenated lowercase rendering of a connection id, as the
/// uuid crate prints it: 8-4-4-4-12 hexadecimal digits.
pub open spec fn uuid_text(n: u128) -> Seq<char> {
    let h = hex_digits(n as nat, 32);
    h.subrange(0, 8) + seq!['-'] + h.subrange(8, 12) + seq!['-'] + h.subrange(12, 16)
        + seq!['-'] + h.subrange(16, 20) + seq!['-'] + h.subrange(20, 32)
}

impl ConnectionId {
    /// The canonical hyphenated rendering of this id.
    pub fn to_text(&self) -> (r: String)
        ensures
            r@ == uuid_text(self.0),
    {
        let h = u128_hex_chars(self.0, 32);
        let mut v: Vec<char> = Vec::new();
        push_range(&mut v, &h, 0, 8);
        v.push('-');
        push_range(&mut v, &h, 8, 12);
        v.push('-');
        push_range(&mut v, &h, 12, 16);
        v.push('-');
        push_range(&mut v, &h, 16, 20);
        v.push('-');
        push_range(&mut v, &h, 20, 32);
        proof {
            assert(v@ =~= uuid_text(self.0));
        }
        chars_string(&v)
    }
}

/// Relies on `uuid::Uuid::new_v4` / `Uuid::as_u128`: a freshly drawn random
/// identifier. The draw is random, so nothing is assumed of it beyond what
/// `new_v4` masks into every result: the version nibble is 4 and the
/// variant bits carry the RFC pattern.
#[verifier::external_body]
fn fresh_connection_id() -> (r: ConnectionId)
    ensures
        (r.0 >> 76) & 0xf == 4,
        (r.0 >> 62) & 0x3 == 2,
{
    ConnectionId(uuid::Uuid::new_v4().as_u128())
}

/// The closed set of database backends a profile can point at.
#[derive(Debug, Clone, Copy, PartialEq, Eq, Structural)]
pub enum DatabaseType {
    Postgre,
    MySql,
    Sqlite,
    MariaDB,
    Oracle,
    Redis,
    MongoDB,
    MicrosoftSQLServer,
}

pub open spec fn database_type_name(t: DatabaseType) -> Seq<char> {
    match t {
        DatabaseType::Postgre => "PostgreSQL"@,
        DatabaseType::MySql => "MySQL"@,
        DatabaseType::Sqlite => "SQLite"@,
        DatabaseType::MariaDB => "MariaDB"@,
        DatabaseType::Oracle => "Oracle"@,
        DatabaseType::Redis => "Redis"@,
        DatabaseType::MongoDB => "MongoDB"@,
        DatabaseType::MicrosoftSQLServer => "Microsoft SQL Server"@,
    }
}

impl DatabaseType {
    /// Every backend variant, in a fixed order usable for menus.
    pub fn all() -> (r: Vec<DatabaseType>)
        ensures
            r@ == seq![
                DatabaseType::Postgre,
                DatabaseType::MySql,
                DatabaseType::Sqlite,
                DatabaseType::MariaDB,
                DatabaseType::Oracle,
                DatabaseType::Redis,
                DatabaseType::MongoDB,
                DatabaseType::MicrosoftSQLServer,
            ],
    {
        let mut v: Vec<DatabaseType> = Vec::new();
        v.push(DatabaseType::Postgre);
        v.push(DatabaseType::MySql);
        v.push(DatabaseType::Sqlite);
        v.push(DatabaseType::MariaDB);
        v.push(DatabaseType::Oracle);
        v.push(DatabaseType::Redis);
        v.push(DatabaseType::MongoDB);
        v.push(DatabaseType::MicrosoftSQLServer);
        proof {
            assert(v@ =~= seq![
                DatabaseType::Postgre,
                DatabaseType::MySql,
                DatabaseType::Sqlite,
                DatabaseType::MariaDB,
                DatabaseType::Oracle,
                DatabaseType::Redis,
                DatabaseType::MongoDB,
                DatabaseType::MicrosoftSQLServer,
            ]);
        }
        v
    }

    /// The human-readable backend name shown in the UI.
    pub fn display_name(&self) -> (r: String)
        ensures
            r@ == database_type_name(*self),
    {
        match self {
            DatabaseType::Postgre => String::from_str("PostgreSQL"),
            DatabaseType::MySql => String::from_str("MySQL"),
            DatabaseType::Sqlite => String::from_str("SQLite"),
            DatabaseType::MariaDB => String::from_str("MariaDB"),
            DatabaseType::Oracle => String::from_str("Oracle"),
            DatabaseType::Redis => String::from_str("Redis"),
            DatabaseType::MongoDB => String::from_str("MongoDB"),
            DatabaseType::MicrosoftSQLServer => String::from_str("Microsoft SQL Server"),
        }
    }
}

/// How a server is reached: a TCP host/port pair, or a local filesystem path.
/// Never carries credentials.
#[derive(Debug)]
pub enum Endpoint {
    Tcp(String, String),
    Unix(String),
}

/// Mathematical model of an [`Endpoint`].
#[verifier::ext_equal]
pub ghost enum EndpointModel {
    Tcp(Seq<char>, Seq<char>),
    Unix(Seq<char>),
}

impl View for Endpoint {
    type V = EndpointModel;

    open spec fn view(&self) -> EndpointModel {
        match self {
            Endpoint::Tcp(host, port) => EndpointModel::Tcp(host@, port@),
            Endpoint::Unix(path) => EndpointModel::Unix(path@),
        }
    }
}

impl Clone for Endpoint {
    /// An exact copy of the endpoint.
    fn clone(&self) -> (r: Endpoint)
        ensures
            r@ == self@,
    {
        match self {
            Endpoint::Tcp(host, port) => Endpoint::Tcp(host.clone(), port.clone()),
            Endpoint::Unix(path) => Endpoint::Unix(path.clone()),
        }
    }
}

pub open spec fn endpoint_display(e: EndpointModel) -> Seq<char> {
    match e {
        EndpointModel::Tcp(host, port) => host + ":"@ + port,
        EndpointModel::Unix(path) => path,
    }
}

impl Endpoint {
    /// The endpoint as one display string: `host:port`, or the bare path.
    pub fn display_name(&self) -> (r: String)
        ensures
            r@ == endpoint_display(self@),
    {
        match self {
            Endpoint::Tcp(host, port) => {
                let mut s = host.clone();
                s.append(":");
                s.append(port.as_str());
                s
            },
            Endpoint::Unix(path) => path.clone(),
        }
    }
}

/// A named, addressable connection profile. `saved_password_len` is only a
/// hint that a secret of that byte length sits in the credential store under
/// `id`; the secret itself never enters this structure.
#[derive(Debug)]
pub struct ConnectionConfig {
    pub id: ConnectionId,
    pub name: String,
    pub db_type: DatabaseType,
    pub endpoint: Endpoint,
    pub remember_password: bool,
    pub username: String,
    pub saved_password_len: Option<u8>,
}

/// Mathematical model of a [`ConnectionConfig`].
#[verifier::ext_equal]
pub ghost struct ConnectionConfigModel {
    pub id: u128,
    pub name: Seq<char>,
    pub db_type: DatabaseType,
    pub endpoint: EndpointModel,
    pub remember_password: bool,
    pub username: Seq<char>,
    pub saved_password_len: Option<u8>,
}

impl View for ConnectionConfig {
    type V = ConnectionConfigModel;

    open spec fn view(&self) -> ConnectionConfigModel {
        ConnectionConfigModel {
            id: self.id.0,
            name: self.name@,
            db_type: self.db_type,
            endpoint: self.endpoint@,
            remember_password: self.remember_password,
            username: self.username@,
            saved_password_len: self.saved_password_len,
        }
    }
}

impl Clone for ConnectionConfig {
    /// An exact copy of the profile.
    fn clone(&self) -> (r: ConnectionConfig)
        ensures
            r@ == self@,
    {
        ConnectionConfig {
            id: self.id,
            name: self.name.clone(),
            db_type: self.db_type,
            endpoint: self.endpoint.clone(),
            remember_password: self.remember_password,
            username: self.username.clone(),
            saved_password_len: self.saved_password_len,
        }
    }
}

impl ConnectionConfig {
    /// Builds a profile with a freshly generated random id; every other field
    /// is taken verbatim from the arguments.
    pub fn new(
        name: &str,
        db_type: DatabaseType,
        endpoint: Endpoint,
        remember_password: bool,
        username: &str,
        saved_password_len: Option<u8>,
    ) -> (r: ConnectionConfig)
        ensures
            r@.name == name@,
            r@.db_type == db_type,
            r@.endpoint == endpoint@,
            r@.remember_password == remember_password,
            r@.username == username@,
            r@.saved_password_len == saved_password_len,
    {
        ConnectionConfig {
            id: fresh_connection_id(),
            name: name.to_owned(),
            db_type,
            endpoint,
            remember_password,
            username: username.to_owned(),
            saved_password_len,
        }
    }
}

} // verus!
