//! MySQL driver support: the pooled-driver state, backend-error description,
//! introspection-query builders, row conversion and the value-decoding
//! cascade. The asynchronous statement execution itself happens outside the
//! library; everything that decides or computes on its results lives here.

use vstd::prelude::*;
use vstd::string::*;
use sqlx::Row;
use sqlx::ValueRef;
use crate::driver::{classify_connect_failure, opt_string_view, DBError};
use crate::model::schema::DBSchema;
use crate::model::table::{TableColumn, TableInfo};
use crate::strutil::{
    dec_digits, i64_to_string, int_dec_digits, push_str_chars, u64_dec_chars, u64_to_string,
    chars_string, push_range,
};

verus! {

#[verifier::external_type_specification]
#[verifier::external_body]
pub struct ExSqlxError(sqlx::Error);

#[verifier::external_type_specification]
#[verifier::external_body]
pub struct ExMySqlRow(sqlx::mysql::MySqlRow);

#[verifier::external_type_specification]
#[verifier::external_body]
pub struct ExMySqlValueRef<'r>(sqlx::mysql::MySqlValueRef<'r>);

/// Relies on `sqlx::error::DatabaseError::code`: the backend-specific error
/// code of a database-reported failure, when the failure is one.
#[verifier::external_body]
fn backend_error_code(e: &sqlx::Error) -> (r: Option<String>) {
    match e {
        sqlx::Error::Database(db) => match db.code() {
            Some(c) => Some(c.into_owned()),
            None => None,
        },
        _ => None,
    }
}

/// Relies on `sqlx::error::DatabaseError::message`: the backend-reported
/// message of a database-reported failure, when the failure is one.
#[verifier::external_body]
fn backend_error_message(e: &sqlx::Error) -> (r: Option<String>) {
    match e {
        sqlx::Error::Database(db) => Some(db.message().to_string()),
        _ => None,
    }
}

/// Relies on `sqlx::Error::PoolTimedOut`: whether the failure was the pool's
/// acquire timeout elapsing.
#[verifier::external_body]
fn backend_error_is_pool_timeout(e: &sqlx::Error) -> (r: bool) {
    match e {
        sqlx::Error::PoolTimedOut => true,
        _ => false,
    }
}

/// Relies on `sqlx::Error`'s `Debug` rendering: the formatted underlying
/// cause, for generic connection errors. The rendering always prints at
/// least the variant's name, so it is never empty.
#[verifier::external_body]
fn backend_error_text(e: &sqlx::Error) -> (r: String)
    ensures
        r@.len() > 0,
{
    format!("{:?}", e)
}

/// Classifies a low-level connection failure into the three-way taxonomy:
/// whatever the backend reported, the result is an authentication failure,
/// a connection timeout, or a generic connection error.
pub fn classify_backend_error(e: &sqlx::Error) -> (r: DBError)
    ensures
        r is AuthFailedError || r is ConnectionTimeout || r is ConnectionError,
        r is ConnectionError ==> r->ConnectionError_0@.len() > 0,
{
    let code = backend_error_code(e);
    let message = backend_error_message(e);
    let pool_timeout = backend_error_is_pool_timeout(e);
    let description = backend_error_text(e);
    classify_connect_failure(code, message, pool_timeout, description)
}

/// The error returned when an operation needs a pool but `connect` has not
/// succeeded yet.
pub fn not_connected_error() -> (r: DBError)
    ensures
        r is ConnectionError && r->ConnectionError_0@ == "Not connected"@,
{
    DBError::ConnectionError(String::from_str("Not connected"))
}

/// What decoding one wire value under a fixed set of typed probes returned.
/// Date/time, floating-point and JSON probes carry their result already
/// formatted as text; the numeric and boolean probes carry the typed value.
pub struct CellProbes {
    pub is_null: bool,
    pub datetime_text: Option<String>,
    pub date_text: Option<String>,
    pub time_text: Option<String>,
    pub i64_value: Option<i64>,
    pub i32_value: Option<i32>,
    pub u64_value: Option<u64>,
    pub u32_value: Option<u32>,
    pub f64_text: Option<String>,
    pub f32_text: Option<String>,
    pub bool_value: Option<bool>,
    pub json_text: Option<String>,
    pub text_value: Option<String>,
    pub bytes_value: Option<Vec<u8>>,
}

/// Mathematical model of [`CellProbes`].
pub ghost struct CellProbesModel {
    pub is_null: bool,
    pub datetime_text: Option<Seq<char>>,
    pub date_text: Option<Seq<char>>,
    pub time_text: Option<Seq<char>>,
    pub i64_value: Option<i64>,
    pub i32_value: Option<i32>,
    pub u64_value: Option<u64>,
    pub u32_value: Option<u32>,
    pub f64_text: Option<Seq<char>>,
    pub f32_text: Option<Seq<char>>,
    pub bool_value: Option<bool>,
    pub json_text: Option<Seq<char>>,
    pub text_value: Option<Seq<char>>,
    pub bytes_value: Option<Seq<u8>>,
}

impl View for CellProbes {
    type V = CellProbesModel;

    open spec fn view(&self) -> CellProbesModel {
        CellProbesModel {
            is_null: self.is_null,
            datetime_text: opt_string_view(self.datetime_text),
            date_text: opt_string_view(self.date_text),
            time_text: opt_string_view(self.time_text),
            i64_value: self.i64_value,
            i32_value: self.i32_value,
            u64_value: self.u64_value,
            u32_value: self.u32_value,
            f64_text: opt_string_view(self.f64_text),
            f32_text: opt_string_view(self.f32_text),
            bool_value: self.bool_value,
            json_text: opt_string_view(self.json_text),
            text_value: opt_string_view(self.text_value),
            bytes_value: match self.bytes_value {
                Some(b) => Some(b@),
                None => None,
            },
        }
    }
}

/// What `str::from_utf8` decodes a byte sequence to: the characters when
/// the bytes are valid UTF-8, `None` otherwise.
pub uninterp spec fn utf8_decoded(b: Seq<u8>) -> Option<Seq<char>>;

/// Relies on `str::from_utf8`: `Some` exactly on valid UTF-8, holding the
/// decoded characters, whose UTF-8 encoding is the input itself.
#[verifier::external_body]
fn try_utf8(bytes: &Vec<u8>) -> (r: Option<String>)
    ensures
        match r {
            Some(s) => utf8_decoded(bytes@) == Some(s@) && vstd::utf8::encode_utf8(s@)
                == bytes@,
            None => utf8_decoded(bytes@) is None,
        },
{
    match std::str::from_utf8(bytes.as_slice()) {
        Ok(s) => Some(s.to_string()),
        Err(_) => None,
    }
}

/// What `String::from_utf8_lossy` turns a byte sequence into: the decoded
/// characters, with invalid runs replaced. Empty bytes give the empty text.
pub uninterp spec fn lossy_text(b: Seq<u8>) -> Seq<char>;

/// Relies on `String::from_utf8_lossy`: a best-effort decoding that never
/// fails; of an empty input it is the empty string.
#[verifier::external_body]
fn utf8_lossy(bytes: &Vec<u8>) -> (r: String)
    ensures
        r@ == lossy_text(bytes@),
        bytes@.len() == 0 ==> r@.len() == 0,
{
    String::from_utf8_lossy(bytes.as_slice()).into_owned()
}

/// The display text of one cell, given what the probes returned, in the
/// fixed priority order of the decoding cascade: NULL first; then date-time,
/// date, time; then the widest signed integer down to the narrower and
/// unsigned forms; then floating point; boolean; JSON; a non-empty string;
/// then raw bytes, shown as text when they are non-empty valid UTF-8 and as
/// a `<binary>` placeholder otherwise; and `<unsupported>` when every probe
/// failed. The order is a documented contract: numeric forms come before
/// text so that an ambiguous empty string never wins, and date/time forms
/// come before numerics because some backends report them compatibly with
/// integers.
pub open spec fn cell_display(p: CellProbesModel) -> Seq<char> {
    if p.is_null {
        "NULL"@
    } else if p.datetime_text is Some {
        p.datetime_text.unwrap()
    } else if p.date_text is Some {
        p.date_text.unwrap()
    } else if p.time_text is Some {
        p.time_text.unwrap()
    } else if p.i64_value is Some {
        int_dec_digits(p.i64_value.unwrap() as int)
    } else if p.i32_value is Some {
        int_dec_digits(p.i32_value.unwrap() as int)
    } else if p.u64_value is Some {
        dec_digits(p.u64_value.unwrap() as nat)
    } else if p.u32_value is Some {
        dec_digits(p.u32_value.unwrap() as nat)
    } else if p.f64_text is Some {
        p.f64_text.unwrap()
    } else if p.f32_text is Some {
        p.f32_text.unwrap()
    } else if p.bool_value is Some {
        if p.bool_value.unwrap() {
            "true"@
        } else {
            "false"@
        }
    } else if p.json_text is Some {
        p.json_text.unwrap()
    } else if p.text_value is Some && p.text_value.unwrap().len() > 0 {
        p.text_value.unwrap()
    } else if p.bytes_value is Some {
        match utf8_decoded(p.bytes_value.unwrap()) {
            Some(t) => if t.len() > 0 {
                t
            } else {
                "<binary>"@
            },
            None => "<binary>"@,
        }
    } else {
        "<unsupported>"@
    }
}

/// Runs the decoding cascade over one cell's probe results and returns the
/// display text, exactly as [`cell_display`] states it.
pub fn format_cell(p: &CellProbes) -> (r: String)
    ensures
        r@ == cell_display(p@),
{
    if p.is_null {
        String::from_str("NULL")
    } else if let Some(s) = &p.datetime_text {
        s.clone()
    } else if let Some(s) = &p.date_text {
        s.clone()
    } else if let Some(s) = &p.time_text {
        s.clone()
    } else if let Some(n) = &p.i64_value {
        i64_to_string(*n)
    } else if let Some(n) = &p.i32_value {
        i64_to_string(*n as i64)
    } else if let Some(n) = &p.u64_value {
        u64_to_string(*n)
    } else if let Some(n) = &p.u32_value {
        u64_to_string(*n as u64)
    } else if let Some(s) = &p.f64_text {
        s.clone()
    } else if let Some(s) = &p.f32_text {
        s.clone()
    } else if let Some(b) = &p.bool_value {
        if *b {
            String::from_str("true")
        } else {
            String::from_str("false")
        }
    } else if let Some(s) = &p.json_text {
        s.clone()
    } else {
        let non_empty_text = match &p.text_value {
            Some(s) => !s.as_str().is_empty(),
            None => false,
        };
        if non_empty_text {
            match &p.text_value {
                Some(s) => s.clone(),
                None => String::from_str("<unsupported>"),
            }
        } else if let Some(b) = &p.bytes_value {
            match try_utf8(b) {
                Some(t) => {
                    if !t.as_str().is_empty() {
                        t
                    } else {
                        String::from_str("<binary>")
                    }
                },
                None => String::from_str("<binary>"),
            }
        } else {
            String::from_str("<unsupported>")
        }
    }
}

/// The cascade never yields the empty string: every branch produces at
/// least one character, provided the preformatted probe texts are
/// themselves non-empty (as the probe contracts guarantee).
pub proof fn lemma_cell_display_nonempty(p: CellProbesModel)
    requires
        p.datetime_text matches Some(t) ==> t.len() > 0,
        p.date_text matches Some(t) ==> t.len() > 0,
        p.time_text matches Some(t) ==> t.len() > 0,
        p.f64_text matches Some(t) ==> t.len() > 0,
        p.f32_text matches Some(t) ==> t.len() > 0,
        p.json_text matches Some(t) ==> t.len() > 0,
    ensures
        cell_display(p).len() > 0,
{
    reveal_strlit("NULL");
    reveal_strlit("true");
    reveal_strlit("false");
    reveal_strlit("<binary>");
    reveal_strlit("<unsupported>");
    if p.i64_value is Some {
        let n = p.i64_value.unwrap() as int;
        if n >= 0 {
            assert(dec_digits(n as nat).len() > 0);
        }
        assert(int_dec_digits(n).len() > 0);
    }
    if p.i32_value is Some {
        let n = p.i32_value.unwrap() as int;
        if n >= 0 {
            assert(dec_digits(n as nat).len() > 0);
        }
        assert(int_dec_digits(n).len() > 0);
    }
    if p.u64_value is Some {
        assert(dec_digits(p.u64_value.unwrap() as nat).len() > 0);
    }
    if p.u32_value is Some {
        assert(dec_digits(p.u32_value.unwrap() as nat).len() > 0);
    }
}

/// Relies on `sqlx::ValueRef::is_null`: whether the wire value is the NULL
/// marker.
#[verifier::external_body]
fn probe_is_null(v: &sqlx::mysql::MySqlValueRef<'_>) -> (r: bool) {
    v.is_null()
}

/// Relies on `chrono::NaiveDateTime as sqlx::Decode` and `NaiveDateTime::format`:
/// the value as "YYYY-MM-DD HH:MM:SS" when it decodes as a date-time; that
/// fixed format never renders empty.
#[verifier::external_body]
fn probe_datetime(v: &sqlx::mysql::MySqlValueRef<'_>) -> (r: Option<String>)
    ensures
        r matches Some(s) ==> s@.len() > 0,
{
    match <sqlx::types::chrono::NaiveDateTime as sqlx::Decode<sqlx::MySql>>::decode(v.clone()) {
        Ok(dt) => Some(format!("{}", dt.format("%Y-%m-%d %H:%M:%S"))),
        Err(_) => None,
    }
}

/// Relies on `chrono::NaiveDate as sqlx::Decode` and `NaiveDate::format`:
/// the value as "YYYY-MM-DD" when it decodes as a date; that fixed format
/// never renders empty.
#[verifier::external_body]
fn probe_date(v: &sqlx::mysql::MySqlValueRef<'_>) -> (r: Option<String>)
    ensures
        r matches Some(s) ==> s@.len() > 0,
{
    match <sqlx::types::chrono::NaiveDate as sqlx::Decode<sqlx::MySql>>::decode(v.clone()) {
        Ok(d) => Some(format!("{}", d.format("%Y-%m-%d"))),
        Err(_) => None,
    }
}

/// Relies on `chrono::NaiveTime as sqlx::Decode` and `NaiveTime::format`:
/// the value as "HH:MM:SS" when it decodes as a time; that fixed format
/// never renders empty.
#[verifier::external_body]
fn probe_time(v: &sqlx::mysql::MySqlValueRef<'_>) -> (r: Option<String>)
    ensures
        r matches Some(s) ==> s@.len() > 0,
{
    match <sqlx::types::chrono::NaiveTime as sqlx::Decode<sqlx::MySql>>::decode(v.clone()) {
        Ok(t) => Some(format!("{}", t.format("%H:%M:%S"))),
        Err(_) => None,
    }
}

/// Relies on `i64 as sqlx::Decode`: the value as a signed 64-bit integer,
/// when it decodes as one.
#[verifier::external_body]
fn probe_i64(v: &sqlx::mysql::MySqlValueRef<'_>) -> (r: Option<i64>) {
    <i64 as sqlx::Decode<sqlx::MySql>>::decode(v.clone()).ok()
}

/// Relies on `i32 as sqlx::Decode`: the value as a signed 32-bit integer,
/// when it decodes as one.
#[verifier::external_body]
fn probe_i32(v: &sqlx::mysql::MySqlValueRef<'_>) -> (r: Option<i32>) {
    <i32 as sqlx::Decode<sqlx::MySql>>::decode(v.clone()).ok()
}

/// Relies on `u64 as sqlx::Decode`: the value as an unsigned 64-bit
/// integer, when it decodes as one.
#[verifier::external_body]
fn probe_u64(v: &sqlx::mysql::MySqlValueRef<'_>) -> (r: Option<u64>) {
    <u64 as sqlx::Decode<sqlx::MySql>>::decode(v.clone()).ok()
}

/// Relies on `u32 as sqlx::Decode`: the value as an unsigned 32-bit
/// integer, when it decodes as one.
#[verifier::external_body]
fn probe_u32(v: &sqlx::mysql::MySqlValueRef<'_>) -> (r: Option<u32>) {
    <u32 as sqlx::Decode<sqlx::MySql>>::decode(v.clone()).ok()
}

/// Relies on `bool as sqlx::Decode`: the value as a boolean, when it
/// decodes as one.
#[verifier::external_body]
fn probe_bool(v: &sqlx::mysql::MySqlValueRef<'_>) -> (r: Option<bool>) {
    <bool as sqlx::Decode<sqlx::MySql>>::decode(v.clone()).ok()
}

/// Relies on `sqlx::types::JsonValue as sqlx::Decode` and its `Display`:
/// the value's JSON serialization, when it decodes as JSON; a JSON text is
/// never empty.
#[verifier::external_body]
fn probe_json(v: &sqlx::mysql::MySqlValueRef<'_>) -> (r: Option<String>)
    ensures
        r matches Some(s) ==> s@.len() > 0,
{
    match <sqlx::types::JsonValue as sqlx::Decode<sqlx::MySql>>::decode(v.clone()) {
        Ok(j) => Some(format!("{}", j)),
        Err(_) => None,
    }
}

/// Relies on `String as sqlx::Decode`: the value as UTF-8 text, when it
/// decodes as text.
#[verifier::external_body]
fn probe_text(v: &sqlx::mysql::MySqlValueRef<'_>) -> (r: Option<String>) {
    <String as sqlx::Decode<sqlx::MySql>>::decode(v.clone()).ok()
}

/// Relies on `Vec<u8> as sqlx::Decode`: the value's raw bytes, when it
/// decodes as bytes.
#[verifier::external_body]
fn probe_bytes(v: &sqlx::mysql::MySqlValueRef<'_>) -> (r: Option<Vec<u8>>) {
    <Vec<u8> as sqlx::Decode<sqlx::MySql>>::decode(v.clone()).ok()
}

/// An optional probe text with the ambiguous empty text treated as a
/// failed probe.
pub open spec fn nonempty_text_view(o: Option<Seq<char>>) -> Option<Seq<char>> {
    match o {
        Some(t) => if t.len() > 0 {
            Some(t)
        } else {
            None
        },
        None => None,
    }
}

/// Drops an empty probe text, so an empty rendering counts as a failed
/// probe rather than as an empty cell.
fn non_empty_probe(o: Option<String>) -> (r: Option<String>)
    ensures
        opt_string_view(r) == nonempty_text_view(opt_string_view(o)),
        r matches Some(s) ==> s@.len() > 0,
{
    match o {
        Some(s) => {
            if s.as_str().is_empty() {
                None
            } else {
                Some(s)
            }
        },
        None => None,
    }
}

/// Probes one wire value under every typed decode this library can hold and
/// runs the cascade over the results. The floating-point probes cannot live
/// here, so their preformatted texts are taken as arguments; pass what the
/// `f64` and `f32` decodes of the same value returned. An empty float text
/// counts as a failed probe, so the cell's display text is never empty.
pub fn format_mysql_value(
    v: &sqlx::mysql::MySqlValueRef<'_>,
    f64_text: Option<String>,
    f32_text: Option<String>,
) -> (r: String)
    ensures
        exists|p: CellProbesModel|
            #[trigger] cell_display(p) == r@ && p.f64_text == nonempty_text_view(
                opt_string_view(f64_text),
            ) && p.f32_text == nonempty_text_view(opt_string_view(f32_text)),
        r@.len() > 0,
{
    let probes = CellProbes {
        is_null: probe_is_null(v),
        datetime_text: probe_datetime(v),
        date_text: probe_date(v),
        time_text: probe_time(v),
        i64_value: probe_i64(v),
        i32_value: probe_i32(v),
        u64_value: probe_u64(v),
        u32_value: probe_u32(v),
        f64_text: non_empty_probe(f64_text),
        f32_text: non_empty_probe(f32_text),
        bool_value: probe_bool(v),
        json_text: probe_json(v),
        text_value: probe_text(v),
        bytes_value: probe_bytes(v),
    };
    let out = format_cell(&probes);
    proof {
        lemma_cell_display_nonempty(probes@);
    }
    out
}

/// Relies on `sqlx::Row::try_get`: the column at `idx` as text, when the
/// backend reports it as such.
#[verifier::external_body]
fn row_text_at(row: &sqlx::mysql::MySqlRow, idx: usize) -> (r: Option<String>) {
    row.try_get::<String, usize>(idx).ok()
}

/// Relies on `sqlx::Row::try_get`: the column at `idx` as raw bytes, when
/// the backend reports it as a binary-safe type.
#[verifier::external_body]
fn row_bytes_at(row: &sqlx::mysql::MySqlRow, idx: usize) -> (r: Option<Vec<u8>>) {
    row.try_get::<Vec<u8>, usize>(idx).ok()
}

/// Relies on `sqlx::Row::try_get`: the named column as text, when present
/// and textual.
#[verifier::external_body]
fn row_text_named(row: &sqlx::mysql::MySqlRow, name: &str) -> (r: Option<String>) {
    row.try_get::<String, &str>(name).ok()
}

/// Relies on `sqlx::Row::try_get_raw`: the named column's wire value, for
/// the decoding cascade.
#[verifier::external_body]
pub fn row_raw_named<'r>(row: &'r sqlx::mysql::MySqlRow, name: &str) -> (r: Option<
    sqlx::mysql::MySqlValueRef<'r>,
>) {
    row.try_get_raw(name).ok()
}

/// The defensive text of one listing cell: the text as reported, or, where
/// the backend handed bytes instead, their best-effort decoding, or the
/// empty string when neither was available.
pub open spec fn listing_text(
    text: Option<Seq<char>>,
    bytes: Option<Seq<u8>>,
) -> Seq<char> {
    match text {
        Some(t) => t,
        None => match bytes {
            Some(b) => lossy_text(b),
            None => Seq::empty(),
        },
    }
}

/// Decodes a listing cell as text, falling back to a lossy byte decoding
/// rather than failing the whole row.
pub fn text_or_lossy(text: Option<String>, bytes: Option<Vec<u8>>) -> (r: String)
    ensures
        r@ == listing_text(
            opt_string_view(text),
            match bytes {
                Some(b) => Some(b@),
                None => None,
            },
        ),
{
    match text {
        Some(t) => t,
        None => match bytes {
            Some(b) => utf8_lossy(&b),
            None => String::new(),
        },
    }
}

/// One schema-listing row: its first column, decoded defensively.
pub fn schema_from_row(row: &sqlx::mysql::MySqlRow) -> (r: DBSchema) {
    DBSchema { name: text_or_lossy(row_text_at(row, 0), row_bytes_at(row, 0)) }
}

/// Every schema of a "SHOW DATABASES" result, one per row.
pub fn schemas_from_rows(rows: &Vec<sqlx::mysql::MySqlRow>) -> (r: Vec<DBSchema>)
    ensures
        r@.len() == rows@.len(),
{
    let mut out: Vec<DBSchema> = Vec::new();
    let n = rows.len();
    let mut i: usize = 0;
    while i < n
        invariant
            n == rows@.len(),
            0 <= i <= n,
            out@.len() == i as int,
        decreases n - i,
    {
        out.push(schema_from_row(&rows[i]));
        i = i + 1;
    }
    out
}

/// One table-listing row: name and table type, each decoded defensively.
pub fn table_from_row(row: &sqlx::mysql::MySqlRow) -> (r: TableInfo) {
    TableInfo {
        name: text_or_lossy(row_text_at(row, 0), row_bytes_at(row, 0)),
        table_type: text_or_lossy(row_text_at(row, 1), row_bytes_at(row, 1)),
    }
}

/// Every table of a "SHOW FULL TABLES" result, one per row.
pub fn tables_from_rows(rows: &Vec<sqlx::mysql::MySqlRow>) -> (r: Vec<TableInfo>)
    ensures
        r@.len() == rows@.len(),
{
    let mut out: Vec<TableInfo> = Vec::new();
    let n = rows.len();
    let mut i: usize = 0;
    while i < n
        invariant
            n == rows@.len(),
            0 <= i <= n,
            out@.len() == i as int,
        decreases n - i,
    {
        out.push(table_from_row(&rows[i]));
        i = i + 1;
    }
    out
}

/// Is the information-schema nullability marker the affirmative "YES"?
pub fn nullable_from_marker(marker: Option<String>) -> (r: bool)
    ensures
        r == (opt_string_view(marker) == Some("YES"@)),
{
    match &marker {
        Some(s) => {
            let yes = String::from_str("YES");
            *s == yes
        },
        None => false,
    }
}

/// One column-introspection row: name, backend type string, nullability and
/// default expression.
pub fn column_from_row(row: &sqlx::mysql::MySqlRow) -> (r: TableColumn) {
    TableColumn {
        name: text_or_lossy(row_text_named(row, "COLUMN_NAME"), None),
        data_type: text_or_lossy(row_text_named(row, "COLUMN_TYPE"), None),
        nullable: nullable_from_marker(row_text_named(row, "IS_NULLABLE")),
        default: row_text_named(row, "COLUMN_DEFAULT"),
    }
}

/// Every column of an information-schema result, one per row, in the
/// declaration order the query asked for.
pub fn columns_from_rows(rows: &Vec<sqlx::mysql::MySqlRow>) -> (r: Vec<TableColumn>)
    ensures
        r@.len() == rows@.len(),
{
    let mut out: Vec<TableColumn> = Vec::new();
    let n = rows.len();
    let mut i: usize = 0;
    while i < n
        invariant
            n == rows@.len(),
            0 <= i <= n,
            out@.len() == i as int,
        decreases n - i,
    {
        out.push(column_from_row(&rows[i]));
        i = i + 1;
    }
    out
}

/// An identifier quoted with backticks.
pub open spec fn quoted_ident(s: Seq<char>) -> Seq<char> {
    seq!['`'] + s + seq!['`']
}

/// The quoted identifiers joined with commas.
pub open spec fn joined_quoted(cols: Seq<Seq<char>>) -> Seq<char>
    decreases cols.len(),
{
    if cols.len() == 0 {
        Seq::empty()
    } else if cols.len() == 1 {
        quoted_ident(cols[0])
    } else {
        joined_quoted(cols.drop_last()) + seq![','] + quoted_ident(cols.last())
    }
}

/// The schema-qualified, quoted table reference.
pub open spec fn qualified_table(schema: Seq<char>, table: Seq<char>) -> Seq<char> {
    quoted_ident(schema) + seq!['.'] + quoted_ident(table)
}

/// The page-fetch statement: the quoted columns, the qualified table, and
/// the caller's window.
pub open spec fn select_page_text(
    cols: Seq<Seq<char>>,
    schema: Seq<char>,
    table: Seq<char>,
    limit: u64,
    offset: u64,
) -> Seq<char> {
    "SELECT "@ + joined_quoted(cols) + " FROM "@ + qualified_table(schema, table) + " LIMIT "@
        + dec_digits(limit as nat) + " OFFSET "@ + dec_digits(offset as nat)
}

/// Appends a backtick-quoted identifier.
fn push_quoted(dst: &mut Vec<char>, s: &str)
    ensures
        final(dst)@ == old(dst)@ + quoted_ident(s@),
{
    dst.push('`');
    push_str_chars(dst, s);
    dst.push('`');
    proof {
        assert(dst@ =~= old(dst)@ + quoted_ident(s@));
    }
}

/// Appends the decimal digits of `n`.
fn push_dec(dst: &mut Vec<char>, n: u64)
    ensures
        final(dst)@ == old(dst)@ + dec_digits(n as nat),
{
    let digits = u64_dec_chars(n);
    let k = digits.len();
    push_range(dst, &digits, 0, k);
    proof {
        assert(digits@.subrange(0, digits@.len() as int) =~= digits@);
    }
}

/// Builds the page-fetch statement for the given columns, table and window.
pub fn select_page_query(
    col_names: &Vec<String>,
    schema: &str,
    table: &str,
    limit: u64,
    offset: u64,
) -> (r: String)
    requires
        col_names@.len() > 0,
    ensures
        r@ == select_page_text(
            col_names@.map_values(|s: String| s@),
            schema@,
            table@,
            limit,
            offset,
        ),
{
    let ghost cols = col_names@.map_values(|s: String| s@);
    let mut buf: Vec<char> = Vec::new();
    push_str_chars(&mut buf, "SELECT ");
    let n = col_names.len();
    let mut i: usize = 0;
    while i < n
        invariant
            n == col_names@.len(),
            n >= 1,
            0 <= i <= n,
            cols == col_names@.map_values(|s: String| s@),
            i == 0 ==> buf@ == "SELECT "@,
            i >= 1 ==> buf@ == "SELECT "@ + joined_quoted(cols.take(i as int)),
        decreases n - i,
    {
        if i > 0 {
            buf.push(',');
        }
        push_quoted(&mut buf, col_names[i].as_str());
        proof {
            assert(cols[i as int] == col_names@[i as int]@);
            if i == 0 {
                assert(cols.take(1) =~= seq![cols[0]]);
                assert(buf@ =~= "SELECT "@ + joined_quoted(cols.take(1)));
            } else {
                assert(cols.take(i + 1).drop_last() =~= cols.take(i as int));
                assert(cols.take(i + 1).last() == cols[i as int]);
                assert(buf@ =~= "SELECT "@ + joined_quoted(cols.take(i + 1)));
            }
        }
        i = i + 1;
    }
    proof {
        assert(cols.take(n as int) =~= cols);
    }
    push_str_chars(&mut buf, " FROM ");
    push_quoted(&mut buf, schema);
    buf.push('.');
    push_quoted(&mut buf, table);
    push_str_chars(&mut buf, " LIMIT ");
    push_dec(&mut buf, limit);
    push_str_chars(&mut buf, " OFFSET ");
    push_dec(&mut buf, offset);
    proof {
        assert(buf@ =~= select_page_text(cols, schema@, table@, limit, offset));
    }
    chars_string(&buf)
}

/// The independent full count over the table, not restricted by the page
/// window.
pub open spec fn count_text(schema: Seq<char>, table: Seq<char>) -> Seq<char> {
    "SELECT COUNT(*) AS cnt FROM "@ + qualified_table(schema, table)
}

/// Builds the row-count statement for the table.
pub fn count_query(schema: &str, table: &str) -> (r: String)
    ensures
        r@ == count_text(schema@, table@),
{
    let mut buf: Vec<char> = Vec::new();
    push_str_chars(&mut buf, "SELECT COUNT(*) AS cnt FROM ");
    push_quoted(&mut buf, schema);
    buf.push('.');
    push_quoted(&mut buf, table);
    proof {
        assert(buf@ =~= count_text(schema@, table@));
    }
    chars_string(&buf)
}

/// Builds the schema-listing statement.
pub fn show_databases_query() -> (r: String)
    ensures
        r@ == "SHOW DATABASES"@,
{
    String::from_str("SHOW DATABASES")
}

/// Builds the table-listing statement for one schema.
pub fn show_tables_query(schema: &str) -> (r: String)
    ensures
        r@ == "SHOW FULL TABLES FROM "@ + quoted_ident(schema@),
{
    let mut buf: Vec<char> = Vec::new();
    push_str_chars(&mut buf, "SHOW FULL TABLES FROM ");
    push_quoted(&mut buf, schema);
    chars_string(&buf)
}

/// Builds the column-introspection statement over the standard
/// information-schema view, ordered by declared ordinal position; the two
/// placeholders take the schema and table names.
pub fn columns_query() -> (r: String)
    ensures
        r@ == "SELECT CAST(COLUMN_NAME AS CHAR(255)) AS COLUMN_NAME, CAST(COLUMN_TYPE AS CHAR(255)) AS COLUMN_TYPE, CAST(IS_NULLABLE AS CHAR(10)) AS IS_NULLABLE, COLUMN_DEFAULT FROM INFORMATION_SCHEMA.COLUMNS WHERE TABLE_SCHEMA = ? AND TABLE_NAME = ? ORDER BY ORDINAL_POSITION"@,
{
    String::from_str(
        "SELECT CAST(COLUMN_NAME AS CHAR(255)) AS COLUMN_NAME, CAST(COLUMN_TYPE AS CHAR(255)) AS COLUMN_TYPE, CAST(IS_NULLABLE AS CHAR(10)) AS IS_NULLABLE, COLUMN_DEFAULT FROM INFORMATION_SCHEMA.COLUMNS WHERE TABLE_SCHEMA = ? AND TABLE_NAME = ? ORDER BY ORDINAL_POSITION",
    )
}

/// The page total from the backend's count: counts are never negative, so a
/// negative report is clamped to zero.
pub fn total_from_count(count: i64) -> (r: u64)
    ensures
        count >= 0 ==> r == count,
        count < 0 ==> r == 0,
{
    if count >= 0 {
        count as u64
    } else {
        0
    }
}

/// The names of `cols`, in order.
pub fn column_names(cols: &Vec<TableColumn>) -> (r: Vec<String>)
    ensures
        r@.map_values(|s: String| s@) == cols@.map_values(|c: TableColumn| c.name@),
{
    let mut out: Vec<String> = Vec::new();
    let n = cols.len();
    let mut i: usize = 0;
    while i < n
        invariant
            n == cols@.len(),
            0 <= i <= n,
            out@.len() == i as int,
            forall|k: int| 0 <= k < i ==> out@[k]@ == (#[trigger] cols@[k]).name@,
        decreases n - i,
    {
        out.push(cols[i].name.clone());
        i = i + 1;
    }
    proof {
        assert(out@.map_values(|s: String| s@) =~= cols@.map_values(|c: TableColumn| c.name@));
    }
    out
}

} // verus!
