//! The persisted document's on-disk form: a pretty-printed JSON rendering
//! of [`DBConfig`](crate::db_config::DBConfig), and a strict reader for it.
//! The renderer's output is the single canonical form; the reader accepts
//! exactly that form and surfaces anything else as an error, so that a
//! document it accepts always renders back to the very bytes it was read
//! from. This library is the file's only writer, so the strictness costs
//! nothing in the normal flow; a hand-edited file is accepted only when it
//! is re-written in the canonical form.

use vstd::prelude::*;
use crate::database::{
    uuid_text, ConnectionConfig, ConnectionConfigModel, ConnectionId, DatabaseType, Endpoint,
    EndpointModel,
};
use crate::db_config::{DBConfig, DBConfigModel};
use crate::driver::DBError;
use crate::strutil::{
    chars_string, dec_digits, digit_char, hex_char, hex_digits, lemma_hex_digits_len,
    lemma_pow16_32, lemma_pow16_mono, matches_at, pow16, push_range, push_str_chars, str_chars,
    u128_hex_chars, u64_dec_chars,
};

verus! {

/// Characters a document string field may hold: everything but the control
/// characters that have no single-character escape here.
pub open spec fn ok_char(c: char) -> bool {
    c == '\n' || c == '\r' || c == '\t' || (c as u32) >= 32
}

/// A string field whose every character the codec can carry.
pub open spec fn wf_text(t: Seq<char>) -> bool {
    forall|i: int| 0 <= i < t.len() ==> ok_char(#[trigger] t[i])
}

/// How one character is written inside a JSON string.
pub open spec fn esc_char(c: char) -> Seq<char> {
    if c == '"' {
        seq!['\\', '"']
    } else if c == '\\' {
        seq!['\\', '\\']
    } else if c == '\n' {
        seq!['\\', 'n']
    } else if c == '\r' {
        seq!['\\', 'r']
    } else if c == '\t' {
        seq!['\\', 't']
    } else {
        seq![c]
    }
}

/// The body of a JSON string: every character escaped.
pub open spec fn esc_all(t: Seq<char>) -> Seq<char>
    decreases t.len(),
{
    if t.len() == 0 {
        Seq::empty()
    } else {
        esc_char(t[0]) + esc_all(t.drop_first())
    }
}

/// Escaping one character at a time, from the left or from the right, is
/// the same.
pub proof fn lemma_esc_all_push(t: Seq<char>, c: char)
    ensures
        esc_all(t.push(c)) == esc_all(t) + esc_char(c),
    decreases t.len(),
{
    if t.len() == 0 {
        assert(t.push(c)[0] == c);
        assert(t.push(c).drop_first() =~= Seq::<char>::empty());
        assert(esc_all(t.push(c)) == esc_char(c) + esc_all(Seq::<char>::empty()));
        assert(esc_all(t.push(c)) =~= esc_all(t) + esc_char(c));
    } else {
        assert(t.push(c)[0] == t[0]);
        assert(t.push(c).drop_first() =~= t.drop_first().push(c));
        lemma_esc_all_push(t.drop_first(), c);
        assert(esc_all(t.push(c)) == esc_char(t[0]) + esc_all(t.drop_first().push(c)));
        assert(esc_all(t.push(c)) == esc_char(t[0]) + (esc_all(t.drop_first()) + esc_char(c)));
        assert(esc_all(t) == esc_char(t[0]) + esc_all(t.drop_first()));
        assert(esc_all(t.push(c)) =~= esc_all(t) + esc_char(c));
    }
}

/// A quoted, escaped JSON string.
pub open spec fn render_string(t: Seq<char>) -> Seq<char> {
    seq!['"'] + esc_all(t) + seq!['"']
}

/// A JSON boolean.
pub open spec fn render_bool(b: bool) -> Seq<char> {
    if b {
        "true"@
    } else {
        "false"@
    }
}

/// The password-length hint: a small number, or `null`.
pub open spec fn render_opt_u8(l: Option<u8>) -> Seq<char> {
    match l {
        Some(n) => dec_digits(n as nat),
        None => "null"@,
    }
}

/// The tag under which a backend variant is written.
pub open spec fn db_type_tag(t: DatabaseType) -> Seq<char> {
    match t {
        DatabaseType::Postgre => "Postgre"@,
        DatabaseType::MySql => "MySql"@,
        DatabaseType::Sqlite => "Sqlite"@,
        DatabaseType::MariaDB => "MariaDB"@,
        DatabaseType::Oracle => "Oracle"@,
        DatabaseType::Redis => "Redis"@,
        DatabaseType::MongoDB => "MongoDB"@,
        DatabaseType::MicrosoftSQLServer => "MicrosoftSQLServer"@,
    }
}

/// An endpoint, as a tagged one-key object.
pub open spec fn render_endpoint(e: EndpointModel) -> Seq<char> {
    match e {
        EndpointModel::Tcp(host, port) => "{\n        \"Tcp\": [\n          "@ + render_string(
            host,
        ) + ",\n          "@ + render_string(port) + "\n        ]\n      }"@,
        EndpointModel::Unix(path) => "{\n        \"Unix\": "@ + render_string(path)
            + "\n      }"@,
    }
}

/// The backend tag, quoted.
pub open spec fn render_db_type(t: DatabaseType) -> Seq<char> {
    seq!['"'] + db_type_tag(t) + seq!['"']
}

/// One connection profile, as an object with every field on its own line.
pub open spec fn render_conn(c: ConnectionConfigModel) -> Seq<char> {
    "{\n      \"id\": "@ + render_id(c.id) + ",\n      \"name\": "@ + render_string(c.name)
        + ",\n      \"db_type\": "@ + render_db_type(c.db_type) + ",\n      \"endpoint\": "@
        + render_endpoint(c.endpoint) + ",\n      \"remember_password\": "@ + render_bool(
        c.remember_password,
    ) + ",\n      \"username\": "@ + render_string(c.username)
        + ",\n      \"saved_password_len\": "@ + render_opt_u8(c.saved_password_len)
        + "\n    }"@
}

/// The profiles of a non-empty list, separated by commas on their own
/// indentation.
pub open spec fn render_conn_items(s: Seq<ConnectionConfigModel>) -> Seq<char>
    decreases s.len(),
{
    if s.len() <= 1 {
        if s.len() == 0 {
            Seq::empty()
        } else {
            render_conn(s[0])
        }
    } else {
        render_conn_items(s.drop_last()) + ",\n    "@ + render_conn(s.last())
    }
}

/// The profile list.
pub open spec fn render_conns(s: Seq<ConnectionConfigModel>) -> Seq<char> {
    if s.len() == 0 {
        "[]"@
    } else {
        "[\n    "@ + render_conn_items(s) + "\n  ]"@
    }
}

/// One active id, quoted.
pub open spec fn render_id(id: u128) -> Seq<char> {
    seq!['"'] + uuid_text(id) + seq!['"']
}

/// The ids of a non-empty active list, separated by commas on their own
/// indentation.
pub open spec fn render_id_items(s: Seq<u128>) -> Seq<char>
    decreases s.len(),
{
    if s.len() <= 1 {
        if s.len() == 0 {
            Seq::empty()
        } else {
            render_id(s[0])
        }
    } else {
        render_id_items(s.drop_last()) + ",\n    "@ + render_id(s.last())
    }
}

/// The active-id list.
pub open spec fn render_ids(s: Seq<u128>) -> Seq<char> {
    if s.len() == 0 {
        "[]"@
    } else {
        "[\n    "@ + render_id_items(s) + "\n  ]"@
    }
}

/// The whole document, pretty-printed: the format version, every profile,
/// and the active-id list, in that order.
pub open spec fn render_doc(d: DBConfigModel) -> Seq<char> {
    "{\n  \"version\": "@ + render_string(d.version) + ",\n  \"connections\": "@ + render_conns(
        d.connections,
    ) + ",\n  \"active_connection_ids\": "@ + render_ids(d.active_connection_ids) + "\n}"@
}

/// An endpoint whose text fields the codec can carry.
pub open spec fn wf_endpoint(e: EndpointModel) -> bool {
    match e {
        EndpointModel::Tcp(host, port) => wf_text(host) && wf_text(port),
        EndpointModel::Unix(path) => wf_text(path),
    }
}

/// A profile whose text fields the codec can carry.
pub open spec fn wf_conn(c: ConnectionConfigModel) -> bool {
    &&& wf_text(c.name)
    &&& wf_text(c.username)
    &&& wf_endpoint(c.endpoint)
}

/// A document whose every text field the codec can carry.
pub open spec fn wf_doc(d: DBConfigModel) -> bool {
    &&& wf_text(d.version)
    &&& forall|i: int| 0 <= i < d.connections.len() ==> wf_conn(#[trigger] d.connections[i])
}

/// Appends the escaped body of `s`.
fn push_escaped(dst: &mut Vec<char>, s: &str)
    ensures
        final(dst)@ == old(dst)@ + esc_all(s@),
{
    let chars = str_chars(s);
    let n = chars.len();
    let mut i: usize = 0;
    proof {
        assert(s@.take(0) =~= Seq::<char>::empty());
        assert(dst@ =~= old(dst)@ + esc_all(s@.take(0)));
    }
    while i < n
        invariant
            n == chars@.len(),
            chars@ == s@,
            0 <= i <= n,
            dst@ == old(dst)@ + esc_all(s@.take(i as int)),
        decreases n - i,
    {
        let c = chars[i];
        if c == '"' {
            dst.push('\\');
            dst.push('"');
        } else if c == '\\' {
            dst.push('\\');
            dst.push('\\');
        } else if c == '\n' {
            dst.push('\\');
            dst.push('n');
        } else if c == '\r' {
            dst.push('\\');
            dst.push('r');
        } else if c == '\t' {
            dst.push('\\');
            dst.push('t');
        } else {
            dst.push(c);
        }
        proof {
            assert(s@.take(i + 1) =~= s@.take(i as int).push(s@[i as int]));
            lemma_esc_all_push(s@.take(i as int), s@[i as int]);
            assert(dst@ =~= old(dst)@ + esc_all(s@.take(i + 1)));
        }
        i = i + 1;
    }
    proof {
        assert(s@.take(n as int) =~= s@);
    }
}

/// Appends a quoted, escaped JSON string.
fn push_json_string(dst: &mut Vec<char>, s: &str)
    ensures
        final(dst)@ == old(dst)@ + render_string(s@),
{
    dst.push('"');
    push_escaped(dst, s);
    dst.push('"');
    proof {
        assert(dst@ =~= old(dst)@ + render_string(s@));
    }
}

/// Appends a quoted id.
fn push_id(dst: &mut Vec<char>, id: &ConnectionId)
    ensures
        final(dst)@ == old(dst)@ + render_id(id.0),
{
    let h = u128_hex_chars(id.0, 32);
    dst.push('"');
    push_range(dst, &h, 0, 8);
    dst.push('-');
    push_range(dst, &h, 8, 12);
    dst.push('-');
    push_range(dst, &h, 12, 16);
    dst.push('-');
    push_range(dst, &h, 16, 20);
    dst.push('-');
    push_range(dst, &h, 20, 32);
    dst.push('"');
    proof {
        assert(dst@ =~= old(dst)@ + render_id(id.0));
    }
}

/// Appends the password-length hint.
fn push_opt_u8(dst: &mut Vec<char>, l: &Option<u8>)
    ensures
        final(dst)@ == old(dst)@ + render_opt_u8(*l),
{
    match l {
        Some(n) => {
            let digits = u64_dec_chars(*n as u64);
            let k = digits.len();
            push_range(dst, &digits, 0, k);
            proof {
                assert(digits@.subrange(0, digits@.len() as int) =~= digits@);
            }
        },
        None => {
            push_str_chars(dst, "null");
        },
    }
}

/// Appends the quoted backend tag.
fn push_db_type(dst: &mut Vec<char>, t: &DatabaseType)
    ensures
        final(dst)@ == old(dst)@ + render_db_type(*t),
{
    dst.push('"');
    match t {
        DatabaseType::Postgre => push_str_chars(dst, "Postgre"),
        DatabaseType::MySql => push_str_chars(dst, "MySql"),
        DatabaseType::Sqlite => push_str_chars(dst, "Sqlite"),
        DatabaseType::MariaDB => push_str_chars(dst, "MariaDB"),
        DatabaseType::Oracle => push_str_chars(dst, "Oracle"),
        DatabaseType::Redis => push_str_chars(dst, "Redis"),
        DatabaseType::MongoDB => push_str_chars(dst, "MongoDB"),
        DatabaseType::MicrosoftSQLServer => push_str_chars(dst, "MicrosoftSQLServer"),
    }
    dst.push('"');
    proof {
        assert(dst@ =~= old(dst)@ + render_db_type(*t));
    }
}

/// Appends the endpoint object.
fn push_endpoint(dst: &mut Vec<char>, e: &Endpoint)
    ensures
        final(dst)@ == old(dst)@ + render_endpoint(e@),
{
    match e {
        Endpoint::Tcp(host, port) => {
            push_str_chars(dst, "{\n        \"Tcp\": [\n          ");
            push_json_string(dst, host.as_str());
            push_str_chars(dst, ",\n          ");
            push_json_string(dst, port.as_str());
            push_str_chars(dst, "\n        ]\n      }");
            proof {
                assert(dst@ =~= old(dst)@ + render_endpoint(e@));
            }
        },
        Endpoint::Unix(path) => {
            push_str_chars(dst, "{\n        \"Unix\": ");
            push_json_string(dst, path.as_str());
            push_str_chars(dst, "\n      }");
            proof {
                assert(dst@ =~= old(dst)@ + render_endpoint(e@));
            }
        },
    }
}

/// Appends a boolean.
fn push_bool(dst: &mut Vec<char>, b: bool)
    ensures
        final(dst)@ == old(dst)@ + render_bool(b),
{
    if b {
        push_str_chars(dst, "true");
    } else {
        push_str_chars(dst, "false");
    }
}

/// Appends one profile object.
#[verifier::rlimit(100)]
#[verifier::spinoff_prover]
fn push_conn(dst: &mut Vec<char>, c: &ConnectionConfig)
    ensures
        final(dst)@ == old(dst)@ + render_conn(c@),
{
    push_str_chars(dst, "{\n      \"id\": ");
    push_id(dst, &c.id);
    push_str_chars(dst, ",\n      \"name\": ");
    push_json_string(dst, c.name.as_str());
    proof {
        assert(dst@ =~= old(dst)@ + ("{\n      \"id\": "@ + render_id(c@.id)
            + ",\n      \"name\": "@ + render_string(c@.name)));
    }
    let ghost head = old(dst)@ + ("{\n      \"id\": "@ + render_id(c@.id)
        + ",\n      \"name\": "@ + render_string(c@.name));
    push_str_chars(dst, ",\n      \"db_type\": ");
    push_db_type(dst, &c.db_type);
    push_str_chars(dst, ",\n      \"endpoint\": ");
    push_endpoint(dst, &c.endpoint);
    proof {
        assert(dst@ =~= head + (",\n      \"db_type\": "@ + render_db_type(c@.db_type)
            + ",\n      \"endpoint\": "@ + render_endpoint(c@.endpoint)));
    }
    let ghost head2 = head + (",\n      \"db_type\": "@ + render_db_type(c@.db_type)
        + ",\n      \"endpoint\": "@ + render_endpoint(c@.endpoint));
    push_str_chars(dst, ",\n      \"remember_password\": ");
    push_bool(dst, c.remember_password);
    push_str_chars(dst, ",\n      \"username\": ");
    push_json_string(dst, c.username.as_str());
    push_str_chars(dst, ",\n      \"saved_password_len\": ");
    push_opt_u8(dst, &c.saved_password_len);
    push_str_chars(dst, "\n    }");
    proof {
        assert(dst@ =~= head2 + (",\n      \"remember_password\": "@ + render_bool(
            c@.remember_password,
        ) + ",\n      \"username\": "@ + render_string(c@.username)
            + ",\n      \"saved_password_len\": "@ + render_opt_u8(c@.saved_password_len)
            + "\n    }"@));
        assert(dst@ =~= old(dst)@ + render_conn(c@));
    }
}

/// The canonical pretty-printed rendering of the document, as it is written
/// to disk.
#[verifier::rlimit(50)]
pub fn to_json(cfg: &DBConfig) -> (r: String)
    ensures
        r@ == render_doc(cfg@),
{
    let mut buf: Vec<char> = Vec::new();
    push_str_chars(&mut buf, "{\n  \"version\": ");
    push_json_string(&mut buf, cfg.version.as_str());
    push_str_chars(&mut buf, ",\n  \"connections\": ");
    let n = cfg.connections.len();
    if n == 0 {
        push_str_chars(&mut buf, "[]");
        proof {
            assert(render_conns(cfg@.connections) == "[]"@);
        }
    } else {
        push_str_chars(&mut buf, "[\n    ");
        let ghost conns = cfg@.connections;
        let ghost mid = buf@;
        let mut i: usize = 0;
        while i < n
            invariant
                n == cfg.connections@.len(),
                n >= 1,
                0 <= i <= n,
                conns == cfg@.connections,
                mid == buf@ || i >= 1,
                i == 0 ==> buf@ == mid,
                i >= 1 ==> buf@ == mid + render_conn_items(conns.take(i as int)),
            decreases n - i,
        {
            if i > 0 {
                push_str_chars(&mut buf, ",\n    ");
            }
            push_conn(&mut buf, &cfg.connections[i]);
            proof {
                assert(conns[i as int] == cfg.connections@[i as int]@);
                if i == 0 {
                    assert(conns.take(1) =~= seq![conns[0]]);
                    assert(buf@ =~= mid + render_conn_items(conns.take(1)));
                } else {
                    assert(conns.take(i + 1).drop_last() =~= conns.take(i as int));
                    assert(conns.take(i + 1).last() == conns[i as int]);
                    assert(buf@ =~= mid + render_conn_items(conns.take(i + 1)));
                }
            }
            i = i + 1;
        }
        proof {
            assert(conns.take(n as int) =~= conns);
        }
        push_str_chars(&mut buf, "\n  ]");
    }
    push_str_chars(&mut buf, ",\n  \"active_connection_ids\": ");
    let m = cfg.active_connection_ids.len();
    if m == 0 {
        push_str_chars(&mut buf, "[]");
        proof {
            assert(render_ids(cfg@.active_connection_ids) == "[]"@);
        }
    } else {
        push_str_chars(&mut buf, "[\n    ");
        let ghost ids = cfg@.active_connection_ids;
        let ghost mid2 = buf@;
        let mut j: usize = 0;
        while j < m
            invariant
                m == cfg.active_connection_ids@.len(),
                m >= 1,
                0 <= j <= m,
                ids == cfg@.active_connection_ids,
                j == 0 ==> buf@ == mid2,
                j >= 1 ==> buf@ == mid2 + render_id_items(ids.take(j as int)),
            decreases m - j,
        {
            if j > 0 {
                push_str_chars(&mut buf, ",\n    ");
            }
            push_id(&mut buf, &cfg.active_connection_ids[j]);
            proof {
                assert(ids[j as int] == cfg.active_connection_ids@[j as int].0);
                if j == 0 {
                    assert(ids.take(1) =~= seq![ids[0]]);
                    assert(buf@ =~= mid2 + render_id_items(ids.take(1)));
                } else {
                    assert(ids.take(j + 1).drop_last() =~= ids.take(j as int));
                    assert(ids.take(j + 1).last() == ids[j as int]);
                    assert(buf@ =~= mid2 + render_id_items(ids.take(j + 1)));
                }
            }
            j = j + 1;
        }
        proof {
            assert(ids.take(m as int) =~= ids);
        }
        push_str_chars(&mut buf, "\n  ]");
    }
    push_str_chars(&mut buf, "\n}");
    proof {
        assert(buf@ =~= render_doc(cfg@));
    }
    chars_string(&buf)
}

/// Consumes `lit` when it sits exactly at `*p`, and exactly then.
fn expect_lit(v: &Vec<char>, p: &mut usize, lit: &str) -> (r: Result<(), ()>)
    ensures
        r is Ok ==> (*old(p)) <= (*final(p)) && (*final(p)) == (*old(p)) + lit@.len() && (*final(p))
            <= v@.len() && v@.subrange((*old(p)) as int, (*final(p)) as int) == lit@,
        r is Err ==> (*final(p)) == (*old(p)),
        (*old(p)) + lit@.len() <= v@.len() && v@.subrange(
            (*old(p)) as int,
            (*old(p)) + lit@.len(),
        ) == lit@ ==> r is Ok,
{
    let chars = str_chars(lit);
    let n = chars.len();
    if *p > v.len() || n > v.len() - *p {
        return Err(());
    }
    if matches_at(v, &chars, *p) {
        *p = *p + n;
        Ok(())
    } else {
        Err(())
    }
}

/// Does `lit` sit exactly at `p`? Nothing is consumed; within bounds the
/// answer is exact.
fn peek_lit(v: &Vec<char>, p: usize, lit: &str) -> (r: bool)
    ensures
        r ==> p + lit@.len() <= v@.len() && v@.subrange(p as int, p + lit@.len()) == lit@,
        p + lit@.len() <= v@.len() ==> r == (v@.subrange(p as int, p + lit@.len()) == lit@),
{
    let chars = str_chars(lit);
    let n = chars.len();
    if p > v.len() || n > v.len() - p {
        return false;
    }
    matches_at(v, &chars, p)
}

/// A partially decoded string body aligns with the canonical body it is
/// read from: the decoded characters are a prefix of the encoded text, and
/// the rest of the stream is the encoding of the rest of that text.
proof fn lemma_esc_align(out: Seq<char>, t: Seq<char>, x: Seq<char>, rest: Seq<char>)
    requires
        esc_all(out) + x == esc_all(t) + (seq!['"'] + rest),
    ensures
        out.len() <= t.len(),
        out == t.take(out.len() as int),
        x == esc_all(t.skip(out.len() as int)) + (seq!['"'] + rest),
    decreases out.len(),
{
    if out.len() == 0 {
        assert(esc_all(out) =~= Seq::<char>::empty());
        assert(t.take(0) =~= out);
        assert(t.skip(0) =~= t);
        assert forall|i: int| 0 <= i < x.len() implies x[i] == (esc_all(t) + (seq!['"']
            + rest))[i] by {
            assert((esc_all(out) + x)[i] == x[i]);
        }
        assert(x =~= esc_all(t) + (seq!['"'] + rest));
    } else if t.len() == 0 {
        assert(esc_all(out) == esc_char(out[0]) + esc_all(out.drop_first()));
        assert((esc_all(out) + x)[0] == esc_char(out[0])[0]);
        assert(esc_all(t) =~= Seq::<char>::empty());
        assert((esc_all(t) + (seq!['"'] + rest))[0] == '"');
        assert(esc_char(out[0])[0] != '"');
        assert(false);
    } else {
        let c1 = out[0];
        let c2 = t[0];
        let sp1 = c1 == '"' || c1 == '\\' || c1 == '\n' || c1 == '\r' || c1 == '\t';
        let sp2 = c2 == '"' || c2 == '\\' || c2 == '\n' || c2 == '\r' || c2 == '\t';
        assert(esc_all(out) == esc_char(c1) + esc_all(out.drop_first()));
        assert(esc_all(t) == esc_char(c2) + esc_all(t.drop_first()));
        assert(esc_all(out) + x =~= esc_char(c1) + (esc_all(out.drop_first()) + x));
        assert(esc_all(t) + (seq!['"'] + rest) =~= esc_char(c2) + (esc_all(t.drop_first()) + (
        seq!['"'] + rest)));
        if sp1 && !sp2 {
            assert((esc_char(c1) + (esc_all(out.drop_first()) + x))[0] == '\\');
            assert((esc_char(c2) + (esc_all(t.drop_first()) + (seq!['"'] + rest)))[0] == c2);
            assert(false);
        } else if !sp1 && sp2 {
            assert((esc_char(c1) + (esc_all(out.drop_first()) + x))[0] == c1);
            assert((esc_char(c2) + (esc_all(t.drop_first()) + (seq!['"'] + rest)))[0] == '\\');
            assert(false);
        } else {
            if sp1 && sp2 {
                assert((esc_char(c1) + (esc_all(out.drop_first()) + x))[1] == esc_char(c1)[1]);
                assert((esc_char(c2) + (esc_all(t.drop_first()) + (seq!['"'] + rest)))[1]
                    == esc_char(c2)[1]);
                assert(c1 == c2);
            } else {
                assert((esc_char(c1) + (esc_all(out.drop_first()) + x))[0] == c1);
                assert((esc_char(c2) + (esc_all(t.drop_first()) + (seq!['"'] + rest)))[0]
                    == c2);
                assert(c1 == c2);
            }
            lemma_concat_cancel(
                esc_char(c1),
                esc_all(out.drop_first()) + x,
                esc_char(c2),
                esc_all(t.drop_first()) + (seq!['"'] + rest),
            );
            lemma_esc_align(out.drop_first(), t.drop_first(), x, rest);
            let k = out.len() as int;
            assert(out =~= seq![c1] + out.drop_first());
            assert(t.take(k) =~= seq![c2] + t.drop_first().take(k - 1));
            assert(out =~= t.take(k));
            assert(t.skip(k) =~= t.drop_first().skip(k - 1));
        }
    }
}

/// Reads one quoted, escaped string. On success the consumed characters
/// are exactly the canonical rendering of the result; on a stream that
/// holds a canonical string the read succeeds.
fn parse_string(v: &Vec<char>, p: &mut usize) -> (r: Result<String, ()>)
    requires
        (*old(p)) <= v@.len(),
    ensures
        r matches Ok(s) ==> (*old(p)) < (*final(p)) && (*final(p)) <= v@.len() && v@.subrange(
            (*old(p)) as int,
            (*final(p)) as int,
        ) == render_string(s@) && wf_text(s@),
        forall|t: Seq<char>, rest: Seq<char>|
            wf_text(t) && v@.skip((*old(p)) as int) == #[trigger] (render_string(t) + rest)
                ==> r is Ok,
{
    let n = v.len();
    let start = *p;
    if start >= n || v[start] != '"' {
        proof {
            assert forall|t: Seq<char>, rest: Seq<char>|
                !(wf_text(t) && v@.skip(start as int) == #[trigger] (render_string(t)
                    + rest)) by {
                if wf_text(t) && v@.skip(start as int) == render_string(t) + rest {
                    assert(render_string(t).len() >= 2);
                    assert((render_string(t) + rest).len() >= 2);
                    assert(v@.skip(start as int).len() == v@.len() - start);
                    assert(start < v@.len());
                    assert((render_string(t) + rest)[0] == '"');
                    assert(v@.skip(start as int)[0] == v@[start as int]);
                    assert(v@[start as int] == '"');
                    assert(false);
                }
            }
        }
        return Err(());
    }
    *p = start + 1;
    let mut out: Vec<char> = Vec::new();
    proof {
        assert(v@.subrange(start + 1, start + 1) =~= esc_all(out@));
    }
    while *p < n
        invariant
            n == v@.len(),
            start == *old(p),
            start < v@.len(),
            v@[start as int] == '"',
            start + 1 <= *p <= n,
            v@.subrange(start + 1, *p as int) == esc_all(out@),
            wf_text(out@),
        decreases n - *p,
    {
        let c = v[*p];
        if c == '"' {
            let endq = *p;
            *p = endq + 1;
            proof {
                assert(v@.subrange(start as int, endq + 1) =~= seq!['"'] + esc_all(out@)
                    + seq!['"']);
                assert(v@.subrange(start as int, endq + 1) == render_string(out@));
            }
            return Ok(chars_string(&out));
        } else if c == '\\' {
            if *p + 1 >= n {
                proof {
                    lemma_string_reject(v@, start as int, *p as int, out@, n as int);
                }
                return Err(());
            }
            let e = v[*p + 1];
            let decoded: char = if e == '"' {
                '"'
            } else if e == '\\' {
                '\\'
            } else if e == 'n' {
                '\n'
            } else if e == 'r' {
                '\r'
            } else if e == 't' {
                '\t'
            } else {
                proof {
                    lemma_string_reject(v@, start as int, *p as int, out@, n as int);
                }
                return Err(());
            };
            let ghost out_prev = out@;
            out.push(decoded);
            proof {
                lemma_esc_all_push(out_prev, decoded);
                assert(esc_char(decoded) =~= seq![c, e]);
                assert(v@.subrange(start + 1, *p + 2) =~= v@.subrange(start + 1, *p as int)
                    + seq![c, e]);
                assert(v@.subrange(start + 1, *p + 2) == esc_all(out@));
                assert forall|i: int| 0 <= i < out@.len() implies ok_char(#[trigger] out@[i]) by {
                    if i < out_prev.len() {
                        assert(out@[i] == out_prev[i]);
                    }
                }
            }
            *p = *p + 2;
        } else if (c as u32) < 32 {
            proof {
                lemma_string_reject(v@, start as int, *p as int, out@, n as int);
            }
            return Err(());
        } else {
            let ghost out_prev = out@;
            out.push(c);
            proof {
                lemma_esc_all_push(out_prev, c);
                assert(esc_char(c) =~= seq![c]);
                assert(v@.subrange(start + 1, *p + 1) =~= v@.subrange(start + 1, *p as int)
                    + seq![c]);
                assert(v@.subrange(start + 1, *p + 1) == esc_all(out@));
                assert forall|i: int| 0 <= i < out@.len() implies ok_char(#[trigger] out@[i]) by {
                    if i < out_prev.len() {
                        assert(out@[i] == out_prev[i]);
                    }
                }
            }
            *p = *p + 1;
        }
    }
    proof {
        lemma_string_reject(v@, start as int, *p as int, out@, n as int);
    }
    Err(())
}

/// At a position where the string reader gives up, no canonical string can
/// sit on the stream: the next character is neither a closing quote, a
/// complete known escape, nor a plain printable character.
proof fn lemma_string_reject(s: Seq<char>, start: int, pos: int, out: Seq<char>, n: int)
    requires
        n == s.len(),
        0 <= start < n,
        s[start] == '"',
        start + 1 <= pos <= n,
        s.subrange(start + 1, pos) == esc_all(out),
        pos < n ==> s[pos] != '"',
        pos < n && s[pos] == '\\' && pos + 1 < n ==> !(s[pos + 1] == '"' || s[pos + 1] == '\\'
            || s[pos + 1] == 'n' || s[pos + 1] == 'r' || s[pos + 1] == 't'),
        pos < n && s[pos] != '\\' ==> (s[pos] as u32) < 32,
    ensures
        forall|t: Seq<char>, rest: Seq<char>|
            !(wf_text(t) && s.skip(start) == #[trigger] (render_string(t) + rest)),
{
    assert forall|t: Seq<char>, rest: Seq<char>|
        !(wf_text(t) && s.skip(start) == #[trigger] (render_string(t) + rest)) by {
        if wf_text(t) && s.skip(start) == render_string(t) + rest {
            assert(render_string(t) + rest =~= seq!['"'] + (esc_all(t) + (seq!['"'] + rest)));
            assert(s.skip(start)[0] == s[start]);
            assert(s.skip(start).drop_first() =~= s.skip(start + 1));
            assert(s.skip(start + 1) =~= (seq!['"'] + (esc_all(t) + (seq!['"']
                + rest))).drop_first());
            assert(s.skip(start + 1) == esc_all(t) + (seq!['"'] + rest));
            assert(s.skip(start + 1) =~= s.subrange(start + 1, pos) + s.skip(pos));
            assert(esc_all(out) + s.skip(pos) == esc_all(t) + (seq!['"'] + rest));
            lemma_esc_align(out, t, s.skip(pos), rest);
            let k = out.len() as int;
            let x = s.skip(pos);
            assert(x == esc_all(t.skip(k)) + (seq!['"'] + rest));
            if t.skip(k).len() == 0 {
                assert(esc_all(t.skip(k)) =~= Seq::<char>::empty());
                assert(x[0] == '"');
                assert(x.len() >= 1);
                assert(pos < n);
                assert(s[pos] == '"');
                assert(false);
            } else {
                let c0 = t.skip(k)[0];
                assert(esc_all(t.skip(k)) == esc_char(c0) + esc_all(t.skip(k).drop_first()));
                assert(x =~= esc_char(c0) + (esc_all(t.skip(k).drop_first()) + (seq!['"']
                    + rest)));
                assert(x[0] == esc_char(c0)[0]);
                assert(x.len() >= 1);
                assert(pos < n);
                assert(s[pos] == x[0]);
                let sp = c0 == '"' || c0 == '\\' || c0 == '\n' || c0 == '\r' || c0 == '\t';
                if sp {
                    assert(s[pos] == '\\');
                    assert(x.len() >= esc_char(c0).len() + 1);
                    assert(esc_char(c0).len() == 2);
                    assert(pos + 1 < n);
                    assert(s[pos + 1] == x[1]);
                    assert(x[1] == esc_char(c0)[1]);
                    assert(esc_char(c0)[1] == '"' || esc_char(c0)[1] == '\\' || esc_char(c0)[1]
                        == 'n' || esc_char(c0)[1] == 'r' || esc_char(c0)[1] == 't');
                    assert(false);
                } else {
                    assert(x[0] == c0);
                    assert(s[pos] != '\\');
                    assert((s[pos] as u32) < 32);
                    assert(wf_text(t));
                    assert(0 <= k < t.len());
                    assert(t[k] == c0);
                    assert(ok_char(t[k]));
                    assert(c0 != '\n' && c0 != '\r' && c0 != '\t');
                    assert((c0 as u32) >= 32);
                    assert(false);
                }
            }
        }
    }
}

/// A lowercase hexadecimal digit character.
pub open spec fn is_hex_digit_char(c: char) -> bool {
    exists|d: nat| d < 16 && #[trigger] hex_char(d) == c
}

/// The value of one lowercase hexadecimal digit character; exactly the
/// sixteen digit characters have one.
fn hex_val(c: char) -> (r: Option<u8>)
    ensures
        r matches Some(d) ==> d < 16 && hex_char(d as nat) == c,
        r is None ==> !is_hex_digit_char(c),
{
    match c {
        '0' => Some(0),
        '1' => Some(1),
        '2' => Some(2),
        '3' => Some(3),
        '4' => Some(4),
        '5' => Some(5),
        '6' => Some(6),
        '7' => Some(7),
        '8' => Some(8),
        '9' => Some(9),
        'a' => Some(10),
        'b' => Some(11),
        'c' => Some(12),
        'd' => Some(13),
        'e' => Some(14),
        'f' => Some(15),
        _ => {
            proof {
                assert forall|d: nat| !(d < 16 && hex_char(d) == c) by {
                    if d < 16 && hex_char(d) == c {
                        assert(false);
                    }
                }
            }
            None
        },
    }
}

/// The value of one decimal digit character; exactly the ten digit
/// characters have one.
fn dec_val(c: char) -> (r: Option<u8>)
    ensures
        r matches Some(d) ==> d < 10 && digit_char(d as nat) == c,
        r is None ==> !is_dec_digit(c),
{
    match c {
        '0' => Some(0),
        '1' => Some(1),
        '2' => Some(2),
        '3' => Some(3),
        '4' => Some(4),
        '5' => Some(5),
        '6' => Some(6),
        '7' => Some(7),
        '8' => Some(8),
        '9' => Some(9),
        _ => None,
    }
}

/// Distinct decimal digit values draw distinct characters.
proof fn lemma_digit_char_injective(d1: nat, d2: nat)
    requires
        d1 < 10,
        d2 < 10,
        digit_char(d1) == digit_char(d2),
    ensures
        d1 == d2,
{
}

/// A decimal rendering of at most three digits, with its digit values,
/// for values up to 255.
proof fn lemma_dec_digits_small(m: nat)
    requires
        m < 1000,
    ensures
        m < 10 ==> dec_digits(m) =~= seq![digit_char(m)],
        10 <= m < 100 ==> dec_digits(m) =~= seq![digit_char(m / 10), digit_char(m % 10)],
        100 <= m ==> dec_digits(m) =~= seq![
            digit_char(m / 100),
            digit_char((m / 10) % 10),
            digit_char(m % 10),
        ],
{
    if m < 10 {
    } else if m < 100 {
        assert(m / 10 < 10);
        assert(dec_digits(m) == dec_digits(m / 10).push(digit_char(m % 10)));
        assert(dec_digits(m / 10) =~= seq![digit_char(m / 10)]);
    } else {
        assert(10 <= m / 10 < 100);
        assert(dec_digits(m) == dec_digits(m / 10).push(digit_char(m % 10)));
        assert(dec_digits(m / 10) == dec_digits(m / 100).push(digit_char((m / 10) % 10)));
        assert((m / 10) / 10 == m / 100) by (nonlinear_arith);
        assert(m / 100 < 10);
        assert(dec_digits(m / 100) =~= seq![digit_char(m / 100)]);
        assert(dec_digits(m) =~= seq![
            digit_char(m / 100),
            digit_char((m / 10) % 10),
            digit_char(m % 10),
        ]);
    }
}

/// Reads `count` hexadecimal digits into the accumulator `acc`, which
/// already holds `k` digits.
fn parse_hex_group(
    v: &Vec<char>,
    p: &mut usize,
    count: usize,
    acc: u128,
    Ghost(k): Ghost<nat>,
) -> (r: Result<u128, ()>)
    requires
        (acc as nat) < pow16(k),
        k + count <= 32,
    ensures
        r matches Ok(x) ==> (*final(p)) == (*old(p)) + count && (*final(p)) <= v@.len() && (x as nat)
            < pow16(k + count as nat) && hex_digits(x as nat, k + count as nat) == hex_digits(
            acc as nat,
            k,
        ) + v@.subrange((*old(p)) as int, (*final(p)) as int),
        (*old(p)) + count <= v@.len() && (forall|j: int|
            0 <= j < count ==> is_hex_digit_char(#[trigger] v@[(*old(p)) + j])) ==> r is Ok,
{
    let n = v.len();
    if *p > n || count > n - *p {
        return Err(());
    }
    let start = *p;
    let mut x: u128 = acc;
    let mut j: usize = 0;
    proof {
        lemma_hex_digits_len(acc as nat, k);
        assert(hex_digits(x as nat, k + 0) =~= hex_digits(acc as nat, k) + v@.subrange(
            start as int,
            start as int,
        ));
    }
    while j < count
        invariant
            n == v@.len(),
            start == *old(p),
            start + count <= n,
            0 <= j <= count,
            k + count <= 32,
            (x as nat) < pow16(k + j as nat),
            hex_digits(x as nat, k + j as nat) == hex_digits(acc as nat, k) + v@.subrange(
                start as int,
                start + j,
            ),
        decreases count - j,
    {
        let c = v[start + j];
        let d = match hex_val(c) {
            Some(d) => d,
            None => {
                proof {
                    assert(!is_hex_digit_char(v@[(*old(p)) + j]));
                }
                return Err(());
            },
        };
        proof {
            lemma_pow16_mono(k + j as nat, 31);
            lemma_pow16_32();
            assert(pow16((k + j + 1) as nat) == 16 * pow16(k + j as nat));
        }
        let ghost x_prev = x as nat;
        let x_next: u128 = x * 16 + (d as u128);
        proof {
            assert((x_next as nat) == 16 * x_prev + d);
            assert((x_next as nat) < pow16((k + j + 1) as nat)) by (nonlinear_arith)
                requires
                    (x_next as nat) == 16 * x_prev + d,
                    x_prev < pow16(k + j as nat),
                    d < 16,
                    pow16((k + j + 1) as nat) == 16 * pow16(k + j as nat),
            ;
            assert((x_next as nat) / 16 == x_prev && (x_next as nat) % 16 == d as nat)
                by (nonlinear_arith)
                requires
                    (x_next as nat) == 16 * x_prev + d,
                    d < 16,
            ;
            assert(hex_digits(x_next as nat, (k + j + 1) as nat) == hex_digits(
                x_prev,
                k + j as nat,
            ).push(hex_char(d as nat)));
            assert(v@.subrange(start as int, start + j + 1) =~= v@.subrange(
                start as int,
                start + j,
            ).push(c));
            lemma_hex_digits_len(acc as nat, k);
            assert(hex_digits(x_next as nat, (k + j + 1) as nat) =~= hex_digits(acc as nat, k)
                + v@.subrange(start as int, start + j + 1));
        }
        x = x_next;
        j = j + 1;
    }
    *p = start + count;
    Ok(x)
}

/// Every character of a fixed-width hexadecimal rendering is a digit
/// character.
proof fn lemma_hex_digits_are_hex(n: nat, k: nat)
    ensures
        forall|i: int|
            0 <= i < hex_digits(n, k).len() ==> is_hex_digit_char(#[trigger] hex_digits(n, k)[i]),
    decreases k,
{
    if k > 0 {
        lemma_hex_digits_are_hex(n / 16, (k - 1) as nat);
        lemma_hex_digits_len(n / 16, (k - 1) as nat);
        assert(n % 16 < 16 && hex_char(n % 16) == hex_digits(n, k).last());
        assert(is_hex_digit_char(hex_digits(n, k).last()));
        assert forall|i: int| 0 <= i < hex_digits(n, k).len() implies is_hex_digit_char(
            #[trigger] hex_digits(n, k)[i],
        ) by {
            if i < k - 1 {
                assert(hex_digits(n, k)[i] == hex_digits(n / 16, (k - 1) as nat)[i]);
            }
        }
    }
}

/// Which character stands at each position of an id's canonical text:
/// hyphens at the four fixed positions, hexadecimal digits elsewhere.
proof fn lemma_uuid_layout(x: u128)
    ensures
        uuid_text(x).len() == 36,
        forall|i: int|
            0 <= i < 36 && (i == 8 || i == 13 || i == 18 || i == 23) ==> #[trigger] uuid_text(
                x,
            )[i] == '-',
        forall|i: int|
            0 <= i < 36 && !(i == 8 || i == 13 || i == 18 || i == 23)
                ==> is_hex_digit_char(#[trigger] uuid_text(x)[i]),
{
    let h = hex_digits(x as nat, 32);
    lemma_hex_digits_len(x as nat, 32);
    lemma_hex_digits_are_hex(x as nat, 32);
    lemma_uuid_text_shape(x);
    assert forall|i: int|
        0 <= i < 36 && (i == 8 || i == 13 || i == 18 || i == 23) implies #[trigger] uuid_text(
        x,
    )[i] == '-' by {}
    assert forall|i: int|
        0 <= i < 36 && !(i == 8 || i == 13 || i == 18 || i == 23) implies is_hex_digit_char(
        #[trigger] uuid_text(x)[i],
    ) by {
        if i < 8 {
            assert(uuid_text(x)[i] == h.subrange(0, 8)[i]);
            assert(h.subrange(0, 8)[i] == h[i]);
        } else if i < 13 {
            assert(uuid_text(x)[i] == h[i - 1]);
        } else if i < 18 {
            assert(uuid_text(x)[i] == h[i - 2]);
        } else if i < 23 {
            assert(uuid_text(x)[i] == h[i - 3]);
        } else {
            assert(uuid_text(x)[i] == h[i - 4]);
        }
    }
}

/// What a stream that holds a canonical id at `start` must look like,
/// position by position.
proof fn lemma_id_hyp_facts(v: Seq<char>, start: int, x: u128, rest: Seq<char>)
    requires
        0 <= start <= v.len(),
        v.skip(start) == render_id(x) + rest,
    ensures
        start + 38 <= v.len(),
        v[start] == '"',
        v[start + 37] == '"',
        forall|i: int| 0 <= i < 36 ==> #[trigger] v[start + 1 + i] == uuid_text(x)[i],
{
    lemma_uuid_text_shape(x);
    assert(render_id(x).len() == 38);
    assert(v.skip(start).len() == v.len() - start);
    assert(v.len() - start >= 38);
    assert forall|m: int| 0 <= m < 38 implies v[start + m] == render_id(x)[m] by {
        assert(v.skip(start)[m] == v[start + m]);
        assert((render_id(x) + rest)[m] == render_id(x)[m]);
    }
    assert(render_id(x)[0] == '"');
    assert(render_id(x)[37] == '"');
    assert forall|i: int| 0 <= i < 36 implies #[trigger] v[start + 1 + i] == uuid_text(x)[i] by {
        assert(render_id(x)[1 + i] == uuid_text(x)[i]);
        assert(v[start + (1 + i)] == render_id(x)[1 + i]);
    }
}

/// Reads one quoted, hyphenated id. On success the consumed characters are
/// exactly the canonical rendering of the id; on a stream that holds a
/// canonical id the read succeeds.
#[verifier::rlimit(100)]
fn parse_id(v: &Vec<char>, p: &mut usize) -> (r: Result<ConnectionId, ()>)
    requires
        (*old(p)) <= v@.len(),
    ensures
        r matches Ok(id) ==> (*old(p)) < (*final(p)) && (*final(p)) <= v@.len() && v@.subrange(
            (*old(p)) as int,
            (*final(p)) as int,
        ) == render_id(id.0),
        forall|x: u128, rest: Seq<char>|
            v@.skip((*old(p)) as int) == #[trigger] (render_id(x) + rest) ==> r is Ok,
{
    let n = v.len();
    let start = *p;
    if start >= n || v[start] != '"' {
        proof {
            assert forall|x: u128, rest: Seq<char>|
                !(v@.skip(start as int) == #[trigger] (render_id(x) + rest)) by {
                if v@.skip(start as int) == render_id(x) + rest {
                    lemma_id_hyp_facts(v@, start as int, x, rest);
                    lemma_uuid_layout(x);
                    assert(start + 38 <= v@.len());
                    assert(false);
                }
            }
        }
        return Err(());
    }
    *p = start + 1;
    let x1 = match parse_hex_group(v, p, 8, 0, Ghost(0nat)) {
        Ok(x) => x,
        Err(()) => {
        proof {
            assert forall|x: u128, rest: Seq<char>|
                !(v@.skip(start as int) == #[trigger] (render_id(x) + rest)) by {
                if v@.skip(start as int) == render_id(x) + rest {
                    lemma_id_hyp_facts(v@, start as int, x, rest);
                    lemma_uuid_layout(x);
                    assert forall|j: int| 0 <= j < 8 implies is_hex_digit_char(
                        #[trigger] v@[start + 1 + j],
                    ) by {
                        assert(v@[start + 1 + (0 + j)] == uuid_text(x)[0 + j]);
                    }
                    assert(start + 1 + 8 <= v@.len());
                    assert(false);
                }
            }
        }
            return Err(());
        },
    };
    if *p >= n || v[*p] != '-' {
        proof {
            assert forall|x: u128, rest: Seq<char>|
                !(v@.skip(start as int) == #[trigger] (render_id(x) + rest)) by {
                if v@.skip(start as int) == render_id(x) + rest {
                    lemma_id_hyp_facts(v@, start as int, x, rest);
                    lemma_uuid_layout(x);
                    assert(v@[start + 1 + 8] == uuid_text(x)[8]);
                    assert(uuid_text(x)[8] == '-');
                    assert(*p == start + 9);
                    assert(start + 9 < v@.len());
                    assert(false);
                }
            }
        }
        return Err(());
    }
    let ghost h1: int = *p as int;
    *p = *p + 1;
    let x2 = match parse_hex_group(v, p, 4, x1, Ghost(8nat)) {
        Ok(x) => x,
        Err(()) => {
        proof {
            assert forall|x: u128, rest: Seq<char>|
                !(v@.skip(start as int) == #[trigger] (render_id(x) + rest)) by {
                if v@.skip(start as int) == render_id(x) + rest {
                    lemma_id_hyp_facts(v@, start as int, x, rest);
                    lemma_uuid_layout(x);
                    assert forall|j: int| 0 <= j < 4 implies is_hex_digit_char(
                        #[trigger] v@[start + 10 + j],
                    ) by {
                        assert(v@[start + 1 + (9 + j)] == uuid_text(x)[9 + j]);
                    }
                    assert(start + 10 + 4 <= v@.len());
                    assert(false);
                }
            }
        }
            return Err(());
        },
    };
    if *p >= n || v[*p] != '-' {
        proof {
            assert forall|x: u128, rest: Seq<char>|
                !(v@.skip(start as int) == #[trigger] (render_id(x) + rest)) by {
                if v@.skip(start as int) == render_id(x) + rest {
                    lemma_id_hyp_facts(v@, start as int, x, rest);
                    lemma_uuid_layout(x);
                    assert(v@[start + 1 + 13] == uuid_text(x)[13]);
                    assert(uuid_text(x)[13] == '-');
                    assert(*p == start + 14);
                    assert(start + 14 < v@.len());
                    assert(false);
                }
            }
        }
        return Err(());
    }
    let ghost h2: int = *p as int;
    *p = *p + 1;
    let x3 = match parse_hex_group(v, p, 4, x2, Ghost(12nat)) {
        Ok(x) => x,
        Err(()) => {
        proof {
            assert forall|x: u128, rest: Seq<char>|
                !(v@.skip(start as int) == #[trigger] (render_id(x) + rest)) by {
                if v@.skip(start as int) == render_id(x) + rest {
                    lemma_id_hyp_facts(v@, start as int, x, rest);
                    lemma_uuid_layout(x);
                    assert forall|j: int| 0 <= j < 4 implies is_hex_digit_char(
                        #[trigger] v@[start + 15 + j],
                    ) by {
                        assert(v@[start + 1 + (14 + j)] == uuid_text(x)[14 + j]);
                    }
                    assert(start + 15 + 4 <= v@.len());
                    assert(false);
                }
            }
        }
            return Err(());
        },
    };
    if *p >= n || v[*p] != '-' {
        proof {
            assert forall|x: u128, rest: Seq<char>|
                !(v@.skip(start as int) == #[trigger] (render_id(x) + rest)) by {
                if v@.skip(start as int) == render_id(x) + rest {
                    lemma_id_hyp_facts(v@, start as int, x, rest);
                    lemma_uuid_layout(x);
                    assert(v@[start + 1 + 18] == uuid_text(x)[18]);
                    assert(uuid_text(x)[18] == '-');
                    assert(*p == start + 19);
                    assert(start + 19 < v@.len());
                    assert(false);
                }
            }
        }
        return Err(());
    }
    let ghost h3: int = *p as int;
    *p = *p + 1;
    let x4 = match parse_hex_group(v, p, 4, x3, Ghost(16nat)) {
        Ok(x) => x,
        Err(()) => {
        proof {
            assert forall|x: u128, rest: Seq<char>|
                !(v@.skip(start as int) == #[trigger] (render_id(x) + rest)) by {
                if v@.skip(start as int) == render_id(x) + rest {
                    lemma_id_hyp_facts(v@, start as int, x, rest);
                    lemma_uuid_layout(x);
                    assert forall|j: int| 0 <= j < 4 implies is_hex_digit_char(
                        #[trigger] v@[start + 20 + j],
                    ) by {
                        assert(v@[start + 1 + (19 + j)] == uuid_text(x)[19 + j]);
                    }
                    assert(start + 20 + 4 <= v@.len());
                    assert(false);
                }
            }
        }
            return Err(());
        },
    };
    if *p >= n || v[*p] != '-' {
        proof {
            assert forall|x: u128, rest: Seq<char>|
                !(v@.skip(start as int) == #[trigger] (render_id(x) + rest)) by {
                if v@.skip(start as int) == render_id(x) + rest {
                    lemma_id_hyp_facts(v@, start as int, x, rest);
                    lemma_uuid_layout(x);
                    assert(v@[start + 1 + 23] == uuid_text(x)[23]);
                    assert(uuid_text(x)[23] == '-');
                    assert(*p == start + 24);
                    assert(start + 24 < v@.len());
                    assert(false);
                }
            }
        }
        return Err(());
    }
    let ghost h4: int = *p as int;
    *p = *p + 1;
    let x5 = match parse_hex_group(v, p, 12, x4, Ghost(20nat)) {
        Ok(x) => x,
        Err(()) => {
        proof {
            assert forall|x: u128, rest: Seq<char>|
                !(v@.skip(start as int) == #[trigger] (render_id(x) + rest)) by {
                if v@.skip(start as int) == render_id(x) + rest {
                    lemma_id_hyp_facts(v@, start as int, x, rest);
                    lemma_uuid_layout(x);
                    assert forall|j: int| 0 <= j < 12 implies is_hex_digit_char(
                        #[trigger] v@[start + 25 + j],
                    ) by {
                        assert(v@[start + 1 + (24 + j)] == uuid_text(x)[24 + j]);
                    }
                    assert(start + 25 + 12 <= v@.len());
                    assert(false);
                }
            }
        }
            return Err(());
        },
    };
    if *p >= n || v[*p] != '"' {
        proof {
            assert forall|x: u128, rest: Seq<char>|
                !(v@.skip(start as int) == #[trigger] (render_id(x) + rest)) by {
                if v@.skip(start as int) == render_id(x) + rest {
                    lemma_id_hyp_facts(v@, start as int, x, rest);
                    lemma_uuid_layout(x);
                    assert(*p == start + 37);
                    assert(start + 37 < v@.len());
                    assert(false);
                }
            }
        }
        return Err(());
    }
    let endq = *p;
    *p = endq + 1;
    proof {
        let h = hex_digits(x5 as nat, 32);
        lemma_hex_digits_len(x5 as nat, 32);
        assert(h == hex_digits(x4 as nat, 20) + v@.subrange(h4 + 1, endq as int));
        assert(hex_digits(x4 as nat, 20) == hex_digits(x3 as nat, 16) + v@.subrange(
            h3 + 1,
            h4 as int,
        ));
        assert(hex_digits(x3 as nat, 16) == hex_digits(x2 as nat, 12) + v@.subrange(
            h2 + 1,
            h3 as int,
        ));
        assert(hex_digits(x2 as nat, 12) == hex_digits(x1 as nat, 8) + v@.subrange(
            h1 + 1,
            h2 as int,
        ));
        assert(hex_digits(x1 as nat, 8) == hex_digits(0nat, 0nat) + v@.subrange(
            start + 1,
            h1 as int,
        ));
        lemma_hex_digits_len(x1 as nat, 8);
        lemma_hex_digits_len(x2 as nat, 12);
        lemma_hex_digits_len(x3 as nat, 16);
        lemma_hex_digits_len(x4 as nat, 20);
        assert(h.subrange(0, 8) =~= v@.subrange(start + 1, h1 as int));
        assert(h.subrange(8, 12) =~= v@.subrange(h1 + 1, h2 as int));
        assert(h.subrange(12, 16) =~= v@.subrange(h2 + 1, h3 as int));
        assert(h.subrange(16, 20) =~= v@.subrange(h3 + 1, h4 as int));
        assert(h.subrange(20, 32) =~= v@.subrange(h4 + 1, endq as int));
        assert(v@.subrange(start as int, endq + 1) =~= render_id(x5));
    }
    Ok(ConnectionId(x5))
}

/// Reads the password-length hint: `null` or a small decimal number. On
/// success the consumed characters are exactly its canonical rendering; on
/// a stream holding a canonical hint followed by a line break the read
/// succeeds.
#[verifier::rlimit(100)]
fn parse_opt_u8(v: &Vec<char>, p: &mut usize) -> (r: Result<Option<u8>, ()>)
    requires
        (*old(p)) <= v@.len(),
    ensures
        r matches Ok(l) ==> (*old(p)) <= (*final(p)) && (*final(p)) <= v@.len() && v@.subrange(
            (*old(p)) as int,
            (*final(p)) as int,
        ) == render_opt_u8(l),
        forall|l: Option<u8>, rest: Seq<char>|
            rest.len() > 0 && rest[0] == '\n' && v@.skip((*old(p)) as int) == #[trigger] (
            render_opt_u8(l) + rest) ==> r is Ok,
        r matches Ok(l) ==> (l is None || (l matches Some(m) && (m == 0 || m >= 100))
            || (*final(p)) == v@.len() || !is_dec_digit(v@[(*final(p)) as int])),
{
    proof {
        proof_decl_null_facts();
    }
    if peek_lit(v, *p, "null") {
        match expect_lit(v, p, "null") {
            Ok(()) => Ok(None),
            Err(()) => Err(()),
        }
    } else {
        let n = v.len();
        let start = *p;
        if start >= n {
            proof {
                reject_opt_u8(v@, start as int, n as int);
            }
            return Err(());
        }
        let d1 = match dec_val(v[start]) {
            Some(d) => d,
            None => {
                proof {
                    reject_opt_u8(v@, start as int, n as int);
                }
                return Err(());
            },
        };
        if d1 == 0 {
            *p = start + 1;
            proof {
                assert(v@.subrange(start as int, start + 1) =~= dec_digits(0));
            }
            return Ok(Some(0));
        }
        let more1 = start + 1 < n && dec_val(v[start + 1]).is_some();
        if !more1 {
            *p = start + 1;
            proof {
                assert(v@.subrange(start as int, start + 1) =~= dec_digits(d1 as nat));
            }
            return Ok(Some(d1));
        }
        let d2 = match dec_val(v[start + 1]) {
            Some(d) => d,
            None => {
                proof {
                    reject_opt_u8(v@, start as int, n as int);
                }
                return Err(());
            },
        };
        let n2: u8 = d1 * 10 + d2;
        proof {
            assert(n2 >= 10);
            assert((n2 as nat) / 10 == d1 as nat && (n2 as nat) % 10 == d2 as nat)
                by (nonlinear_arith)
                requires
                    n2 == d1 * 10 + d2,
                    d1 < 10,
                    d2 < 10,
            ;
            assert(dec_digits(n2 as nat) == dec_digits(d1 as nat).push(digit_char(d2 as nat)));
            assert(dec_digits(d1 as nat) == seq![digit_char(d1 as nat)]);
            assert(dec_digits(n2 as nat) =~= seq![
                digit_char(d1 as nat),
                digit_char(d2 as nat),
            ]);
        }
        let more2 = start + 2 < n && dec_val(v[start + 2]).is_some();
        if !more2 {
            *p = start + 2;
            proof {
                assert(v@.subrange(start as int, start + 2) =~= dec_digits(n2 as nat));
            }
            return Ok(Some(n2));
        }
        let d3 = match dec_val(v[start + 2]) {
            Some(d) => d,
            None => {
                proof {
                    reject_opt_u8(v@, start as int, n as int);
                }
                return Err(());
            },
        };
        let big: u32 = (n2 as u32) * 10 + (d3 as u32);
        if big > 255 {
            proof {
                assert forall|l: Option<u8>, rest: Seq<char>|
                    !(rest.len() > 0 && rest[0] == '\n' && v@.skip(start as int)
                        == #[trigger] (render_opt_u8(l) + rest)) by {
                    if rest.len() > 0 && rest[0] == '\n' && v@.skip(start as int)
                        == render_opt_u8(l) + rest {
                        opt_u8_stream_facts(v@, start as int, l, rest);
                        match l {
                            None => {
                                assert(v@[start as int] == 'n');
                                assert(is_dec_digit(digit_char(d1 as nat)));
                                assert(false);
                            },
                            Some(m) => {
                                lemma_dec_digits_small(m as nat);
                                lemma_dec_digits_min_len(m as nat);
                                if m < 10 {
                                    assert(v@[start + 1] == rest[0]);
                                    assert(!is_dec_digit('\n'));
                                    assert(false);
                                } else if m < 100 {
                                    assert(v@[start + 2] == rest[0]);
                                    assert(!is_dec_digit('\n'));
                                    assert(false);
                                } else {
                                    assert(v@[start + 0] == render_opt_u8(l)[0]);
                                    assert(render_opt_u8(l) == dec_digits(m as nat));
                                    assert(dec_digits(m as nat)[0] == digit_char(
                                        (m as nat) / 100,
                                    ));
                                    assert(v@[start + 1] == digit_char(((m as nat) / 10) % 10));
                                    assert(v@[start + 2] == digit_char((m as nat) % 10));
                                    assert(digit_char(d1 as nat) == v@[start + 0]);
                                    lemma_digit_char_injective(d1 as nat, (m as nat) / 100);
                                    lemma_digit_char_injective(d2 as nat, ((m as nat) / 10) % 10);
                                    lemma_digit_char_injective(d3 as nat, (m as nat) % 10);
                                    assert(((m as nat) / 10) / 10 == (m as nat) / 100)
                                        by (nonlinear_arith);
                                    assert((m as nat) / 10 == 10 * (((m as nat) / 10) / 10) + ((
                                    m as nat) / 10) % 10) by (nonlinear_arith);
                                    assert((m as nat) == 10 * ((m as nat) / 10) + (m as nat)
                                        % 10) by (nonlinear_arith);
                                    assert((big as nat) == m as nat);
                                    assert(false);
                                }
                            },
                        }
                    }
                }
            }
            return Err(());
        }
        let n3: u8 = big as u8;
        proof {
            assert((n3 as nat) / 10 == n2 as nat && (n3 as nat) % 10 == d3 as nat)
                by (nonlinear_arith)
                requires
                    (n3 as nat) == (n2 as nat) * 10 + d3,
                    d3 < 10,
            ;
            assert(n3 >= 100);
            assert(dec_digits(n3 as nat) == dec_digits(n2 as nat).push(digit_char(d3 as nat)));
            assert(dec_digits(n3 as nat) =~= seq![
                digit_char(d1 as nat),
                digit_char(d2 as nat),
                digit_char(d3 as nat),
            ]);
        }
        *p = start + 3;
        proof {
            assert(v@.subrange(start as int, start + 3) =~= dec_digits(n3 as nat));
        }
        Ok(Some(n3))
    }
}

/// What a stream that holds a canonical hint at `start` must look like.
proof fn opt_u8_stream_facts(v: Seq<char>, start: int, l: Option<u8>, rest: Seq<char>)
    requires
        0 <= start <= v.len(),
        rest.len() > 0,
        v.skip(start) == render_opt_u8(l) + rest,
    ensures
        start + render_opt_u8(l).len() + rest.len() == v.len(),
        forall|m: int|
            0 <= m < render_opt_u8(l).len() ==> #[trigger] v[start + m] == render_opt_u8(l)[m],
        v[start + render_opt_u8(l).len()] == rest[0],
        l is None ==> render_opt_u8(l).len() == 4 && v[start] == 'n',
        l is Some ==> render_opt_u8(l) == dec_digits(l.unwrap() as nat),
{
    proof_decl_null_facts();
    assert(v.skip(start).len() == v.len() - start);
    assert forall|m: int| 0 <= m < render_opt_u8(l).len() implies #[trigger] v[start + m]
        == render_opt_u8(l)[m] by {
        assert(v.skip(start)[m] == v[start + m]);
        assert((render_opt_u8(l) + rest)[m] == render_opt_u8(l)[m]);
    }
    let w = render_opt_u8(l).len() as int;
    assert(v.skip(start)[w] == v[start + w]);
    assert((render_opt_u8(l) + rest)[w] == rest[0]);
    if l is None {
        assert(render_opt_u8(l) == "null"@);
        assert(v[start + 0] == render_opt_u8(l)[0]);
    }
}

/// At a position where the hint reader gives up before reading any digit
/// count, no canonical hint can sit on the stream.
proof fn reject_opt_u8(v: Seq<char>, start: int, n: int)
    requires
        n == v.len(),
        0 <= start <= n,
        start < n ==> !is_dec_digit(v[start]) && !(start + 4 <= n && v.subrange(start, start + 4)
            == "null"@),
        start < n && is_dec_digit(v[start]) ==> false,
    ensures
        forall|l: Option<u8>, rest: Seq<char>|
            !(rest.len() > 0 && rest[0] == '\n' && v.skip(start) == #[trigger] (render_opt_u8(l)
                + rest)),
{
    proof_decl_null_facts();
    assert forall|l: Option<u8>, rest: Seq<char>|
        !(rest.len() > 0 && rest[0] == '\n' && v.skip(start) == #[trigger] (render_opt_u8(l)
            + rest)) by {
        if rest.len() > 0 && rest[0] == '\n' && v.skip(start) == render_opt_u8(l) + rest {
            opt_u8_stream_facts(v, start, l, rest);
            match l {
                None => {
                    assert(start + 4 <= n);
                    assert(v.subrange(start, start + 4) =~= "null"@);
                    assert(start < n);
                    assert(false);
                },
                Some(m) => {
                    lemma_dec_digits_min_len(m as nat);
                    lemma_dec_digits_are_digits(m as nat);
                    assert(v[start + 0] == dec_digits(m as nat)[0]);
                    assert(is_dec_digit(v[start]));
                    assert(start < n);
                    assert(false);
                },
            }
        }
    }
}

/// Reads a boolean; on a stream holding one the read succeeds.
fn parse_bool(v: &Vec<char>, p: &mut usize) -> (r: Result<bool, ()>)
    ensures
        r matches Ok(b) ==> (*old(p)) <= (*final(p)) && (*final(p)) <= v@.len() && v@.subrange(
            (*old(p)) as int,
            (*final(p)) as int,
        ) == render_bool(b),
        forall|b: bool|
            (*old(p)) + (#[trigger] render_bool(b)).len() <= v@.len() && v@.subrange(
                (*old(p)) as int,
                (*old(p)) + render_bool(b).len(),
            ) == render_bool(b) ==> r is Ok,
{
    proof {
        reveal_strlit("true");
        reveal_strlit("false");
    }
    if peek_lit(v, *p, "true") {
        match expect_lit(v, p, "true") {
            Ok(()) => Ok(true),
            Err(()) => Err(()),
        }
    } else {
        let r = expect_lit(v, p, "false");
        proof {
            if r is Err {
                assert forall|b: bool|
                    !((*old(p)) + render_bool(b).len() <= v@.len() && v@.subrange(
                        (*old(p)) as int,
                        (*old(p)) + render_bool(b).len(),
                    ) == render_bool(b)) by {}
            }
        }
        match r {
            Ok(()) => Ok(false),
            Err(()) => Err(()),
        }
    }
}

/// Reads the quoted backend tag; on a stream holding a canonical tag the
/// read succeeds.
fn parse_db_type(v: &Vec<char>, p: &mut usize) -> (r: Result<DatabaseType, ()>)
    ensures
        r matches Ok(t) ==> (*old(p)) <= (*final(p)) && (*final(p)) <= v@.len() && v@.subrange(
            (*old(p)) as int,
            (*final(p)) as int,
        ) == render_db_type(t),
        forall|t: DatabaseType|
            (*old(p)) + (#[trigger] render_db_type(t)).len() <= v@.len() && v@.subrange(
                (*old(p)) as int,
                (*old(p)) + render_db_type(t).len(),
            ) == render_db_type(t) ==> r is Ok,
{
    proof {
        reveal_strlit("\"Postgre\"");
        reveal_strlit("Postgre");
        reveal_strlit("\"MySql\"");
        reveal_strlit("MySql");
        reveal_strlit("\"Sqlite\"");
        reveal_strlit("Sqlite");
        reveal_strlit("\"MariaDB\"");
        reveal_strlit("MariaDB");
        reveal_strlit("\"Oracle\"");
        reveal_strlit("Oracle");
        reveal_strlit("\"Redis\"");
        reveal_strlit("Redis");
        reveal_strlit("\"MongoDB\"");
        reveal_strlit("MongoDB");
        reveal_strlit("\"MicrosoftSQLServer\"");
        reveal_strlit("MicrosoftSQLServer");
        assert("\"Postgre\""@ =~= render_db_type(DatabaseType::Postgre));
        assert("\"MySql\""@ =~= render_db_type(DatabaseType::MySql));
        assert("\"Sqlite\""@ =~= render_db_type(DatabaseType::Sqlite));
        assert("\"MariaDB\""@ =~= render_db_type(DatabaseType::MariaDB));
        assert("\"Oracle\""@ =~= render_db_type(DatabaseType::Oracle));
        assert("\"Redis\""@ =~= render_db_type(DatabaseType::Redis));
        assert("\"MongoDB\""@ =~= render_db_type(DatabaseType::MongoDB));
        assert("\"MicrosoftSQLServer\""@ =~= render_db_type(DatabaseType::MicrosoftSQLServer));
    }
    if peek_lit(v, *p, "\"Postgre\"") {
        let r = expect_lit(v, p, "\"Postgre\"");
        match r {
            Ok(()) => Ok(DatabaseType::Postgre),
            Err(()) => Err(()),
        }
    } else if peek_lit(v, *p, "\"MySql\"") {
        let r = expect_lit(v, p, "\"MySql\"");
        match r {
            Ok(()) => Ok(DatabaseType::MySql),
            Err(()) => Err(()),
        }
    } else if peek_lit(v, *p, "\"Sqlite\"") {
        let r = expect_lit(v, p, "\"Sqlite\"");
        match r {
            Ok(()) => Ok(DatabaseType::Sqlite),
            Err(()) => Err(()),
        }
    } else if peek_lit(v, *p, "\"MariaDB\"") {
        let r = expect_lit(v, p, "\"MariaDB\"");
        match r {
            Ok(()) => Ok(DatabaseType::MariaDB),
            Err(()) => Err(()),
        }
    } else if peek_lit(v, *p, "\"Oracle\"") {
        let r = expect_lit(v, p, "\"Oracle\"");
        match r {
            Ok(()) => Ok(DatabaseType::Oracle),
            Err(()) => Err(()),
        }
    } else if peek_lit(v, *p, "\"Redis\"") {
        let r = expect_lit(v, p, "\"Redis\"");
        match r {
            Ok(()) => Ok(DatabaseType::Redis),
            Err(()) => Err(()),
        }
    } else if peek_lit(v, *p, "\"MongoDB\"") {
        let r = expect_lit(v, p, "\"MongoDB\"");
        match r {
            Ok(()) => Ok(DatabaseType::MongoDB),
            Err(()) => Err(()),
        }
    } else {
        let r = expect_lit(v, p, "\"MicrosoftSQLServer\"");
        proof {
            if r is Err {
                assert forall|tt: DatabaseType|
                    !((*old(p)) + render_db_type(tt).len() <= v@.len() && v@.subrange(
                        (*old(p)) as int,
                        (*old(p)) + render_db_type(tt).len(),
                    ) == render_db_type(tt)) by {}
            }
        }
        match r {
            Ok(()) => Ok(DatabaseType::MicrosoftSQLServer),
            Err(()) => Err(()),
        }
    }
}

/// Dropping a concatenation's first part leaves its second.
proof fn lemma_skip_concat(a: Seq<char>, b: Seq<char>)
    ensures
        (a + b).len() == a.len() + b.len(),
        (a + b).skip(a.len() as int) == b,
{
    assert((a + b).skip(a.len() as int) =~= b);
}

/// Skipping in two steps is skipping once.
proof fn lemma_skip_skip(s: Seq<char>, i: int, j: int)
    requires
        0 <= i,
        0 <= j,
        i + j <= s.len(),
    ensures
        s.skip(i).skip(j) == s.skip(i + j),
{
    assert(s.skip(i).skip(j) =~= s.skip(i + j));
}


/// Reads the endpoint object; on a stream holding a canonical endpoint
/// with carryable text fields the read succeeds.
#[verifier::rlimit(100)]
#[verifier::spinoff_prover]
fn parse_endpoint(v: &Vec<char>, p: &mut usize) -> (r: Result<Endpoint, ()>)
    requires
        (*old(p)) <= v@.len(),
    ensures
        r matches Ok(e) ==> (*old(p)) <= (*final(p)) && (*final(p)) <= v@.len() && v@.subrange(
            (*old(p)) as int,
            (*final(p)) as int,
        ) == render_endpoint(e@) && wf_endpoint(e@),
        forall|em: EndpointModel, rest: Seq<char>|
            wf_endpoint(em) && v@.skip((*old(p)) as int) == #[trigger] (render_endpoint(em)
                + rest) ==> r is Ok,
{
    let ghost p0: int = *p as int;
    proof {
        reveal_strlit("{\n        \"Tcp\": [\n          ");
        reveal_strlit("{\n        \"Unix\": ");
    }
    if peek_lit(v, *p, "{\n        \"Tcp\": [\n          ") {
        if expect_lit(v, p, "{\n        \"Tcp\": [\n          ").is_err() {
            return Err(());
        }
        let ghost p1: int = *p as int;
        let host_r = parse_string(v, p);
        proof {
            if host_r is Err {
                assert forall|em: EndpointModel, rest: Seq<char>|
                    !(wf_endpoint(em) && v@.skip(p0) == #[trigger] (render_endpoint(em)
                        + rest)) by {
                    if wf_endpoint(em) && v@.skip(p0) == render_endpoint(em) + rest {
                        match em {
                            EndpointModel::Tcp(host, port) => {
                                lemma_endpoint_hyp_tcp(v@, p0, em, rest);
                                let lit1 = "{\n        \"Tcp\": [\n          "@;
                                let lit2 = ",\n          "@;
                                let lit3 = "\n        ]\n      }"@;
                                assert(p1 == p0 + lit1.len());
                                assert(v@.skip(p1) == render_string(host) + (lit2 + (
                                render_string(port) + (lit3 + rest))));
                                assert(false);
                            },
                            EndpointModel::Unix(path) => {
                                let lit1u = "{\n        \"Unix\": "@;
                                let tailu = render_string(path) + ("\n      }"@ + rest);
                                assert(render_endpoint(em) + rest =~= lit1u + tailu);
                                assert(v@.skip(p0)[11] == v@[p0 + 11]);
                                assert((lit1u + tailu)[11] == 'U');
                                assert(v@.subrange(p0, p1)[11] == v@[p0 + 11]);
                                assert("{\n        \"Tcp\": [\n          "@[11] == 'T');
                                assert(false);
                            },
                        }
                    }
                }
            }
        }
        let host_s = match host_r {
            Ok(s) => s,
            Err(()) => {
                return Err(());
            },
        };
        let ghost p2: int = *p as int;
        let sep_r = expect_lit(v, p, ",\n          ");
        proof {
            if sep_r is Err {
                assert forall|em: EndpointModel, rest: Seq<char>|
                    !(wf_endpoint(em) && v@.skip(p0) == #[trigger] (render_endpoint(em)
                        + rest)) by {
                    if wf_endpoint(em) && v@.skip(p0) == render_endpoint(em) + rest {
                        match em {
                            EndpointModel::Tcp(host, port) => {
                                lemma_endpoint_hyp_tcp(v@, p0, em, rest);
                                let lit1 = "{\n        \"Tcp\": [\n          "@;
                                let lit2 = ",\n          "@;
                                let lit3 = "\n        ]\n      }"@;
                                assert(p1 == p0 + lit1.len());
                                assert(v@.skip(p1) == render_string(host) + (lit2 + (
                                render_string(port) + (lit3 + rest))));
                                assert(v@.skip(p1) =~= v@.subrange(p1, p2) + v@.skip(p2));
                                lemma_string_prefix(
                                    host_s@,
                                    host,
                                    v@.skip(p2),
                                    lit2 + (render_string(port) + (lit3 + rest)),
                                );
                                lemma_skip_concat(lit2, render_string(port) + (lit3 + rest));
                                assert(v@.skip(p2).len() == v@.len() - p2);
                                assert(p2 + lit2.len() <= v@.len());
                                assert forall|m: int| 0 <= m < lit2.len() implies v@.subrange(
                                    p2,
                                    p2 + lit2.len(),
                                )[m] == lit2[m] by {
                                    assert(v@.skip(p2)[m] == v@[p2 + m]);
                                    assert((lit2 + (render_string(port) + (lit3 + rest)))[m] == lit2[m]);
                                    assert(v@.subrange(p2, p2 + lit2.len())[m] == v@[p2
                                        + m]);
                                }
                                assert(v@.subrange(p2, p2 + lit2.len()) =~= lit2);
                                assert(false);
                            },
                            EndpointModel::Unix(path) => {
                                let lit1u = "{\n        \"Unix\": "@;
                                let tailu = render_string(path) + ("\n      }"@ + rest);
                                assert(render_endpoint(em) + rest =~= lit1u + tailu);
                                assert(v@.skip(p0)[11] == v@[p0 + 11]);
                                assert((lit1u + tailu)[11] == 'U');
                                assert(v@.subrange(p0, p1)[11] == v@[p0 + 11]);
                                assert("{\n        \"Tcp\": [\n          "@[11] == 'T');
                                assert(false);
                            },
                        }
                    }
                }
            }
        }
        if sep_r.is_err() {
            return Err(());
        }
        let ghost p3: int = *p as int;
        let port_r = parse_string(v, p);
        proof {
            if port_r is Err {
                assert forall|em: EndpointModel, rest: Seq<char>|
                    !(wf_endpoint(em) && v@.skip(p0) == #[trigger] (render_endpoint(em)
                        + rest)) by {
                    if wf_endpoint(em) && v@.skip(p0) == render_endpoint(em) + rest {
                        match em {
                            EndpointModel::Tcp(host, port) => {
                                lemma_endpoint_hyp_tcp(v@, p0, em, rest);
                                let lit1 = "{\n        \"Tcp\": [\n          "@;
                                let lit2 = ",\n          "@;
                                let lit3 = "\n        ]\n      }"@;
                                assert(p1 == p0 + lit1.len());
                                assert(v@.skip(p1) == render_string(host) + (lit2 + (
                                render_string(port) + (lit3 + rest))));
                                assert(v@.skip(p1) =~= v@.subrange(p1, p2) + v@.skip(p2));
                                lemma_string_prefix(
                                    host_s@,
                                    host,
                                    v@.skip(p2),
                                    lit2 + (render_string(port) + (lit3 + rest)),
                                );
                                assert(v@.skip(p2) =~= v@.subrange(p2, p3) + v@.skip(p3));
                                lemma_peel(lit2, v@.skip(p3), render_string(port) + (lit3
                                    + rest));
                                assert(false);
                            },
                            EndpointModel::Unix(path) => {
                                let lit1u = "{\n        \"Unix\": "@;
                                let tailu = render_string(path) + ("\n      }"@ + rest);
                                assert(render_endpoint(em) + rest =~= lit1u + tailu);
                                assert(v@.skip(p0)[11] == v@[p0 + 11]);
                                assert((lit1u + tailu)[11] == 'U');
                                assert(v@.subrange(p0, p1)[11] == v@[p0 + 11]);
                                assert("{\n        \"Tcp\": [\n          "@[11] == 'T');
                                assert(false);
                            },
                        }
                    }
                }
            }
        }
        let port_s = match port_r {
            Ok(s) => s,
            Err(()) => {
                return Err(());
            },
        };
        let ghost p4: int = *p as int;
        let close_r = expect_lit(v, p, "\n        ]\n      }");
        proof {
            if close_r is Err {
                assert forall|em: EndpointModel, rest: Seq<char>|
                    !(wf_endpoint(em) && v@.skip(p0) == #[trigger] (render_endpoint(em)
                        + rest)) by {
                    if wf_endpoint(em) && v@.skip(p0) == render_endpoint(em) + rest {
                        match em {
                            EndpointModel::Tcp(host, port) => {
                                lemma_endpoint_hyp_tcp(v@, p0, em, rest);
                                let lit1 = "{\n        \"Tcp\": [\n          "@;
                                let lit2 = ",\n          "@;
                                let lit3 = "\n        ]\n      }"@;
                                assert(p1 == p0 + lit1.len());
                                assert(v@.skip(p1) == render_string(host) + (lit2 + (
                                render_string(port) + (lit3 + rest))));
                                assert(v@.skip(p1) =~= v@.subrange(p1, p2) + v@.skip(p2));
                                lemma_string_prefix(
                                    host_s@,
                                    host,
                                    v@.skip(p2),
                                    lit2 + (render_string(port) + (lit3 + rest)),
                                );
                                assert(v@.skip(p2) =~= v@.subrange(p2, p3) + v@.skip(p3));
                                lemma_peel(lit2, v@.skip(p3), render_string(port) + (lit3
                                    + rest));
                                assert(v@.skip(p3) =~= v@.subrange(p3, p4) + v@.skip(p4));
                                lemma_string_prefix(port_s@, port, v@.skip(p4), lit3 + rest);
                                lemma_skip_concat(lit3, rest);
                                assert(v@.skip(p4).len() == v@.len() - p4);
                                assert(p4 + lit3.len() <= v@.len());
                                assert forall|m: int| 0 <= m < lit3.len() implies v@.subrange(
                                    p4,
                                    p4 + lit3.len(),
                                )[m] == lit3[m] by {
                                    assert(v@.skip(p4)[m] == v@[p4 + m]);
                                    assert((lit3 + (rest))[m] == lit3[m]);
                                    assert(v@.subrange(p4, p4 + lit3.len())[m] == v@[p4
                                        + m]);
                                }
                                assert(v@.subrange(p4, p4 + lit3.len()) =~= lit3);
                                assert(false);
                            },
                            EndpointModel::Unix(path) => {
                                let lit1u = "{\n        \"Unix\": "@;
                                let tailu = render_string(path) + ("\n      }"@ + rest);
                                assert(render_endpoint(em) + rest =~= lit1u + tailu);
                                assert(v@.skip(p0)[11] == v@[p0 + 11]);
                                assert((lit1u + tailu)[11] == 'U');
                                assert(v@.subrange(p0, p1)[11] == v@[p0 + 11]);
                                assert("{\n        \"Tcp\": [\n          "@[11] == 'T');
                                assert(false);
                            },
                        }
                    }
                }
            }
        }
        if close_r.is_err() {
            return Err(());
        }
        let ep = Endpoint::Tcp(host_s, port_s);
        proof {
            assert(v@.subrange(p0, *p as int) =~= v@.subrange(p0, p1) + v@.subrange(p1, p2)
                + v@.subrange(p2, p3) + v@.subrange(p3, p4) + v@.subrange(p4, *p as int));
            assert(v@.subrange(p0, *p as int) == render_endpoint(ep@));
        }
        Ok(ep)
    } else {
        let open_r = expect_lit(v, p, "{\n        \"Unix\": ");
        proof {
            if open_r is Err {
                assert forall|em: EndpointModel, rest: Seq<char>|
                    !(wf_endpoint(em) && v@.skip(p0) == #[trigger] (render_endpoint(em)
                        + rest)) by {
                    if wf_endpoint(em) && v@.skip(p0) == render_endpoint(em) + rest {
                        match em {
                            EndpointModel::Tcp(host, port) => {
                                lemma_endpoint_hyp_tcp(v@, p0, em, rest);
                                assert(false);
                            },
                            EndpointModel::Unix(path) => {
                                let lit1 = "{\n        \"Unix\": "@;
                                let lit3 = "\n      }"@;
                                let tail = render_string(path) + (lit3 + rest);
                                assert(render_endpoint(em) + rest =~= lit1 + tail);
                                lemma_skip_concat(lit1, tail);
                                assert(v@.skip(p0).len() == v@.len() - p0);
                                assert(p0 + lit1.len() <= v@.len());
                                assert forall|m: int| 0 <= m < lit1.len() implies v@.subrange(
                                    p0,
                                    p0 + lit1.len(),
                                )[m] == lit1[m] by {
                                    assert(v@.skip(p0)[m] == v@[p0 + m]);
                                    assert((lit1 + tail)[m] == lit1[m]);
                                    assert(v@.subrange(p0, p0 + lit1.len())[m] == v@[p0 + m]);
                                }
                                assert(v@.subrange(p0, p0 + lit1.len()) =~= lit1);
                                assert(false);
                            },
                        }
                    }
                }
            }
        }
        if open_r.is_err() {
            return Err(());
        }
        let ghost p1: int = *p as int;
        let path_r = parse_string(v, p);
        proof {
            if path_r is Err {
                assert forall|em: EndpointModel, rest: Seq<char>|
                    !(wf_endpoint(em) && v@.skip(p0) == #[trigger] (render_endpoint(em)
                        + rest)) by {
                    if wf_endpoint(em) && v@.skip(p0) == render_endpoint(em) + rest {
                        match em {
                            EndpointModel::Tcp(host, port) => {
                                lemma_endpoint_hyp_tcp(v@, p0, em, rest);
                                assert(false);
                            },
                            EndpointModel::Unix(path) => {
                                let lit1 = "{\n        \"Unix\": "@;
                                let lit3 = "\n      }"@;
                                let tail = render_string(path) + (lit3 + rest);
                                assert(render_endpoint(em) + rest =~= lit1 + tail);
                                lemma_skip_concat(lit1, tail);
                                assert(v@.skip(p0).len() == v@.len() - p0);
                                assert(p0 + lit1.len() <= v@.len());
                                assert forall|m: int| 0 <= m < lit1.len() implies v@.subrange(
                                    p0,
                                    p0 + lit1.len(),
                                )[m] == lit1[m] by {
                                    assert(v@.skip(p0)[m] == v@[p0 + m]);
                                    assert((lit1 + tail)[m] == lit1[m]);
                                    assert(v@.subrange(p0, p0 + lit1.len())[m] == v@[p0 + m]);
                                }
                                assert(v@.subrange(p0, p0 + lit1.len()) =~= lit1);
                                assert(p1 == p0 + lit1.len());
                                lemma_skip_skip(v@, p0, lit1.len() as int);
                                assert(v@.skip(p0).skip(lit1.len() as int) == (lit1
                                    + tail).skip(lit1.len() as int));
                                assert(v@.skip(p1) == tail);
                                assert(false);
                            },
                        }
                    }
                }
            }
        }
        let path_s = match path_r {
            Ok(s) => s,
            Err(()) => {
                return Err(());
            },
        };
        let ghost p2: int = *p as int;
        let close_r = expect_lit(v, p, "\n      }");
        proof {
            if close_r is Err {
                assert forall|em: EndpointModel, rest: Seq<char>|
                    !(wf_endpoint(em) && v@.skip(p0) == #[trigger] (render_endpoint(em)
                        + rest)) by {
                    if wf_endpoint(em) && v@.skip(p0) == render_endpoint(em) + rest {
                        match em {
                            EndpointModel::Tcp(host, port) => {
                                lemma_endpoint_hyp_tcp(v@, p0, em, rest);
                                assert(false);
                            },
                            EndpointModel::Unix(path) => {
                                let lit1 = "{\n        \"Unix\": "@;
                                let lit3 = "\n      }"@;
                                let tail = render_string(path) + (lit3 + rest);
                                assert(render_endpoint(em) + rest =~= lit1 + tail);
                                lemma_skip_concat(lit1, tail);
                                assert(v@.skip(p0).len() == v@.len() - p0);
                                assert(p0 + lit1.len() <= v@.len());
                                assert forall|m: int| 0 <= m < lit1.len() implies v@.subrange(
                                    p0,
                                    p0 + lit1.len(),
                                )[m] == lit1[m] by {
                                    assert(v@.skip(p0)[m] == v@[p0 + m]);
                                    assert((lit1 + tail)[m] == lit1[m]);
                                    assert(v@.subrange(p0, p0 + lit1.len())[m] == v@[p0 + m]);
                                }
                                assert(v@.subrange(p0, p0 + lit1.len()) =~= lit1);
                                assert(p1 == p0 + lit1.len());
                                lemma_skip_skip(v@, p0, lit1.len() as int);
                                assert(v@.skip(p0).skip(lit1.len() as int) == (lit1
                                    + tail).skip(lit1.len() as int));
                                assert(v@.skip(p1) == tail);
                                assert(v@.skip(p1) =~= v@.subrange(p1, p2) + v@.skip(p2));
                                lemma_string_prefix(path_s@, path, v@.skip(p2), lit3 + rest);
                                lemma_skip_concat(lit3, rest);
                                assert(v@.skip(p2).len() == v@.len() - p2);
                                assert(p2 + lit3.len() <= v@.len());
                                assert forall|m: int| 0 <= m < lit3.len() implies v@.subrange(
                                    p2,
                                    p2 + lit3.len(),
                                )[m] == lit3[m] by {
                                    assert(v@.skip(p2)[m] == v@[p2 + m]);
                                    assert((lit3 + (rest))[m] == lit3[m]);
                                    assert(v@.subrange(p2, p2 + lit3.len())[m] == v@[p2
                                        + m]);
                                }
                                assert(v@.subrange(p2, p2 + lit3.len()) =~= lit3);
                                assert(false);
                            },
                        }
                    }
                }
            }
        }
        if close_r.is_err() {
            return Err(());
        }
        let ep = Endpoint::Unix(path_s);
        proof {
            assert(v@.subrange(p0, *p as int) =~= v@.subrange(p0, p1) + v@.subrange(p1, p2)
                + v@.subrange(p2, *p as int));
            assert(v@.subrange(p0, *p as int) == render_endpoint(ep@));
        }
        Ok(ep)
    }
}

/// What a stream that holds a canonical TCP endpoint at `p0` must look
/// like: the opening literal, then host, separator, port and close.
proof fn lemma_endpoint_hyp_tcp(v: Seq<char>, p0: int, em: EndpointModel, rest: Seq<char>)
    requires
        0 <= p0 <= v.len(),
        wf_endpoint(em),
        v.skip(p0) == render_endpoint(em) + rest,
        em is Tcp,
    ensures
        ({
            let lit1 = "{\n        \"Tcp\": [\n          "@;
            let host = em->Tcp_0;
            let port = em->Tcp_1;
            &&& p0 + lit1.len() <= v.len()
            &&& v.subrange(p0, p0 + lit1.len()) == lit1
            &&& v.skip(p0 + lit1.len()) == render_string(host) + (",\n          "@ + (
            render_string(port) + ("\n        ]\n      }"@ + rest)))
        }),
{
    let lit1 = "{\n        \"Tcp\": [\n          "@;
    let lit2 = ",\n          "@;
    let lit3 = "\n        ]\n      }"@;
    let host = em->Tcp_0;
    let port = em->Tcp_1;
    let tail = render_string(host) + (lit2 + (render_string(port) + (lit3 + rest)));
    assert(render_endpoint(em) + rest =~= lit1 + tail);
    lemma_skip_concat(lit1, tail);
    assert(v.skip(p0).len() == v.len() - p0);
    assert(p0 + lit1.len() <= v.len());
    assert forall|m: int| 0 <= m < lit1.len() implies v.subrange(p0, p0 + lit1.len())[m]
        == lit1[m] by {
        assert(v.skip(p0)[m] == v[p0 + m]);
        assert((lit1 + tail)[m] == lit1[m]);
        assert(v.subrange(p0, p0 + lit1.len())[m] == v[p0 + m]);
    }
    assert(v.subrange(p0, p0 + lit1.len()) =~= lit1);
    lemma_skip_skip(v, p0, lit1.len() as int);
    assert(v.skip(p0).skip(lit1.len() as int) == v.skip(p0 + lit1.len()));
    assert(v.skip(p0).skip(lit1.len() as int) == (lit1 + tail).skip(lit1.len() as int));
    assert(v.skip(p0 + lit1.len()) == tail);
}

/// Leading digits of multi-digit numbers are never zero.
proof fn lemma_dec_leading_digit(m: nat)
    requires
        10 <= m < 1000,
    ensures
        dec_digits(m)[0] != '0',
{
    lemma_dec_digits_small(m);
    if m < 100 {
        assert(1 <= m / 10 < 10);
        if digit_char(m / 10) == '0' {
            lemma_digit_char_injective(m / 10, 0);
            assert(false);
        }
    } else {
        assert(1 <= m / 100 < 10);
        if digit_char(m / 100) == '0' {
            lemma_digit_char_injective(m / 100, 0);
            assert(false);
        }
    }
}

/// Hint renderings never hold a line break.
proof fn lemma_opt_u8_newline_free(l: Option<u8>)
    ensures
        forall|i: int|
            0 <= i < render_opt_u8(l).len() ==> #[trigger] render_opt_u8(l)[i] != '\n',
{
    proof_decl_null_facts();
    reveal_strlit("null");
    match l {
        None => {
            assert forall|i: int|
                0 <= i < render_opt_u8(l).len() implies #[trigger] render_opt_u8(l)[i]
                != '\n' by {
                assert(render_opt_u8(l) == "null"@);
            }
        },
        Some(m) => {
            lemma_dec_digits_are_digits(m as nat);
            assert forall|i: int|
                0 <= i < render_opt_u8(l).len() implies #[trigger] render_opt_u8(l)[i]
                != '\n' by {
                assert(is_dec_digit(render_opt_u8(l)[i]));
            }
        },
    }
}

/// A hint the reader consumed from a canonical stream is that stream's
/// hint, and the closing line follows.
proof fn lemma_opt_align(
    v: Seq<char>,
    pa: int,
    pb: int,
    spl: Option<u8>,
    want: Option<u8>,
    close_rest: Seq<char>,
)
    requires
        0 <= pa <= pb <= v.len(),
        v.subrange(pa, pb) == render_opt_u8(spl),
        v.skip(pa) == render_opt_u8(want) + close_rest,
        close_rest.len() > 0,
        close_rest[0] == '\n',
        spl is None || (spl matches Some(m) && (m == 0 || m >= 100)) || pb == v.len()
            || !is_dec_digit(v[pb]),
    ensures
        spl == want,
        v.skip(pb) == close_rest,
{
    proof_decl_null_facts();
    reveal_strlit("null");
    let a = render_opt_u8(spl);
    let b = render_opt_u8(want);
    lemma_opt_u8_newline_free(spl);
    lemma_opt_u8_newline_free(want);
    assert(v.skip(pa) =~= v.subrange(pa, pb) + v.skip(pb));
    assert(a + v.skip(pb) == b + close_rest);
    match (spl, want) {
        (None, None) => {
            lemma_peel("null"@, v.skip(pb), close_rest);
        },
        (None, Some(m)) => {
            lemma_dec_digits_are_digits(m as nat);
            lemma_dec_digits_min_len(m as nat);
            assert((a + v.skip(pb))[0] == 'n');
            assert((b + close_rest)[0] == b[0]);
            assert(is_dec_digit(b[0]));
            assert(false);
        },
        (Some(m), None) => {
            lemma_dec_digits_are_digits(m as nat);
            lemma_dec_digits_min_len(m as nat);
            assert((b + close_rest)[0] == 'n');
            assert((a + v.skip(pb))[0] == a[0]);
            assert(is_dec_digit(a[0]));
            assert(false);
        },
        (Some(ma), Some(mb)) => {
            lemma_dec_digits_are_digits(ma as nat);
            lemma_dec_digits_are_digits(mb as nat);
            lemma_dec_digits_min_len(ma as nat);
            lemma_dec_digits_min_len(mb as nat);
            lemma_dec_digits_small(ma as nat);
            lemma_dec_digits_small(mb as nat);
            if a.len() < b.len() {
                assert((a + v.skip(pb)).len() == a.len() + (v.len() - pb));
                assert((b + close_rest).len() == b.len() + close_rest.len());
                assert(v.len() - pb >= 1 + close_rest.len());
                assert(pb < v.len());
                assert((a + v.skip(pb))[a.len() as int] == v.skip(pb)[0]);
                assert(v.skip(pb)[0] == v[pb]);
                assert((b + close_rest)[a.len() as int] == b[a.len() as int]);
                assert(is_dec_digit(v[pb]));
                if ma == 0 {
                    assert(a =~= seq![digit_char(0)]);
                    assert(b[0] == a[0]);
                    assert(b[0] == digit_char(0));
                    if mb >= 10 {
                        lemma_dec_leading_digit(mb as nat);
                        assert(false);
                    } else {
                        lemma_digit_char_injective(mb as nat, 0);
                        assert(b.len() == 1);
                        assert(false);
                    }
                } else if ma >= 100 {
                    assert(a.len() == 3);
                    assert(b.len() <= 3);
                    assert(false);
                } else {
                    assert(false);
                }
            } else if a.len() > b.len() {
                assert((a + v.skip(pb))[b.len() as int] == a[b.len() as int]);
                assert((b + close_rest)[b.len() as int] == close_rest[0]);
                assert(a[b.len() as int] != '\n');
                assert(false);
            } else {
                lemma_concat_cancel(a, v.skip(pb), b, close_rest);
                lemma_dec_injective(ma as nat, mb as nat);
            }
        },
    }
}

/// Reads a profile's id and name fields. On a stream holding them
/// canonically the read succeeds.
#[verifier::rlimit(100)]
#[verifier::spinoff_prover]
fn parse_conn_id_name(v: &Vec<char>, p: &mut usize) -> (r: Result<(ConnectionId, String), ()>)
    requires
        (*old(p)) <= v@.len(),
    ensures
        r matches Ok(h) ==> (*old(p)) < (*final(p)) && (*final(p)) <= v@.len() && v@.subrange(
            (*old(p)) as int,
            (*final(p)) as int,
        ) == "{\n      \"id\": "@ + render_id(h.0.0) + ",\n      \"name\": "@ + render_string(h.1@) && wf_text(h.1@),
        forall|idm: u128, nm: Seq<char>, tl: Seq<char>|
            wf_text(nm) && v@.skip((*old(p)) as int) == #[trigger] ("{\n      \"id\": "@ + (render_id(idm) + (",\n      \"name\": "@ + (render_string(nm) + tl)))) ==> r is Ok,
{
    let ghost p0: int = *p as int;
    let r1 = expect_lit(v, p, "{\n      \"id\": ");
    if r1.is_err() {
        proof {
            assert forall|idm: u128, nm: Seq<char>, tl: Seq<char>|
                !(wf_text(nm) && v@.skip(p0) == #[trigger] ("{\n      \"id\": "@ + (render_id(idm) + (",\n      \"name\": "@ + (render_string(nm) + tl))))) by {
                if wf_text(nm) && v@.skip(p0) == "{\n      \"id\": "@ + (render_id(idm) + (",\n      \"name\": "@ + (render_string(nm) + tl))) {
                    lemma_skip_concat("{\n      \"id\": "@, render_id(idm) + (",\n      \"name\": "@ + (render_string(nm) + tl)));
                    assert(v@.skip(p0).len() == v@.len() - p0);
                    assert(p0 + ("{\n      \"id\": "@).len() <= v@.len());
                    assert forall|m: int| 0 <= m < ("{\n      \"id\": "@).len() implies v@.subrange(p0, p0 + ("{\n      \"id\": "@).len())[m] == ("{\n      \"id\": "@)[m] by {
                        assert(v@.skip(p0)[m] == v@[p0 + m]);
                        assert((("{\n      \"id\": "@) + (render_id(idm) + (",\n      \"name\": "@ + (render_string(nm) + tl))))[m] == ("{\n      \"id\": "@)[m]);
                        assert(v@.subrange(p0, p0 + ("{\n      \"id\": "@).len())[m] == v@[p0 + m]);
                    }
                    assert(v@.subrange(p0, p0 + ("{\n      \"id\": "@).len()) =~= "{\n      \"id\": "@);
                    assert(false);
                }
            }
        }
        return Err(());
    }
    let ghost p1: int = *p as int;
    let r2 = parse_id(v, p);
    proof {
        if r2 is Err {
            assert forall|idm: u128, nm: Seq<char>, tl: Seq<char>|
                !(wf_text(nm) && v@.skip(p0) == #[trigger] ("{\n      \"id\": "@ + (render_id(idm) + (",\n      \"name\": "@ + (render_string(nm) + tl))))) by {
                if wf_text(nm) && v@.skip(p0) == "{\n      \"id\": "@ + (render_id(idm) + (",\n      \"name\": "@ + (render_string(nm) + tl))) {
                    lemma_skip_concat("{\n      \"id\": "@, render_id(idm) + (",\n      \"name\": "@ + (render_string(nm) + tl)));
                    lemma_skip_skip(v@, p0, ("{\n      \"id\": "@).len() as int);
                    assert(v@.skip(p0).skip(("{\n      \"id\": "@).len() as int) == (("{\n      \"id\": "@) + (render_id(idm) + (",\n      \"name\": "@ + (render_string(nm) + tl)))).skip(("{\n      \"id\": "@).len() as int));
                    assert(p1 == p0 + ("{\n      \"id\": "@).len());
                    assert(v@.skip(p1) == render_id(idm) + (",\n      \"name\": "@ + (render_string(nm) + tl)));
                    assert(v@.skip(p1) == render_id(idm) + (",\n      \"name\": "@ + (render_string(nm) + tl)));
                    assert(false);
                }
            }
        }
    }
    let id_v = match r2 {
        Ok(x) => x,
        Err(()) => {
            return Err(());
        },
    };
    let ghost p2: int = *p as int;
    let r3 = expect_lit(v, p, ",\n      \"name\": ");
    if r3.is_err() {
        proof {
            assert forall|idm: u128, nm: Seq<char>, tl: Seq<char>|
                !(wf_text(nm) && v@.skip(p0) == #[trigger] ("{\n      \"id\": "@ + (render_id(idm) + (",\n      \"name\": "@ + (render_string(nm) + tl))))) by {
                if wf_text(nm) && v@.skip(p0) == "{\n      \"id\": "@ + (render_id(idm) + (",\n      \"name\": "@ + (render_string(nm) + tl))) {
                    lemma_skip_concat("{\n      \"id\": "@, render_id(idm) + (",\n      \"name\": "@ + (render_string(nm) + tl)));
                    lemma_skip_skip(v@, p0, ("{\n      \"id\": "@).len() as int);
                    assert(v@.skip(p0).skip(("{\n      \"id\": "@).len() as int) == (("{\n      \"id\": "@) + (render_id(idm) + (",\n      \"name\": "@ + (render_string(nm) + tl)))).skip(("{\n      \"id\": "@).len() as int));
                    assert(p1 == p0 + ("{\n      \"id\": "@).len());
                    assert(v@.skip(p1) == render_id(idm) + (",\n      \"name\": "@ + (render_string(nm) + tl)));
                    assert(v@.skip(p1) =~= v@.subrange(p1, p2) + v@.skip(p2));
                    lemma_id_prefix(id_v.0, idm, v@.skip(p2), ",\n      \"name\": "@ + (render_string(nm) + tl));
                    lemma_skip_concat(",\n      \"name\": "@, render_string(nm) + tl);
                    assert(v@.skip(p2).len() == v@.len() - p2);
                    assert(p2 + (",\n      \"name\": "@).len() <= v@.len());
                    assert forall|m: int| 0 <= m < (",\n      \"name\": "@).len() implies v@.subrange(p2, p2 + (",\n      \"name\": "@).len())[m] == (",\n      \"name\": "@)[m] by {
                        assert(v@.skip(p2)[m] == v@[p2 + m]);
                        assert(((",\n      \"name\": "@) + (render_string(nm) + tl))[m] == (",\n      \"name\": "@)[m]);
                        assert(v@.subrange(p2, p2 + (",\n      \"name\": "@).len())[m] == v@[p2 + m]);
                    }
                    assert(v@.subrange(p2, p2 + (",\n      \"name\": "@).len()) =~= ",\n      \"name\": "@);
                    assert(false);
                }
            }
        }
        return Err(());
    }
    let ghost p3: int = *p as int;
    let r4 = parse_string(v, p);
    proof {
        if r4 is Err {
            assert forall|idm: u128, nm: Seq<char>, tl: Seq<char>|
                !(wf_text(nm) && v@.skip(p0) == #[trigger] ("{\n      \"id\": "@ + (render_id(idm) + (",\n      \"name\": "@ + (render_string(nm) + tl))))) by {
                if wf_text(nm) && v@.skip(p0) == "{\n      \"id\": "@ + (render_id(idm) + (",\n      \"name\": "@ + (render_string(nm) + tl))) {
                    lemma_skip_concat("{\n      \"id\": "@, render_id(idm) + (",\n      \"name\": "@ + (render_string(nm) + tl)));
                    lemma_skip_skip(v@, p0, ("{\n      \"id\": "@).len() as int);
                    assert(v@.skip(p0).skip(("{\n      \"id\": "@).len() as int) == (("{\n      \"id\": "@) + (render_id(idm) + (",\n      \"name\": "@ + (render_string(nm) + tl)))).skip(("{\n      \"id\": "@).len() as int));
                    assert(p1 == p0 + ("{\n      \"id\": "@).len());
                    assert(v@.skip(p1) == render_id(idm) + (",\n      \"name\": "@ + (render_string(nm) + tl)));
                    assert(v@.skip(p1) =~= v@.subrange(p1, p2) + v@.skip(p2));
                    lemma_id_prefix(id_v.0, idm, v@.skip(p2), ",\n      \"name\": "@ + (render_string(nm) + tl));
                    lemma_skip_concat(",\n      \"name\": "@, render_string(nm) + tl);
                    lemma_skip_skip(v@, p2, (",\n      \"name\": "@).len() as int);
                    assert(v@.skip(p2).skip((",\n      \"name\": "@).len() as int) == ((",\n      \"name\": "@) + (render_string(nm) + tl)).skip((",\n      \"name\": "@).len() as int));
                    assert(p3 == p2 + (",\n      \"name\": "@).len());
                    assert(v@.skip(p3) == render_string(nm) + tl);
                    assert(v@.skip(p3) == render_string(nm) + tl);
                    assert(false);
                }
            }
        }
    }
    let name_s = match r4 {
        Ok(x) => x,
        Err(()) => {
            return Err(());
        },
    };
    let ghost p4: int = *p as int;
    proof {
        assert(v@.subrange(p0, *p as int) =~= v@.subrange(p0, p1) + v@.subrange(p1, p2)
            + v@.subrange(p2, p3) + v@.subrange(p3, *p as int));
    }
    Ok((id_v, name_s))
}

/// Reads a profile's backend tag and endpoint fields. On a stream holding
/// them canonically the read succeeds.
#[verifier::rlimit(100)]
#[verifier::spinoff_prover]
fn parse_conn_backend(v: &Vec<char>, p: &mut usize) -> (r: Result<(DatabaseType, Endpoint), ()>)
    requires
        (*old(p)) <= v@.len(),
    ensures
        r matches Ok(h) ==> (*old(p)) <= (*final(p)) && (*final(p)) <= v@.len() && v@.subrange(
            (*old(p)) as int,
            (*final(p)) as int,
        ) == ",\n      \"db_type\": "@ + render_db_type(h.0) + ",\n      \"endpoint\": "@ + render_endpoint(h.1@)
            && wf_endpoint(h.1@),
        forall|tv: DatabaseType, em: EndpointModel, tl: Seq<char>|
            wf_endpoint(em) && v@.skip((*old(p)) as int) == #[trigger] (",\n      \"db_type\": "@ + (render_db_type(tv) + (",\n      \"endpoint\": "@ + (render_endpoint(em) + tl)))) ==> r is Ok,
{
    let ghost p0: int = *p as int;
    let r1 = expect_lit(v, p, ",\n      \"db_type\": ");
    if r1.is_err() {
        proof {
            assert forall|tv: DatabaseType, em: EndpointModel, tl: Seq<char>|
                !(wf_endpoint(em) && v@.skip(p0) == #[trigger] (",\n      \"db_type\": "@ + (render_db_type(tv) + (",\n      \"endpoint\": "@ + (render_endpoint(em) + tl))))) by {
                if wf_endpoint(em) && v@.skip(p0) == ",\n      \"db_type\": "@ + (render_db_type(tv) + (",\n      \"endpoint\": "@ + (render_endpoint(em) + tl))) {
                    lemma_skip_concat(",\n      \"db_type\": "@, render_db_type(tv) + (",\n      \"endpoint\": "@ + (render_endpoint(em) + tl)));
                    assert(v@.skip(p0).len() == v@.len() - p0);
                    assert(p0 + (",\n      \"db_type\": "@).len() <= v@.len());
                    assert forall|m: int| 0 <= m < (",\n      \"db_type\": "@).len() implies v@.subrange(p0, p0 + (",\n      \"db_type\": "@).len())[m] == (",\n      \"db_type\": "@)[m] by {
                        assert(v@.skip(p0)[m] == v@[p0 + m]);
                        assert(((",\n      \"db_type\": "@) + (render_db_type(tv) + (",\n      \"endpoint\": "@ + (render_endpoint(em) + tl))))[m] == (",\n      \"db_type\": "@)[m]);
                        assert(v@.subrange(p0, p0 + (",\n      \"db_type\": "@).len())[m] == v@[p0 + m]);
                    }
                    assert(v@.subrange(p0, p0 + (",\n      \"db_type\": "@).len()) =~= ",\n      \"db_type\": "@);
                    assert(false);
                }
            }
        }
        return Err(());
    }
    let ghost p1: int = *p as int;
    let r2 = parse_db_type(v, p);
    proof {
        if r2 is Err {
            assert forall|tv: DatabaseType, em: EndpointModel, tl: Seq<char>|
                !(wf_endpoint(em) && v@.skip(p0) == #[trigger] (",\n      \"db_type\": "@ + (render_db_type(tv) + (",\n      \"endpoint\": "@ + (render_endpoint(em) + tl))))) by {
                if wf_endpoint(em) && v@.skip(p0) == ",\n      \"db_type\": "@ + (render_db_type(tv) + (",\n      \"endpoint\": "@ + (render_endpoint(em) + tl))) {
                    lemma_skip_concat(",\n      \"db_type\": "@, render_db_type(tv) + (",\n      \"endpoint\": "@ + (render_endpoint(em) + tl)));
                    lemma_skip_skip(v@, p0, (",\n      \"db_type\": "@).len() as int);
                    assert(v@.skip(p0).skip((",\n      \"db_type\": "@).len() as int) == ((",\n      \"db_type\": "@) + (render_db_type(tv) + (",\n      \"endpoint\": "@ + (render_endpoint(em) + tl)))).skip((",\n      \"db_type\": "@).len() as int));
                    assert(p1 == p0 + (",\n      \"db_type\": "@).len());
                    assert(v@.skip(p1) == render_db_type(tv) + (",\n      \"endpoint\": "@ + (render_endpoint(em) + tl)));
                    lemma_skip_concat(render_db_type(tv), ",\n      \"endpoint\": "@ + (render_endpoint(em) + tl));
                    assert(v@.skip(p1).len() == v@.len() - p1);
                    assert(p1 + (render_db_type(tv)).len() <= v@.len());
                    assert forall|m: int| 0 <= m < (render_db_type(tv)).len() implies v@.subrange(p1, p1 + (render_db_type(tv)).len())[m] == (render_db_type(tv))[m] by {
                        assert(v@.skip(p1)[m] == v@[p1 + m]);
                        assert(((render_db_type(tv)) + (",\n      \"endpoint\": "@ + (render_endpoint(em) + tl)))[m] == (render_db_type(tv))[m]);
                        assert(v@.subrange(p1, p1 + (render_db_type(tv)).len())[m] == v@[p1 + m]);
                    }
                    assert(v@.subrange(p1, p1 + (render_db_type(tv)).len()) =~= render_db_type(tv));
                    assert(false);
                }
            }
        }
    }
    let dbt_v = match r2 {
        Ok(x) => x,
        Err(()) => {
            return Err(());
        },
    };
    let ghost p2: int = *p as int;
    let r3 = expect_lit(v, p, ",\n      \"endpoint\": ");
    if r3.is_err() {
        proof {
            assert forall|tv: DatabaseType, em: EndpointModel, tl: Seq<char>|
                !(wf_endpoint(em) && v@.skip(p0) == #[trigger] (",\n      \"db_type\": "@ + (render_db_type(tv) + (",\n      \"endpoint\": "@ + (render_endpoint(em) + tl))))) by {
                if wf_endpoint(em) && v@.skip(p0) == ",\n      \"db_type\": "@ + (render_db_type(tv) + (",\n      \"endpoint\": "@ + (render_endpoint(em) + tl))) {
                    lemma_skip_concat(",\n      \"db_type\": "@, render_db_type(tv) + (",\n      \"endpoint\": "@ + (render_endpoint(em) + tl)));
                    lemma_skip_skip(v@, p0, (",\n      \"db_type\": "@).len() as int);
                    assert(v@.skip(p0).skip((",\n      \"db_type\": "@).len() as int) == ((",\n      \"db_type\": "@) + (render_db_type(tv) + (",\n      \"endpoint\": "@ + (render_endpoint(em) + tl)))).skip((",\n      \"db_type\": "@).len() as int));
                    assert(p1 == p0 + (",\n      \"db_type\": "@).len());
                    assert(v@.skip(p1) == render_db_type(tv) + (",\n      \"endpoint\": "@ + (render_endpoint(em) + tl)));
                    assert(v@.skip(p1) =~= v@.subrange(p1, p2) + v@.skip(p2));
                    lemma_db_type_prefix(dbt_v, tv, v@.skip(p2), ",\n      \"endpoint\": "@ + (render_endpoint(em) + tl));
                    lemma_skip_concat(",\n      \"endpoint\": "@, render_endpoint(em) + tl);
                    assert(v@.skip(p2).len() == v@.len() - p2);
                    assert(p2 + (",\n      \"endpoint\": "@).len() <= v@.len());
                    assert forall|m: int| 0 <= m < (",\n      \"endpoint\": "@).len() implies v@.subrange(p2, p2 + (",\n      \"endpoint\": "@).len())[m] == (",\n      \"endpoint\": "@)[m] by {
                        assert(v@.skip(p2)[m] == v@[p2 + m]);
                        assert(((",\n      \"endpoint\": "@) + (render_endpoint(em) + tl))[m] == (",\n      \"endpoint\": "@)[m]);
                        assert(v@.subrange(p2, p2 + (",\n      \"endpoint\": "@).len())[m] == v@[p2 + m]);
                    }
                    assert(v@.subrange(p2, p2 + (",\n      \"endpoint\": "@).len()) =~= ",\n      \"endpoint\": "@);
                    assert(false);
                }
            }
        }
        return Err(());
    }
    let ghost p3: int = *p as int;
    let r4 = parse_endpoint(v, p);
    proof {
        if r4 is Err {
            assert forall|tv: DatabaseType, em: EndpointModel, tl: Seq<char>|
                !(wf_endpoint(em) && v@.skip(p0) == #[trigger] (",\n      \"db_type\": "@ + (render_db_type(tv) + (",\n      \"endpoint\": "@ + (render_endpoint(em) + tl))))) by {
                if wf_endpoint(em) && v@.skip(p0) == ",\n      \"db_type\": "@ + (render_db_type(tv) + (",\n      \"endpoint\": "@ + (render_endpoint(em) + tl))) {
                    lemma_skip_concat(",\n      \"db_type\": "@, render_db_type(tv) + (",\n      \"endpoint\": "@ + (render_endpoint(em) + tl)));
                    lemma_skip_skip(v@, p0, (",\n      \"db_type\": "@).len() as int);
                    assert(v@.skip(p0).skip((",\n      \"db_type\": "@).len() as int) == ((",\n      \"db_type\": "@) + (render_db_type(tv) + (",\n      \"endpoint\": "@ + (render_endpoint(em) + tl)))).skip((",\n      \"db_type\": "@).len() as int));
                    assert(p1 == p0 + (",\n      \"db_type\": "@).len());
                    assert(v@.skip(p1) == render_db_type(tv) + (",\n      \"endpoint\": "@ + (render_endpoint(em) + tl)));
                    assert(v@.skip(p1) =~= v@.subrange(p1, p2) + v@.skip(p2));
                    lemma_db_type_prefix(dbt_v, tv, v@.skip(p2), ",\n      \"endpoint\": "@ + (render_endpoint(em) + tl));
                    lemma_skip_concat(",\n      \"endpoint\": "@, render_endpoint(em) + tl);
                    lemma_skip_skip(v@, p2, (",\n      \"endpoint\": "@).len() as int);
                    assert(v@.skip(p2).skip((",\n      \"endpoint\": "@).len() as int) == ((",\n      \"endpoint\": "@) + (render_endpoint(em) + tl)).skip((",\n      \"endpoint\": "@).len() as int));
                    assert(p3 == p2 + (",\n      \"endpoint\": "@).len());
                    assert(v@.skip(p3) == render_endpoint(em) + tl);
                    assert(v@.skip(p3) == render_endpoint(em) + tl);
                    assert(false);
                }
            }
        }
    }
    let ep_v = match r4 {
        Ok(x) => x,
        Err(()) => {
            return Err(());
        },
    };
    let ghost p4: int = *p as int;
    proof {
        assert(v@.subrange(p0, *p as int) =~= v@.subrange(p0, p1) + v@.subrange(p1, p2)
            + v@.subrange(p2, p3) + v@.subrange(p3, *p as int));
    }
    Ok((dbt_v, ep_v))
}

/// Reads the second half of a profile object: the remember flag, the user
/// name and the password-length hint, up to the closing brace. On a stream
/// holding those fields canonically the read succeeds.
#[verifier::rlimit(100)]
#[verifier::spinoff_prover]
fn parse_conn_tail(v: &Vec<char>, p: &mut usize) -> (r: Result<
    (bool, String, Option<u8>),
    (),
>)
    requires
        (*old(p)) <= v@.len(),
    ensures
        r matches Ok(h) ==> (*old(p)) <= (*final(p)) && (*final(p)) <= v@.len() && v@.subrange(
            (*old(p)) as int,
            (*final(p)) as int,
        ) == ",\n      \"remember_password\": "@ + render_bool(h.0)
            + ",\n      \"username\": "@ + render_string(h.1@)
            + ",\n      \"saved_password_len\": "@ + render_opt_u8(h.2) + "\n    }"@
            && wf_text(h.1@),
        forall|b: bool, u: Seq<char>, l: Option<u8>, rest2: Seq<char>|
            wf_text(u) && v@.skip((*old(p)) as int) == #[trigger] (",\n      \"remember_password\": "@ + (render_bool(b) + (",\n      \"username\": "@ + (render_string(u) + (",\n      \"saved_password_len\": "@ + (render_opt_u8(l) + ("\n    }"@ + (rest2)))))))) ==> r is Ok,
{
    let ghost q0: int = *p as int;
    let r9 = expect_lit(v, p, ",\n      \"remember_password\": ");
    if r9.is_err() {
        proof {
            reveal_strlit("\n    }");
                assert forall|b: bool, u: Seq<char>, l: Option<u8>, rest2: Seq<char>|
                    !(wf_text(u) && v@.skip(q0) == #[trigger] (",\n      \"remember_password\": "@ + (render_bool(b) + (",\n      \"username\": "@ + (render_string(u) + (",\n      \"saved_password_len\": "@ + (render_opt_u8(l) + ("\n    }"@ + (rest2))))))))) by {
                    if wf_text(u) && v@.skip(q0) == ",\n      \"remember_password\": "@ + (render_bool(b) + (",\n      \"username\": "@ + (render_string(u) + (",\n      \"saved_password_len\": "@ + (render_opt_u8(l) + ("\n    }"@ + (rest2))))))) {
                        let le = ",\n      \"remember_password\": "@;
                        let lf = ",\n      \"username\": "@;
                        let lg = ",\n      \"saved_password_len\": "@;
                        let lh = "\n    }"@;
                        lemma_skip_concat(le, render_bool(b) + (lf + (render_string(u) + (lg + (render_opt_u8(l) + (lh + (rest2)))))));
                        assert(v@.skip(q0).len() == v@.len() - q0);
                        assert(q0 + (le).len() <= v@.len());
                        assert forall|m: int| 0 <= m < (le).len() implies v@.subrange(q0, q0 + (le).len())[m] == (le)[m] by {
                            assert(v@.skip(q0)[m] == v@[q0 + m]);
                            assert(((le) + (render_bool(b) + (lf + (render_string(u) + (lg + (render_opt_u8(l) + (lh + (rest2))))))))[m] == (le)[m]);
                            assert(v@.subrange(q0, q0 + (le).len())[m] == v@[q0 + m]);
                        }
                        assert(v@.subrange(q0, q0 + (le).len()) =~= le);
                        assert(false);
                    }
                }
        }
        return Err(());
    }
    let ghost q1: int = *p as int;
    let r10 = parse_bool(v, p);
    proof {
        if r10 is Err {
            reveal_strlit("\n    }");
                assert forall|b: bool, u: Seq<char>, l: Option<u8>, rest2: Seq<char>|
                    !(wf_text(u) && v@.skip(q0) == #[trigger] (",\n      \"remember_password\": "@ + (render_bool(b) + (",\n      \"username\": "@ + (render_string(u) + (",\n      \"saved_password_len\": "@ + (render_opt_u8(l) + ("\n    }"@ + (rest2))))))))) by {
                    if wf_text(u) && v@.skip(q0) == ",\n      \"remember_password\": "@ + (render_bool(b) + (",\n      \"username\": "@ + (render_string(u) + (",\n      \"saved_password_len\": "@ + (render_opt_u8(l) + ("\n    }"@ + (rest2))))))) {
                        let le = ",\n      \"remember_password\": "@;
                        let lf = ",\n      \"username\": "@;
                        let lg = ",\n      \"saved_password_len\": "@;
                        let lh = "\n    }"@;
                        assert(q1 == q0 + le.len());
                        lemma_skip_concat(le, render_bool(b) + (lf + (render_string(u) + (lg + (render_opt_u8(l) + (lh + (rest2)))))));
                        lemma_skip_skip(v@, q0, le.len() as int);
                        assert(v@.skip(q0).skip(le.len() as int) == (le + (render_bool(b) + (lf + (render_string(u) + (lg + (render_opt_u8(l) + (lh + (rest2)))))))).skip(le.len() as int));
                        assert(v@.skip(q1) == render_bool(b) + (lf + (render_string(u) + (lg + (render_opt_u8(l) + (lh + (rest2)))))));
                        lemma_skip_concat(render_bool(b), lf + (render_string(u) + (lg + (render_opt_u8(l) + (lh + (rest2))))));
                        assert(v@.skip(q1).len() == v@.len() - q1);
                        assert(q1 + (render_bool(b)).len() <= v@.len());
                        assert forall|m: int| 0 <= m < (render_bool(b)).len() implies v@.subrange(q1, q1 + (render_bool(b)).len())[m] == (render_bool(b))[m] by {
                            assert(v@.skip(q1)[m] == v@[q1 + m]);
                            assert(((render_bool(b)) + (lf + (render_string(u) + (lg + (render_opt_u8(l) + (lh + (rest2)))))))[m] == (render_bool(b))[m]);
                            assert(v@.subrange(q1, q1 + (render_bool(b)).len())[m] == v@[q1 + m]);
                        }
                        assert(v@.subrange(q1, q1 + (render_bool(b)).len()) =~= render_bool(b));
                        assert(false);
                    }
                }
        }
    }
    let rp_v = match r10 {
        Ok(x) => x,
        Err(()) => {
            return Err(());
        },
    };
    let ghost q2: int = *p as int;
    let r11 = expect_lit(v, p, ",\n      \"username\": ");
    if r11.is_err() {
        proof {
            reveal_strlit("\n    }");
                assert forall|b: bool, u: Seq<char>, l: Option<u8>, rest2: Seq<char>|
                    !(wf_text(u) && v@.skip(q0) == #[trigger] (",\n      \"remember_password\": "@ + (render_bool(b) + (",\n      \"username\": "@ + (render_string(u) + (",\n      \"saved_password_len\": "@ + (render_opt_u8(l) + ("\n    }"@ + (rest2))))))))) by {
                    if wf_text(u) && v@.skip(q0) == ",\n      \"remember_password\": "@ + (render_bool(b) + (",\n      \"username\": "@ + (render_string(u) + (",\n      \"saved_password_len\": "@ + (render_opt_u8(l) + ("\n    }"@ + (rest2))))))) {
                        let le = ",\n      \"remember_password\": "@;
                        let lf = ",\n      \"username\": "@;
                        let lg = ",\n      \"saved_password_len\": "@;
                        let lh = "\n    }"@;
                        assert(q1 == q0 + le.len());
                        lemma_skip_concat(le, render_bool(b) + (lf + (render_string(u) + (lg + (render_opt_u8(l) + (lh + (rest2)))))));
                        lemma_skip_skip(v@, q0, le.len() as int);
                        assert(v@.skip(q0).skip(le.len() as int) == (le + (render_bool(b) + (lf + (render_string(u) + (lg + (render_opt_u8(l) + (lh + (rest2)))))))).skip(le.len() as int));
                        assert(v@.skip(q1) == render_bool(b) + (lf + (render_string(u) + (lg + (render_opt_u8(l) + (lh + (rest2)))))));
                        assert(v@.skip(q1) =~= v@.subrange(q1, q2) + v@.skip(q2));
                        lemma_bool_prefix(rp_v, b, v@.skip(q2), lf + (render_string(u) + (lg + (render_opt_u8(l) + (lh + (rest2))))));
                        lemma_skip_concat(lf, render_string(u) + (lg + (render_opt_u8(l) + (lh + (rest2)))));
                        assert(v@.skip(q2).len() == v@.len() - q2);
                        assert(q2 + (lf).len() <= v@.len());
                        assert forall|m: int| 0 <= m < (lf).len() implies v@.subrange(q2, q2 + (lf).len())[m] == (lf)[m] by {
                            assert(v@.skip(q2)[m] == v@[q2 + m]);
                            assert(((lf) + (render_string(u) + (lg + (render_opt_u8(l) + (lh + (rest2))))))[m] == (lf)[m]);
                            assert(v@.subrange(q2, q2 + (lf).len())[m] == v@[q2 + m]);
                        }
                        assert(v@.subrange(q2, q2 + (lf).len()) =~= lf);
                        assert(false);
                    }
                }
        }
        return Err(());
    }
    let ghost q3: int = *p as int;
    let r12 = parse_string(v, p);
    proof {
        if r12 is Err {
            reveal_strlit("\n    }");
                assert forall|b: bool, u: Seq<char>, l: Option<u8>, rest2: Seq<char>|
                    !(wf_text(u) && v@.skip(q0) == #[trigger] (",\n      \"remember_password\": "@ + (render_bool(b) + (",\n      \"username\": "@ + (render_string(u) + (",\n      \"saved_password_len\": "@ + (render_opt_u8(l) + ("\n    }"@ + (rest2))))))))) by {
                    if wf_text(u) && v@.skip(q0) == ",\n      \"remember_password\": "@ + (render_bool(b) + (",\n      \"username\": "@ + (render_string(u) + (",\n      \"saved_password_len\": "@ + (render_opt_u8(l) + ("\n    }"@ + (rest2))))))) {
                        let le = ",\n      \"remember_password\": "@;
                        let lf = ",\n      \"username\": "@;
                        let lg = ",\n      \"saved_password_len\": "@;
                        let lh = "\n    }"@;
                        assert(q1 == q0 + le.len());
                        lemma_skip_concat(le, render_bool(b) + (lf + (render_string(u) + (lg + (render_opt_u8(l) + (lh + (rest2)))))));
                        lemma_skip_skip(v@, q0, le.len() as int);
                        assert(v@.skip(q0).skip(le.len() as int) == (le + (render_bool(b) + (lf + (render_string(u) + (lg + (render_opt_u8(l) + (lh + (rest2)))))))).skip(le.len() as int));
                        assert(v@.skip(q1) == render_bool(b) + (lf + (render_string(u) + (lg + (render_opt_u8(l) + (lh + (rest2)))))));
                        assert(v@.skip(q1) =~= v@.subrange(q1, q2) + v@.skip(q2));
                        lemma_bool_prefix(rp_v, b, v@.skip(q2), lf + (render_string(u) + (lg + (render_opt_u8(l) + (lh + (rest2))))));
                        assert(v@.skip(q2) =~= v@.subrange(q2, q3) + v@.skip(q3));
                        lemma_peel(lf, v@.skip(q3), render_string(u) + (lg + (render_opt_u8(l) + (lh + (rest2)))));
                        assert(v@.skip(q3) == render_string(u) + (lg + (render_opt_u8(l) + (lh + (rest2)))));
                        assert(false);
                    }
                }
        }
    }
    let user_s = match r12 {
        Ok(x) => x,
        Err(()) => {
            return Err(());
        },
    };
    let ghost q4: int = *p as int;
    let r13 = expect_lit(v, p, ",\n      \"saved_password_len\": ");
    if r13.is_err() {
        proof {
            reveal_strlit("\n    }");
                assert forall|b: bool, u: Seq<char>, l: Option<u8>, rest2: Seq<char>|
                    !(wf_text(u) && v@.skip(q0) == #[trigger] (",\n      \"remember_password\": "@ + (render_bool(b) + (",\n      \"username\": "@ + (render_string(u) + (",\n      \"saved_password_len\": "@ + (render_opt_u8(l) + ("\n    }"@ + (rest2))))))))) by {
                    if wf_text(u) && v@.skip(q0) == ",\n      \"remember_password\": "@ + (render_bool(b) + (",\n      \"username\": "@ + (render_string(u) + (",\n      \"saved_password_len\": "@ + (render_opt_u8(l) + ("\n    }"@ + (rest2))))))) {
                        let le = ",\n      \"remember_password\": "@;
                        let lf = ",\n      \"username\": "@;
                        let lg = ",\n      \"saved_password_len\": "@;
                        let lh = "\n    }"@;
                        assert(q1 == q0 + le.len());
                        lemma_skip_concat(le, render_bool(b) + (lf + (render_string(u) + (lg + (render_opt_u8(l) + (lh + (rest2)))))));
                        lemma_skip_skip(v@, q0, le.len() as int);
                        assert(v@.skip(q0).skip(le.len() as int) == (le + (render_bool(b) + (lf + (render_string(u) + (lg + (render_opt_u8(l) + (lh + (rest2)))))))).skip(le.len() as int));
                        assert(v@.skip(q1) == render_bool(b) + (lf + (render_string(u) + (lg + (render_opt_u8(l) + (lh + (rest2)))))));
                        assert(v@.skip(q1) =~= v@.subrange(q1, q2) + v@.skip(q2));
                        lemma_bool_prefix(rp_v, b, v@.skip(q2), lf + (render_string(u) + (lg + (render_opt_u8(l) + (lh + (rest2))))));
                        assert(v@.skip(q2) =~= v@.subrange(q2, q3) + v@.skip(q3));
                        lemma_peel(lf, v@.skip(q3), render_string(u) + (lg + (render_opt_u8(l) + (lh + (rest2)))));
                        assert(v@.skip(q3) =~= v@.subrange(q3, q4) + v@.skip(q4));
                        lemma_string_prefix(user_s@, u, v@.skip(q4), lg + (render_opt_u8(l) + (lh + (rest2))));
                        lemma_skip_concat(lg, render_opt_u8(l) + (lh + (rest2)));
                        assert(v@.skip(q4).len() == v@.len() - q4);
                        assert(q4 + (lg).len() <= v@.len());
                        assert forall|m: int| 0 <= m < (lg).len() implies v@.subrange(q4, q4 + (lg).len())[m] == (lg)[m] by {
                            assert(v@.skip(q4)[m] == v@[q4 + m]);
                            assert(((lg) + (render_opt_u8(l) + (lh + (rest2))))[m] == (lg)[m]);
                            assert(v@.subrange(q4, q4 + (lg).len())[m] == v@[q4 + m]);
                        }
                        assert(v@.subrange(q4, q4 + (lg).len()) =~= lg);
                        assert(false);
                    }
                }
        }
        return Err(());
    }
    let ghost q5: int = *p as int;
    let r14 = parse_opt_u8(v, p);
    proof {
        if r14 is Err {
            reveal_strlit("\n    }");
                assert forall|b: bool, u: Seq<char>, l: Option<u8>, rest2: Seq<char>|
                    !(wf_text(u) && v@.skip(q0) == #[trigger] (",\n      \"remember_password\": "@ + (render_bool(b) + (",\n      \"username\": "@ + (render_string(u) + (",\n      \"saved_password_len\": "@ + (render_opt_u8(l) + ("\n    }"@ + (rest2))))))))) by {
                    if wf_text(u) && v@.skip(q0) == ",\n      \"remember_password\": "@ + (render_bool(b) + (",\n      \"username\": "@ + (render_string(u) + (",\n      \"saved_password_len\": "@ + (render_opt_u8(l) + ("\n    }"@ + (rest2))))))) {
                        let le = ",\n      \"remember_password\": "@;
                        let lf = ",\n      \"username\": "@;
                        let lg = ",\n      \"saved_password_len\": "@;
                        let lh = "\n    }"@;
                        assert(q1 == q0 + le.len());
                        lemma_skip_concat(le, render_bool(b) + (lf + (render_string(u) + (lg + (render_opt_u8(l) + (lh + (rest2)))))));
                        lemma_skip_skip(v@, q0, le.len() as int);
                        assert(v@.skip(q0).skip(le.len() as int) == (le + (render_bool(b) + (lf + (render_string(u) + (lg + (render_opt_u8(l) + (lh + (rest2)))))))).skip(le.len() as int));
                        assert(v@.skip(q1) == render_bool(b) + (lf + (render_string(u) + (lg + (render_opt_u8(l) + (lh + (rest2)))))));
                        assert(v@.skip(q1) =~= v@.subrange(q1, q2) + v@.skip(q2));
                        lemma_bool_prefix(rp_v, b, v@.skip(q2), lf + (render_string(u) + (lg + (render_opt_u8(l) + (lh + (rest2))))));
                        assert(v@.skip(q2) =~= v@.subrange(q2, q3) + v@.skip(q3));
                        lemma_peel(lf, v@.skip(q3), render_string(u) + (lg + (render_opt_u8(l) + (lh + (rest2)))));
                        assert(v@.skip(q3) =~= v@.subrange(q3, q4) + v@.skip(q4));
                        lemma_string_prefix(user_s@, u, v@.skip(q4), lg + (render_opt_u8(l) + (lh + (rest2))));
                        assert(v@.skip(q4) =~= v@.subrange(q4, q5) + v@.skip(q5));
                        lemma_peel(lg, v@.skip(q5), render_opt_u8(l) + (lh + (rest2)));
                        assert(v@.skip(q5) == render_opt_u8(l) + (lh + (rest2)));
                        assert((lh + (rest2)).len() > 0 && (lh + (rest2))[0] == '\n');
                        assert(false);
                    }
                }
        }
    }
    let spl_v = match r14 {
        Ok(x) => x,
        Err(()) => {
            return Err(());
        },
    };
    let ghost q6: int = *p as int;
    let r15 = expect_lit(v, p, "\n    }");
    if r15.is_err() {
        proof {
            reveal_strlit("\n    }");
                assert forall|b: bool, u: Seq<char>, l: Option<u8>, rest2: Seq<char>|
                    !(wf_text(u) && v@.skip(q0) == #[trigger] (",\n      \"remember_password\": "@ + (render_bool(b) + (",\n      \"username\": "@ + (render_string(u) + (",\n      \"saved_password_len\": "@ + (render_opt_u8(l) + ("\n    }"@ + (rest2))))))))) by {
                    if wf_text(u) && v@.skip(q0) == ",\n      \"remember_password\": "@ + (render_bool(b) + (",\n      \"username\": "@ + (render_string(u) + (",\n      \"saved_password_len\": "@ + (render_opt_u8(l) + ("\n    }"@ + (rest2))))))) {
                        let le = ",\n      \"remember_password\": "@;
                        let lf = ",\n      \"username\": "@;
                        let lg = ",\n      \"saved_password_len\": "@;
                        let lh = "\n    }"@;
                        assert(q1 == q0 + le.len());
                        lemma_skip_concat(le, render_bool(b) + (lf + (render_string(u) + (lg + (render_opt_u8(l) + (lh + (rest2)))))));
                        lemma_skip_skip(v@, q0, le.len() as int);
                        assert(v@.skip(q0).skip(le.len() as int) == (le + (render_bool(b) + (lf + (render_string(u) + (lg + (render_opt_u8(l) + (lh + (rest2)))))))).skip(le.len() as int));
                        assert(v@.skip(q1) == render_bool(b) + (lf + (render_string(u) + (lg + (render_opt_u8(l) + (lh + (rest2)))))));
                        assert(v@.skip(q1) =~= v@.subrange(q1, q2) + v@.skip(q2));
                        lemma_bool_prefix(rp_v, b, v@.skip(q2), lf + (render_string(u) + (lg + (render_opt_u8(l) + (lh + (rest2))))));
                        assert(v@.skip(q2) =~= v@.subrange(q2, q3) + v@.skip(q3));
                        lemma_peel(lf, v@.skip(q3), render_string(u) + (lg + (render_opt_u8(l) + (lh + (rest2)))));
                        assert(v@.skip(q3) =~= v@.subrange(q3, q4) + v@.skip(q4));
                        lemma_string_prefix(user_s@, u, v@.skip(q4), lg + (render_opt_u8(l) + (lh + (rest2))));
                        assert(v@.skip(q4) =~= v@.subrange(q4, q5) + v@.skip(q5));
                        lemma_peel(lg, v@.skip(q5), render_opt_u8(l) + (lh + (rest2)));
                        assert(v@.skip(q5) =~= v@.subrange(q5, q6) + v@.skip(q6));
                        assert((lh + (rest2)).len() > 0 && (lh + (rest2))[0] == '\n');
                        lemma_opt_align(v@, q5, q6, spl_v, l, lh + (rest2));
                        lemma_skip_concat(lh, rest2);
                        assert(v@.skip(q6).len() == v@.len() - q6);
                        assert(q6 + (lh).len() <= v@.len());
                        assert forall|m: int| 0 <= m < (lh).len() implies v@.subrange(q6, q6 + (lh).len())[m] == (lh)[m] by {
                            assert(v@.skip(q6)[m] == v@[q6 + m]);
                            assert(((lh) + (rest2))[m] == (lh)[m]);
                            assert(v@.subrange(q6, q6 + (lh).len())[m] == v@[q6 + m]);
                        }
                        assert(v@.subrange(q6, q6 + (lh).len()) =~= lh);
                        assert(false);
                    }
                }
        }
        return Err(());
    }
    proof {
        assert(v@.subrange(q0, *p as int) =~= v@.subrange(q0, q1) + v@.subrange(q1, q2)
            + v@.subrange(q2, q3) + v@.subrange(q3, q4) + v@.subrange(q4, q5) + v@.subrange(
            q5,
            q6,
        ) + v@.subrange(q6, *p as int));
    }
    Ok((rp_v, user_s, spl_v))
}

/// Reads one profile object; on a stream holding a canonical profile with
/// carryable text fields the read succeeds.
#[verifier::rlimit(100)]
#[verifier::spinoff_prover]
fn parse_conn(v: &Vec<char>, p: &mut usize) -> (r: Result<ConnectionConfig, ()>)
    requires
        (*old(p)) <= v@.len(),
    ensures
        r matches Ok(c) ==> (*old(p)) < (*final(p)) && (*final(p)) <= v@.len() && v@.subrange(
            (*old(p)) as int,
            (*final(p)) as int,
        ) == render_conn(c@) && wf_conn(c@),
        forall|cm: ConnectionConfigModel, rest: Seq<char>|
            wf_conn(cm) && v@.skip((*old(p)) as int) == #[trigger] (render_conn(cm) + rest)
                ==> r is Ok,
{
    let ghost p0: int = *p as int;
    let ra = parse_conn_id_name(v, p);
    proof {
        if ra is Err {
            assert forall|cm: ConnectionConfigModel, rest: Seq<char>|
                !(wf_conn(cm) && v@.skip(p0) == #[trigger] (render_conn(cm) + rest)) by {
                if wf_conn(cm) && v@.skip(p0) == render_conn(cm) + rest {
                    let la = "{\n      \"id\": "@;
                    let lb = ",\n      \"name\": "@;
                    let lc = ",\n      \"db_type\": "@;
                    let ld = ",\n      \"endpoint\": "@;
                    let le = ",\n      \"remember_password\": "@;
                    let lf = ",\n      \"username\": "@;
                    let lg = ",\n      \"saved_password_len\": "@;
                    let lh = "\n    }"@;
                    assert(render_conn(cm) + rest =~= la + (render_id(cm.id) + (lb + (
                    render_string(cm.name) + (lc + (render_db_type(cm.db_type) + (ld + (render_endpoint(cm.endpoint) + (",\n      \"remember_password\": "@ + (render_bool(cm.remember_password) + (",\n      \"username\": "@ + (render_string(cm.username) + (",\n      \"saved_password_len\": "@ + (render_opt_u8(cm.saved_password_len) + ("\n    }"@ + (rest))))))))))))))));
                    assert(false);
                }
            }
        }
    }
    let ha = match ra {
        Ok(h) => h,
        Err(()) => {
            return Err(());
        },
    };
    let (id_v, name_s) = ha;
    let ghost p4: int = *p as int;
    let rb = parse_conn_backend(v, p);
    proof {
        if rb is Err {
            lemma_conn_align_id_name(v@, p0, p4, id_v, name_s@);
            assert forall|cm: ConnectionConfigModel, rest: Seq<char>|
                !(wf_conn(cm) && v@.skip(p0) == #[trigger] (render_conn(cm) + rest)) by {
                if wf_conn(cm) && v@.skip(p0) == render_conn(cm) + rest {
                    let la = "{\n      \"id\": "@;
                    let lb = ",\n      \"name\": "@;
                    let lc = ",\n      \"db_type\": "@;
                    let ld = ",\n      \"endpoint\": "@;
                    let le = ",\n      \"remember_password\": "@;
                    let lf = ",\n      \"username\": "@;
                    let lg = ",\n      \"saved_password_len\": "@;
                    let lh = "\n    }"@;
                    assert(v@.skip(p4) == lc + (render_db_type(cm.db_type) + (ld + (
                    render_endpoint(cm.endpoint) + (",\n      \"remember_password\": "@ + (render_bool(cm.remember_password) + (",\n      \"username\": "@ + (render_string(cm.username) + (",\n      \"saved_password_len\": "@ + (render_opt_u8(cm.saved_password_len) + ("\n    }"@ + (rest))))))))))));
                    assert(false);
                }
            }
        }
    }
    let hb = match rb {
        Ok(h) => h,
        Err(()) => {
            return Err(());
        },
    };
    let (dbt_v, ep_v) = hb;
    let ghost p8: int = *p as int;
    let rt = parse_conn_tail(v, p);
    proof {
        if rt is Err {
            lemma_conn_align_id_name(v@, p0, p4, id_v, name_s@);
            lemma_conn_align_backend(v@, p0, p4, p8, dbt_v, ep_v@);
            assert forall|cm: ConnectionConfigModel, rest: Seq<char>|
                !(wf_conn(cm) && v@.skip(p0) == #[trigger] (render_conn(cm) + rest)) by {
                if wf_conn(cm) && v@.skip(p0) == render_conn(cm) + rest {
                    let la = "{\n      \"id\": "@;
                    let lb = ",\n      \"name\": "@;
                    let lc = ",\n      \"db_type\": "@;
                    let ld = ",\n      \"endpoint\": "@;
                    let le = ",\n      \"remember_password\": "@;
                    let lf = ",\n      \"username\": "@;
                    let lg = ",\n      \"saved_password_len\": "@;
                    let lh = "\n    }"@;
                    assert(v@.skip(p8) == le + (render_bool(cm.remember_password) + (lf + (
                    render_string(cm.username) + (lg + (render_opt_u8(cm.saved_password_len)
                        + (lh + (rest))))))));
                    assert(false);
                }
            }
        }
    }
    let ht = match rt {
        Ok(h) => h,
        Err(()) => {
            return Err(());
        },
    };
    let (rp_v, user_s, spl_v) = ht;
    let c = ConnectionConfig {
        id: id_v,
        name: name_s,
        db_type: dbt_v,
        endpoint: ep_v,
        remember_password: rp_v,
        username: user_s,
        saved_password_len: spl_v,
    };
    proof {
        assert(v@.subrange(p0, *p as int) =~= v@.subrange(p0, p4) + v@.subrange(p4, p8)
            + v@.subrange(p8, *p as int));
        assert(v@.subrange(p0, *p as int) =~= render_conn(c@));
    }
    Ok(c)
}

/// Once a profile's id and name have been consumed, a canonical-profile
/// stream continues with the backend fields.
#[verifier::rlimit(100)]
#[verifier::spinoff_prover]
proof fn lemma_conn_align_id_name(
    v: Seq<char>,
    p0: int,
    p4: int,
    id_v: ConnectionId,
    name_m: Seq<char>,
)
    requires
        0 <= p0 <= p4 <= v.len(),
        v.subrange(p0, p4) == "{\n      \"id\": "@ + render_id(id_v.0)
            + ",\n      \"name\": "@ + render_string(name_m),
    ensures
        forall|cm: ConnectionConfigModel, rest: Seq<char>|
            wf_conn(cm) && v.skip(p0) == #[trigger] (render_conn(cm) + rest) ==> v.skip(p4)
                == ",\n      \"db_type\": "@ + (render_db_type(cm.db_type) + (
            ",\n      \"endpoint\": "@ + (render_endpoint(cm.endpoint) + (",\n      \"remember_password\": "@ + (render_bool(cm.remember_password) + (",\n      \"username\": "@ + (render_string(cm.username) + (",\n      \"saved_password_len\": "@ + (render_opt_u8(cm.saved_password_len) + ("\n    }"@ + (rest))))))))))),
{
    let la = "{\n      \"id\": "@;
    let lb = ",\n      \"name\": "@;
    let lc = ",\n      \"db_type\": "@;
    let ld = ",\n      \"endpoint\": "@;
    let le = ",\n      \"remember_password\": "@;
    let lf = ",\n      \"username\": "@;
    let lg = ",\n      \"saved_password_len\": "@;
    let lh = "\n    }"@;
    assert forall|cm: ConnectionConfigModel, rest: Seq<char>|
        wf_conn(cm) && v.skip(p0) == #[trigger] (render_conn(cm) + rest) implies v.skip(p4)
        == lc + (render_db_type(cm.db_type) + (ld + (render_endpoint(cm.endpoint) + (",\n      \"remember_password\": "@ + (render_bool(cm.remember_password) + (",\n      \"username\": "@ + (render_string(cm.username) + (",\n      \"saved_password_len\": "@ + (render_opt_u8(cm.saved_password_len) + ("\n    }"@ + (rest)))))))
    )))) by {
        assert(render_conn(cm) + rest =~= la + (render_id(cm.id) + (lb + (render_string(
            cm.name,
        ) + (lc + (render_db_type(cm.db_type) + (ld + (render_endpoint(cm.endpoint) + (",\n      \"remember_password\": "@ + (render_bool(cm.remember_password) + (",\n      \"username\": "@ + (render_string(cm.username) + (",\n      \"saved_password_len\": "@ + (render_opt_u8(cm.saved_password_len) + ("\n    }"@ + (rest))))))))))))))));
        assert(v.skip(p0) =~= v.subrange(p0, p4) + v.skip(p4));
        assert(la + render_id(id_v.0) + lb + render_string(name_m) + v.skip(p4) =~= la + (
        render_id(id_v.0) + (lb + (render_string(name_m) + v.skip(p4)))));
        lemma_peel(la, render_id(id_v.0) + (lb + (render_string(name_m) + v.skip(p4))),
            render_id(cm.id) + (lb + (render_string(cm.name) + (lc + (render_db_type(cm.db_type) + (ld + (render_endpoint(cm.endpoint) + (",\n      \"remember_password\": "@ + (render_bool(cm.remember_password) + (",\n      \"username\": "@ + (render_string(cm.username) + (",\n      \"saved_password_len\": "@ + (render_opt_u8(cm.saved_password_len) + ("\n    }"@ + (rest)))))))))))))));
        lemma_id_prefix(id_v.0, cm.id, lb + (render_string(name_m) + v.skip(p4)), lb + (
        render_string(cm.name) + (lc + (render_db_type(cm.db_type) + (ld + (render_endpoint(cm.endpoint) + (",\n      \"remember_password\": "@ + (render_bool(cm.remember_password) + (",\n      \"username\": "@ + (render_string(cm.username) + (",\n      \"saved_password_len\": "@ + (render_opt_u8(cm.saved_password_len) + ("\n    }"@ + (rest))))))))))))));
        lemma_peel(lb, render_string(name_m) + v.skip(p4), render_string(cm.name) + (lc + (render_db_type(cm.db_type) + (ld + (render_endpoint(cm.endpoint) + (",\n      \"remember_password\": "@ + (render_bool(cm.remember_password) + (",\n      \"username\": "@ + (render_string(cm.username) + (",\n      \"saved_password_len\": "@ + (render_opt_u8(cm.saved_password_len) + ("\n    }"@ + (rest)))))))))))));
        lemma_string_prefix(name_m, cm.name, v.skip(p4), lc + (render_db_type(cm.db_type) + (ld + (render_endpoint(cm.endpoint) + (",\n      \"remember_password\": "@ + (render_bool(cm.remember_password) + (",\n      \"username\": "@ + (render_string(cm.username) + (",\n      \"saved_password_len\": "@ + (render_opt_u8(cm.saved_password_len) + ("\n    }"@ + (rest))))))))))));
    }
}

/// Once a profile's backend fields have been consumed too, a canonical-
/// profile stream continues with the remaining fields.
#[verifier::rlimit(100)]
#[verifier::spinoff_prover]
proof fn lemma_conn_align_backend(
    v: Seq<char>,
    p0: int,
    p4: int,
    p8: int,
    dbt_v: DatabaseType,
    ep_m: EndpointModel,
)
    requires
        0 <= p0 <= p4 <= p8 <= v.len(),
        v.subrange(p4, p8) == ",\n      \"db_type\": "@ + render_db_type(dbt_v)
            + ",\n      \"endpoint\": "@ + render_endpoint(ep_m),
        forall|cm: ConnectionConfigModel, rest: Seq<char>|
            wf_conn(cm) && v.skip(p0) == #[trigger] (render_conn(cm) + rest) ==> v.skip(p4)
                == ",\n      \"db_type\": "@ + (render_db_type(cm.db_type) + (
            ",\n      \"endpoint\": "@ + (render_endpoint(cm.endpoint) + (",\n      \"remember_password\": "@ + (render_bool(cm.remember_password) + (",\n      \"username\": "@ + (render_string(cm.username) + (",\n      \"saved_password_len\": "@ + (render_opt_u8(cm.saved_password_len) + ("\n    }"@ + (rest))))))))))),
    ensures
        forall|cm: ConnectionConfigModel, rest: Seq<char>|
            wf_conn(cm) && v.skip(p0) == #[trigger] (render_conn(cm) + rest) ==> v.skip(p8)
                == ",\n      \"remember_password\": "@ + (render_bool(cm.remember_password) + (",\n      \"username\": "@ + (render_string(cm.username) + (",\n      \"saved_password_len\": "@ + (render_opt_u8(cm.saved_password_len) + ("\n    }"@ + (rest))))))),
{
    let la = "{\n      \"id\": "@;
    let lb = ",\n      \"name\": "@;
    let lc = ",\n      \"db_type\": "@;
    let ld = ",\n      \"endpoint\": "@;
    let le = ",\n      \"remember_password\": "@;
    let lf = ",\n      \"username\": "@;
    let lg = ",\n      \"saved_password_len\": "@;
    let lh = "\n    }"@;
    assert forall|cm: ConnectionConfigModel, rest: Seq<char>|
        wf_conn(cm) && v.skip(p0) == #[trigger] (render_conn(cm) + rest) implies v.skip(p8)
        == ",\n      \"remember_password\": "@ + (render_bool(cm.remember_password) + (",\n      \"username\": "@ + (render_string(cm.username) + (",\n      \"saved_password_len\": "@ + (render_opt_u8(cm.saved_password_len) + ("\n    }"@ + (rest))))))) by {
        assert(v.skip(p4) == lc + (render_db_type(cm.db_type) + (ld + (render_endpoint(
            cm.endpoint,
        ) + (",\n      \"remember_password\": "@ + (render_bool(cm.remember_password) + (",\n      \"username\": "@ + (render_string(cm.username) + (",\n      \"saved_password_len\": "@ + (render_opt_u8(cm.saved_password_len) + ("\n    }"@ + (rest))))))))))));
        assert(v.skip(p4) =~= v.subrange(p4, p8) + v.skip(p8));
        assert(lc + render_db_type(dbt_v) + ld + render_endpoint(ep_m) + v.skip(p8) =~= lc + (
        render_db_type(dbt_v) + (ld + (render_endpoint(ep_m) + v.skip(p8)))));
        lemma_peel(lc, render_db_type(dbt_v) + (ld + (render_endpoint(ep_m) + v.skip(p8))),
            render_db_type(cm.db_type) + (ld + (render_endpoint(cm.endpoint) + (",\n      \"remember_password\": "@ + (render_bool(cm.remember_password) + (",\n      \"username\": "@ + (render_string(cm.username) + (",\n      \"saved_password_len\": "@ + (render_opt_u8(cm.saved_password_len) + ("\n    }"@ + (rest)))))))))));
        lemma_db_type_prefix(dbt_v, cm.db_type, ld + (render_endpoint(ep_m) + v.skip(p8)), ld
            + (render_endpoint(cm.endpoint) + (",\n      \"remember_password\": "@ + (render_bool(cm.remember_password) + (",\n      \"username\": "@ + (render_string(cm.username) + (",\n      \"saved_password_len\": "@ + (render_opt_u8(cm.saved_password_len) + ("\n    }"@ + (rest))))))))));
        lemma_peel(ld, render_endpoint(ep_m) + v.skip(p8), render_endpoint(cm.endpoint) + (
        ",\n      \"remember_password\": "@ + (render_bool(cm.remember_password) + (",\n      \"username\": "@ + (render_string(cm.username) + (",\n      \"saved_password_len\": "@ + (render_opt_u8(cm.saved_password_len) + ("\n    }"@ + (rest)))))))));
        lemma_endpoint_prefix(ep_m, cm.endpoint, v.skip(p8), ",\n      \"remember_password\": "@ + (render_bool(cm.remember_password) + (",\n      \"username\": "@ + (render_string(cm.username) + (",\n      \"saved_password_len\": "@ + (render_opt_u8(cm.saved_password_len) + ("\n    }"@ + (rest))))))));
    }
}


/// A consumed profile prefix (ending in a separator) aligns with the
/// canonical list it is read from: more profiles must follow.
#[verifier::rlimit(100)]
#[verifier::spinoff_prover]
proof fn lemma_conn_items_align(
    done: Seq<ConnectionConfigModel>,
    sm: Seq<ConnectionConfigModel>,
    x: Seq<char>,
    rest: Seq<char>,
)
    requires
        done.len() >= 1,
        sm.len() >= 1,
        render_conn_items(done) + (",\n    "@ + x) == render_conn_items(sm) + ("\n  ]"@
            + rest),
    ensures
        done.len() < sm.len(),
        x == render_conn_items(sm.skip(done.len() as int)) + ("\n  ]"@ + rest),
    decreases done.len(),
{
    reveal_strlit(",\n    ");
    reveal_strlit("\n  ]");
    let sep = ",\n    "@;
    let endl = "\n  ]"@;
    if done.len() == 1 && sm.len() == 1 {
        assert(render_conn_items(done) == render_conn(done[0]));
        assert(render_conn_items(sm) == render_conn(sm[0]));
        lemma_conn_prefix(done[0], sm[0], sep + x, endl + rest);
        assert((sep + x)[0] == ',');
        assert((endl + rest)[0] == '\n');
        assert(false);
    } else if done.len() == 1 {
        assert(render_conn_items(done) == render_conn(done[0]));
        lemma_conn_items_front(sm);
        assert(render_conn_items(sm) + (endl + rest) =~= render_conn(sm[0]) + (sep + (
        render_conn_items(sm.drop_first()) + (endl + rest))));
        lemma_conn_prefix(done[0], sm[0], sep + x, sep + (render_conn_items(sm.drop_first())
            + (endl + rest)));
        lemma_peel(sep, x, render_conn_items(sm.drop_first()) + (endl + rest));
        assert(sm.drop_first() =~= sm.skip(1));
    } else if sm.len() == 1 {
        assert(render_conn_items(sm) == render_conn(sm[0]));
        lemma_conn_items_front(done);
        assert(render_conn_items(done) + (sep + x) =~= render_conn(done[0]) + (sep + (
        render_conn_items(done.drop_first()) + (sep + x))));
        lemma_conn_prefix(done[0], sm[0], sep + (render_conn_items(done.drop_first()) + (sep
            + x)), endl + rest);
        assert((sep + (render_conn_items(done.drop_first()) + (sep + x)))[0] == ',');
        assert((endl + rest)[0] == '\n');
        assert(false);
    } else {
        lemma_conn_items_front(done);
        lemma_conn_items_front(sm);
        assert(render_conn_items(done) + (sep + x) =~= render_conn(done[0]) + (sep + (
        render_conn_items(done.drop_first()) + (sep + x))));
        assert(render_conn_items(sm) + (endl + rest) =~= render_conn(sm[0]) + (sep + (
        render_conn_items(sm.drop_first()) + (endl + rest))));
        lemma_conn_prefix(done[0], sm[0], sep + (render_conn_items(done.drop_first()) + (sep
            + x)), sep + (render_conn_items(sm.drop_first()) + (endl + rest)));
        lemma_peel(sep, render_conn_items(done.drop_first()) + (sep + x), render_conn_items(
            sm.drop_first(),
        ) + (endl + rest));
        lemma_conn_items_align(done.drop_first(), sm.drop_first(), x, rest);
        assert(sm.drop_first().skip(done.len() - 1) =~= sm.skip(done.len() as int));
    }
}

/// A consumed profile prefix (with no separator pending) either is the
/// whole canonical list, or a separator and more profiles follow.
#[verifier::rlimit(100)]
#[verifier::spinoff_prover]
proof fn lemma_conn_items_align_end(
    done: Seq<ConnectionConfigModel>,
    sm: Seq<ConnectionConfigModel>,
    x: Seq<char>,
    rest: Seq<char>,
)
    requires
        done.len() >= 1,
        sm.len() >= 1,
        render_conn_items(done) + x == render_conn_items(sm) + ("\n  ]"@ + rest),
    ensures
        (done.len() == sm.len() && x == "\n  ]"@ + rest) || (done.len() < sm.len() && x
            == ",\n    "@ + (render_conn_items(sm.skip(done.len() as int)) + ("\n  ]"@
            + rest))),
    decreases done.len(),
{
    reveal_strlit(",\n    ");
    reveal_strlit("\n  ]");
    let sep = ",\n    "@;
    let endl = "\n  ]"@;
    if done.len() == 1 && sm.len() == 1 {
        assert(render_conn_items(done) == render_conn(done[0]));
        assert(render_conn_items(sm) == render_conn(sm[0]));
        lemma_conn_prefix(done[0], sm[0], x, endl + rest);
    } else if done.len() == 1 {
        assert(render_conn_items(done) == render_conn(done[0]));
        lemma_conn_items_front(sm);
        assert(render_conn_items(sm) + (endl + rest) =~= render_conn(sm[0]) + (sep + (
        render_conn_items(sm.drop_first()) + (endl + rest))));
        lemma_conn_prefix(done[0], sm[0], x, sep + (render_conn_items(sm.drop_first()) + (
        endl + rest)));
        assert(sm.drop_first() =~= sm.skip(1));
    } else if sm.len() == 1 {
        assert(render_conn_items(sm) == render_conn(sm[0]));
        lemma_conn_items_front(done);
        assert(render_conn_items(done) + x =~= render_conn(done[0]) + (sep + (
        render_conn_items(done.drop_first()) + x)));
        lemma_conn_prefix(done[0], sm[0], sep + (render_conn_items(done.drop_first()) + x),
            endl + rest);
        assert((sep + (render_conn_items(done.drop_first()) + x))[0] == ',');
        assert((endl + rest)[0] == '\n');
        assert(false);
    } else {
        lemma_conn_items_front(done);
        lemma_conn_items_front(sm);
        assert(render_conn_items(done) + x =~= render_conn(done[0]) + (sep + (
        render_conn_items(done.drop_first()) + x)));
        assert(render_conn_items(sm) + (endl + rest) =~= render_conn(sm[0]) + (sep + (
        render_conn_items(sm.drop_first()) + (endl + rest))));
        lemma_conn_prefix(done[0], sm[0], sep + (render_conn_items(done.drop_first()) + x),
            sep + (render_conn_items(sm.drop_first()) + (endl + rest)));
        lemma_peel(sep, render_conn_items(done.drop_first()) + x, render_conn_items(
            sm.drop_first(),
        ) + (endl + rest));
        lemma_conn_items_align_end(done.drop_first(), sm.drop_first(), x, rest);
        assert(sm.drop_first().skip(done.len() - 1) =~= sm.skip(done.len() as int));
    }
}

/// When the profile reader gives up mid-list, no canonical profile list
/// can sit at the list's start.
#[verifier::rlimit(100)]
#[verifier::spinoff_prover]
proof fn reject_conns_item(
    v: Seq<char>,
    p0: int,
    pbody: int,
    pa: int,
    items_prev: Seq<ConnectionConfigModel>,
)
    requires
        0 <= p0 <= pbody <= pa <= v.len(),
        v.subrange(p0, pbody) == "[\n    "@,
        items_prev.len() == 0 ==> pa == pbody,
        items_prev.len() >= 1 ==> v.subrange(pbody, pa) == render_conn_items(items_prev)
            + ",\n    "@,
        forall|cm: ConnectionConfigModel, rest2: Seq<char>|
            !(wf_conn(cm) && v.skip(pa) == #[trigger] (render_conn(cm) + rest2)),
    ensures
        forall|sm: Seq<ConnectionConfigModel>, rest: Seq<char>|
            !((forall|i: int| 0 <= i < sm.len() ==> wf_conn(#[trigger] sm[i])) && v.skip(p0)
                == #[trigger] (render_conns(sm) + rest)),
{
    reveal_strlit("[]");
    reveal_strlit("[\n    ");
    reveal_strlit(",\n    ");
    reveal_strlit("\n  ]");
    assert forall|sm: Seq<ConnectionConfigModel>, rest: Seq<char>|
        !((forall|i: int| 0 <= i < sm.len() ==> wf_conn(#[trigger] sm[i])) && v.skip(p0) == #[trigger] (render_conns(sm) + rest)) by {
        if (forall|i: int| 0 <= i < sm.len() ==> wf_conn(#[trigger] sm[i]))
            && v.skip(p0) == render_conns(sm) + rest {
            if sm.len() == 0 {
                assert(("[\n    "@).len() == 6);
        assert(pbody - p0 == 6);
        assert(v.skip(p0)[1] == v[p0 + 1]);
                assert(("[]"@ + rest)[1] == ']');
                assert(v.subrange(p0, pbody)[1] == v[p0 + 1]);
                assert("[\n    "@[1] == '\n');
                assert(false);
            } else {
                assert(render_conns(sm) + rest =~= "[\n    "@ + (
                render_conn_items(sm) + ("\n  ]"@ + rest)));
                assert(v.skip(p0) =~= v.subrange(p0, pbody)
                    + v.skip(pbody));
                lemma_peel(
                    "[\n    "@,
                    v.skip(pbody),
                    render_conn_items(sm) + ("\n  ]"@ + rest),
                );
                assert(v.skip(pbody) =~= v.subrange(
                    pbody,
                    pa,
                ) + v.skip(pa));
                if items_prev.len() == 0 {
                    assert(pa == pbody);
                    if sm.len() == 1 {
                        assert(render_conn_items(sm) == render_conn(sm[0]));
                        assert(v.skip(pa) == render_conn(sm[0]) + ("\n  ]"@
                            + rest));
                    } else {
                        lemma_conn_items_front(sm);
                        assert(v.skip(pa) =~= render_conn(sm[0]) + (
                        ",\n    "@ + (render_conn_items(sm.drop_first()) + (
                        "\n  ]"@ + rest))));
                    }
                    assert(wf_conn(sm[0]));
                } else {
                    assert(render_conn_items(items_prev) + (",\n    "@
                        + v.skip(pa)) =~= (render_conn_items(items_prev)
                        + ",\n    "@) + v.skip(pa));
                    lemma_conn_items_align(items_prev, sm, v.skip(pa), rest);
                    let d = items_prev.len() as int;
                    if sm.skip(d).len() == 1 {
                        assert(render_conn_items(sm.skip(d)) == render_conn(
                            sm.skip(d)[0],
                        ));
                        assert(v.skip(pa) == render_conn(sm.skip(d)[0]) + (
                        "\n  ]"@ + rest));
                    } else {
                        lemma_conn_items_front(sm.skip(d));
                        assert(v.skip(pa) =~= render_conn(sm.skip(d)[0]) + (
                        ",\n    "@ + (render_conn_items(
                            sm.skip(d).drop_first(),
                        ) + ("\n  ]"@ + rest))));
                    }
                    assert(sm.skip(d)[0] == sm[d]);
                    assert(wf_conn(sm[d]));
                }
                assert(false);
            }
        }
    }
}

/// When neither a separator nor the closing bracket line follows a parsed
/// profile, no canonical profile list can sit at the list's start.
#[verifier::rlimit(100)]
#[verifier::spinoff_prover]
proof fn reject_conns_end(
    v: Seq<char>,
    p0: int,
    pbody: int,
    pb: int,
    models: Seq<ConnectionConfigModel>,
)
    requires
        0 <= p0 <= pbody <= pb <= v.len(),
        v.subrange(p0, pbody) == "[\n    "@,
        models.len() >= 1,
        v.subrange(pbody, pb) == render_conn_items(models),
        !(pb + "\n  ]"@.len() <= v.len() && v.subrange(pb, pb + "\n  ]"@.len())
            == "\n  ]"@),
        !(pb + ",\n    "@.len() <= v.len() && v.subrange(pb, pb + ",\n    "@.len())
            == ",\n    "@),
    ensures
        forall|sm: Seq<ConnectionConfigModel>, rest: Seq<char>|
            !((forall|i: int| 0 <= i < sm.len() ==> wf_conn(#[trigger] sm[i])) && v.skip(p0)
                == #[trigger] (render_conns(sm) + rest)),
{
    reveal_strlit("[]");
    reveal_strlit("[\n    ");
    reveal_strlit(",\n    ");
    reveal_strlit("\n  ]");
    assert forall|sm: Seq<ConnectionConfigModel>, rest: Seq<char>|
        !((forall|i: int| 0 <= i < sm.len() ==> wf_conn(#[trigger] sm[i])) && v.skip(p0) == #[trigger] (render_conns(sm) + rest)) by {
        if (forall|i: int| 0 <= i < sm.len() ==> wf_conn(
            #[trigger] sm[i],
        )) && v.skip(p0) == render_conns(sm) + rest {
            if sm.len() == 0 {
                assert(("[\n    "@).len() == 6);
        assert(pbody - p0 == 6);
        assert(v.skip(p0)[1] == v[p0 + 1]);
                assert(("[]"@ + rest)[1] == ']');
                assert(v.subrange(p0, pbody)[1] == v[p0 + 1]);
                assert("[\n    "@[1] == '\n');
                assert(false);
            } else {
                assert(render_conns(sm) + rest =~= "[\n    "@ + (
                render_conn_items(sm) + ("\n  ]"@ + rest)));
                assert(v.skip(p0) =~= v.subrange(p0, pbody)
                    + v.skip(pbody));
                lemma_peel(
                    "[\n    "@,
                    v.skip(pbody),
                    render_conn_items(sm) + ("\n  ]"@ + rest),
                );
                assert(v.skip(pbody) =~= v.subrange(
                    pbody,
                    pb,
                ) + v.skip(pb));
                lemma_conn_items_align_end(models, sm, v.skip(pb), rest);
                if models.len() == sm.len() {
                    lemma_skip_concat("\n  ]"@, rest);
                    assert(v.skip(pb).len() == v.len() - (pb));
                    assert(pb + ("\n  ]"@).len() <= v.len());
                    assert forall|m: int| 0 <= m < ("\n  ]"@).len() implies v.subrange(pb, pb + ("\n  ]"@).len())[m] == ("\n  ]"@)[m] by {
                        assert(v.skip(pb)[m] == v[pb + m]);
                        assert((("\n  ]"@) + (rest))[m] == ("\n  ]"@)[m]);
                        assert(v.subrange(pb, pb + ("\n  ]"@).len())[m] == v[pb + m]);
                    }
                    assert(v.subrange(pb, pb + ("\n  ]"@).len()) =~= "\n  ]"@);
                    assert(false);
                } else {
                    lemma_skip_concat(",\n    "@, render_conn_items(sm.skip(models.len() as int)) + ("\n  ]"@ + rest));
                    assert(v.skip(pb).len() == v.len() - (pb));
                    assert(pb + (",\n    "@).len() <= v.len());
                    assert forall|m: int| 0 <= m < (",\n    "@).len() implies v.subrange(pb, pb + (",\n    "@).len())[m] == (",\n    "@)[m] by {
                        assert(v.skip(pb)[m] == v[pb + m]);
                        assert(((",\n    "@) + (render_conn_items(sm.skip(models.len() as int)) + ("\n  ]"@ + rest)))[m] == (",\n    "@)[m]);
                        assert(v.subrange(pb, pb + (",\n    "@).len())[m] == v[pb + m]);
                    }
                    assert(v.subrange(pb, pb + (",\n    "@).len()) =~= ",\n    "@);
                    assert(false);
                }
            }
        }
    }
}

/// Reads the profile list; on a stream holding a canonical list of
/// carryable profiles the read succeeds.
#[verifier::rlimit(100)]
#[verifier::spinoff_prover]
fn parse_conns(v: &Vec<char>, p: &mut usize) -> (r: Result<Vec<ConnectionConfig>, ()>)
    requires
        (*old(p)) <= v@.len(),
    ensures
        r matches Ok(items) ==> (*old(p)) <= (*final(p)) && (*final(p)) <= v@.len()
            && v@.subrange((*old(p)) as int, (*final(p)) as int) == render_conns(
            items@.map_values(|c: ConnectionConfig| c@),
        ) && forall|i: int| 0 <= i < items@.len() ==> wf_conn(#[trigger] items@[i]@),
        forall|sm: Seq<ConnectionConfigModel>, rest: Seq<char>|
            (forall|i: int| 0 <= i < sm.len() ==> wf_conn(#[trigger] sm[i])) && v@.skip((*old(p)) as int) == #[trigger] (render_conns(sm) + rest)
                ==> r is Ok,
{
    proof {
        reveal_strlit("[]");
        reveal_strlit("[\n    ");
        reveal_strlit(",\n    ");
        reveal_strlit("\n  ]");
    }
    let ghost p0: int = *p as int;
    if peek_lit(v, *p, "[]") {
        match expect_lit(v, p, "[]") {
            Ok(()) => {
                let items: Vec<ConnectionConfig> = Vec::new();
                proof {
                    assert(items@.map_values(|c: ConnectionConfig| c@) =~= Seq::<
                        ConnectionConfigModel,
                    >::empty());
                }
                Ok(items)
            },
            Err(()) => Err(()),
        }
    } else {
        let open_r = expect_lit(v, p, "[\n    ");
        proof {
            if open_r is Err {
                assert forall|sm: Seq<ConnectionConfigModel>, rest: Seq<char>|
                    !((forall|i: int| 0 <= i < sm.len() ==> wf_conn(#[trigger] sm[i])) && v@.skip(p0) == #[trigger] (render_conns(sm) + rest)) by {
                    if (forall|i: int| 0 <= i < sm.len() ==> wf_conn(#[trigger] sm[i]))
                        && v@.skip(p0) == render_conns(sm) + rest {
                        if sm.len() == 0 {
                            lemma_skip_concat("[]"@, rest);
                            assert(v@.skip(p0).len() == v@.len() - (p0));
                            assert(p0 + ("[]"@).len() <= v@.len());
                            assert forall|m: int| 0 <= m < ("[]"@).len() implies v@.subrange(p0, p0 + ("[]"@).len())[m] == ("[]"@)[m] by {
                                assert(v@.skip(p0)[m] == v@[p0 + m]);
                                assert((("[]"@) + (rest))[m] == ("[]"@)[m]);
                                assert(v@.subrange(p0, p0 + ("[]"@).len())[m] == v@[p0 + m]);
                            }
                            assert(v@.subrange(p0, p0 + ("[]"@).len()) =~= "[]"@);
                        } else {
                            assert(render_conns(sm) + rest =~= "[\n    "@ + (
                            render_conn_items(sm) + ("\n  ]"@ + rest)));
                            lemma_skip_concat("[\n    "@, render_conn_items(sm) + ("\n  ]"@ + rest));
                            assert(v@.skip(p0).len() == v@.len() - (p0));
                            assert(p0 + ("[\n    "@).len() <= v@.len());
                            assert forall|m: int| 0 <= m < ("[\n    "@).len() implies v@.subrange(p0, p0 + ("[\n    "@).len())[m] == ("[\n    "@)[m] by {
                                assert(v@.skip(p0)[m] == v@[p0 + m]);
                                assert((("[\n    "@) + (render_conn_items(sm) + ("\n  ]"@ + rest)))[m] == ("[\n    "@)[m]);
                                assert(v@.subrange(p0, p0 + ("[\n    "@).len())[m] == v@[p0 + m]);
                            }
                            assert(v@.subrange(p0, p0 + ("[\n    "@).len()) =~= "[\n    "@);
                        }
                        assert(false);
                    }
                }
            }
        }
        if open_r.is_err() {
            return Err(());
        }
        let ghost pbody: int = *p as int;
        let mut items: Vec<ConnectionConfig> = Vec::new();
        loop
            invariant
                0 <= p0 <= pbody <= *p <= v@.len(),
                p0 == (*old(p)) as int,
                v@.subrange(p0, pbody as int) == "[\n    "@,
                items@.len() == 0 ==> *p == pbody,
                items@.len() >= 1 ==> v@.subrange(pbody as int, *p as int)
                    == render_conn_items(items@.map_values(|c: ConnectionConfig| c@))
                    + ",\n    "@,
                forall|i: int| 0 <= i < items@.len() ==> wf_conn(#[trigger] items@[i]@),
            decreases v@.len() - *p,
        {
            let ghost items_prev = items@.map_values(|c: ConnectionConfig| c@);
            let ghost pa: int = *p as int;
            let cr = parse_conn(v, p);
            proof {
                if cr is Err {
                    assert forall|cm: ConnectionConfigModel, rest2: Seq<char>|
                        !(wf_conn(cm) && v@.skip(pa) == #[trigger] (render_conn(cm)
                            + rest2)) by {
                        if wf_conn(cm) && v@.skip(pa) == render_conn(cm) + rest2 {
                            assert(false);
                        }
                    }
                    reject_conns_item(v@, p0, pbody as int, pa, items_prev);
                }
            }
            let c = match cr {
                Ok(c) => c,
                Err(()) => {
                    return Err(());
                },
            };
            items.push(c);
            proof {
                assert(items@.map_values(|c: ConnectionConfig| c@) =~= items_prev.push(c@));
                let models = items@.map_values(|c: ConnectionConfig| c@);
                if items_prev.len() == 0 {
                    assert(models.len() == 1);
                    assert(models[0] == c@);
                    assert(render_conn_items(models) == render_conn(c@));
                    assert(v@.subrange(pbody as int, *p as int) == render_conn_items(models));
                } else {
                    assert(models.drop_last() =~= items_prev);
                    assert(models.last() == c@);
                    assert(render_conn_items(models) == render_conn_items(items_prev)
                        + ",\n    "@ + render_conn(c@));
                    assert(v@.subrange(pbody as int, *p as int) =~= v@.subrange(
                        pbody as int,
                        pa,
                    ) + v@.subrange(pa, *p as int));
                    assert(v@.subrange(pbody as int, *p as int) =~= render_conn_items(models));
                }
            }
            if peek_lit(v, *p, ",\n    ") {
                let ghost pb: int = *p as int;
                if expect_lit(v, p, ",\n    ").is_err() {
                    return Err(());
                }
                proof {
                    assert(v@.subrange(pbody as int, *p as int) =~= v@.subrange(
                        pbody as int,
                        pb,
                    ) + v@.subrange(pb, *p as int));
                }
            } else {
                let ghost pb: int = *p as int;
                let end_r = expect_lit(v, p, "\n  ]");
                proof {
                    if end_r is Err {
                        reveal_strlit(",\n    ");
                        reveal_strlit("\n  ]");
                        let models = items@.map_values(|c: ConnectionConfig| c@);
                        reject_conns_end(v@, p0, pbody as int, pb, models);
                    }
                }
                if end_r.is_err() {
                    return Err(());
                }
                proof {
                    let models = items@.map_values(|c: ConnectionConfig| c@);
                    assert(models.len() >= 1);
                    assert(v@.subrange(p0, *p as int) =~= v@.subrange(p0, pbody as int)
                        + v@.subrange(pbody as int, pb) + v@.subrange(pb, *p as int));
                    assert(v@.subrange(p0, *p as int) == render_conns(models));
                }
                return Ok(items);
            }
        }
    }
}

/// A consumed id prefix (ending in a separator) aligns with the
/// canonical list it is read from: more profiles must follow.
#[verifier::rlimit(100)]
#[verifier::spinoff_prover]
proof fn lemma_id_items_align(
    done: Seq<u128>,
    sm: Seq<u128>,
    x: Seq<char>,
    rest: Seq<char>,
)
    requires
        done.len() >= 1,
        sm.len() >= 1,
        render_id_items(done) + (",\n    "@ + x) == render_id_items(sm) + ("\n  ]"@
            + rest),
    ensures
        done.len() < sm.len(),
        x == render_id_items(sm.skip(done.len() as int)) + ("\n  ]"@ + rest),
    decreases done.len(),
{
    reveal_strlit(",\n    ");
    reveal_strlit("\n  ]");
    let sep = ",\n    "@;
    let endl = "\n  ]"@;
    if done.len() == 1 && sm.len() == 1 {
        assert(render_id_items(done) == render_id(done[0]));
        assert(render_id_items(sm) == render_id(sm[0]));
        lemma_id_prefix(done[0], sm[0], sep + x, endl + rest);
        assert((sep + x)[0] == ',');
        assert((endl + rest)[0] == '\n');
        assert(false);
    } else if done.len() == 1 {
        assert(render_id_items(done) == render_id(done[0]));
        lemma_id_items_front(sm);
        assert(render_id_items(sm) + (endl + rest) =~= render_id(sm[0]) + (sep + (
        render_id_items(sm.drop_first()) + (endl + rest))));
        lemma_id_prefix(done[0], sm[0], sep + x, sep + (render_id_items(sm.drop_first())
            + (endl + rest)));
        lemma_peel(sep, x, render_id_items(sm.drop_first()) + (endl + rest));
        assert(sm.drop_first() =~= sm.skip(1));
    } else if sm.len() == 1 {
        assert(render_id_items(sm) == render_id(sm[0]));
        lemma_id_items_front(done);
        assert(render_id_items(done) + (sep + x) =~= render_id(done[0]) + (sep + (
        render_id_items(done.drop_first()) + (sep + x))));
        lemma_id_prefix(done[0], sm[0], sep + (render_id_items(done.drop_first()) + (sep
            + x)), endl + rest);
        assert((sep + (render_id_items(done.drop_first()) + (sep + x)))[0] == ',');
        assert((endl + rest)[0] == '\n');
        assert(false);
    } else {
        lemma_id_items_front(done);
        lemma_id_items_front(sm);
        assert(render_id_items(done) + (sep + x) =~= render_id(done[0]) + (sep + (
        render_id_items(done.drop_first()) + (sep + x))));
        assert(render_id_items(sm) + (endl + rest) =~= render_id(sm[0]) + (sep + (
        render_id_items(sm.drop_first()) + (endl + rest))));
        lemma_id_prefix(done[0], sm[0], sep + (render_id_items(done.drop_first()) + (sep
            + x)), sep + (render_id_items(sm.drop_first()) + (endl + rest)));
        lemma_peel(sep, render_id_items(done.drop_first()) + (sep + x), render_id_items(
            sm.drop_first(),
        ) + (endl + rest));
        lemma_id_items_align(done.drop_first(), sm.drop_first(), x, rest);
        assert(sm.drop_first().skip(done.len() - 1) =~= sm.skip(done.len() as int));
    }
}

/// A consumed id prefix (with no separator pending) either is the
/// whole canonical list, or a separator and more profiles follow.
#[verifier::rlimit(100)]
#[verifier::spinoff_prover]
proof fn lemma_id_items_align_end(
    done: Seq<u128>,
    sm: Seq<u128>,
    x: Seq<char>,
    rest: Seq<char>,
)
    requires
        done.len() >= 1,
        sm.len() >= 1,
        render_id_items(done) + x == render_id_items(sm) + ("\n  ]"@ + rest),
    ensures
        (done.len() == sm.len() && x == "\n  ]"@ + rest) || (done.len() < sm.len() && x
            == ",\n    "@ + (render_id_items(sm.skip(done.len() as int)) + ("\n  ]"@
            + rest))),
    decreases done.len(),
{
    reveal_strlit(",\n    ");
    reveal_strlit("\n  ]");
    let sep = ",\n    "@;
    let endl = "\n  ]"@;
    if done.len() == 1 && sm.len() == 1 {
        assert(render_id_items(done) == render_id(done[0]));
        assert(render_id_items(sm) == render_id(sm[0]));
        lemma_id_prefix(done[0], sm[0], x, endl + rest);
    } else if done.len() == 1 {
        assert(render_id_items(done) == render_id(done[0]));
        lemma_id_items_front(sm);
        assert(render_id_items(sm) + (endl + rest) =~= render_id(sm[0]) + (sep + (
        render_id_items(sm.drop_first()) + (endl + rest))));
        lemma_id_prefix(done[0], sm[0], x, sep + (render_id_items(sm.drop_first()) + (
        endl + rest)));
        assert(sm.drop_first() =~= sm.skip(1));
    } else if sm.len() == 1 {
        assert(render_id_items(sm) == render_id(sm[0]));
        lemma_id_items_front(done);
        assert(render_id_items(done) + x =~= render_id(done[0]) + (sep + (
        render_id_items(done.drop_first()) + x)));
        lemma_id_prefix(done[0], sm[0], sep + (render_id_items(done.drop_first()) + x),
            endl + rest);
        assert((sep + (render_id_items(done.drop_first()) + x))[0] == ',');
        assert((endl + rest)[0] == '\n');
        assert(false);
    } else {
        lemma_id_items_front(done);
        lemma_id_items_front(sm);
        assert(render_id_items(done) + x =~= render_id(done[0]) + (sep + (
        render_id_items(done.drop_first()) + x)));
        assert(render_id_items(sm) + (endl + rest) =~= render_id(sm[0]) + (sep + (
        render_id_items(sm.drop_first()) + (endl + rest))));
        lemma_id_prefix(done[0], sm[0], sep + (render_id_items(done.drop_first()) + x),
            sep + (render_id_items(sm.drop_first()) + (endl + rest)));
        lemma_peel(sep, render_id_items(done.drop_first()) + x, render_id_items(
            sm.drop_first(),
        ) + (endl + rest));
        lemma_id_items_align_end(done.drop_first(), sm.drop_first(), x, rest);
        assert(sm.drop_first().skip(done.len() - 1) =~= sm.skip(done.len() as int));
    }
}

/// When the id reader gives up mid-list, no canonical id list
/// can sit at the list's start.
#[verifier::rlimit(100)]
#[verifier::spinoff_prover]
proof fn reject_ids_item(
    v: Seq<char>,
    p0: int,
    pbody: int,
    pa: int,
    items_prev: Seq<u128>,
)
    requires
        0 <= p0 <= pbody <= pa <= v.len(),
        v.subrange(p0, pbody) == "[\n    "@,
        items_prev.len() == 0 ==> pa == pbody,
        items_prev.len() >= 1 ==> v.subrange(pbody, pa) == render_id_items(items_prev)
            + ",\n    "@,
        forall|cm: u128, rest2: Seq<char>|
            !(v.skip(pa) == #[trigger] (render_id(cm) + rest2)),
    ensures
        forall|sm: Seq<u128>, rest: Seq<char>|
            !(v.skip(p0)
                == #[trigger] (render_ids(sm) + rest)),
{
    reveal_strlit("[]");
    reveal_strlit("[\n    ");
    reveal_strlit(",\n    ");
    reveal_strlit("\n  ]");
    assert forall|sm: Seq<u128>, rest: Seq<char>|
        !(v.skip(p0) == #[trigger] (render_ids(sm) + rest)) by {
        if v.skip(p0) == render_ids(sm) + rest {
            if sm.len() == 0 {
                assert(("[\n    "@).len() == 6);
        assert(pbody - p0 == 6);
        assert(v.skip(p0)[1] == v[p0 + 1]);
                assert(("[]"@ + rest)[1] == ']');
                assert(v.subrange(p0, pbody)[1] == v[p0 + 1]);
                assert("[\n    "@[1] == '\n');
                assert(false);
            } else {
                assert(render_ids(sm) + rest =~= "[\n    "@ + (
                render_id_items(sm) + ("\n  ]"@ + rest)));
                assert(v.skip(p0) =~= v.subrange(p0, pbody)
                    + v.skip(pbody));
                lemma_peel(
                    "[\n    "@,
                    v.skip(pbody),
                    render_id_items(sm) + ("\n  ]"@ + rest),
                );
                assert(v.skip(pbody) =~= v.subrange(
                    pbody,
                    pa,
                ) + v.skip(pa));
                if items_prev.len() == 0 {
                    assert(pa == pbody);
                    if sm.len() == 1 {
                        assert(render_id_items(sm) == render_id(sm[0]));
                        assert(v.skip(pa) == render_id(sm[0]) + ("\n  ]"@
                            + rest));
                    } else {
                        lemma_id_items_front(sm);
                        assert(v.skip(pa) =~= render_id(sm[0]) + (
                        ",\n    "@ + (render_id_items(sm.drop_first()) + (
                        "\n  ]"@ + rest))));
                    }
                                    } else {
                    assert(render_id_items(items_prev) + (",\n    "@
                        + v.skip(pa)) =~= (render_id_items(items_prev)
                        + ",\n    "@) + v.skip(pa));
                    lemma_id_items_align(items_prev, sm, v.skip(pa), rest);
                    let d = items_prev.len() as int;
                    if sm.skip(d).len() == 1 {
                        assert(render_id_items(sm.skip(d)) == render_id(
                            sm.skip(d)[0],
                        ));
                        assert(v.skip(pa) == render_id(sm.skip(d)[0]) + (
                        "\n  ]"@ + rest));
                    } else {
                        lemma_id_items_front(sm.skip(d));
                        assert(v.skip(pa) =~= render_id(sm.skip(d)[0]) + (
                        ",\n    "@ + (render_id_items(
                            sm.skip(d).drop_first(),
                        ) + ("\n  ]"@ + rest))));
                    }
                    assert(sm.skip(d)[0] == sm[d]);
                                    }
                assert(false);
            }
        }
    }
}

/// When neither a separator nor the closing bracket line follows a parsed
/// id, no canonical id list can sit at the list's start.
#[verifier::rlimit(100)]
#[verifier::spinoff_prover]
proof fn reject_ids_end(
    v: Seq<char>,
    p0: int,
    pbody: int,
    pb: int,
    models: Seq<u128>,
)
    requires
        0 <= p0 <= pbody <= pb <= v.len(),
        v.subrange(p0, pbody) == "[\n    "@,
        models.len() >= 1,
        v.subrange(pbody, pb) == render_id_items(models),
        !(pb + "\n  ]"@.len() <= v.len() && v.subrange(pb, pb + "\n  ]"@.len())
            == "\n  ]"@),
        !(pb + ",\n    "@.len() <= v.len() && v.subrange(pb, pb + ",\n    "@.len())
            == ",\n    "@),
    ensures
        forall|sm: Seq<u128>, rest: Seq<char>|
            !(v.skip(p0)
                == #[trigger] (render_ids(sm) + rest)),
{
    reveal_strlit("[]");
    reveal_strlit("[\n    ");
    reveal_strlit(",\n    ");
    reveal_strlit("\n  ]");
    assert forall|sm: Seq<u128>, rest: Seq<char>|
        !(v.skip(p0) == #[trigger] (render_ids(sm) + rest)) by {
        if v.skip(p0) == render_ids(sm) + rest {
            if sm.len() == 0 {
                assert(("[\n    "@).len() == 6);
        assert(pbody - p0 == 6);
        assert(v.skip(p0)[1] == v[p0 + 1]);
                assert(("[]"@ + rest)[1] == ']');
                assert(v.subrange(p0, pbody)[1] == v[p0 + 1]);
                assert("[\n    "@[1] == '\n');
                assert(false);
            } else {
                assert(render_ids(sm) + rest =~= "[\n    "@ + (
                render_id_items(sm) + ("\n  ]"@ + rest)));
                assert(v.skip(p0) =~= v.subrange(p0, pbody)
                    + v.skip(pbody));
                lemma_peel(
                    "[\n    "@,
                    v.skip(pbody),
                    render_id_items(sm) + ("\n  ]"@ + rest),
                );
                assert(v.skip(pbody) =~= v.subrange(
                    pbody,
                    pb,
                ) + v.skip(pb));
                lemma_id_items_align_end(models, sm, v.skip(pb), rest);
                if models.len() == sm.len() {
                    lemma_skip_concat("\n  ]"@, rest);
                    assert(v.skip(pb).len() == v.len() - (pb));
                    assert(pb + ("\n  ]"@).len() <= v.len());
                    assert forall|m: int| 0 <= m < ("\n  ]"@).len() implies v.subrange(pb, pb + ("\n  ]"@).len())[m] == ("\n  ]"@)[m] by {
                        assert(v.skip(pb)[m] == v[pb + m]);
                        assert((("\n  ]"@) + (rest))[m] == ("\n  ]"@)[m]);
                        assert(v.subrange(pb, pb + ("\n  ]"@).len())[m] == v[pb + m]);
                    }
                    assert(v.subrange(pb, pb + ("\n  ]"@).len()) =~= "\n  ]"@);
                    assert(false);
                } else {
                    lemma_skip_concat(",\n    "@, render_id_items(sm.skip(models.len() as int)) + ("\n  ]"@ + rest));
                    assert(v.skip(pb).len() == v.len() - (pb));
                    assert(pb + (",\n    "@).len() <= v.len());
                    assert forall|m: int| 0 <= m < (",\n    "@).len() implies v.subrange(pb, pb + (",\n    "@).len())[m] == (",\n    "@)[m] by {
                        assert(v.skip(pb)[m] == v[pb + m]);
                        assert(((",\n    "@) + (render_id_items(sm.skip(models.len() as int)) + ("\n  ]"@ + rest)))[m] == (",\n    "@)[m]);
                        assert(v.subrange(pb, pb + (",\n    "@).len())[m] == v[pb + m]);
                    }
                    assert(v.subrange(pb, pb + (",\n    "@).len()) =~= ",\n    "@);
                    assert(false);
                }
            }
        }
    }
}

/// Reads the active-id list; on a stream holding a canonical list of ids the read succeeds.
#[verifier::rlimit(100)]
#[verifier::spinoff_prover]
fn parse_ids(v: &Vec<char>, p: &mut usize) -> (r: Result<Vec<ConnectionId>, ()>)
    requires
        (*old(p)) <= v@.len(),
    ensures
        r matches Ok(items) ==> (*old(p)) <= (*final(p)) && (*final(p)) <= v@.len()
            && v@.subrange((*old(p)) as int, (*final(p)) as int) == render_ids(
            items@.map_values(|i: ConnectionId| i.0),
        ),
        forall|sm: Seq<u128>, rest: Seq<char>|
            v@.skip((*old(p)) as int) == #[trigger] (render_ids(sm) + rest)
                ==> r is Ok,
{
    proof {
        reveal_strlit("[]");
        reveal_strlit("[\n    ");
        reveal_strlit(",\n    ");
        reveal_strlit("\n  ]");
    }
    let ghost p0: int = *p as int;
    if peek_lit(v, *p, "[]") {
        match expect_lit(v, p, "[]") {
            Ok(()) => {
                let items: Vec<ConnectionId> = Vec::new();
                proof {
                    assert(items@.map_values(|i: ConnectionId| i.0) =~= Seq::<
                        u128,
                    >::empty());
                }
                Ok(items)
            },
            Err(()) => Err(()),
        }
    } else {
        let open_r = expect_lit(v, p, "[\n    ");
        proof {
            if open_r is Err {
                assert forall|sm: Seq<u128>, rest: Seq<char>|
                    !(v@.skip(p0) == #[trigger] (render_ids(sm) + rest)) by {
                    if v@.skip(p0) == render_ids(sm) + rest {
                        if sm.len() == 0 {
                            lemma_skip_concat("[]"@, rest);
                            assert(v@.skip(p0).len() == v@.len() - (p0));
                            assert(p0 + ("[]"@).len() <= v@.len());
                            assert forall|m: int| 0 <= m < ("[]"@).len() implies v@.subrange(p0, p0 + ("[]"@).len())[m] == ("[]"@)[m] by {
                                assert(v@.skip(p0)[m] == v@[p0 + m]);
                                assert((("[]"@) + (rest))[m] == ("[]"@)[m]);
                                assert(v@.subrange(p0, p0 + ("[]"@).len())[m] == v@[p0 + m]);
                            }
                            assert(v@.subrange(p0, p0 + ("[]"@).len()) =~= "[]"@);
                        } else {
                            assert(render_ids(sm) + rest =~= "[\n    "@ + (
                            render_id_items(sm) + ("\n  ]"@ + rest)));
                            lemma_skip_concat("[\n    "@, render_id_items(sm) + ("\n  ]"@ + rest));
                            assert(v@.skip(p0).len() == v@.len() - (p0));
                            assert(p0 + ("[\n    "@).len() <= v@.len());
                            assert forall|m: int| 0 <= m < ("[\n    "@).len() implies v@.subrange(p0, p0 + ("[\n    "@).len())[m] == ("[\n    "@)[m] by {
                                assert(v@.skip(p0)[m] == v@[p0 + m]);
                                assert((("[\n    "@) + (render_id_items(sm) + ("\n  ]"@ + rest)))[m] == ("[\n    "@)[m]);
                                assert(v@.subrange(p0, p0 + ("[\n    "@).len())[m] == v@[p0 + m]);
                            }
                            assert(v@.subrange(p0, p0 + ("[\n    "@).len()) =~= "[\n    "@);
                        }
                        assert(false);
                    }
                }
            }
        }
        if open_r.is_err() {
            return Err(());
        }
        let ghost pbody: int = *p as int;
        let mut items: Vec<ConnectionId> = Vec::new();
        loop
            invariant
                0 <= p0 <= pbody <= *p <= v@.len(),
                p0 == (*old(p)) as int,
                v@.subrange(p0, pbody as int) == "[\n    "@,
                items@.len() == 0 ==> *p == pbody,
                items@.len() >= 1 ==> v@.subrange(pbody as int, *p as int)
                    == render_id_items(items@.map_values(|i: ConnectionId| i.0))
                    + ",\n    "@,
            decreases v@.len() - *p,
        {
            let ghost items_prev = items@.map_values(|i: ConnectionId| i.0);
            let ghost pa: int = *p as int;
            let cr = parse_id(v, p);
            proof {
                if cr is Err {
                    assert forall|cm: u128, rest2: Seq<char>|
                        !(v@.skip(pa) == #[trigger] (render_id(cm) + rest2)) by {
                        if v@.skip(pa) == render_id(cm) + rest2 {
                            assert(false);
                        }
                    }
                    reject_ids_item(v@, p0, pbody as int, pa, items_prev);
                }
            }
            let c = match cr {
                Ok(c) => c,
                Err(()) => {
                    return Err(());
                },
            };
            items.push(c);
            proof {
                assert(items@.map_values(|i: ConnectionId| i.0) =~= items_prev.push(c.0));
                let models = items@.map_values(|i: ConnectionId| i.0);
                if items_prev.len() == 0 {
                    assert(models.len() == 1);
                    assert(models[0] == c.0);
                    assert(render_id_items(models) == render_id(c.0));
                    assert(v@.subrange(pbody as int, *p as int) == render_id_items(models));
                } else {
                    assert(models.drop_last() =~= items_prev);
                    assert(models.last() == c.0);
                    assert(render_id_items(models) == render_id_items(items_prev)
                        + ",\n    "@ + render_id(c.0));
                    assert(v@.subrange(pbody as int, *p as int) =~= v@.subrange(
                        pbody as int,
                        pa,
                    ) + v@.subrange(pa, *p as int));
                    assert(v@.subrange(pbody as int, *p as int) =~= render_id_items(models));
                }
            }
            if peek_lit(v, *p, ",\n    ") {
                let ghost pb: int = *p as int;
                if expect_lit(v, p, ",\n    ").is_err() {
                    return Err(());
                }
                proof {
                    assert(v@.subrange(pbody as int, *p as int) =~= v@.subrange(
                        pbody as int,
                        pb,
                    ) + v@.subrange(pb, *p as int));
                }
            } else {
                let ghost pb: int = *p as int;
                let end_r = expect_lit(v, p, "\n  ]");
                proof {
                    if end_r is Err {
                        reveal_strlit(",\n    ");
                        reveal_strlit("\n  ]");
                        let models = items@.map_values(|i: ConnectionId| i.0);
                        reject_ids_end(v@, p0, pbody as int, pb, models);
                    }
                }
                if end_r.is_err() {
                    return Err(());
                }
                proof {
                    let models = items@.map_values(|i: ConnectionId| i.0);
                    assert(models.len() >= 1);
                    assert(v@.subrange(p0, *p as int) =~= v@.subrange(p0, pbody as int)
                        + v@.subrange(pbody as int, pb) + v@.subrange(pb, *p as int));
                    assert(v@.subrange(p0, *p as int) == render_ids(models));
                }
                return Ok(items);
            }
        }
    }
}

/// Alignment of a partially consumed canonical document.
#[verifier::rlimit(100)]
#[verifier::spinoff_prover]
proof fn lemma_doc_align_conns(
    v: Seq<char>,
    p1: int,
    p2: int,
    p3: int,
    version_m: Seq<char>,
)
    requires
        0 <= p1 <= p2 <= p3 <= v.len(),
        v.subrange(0, p1) == "{\n  \"version\": "@,
        v.subrange(p1, p2) == render_string(version_m),
        v.subrange(p2, p3) == ",\n  \"connections\": "@,
        p1 == ("{\n  \"version\": "@).len(),
    ensures
        forall|d: DBConfigModel| wf_doc(d) && v == #[trigger] render_doc(d) ==> v.skip(p3) == render_conns(d.connections) + (",\n  \"active_connection_ids\": "@ + (render_ids(d.active_connection_ids) + ("\n}"@))),
{
    assert forall|d: DBConfigModel| wf_doc(d) && v == #[trigger] render_doc(d) implies v.skip(p3) == render_conns(d.connections) + (",\n  \"active_connection_ids\": "@ + (render_ids(d.active_connection_ids) + ("\n}"@))) by {
        if wf_doc(d) && v == #[trigger] render_doc(d) {
            assert(render_doc(d) =~= "{\n  \"version\": "@ + (render_string(d.version) + (",\n  \"connections\": "@ + (render_conns(d.connections) + (",\n  \"active_connection_ids\": "@ + (render_ids(d.active_connection_ids) + ("\n}"@)))))));
            assert(p1 == 0 + ("{\n  \"version\": "@).len());
            lemma_skip_concat("{\n  \"version\": "@, render_string(d.version) + (",\n  \"connections\": "@ + (render_conns(d.connections) + (",\n  \"active_connection_ids\": "@ + (render_ids(d.active_connection_ids) + ("\n}"@))))));
            assert(v.skip(0) =~= v);
            lemma_skip_skip(v, 0, ("{\n  \"version\": "@).len() as int);
            assert(v.skip(0).skip(("{\n  \"version\": "@).len() as int) == (("{\n  \"version\": "@) + (render_string(d.version) + (",\n  \"connections\": "@ + (render_conns(d.connections) + (",\n  \"active_connection_ids\": "@ + (render_ids(d.active_connection_ids) + ("\n}"@))))))).skip(("{\n  \"version\": "@).len() as int));
            assert(v.skip(p1) == render_string(d.version) + (",\n  \"connections\": "@ + (render_conns(d.connections) + (",\n  \"active_connection_ids\": "@ + (render_ids(d.active_connection_ids) + ("\n}"@))))));
            assert(v.skip(p1) =~= v.subrange(p1, p2) + v.skip(p2));
            lemma_string_prefix(version_m, d.version, v.skip(p2), ",\n  \"connections\": "@ + (render_conns(d.connections) + (",\n  \"active_connection_ids\": "@ + (render_ids(d.active_connection_ids) + ("\n}"@)))));
            assert(v.skip(p2) =~= v.subrange(p2, p3) + v.skip(p3));
            lemma_peel(",\n  \"connections\": "@, v.skip(p3), render_conns(d.connections) + (",\n  \"active_connection_ids\": "@ + (render_ids(d.active_connection_ids) + ("\n}"@))));
        }
    }
}

/// Alignment of a partially consumed canonical document.
#[verifier::rlimit(100)]
#[verifier::spinoff_prover]
proof fn lemma_doc_align_ids(
    v: Seq<char>,
    p1: int,
    p2: int,
    p3: int,
    version_m: Seq<char>,
    p4: int,
    p5: int,
    conns_m: Seq<ConnectionConfigModel>,
)
    requires
        0 <= p1 <= p2 <= p3 <= v.len(),
        v.subrange(0, p1) == "{\n  \"version\": "@,
        v.subrange(p1, p2) == render_string(version_m),
        v.subrange(p2, p3) == ",\n  \"connections\": "@,
        p1 == ("{\n  \"version\": "@).len(),
        p3 <= p4 <= p5 <= v.len(),
        v.subrange(p3, p4) == render_conns(conns_m),
        v.subrange(p4, p5) == ",\n  \"active_connection_ids\": "@,
    ensures
        forall|d: DBConfigModel| wf_doc(d) && v == #[trigger] render_doc(d) ==> v.skip(p5) == render_ids(d.active_connection_ids) + ("\n}"@),
{
    assert forall|d: DBConfigModel| wf_doc(d) && v == #[trigger] render_doc(d) implies v.skip(p5) == render_ids(d.active_connection_ids) + ("\n}"@) by {
        if wf_doc(d) && v == #[trigger] render_doc(d) {
            assert(render_doc(d) =~= "{\n  \"version\": "@ + (render_string(d.version) + (",\n  \"connections\": "@ + (render_conns(d.connections) + (",\n  \"active_connection_ids\": "@ + (render_ids(d.active_connection_ids) + ("\n}"@)))))));
            assert(p1 == 0 + ("{\n  \"version\": "@).len());
            lemma_skip_concat("{\n  \"version\": "@, render_string(d.version) + (",\n  \"connections\": "@ + (render_conns(d.connections) + (",\n  \"active_connection_ids\": "@ + (render_ids(d.active_connection_ids) + ("\n}"@))))));
            assert(v.skip(0) =~= v);
            lemma_skip_skip(v, 0, ("{\n  \"version\": "@).len() as int);
            assert(v.skip(0).skip(("{\n  \"version\": "@).len() as int) == (("{\n  \"version\": "@) + (render_string(d.version) + (",\n  \"connections\": "@ + (render_conns(d.connections) + (",\n  \"active_connection_ids\": "@ + (render_ids(d.active_connection_ids) + ("\n}"@))))))).skip(("{\n  \"version\": "@).len() as int));
            assert(v.skip(p1) == render_string(d.version) + (",\n  \"connections\": "@ + (render_conns(d.connections) + (",\n  \"active_connection_ids\": "@ + (render_ids(d.active_connection_ids) + ("\n}"@))))));
            assert(v.skip(p1) =~= v.subrange(p1, p2) + v.skip(p2));
            lemma_string_prefix(version_m, d.version, v.skip(p2), ",\n  \"connections\": "@ + (render_conns(d.connections) + (",\n  \"active_connection_ids\": "@ + (render_ids(d.active_connection_ids) + ("\n}"@)))));
            assert(v.skip(p2) =~= v.subrange(p2, p3) + v.skip(p3));
            lemma_peel(",\n  \"connections\": "@, v.skip(p3), render_conns(d.connections) + (",\n  \"active_connection_ids\": "@ + (render_ids(d.active_connection_ids) + ("\n}"@))));
            assert(v.skip(p3) =~= v.subrange(p3, p4) + v.skip(p4));
            lemma_conns_prefix(conns_m, d.connections, v.skip(p4), ",\n  \"active_connection_ids\": "@ + (render_ids(d.active_connection_ids) + ("\n}"@)));
            assert(v.skip(p4) =~= v.subrange(p4, p5) + v.skip(p5));
            lemma_peel(",\n  \"active_connection_ids\": "@, v.skip(p5), render_ids(d.active_connection_ids) + ("\n}"@));
        }
    }
}

/// Alignment of a partially consumed canonical document.
#[verifier::rlimit(100)]
#[verifier::spinoff_prover]
proof fn lemma_doc_align_close(
    v: Seq<char>,
    p1: int,
    p2: int,
    p3: int,
    version_m: Seq<char>,
    p4: int,
    p5: int,
    conns_m: Seq<ConnectionConfigModel>,
    p6: int,
    ids_m: Seq<u128>,
)
    requires
        0 <= p1 <= p2 <= p3 <= v.len(),
        v.subrange(0, p1) == "{\n  \"version\": "@,
        v.subrange(p1, p2) == render_string(version_m),
        v.subrange(p2, p3) == ",\n  \"connections\": "@,
        p1 == ("{\n  \"version\": "@).len(),
        p3 <= p4 <= p5 <= v.len(),
        v.subrange(p3, p4) == render_conns(conns_m),
        v.subrange(p4, p5) == ",\n  \"active_connection_ids\": "@,
        p5 <= p6 <= v.len(),
        v.subrange(p5, p6) == render_ids(ids_m),
    ensures
        forall|d: DBConfigModel| wf_doc(d) && v == #[trigger] render_doc(d) ==> v.skip(p6) == "\n}"@,
{
    assert forall|d: DBConfigModel| wf_doc(d) && v == #[trigger] render_doc(d) implies v.skip(p6) == "\n}"@ by {
        if wf_doc(d) && v == #[trigger] render_doc(d) {
            assert(render_doc(d) =~= "{\n  \"version\": "@ + (render_string(d.version) + (",\n  \"connections\": "@ + (render_conns(d.connections) + (",\n  \"active_connection_ids\": "@ + (render_ids(d.active_connection_ids) + ("\n}"@)))))));
            assert(p1 == 0 + ("{\n  \"version\": "@).len());
            lemma_skip_concat("{\n  \"version\": "@, render_string(d.version) + (",\n  \"connections\": "@ + (render_conns(d.connections) + (",\n  \"active_connection_ids\": "@ + (render_ids(d.active_connection_ids) + ("\n}"@))))));
            assert(v.skip(0) =~= v);
            lemma_skip_skip(v, 0, ("{\n  \"version\": "@).len() as int);
            assert(v.skip(0).skip(("{\n  \"version\": "@).len() as int) == (("{\n  \"version\": "@) + (render_string(d.version) + (",\n  \"connections\": "@ + (render_conns(d.connections) + (",\n  \"active_connection_ids\": "@ + (render_ids(d.active_connection_ids) + ("\n}"@))))))).skip(("{\n  \"version\": "@).len() as int));
            assert(v.skip(p1) == render_string(d.version) + (",\n  \"connections\": "@ + (render_conns(d.connections) + (",\n  \"active_connection_ids\": "@ + (render_ids(d.active_connection_ids) + ("\n}"@))))));
            assert(v.skip(p1) =~= v.subrange(p1, p2) + v.skip(p2));
            lemma_string_prefix(version_m, d.version, v.skip(p2), ",\n  \"connections\": "@ + (render_conns(d.connections) + (",\n  \"active_connection_ids\": "@ + (render_ids(d.active_connection_ids) + ("\n}"@)))));
            assert(v.skip(p2) =~= v.subrange(p2, p3) + v.skip(p3));
            lemma_peel(",\n  \"connections\": "@, v.skip(p3), render_conns(d.connections) + (",\n  \"active_connection_ids\": "@ + (render_ids(d.active_connection_ids) + ("\n}"@))));
            assert(v.skip(p3) =~= v.subrange(p3, p4) + v.skip(p4));
            lemma_conns_prefix(conns_m, d.connections, v.skip(p4), ",\n  \"active_connection_ids\": "@ + (render_ids(d.active_connection_ids) + ("\n}"@)));
            assert(v.skip(p4) =~= v.subrange(p4, p5) + v.skip(p5));
            lemma_peel(",\n  \"active_connection_ids\": "@, v.skip(p5), render_ids(d.active_connection_ids) + ("\n}"@));
            assert(v.skip(p5) =~= v.subrange(p5, p6) + v.skip(p6));
            lemma_ids_prefix(ids_m, d.active_connection_ids, v.skip(p6), "\n}"@);
        }
    }
}

/// A spot where the document reader gave up admits no canonical document.
#[verifier::rlimit(100)]
#[verifier::spinoff_prover]
proof fn reject_doc_open(
    v: Seq<char>,
)
    requires
        !(0 + ("{\n  \"version\": "@).len() <= v.len() && v.subrange(0, 0 + ("{\n  \"version\": "@).len() as int) == "{\n  \"version\": "@),
    ensures
        forall|d: DBConfigModel| !(wf_doc(d) && v == #[trigger] render_doc(d)),
{
    assert forall|d: DBConfigModel| !(wf_doc(d) && v == #[trigger] render_doc(d)) by {
        if wf_doc(d) && v == #[trigger] render_doc(d) {
            assert(render_doc(d) =~= "{\n  \"version\": "@ + (render_string(d.version) + (",\n  \"connections\": "@ + (render_conns(d.connections) + (",\n  \"active_connection_ids\": "@ + (render_ids(d.active_connection_ids) + ("\n}"@)))))));
            assert(v.skip(0) =~= v);
            lemma_skip_concat("{\n  \"version\": "@, render_string(d.version) + (",\n  \"connections\": "@ + (render_conns(d.connections) + (",\n  \"active_connection_ids\": "@ + (render_ids(d.active_connection_ids) + ("\n}"@))))));
            assert(v.skip(0).len() == v.len() - (0));
            assert(0 + ("{\n  \"version\": "@).len() <= v.len());
            assert forall|m: int| 0 <= m < ("{\n  \"version\": "@).len() implies v.subrange(0, 0 + ("{\n  \"version\": "@).len() as int)[m] == ("{\n  \"version\": "@)[m] by {
                assert(v.skip(0)[m] == v[0 + m]);
                assert((("{\n  \"version\": "@) + (render_string(d.version) + (",\n  \"connections\": "@ + (render_conns(d.connections) + (",\n  \"active_connection_ids\": "@ + (render_ids(d.active_connection_ids) + ("\n}"@)))))))[m] == ("{\n  \"version\": "@)[m]);
                assert(v.subrange(0, 0 + ("{\n  \"version\": "@).len() as int)[m] == v[0 + m]);
            }
            assert(v.subrange(0, 0 + ("{\n  \"version\": "@).len() as int) =~= "{\n  \"version\": "@);
            assert(false);
        }
    }
}

/// A spot where the document reader gave up admits no canonical document.
#[verifier::rlimit(100)]
#[verifier::spinoff_prover]
proof fn reject_doc_version(
    v: Seq<char>,
    p1: int,
)
    requires
        0 <= p1 <= v.len(),
        v.subrange(0, p1) == "{\n  \"version\": "@,
        p1 == ("{\n  \"version\": "@).len(),
        forall|t0: Seq<char>, rest: Seq<char>|
            !(wf_text(t0) && v.skip(p1) == #[trigger] (render_string(t0) + rest)),
    ensures
        forall|d: DBConfigModel| !(wf_doc(d) && v == #[trigger] render_doc(d)),
{
    assert forall|d: DBConfigModel| !(wf_doc(d) && v == #[trigger] render_doc(d)) by {
        if wf_doc(d) && v == #[trigger] render_doc(d) {
            assert(render_doc(d) =~= "{\n  \"version\": "@ + (render_string(d.version) + (",\n  \"connections\": "@ + (render_conns(d.connections) + (",\n  \"active_connection_ids\": "@ + (render_ids(d.active_connection_ids) + ("\n}"@)))))));
            assert(p1 == 0 + ("{\n  \"version\": "@).len());
            lemma_skip_concat("{\n  \"version\": "@, render_string(d.version) + (",\n  \"connections\": "@ + (render_conns(d.connections) + (",\n  \"active_connection_ids\": "@ + (render_ids(d.active_connection_ids) + ("\n}"@))))));
            assert(v.skip(0) =~= v);
            lemma_skip_skip(v, 0, ("{\n  \"version\": "@).len() as int);
            assert(v.skip(0).skip(("{\n  \"version\": "@).len() as int) == (("{\n  \"version\": "@) + (render_string(d.version) + (",\n  \"connections\": "@ + (render_conns(d.connections) + (",\n  \"active_connection_ids\": "@ + (render_ids(d.active_connection_ids) + ("\n}"@))))))).skip(("{\n  \"version\": "@).len() as int));
            assert(v.skip(p1) == render_string(d.version) + (",\n  \"connections\": "@ + (render_conns(d.connections) + (",\n  \"active_connection_ids\": "@ + (render_ids(d.active_connection_ids) + ("\n}"@))))));
            assert(v.skip(p1) == render_string(d.version) + (",\n  \"connections\": "@ + (render_conns(d.connections) + (",\n  \"active_connection_ids\": "@ + (render_ids(d.active_connection_ids) + ("\n}"@))))));
            assert(false);
        }
    }
}

/// A spot where the document reader gave up admits no canonical document.
#[verifier::rlimit(100)]
#[verifier::spinoff_prover]
proof fn reject_doc_sep_conns(
    v: Seq<char>,
    p1: int,
    p2: int,
    version_m: Seq<char>,
)
    requires
        0 <= p1 <= p2 <= v.len(),
        v.subrange(0, p1) == "{\n  \"version\": "@,
        p1 == ("{\n  \"version\": "@).len(),
        v.subrange(p1, p2) == render_string(version_m),
        !(p2 + (",\n  \"connections\": "@).len() <= v.len() && v.subrange(p2, p2 + (",\n  \"connections\": "@).len() as int) == ",\n  \"connections\": "@),
    ensures
        forall|d: DBConfigModel| !(wf_doc(d) && v == #[trigger] render_doc(d)),
{
    assert forall|d: DBConfigModel| !(wf_doc(d) && v == #[trigger] render_doc(d)) by {
        if wf_doc(d) && v == #[trigger] render_doc(d) {
            assert(render_doc(d) =~= "{\n  \"version\": "@ + (render_string(d.version) + (",\n  \"connections\": "@ + (render_conns(d.connections) + (",\n  \"active_connection_ids\": "@ + (render_ids(d.active_connection_ids) + ("\n}"@)))))));
            assert(p1 == 0 + ("{\n  \"version\": "@).len());
            lemma_skip_concat("{\n  \"version\": "@, render_string(d.version) + (",\n  \"connections\": "@ + (render_conns(d.connections) + (",\n  \"active_connection_ids\": "@ + (render_ids(d.active_connection_ids) + ("\n}"@))))));
            assert(v.skip(0) =~= v);
            lemma_skip_skip(v, 0, ("{\n  \"version\": "@).len() as int);
            assert(v.skip(0).skip(("{\n  \"version\": "@).len() as int) == (("{\n  \"version\": "@) + (render_string(d.version) + (",\n  \"connections\": "@ + (render_conns(d.connections) + (",\n  \"active_connection_ids\": "@ + (render_ids(d.active_connection_ids) + ("\n}"@))))))).skip(("{\n  \"version\": "@).len() as int));
            assert(v.skip(p1) == render_string(d.version) + (",\n  \"connections\": "@ + (render_conns(d.connections) + (",\n  \"active_connection_ids\": "@ + (render_ids(d.active_connection_ids) + ("\n}"@))))));
            assert(v.skip(p1) =~= v.subrange(p1, p2) + v.skip(p2));
            lemma_string_prefix(version_m, d.version, v.skip(p2), ",\n  \"connections\": "@ + (render_conns(d.connections) + (",\n  \"active_connection_ids\": "@ + (render_ids(d.active_connection_ids) + ("\n}"@)))));
            lemma_skip_concat(",\n  \"connections\": "@, render_conns(d.connections) + (",\n  \"active_connection_ids\": "@ + (render_ids(d.active_connection_ids) + ("\n}"@))));
            assert(v.skip(p2).len() == v.len() - (p2));
            assert(p2 + (",\n  \"connections\": "@).len() <= v.len());
            assert forall|m: int| 0 <= m < (",\n  \"connections\": "@).len() implies v.subrange(p2, p2 + (",\n  \"connections\": "@).len() as int)[m] == (",\n  \"connections\": "@)[m] by {
                assert(v.skip(p2)[m] == v[p2 + m]);
                assert(((",\n  \"connections\": "@) + (render_conns(d.connections) + (",\n  \"active_connection_ids\": "@ + (render_ids(d.active_connection_ids) + ("\n}"@)))))[m] == (",\n  \"connections\": "@)[m]);
                assert(v.subrange(p2, p2 + (",\n  \"connections\": "@).len() as int)[m] == v[p2 + m]);
            }
            assert(v.subrange(p2, p2 + (",\n  \"connections\": "@).len() as int) =~= ",\n  \"connections\": "@);
            assert(false);
        }
    }
}

/// A spot where the document reader gave up admits no canonical document.
#[verifier::rlimit(100)]
#[verifier::spinoff_prover]
proof fn reject_doc_conns(
    v: Seq<char>,
    p1: int,
    p2: int,
    p3: int,
    version_m: Seq<char>,
)
    requires
        0 <= p1 <= p2 <= p3 <= v.len(),
        v.subrange(0, p1) == "{\n  \"version\": "@,
        p1 == ("{\n  \"version\": "@).len(),
        v.subrange(p1, p2) == render_string(version_m),
        v.subrange(p2, p3) == ",\n  \"connections\": "@,
        forall|sm: Seq<ConnectionConfigModel>, rest: Seq<char>|
            !((forall|i: int| 0 <= i < sm.len() ==> wf_conn(#[trigger] sm[i])) && v.skip(p3)
                == #[trigger] (render_conns(sm) + rest)),
    ensures
        forall|d: DBConfigModel| !(wf_doc(d) && v == #[trigger] render_doc(d)),
{
    assert forall|d: DBConfigModel| !(wf_doc(d) && v == #[trigger] render_doc(d)) by {
        if wf_doc(d) && v == #[trigger] render_doc(d) {
            lemma_doc_align_conns(v, p1, p2, p3, version_m);
            assert(v.skip(p3) == render_conns(d.connections) + (",\n  \"active_connection_ids\": "@ + (render_ids(d.active_connection_ids) + ("\n}"@))));
            assert(forall|i: int| 0 <= i < d.connections.len() ==> wf_conn(#[trigger] d.connections[i]));
            assert(false);
        }
    }
}

/// A spot where the document reader gave up admits no canonical document.
#[verifier::rlimit(100)]
#[verifier::spinoff_prover]
proof fn reject_doc_sep_ids(
    v: Seq<char>,
    p1: int,
    p2: int,
    p3: int,
    p4: int,
    version_m: Seq<char>,
    conns_m: Seq<ConnectionConfigModel>,
)
    requires
        0 <= p1 <= p2 <= p3 <= p4 <= v.len(),
        v.subrange(0, p1) == "{\n  \"version\": "@,
        p1 == ("{\n  \"version\": "@).len(),
        v.subrange(p1, p2) == render_string(version_m),
        v.subrange(p2, p3) == ",\n  \"connections\": "@,
        v.subrange(p3, p4) == render_conns(conns_m),
        !(p4 + (",\n  \"active_connection_ids\": "@).len() <= v.len() && v.subrange(p4, p4 + (",\n  \"active_connection_ids\": "@).len() as int) == ",\n  \"active_connection_ids\": "@),
    ensures
        forall|d: DBConfigModel| !(wf_doc(d) && v == #[trigger] render_doc(d)),
{
    assert forall|d: DBConfigModel| !(wf_doc(d) && v == #[trigger] render_doc(d)) by {
        if wf_doc(d) && v == #[trigger] render_doc(d) {
            lemma_doc_align_conns(v, p1, p2, p3, version_m);
            assert(v.skip(p3) == render_conns(d.connections) + (",\n  \"active_connection_ids\": "@ + (render_ids(d.active_connection_ids) + ("\n}"@))));
            assert(v.skip(p3) =~= v.subrange(p3, p4) + v.skip(p4));
            lemma_conns_prefix(conns_m, d.connections, v.skip(p4), ",\n  \"active_connection_ids\": "@ + (render_ids(d.active_connection_ids) + ("\n}"@)));
            lemma_skip_concat(",\n  \"active_connection_ids\": "@, render_ids(d.active_connection_ids) + ("\n}"@));
            assert(v.skip(p4).len() == v.len() - (p4));
            assert(p4 + (",\n  \"active_connection_ids\": "@).len() <= v.len());
            assert forall|m: int| 0 <= m < (",\n  \"active_connection_ids\": "@).len() implies v.subrange(p4, p4 + (",\n  \"active_connection_ids\": "@).len() as int)[m] == (",\n  \"active_connection_ids\": "@)[m] by {
                assert(v.skip(p4)[m] == v[p4 + m]);
                assert(((",\n  \"active_connection_ids\": "@) + (render_ids(d.active_connection_ids) + ("\n}"@)))[m] == (",\n  \"active_connection_ids\": "@)[m]);
                assert(v.subrange(p4, p4 + (",\n  \"active_connection_ids\": "@).len() as int)[m] == v[p4 + m]);
            }
            assert(v.subrange(p4, p4 + (",\n  \"active_connection_ids\": "@).len() as int) =~= ",\n  \"active_connection_ids\": "@);
            assert(false);
        }
    }
}

/// A spot where the document reader gave up admits no canonical document.
#[verifier::rlimit(100)]
#[verifier::spinoff_prover]
proof fn reject_doc_ids(
    v: Seq<char>,
    p1: int,
    p2: int,
    p3: int,
    p4: int,
    p5: int,
    version_m: Seq<char>,
    conns_m: Seq<ConnectionConfigModel>,
)
    requires
        0 <= p1 <= p2 <= p3 <= p4 <= p5 <= v.len(),
        v.subrange(0, p1) == "{\n  \"version\": "@,
        p1 == ("{\n  \"version\": "@).len(),
        v.subrange(p1, p2) == render_string(version_m),
        v.subrange(p2, p3) == ",\n  \"connections\": "@,
        v.subrange(p3, p4) == render_conns(conns_m),
        v.subrange(p4, p5) == ",\n  \"active_connection_ids\": "@,
        forall|sm: Seq<u128>, rest: Seq<char>|
            !(v.skip(p5) == #[trigger] (render_ids(sm) + rest)),
    ensures
        forall|d: DBConfigModel| !(wf_doc(d) && v == #[trigger] render_doc(d)),
{
    assert forall|d: DBConfigModel| !(wf_doc(d) && v == #[trigger] render_doc(d)) by {
        if wf_doc(d) && v == #[trigger] render_doc(d) {
            lemma_doc_align_ids(v, p1, p2, p3, version_m, p4, p5, conns_m);
            assert(v.skip(p5) == render_ids(d.active_connection_ids) + ("\n}"@));
            assert(false);
        }
    }
}

/// A spot where the document reader gave up admits no canonical document.
#[verifier::rlimit(100)]
#[verifier::spinoff_prover]
proof fn reject_doc_close(
    v: Seq<char>,
    p1: int,
    p2: int,
    p3: int,
    p4: int,
    p5: int,
    p6: int,
    version_m: Seq<char>,
    conns_m: Seq<ConnectionConfigModel>,
    ids_m: Seq<u128>,
)
    requires
        0 <= p1 <= p2 <= p3 <= p4 <= p5 <= p6 <= v.len(),
        v.subrange(0, p1) == "{\n  \"version\": "@,
        p1 == ("{\n  \"version\": "@).len(),
        v.subrange(p1, p2) == render_string(version_m),
        v.subrange(p2, p3) == ",\n  \"connections\": "@,
        v.subrange(p3, p4) == render_conns(conns_m),
        v.subrange(p4, p5) == ",\n  \"active_connection_ids\": "@,
        v.subrange(p5, p6) == render_ids(ids_m),
        !(p6 + ("\n}"@).len() <= v.len() && v.subrange(p6, p6 + ("\n}"@).len() as int) == "\n}"@),
    ensures
        forall|d: DBConfigModel| !(wf_doc(d) && v == #[trigger] render_doc(d)),
{
    assert forall|d: DBConfigModel| !(wf_doc(d) && v == #[trigger] render_doc(d)) by {
        if wf_doc(d) && v == #[trigger] render_doc(d) {
            lemma_doc_align_close(v, p1, p2, p3, version_m, p4, p5, conns_m, p6, ids_m);
            assert(v.skip(p6) == "\n}"@);
            assert(v.skip(p6) =~= ("\n}"@) + (Seq::<char>::empty()));
            lemma_skip_concat("\n}"@, (Seq::<char>::empty()));
            assert(v.skip(p6).len() == v.len() - (p6));
            assert(p6 + ("\n}"@).len() <= v.len());
            assert forall|m: int| 0 <= m < ("\n}"@).len() implies v.subrange(p6, p6 + ("\n}"@).len() as int)[m] == ("\n}"@)[m] by {
                assert(v.skip(p6)[m] == v[p6 + m]);
                assert((("\n}"@) + ((Seq::<char>::empty())))[m] == ("\n}"@)[m]);
                assert(v.subrange(p6, p6 + ("\n}"@).len() as int)[m] == v[p6 + m]);
            }
            assert(v.subrange(p6, p6 + ("\n}"@).len() as int) =~= "\n}"@);
            assert(false);
        }
    }
}

/// A spot where the document reader gave up admits no canonical document.
#[verifier::rlimit(100)]
#[verifier::spinoff_prover]
proof fn reject_doc_trailing(
    v: Seq<char>,
    p1: int,
    p2: int,
    p3: int,
    p4: int,
    p5: int,
    p6: int,
    p7: int,
    version_m: Seq<char>,
    conns_m: Seq<ConnectionConfigModel>,
    ids_m: Seq<u128>,
)
    requires
        0 <= p1 <= p2 <= p3 <= p4 <= p5 <= p6 <= p7 <= v.len(),
        v.subrange(0, p1) == "{\n  \"version\": "@,
        p1 == ("{\n  \"version\": "@).len(),
        v.subrange(p1, p2) == render_string(version_m),
        v.subrange(p2, p3) == ",\n  \"connections\": "@,
        v.subrange(p3, p4) == render_conns(conns_m),
        v.subrange(p4, p5) == ",\n  \"active_connection_ids\": "@,
        v.subrange(p5, p6) == render_ids(ids_m),
        v.subrange(p6, p7) == "\n}"@,
        p7 == p6 + ("\n}"@).len(),
        p7 != v.len(),
    ensures
        forall|d: DBConfigModel| !(wf_doc(d) && v == #[trigger] render_doc(d)),
{
    assert forall|d: DBConfigModel| !(wf_doc(d) && v == #[trigger] render_doc(d)) by {
        if wf_doc(d) && v == #[trigger] render_doc(d) {
            lemma_doc_align_close(v, p1, p2, p3, version_m, p4, p5, conns_m, p6, ids_m);
            assert(v.skip(p6) == "\n}"@);
            assert(v.skip(p6).len() == v.len() - p6);
            assert(p7 == v.len());
            assert(false);
        }
    }
}

/// Reads a whole document in the canonical pretty-printed form; anything
/// else is rejected, and every canonical document with carryable text
/// fields is accepted. A document this accepts renders back, character for
/// character, to the very text it was read from.
#[verifier::rlimit(100)]
#[verifier::spinoff_prover]
pub fn parse_json(s: &str) -> (r: Result<DBConfig, DBError>)
    ensures
        r matches Ok(c) ==> s@ == render_doc(c@) && wf_doc(c@),
        r is Err ==> r->Err_0 is DatabaseError,
        forall|d: DBConfigModel| wf_doc(d) && s@ == #[trigger] render_doc(d) ==> r is Ok,
{
    let v = str_chars(s);
    let mut pos: usize = 0;
    let p = &mut pos;
    let r1 = expect_lit(&v, p, "{\n  \"version\": ");
    proof {
        if r1 is Err {
            reject_doc_open(v@);
        }
    }
    if r1.is_err() {
        return Err(invalid_document_error());
    }
    let ghost p1: int = *p as int;
    let r2 = parse_string(&v, p);
    proof {
        if r2 is Err {
            assert forall|t0: Seq<char>, rest: Seq<char>|
                !(wf_text(t0) && v@.skip(p1) == #[trigger] (render_string(t0) + rest)) by {
                if wf_text(t0) && v@.skip(p1) == render_string(t0) + rest {
                    assert(false);
                }
            }
            reject_doc_version(v@, p1);
        }
    }
    let version_s = match r2 {
        Ok(x) => x,
        Err(()) => {
            return Err(invalid_document_error());
        },
    };
    let ghost p2: int = *p as int;
    let r3 = expect_lit(&v, p, ",\n  \"connections\": ");
    proof {
        if r3 is Err {
            reject_doc_sep_conns(v@, p1, p2, version_s@);
        }
    }
    if r3.is_err() {
        return Err(invalid_document_error());
    }
    let ghost p3: int = *p as int;
    let r4 = parse_conns(&v, p);
    proof {
        if r4 is Err {
            assert forall|sm: Seq<ConnectionConfigModel>, rest: Seq<char>|
                !((forall|i: int| 0 <= i < sm.len() ==> wf_conn(#[trigger] sm[i]))
                    && v@.skip(p3) == #[trigger] (render_conns(sm) + rest)) by {
                if (forall|i: int| 0 <= i < sm.len() ==> wf_conn(#[trigger] sm[i]))
                    && v@.skip(p3) == render_conns(sm) + rest {
                    assert(false);
                }
            }
            reject_doc_conns(v@, p1, p2, p3, version_s@);
        }
    }
    let conns_v = match r4 {
        Ok(x) => x,
        Err(()) => {
            return Err(invalid_document_error());
        },
    };
    let ghost p4: int = *p as int;
    let r5 = expect_lit(&v, p, ",\n  \"active_connection_ids\": ");
    proof {
        if r5 is Err {
            reject_doc_sep_ids(v@, p1, p2, p3, p4, version_s@, conns_v@.map_values(
                |c: ConnectionConfig| c@,
            ));
        }
    }
    if r5.is_err() {
        return Err(invalid_document_error());
    }
    let ghost p5: int = *p as int;
    let r6 = parse_ids(&v, p);
    proof {
        if r6 is Err {
            assert forall|sm: Seq<u128>, rest: Seq<char>|
                !(v@.skip(p5) == #[trigger] (render_ids(sm) + rest)) by {
                if v@.skip(p5) == render_ids(sm) + rest {
                    assert(false);
                }
            }
            reject_doc_ids(v@, p1, p2, p3, p4, p5, version_s@, conns_v@.map_values(
                |c: ConnectionConfig| c@,
            ));
        }
    }
    let ids_v = match r6 {
        Ok(x) => x,
        Err(()) => {
            return Err(invalid_document_error());
        },
    };
    let ghost p6: int = *p as int;
    let r7 = expect_lit(&v, p, "\n}");
    proof {
        if r7 is Err {
            reject_doc_close(v@, p1, p2, p3, p4, p5, p6, version_s@, conns_v@.map_values(
                |c: ConnectionConfig| c@,
            ), ids_v@.map_values(|i: ConnectionId| i.0));
        }
    }
    if r7.is_err() {
        return Err(invalid_document_error());
    }
    let ghost p7: int = *p as int;
    if *p != v.len() {
        proof {
            reject_doc_trailing(v@, p1, p2, p3, p4, p5, p6, p7, version_s@,
                conns_v@.map_values(|c: ConnectionConfig| c@), ids_v@.map_values(
                |i: ConnectionId| i.0,
            ));
        }
        return Err(invalid_document_error());
    }
    let c = DBConfig {
        version: version_s,
        connections: conns_v,
        active_connection_ids: ids_v,
    };
    proof {
        assert(v@.subrange(0, *p as int) =~= v@.subrange(0, p1) + v@.subrange(p1, p2)
            + v@.subrange(p2, p3) + v@.subrange(p3, p4) + v@.subrange(p4, p5) + v@.subrange(
            p5,
            p6,
        ) + v@.subrange(p6, *p as int));
        assert(v@.subrange(0, *p as int) == render_doc(c@));
        assert(s@ =~= v@.subrange(0, v@.len() as int));
    }
    Ok(c)
}

/// The error every malformed document surfaces as.
fn invalid_document_error() -> (r: DBError)
    ensures
        r is DatabaseError,
{
    DBError::DatabaseError(String::from_str("invalid configuration document"))
}

/// Splitting two equal streams at the same point splits them into equal
/// parts.
proof fn lemma_concat_cancel(a: Seq<char>, b: Seq<char>, c: Seq<char>, d: Seq<char>)
    requires
        a + b == c + d,
        a.len() == c.len(),
    ensures
        a == c,
        b == d,
{
    assert forall|i: int| 0 <= i < a.len() implies a[i] == c[i] by {
        assert((a + b)[i] == a[i]);
        assert((c + d)[i] == c[i]);
    }
    assert(a =~= c);
    assert((a + b).len() == a.len() + b.len());
    assert((c + d).len() == c.len() + d.len());
    assert(b.len() == d.len());
    assert forall|i: int| 0 <= i < b.len() implies b[i] == d[i] by {
        assert((a + b)[a.len() + i] == b[i]);
        assert((c + d)[c.len() + i] == d[i]);
    }
    assert(b =~= d);
}

/// Text that never holds a double quote.
pub open spec fn quote_free(s: Seq<char>) -> bool {
    forall|i: int| 0 <= i < s.len() ==> s[i] != '"'
}

/// A quote-free run is delimited by the first quote after it: two such runs
/// ending at a quote in the same stream are the same run.
proof fn lemma_quote_terminated(a: Seq<char>, b: Seq<char>, r1: Seq<char>, r2: Seq<char>)
    requires
        quote_free(a),
        quote_free(b),
        a + seq!['"'] + r1 == b + seq!['"'] + r2,
    ensures
        a == b,
        r1 == r2,
{
    let s = a + seq!['"'] + r1;
    if a.len() < b.len() {
        assert(s[a.len() as int] == '"');
        assert((b + seq!['"'] + r2)[a.len() as int] == b[a.len() as int]);
        assert(false);
    } else if b.len() < a.len() {
        assert(s[b.len() as int] == a[b.len() as int]);
        assert((b + seq!['"'] + r2)[b.len() as int] == '"');
        assert(false);
    } else {
        assert(a + seq!['"'] + r1 =~= a + (seq!['"'] + r1));
        assert(b + seq!['"'] + r2 =~= b + (seq!['"'] + r2));
        lemma_concat_cancel(a, seq!['"'] + r1, b, seq!['"'] + r2);
        lemma_concat_cancel(seq!['"'], r1, seq!['"'], r2);
    }
}

/// Hexadecimal digit characters are never quotes or hyphens' confusables:
/// in particular never a double quote.
proof fn lemma_hex_digits_quote_free(n: nat, k: nat)
    ensures
        quote_free(hex_digits(n, k)),
    decreases k,
{
    if k > 0 {
        lemma_hex_digits_quote_free(n / 16, (k - 1) as nat);
        lemma_hex_digits_len(n / 16, (k - 1) as nat);
        assert(hex_char(n % 16) != '"');
        assert forall|i: int| 0 <= i < hex_digits(n, k).len() implies hex_digits(n, k)[i]
            != '"' by {
            if i < k - 1 {
                assert(hex_digits(n, k)[i] == hex_digits(n / 16, (k - 1) as nat)[i]);
            }
        }
    }
}

/// An id's canonical text is quote-free and thirty-six characters long.
proof fn lemma_uuid_text_shape(x: u128)
    ensures
        quote_free(uuid_text(x)),
        uuid_text(x).len() == 36,
{
    lemma_hex_digits_quote_free(x as nat, 32);
    lemma_hex_digits_len(x as nat, 32);
    let h = hex_digits(x as nat, 32);
    assert forall|i: int| 0 <= i < uuid_text(x).len() implies uuid_text(x)[i] != '"' by {
        assert('-' != '"');
    }
}

/// Distinct hexadecimal digit values draw distinct characters.
proof fn lemma_hex_char_injective(d1: nat, d2: nat)
    requires
        d1 < 16,
        d2 < 16,
        hex_char(d1) == hex_char(d2),
    ensures
        d1 == d2,
{
}

/// Equal fixed-width digit runs come from equal values.
proof fn lemma_hex_digits_injective(a: nat, b: nat, k: nat)
    requires
        a < pow16(k),
        b < pow16(k),
        hex_digits(a, k) == hex_digits(b, k),
    ensures
        a == b,
    decreases k,
{
    if k == 0 {
    } else {
        lemma_hex_digits_len(a / 16, (k - 1) as nat);
        lemma_hex_digits_len(b / 16, (k - 1) as nat);
        assert(hex_digits(a, k).last() == hex_char(a % 16));
        assert(hex_digits(b, k).last() == hex_char(b % 16));
        lemma_hex_char_injective(a % 16, b % 16);
        assert(hex_digits(a, k).drop_last() =~= hex_digits(a / 16, (k - 1) as nat));
        assert(hex_digits(b, k).drop_last() =~= hex_digits(b / 16, (k - 1) as nat));
        assert(a / 16 < pow16((k - 1) as nat) && b / 16 < pow16((k - 1) as nat))
            by (nonlinear_arith)
            requires
                a < pow16(k),
                b < pow16(k),
                pow16(k) == 16 * pow16((k - 1) as nat),
        ;
        lemma_hex_digits_injective(a / 16, b / 16, (k - 1) as nat);
        assert(a == 16 * (a / 16) + a % 16) by (nonlinear_arith);
        assert(b == 16 * (b / 16) + b % 16) by (nonlinear_arith);
    }
}

/// A quoted id determines the id and what follows it.
proof fn lemma_id_prefix(a: u128, b: u128, r1: Seq<char>, r2: Seq<char>)
    requires
        render_id(a) + r1 == render_id(b) + r2,
    ensures
        a == b,
        r1 == r2,
{
    lemma_uuid_text_shape(a);
    lemma_uuid_text_shape(b);
    assert((seq!['"'] + uuid_text(a) + seq!['"']) + r1 =~= seq!['"'] + ((uuid_text(a)
        + seq!['"'] + r1)));
    assert((seq!['"'] + uuid_text(b) + seq!['"']) + r2 =~= seq!['"'] + ((uuid_text(b)
        + seq!['"'] + r2)));
    lemma_concat_cancel(
        seq!['"'],
        uuid_text(a) + seq!['"'] + r1,
        seq!['"'],
        uuid_text(b) + seq!['"'] + r2,
    );
    lemma_quote_terminated(uuid_text(a), uuid_text(b), r1, r2);
    let h1 = hex_digits(a as nat, 32);
    let h2 = hex_digits(b as nat, 32);
    lemma_hex_digits_len(a as nat, 32);
    lemma_hex_digits_len(b as nat, 32);
    assert forall|i: int| 0 <= i < 32 implies h1[i] == h2[i] by {
        let u1 = uuid_text(a);
        let u2 = uuid_text(b);
        if i < 8 {
            assert(u1[i] == h1[i] && u2[i] == h2[i]);
        } else if i < 12 {
            assert(u1[i + 1] == h1[i] && u2[i + 1] == h2[i]);
        } else if i < 16 {
            assert(u1[i + 2] == h1[i] && u2[i + 2] == h2[i]);
        } else if i < 20 {
            assert(u1[i + 3] == h1[i] && u2[i + 3] == h2[i]);
        } else {
            assert(u1[i + 4] == h1[i] && u2[i + 4] == h2[i]);
        }
    }
    assert(h1 =~= h2);
    lemma_pow16_32();
    lemma_hex_digits_injective(a as nat, b as nat, 32);
}

/// A quoted, escaped string body is delimited by its closing quote: two
/// such bodies in the same stream decode to the same text.
proof fn lemma_esc_terminated(t1: Seq<char>, t2: Seq<char>, r1: Seq<char>, r2: Seq<char>)
    requires
        esc_all(t1) + seq!['"'] + r1 == esc_all(t2) + seq!['"'] + r2,
    ensures
        t1 == t2,
        r1 == r2,
    decreases t1.len(),
{
    let s1 = esc_all(t1) + seq!['"'] + r1;
    let s2 = esc_all(t2) + seq!['"'] + r2;
    if t1.len() == 0 && t2.len() == 0 {
        lemma_concat_cancel(seq!['"'], r1, seq!['"'], r2);
    } else if t1.len() == 0 {
        assert(s1[0] == '"');
        assert(esc_all(t2) == esc_char(t2[0]) + esc_all(t2.drop_first()));
        assert(s2[0] == esc_char(t2[0])[0]);
        assert(esc_char(t2[0])[0] != '"');
        assert(false);
    } else if t2.len() == 0 {
        assert(s2[0] == '"');
        assert(esc_all(t1) == esc_char(t1[0]) + esc_all(t1.drop_first()));
        assert(s1[0] == esc_char(t1[0])[0]);
        assert(esc_char(t1[0])[0] != '"');
        assert(false);
    } else {
        let c1 = t1[0];
        let c2 = t2[0];
        let sp1 = c1 == '"' || c1 == '\\' || c1 == '\n' || c1 == '\r' || c1 == '\t';
        let sp2 = c2 == '"' || c2 == '\\' || c2 == '\n' || c2 == '\r' || c2 == '\t';
        assert(esc_all(t1) == esc_char(c1) + esc_all(t1.drop_first()));
        assert(esc_all(t2) == esc_char(c2) + esc_all(t2.drop_first()));
        assert(s1 =~= esc_char(c1) + (esc_all(t1.drop_first()) + seq!['"'] + r1));
        assert(s2 =~= esc_char(c2) + (esc_all(t2.drop_first()) + seq!['"'] + r2));
        if sp1 && !sp2 {
            assert(s1[0] == '\\' && s2[0] == c2);
            assert(false);
        } else if !sp1 && sp2 {
            assert(s1[0] == c1 && s2[0] == '\\');
            assert(false);
        } else if sp1 && sp2 {
            assert(s1[1] == esc_char(c1)[1]);
            assert(s2[1] == esc_char(c2)[1]);
            assert(c1 == c2);
            lemma_concat_cancel(
                esc_char(c1),
                esc_all(t1.drop_first()) + seq!['"'] + r1,
                esc_char(c2),
                esc_all(t2.drop_first()) + seq!['"'] + r2,
            );
            lemma_esc_terminated(t1.drop_first(), t2.drop_first(), r1, r2);
            assert(t1 =~= seq![c1] + t1.drop_first());
            assert(t2 =~= seq![c2] + t2.drop_first());
        } else {
            assert(s1[0] == c1 && s2[0] == c2);
            assert(c1 == c2);
            lemma_concat_cancel(
                esc_char(c1),
                esc_all(t1.drop_first()) + seq!['"'] + r1,
                esc_char(c2),
                esc_all(t2.drop_first()) + seq!['"'] + r2,
            );
            lemma_esc_terminated(t1.drop_first(), t2.drop_first(), r1, r2);
            assert(t1 =~= seq![c1] + t1.drop_first());
            assert(t2 =~= seq![c2] + t2.drop_first());
        }
    }
}

/// A rendered string determines its text and what follows it.
proof fn lemma_string_prefix(t1: Seq<char>, t2: Seq<char>, r1: Seq<char>, r2: Seq<char>)
    requires
        render_string(t1) + r1 == render_string(t2) + r2,
    ensures
        t1 == t2,
        r1 == r2,
{
    assert((seq!['"'] + esc_all(t1) + seq!['"']) + r1 =~= seq!['"'] + (esc_all(t1) + seq!['"']
        + r1));
    assert((seq!['"'] + esc_all(t2) + seq!['"']) + r2 =~= seq!['"'] + (esc_all(t2) + seq!['"']
        + r2));
    lemma_concat_cancel(
        seq!['"'],
        esc_all(t1) + seq!['"'] + r1,
        seq!['"'],
        esc_all(t2) + seq!['"'] + r2,
    );
    lemma_esc_terminated(t1, t2, r1, r2);
}

/// Cancelling an equal prefix off both sides of an equal stream.
proof fn lemma_peel(prefix: Seq<char>, x1: Seq<char>, x2: Seq<char>)
    requires
        prefix + x1 == prefix + x2,
    ensures
        x1 == x2,
{
    lemma_concat_cancel(prefix, x1, prefix, x2);
}

/// A decimal digit character.
pub open spec fn is_dec_digit(c: char) -> bool {
    c == '0' || c == '1' || c == '2' || c == '3' || c == '4' || c == '5' || c == '6' || c
        == '7' || c == '8' || c == '9'
}

/// Decimal renderings hold only digit characters.
proof fn lemma_dec_digits_are_digits(n: nat)
    ensures
        forall|i: int| 0 <= i < dec_digits(n).len() ==> is_dec_digit(#[trigger] dec_digits(n)[i]),
    decreases n,
{
    if n < 10 {
        assert(is_dec_digit(digit_char(n)));
    } else {
        lemma_dec_digits_are_digits(n / 10);
        assert(is_dec_digit(digit_char(n % 10)));
        assert forall|i: int| 0 <= i < dec_digits(n).len() implies is_dec_digit(
            #[trigger] dec_digits(n)[i],
        ) by {
            if i < dec_digits(n).len() - 1 {
                assert(dec_digits(n)[i] == dec_digits(n / 10)[i]);
            }
        }
    }
}

/// Small numbers render in one digit, larger ones in more.
proof fn lemma_dec_digits_min_len(n: nat)
    ensures
        dec_digits(n).len() >= 1,
        n >= 10 ==> dec_digits(n).len() >= 2,
    decreases n,
{
    if n >= 10 {
        lemma_dec_digits_min_len(n / 10);
    }
}

/// Equal decimal renderings come from equal values.
proof fn lemma_dec_injective(a: nat, b: nat)
    requires
        dec_digits(a) == dec_digits(b),
    ensures
        a == b,
    decreases a,
{
    lemma_dec_digits_min_len(a);
    lemma_dec_digits_min_len(b);
    if a < 10 && b < 10 {
        assert(dec_digits(a)[0] == digit_char(a));
        assert(dec_digits(b)[0] == digit_char(b));
    } else if a < 10 {
        assert(dec_digits(a).len() == 1);
        assert(false);
    } else if b < 10 {
        assert(dec_digits(b).len() == 1);
        assert(false);
    } else {
        assert(dec_digits(a).last() == digit_char(a % 10));
        assert(dec_digits(b).last() == digit_char(b % 10));
        assert(a % 10 == b % 10);
        assert(dec_digits(a).drop_last() =~= dec_digits(a / 10));
        assert(dec_digits(b).drop_last() =~= dec_digits(b / 10));
        lemma_dec_injective(a / 10, b / 10);
        assert(a == 10 * (a / 10) + a % 10) by (nonlinear_arith);
        assert(b == 10 * (b / 10) + b % 10) by (nonlinear_arith);
    }
}

/// A decimal number is delimited by the first non-digit after it.
proof fn lemma_dec_terminated(n1: nat, n2: nat, r1: Seq<char>, r2: Seq<char>)
    requires
        dec_digits(n1) + r1 == dec_digits(n2) + r2,
        r1.len() > 0,
        r2.len() > 0,
        !is_dec_digit(r1[0]),
        !is_dec_digit(r2[0]),
    ensures
        n1 == n2,
        r1 == r2,
{
    lemma_dec_digits_are_digits(n1);
    lemma_dec_digits_are_digits(n2);
    let a = dec_digits(n1);
    let b = dec_digits(n2);
    if a.len() < b.len() {
        assert((a + r1)[a.len() as int] == r1[0]);
        assert((b + r2)[a.len() as int] == b[a.len() as int]);
        assert(is_dec_digit(b[a.len() as int]));
        assert(false);
    } else if b.len() < a.len() {
        assert((a + r1)[b.len() as int] == a[b.len() as int]);
        assert((b + r2)[b.len() as int] == r2[0]);
        assert(is_dec_digit(a[b.len() as int]));
        assert(false);
    } else {
        lemma_concat_cancel(a, r1, b, r2);
        lemma_dec_injective(n1, n2);
    }
}

/// The password-length field determines the hint and what follows it, the
/// following text starting on a fresh line.
proof fn lemma_opt_u8_prefix(l1: Option<u8>, l2: Option<u8>, r1: Seq<char>, r2: Seq<char>)
    requires
        render_opt_u8(l1) + r1 == render_opt_u8(l2) + r2,
        r1.len() > 0,
        r2.len() > 0,
        r1[0] == '\n',
        r2[0] == '\n',
    ensures
        l1 == l2,
        r1 == r2,
{
    proof_decl_null_facts();
    match (l1, l2) {
        (None, None) => {
            lemma_peel("null"@, r1, r2);
        },
        (None, Some(n)) => {
            lemma_dec_digits_are_digits(n as nat);
            lemma_dec_digits_min_len(n as nat);
            assert(("null"@ + r1)[0] == 'n');
            assert((dec_digits(n as nat) + r2)[0] == dec_digits(n as nat)[0]);
            assert(is_dec_digit(dec_digits(n as nat)[0]));
            assert(false);
        },
        (Some(n), None) => {
            lemma_dec_digits_are_digits(n as nat);
            lemma_dec_digits_min_len(n as nat);
            assert(("null"@ + r2)[0] == 'n');
            assert((dec_digits(n as nat) + r1)[0] == dec_digits(n as nat)[0]);
            assert(is_dec_digit(dec_digits(n as nat)[0]));
            assert(false);
        },
        (Some(n1), Some(n2)) => {
            assert(!is_dec_digit('\n'));
            lemma_dec_terminated(n1 as nat, n2 as nat, r1, r2);
        },
    }
}

/// Reveals what the `null` literal holds.
proof fn proof_decl_null_facts()
    ensures
        "null"@.len() == 4,
        "null"@[0] == 'n',
{
    reveal_strlit("null");
}

/// A boolean field determines its value and what follows it.
proof fn lemma_bool_prefix(b1: bool, b2: bool, r1: Seq<char>, r2: Seq<char>)
    requires
        render_bool(b1) + r1 == render_bool(b2) + r2,
    ensures
        b1 == b2,
        r1 == r2,
{
    reveal_strlit("true");
    reveal_strlit("false");
    if b1 == b2 {
        lemma_peel(render_bool(b1), r1, r2);
    } else {
        assert(("true"@ + r1)[0] == 't' || ("true"@ + r2)[0] == 't');
        assert(("false"@ + r1)[0] == 'f' || ("false"@ + r2)[0] == 'f');
        assert(false);
    }
}

/// A quoted backend tag determines the backend and what follows it.
proof fn lemma_db_type_prefix(t1: DatabaseType, t2: DatabaseType, r1: Seq<char>, r2: Seq<char>)
    requires
        render_db_type(t1) + r1 == render_db_type(t2) + r2,
    ensures
        t1 == t2,
        r1 == r2,
{
    reveal_strlit("Postgre");
    reveal_strlit("MySql");
    reveal_strlit("Sqlite");
    reveal_strlit("MariaDB");
    reveal_strlit("Oracle");
    reveal_strlit("Redis");
    reveal_strlit("MongoDB");
    reveal_strlit("MicrosoftSQLServer");
    assert(quote_free(db_type_tag(t1)));
    assert(quote_free(db_type_tag(t2)));
    assert((seq!['"'] + db_type_tag(t1) + seq!['"']) + r1 =~= seq!['"'] + (db_type_tag(t1)
        + seq!['"'] + r1));
    assert((seq!['"'] + db_type_tag(t2) + seq!['"']) + r2 =~= seq!['"'] + (db_type_tag(t2)
        + seq!['"'] + r2));
    lemma_peel(seq!['"'], db_type_tag(t1) + seq!['"'] + r1, db_type_tag(t2) + seq!['"'] + r2);
    lemma_quote_terminated(db_type_tag(t1), db_type_tag(t2), r1, r2);
    match (t1, t2) {
        (DatabaseType::Postgre, DatabaseType::Postgre) => {},
        (DatabaseType::Postgre, DatabaseType::MySql) => { assert(db_type_tag(t1).len() != db_type_tag(t2).len()); assert(false); },
        (DatabaseType::Postgre, DatabaseType::Sqlite) => { assert(db_type_tag(t1).len() != db_type_tag(t2).len()); assert(false); },
        (DatabaseType::Postgre, DatabaseType::MariaDB) => { assert(db_type_tag(t1)[0] != db_type_tag(t2)[0]); assert(false); },
        (DatabaseType::Postgre, DatabaseType::Oracle) => { assert(db_type_tag(t1).len() != db_type_tag(t2).len()); assert(false); },
        (DatabaseType::Postgre, DatabaseType::Redis) => { assert(db_type_tag(t1).len() != db_type_tag(t2).len()); assert(false); },
        (DatabaseType::Postgre, DatabaseType::MongoDB) => { assert(db_type_tag(t1)[0] != db_type_tag(t2)[0]); assert(false); },
        (DatabaseType::Postgre, DatabaseType::MicrosoftSQLServer) => { assert(db_type_tag(t1).len() != db_type_tag(t2).len()); assert(false); },
        (DatabaseType::MySql, DatabaseType::Postgre) => { assert(db_type_tag(t1).len() != db_type_tag(t2).len()); assert(false); },
        (DatabaseType::MySql, DatabaseType::MySql) => {},
        (DatabaseType::MySql, DatabaseType::Sqlite) => { assert(db_type_tag(t1).len() != db_type_tag(t2).len()); assert(false); },
        (DatabaseType::MySql, DatabaseType::MariaDB) => { assert(db_type_tag(t1).len() != db_type_tag(t2).len()); assert(false); },
        (DatabaseType::MySql, DatabaseType::Oracle) => { assert(db_type_tag(t1).len() != db_type_tag(t2).len()); assert(false); },
        (DatabaseType::MySql, DatabaseType::Redis) => { assert(db_type_tag(t1)[0] != db_type_tag(t2)[0]); assert(false); },
        (DatabaseType::MySql, DatabaseType::MongoDB) => { assert(db_type_tag(t1).len() != db_type_tag(t2).len()); assert(false); },
        (DatabaseType::MySql, DatabaseType::MicrosoftSQLServer) => { assert(db_type_tag(t1).len() != db_type_tag(t2).len()); assert(false); },
        (DatabaseType::Sqlite, DatabaseType::Postgre) => { assert(db_type_tag(t1).len() != db_type_tag(t2).len()); assert(false); },
        (DatabaseType::Sqlite, DatabaseType::MySql) => { assert(db_type_tag(t1).len() != db_type_tag(t2).len()); assert(false); },
        (DatabaseType::Sqlite, DatabaseType::Sqlite) => {},
        (DatabaseType::Sqlite, DatabaseType::MariaDB) => { assert(db_type_tag(t1).len() != db_type_tag(t2).len()); assert(false); },
        (DatabaseType::Sqlite, DatabaseType::Oracle) => { assert(db_type_tag(t1)[0] != db_type_tag(t2)[0]); assert(false); },
        (DatabaseType::Sqlite, DatabaseType::Redis) => { assert(db_type_tag(t1).len() != db_type_tag(t2).len()); assert(false); },
        (DatabaseType::Sqlite, DatabaseType::MongoDB) => { assert(db_type_tag(t1).len() != db_type_tag(t2).len()); assert(false); },
        (DatabaseType::Sqlite, DatabaseType::MicrosoftSQLServer) => { assert(db_type_tag(t1).len() != db_type_tag(t2).len()); assert(false); },
        (DatabaseType::MariaDB, DatabaseType::Postgre) => { assert(db_type_tag(t1)[0] != db_type_tag(t2)[0]); assert(false); },
        (DatabaseType::MariaDB, DatabaseType::MySql) => { assert(db_type_tag(t1).len() != db_type_tag(t2).len()); assert(false); },
        (DatabaseType::MariaDB, DatabaseType::Sqlite) => { assert(db_type_tag(t1).len() != db_type_tag(t2).len()); assert(false); },
        (DatabaseType::MariaDB, DatabaseType::MariaDB) => {},
        (DatabaseType::MariaDB, DatabaseType::Oracle) => { assert(db_type_tag(t1).len() != db_type_tag(t2).len()); assert(false); },
        (DatabaseType::MariaDB, DatabaseType::Redis) => { assert(db_type_tag(t1).len() != db_type_tag(t2).len()); assert(false); },
        (DatabaseType::MariaDB, DatabaseType::MongoDB) => { assert(db_type_tag(t1)[1] != db_type_tag(t2)[1]); assert(false); },
        (DatabaseType::MariaDB, DatabaseType::MicrosoftSQLServer) => { assert(db_type_tag(t1).len() != db_type_tag(t2).len()); assert(false); },
        (DatabaseType::Oracle, DatabaseType::Postgre) => { assert(db_type_tag(t1).len() != db_type_tag(t2).len()); assert(false); },
        (DatabaseType::Oracle, DatabaseType::MySql) => { assert(db_type_tag(t1).len() != db_type_tag(t2).len()); assert(false); },
        (DatabaseType::Oracle, DatabaseType::Sqlite) => { assert(db_type_tag(t1)[0] != db_type_tag(t2)[0]); assert(false); },
        (DatabaseType::Oracle, DatabaseType::MariaDB) => { assert(db_type_tag(t1).len() != db_type_tag(t2).len()); assert(false); },
        (DatabaseType::Oracle, DatabaseType::Oracle) => {},
        (DatabaseType::Oracle, DatabaseType::Redis) => { assert(db_type_tag(t1).len() != db_type_tag(t2).len()); assert(false); },
        (DatabaseType::Oracle, DatabaseType::MongoDB) => { assert(db_type_tag(t1).len() != db_type_tag(t2).len()); assert(false); },
        (DatabaseType::Oracle, DatabaseType::MicrosoftSQLServer) => { assert(db_type_tag(t1).len() != db_type_tag(t2).len()); assert(false); },
        (DatabaseType::Redis, DatabaseType::Postgre) => { assert(db_type_tag(t1).len() != db_type_tag(t2).len()); assert(false); },
        (DatabaseType::Redis, DatabaseType::MySql) => { assert(db_type_tag(t1)[0] != db_type_tag(t2)[0]); assert(false); },
        (DatabaseType::Redis, DatabaseType::Sqlite) => { assert(db_type_tag(t1).len() != db_type_tag(t2).len()); assert(false); },
        (DatabaseType::Redis, DatabaseType::MariaDB) => { assert(db_type_tag(t1).len() != db_type_tag(t2).len()); assert(false); },
        (DatabaseType::Redis, DatabaseType::Oracle) => { assert(db_type_tag(t1).len() != db_type_tag(t2).len()); assert(false); },
        (DatabaseType::Redis, DatabaseType::Redis) => {},
        (DatabaseType::Redis, DatabaseType::MongoDB) => { assert(db_type_tag(t1).len() != db_type_tag(t2).len()); assert(false); },
        (DatabaseType::Redis, DatabaseType::MicrosoftSQLServer) => { assert(db_type_tag(t1).len() != db_type_tag(t2).len()); assert(false); },
        (DatabaseType::MongoDB, DatabaseType::Postgre) => { assert(db_type_tag(t1)[0] != db_type_tag(t2)[0]); assert(false); },
        (DatabaseType::MongoDB, DatabaseType::MySql) => { assert(db_type_tag(t1).len() != db_type_tag(t2).len()); assert(false); },
        (DatabaseType::MongoDB, DatabaseType::Sqlite) => { assert(db_type_tag(t1).len() != db_type_tag(t2).len()); assert(false); },
        (DatabaseType::MongoDB, DatabaseType::MariaDB) => { assert(db_type_tag(t1)[1] != db_type_tag(t2)[1]); assert(false); },
        (DatabaseType::MongoDB, DatabaseType::Oracle) => { assert(db_type_tag(t1).len() != db_type_tag(t2).len()); assert(false); },
        (DatabaseType::MongoDB, DatabaseType::Redis) => { assert(db_type_tag(t1).len() != db_type_tag(t2).len()); assert(false); },
        (DatabaseType::MongoDB, DatabaseType::MongoDB) => {},
        (DatabaseType::MongoDB, DatabaseType::MicrosoftSQLServer) => { assert(db_type_tag(t1).len() != db_type_tag(t2).len()); assert(false); },
        (DatabaseType::MicrosoftSQLServer, DatabaseType::Postgre) => { assert(db_type_tag(t1).len() != db_type_tag(t2).len()); assert(false); },
        (DatabaseType::MicrosoftSQLServer, DatabaseType::MySql) => { assert(db_type_tag(t1).len() != db_type_tag(t2).len()); assert(false); },
        (DatabaseType::MicrosoftSQLServer, DatabaseType::Sqlite) => { assert(db_type_tag(t1).len() != db_type_tag(t2).len()); assert(false); },
        (DatabaseType::MicrosoftSQLServer, DatabaseType::MariaDB) => { assert(db_type_tag(t1).len() != db_type_tag(t2).len()); assert(false); },
        (DatabaseType::MicrosoftSQLServer, DatabaseType::Oracle) => { assert(db_type_tag(t1).len() != db_type_tag(t2).len()); assert(false); },
        (DatabaseType::MicrosoftSQLServer, DatabaseType::Redis) => { assert(db_type_tag(t1).len() != db_type_tag(t2).len()); assert(false); },
        (DatabaseType::MicrosoftSQLServer, DatabaseType::MongoDB) => { assert(db_type_tag(t1).len() != db_type_tag(t2).len()); assert(false); },
        (DatabaseType::MicrosoftSQLServer, DatabaseType::MicrosoftSQLServer) => {},
    }
}

/// An endpoint object determines the endpoint and what follows it.
proof fn lemma_endpoint_prefix(e1: EndpointModel, e2: EndpointModel, r1: Seq<char>, r2: Seq<char>)
    requires
        render_endpoint(e1) + r1 == render_endpoint(e2) + r2,
    ensures
        e1 == e2,
        r1 == r2,
{
    reveal_strlit("{\n        \"Tcp\": [\n          ");
    reveal_strlit("{\n        \"Unix\": ");
    match (e1, e2) {
        (EndpointModel::Tcp(h1, p1), EndpointModel::Tcp(h2, p2)) => {
            let lit1 = "{\n        \"Tcp\": [\n          "@;
            let lit2 = ",\n          "@;
            let lit3 = "\n        ]\n      }"@;
            assert(render_endpoint(e1) + r1 =~= lit1 + (render_string(h1) + (lit2 + (
            render_string(p1) + (lit3 + r1)))));
            assert(render_endpoint(e2) + r2 =~= lit1 + (render_string(h2) + (lit2 + (
            render_string(p2) + (lit3 + r2)))));
            lemma_peel(
                lit1,
                render_string(h1) + (lit2 + (render_string(p1) + (lit3 + r1))),
                render_string(h2) + (lit2 + (render_string(p2) + (lit3 + r2))),
            );
            lemma_string_prefix(
                h1,
                h2,
                lit2 + (render_string(p1) + (lit3 + r1)),
                lit2 + (render_string(p2) + (lit3 + r2)),
            );
            lemma_peel(lit2, render_string(p1) + (lit3 + r1), render_string(p2) + (lit3 + r2));
            lemma_string_prefix(p1, p2, lit3 + r1, lit3 + r2);
            lemma_peel(lit3, r1, r2);
            assert(e1 =~= e2);
        },
        (EndpointModel::Unix(x1), EndpointModel::Unix(x2)) => {
            let lit1 = "{\n        \"Unix\": "@;
            let lit3 = "\n      }"@;
            assert(render_endpoint(e1) + r1 =~= lit1 + (render_string(x1) + (lit3 + r1)));
            assert(render_endpoint(e2) + r2 =~= lit1 + (render_string(x2) + (lit3 + r2)));
            lemma_peel(lit1, render_string(x1) + (lit3 + r1), render_string(x2) + (lit3 + r2));
            lemma_string_prefix(x1, x2, lit3 + r1, lit3 + r2);
            lemma_peel(lit3, r1, r2);
            assert(e1 =~= e2);
        },
        (EndpointModel::Tcp(h1, p1), EndpointModel::Unix(x2)) => {
            assert((render_endpoint(e1) + r1)[11] == 'T');
            assert((render_endpoint(e2) + r2)[11] == 'U');
            assert(false);
        },
        (EndpointModel::Unix(x1), EndpointModel::Tcp(h2, p2)) => {
            assert((render_endpoint(e1) + r1)[11] == 'U');
            assert((render_endpoint(e2) + r2)[11] == 'T');
            assert(false);
        },
    }
}

/// A profile object determines the profile and what follows it.
/// Concatenation reassociates.
proof fn lemma_assoc(a: Seq<char>, b: Seq<char>, c: Seq<char>)
    ensures
        a + b + c == a + (b + c),
{
    assert(a + b + c =~= a + (b + c));
}

#[verifier::rlimit(100)]
proof fn lemma_conn_prefix(
    c1: ConnectionConfigModel,
    c2: ConnectionConfigModel,
    r1: Seq<char>,
    r2: Seq<char>,
)
    requires
        render_conn(c1) + r1 == render_conn(c2) + r2,
    ensures
        c1 == c2,
        r1 == r2,
{
    let la = "{\n      \"id\": "@;
    let lb = ",\n      \"name\": "@;
    let lc = ",\n      \"db_type\": "@;
    let ld = ",\n      \"endpoint\": "@;
    let le = ",\n      \"remember_password\": "@;
    let lf = ",\n      \"username\": "@;
    let lg = ",\n      \"saved_password_len\": "@;
    let lh = "\n    }"@;
    let q15_1 = lh + r1;
    let q14_1 = render_opt_u8(c1.saved_password_len) + q15_1;
    let q13_1 = lg + q14_1;
    let q12_1 = render_string(c1.username) + q13_1;
    let q11_1 = lf + q12_1;
    let q10_1 = render_bool(c1.remember_password) + q11_1;
    let q9_1 = le + q10_1;
    let q8_1 = render_endpoint(c1.endpoint) + q9_1;
    let q7_1 = ld + q8_1;
    let q6_1 = render_db_type(c1.db_type) + q7_1;
    let q5_1 = lc + q6_1;
    let q4_1 = render_string(c1.name) + q5_1;
    let q3_1 = lb + q4_1;
    let q2_1 = render_id(c1.id) + q3_1;
    let q1_1 = la + q2_1;
    let q15_2 = lh + r2;
    let q14_2 = render_opt_u8(c2.saved_password_len) + q15_2;
    let q13_2 = lg + q14_2;
    let q12_2 = render_string(c2.username) + q13_2;
    let q11_2 = lf + q12_2;
    let q10_2 = render_bool(c2.remember_password) + q11_2;
    let q9_2 = le + q10_2;
    let q8_2 = render_endpoint(c2.endpoint) + q9_2;
    let q7_2 = ld + q8_2;
    let q6_2 = render_db_type(c2.db_type) + q7_2;
    let q5_2 = lc + q6_2;
    let q4_2 = render_string(c2.name) + q5_2;
    let q3_2 = lb + q4_2;
    let q2_2 = render_id(c2.id) + q3_2;
    let q1_2 = la + q2_2;
    let p1_1 = la;
    let p2_1 = p1_1 + render_id(c1.id);
    let p3_1 = p2_1 + lb;
    let p4_1 = p3_1 + render_string(c1.name);
    let p5_1 = p4_1 + lc;
    let p6_1 = p5_1 + render_db_type(c1.db_type);
    let p7_1 = p6_1 + ld;
    let p8_1 = p7_1 + render_endpoint(c1.endpoint);
    let p9_1 = p8_1 + le;
    let p10_1 = p9_1 + render_bool(c1.remember_password);
    let p11_1 = p10_1 + lf;
    let p12_1 = p11_1 + render_string(c1.username);
    let p13_1 = p12_1 + lg;
    let p14_1 = p13_1 + render_opt_u8(c1.saved_password_len);
    let p15_1 = p14_1 + lh;
    assert(render_conn(c1) == p15_1);
    assert(render_conn(c1) + r1 == p15_1 + r1);
    lemma_assoc(p14_1, lh, r1);
    assert(p15_1 + r1 == p14_1 + q15_1);
    lemma_assoc(p13_1, render_opt_u8(c1.saved_password_len), q15_1);
    assert(p14_1 + q15_1 == p13_1 + q14_1);
    lemma_assoc(p12_1, lg, q14_1);
    assert(p13_1 + q14_1 == p12_1 + q13_1);
    lemma_assoc(p11_1, render_string(c1.username), q13_1);
    assert(p12_1 + q13_1 == p11_1 + q12_1);
    lemma_assoc(p10_1, lf, q12_1);
    assert(p11_1 + q12_1 == p10_1 + q11_1);
    lemma_assoc(p9_1, render_bool(c1.remember_password), q11_1);
    assert(p10_1 + q11_1 == p9_1 + q10_1);
    lemma_assoc(p8_1, le, q10_1);
    assert(p9_1 + q10_1 == p8_1 + q9_1);
    lemma_assoc(p7_1, render_endpoint(c1.endpoint), q9_1);
    assert(p8_1 + q9_1 == p7_1 + q8_1);
    lemma_assoc(p6_1, ld, q8_1);
    assert(p7_1 + q8_1 == p6_1 + q7_1);
    lemma_assoc(p5_1, render_db_type(c1.db_type), q7_1);
    assert(p6_1 + q7_1 == p5_1 + q6_1);
    lemma_assoc(p4_1, lc, q6_1);
    assert(p5_1 + q6_1 == p4_1 + q5_1);
    lemma_assoc(p3_1, render_string(c1.name), q5_1);
    assert(p4_1 + q5_1 == p3_1 + q4_1);
    lemma_assoc(p2_1, lb, q4_1);
    assert(p3_1 + q4_1 == p2_1 + q3_1);
    lemma_assoc(p1_1, render_id(c1.id), q3_1);
    assert(p2_1 + q3_1 == p1_1 + q2_1);
    assert(p1_1 + q2_1 == q1_1);
    assert(render_conn(c1) + r1 == q1_1);
    let p1_2 = la;
    let p2_2 = p1_2 + render_id(c2.id);
    let p3_2 = p2_2 + lb;
    let p4_2 = p3_2 + render_string(c2.name);
    let p5_2 = p4_2 + lc;
    let p6_2 = p5_2 + render_db_type(c2.db_type);
    let p7_2 = p6_2 + ld;
    let p8_2 = p7_2 + render_endpoint(c2.endpoint);
    let p9_2 = p8_2 + le;
    let p10_2 = p9_2 + render_bool(c2.remember_password);
    let p11_2 = p10_2 + lf;
    let p12_2 = p11_2 + render_string(c2.username);
    let p13_2 = p12_2 + lg;
    let p14_2 = p13_2 + render_opt_u8(c2.saved_password_len);
    let p15_2 = p14_2 + lh;
    assert(render_conn(c2) == p15_2);
    assert(render_conn(c2) + r2 == p15_2 + r2);
    lemma_assoc(p14_2, lh, r2);
    assert(p15_2 + r2 == p14_2 + q15_2);
    lemma_assoc(p13_2, render_opt_u8(c2.saved_password_len), q15_2);
    assert(p14_2 + q15_2 == p13_2 + q14_2);
    lemma_assoc(p12_2, lg, q14_2);
    assert(p13_2 + q14_2 == p12_2 + q13_2);
    lemma_assoc(p11_2, render_string(c2.username), q13_2);
    assert(p12_2 + q13_2 == p11_2 + q12_2);
    lemma_assoc(p10_2, lf, q12_2);
    assert(p11_2 + q12_2 == p10_2 + q11_2);
    lemma_assoc(p9_2, render_bool(c2.remember_password), q11_2);
    assert(p10_2 + q11_2 == p9_2 + q10_2);
    lemma_assoc(p8_2, le, q10_2);
    assert(p9_2 + q10_2 == p8_2 + q9_2);
    lemma_assoc(p7_2, render_endpoint(c2.endpoint), q9_2);
    assert(p8_2 + q9_2 == p7_2 + q8_2);
    lemma_assoc(p6_2, ld, q8_2);
    assert(p7_2 + q8_2 == p6_2 + q7_2);
    lemma_assoc(p5_2, render_db_type(c2.db_type), q7_2);
    assert(p6_2 + q7_2 == p5_2 + q6_2);
    lemma_assoc(p4_2, lc, q6_2);
    assert(p5_2 + q6_2 == p4_2 + q5_2);
    lemma_assoc(p3_2, render_string(c2.name), q5_2);
    assert(p4_2 + q5_2 == p3_2 + q4_2);
    lemma_assoc(p2_2, lb, q4_2);
    assert(p3_2 + q4_2 == p2_2 + q3_2);
    lemma_assoc(p1_2, render_id(c2.id), q3_2);
    assert(p2_2 + q3_2 == p1_2 + q2_2);
    assert(p1_2 + q2_2 == q1_2);
    assert(render_conn(c2) + r2 == q1_2);
    assert(q1_1 == q1_2);
    lemma_peel(la, q2_1, q2_2);
    lemma_id_prefix(c1.id, c2.id, q3_1, q3_2);
    lemma_peel(lb, q4_1, q4_2);
    lemma_string_prefix(c1.name, c2.name, q5_1, q5_2);
    lemma_peel(lc, q6_1, q6_2);
    lemma_db_type_prefix(c1.db_type, c2.db_type, q7_1, q7_2);
    lemma_peel(ld, q8_1, q8_2);
    lemma_endpoint_prefix(c1.endpoint, c2.endpoint, q9_1, q9_2);
    lemma_peel(le, q10_1, q10_2);
    lemma_bool_prefix(c1.remember_password, c2.remember_password, q11_1, q11_2);
    lemma_peel(lf, q12_1, q12_2);
    lemma_string_prefix(c1.username, c2.username, q13_1, q13_2);
    lemma_peel(lg, q14_1, q14_2);
    reveal_strlit("\n    }");
    assert(q15_1[0] == '\n');
    assert(q15_2[0] == '\n');
    lemma_opt_u8_prefix(c1.saved_password_len, c2.saved_password_len, q15_1, q15_2);
    lemma_peel(lh, r1, r2);
    assert(c1 =~= c2);
}

/// A profile list of two or more renders as its first profile, a
/// separator, and the remaining profiles.
#[verifier::rlimit(100)]
#[verifier::spinoff_prover]
proof fn lemma_conn_items_front(s: Seq<ConnectionConfigModel>)
    requires
        s.len() >= 2,
    ensures
        render_conn_items(s) == render_conn(s[0]) + (",\n    "@ + render_conn_items(
            s.drop_first(),
        )),
    decreases s.len(),
{
    let sep = ",\n    "@;
    if s.len() == 2 {
        assert(s.drop_last().len() == 1);
        assert(s.drop_last()[0] == s[0]);
        assert(render_conn_items(s.drop_last()) == render_conn(s[0]));
        assert(s.drop_first().len() == 1);
        assert(s.drop_first()[0] == s.last());
        assert(render_conn_items(s.drop_first()) == render_conn(s.last()));
        lemma_assoc(render_conn(s[0]), sep, render_conn(s.last()));
    } else {
        let dl = s.drop_last();
        lemma_conn_items_front(dl);
        assert(dl[0] == s[0]);
        let df = s.drop_first();
        assert(df.len() >= 2);
        assert(dl.drop_first() =~= df.drop_last());
        assert(df.last() == s.last());
        let a = render_conn(s[0]);
        let i = render_conn_items(df.drop_last());
        let c = render_conn(s.last());
        assert(render_conn_items(s) == (a + (sep + i) + sep) + c);
        assert(render_conn_items(df) == i + sep + c);
        assert((a + (sep + i) + sep) + c =~= a + (sep + (i + sep + c)));
    }
}

/// An id list of two or more renders as its first id, a separator, and the
/// remaining ids.
#[verifier::rlimit(100)]
#[verifier::spinoff_prover]
proof fn lemma_id_items_front(s: Seq<u128>)
    requires
        s.len() >= 2,
    ensures
        render_id_items(s) == render_id(s[0]) + (",\n    "@ + render_id_items(s.drop_first())),
    decreases s.len(),
{
    let sep = ",\n    "@;
    if s.len() == 2 {
        assert(s.drop_last().len() == 1);
        assert(s.drop_last()[0] == s[0]);
        assert(render_id_items(s.drop_last()) == render_id(s[0]));
        assert(s.drop_first().len() == 1);
        assert(s.drop_first()[0] == s.last());
        assert(render_id_items(s.drop_first()) == render_id(s.last()));
        lemma_assoc(render_id(s[0]), sep, render_id(s.last()));
    } else {
        let dl = s.drop_last();
        lemma_id_items_front(dl);
        assert(dl[0] == s[0]);
        let df = s.drop_first();
        assert(df.len() >= 2);
        assert(dl.drop_first() =~= df.drop_last());
        assert(df.last() == s.last());
        let a = render_id(s[0]);
        let i = render_id_items(df.drop_last());
        let c = render_id(s.last());
        assert(render_id_items(s) == (a + (sep + i) + sep) + c);
        assert(render_id_items(df) == i + sep + c);
        assert((a + (sep + i) + sep) + c =~= a + (sep + (i + sep + c)));
    }
}

/// A non-empty profile list is delimited by the closing bracket line.
#[verifier::rlimit(100)]
#[verifier::spinoff_prover]
proof fn lemma_conn_items_terminated(
    s1: Seq<ConnectionConfigModel>,
    s2: Seq<ConnectionConfigModel>,
    r1: Seq<char>,
    r2: Seq<char>,
)
    requires
        s1.len() >= 1,
        s2.len() >= 1,
        render_conn_items(s1) + ("\n  ]"@ + r1) == render_conn_items(s2) + ("\n  ]"@ + r2),
    ensures
        s1 == s2,
        r1 == r2,
    decreases s1.len(),
{
    reveal_strlit(",\n    ");
    reveal_strlit("\n  ]");
    let sep = ",\n    "@;
    let endl = "\n  ]"@;
    if s1.len() == 1 && s2.len() == 1 {
        assert(render_conn_items(s1) == render_conn(s1[0]));
        assert(render_conn_items(s2) == render_conn(s2[0]));
        lemma_conn_prefix(s1[0], s2[0], endl + r1, endl + r2);
        lemma_peel(endl, r1, r2);
        assert(s1 =~= s2);
    } else if s1.len() == 1 {
        assert(render_conn_items(s1) == render_conn(s1[0]));
        lemma_conn_items_front(s2);
        let tail2 = render_conn_items(s2.drop_first());
        assert(render_conn_items(s2) + (endl + r2) =~= render_conn(s2[0]) + (sep + (tail2 + (
        endl + r2))));
        lemma_conn_prefix(s1[0], s2[0], endl + r1, sep + (tail2 + (endl + r2)));
        assert((endl + r1)[0] == '\n');
        assert((sep + (tail2 + (endl + r2)))[0] == ',');
        assert(false);
    } else if s2.len() == 1 {
        assert(render_conn_items(s2) == render_conn(s2[0]));
        lemma_conn_items_front(s1);
        let tail1 = render_conn_items(s1.drop_first());
        assert(render_conn_items(s1) + (endl + r1) =~= render_conn(s1[0]) + (sep + (tail1 + (
        endl + r1))));
        lemma_conn_prefix(s1[0], s2[0], sep + (tail1 + (endl + r1)), endl + r2);
        assert((endl + r2)[0] == '\n');
        assert((sep + (tail1 + (endl + r1)))[0] == ',');
        assert(false);
    } else {
        lemma_conn_items_front(s1);
        lemma_conn_items_front(s2);
        let tail1 = render_conn_items(s1.drop_first());
        let tail2 = render_conn_items(s2.drop_first());
        assert(render_conn_items(s1) + (endl + r1) =~= render_conn(s1[0]) + (sep + (tail1 + (
        endl + r1))));
        assert(render_conn_items(s2) + (endl + r2) =~= render_conn(s2[0]) + (sep + (tail2 + (
        endl + r2))));
        lemma_conn_prefix(s1[0], s2[0], sep + (tail1 + (endl + r1)), sep + (tail2 + (endl
            + r2)));
        lemma_peel(sep, tail1 + (endl + r1), tail2 + (endl + r2));
        lemma_conn_items_terminated(s1.drop_first(), s2.drop_first(), r1, r2);
        assert(s1 =~= seq![s1[0]] + s1.drop_first());
        assert(s2 =~= seq![s2[0]] + s2.drop_first());
    }
}

/// A non-empty id list is delimited by the closing bracket line.
#[verifier::rlimit(100)]
#[verifier::spinoff_prover]
proof fn lemma_id_items_terminated(s1: Seq<u128>, s2: Seq<u128>, r1: Seq<char>, r2: Seq<char>)
    requires
        s1.len() >= 1,
        s2.len() >= 1,
        render_id_items(s1) + ("\n  ]"@ + r1) == render_id_items(s2) + ("\n  ]"@ + r2),
    ensures
        s1 == s2,
        r1 == r2,
    decreases s1.len(),
{
    reveal_strlit(",\n    ");
    reveal_strlit("\n  ]");
    let sep = ",\n    "@;
    let endl = "\n  ]"@;
    if s1.len() == 1 && s2.len() == 1 {
        assert(render_id_items(s1) == render_id(s1[0]));
        assert(render_id_items(s2) == render_id(s2[0]));
        lemma_id_prefix(s1[0], s2[0], endl + r1, endl + r2);
        lemma_peel(endl, r1, r2);
        assert(s1 =~= s2);
    } else if s1.len() == 1 {
        assert(render_id_items(s1) == render_id(s1[0]));
        lemma_id_items_front(s2);
        let tail2 = render_id_items(s2.drop_first());
        assert(render_id_items(s2) + (endl + r2) =~= render_id(s2[0]) + (sep + (tail2 + (endl
            + r2))));
        lemma_id_prefix(s1[0], s2[0], endl + r1, sep + (tail2 + (endl + r2)));
        assert((endl + r1)[0] == '\n');
        assert((sep + (tail2 + (endl + r2)))[0] == ',');
        assert(false);
    } else if s2.len() == 1 {
        assert(render_id_items(s2) == render_id(s2[0]));
        lemma_id_items_front(s1);
        let tail1 = render_id_items(s1.drop_first());
        assert(render_id_items(s1) + (endl + r1) =~= render_id(s1[0]) + (sep + (tail1 + (endl
            + r1))));
        lemma_id_prefix(s1[0], s2[0], sep + (tail1 + (endl + r1)), endl + r2);
        assert((endl + r2)[0] == '\n');
        assert((sep + (tail1 + (endl + r1)))[0] == ',');
        assert(false);
    } else {
        lemma_id_items_front(s1);
        lemma_id_items_front(s2);
        let tail1 = render_id_items(s1.drop_first());
        let tail2 = render_id_items(s2.drop_first());
        assert(render_id_items(s1) + (endl + r1) =~= render_id(s1[0]) + (sep + (tail1 + (endl
            + r1))));
        assert(render_id_items(s2) + (endl + r2) =~= render_id(s2[0]) + (sep + (tail2 + (endl
            + r2))));
        lemma_id_prefix(s1[0], s2[0], sep + (tail1 + (endl + r1)), sep + (tail2 + (endl
            + r2)));
        lemma_peel(sep, tail1 + (endl + r1), tail2 + (endl + r2));
        lemma_id_items_terminated(s1.drop_first(), s2.drop_first(), r1, r2);
        assert(s1 =~= seq![s1[0]] + s1.drop_first());
        assert(s2 =~= seq![s2[0]] + s2.drop_first());
    }
}

/// A rendered profile list determines the profiles and what follows it.
proof fn lemma_conns_prefix(
    s1: Seq<ConnectionConfigModel>,
    s2: Seq<ConnectionConfigModel>,
    r1: Seq<char>,
    r2: Seq<char>,
)
    requires
        render_conns(s1) + r1 == render_conns(s2) + r2,
    ensures
        s1 == s2,
        r1 == r2,
{
    reveal_strlit("[]");
    reveal_strlit("[\n    ");
    let open = "[\n    "@;
    let endl = "\n  ]"@;
    if s1.len() == 0 && s2.len() == 0 {
        lemma_peel("[]"@, r1, r2);
        assert(s1 =~= s2);
    } else if s1.len() == 0 {
        assert(("[]"@ + r1)[1] == ']');
        assert(((open + render_conn_items(s2) + endl) + r2)[1] == '\n');
        assert(false);
    } else if s2.len() == 0 {
        assert(("[]"@ + r2)[1] == ']');
        assert(((open + render_conn_items(s1) + endl) + r1)[1] == '\n');
        assert(false);
    } else {
        assert((open + render_conn_items(s1) + endl) + r1 =~= open + (render_conn_items(s1) + (
        endl + r1)));
        assert((open + render_conn_items(s2) + endl) + r2 =~= open + (render_conn_items(s2) + (
        endl + r2)));
        lemma_peel(open, render_conn_items(s1) + (endl + r1), render_conn_items(s2) + (endl
            + r2));
        lemma_conn_items_terminated(s1, s2, r1, r2);
    }
}

/// A rendered id list determines the ids and what follows it.
proof fn lemma_ids_prefix(s1: Seq<u128>, s2: Seq<u128>, r1: Seq<char>, r2: Seq<char>)
    requires
        render_ids(s1) + r1 == render_ids(s2) + r2,
    ensures
        s1 == s2,
        r1 == r2,
{
    reveal_strlit("[]");
    reveal_strlit("[\n    ");
    let open = "[\n    "@;
    let endl = "\n  ]"@;
    if s1.len() == 0 && s2.len() == 0 {
        lemma_peel("[]"@, r1, r2);
        assert(s1 =~= s2);
    } else if s1.len() == 0 {
        assert(("[]"@ + r1)[1] == ']');
        assert(((open + render_id_items(s2) + endl) + r2)[1] == '\n');
        assert(false);
    } else if s2.len() == 0 {
        assert(("[]"@ + r2)[1] == ']');
        assert(((open + render_id_items(s1) + endl) + r1)[1] == '\n');
        assert(false);
    } else {
        assert((open + render_id_items(s1) + endl) + r1 =~= open + (render_id_items(s1) + (endl
            + r1)));
        assert((open + render_id_items(s2) + endl) + r2 =~= open + (render_id_items(s2) + (endl
            + r2)));
        lemma_peel(open, render_id_items(s1) + (endl + r1), render_id_items(s2) + (endl + r2));
        lemma_id_items_terminated(s1, s2, r1, r2);
    }
}

/// The round-trip law: the canonical rendering determines the document, so
/// two documents with the same persisted text are equal in every field.
/// With [`to_json`]'s and [`parse_json`]'s contracts this pins the whole
/// round trip down: whenever the reader accepts what the writer produced
/// for a document, the result is that document, field for field.
#[verifier::rlimit(100)]
#[verifier::spinoff_prover]
pub proof fn lemma_document_unambiguous(d1: DBConfigModel, d2: DBConfigModel)
    requires
        render_doc(d1) == render_doc(d2),
    ensures
        d1 == d2,
{
    let l1 = "{\n  \"version\": "@;
    let l2 = ",\n  \"connections\": "@;
    let l3 = ",\n  \"active_connection_ids\": "@;
    let l4 = "\n}"@;
    let q7_1 = l4;
    let q6_1 = render_ids(d1.active_connection_ids) + q7_1;
    let q5_1 = l3 + q6_1;
    let q4_1 = render_conns(d1.connections) + q5_1;
    let q3_1 = l2 + q4_1;
    let q2_1 = render_string(d1.version) + q3_1;
    let q1_1 = l1 + q2_1;
    let q7_2 = l4;
    let q6_2 = render_ids(d2.active_connection_ids) + q7_2;
    let q5_2 = l3 + q6_2;
    let q4_2 = render_conns(d2.connections) + q5_2;
    let q3_2 = l2 + q4_2;
    let q2_2 = render_string(d2.version) + q3_2;
    let q1_2 = l1 + q2_2;
    let p1_1 = l1;
    let p2_1 = p1_1 + render_string(d1.version);
    let p3_1 = p2_1 + l2;
    let p4_1 = p3_1 + render_conns(d1.connections);
    let p5_1 = p4_1 + l3;
    let p6_1 = p5_1 + render_ids(d1.active_connection_ids);
    let p7_1 = p6_1 + l4;
    assert(render_doc(d1) == p7_1);
    assert(p7_1 == p6_1 + q7_1);
    lemma_assoc(p5_1, render_ids(d1.active_connection_ids), q7_1);
    assert(p6_1 + q7_1 == p5_1 + q6_1);
    lemma_assoc(p4_1, l3, q6_1);
    assert(p5_1 + q6_1 == p4_1 + q5_1);
    lemma_assoc(p3_1, render_conns(d1.connections), q5_1);
    assert(p4_1 + q5_1 == p3_1 + q4_1);
    lemma_assoc(p2_1, l2, q4_1);
    assert(p3_1 + q4_1 == p2_1 + q3_1);
    lemma_assoc(p1_1, render_string(d1.version), q3_1);
    assert(p2_1 + q3_1 == p1_1 + q2_1);
    assert(p1_1 + q2_1 == q1_1);
    assert(render_doc(d1) == q1_1);
    let p1_2 = l1;
    let p2_2 = p1_2 + render_string(d2.version);
    let p3_2 = p2_2 + l2;
    let p4_2 = p3_2 + render_conns(d2.connections);
    let p5_2 = p4_2 + l3;
    let p6_2 = p5_2 + render_ids(d2.active_connection_ids);
    let p7_2 = p6_2 + l4;
    assert(render_doc(d2) == p7_2);
    assert(p7_2 == p6_2 + q7_2);
    lemma_assoc(p5_2, render_ids(d2.active_connection_ids), q7_2);
    assert(p6_2 + q7_2 == p5_2 + q6_2);
    lemma_assoc(p4_2, l3, q6_2);
    assert(p5_2 + q6_2 == p4_2 + q5_2);
    lemma_assoc(p3_2, render_conns(d2.connections), q5_2);
    assert(p4_2 + q5_2 == p3_2 + q4_2);
    lemma_assoc(p2_2, l2, q4_2);
    assert(p3_2 + q4_2 == p2_2 + q3_2);
    lemma_assoc(p1_2, render_string(d2.version), q3_2);
    assert(p2_2 + q3_2 == p1_2 + q2_2);
    assert(p1_2 + q2_2 == q1_2);
    assert(render_doc(d2) == q1_2);
    assert(q1_1 == q1_2);
    lemma_peel(l1, q2_1, q2_2);
    lemma_string_prefix(d1.version, d2.version, q3_1, q3_2);
    lemma_peel(l2, q4_1, q4_2);
    lemma_conns_prefix(d1.connections, d2.connections, q5_1, q5_2);
    lemma_peel(l3, q6_1, q6_2);
    lemma_ids_prefix(d1.active_connection_ids, d2.active_connection_ids, q7_1, q7_2);
    assert(d1 =~= d2);
}

impl DBConfig {
    /// The canonical pretty-printed rendering of this document.
    pub fn to_json_string(&self) -> (r: String)
        ensures
            r@ == render_doc(self@),
    {
        to_json(self)
    }

    /// Reads a document back from its canonical rendering: exactly the
    /// canonical renderings are accepted, and each one yields the document
    /// it was rendered from, field for field.
    pub fn from_json_string(s: &str) -> (r: Result<DBConfig, DBError>)
        ensures
            r matches Ok(c) ==> s@ == render_doc(c@) && wf_doc(c@),
            r is Err ==> r->Err_0 is DatabaseError,
            forall|d: DBConfigModel|
                wf_doc(d) && s@ == #[trigger] render_doc(d) ==> (r matches Ok(c) && c@ == d),
    {
        let r = parse_json(s);
        proof {
            if r is Ok {
                assert forall|d: DBConfigModel|
                    wf_doc(d) && s@ == #[trigger] render_doc(d) implies (r matches Ok(c)
                    && c@ == d) by {
                    if wf_doc(d) && s@ == render_doc(d) {
                        lemma_document_unambiguous(r->Ok_0@, d);
                    }
                }
            }
        }
        r
    }
}

} // verus!
