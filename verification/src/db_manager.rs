//! The connection manager: single source of truth for connection profiles,
//! the active-connection subset and live driver handles. All mutation is
//! funnelled through it; persistence of the document to disk happens outside
//! the library, after the in-memory mutation has succeeded.

use vstd::prelude::*;
use vstd::seq_lib::*;
use vstd::string::*;
use crate::database::{ConnectionConfig, ConnectionConfigModel, ConnectionId};
use crate::db_config::{
    active_configs_of, add_active_id, find_connection, remove_active_id, resolvable,
    resolvable_ids, resolve_ids, upsert_connection, DBConfig,
};
use crate::driver::DBError;
use crate::keystore::store_password;

verus! {

/// `c` with its password-length hint replaced.
pub open spec fn with_password_len(
    c: ConnectionConfigModel,
    l: Option<u8>,
) -> ConnectionConfigModel {
    ConnectionConfigModel { saved_password_len: l, ..c }
}

/// The byte length recorded as hint for a password: its UTF-8 length,
/// reduced mod 256 so it fits the hint field.
pub open spec fn password_len_hint(p: Seq<char>) -> u8 {
    ((vstd::utf8::encode_utf8(p).len() as usize) % 256) as u8
}

/// The profile as `save_config` stores it: unchanged when no password is
/// supplied, else with the hint set to the supplied password's length.
pub open spec fn saved_profile(
    c: ConnectionConfigModel,
    password: Option<Seq<char>>,
) -> ConnectionConfigModel {
    match password {
        Some(p) => with_password_len(c, Some(password_len_hint(p))),
        None => c,
    }
}

/// The first entry with the given key, if any.
pub open spec fn lookup_driver<D>(entries: Seq<(Seq<char>, D)>, key: Seq<char>) -> Option<D>
    decreases entries.len(),
{
    if entries.len() == 0 {
        None
    } else if entries[0].0 == key {
        Some(entries[0].1)
    } else {
        lookup_driver(entries.drop_first(), key)
    }
}

/// Key-based upsert on the driver registry: replaces the first entry with
/// this key, or appends.
pub open spec fn upsert_driver<D>(entries: Seq<(Seq<char>, D)>, key: Seq<char>, d: D) -> Seq<
    (Seq<char>, D),
>
    decreases entries.len(),
{
    if entries.len() == 0 {
        seq![(key, d)]
    } else if entries[0].0 == key {
        seq![(key, d)] + entries.drop_first()
    } else {
        seq![entries[0]] + upsert_driver(entries.drop_first(), key, d)
    }
}

/// The model of the driver registry's entries.
pub open spec fn driver_entries<D>(v: Seq<(String, D)>) -> Seq<(Seq<char>, D)> {
    v.map_values(|p: (String, D)| (p.0@, p.1))
}

/// The central registry. `config` is the in-memory copy of the persisted
/// document; `connections` maps driver keys to live, already-connected
/// driver handles, independent of the document.
pub struct DBManager<D> {
    pub config: DBConfig,
    pub connections: Vec<(String, D)>,
}

/// The service name under which secrets are stored.
pub open spec fn store_service_name() -> Seq<char> {
    "db-sight"@
}

impl<D> DBManager<D> {
    /// A manager holding the empty document and no driver handles.
    pub fn new() -> (r: DBManager<D>)
        ensures
            r.config@.version == "1.0"@,
            r.config@.connections == Seq::<ConnectionConfigModel>::empty(),
            r.config@.active_connection_ids == Seq::<u128>::empty(),
            r.connections@ == Seq::<(String, D)>::empty(),
    {
        let r = DBManager::<D> { config: DBConfig::new(), connections: Vec::new() };
        proof {
            assert(r.connections@ =~= Seq::<(String, D)>::empty());
        }
        r
    }

    /// A clone of every known profile.
    pub fn get_all_configs(&self) -> (r: Vec<ConnectionConfig>)
        ensures
            r@.map_values(|c: ConnectionConfig| c@) == self.config@.connections,
    {
        clone_configs(&self.config.connections)
    }

    /// A clone of the first profile with this id, if any.
    pub fn get_config_by_id(&self, id: &ConnectionId) -> (r: Option<ConnectionConfig>)
        ensures
            match find_connection(self.config@.connections, id.0) {
                Some(m) => r matches Some(c) && c@ == m,
                None => r is None,
            },
    {
        match position_of(&self.config.connections, id) {
            Some(i) => {
                proof {
                    lemma_find_first(self.config@.connections, id.0, i as int);
                }
                Some(self.config.connections[i].clone())
            },
            None => {
                proof {
                    lemma_find_none(self.config@.connections, id.0);
                }
                None
            },
        }
    }

    /// Upserts `config` into the document by id. When a password is
    /// supplied, it is written to the credential store first, keyed by the
    /// profile id under the fixed service name, and the stored profile's
    /// length hint is set to the password's byte length; when the store
    /// write fails, the whole operation fails and nothing changes.
    pub fn save_config(&mut self, config: ConnectionConfig, password: Option<String>) -> (r:
        Result<(), DBError>)
        ensures
            match r {
                Ok(()) => {
                    &&& final(self).config@.connections == upsert_connection(
                        old(self).config@.connections,
                        saved_profile(config@, opt_pwd_view(password)),
                    )
                    &&& final(self).config@.version == old(self).config@.version
                    &&& final(self).config@.active_connection_ids == old(
                        self,
                    ).config@.active_connection_ids
                    &&& final(self).connections@ == old(self).connections@
                },
                Err(e) => {
                    &&& final(self).config@ == old(self).config@
                    &&& final(self).connections@ == old(self).connections@
                    &&& password is Some
                    &&& e is DatabaseError
                },
            },
            password is None ==> r is Ok,
    {
        let mut cfg = config;
        if let Some(pwd) = &password {
            let user = cfg.id.to_text();
            match store_password("db-sight", user.as_str(), pwd.as_str()) {
                Ok(()) => {
                    let byte_len = pwd.as_str().len();
                    cfg.saved_password_len = Some((byte_len % 256) as u8);
                    proof {
                        assert(byte_len == vstd::utf8::encode_utf8(pwd@).len() as usize);
                        assert(cfg@.saved_password_len == Some(password_len_hint(pwd@)));
                        assert(opt_pwd_view(password) == Some(pwd@));
                        assert(cfg@ == saved_profile(config@, opt_pwd_view(password)));
                    }
                },
                Err(msg) => {
                    return Err(DBError::DatabaseError(msg));
                },
            }
        }
        let ghost stored = cfg@;
        match position_of(&self.config.connections, &cfg.id) {
            Some(i) => {
                proof {
                    lemma_upsert_at(old(self).config@.connections, stored, i as int);
                }
                self.config.connections.remove(i);
                self.config.connections.insert(i, cfg);
                proof {
                    assert(self.config@.connections =~= old(self).config@.connections.update(
                        i as int,
                        stored,
                    ));
                }
            },
            None => {
                proof {
                    lemma_upsert_append(old(self).config@.connections, stored);
                }
                self.config.connections.push(cfg);
                proof {
                    assert(self.config@.connections =~= old(self).config@.connections.push(
                        stored,
                    ));
                }
            },
        }
        Ok(())
    }

    /// Marks `config_id` active; a no-op when it already is. Never
    /// introduces a duplicate id.
    pub fn add_active_connection(&mut self, config_id: ConnectionId)
        ensures
            final(self).config@.active_connection_ids == add_active_id(
                old(self).config@.active_connection_ids,
                config_id.0,
            ),
            final(self).config@.connections == old(self).config@.connections,
            final(self).config@.version == old(self).config@.version,
            final(self).connections@ == old(self).connections@,
    {
        let ghost ids = self.config@.active_connection_ids;
        let n = self.config.active_connection_ids.len();
        let mut i: usize = 0;
        while i < n
            invariant
                n == self.config.active_connection_ids@.len(),
                0 <= i <= n,
                ids == self.config@.active_connection_ids,
                forall|k: int| 0 <= k < i ==> self.config.active_connection_ids@[k].0
                    != config_id.0,
            decreases n - i,
        {
            if self.config.active_connection_ids[i] == config_id {
                proof {
                    assert(ids[i as int] == config_id.0);
                    assert(ids.contains(config_id.0));
                }
                return ;
            }
            i = i + 1;
        }
        proof {
            assert forall|k: int| 0 <= k < ids.len() implies ids[k] != config_id.0 by {
                assert(ids[k] == self.config.active_connection_ids@[k].0);
            }
            assert(!ids.contains(config_id.0));
        }
        self.config.active_connection_ids.push(config_id);
        proof {
            assert(self.config@.active_connection_ids =~= ids.push(config_id.0));
        }
    }

    /// Drops every occurrence of `config_id` from the active list; a no-op
    /// when it is absent.
    pub fn remove_active_connection(&mut self, config_id: &ConnectionId)
        ensures
            final(self).config@.active_connection_ids == remove_active_id(
                old(self).config@.active_connection_ids,
                config_id.0,
            ),
            final(self).config@.connections == old(self).config@.connections,
            final(self).config@.version == old(self).config@.version,
            final(self).connections@ == old(self).connections@,
    {
        let ghost ids = self.config@.active_connection_ids;
        let mut kept: Vec<ConnectionId> = Vec::new();
        let n = self.config.active_connection_ids.len();
        let mut i: usize = 0;
        proof {
            reveal(Seq::filter);
            assert(ids.take(0) =~= Seq::<u128>::empty());
        }
        while i < n
            invariant
                n == self.config.active_connection_ids@.len(),
                0 <= i <= n,
                ids == self.config@.active_connection_ids,
                kept@.map_values(|c: ConnectionId| c.0) == remove_active_id(
                    ids.take(i as int),
                    config_id.0,
                ),
            decreases n - i,
        {
            proof {
                reveal(Seq::filter);
                assert(ids.take(i + 1).drop_last() =~= ids.take(i as int));
                assert(ids.take(i + 1).last() == ids[i as int]);
            }
            let e = self.config.active_connection_ids[i];
            if !(e == *config_id) {
                kept.push(e);
                proof {
                    assert(kept@.map_values(|c: ConnectionId| c.0) =~= remove_active_id(
                        ids.take(i + 1),
                        config_id.0,
                    ));
                }
            } else {
                proof {
                    assert(kept@.map_values(|c: ConnectionId| c.0) =~= remove_active_id(
                        ids.take(i + 1),
                        config_id.0,
                    ));
                }
            }
            i = i + 1;
        }
        self.config.active_connection_ids = kept;
        proof {
            assert(ids.take(n as int) =~= ids);
            assert(self.config@.active_connection_ids =~= remove_active_id(ids, config_id.0));
        }
    }

    /// The profiles of the active ids, in the order of the active list,
    /// dangling ids silently dropped.
    pub fn get_active_configs(&self) -> (r: Vec<ConnectionConfig>)
        ensures
            r@.map_values(|c: ConnectionConfig| c@) == active_configs_of(self.config@),
    {
        let ghost doc = self.config@;
        let mut out: Vec<ConnectionConfig> = Vec::new();
        let n = self.config.active_connection_ids.len();
        let mut i: usize = 0;
        proof {
            reveal(Seq::filter);
            assert(doc.active_connection_ids.take(0) =~= Seq::<u128>::empty());
        }
        while i < n
            invariant
                n == self.config.active_connection_ids@.len(),
                0 <= i <= n,
                doc == self.config@,
                out@.map_values(|c: ConnectionConfig| c@) == resolve_ids(
                    doc.connections,
                    doc.active_connection_ids.take(i as int),
                ),
            decreases n - i,
        {
            let id = self.config.active_connection_ids[i];
            proof {
                assert(doc.active_connection_ids.take(i + 1) =~= doc.active_connection_ids.take(
                    i as int,
                ).push(id.0));
                crate::db_config::lemma_resolve_ids_push(
                    doc.connections,
                    doc.active_connection_ids.take(i as int),
                    id.0,
                );
            }
            match position_of(&self.config.connections, &id) {
                Some(j) => {
                    proof {
                        assert(doc.connections[j as int] == self.config.connections@[j as int]@);
                        lemma_find_first(doc.connections, id.0, j as int);
                        assert(resolvable(doc.connections, id.0));
                    }
                    out.push(self.config.connections[j].clone());
                    proof {
                        assert(out@.map_values(|c: ConnectionConfig| c@) =~= resolve_ids(
                            doc.connections,
                            doc.active_connection_ids.take(i as int),
                        ).push(find_connection(doc.connections, id.0).unwrap()));
                        assert(out@.map_values(|c: ConnectionConfig| c@) == resolve_ids(
                            doc.connections,
                            doc.active_connection_ids.take(i + 1),
                        ));
                    }
                },
                None => {
                    proof {
                        lemma_find_none(doc.connections, id.0);
                        assert(!resolvable(doc.connections, id.0));
                        assert(out@.map_values(|c: ConnectionConfig| c@) == resolve_ids(
                            doc.connections,
                            doc.active_connection_ids.take(i + 1),
                        ));
                    }
                },
            }
            i = i + 1;
        }
        proof {
            assert(doc.active_connection_ids.take(n as int) =~= doc.active_connection_ids);
        }
        out
    }

    /// The raw active-id list, for callers that only need identity.
    pub fn get_active_config_ids(&self) -> (r: Vec<ConnectionId>)
        ensures
            r@ == self.config.active_connection_ids@,
    {
        let mut out: Vec<ConnectionId> = Vec::new();
        let n = self.config.active_connection_ids.len();
        let mut i: usize = 0;
        while i < n
            invariant
                n == self.config.active_connection_ids@.len(),
                0 <= i <= n,
                out@ == self.config.active_connection_ids@.take(i as int),
            decreases n - i,
        {
            out.push(self.config.active_connection_ids[i]);
            proof {
                assert(out@ =~= self.config.active_connection_ids@.take(i + 1));
            }
            i = i + 1;
        }
        proof {
            assert(out@ =~= self.config.active_connection_ids@);
        }
        out
    }

    /// Registers a live, already-connected driver handle under `key`,
    /// replacing any handle the key already had.
    pub fn add_connection(&mut self, key: String, driver: D)
        ensures
            driver_entries(final(self).connections@) == upsert_driver(
                driver_entries(old(self).connections@),
                key@,
                driver,
            ),
            final(self).config@ == old(self).config@,
    {
        let ghost entries = driver_entries(self.connections@);
        let found = key_position(&self.connections, &key);
        match found {
            Some(j) => {
                proof {
                    lemma_upsert_driver_at(entries, key@, driver, j as int);
                }
                self.connections.push((key, driver));
                self.connections.swap_remove(j);
                proof {
                    assert(driver_entries(self.connections@) =~= entries.update(
                        j as int,
                        (key@, driver),
                    ));
                }
            },
            None => {
                proof {
                    lemma_upsert_driver_append(entries, key@, driver);
                }
                self.connections.push((key, driver));
                proof {
                    assert(driver_entries(self.connections@) =~= entries.push((key@, driver)));
                }
            },
        }
    }

    /// The driver handle registered under `key`, if any.
    pub fn get_connection(&self, key: &str) -> (r: Option<&D>)
        ensures
            match lookup_driver(driver_entries(self.connections@), key@) {
                Some(d) => r matches Some(x) && *x == d,
                None => r is None,
            },
    {
        let ghost entries = driver_entries(self.connections@);
        let owned = key.to_owned();
        match key_position(&self.connections, &owned) {
            Some(i) => {
                proof {
                    lemma_lookup_driver_first(entries, key@, i as int);
                }
                Some(&self.connections[i].1)
            },
            None => {
                proof {
                    lemma_lookup_driver_none(entries, key@);
                }
                None
            },
        }
    }

    /// Every registered driver handle, with its key.
    pub fn get_all_connections(&self) -> (r: &Vec<(String, D)>)
        ensures
            r@ == self.connections@,
    {
        &self.connections
    }

    /// Loads the document: parses the file's text when one was present, or
    /// resets to the empty document when none was. A malformed document
    /// surfaces as an error and changes nothing.
    pub fn load_config(&mut self, content: Option<&str>) -> (r: Result<(), DBError>)
        ensures
            match r {
                Ok(()) => match content {
                    None => {
                        &&& final(self).config@.version == "1.0"@
                        &&& final(self).config@.connections == Seq::<
                            ConnectionConfigModel,
                        >::empty()
                        &&& final(self).config@.active_connection_ids == Seq::<u128>::empty()
                    },
                    Some(s) => s@ == crate::json::render_doc(final(self).config@)
                        && crate::json::wf_doc(final(self).config@),
                },
                Err(e) => {
                    &&& final(self).config@ == old(self).config@
                    &&& content is Some
                    &&& e is DatabaseError
                },
            },
            final(self).connections@ == old(self).connections@,
            content is None ==> r is Ok,
            forall|d: crate::db_config::DBConfigModel|
                (content matches Some(s) && crate::json::wf_doc(d) && s@
                    == #[trigger] crate::json::render_doc(d)) ==> (r is Ok
                    && final(self).config@ == d),
    {
        match content {
            None => {
                self.config = DBConfig::new();
                Ok(())
            },
            Some(s) => match DBConfig::from_json_string(s) {
                Ok(doc) => {
                    self.config = doc;
                    Ok(())
                },
                Err(e) => Err(e),
            },
        }
    }

    /// The document's canonical rendering, as persisted to disk after every
    /// mutating call.
    pub fn config_json(&self) -> (r: String)
        ensures
            r@ == crate::json::render_doc(self.config@),
    {
        self.config.to_json_string()
    }

    /// Saves `config` (with the optional password) and then marks it
    /// active, as one logical operation; when the save step fails the
    /// activation does not run. Returns the profile as it was stored — with
    /// the refreshed password-length hint when a password was supplied — so
    /// the caller can immediately use it.
    pub fn save_and_activate_connection(
        &mut self,
        config: ConnectionConfig,
        password: Option<String>,
    ) -> (r: Result<ConnectionConfig, DBError>)
        ensures
            match r {
                Ok(c) => {
                    &&& c@ == saved_profile(config@, opt_pwd_view(password))
                    &&& final(self).config@.connections == upsert_connection(
                        old(self).config@.connections,
                        saved_profile(config@, opt_pwd_view(password)),
                    )
                    &&& final(self).config@.active_connection_ids == add_active_id(
                        old(self).config@.active_connection_ids,
                        config@.id,
                    )
                    &&& final(self).config@.version == old(self).config@.version
                    &&& final(self).connections@ == old(self).connections@
                },
                Err(e) => {
                    &&& final(self).config@ == old(self).config@
                    &&& final(self).connections@ == old(self).connections@
                    &&& password is Some
                    &&& e is DatabaseError
                },
            },
            password is None ==> r is Ok,
    {
        let config_id = config.id;
        match self.save_config(config.clone(), password) {
            Ok(()) => {
                self.add_active_connection(config_id);
                proof {
                    lemma_save_then_get(
                        old(self).config@.connections,
                        config@,
                        opt_pwd_view(password),
                    );
                }
                match self.get_config_by_id(&config_id) {
                    Some(saved) => Ok(saved),
                    None => {
                        proof {
                            assert(false);
                        }
                        Err(DBError::DatabaseError(String::from_str(
                            "saved connection not found",
                        )))
                    },
                }
            },
            Err(e) => Err(e),
        }
    }
}

/// The view of an optional password.
pub open spec fn opt_pwd_view(p: Option<String>) -> Option<Seq<char>> {
    match p {
        Some(s) => Some(s@),
        None => None,
    }
}

/// A clone of every profile in `conns`, in order.
fn clone_configs(conns: &Vec<ConnectionConfig>) -> (r: Vec<ConnectionConfig>)
    ensures
        r@.map_values(|c: ConnectionConfig| c@) == conns@.map_values(|c: ConnectionConfig| c@),
{
    let mut out: Vec<ConnectionConfig> = Vec::new();
    let n = conns.len();
    let mut i: usize = 0;
    while i < n
        invariant
            n == conns@.len(),
            0 <= i <= n,
            out@.len() == i as int,
            forall|k: int| 0 <= k < i ==> out@[k]@ == #[trigger] conns@[k]@,
        decreases n - i,
    {
        out.push(conns[i].clone());
        i = i + 1;
    }
    proof {
        assert(out@.map_values(|c: ConnectionConfig| c@) =~= conns@.map_values(
            |c: ConnectionConfig| c@,
        ));
    }
    out
}

/// The index of the first profile with this id, with nothing before it
/// matching; or `None` when no profile matches.
fn position_of(conns: &Vec<ConnectionConfig>, id: &ConnectionId) -> (r: Option<usize>)
    ensures
        match r {
            Some(i) => i < conns@.len() && conns@[i as int]@.id == id.0 && forall|k: int|
                0 <= k < i ==> (#[trigger] conns@[k]@).id != id.0,
            None => forall|k: int| 0 <= k < conns@.len() ==> (#[trigger] conns@[k]@).id != id.0,
        },
{
    let n = conns.len();
    let mut i: usize = 0;
    while i < n
        invariant
            n == conns@.len(),
            0 <= i <= n,
            forall|k: int| 0 <= k < i ==> (#[trigger] conns@[k]@).id != id.0,
        decreases n - i,
    {
        if conns[i].id == *id {
            return Some(i);
        }
        i = i + 1;
    }
    None
}

/// The index of the first registry entry with this key, with nothing before
/// it matching; or `None` when no entry matches.
fn key_position<D>(entries: &Vec<(String, D)>, key: &String) -> (r: Option<usize>)
    ensures
        match r {
            Some(i) => i < entries@.len() && driver_entries(entries@)[i as int].0 == key@
                && forall|k: int| 0 <= k < i ==> (#[trigger] driver_entries(entries@)[k]).0
                != key@,
            None => forall|k: int| 0 <= k < entries@.len() ==> (#[trigger] driver_entries(
                entries@,
            )[k]).0 != key@,
        },
{
    let n = entries.len();
    let mut i: usize = 0;
    while i < n
        invariant
            n == entries@.len(),
            0 <= i <= n,
            forall|k: int| 0 <= k < i ==> (#[trigger] driver_entries(entries@)[k]).0 != key@,
        decreases n - i,
    {
        let probe = &entries[i];
        proof {
            assert(driver_entries(entries@)[i as int].0 == entries@[i as int].0@);
        }
        if probe.0 == *key {
            return Some(i);
        }
        i = i + 1;
    }
    None
}

/// When nothing in `conns` has the id, the lookup fails.
proof fn lemma_find_none(conns: Seq<ConnectionConfigModel>, id: u128)
    requires
        forall|k: int| 0 <= k < conns.len() ==> (#[trigger] conns[k]).id != id,
    ensures
        find_connection(conns, id) is None,
    decreases conns.len(),
{
    if conns.len() > 0 {
        assert forall|k: int| 0 <= k < conns.drop_first().len() implies (#[trigger] conns.drop_first()[k]).id
            != id by {
            assert(conns.drop_first()[k] == conns[k + 1]);
        }
        lemma_find_none(conns.drop_first(), id);
    }
}

/// When the first match sits at `i`, the lookup returns it.
proof fn lemma_find_first(conns: Seq<ConnectionConfigModel>, id: u128, i: int)
    requires
        0 <= i < conns.len(),
        conns[i].id == id,
        forall|k: int| 0 <= k < i ==> (#[trigger] conns[k]).id != id,
    ensures
        find_connection(conns, id) == Some(conns[i]),
    decreases i,
{
    if i > 0 {
        assert forall|k: int| 0 <= k < i - 1 implies (#[trigger] conns.drop_first()[k]).id
            != id by {
            assert(conns.drop_first()[k] == conns[k + 1]);
        }
        assert(conns.drop_first()[i - 1] == conns[i]);
        lemma_find_first(conns.drop_first(), id, i - 1);
    }
}

/// Upserting over the first match at `i` updates in place.
proof fn lemma_upsert_at(conns: Seq<ConnectionConfigModel>, c: ConnectionConfigModel, i: int)
    requires
        0 <= i < conns.len(),
        conns[i].id == c.id,
        forall|k: int| 0 <= k < i ==> (#[trigger] conns[k]).id != c.id,
    ensures
        upsert_connection(conns, c) == conns.update(i, c),
    decreases i,
{
    if i == 0 {
        assert(upsert_connection(conns, c) =~= conns.update(0, c));
    } else {
        assert forall|k: int| 0 <= k < i - 1 implies (#[trigger] conns.drop_first()[k]).id
            != c.id by {
            assert(conns.drop_first()[k] == conns[k + 1]);
        }
        assert(conns.drop_first()[i - 1] == conns[i]);
        lemma_upsert_at(conns.drop_first(), c, i - 1);
        assert(upsert_connection(conns, c) =~= conns.update(i, c));
    }
}

/// Upserting a fresh id appends.
proof fn lemma_upsert_append(conns: Seq<ConnectionConfigModel>, c: ConnectionConfigModel)
    requires
        forall|k: int| 0 <= k < conns.len() ==> (#[trigger] conns[k]).id != c.id,
    ensures
        upsert_connection(conns, c) == conns.push(c),
    decreases conns.len(),
{
    if conns.len() == 0 {
        assert(upsert_connection(conns, c) =~= conns.push(c));
    } else {
        assert forall|k: int| 0 <= k < conns.drop_first().len() implies (#[trigger] conns.drop_first()[k]).id
            != c.id by {
            assert(conns.drop_first()[k] == conns[k + 1]);
        }
        lemma_upsert_append(conns.drop_first(), c);
        assert(upsert_connection(conns, c) =~= conns.push(c));
    }
}

/// Registry upsert over the first match at `i` updates in place.
proof fn lemma_upsert_driver_at<D>(entries: Seq<(Seq<char>, D)>, key: Seq<char>, d: D, i: int)
    requires
        0 <= i < entries.len(),
        entries[i].0 == key,
        forall|k: int| 0 <= k < i ==> (#[trigger] entries[k]).0 != key,
    ensures
        upsert_driver(entries, key, d) == entries.update(i, (key, d)),
    decreases i,
{
    if i == 0 {
        assert(upsert_driver(entries, key, d) =~= entries.update(0, (key, d)));
    } else {
        assert forall|k: int| 0 <= k < i - 1 implies (#[trigger] entries.drop_first()[k]).0
            != key by {
            assert(entries.drop_first()[k] == entries[k + 1]);
        }
        assert(entries.drop_first()[i - 1] == entries[i]);
        lemma_upsert_driver_at(entries.drop_first(), key, d, i - 1);
        assert(upsert_driver(entries, key, d) =~= entries.update(i, (key, d)));
    }
}

/// Registry upsert of a fresh key appends.
proof fn lemma_upsert_driver_append<D>(entries: Seq<(Seq<char>, D)>, key: Seq<char>, d: D)
    requires
        forall|k: int| 0 <= k < entries.len() ==> (#[trigger] entries[k]).0 != key,
    ensures
        upsert_driver(entries, key, d) == entries.push((key, d)),
    decreases entries.len(),
{
    if entries.len() == 0 {
        assert(upsert_driver(entries, key, d) =~= entries.push((key, d)));
    } else {
        assert forall|k: int| 0 <= k < entries.drop_first().len() implies (#[trigger] entries.drop_first()[k]).0
            != key by {
            assert(entries.drop_first()[k] == entries[k + 1]);
        }
        lemma_upsert_driver_append(entries.drop_first(), key, d);
        assert(upsert_driver(entries, key, d) =~= entries.push((key, d)));
    }
}

/// When the first entry with `key` sits at `i`, the lookup returns its
/// value.
proof fn lemma_lookup_driver_first<D>(entries: Seq<(Seq<char>, D)>, key: Seq<char>, i: int)
    requires
        0 <= i < entries.len(),
        entries[i].0 == key,
        forall|k: int| 0 <= k < i ==> (#[trigger] entries[k]).0 != key,
    ensures
        lookup_driver(entries, key) == Some(entries[i].1),
    decreases i,
{
    if i > 0 {
        assert forall|k: int| 0 <= k < i - 1 implies (#[trigger] entries.drop_first()[k]).0
            != key by {
            assert(entries.drop_first()[k] == entries[k + 1]);
        }
        assert(entries.drop_first()[i - 1] == entries[i]);
        lemma_lookup_driver_first(entries.drop_first(), key, i - 1);
    }
}

/// When no entry has `key`, the lookup fails.
proof fn lemma_lookup_driver_none<D>(entries: Seq<(Seq<char>, D)>, key: Seq<char>)
    requires
        forall|k: int| 0 <= k < entries.len() ==> (#[trigger] entries[k]).0 != key,
    ensures
        lookup_driver(entries, key) is None,
    decreases entries.len(),
{
    if entries.len() > 0 {
        assert forall|k: int| 0 <= k < entries.drop_first().len() implies (#[trigger] entries.drop_first()[k]).0
            != key by {
            assert(entries.drop_first()[k] == entries[k + 1]);
        }
        lemma_lookup_driver_none(entries.drop_first(), key);
    }
}

/// Looking a key up after a registry upsert finds the new handle; every
/// other key is untouched.
pub proof fn lemma_lookup_after_upsert<D>(
    entries: Seq<(Seq<char>, D)>,
    key: Seq<char>,
    d: D,
    q: Seq<char>,
)
    ensures
        lookup_driver(upsert_driver(entries, key, d), q) == if q == key {
            Some(d)
        } else {
            lookup_driver(entries, q)
        },
    decreases entries.len(),
{
    if entries.len() == 0 {
        let up = upsert_driver(entries, key, d);
        assert(up =~= seq![(key, d)]);
        assert(up[0] == (key, d));
        if q == key {
            assert(lookup_driver(up, q) == Some(d));
        } else {
            assert(up.drop_first() =~= Seq::<(Seq<char>, D)>::empty());
            assert(lookup_driver(up, q) == lookup_driver(up.drop_first(), q));
            assert(lookup_driver(up.drop_first(), q) is None);
            assert(lookup_driver(entries, q) is None);
        }
    } else if entries[0].0 == key {
        let up = upsert_driver(entries, key, d);
        assert(up =~= seq![(key, d)] + entries.drop_first());
        assert(up[0] == (key, d));
        assert(up.drop_first() =~= entries.drop_first());
        if q == key {
            assert(lookup_driver(up, q) == Some(d));
        } else {
            assert(lookup_driver(up, q) == lookup_driver(entries.drop_first(), q));
            assert(lookup_driver(entries, q) == lookup_driver(entries.drop_first(), q));
        }
    } else {
        let up = upsert_driver(entries, key, d);
        assert(up =~= seq![entries[0]] + upsert_driver(entries.drop_first(), key, d));
        assert(up[0] == entries[0]);
        assert(up.drop_first() =~= upsert_driver(entries.drop_first(), key, d));
        lemma_lookup_after_upsert(entries.drop_first(), key, d, q);
        if q == entries[0].0 {
            assert(lookup_driver(up, q) == Some(entries[0].1));
            assert(lookup_driver(entries, q) == Some(entries[0].1));
        } else {
            assert(lookup_driver(up, q) == lookup_driver(
                upsert_driver(entries.drop_first(), key, d),
                q,
            ));
            assert(lookup_driver(entries, q) == lookup_driver(entries.drop_first(), q));
        }
    }
}

/// Saving a profile and then looking its id up returns exactly the stored
/// profile: the saved fields, with the password-length hint reflecting the
/// password supplied at save time.
pub proof fn lemma_save_then_get(
    conns: Seq<ConnectionConfigModel>,
    c: ConnectionConfigModel,
    password: Option<Seq<char>>,
)
    ensures
        find_connection(upsert_connection(conns, saved_profile(c, password)), c.id) == Some(
            saved_profile(c, password),
        ),
{
    lemma_find_after_upsert(conns, saved_profile(c, password));
}

/// The id-lookup after an upsert returns the upserted profile.
proof fn lemma_find_after_upsert(conns: Seq<ConnectionConfigModel>, c: ConnectionConfigModel)
    ensures
        find_connection(upsert_connection(conns, c), c.id) == Some(c),
    decreases conns.len(),
{
    if conns.len() == 0 {
        assert(upsert_connection(conns, c)[0] == c);
    } else if conns[0].id == c.id {
        assert(upsert_connection(conns, c)[0] == c);
    } else {
        let up = upsert_connection(conns, c);
        assert(up =~= seq![conns[0]] + upsert_connection(conns.drop_first(), c));
        assert(up[0] == conns[0]);
        assert(up.drop_first() =~= upsert_connection(conns.drop_first(), c));
        lemma_find_after_upsert(conns.drop_first(), c);
    }
}

/// The recorded hint is exactly the password's byte length whenever that
/// length fits the hint field; longer passwords wrap modulo 256, as the
/// field is one byte.
pub proof fn lemma_password_len_hint_exact(p: Seq<char>)
    requires
        vstd::utf8::encode_utf8(p).len() < 256,
    ensures
        password_len_hint(p) == vstd::utf8::encode_utf8(p).len(),
{
}

/// The plaintext password never reaches the document: what `save_config`
/// stores depends on the password only through its byte length, so saving
/// with any two passwords of equal length yields identical documents.
pub proof fn lemma_password_not_persisted(
    conns: Seq<ConnectionConfigModel>,
    c: ConnectionConfigModel,
    p1: Seq<char>,
    p2: Seq<char>,
)
    requires
        vstd::utf8::encode_utf8(p1).len() == vstd::utf8::encode_utf8(p2).len(),
    ensures
        upsert_connection(conns, saved_profile(c, Some(p1))) == upsert_connection(
            conns,
            saved_profile(c, Some(p2)),
        ),
{
    assert(password_len_hint(p1) == password_len_hint(p2));
}

/// Activating an id twice is the same as activating it once, and when the
/// active list held no duplicate, it still holds none afterwards.
pub proof fn lemma_add_active_idempotent(ids: Seq<u128>, id: u128)
    ensures
        add_active_id(add_active_id(ids, id), id) == add_active_id(ids, id),
        ids.no_duplicates() ==> add_active_id(ids, id).no_duplicates(),
{
    if !ids.contains(id) {
        assert(ids.push(id)[ids.len() as int] == id);
        assert(ids.push(id).contains(id));
        if ids.no_duplicates() {
            assert forall|i: int, j: int|
                0 <= i < ids.push(id).len() && 0 <= j < ids.push(id).len() && i != j implies ids.push(
                id,
            )[i] != ids.push(id)[j] by {
                if i < ids.len() && j < ids.len() {
                } else if i == ids.len() {
                    assert(ids[j] != id) by {
                        if ids[j] == id {
                            assert(ids.contains(id));
                        }
                    }
                } else {
                    assert(ids[i] != id) by {
                        if ids[i] == id {
                            assert(ids.contains(id));
                        }
                    }
                }
            }
        }
    }
}

/// Active-profile resolution keeps the order of the active list, drops
/// dangling ids, and never yields more profiles than there are active ids:
/// the result is exactly the resolvable ids, in order, each mapped to its
/// profile.
pub proof fn lemma_active_configs_shape(doc: crate::db_config::DBConfigModel)
    ensures
        active_configs_of(doc).len() == resolvable_ids(
            doc.connections,
            doc.active_connection_ids,
        ).len(),
        active_configs_of(doc).len() <= doc.active_connection_ids.len(),
        forall|i: int| 0 <= i < active_configs_of(doc).len() ==> active_configs_of(doc)[i]
            == find_connection(
            doc.connections,
            resolvable_ids(doc.connections, doc.active_connection_ids)[i],
        ).unwrap(),
{
    broadcast use Seq::lemma_filter_len;

}

} // verus!
