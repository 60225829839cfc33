//! The persisted connection-registry document and the pure operations the
//! manager applies to it.

use vstd::prelude::*;
use vstd::string::*;
use crate::database::{ConnectionConfig, ConnectionConfigModel, ConnectionId};

verus! {

/// The persisted document: a format version, every known connection profile
/// (id-unique by construction of the operations below), and the ordered list
/// of active connection ids. Ids in `active_connection_ids` may dangle;
/// readers filter them out.
#[derive(Debug)]
pub struct DBConfig {
    pub version: String,
    pub connections: Vec<ConnectionConfig>,
    pub active_connection_ids: Vec<ConnectionId>,
}

/// Mathematical model of a [`DBConfig`] document.
#[verifier::ext_equal]
pub ghost struct DBConfigModel {
    pub version: Seq<char>,
    pub connections: Seq<ConnectionConfigModel>,
    pub active_connection_ids: Seq<u128>,
}

impl View for DBConfig {
    type V = DBConfigModel;

    open spec fn view(&self) -> DBConfigModel {
        DBConfigModel {
            version: self.version@,
            connections: self.connections@.map_values(|c: ConnectionConfig| c@),
            active_connection_ids: self.active_connection_ids@.map_values(
                |i: ConnectionId| i.0,
            ),
        }
    }
}

/// The first profile in `conns` with the given id, if any.
pub open spec fn find_connection(conns: Seq<ConnectionConfigModel>, id: u128) -> Option<
    ConnectionConfigModel,
>
    decreases conns.len(),
{
    if conns.len() == 0 {
        None
    } else if conns[0].id == id {
        Some(conns[0])
    } else {
        find_connection(conns.drop_first(), id)
    }
}

/// Upsert by id: replaces the first profile with `c`'s id, or appends `c`
/// if no profile has it.
pub open spec fn upsert_connection(
    conns: Seq<ConnectionConfigModel>,
    c: ConnectionConfigModel,
) -> Seq<ConnectionConfigModel>
    decreases conns.len(),
{
    if conns.len() == 0 {
        seq![c]
    } else if conns[0].id == c.id {
        seq![c] + conns.drop_first()
    } else {
        seq![conns[0]] + upsert_connection(conns.drop_first(), c)
    }
}

/// Set-like append: `ids` unchanged when `id` is already present.
pub open spec fn add_active_id(ids: Seq<u128>, id: u128) -> Seq<u128> {
    if ids.contains(id) {
        ids
    } else {
        ids.push(id)
    }
}

/// Every occurrence of `id` removed, order otherwise kept.
pub open spec fn remove_active_id(ids: Seq<u128>, id: u128) -> Seq<u128> {
    ids.filter(|x: u128| x != id)
}

/// Is `id` resolvable against `conns`?
pub open spec fn resolvable(conns: Seq<ConnectionConfigModel>, id: u128) -> bool {
    find_connection(conns, id) is Some
}

/// The ids of `ids` that resolve against `conns`, in order.
pub open spec fn resolvable_ids(conns: Seq<ConnectionConfigModel>, ids: Seq<u128>) -> Seq<
    u128,
> {
    ids.filter(|id: u128| resolvable(conns, id))
}

/// The profiles that `ids` resolve to against `conns`, in the order of
/// `ids`, with unresolvable ids silently dropped.
pub open spec fn resolve_ids(conns: Seq<ConnectionConfigModel>, ids: Seq<u128>) -> Seq<
    ConnectionConfigModel,
> {
    resolvable_ids(conns, ids).map_values(|id: u128| find_connection(conns, id).unwrap())
}

/// The profiles of the active ids, in the order of `active_connection_ids`,
/// with dangling ids silently dropped.
pub open spec fn active_configs_of(doc: DBConfigModel) -> Seq<ConnectionConfigModel> {
    resolve_ids(doc.connections, doc.active_connection_ids)
}

/// How resolution grows when one id is appended: a resolvable id appends
/// its profile, a dangling id changes nothing.
pub proof fn lemma_resolve_ids_push(
    conns: Seq<ConnectionConfigModel>,
    ids: Seq<u128>,
    id: u128,
)
    ensures
        resolvable(conns, id) ==> resolve_ids(conns, ids.push(id)) == resolve_ids(
            conns,
            ids,
        ).push(find_connection(conns, id).unwrap()),
        !resolvable(conns, id) ==> resolve_ids(conns, ids.push(id)) == resolve_ids(conns, ids),
{
    reveal(Seq::filter);
    assert(ids.push(id).drop_last() =~= ids);
    assert(ids.push(id).last() == id);
    let filt = resolvable_ids(conns, ids);
    if resolvable(conns, id) {
        assert(resolvable_ids(conns, ids.push(id)) =~= filt.push(id));
        assert(resolve_ids(conns, ids.push(id)) =~= resolve_ids(conns, ids).push(
            find_connection(conns, id).unwrap(),
        ));
    } else {
        assert(resolvable_ids(conns, ids.push(id)) =~= filt);
        assert(resolve_ids(conns, ids.push(id)) =~= resolve_ids(conns, ids));
    }
}

impl DBConfig {
    /// The empty document: version "1.0", no profiles, no active ids.
    pub fn new() -> (r: DBConfig)
        ensures
            r@.version == "1.0"@,
            r@.connections == Seq::<ConnectionConfigModel>::empty(),
            r@.active_connection_ids == Seq::<u128>::empty(),
    {
        let r = DBConfig {
            version: String::from_str("1.0"),
            connections: Vec::new(),
            active_connection_ids: Vec::new(),
        };
        proof {
            assert(r@.connections =~= Seq::<ConnectionConfigModel>::empty());
            assert(r@.active_connection_ids =~= Seq::<u128>::empty());
        }
        r
    }
}

impl Clone for DBConfig {
    /// An exact copy of the document.
    fn clone(&self) -> (r: DBConfig)
        ensures
            r@ == self@,
    {
        let mut connections: Vec<ConnectionConfig> = Vec::new();
        let n = self.connections.len();
        let mut i: usize = 0;
        while i < n
            invariant
                n == self.connections@.len(),
                0 <= i <= n,
                connections@.len() == i as int,
                forall|k: int| 0 <= k < i ==> connections@[k]@ == #[trigger] self.connections@[k]@,
            decreases n - i,
        {
            connections.push(self.connections[i].clone());
            i = i + 1;
        }
        let mut active_connection_ids: Vec<ConnectionId> = Vec::new();
        let m = self.active_connection_ids.len();
        let mut j: usize = 0;
        while j < m
            invariant
                m == self.active_connection_ids@.len(),
                0 <= j <= m,
                active_connection_ids@ == self.active_connection_ids@.take(j as int),
            decreases m - j,
        {
            active_connection_ids.push(self.active_connection_ids[j]);
            proof {
                assert(active_connection_ids@ =~= self.active_connection_ids@.take(j + 1));
            }
            j = j + 1;
        }
        proof {
            assert(active_connection_ids@ =~= self.active_connection_ids@);
        }
        let r = DBConfig {
            version: self.version.clone(),
            connections,
            active_connection_ids,
        };
        proof {
            assert(r@.connections =~= self@.connections);
            assert(r@.active_connection_ids =~= self@.active_connection_ids);
        }
        r
    }
}

} // verus!
