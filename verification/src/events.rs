//! Events the UI layer subscribes to. Plain data; the event plumbing itself
//! lives outside the library.

use vstd::prelude::*;
use crate::database::{ConnectionConfig, ConnectionId};

verus! {

/// Emitted when the active-connections list changes.
#[derive(Debug)]
pub struct ActiveConnectionsChanged {
    pub active_configs: Vec<ConnectionConfig>,
}

impl Clone for ActiveConnectionsChanged {
    /// An exact copy of the event payload.
    fn clone(&self) -> (r: ActiveConnectionsChanged)
        ensures
            r.active_configs@.len() == self.active_configs@.len(),
            forall|i: int| 0 <= i < r.active_configs@.len() ==> r.active_configs@[i]@
                == #[trigger] self.active_configs@[i]@,
    {
        let mut active_configs: Vec<ConnectionConfig> = Vec::new();
        let n = self.active_configs.len();
        let mut i: usize = 0;
        while i < n
            invariant
                n == self.active_configs@.len(),
                0 <= i <= n,
                active_configs@.len() == i as int,
                forall|k: int| 0 <= k < i ==> active_configs@[k]@
                    == #[trigger] self.active_configs@[k]@,
            decreases n - i,
        {
            active_configs.push(self.active_configs[i].clone());
            i = i + 1;
        }
        ActiveConnectionsChanged { active_configs }
    }
}

/// Emitted when the selected connection changes.
#[derive(Debug, Clone, Copy, PartialEq, Eq, Structural)]
pub struct SelectedConnectionChanged {
    pub id: Option<ConnectionId>,
}

/// Emitted when the selected table changes.
#[derive(Debug, PartialEq, Eq)]
pub struct SelectedTableChanged {
    pub table_name: String,
}

impl Clone for SelectedTableChanged {
    /// An exact copy of the event payload.
    fn clone(&self) -> (r: SelectedTableChanged)
        ensures
            r.table_name@ == self.table_name@,
    {
        SelectedTableChanged { table_name: self.table_name.clone() }
    }
}

} // verus!
