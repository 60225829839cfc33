use vstd::prelude::*;

verus! {

/// A database-level namespace, as enumerated by a driver.
#[derive(Debug)]
pub struct DBSchema {
    pub name: String,
}

impl Clone for DBSchema {
    /// An exact copy of the namespace name.
    fn clone(&self) -> (r: DBSchema)
        ensures
            r.name@ == self.name@,
    {
        DBSchema { name: self.name.clone() }
    }
}

} // verus!
