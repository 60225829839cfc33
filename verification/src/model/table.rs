use vstd::prelude::*;

verus! {

/// One row of a schema-level table listing; ephemeral, never persisted.
#[derive(Debug)]
pub struct TableInfo {
    pub name: String,
    pub table_type: String,
}

impl Clone for TableInfo {
    /// An exact copy of the listing row.
    fn clone(&self) -> (r: TableInfo)
        ensures
            r.name@ == self.name@,
            r.table_type@ == self.table_type@,
    {
        TableInfo { name: self.name.clone(), table_type: self.table_type.clone() }
    }
}

/// One column of a table, in declaration order, as the backend reports it.
#[derive(Debug)]
pub struct TableColumn {
    pub name: String,
    pub data_type: String,
    pub nullable: bool,
    pub default: Option<String>,
}

impl Clone for TableColumn {
    /// An exact copy of the column description.
    fn clone(&self) -> (r: TableColumn)
        ensures
            r.name@ == self.name@,
            r.data_type@ == self.data_type@,
            r.nullable == self.nullable,
            match (r.default, self.default) {
                (Some(a), Some(b)) => a@ == b@,
                (None, None) => true,
                _ => false,
            },
    {
        TableColumn {
            name: self.name.clone(),
            data_type: self.data_type.clone(),
            nullable: self.nullable,
            default: match &self.default {
                Some(d) => Some(d.clone()),
                None => None,
            },
        }
    }
}

/// A bounded window of pre-stringified rows plus the table's total row count.
///
/// `total` reflects the unfiltered cardinality of the table at query time and
/// is independent of the requested window.
#[derive(Debug)]
pub struct TableDataPage {
    pub columns: Vec<String>,
    pub rows: Vec<Vec<String>>,
    pub total: u64,
}

impl Clone for TableDataPage {
    /// An exact copy of the page.
    fn clone(&self) -> (r: TableDataPage)
        ensures
            r.columns@ == self.columns@,
            r.rows@.len() == self.rows@.len(),
            forall|i: int| 0 <= i < r.rows@.len() ==> r.rows@[i]@ == #[trigger] self.rows@[i]@,
            r.total == self.total,
    {
        let mut columns: Vec<String> = Vec::new();
        let n = self.columns.len();
        let mut i: usize = 0;
        while i < n
            invariant
                n == self.columns@.len(),
                0 <= i <= n,
                columns@ == self.columns@.take(i as int),
            decreases n - i,
        {
            columns.push(self.columns[i].clone());
            proof {
                assert(columns@ =~= self.columns@.take(i + 1));
            }
            i = i + 1;
        }
        proof {
            assert(columns@ =~= self.columns@);
        }
        let mut rows: Vec<Vec<String>> = Vec::new();
        let m = self.rows.len();
        let mut j: usize = 0;
        while j < m
            invariant
                m == self.rows@.len(),
                0 <= j <= m,
                rows@.len() == j as int,
                forall|k: int| 0 <= k < j ==> rows@[k]@ == #[trigger] self.rows@[k]@,
            decreases m - j,
        {
            let src_row = &self.rows[j];
            let mut row: Vec<String> = Vec::new();
            let w = src_row.len();
            let mut k: usize = 0;
            while k < w
                invariant
                    w == src_row@.len(),
                    0 <= k <= w,
                    row@ == src_row@.take(k as int),
                decreases w - k,
            {
                row.push(src_row[k].clone());
                proof {
                    assert(row@ =~= src_row@.take(k + 1));
                }
                k = k + 1;
            }
            proof {
                assert(row@ =~= src_row@);
            }
            rows.push(row);
            j = j + 1;
        }
        TableDataPage { columns, rows, total: self.total }
    }
}

impl TableDataPage {
    /// The page of a table with no columns: nothing to show, total zero,
    /// produced without ever issuing a row query.
    pub fn empty() -> (r: TableDataPage)
        ensures
            r.columns@.len() == 0,
            r.rows@.len() == 0,
            r.total == 0,
    {
        TableDataPage { columns: Vec::new(), rows: Vec::new(), total: 0 }
    }

    /// A page assembled from the decoded parts: exactly the rows that were
    /// decoded, under exactly these column names, with the independently
    /// counted total.
    pub fn from_parts(columns: Vec<String>, rows: Vec<Vec<String>>, total: u64) -> (r:
        TableDataPage)
        ensures
            r.columns@ == columns@,
            r.rows@ == rows@,
            r.total == total,
    {
        TableDataPage { columns, rows, total }
    }
}

} // verus!
