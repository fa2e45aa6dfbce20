//! Rows handed to the column-statistics store: the mode of a column and its
//! most frequent values, keyed by a description identifier.
use vstd::prelude::*;

verus! {

/// The row carrying a column's computed mode.
pub struct DescriptionRow {
    pub description_id: i32,
    pub mode: Vec<u8>,
}

/// One row of the most frequent values: the value (absent where the element
/// was not binary) and how often it occurred.
pub struct TopNRow {
    pub description_id: i32,
    pub value: Option<Vec<u8>>,
    pub count: i64,
}

/// Builds the bulk-insert rows for one completed statistics computation: a
/// description row with the mode, and one row per frequent value. A count
/// beyond the signed 64-bit range is a programming error and is excluded.
pub fn top_n_rows(description_id: i32, mode: Vec<u8>, top_n: Vec<(Option<Vec<u8>>, u64)>) -> (r: (
    DescriptionRow,
    Vec<TopNRow>,
))
    requires
        forall|i: int| 0 <= i < top_n@.len() ==> (#[trigger] top_n@[i]).1 <= i64::MAX as u64,
    ensures
        r.0.description_id == description_id,
        r.0.mode@ == mode@,
        r.1@.len() == top_n@.len(),
        forall|i: int|
            0 <= i < top_n@.len() ==> {
                let row = #[trigger] r.1@[i];
                &&& row.description_id == description_id
                &&& row.count == top_n@[i].1
                &&& (match (row.value, top_n@[i].0) {
                    (Some(v), Some(w)) => v@ == w@,
                    (None, None) => true,
                    _ => false,
                })
            },
{
    let mut rows: Vec<TopNRow> = Vec::new();
    let mut i: usize = 0;
    while i < top_n.len()
        invariant
            0 <= i <= top_n@.len(),
            forall|j: int| 0 <= j < top_n@.len() ==> (#[trigger] top_n@[j]).1 <= i64::MAX as u64,
            rows@.len() == i,
            forall|j: int|
                0 <= j < i ==> {
                    let row = #[trigger] rows@[j];
                    &&& row.description_id == description_id
                    &&& row.count == top_n@[j].1
                    &&& (match (row.value, top_n@[j].0) {
                        (Some(v), Some(w)) => v@ == w@,
                        (None, None) => true,
                        _ => false,
                    })
                },
        decreases top_n.len() - i,
    {
        let value = match &top_n[i].0 {
            Some(v) => Some(crate::order::copy_bytes(v)),
            None => None,
        };
        let count = top_n[i].1 as i64;
        rows.push(TopNRow { description_id, value, count });
        i = i + 1;
    }
    (DescriptionRow { description_id, mode }, rows)
}

} // verus!
