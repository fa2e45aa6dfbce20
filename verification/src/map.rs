//! The generic engine: serialized records under numeric identifiers, with an
//! ordered region for iteration, identifier reuse, and deactivation.
use vstd::prelude::*;

verus! {

use crate::Error;
use crate::order::{lex_lt, bytes_lt, bytes_eq, copy_bytes, lemma_lex_trichotomy, lemma_lex_trans};
use crate::record::Indexable;

/// One stored record: sort key, payload, and the identifier holding it.
pub struct Record {
    pub id: u32,
    pub key: Vec<u8>,
    pub value: Vec<u8>,
}

/// The mathematical value of a stored record.
pub struct RecModel {
    pub id: u32,
    pub key: Seq<u8>,
    pub value: Seq<u8>,
}

impl View for Record {
    type V = RecModel;

    open spec fn view(&self) -> RecModel {
        RecModel { id: self.id, key: self.key@, value: self.value@ }
    }
}

/// The mathematical state of the engine: live records in key order, retired
/// records whose identifiers stay unassignable, and the allocation counter.
pub struct MapModel {
    pub recs: Seq<RecModel>,
    pub retired: Seq<RecModel>,
    pub counter: u32,
}

/// Live records sorted strictly by key.
pub open spec fn sorted(recs: Seq<RecModel>) -> bool {
    forall|i: int, j: int| 0 <= i < j < recs.len() ==> lex_lt(recs[i].key, recs[j].key)
}

/// Some live record holds the key.
pub open spec fn has_key(recs: Seq<RecModel>, k: Seq<u8>) -> bool {
    exists|i: int| 0 <= i < recs.len() && recs[i].key == k
}

/// The identifier is held by a live or a retired record.
pub open spec fn id_used(m: MapModel, id: u32) -> bool {
    (exists|i: int| 0 <= i < m.recs.len() && m.recs[i].id == id) || (exists|i: int|
        0 <= i < m.retired.len() && m.retired[i].id == id)
}

/// Well-formed engine state: keys strictly sorted, identifiers unique over
/// live and retired records and all below the counter.
pub open spec fn map_wf(m: MapModel) -> bool {
    &&& sorted(m.recs)
    &&& forall|i: int, j: int|
        0 <= i < m.recs.len() && 0 <= j < m.recs.len() && i != j ==> m.recs[i].id != m.recs[j].id
    &&& forall|i: int, j: int|
        0 <= i < m.recs.len() && 0 <= j < m.retired.len() ==> m.recs[i].id != m.retired[j].id
    &&& forall|i: int, j: int|
        0 <= i < m.retired.len() && 0 <= j < m.retired.len() && i != j ==> m.retired[i].id
            != m.retired[j].id
    &&& forall|i: int| 0 <= i < m.recs.len() ==> m.recs[i].id < m.counter
    &&& forall|i: int| 0 <= i < m.retired.len() ==> m.retired[i].id < m.counter
}

/// Index of the first live record whose key is not below `k`.
pub open spec fn cut(recs: Seq<RecModel>, k: Seq<u8>) -> int
    decreases recs.len(),
{
    if recs.len() == 0 {
        0
    } else if lex_lt(recs[0].key, k) {
        1 + cut(recs.drop_first(), k)
    } else {
        0
    }
}

/// Index of the first live record whose key is above `k`.
pub open spec fn cut_gt(recs: Seq<RecModel>, k: Seq<u8>) -> int
    decreases recs.len(),
{
    if recs.len() == 0 {
        0
    } else if !lex_lt(k, recs[0].key) {
        1 + cut_gt(recs.drop_first(), k)
    } else {
        0
    }
}

/// `cut` always lands inside the sequence bounds.
pub proof fn lemma_cut_bounds(recs: Seq<RecModel>, k: Seq<u8>)
    ensures
        0 <= cut(recs, k) <= recs.len(),
    decreases recs.len(),
{
    if recs.len() > 0 && lex_lt(recs[0].key, k) {
        lemma_cut_bounds(recs.drop_first(), k);
    }
}

/// `cut` splits a sorted sequence into keys below `k` and keys not below it.
pub proof fn lemma_cut(recs: Seq<RecModel>, k: Seq<u8>)
    requires
        sorted(recs),
    ensures
        0 <= cut(recs, k) <= recs.len(),
        forall|i: int| 0 <= i < cut(recs, k) ==> lex_lt(recs[i].key, k),
        forall|i: int| cut(recs, k) <= i < recs.len() ==> !lex_lt(recs[i].key, k),
    decreases recs.len(),
{
    if recs.len() > 0 {
        assert(forall|i: int, j: int|
            0 <= i < j < recs.drop_first().len() ==> lex_lt(
                recs.drop_first()[i].key,
                recs.drop_first()[j].key,
            ));
        lemma_cut(recs.drop_first(), k);
        if lex_lt(recs[0].key, k) {
            assert forall|i: int| 1 <= i < cut(recs, k) implies lex_lt(
                #[trigger] recs[i].key,
                k,
            ) by {
                assert(recs[i] == recs.drop_first()[i - 1]);
            }
            assert forall|i: int| cut(recs, k) <= i < recs.len() implies !lex_lt(
                #[trigger] recs[i].key,
                k,
            ) by {
                assert(recs[i] == recs.drop_first()[i - 1]);
            }
        } else {
            assert forall|i: int| 0 <= i < recs.len() implies !lex_lt(#[trigger] recs[i].key, k) by {
                lemma_lex_trichotomy(recs[0].key, k);
                if i > 0 {
                    if lex_lt(recs[i].key, k) {
                        lemma_lex_trans(recs[0].key, recs[i].key, k);
                    }
                }
            }
        }
    }
}

/// `cut_gt` splits a sorted sequence into keys not above `k` and keys above it.
pub proof fn lemma_cut_gt(recs: Seq<RecModel>, k: Seq<u8>)
    requires
        sorted(recs),
    ensures
        0 <= cut_gt(recs, k) <= recs.len(),
        forall|i: int| 0 <= i < cut_gt(recs, k) ==> !lex_lt(k, recs[i].key),
        forall|i: int| cut_gt(recs, k) <= i < recs.len() ==> lex_lt(k, recs[i].key),
    decreases recs.len(),
{
    if recs.len() > 0 {
        assert(forall|i: int, j: int|
            0 <= i < j < recs.drop_first().len() ==> lex_lt(
                recs.drop_first()[i].key,
                recs.drop_first()[j].key,
            ));
        lemma_cut_gt(recs.drop_first(), k);
        if !lex_lt(k, recs[0].key) {
            assert forall|i: int| 1 <= i < cut_gt(recs, k) implies !lex_lt(
                k,
                #[trigger] recs[i].key,
            ) by {
                assert(recs[i] == recs.drop_first()[i - 1]);
            }
            assert forall|i: int| cut_gt(recs, k) <= i < recs.len() implies lex_lt(
                k,
                #[trigger] recs[i].key,
            ) by {
                assert(recs[i] == recs.drop_first()[i - 1]);
            }
        } else {
            assert forall|i: int| 0 <= i < recs.len() implies lex_lt(k, #[trigger] recs[i].key) by {
                if i > 0 {
                    lemma_lex_trans(k, recs[0].key, recs[i].key);
                }
            }
        }
    }
}

/// Index of the live record holding `id`, or a negative value if none does.
pub open spec fn find_id(recs: Seq<RecModel>, id: u32) -> int
    decreases recs.len(),
{
    if recs.len() == 0 {
        -1
    } else if recs[0].id == id {
        0
    } else {
        let t = find_id(recs.drop_first(), id);
        if t < 0 {
            -1
        } else {
            t + 1
        }
    }
}

/// `find_id` locates the live record holding `id` exactly when one exists.
pub proof fn lemma_find_id(recs: Seq<RecModel>, id: u32)
    ensures
        find_id(recs, id) >= 0 ==> find_id(recs, id) < recs.len() && recs[find_id(recs, id)].id
            == id,
        find_id(recs, id) < 0 ==> forall|i: int| 0 <= i < recs.len() ==> recs[i].id != id,
    decreases recs.len(),
{
    if recs.len() > 0 && recs[0].id != id {
        lemma_find_id(recs.drop_first(), id);
        let t = find_id(recs.drop_first(), id);
        if t >= 0 {
            assert(recs[t + 1] == recs.drop_first()[t]);
        } else {
            assert forall|i: int| 0 <= i < recs.len() implies recs[i].id != id by {
                if i > 0 {
                    assert(recs[i] == recs.drop_first()[i - 1]);
                }
            }
        }
    }
}

/// The smallest unused identifier at or above `i`; the sentinel when all are used.
pub open spec fn min_free_from(m: MapModel, i: u32) -> u32
    decreases u32::MAX - i,
{
    if i == u32::MAX {
        u32::MAX
    } else if !id_used(m, i) {
        i
    } else {
        min_free_from(m, (i + 1) as u32)
    }
}

/// The identifier the next insertion allocates: the smallest unused one.
pub open spec fn spec_alloc(m: MapModel) -> u32 {
    min_free_from(m, 0)
}

/// Every identifier below the allocated one is in use, and the allocated one
/// is free unless allocation is exhausted.
pub proof fn lemma_min_free_from(m: MapModel, i: u32)
    ensures
        i <= min_free_from(m, i),
        forall|j: u32| i <= j < min_free_from(m, i) ==> id_used(m, j),
        min_free_from(m, i) < u32::MAX ==> !id_used(m, min_free_from(m, i)),
    decreases u32::MAX - i,
{
    if i == u32::MAX {
    } else if !id_used(m, i) {
    } else {
        lemma_min_free_from(m, (i + 1) as u32);
    }
}

/// A pure sorted insertion of a fresh record.
pub open spec fn spec_insert_at(m: MapModel, id: u32, ik: Seq<u8>, v: Seq<u8>) -> MapModel {
    MapModel {
        recs: m.recs.insert(cut(m.recs, ik), RecModel { id, key: ik, value: v }),
        retired: m.retired,
        counter: if id >= m.counter {
            (id + 1) as u32
        } else {
            m.counter
        },
    }
}

/// The engine: an ordered in-memory region of live records, the retired
/// records, and the identifier counter.
pub struct IndexedMap {
    records: Vec<Record>,
    retired: Vec<Record>,
    counter: u32,
}

impl View for IndexedMap {
    type V = MapModel;

    closed spec fn view(&self) -> MapModel {
        MapModel {
            recs: self.records@.map_values(|r: Record| r@),
            retired: self.retired@.map_values(|r: Record| r@),
            counter: self.counter,
        }
    }
}

impl IndexedMap {
    /// Well-formed engine state.
    pub open spec fn wf(&self) -> bool {
        map_wf(self@)
    }

    /// Creates an empty engine.
    pub fn new() -> (r: IndexedMap)
        ensures
            r.wf(),
            r@.recs.len() == 0,
            r@.retired.len() == 0,
            r@.counter == 0,
    {
        let r = IndexedMap { records: Vec::new(), retired: Vec::new(), counter: 0 };
        proof {
            assert(r@.recs =~= Seq::<RecModel>::empty());
            assert(r@.retired =~= Seq::<RecModel>::empty());
        }
        r
    }

    /// The number of live records.
    pub fn count(&self) -> (r: usize)
        ensures
            r == self@.recs.len(),
    {
        self.records.len()
    }

    /// Whether `id` is held by a live or retired record.
    fn contains_id(&self, id: u32) -> (r: bool)
        ensures
            r == id_used(self@, id),
    {
        let mut i: usize = 0;
        while i < self.records.len()
            invariant
                0 <= i <= self.records.len(),
                forall|j: int| 0 <= j < i ==> self@.recs[j].id != id,
            decreases self.records.len() - i,
        {
            if self.records[i].id == id {
                proof {
                    assert(self@.recs[i as int].id == id);
                }
                return true;
            }
            i = i + 1;
        }
        let mut j: usize = 0;
        while j < self.retired.len()
            invariant
                0 <= j <= self.retired.len(),
                forall|i: int| 0 <= i < self.records.len() ==> self@.recs[i].id != id,
                forall|i: int| 0 <= i < j ==> self@.retired[i].id != id,
            decreases self.retired.len() - j,
        {
            if self.retired[j].id == id {
                proof {
                    assert(self@.retired[j as int].id == id);
                }
                return true;
            }
            j = j + 1;
        }
        false
    }

    /// Position of the live record holding `id`.
    fn find_pos(&self, id: u32) -> (r: Option<usize>)
        ensures
            match r {
                Some(i) => find_id(self@.recs, id) == i && i < self@.recs.len() && self@.recs[
                    i as int
                ].id == id,
                None => find_id(self@.recs, id) < 0,
            },
    {
        let mut i: usize = 0;
        while i < self.records.len()
            invariant
                0 <= i <= self.records.len(),
                forall|j: int| 0 <= j < i ==> self@.recs[j].id != id,
            decreases self.records.len() - i,
        {
            if self.records[i].id == id {
                proof {
                    assert(self@.recs[i as int].id == id);
                    lemma_find_id_prefix(self@.recs, id, i as int);
                }
                return Some(i);
            }
            i = i + 1;
        }
        proof {
            lemma_find_id(self@.recs, id);
        }
        None
    }

    /// Whether some live record holds the key.
    fn contains_key(&self, k: &Vec<u8>) -> (r: bool)
        ensures
            r == has_key(self@.recs, k@),
    {
        let mut i: usize = 0;
        while i < self.records.len()
            invariant
                0 <= i <= self.records.len(),
                forall|j: int| 0 <= j < i ==> self@.recs[j].key != k@,
            decreases self.records.len() - i,
        {
            if bytes_eq(&self.records[i].key, k) {
                proof {
                    assert(self@.recs[i as int].key == k@);
                }
                return true;
            }
            i = i + 1;
        }
        false
    }

    /// Exact lookup: the payload stored under `id`, if a live record holds it.
    pub fn get_by_id(&self, id: u32) -> (r: Option<Vec<u8>>)
        ensures
            match r {
                Some(v) => {
                    let i = find_id(self@.recs, id);
                    i >= 0 && v@ == self@.recs[i].value
                },
                None => forall|i: int| 0 <= i < self@.recs.len() ==> self@.recs[i].id != id,
            },
    {
        match self.find_pos(id) {
            Some(i) => {
                let v = copy_bytes(&self.records[i].value);
                proof {
                    assert(self@.recs[i as int].value == self.records@[i as int].value@);
                }
                Some(v)
            },
            None => {
                proof {
                    lemma_find_id(self@.recs, id);
                }
                None
            },
        }
    }

    /// Deletes the record under `id`, freeing the identifier for reuse.
    pub fn remove(&mut self, id: u32) -> (r: Result<(), Error>)
        requires
            old(self).wf(),
        ensures
            final(self).wf(),
            match r {
                Ok(()) => {
                    let i = find_id(old(self)@.recs, id);
                    i >= 0 && final(self)@.recs == old(self)@.recs.remove(i) && final(self)@.retired == old(self)@.retired && final(self)@.counter == old(self)@.counter
                },
                Err(e) => final(self)@ == old(self)@ && e == Error::NotFound && (forall|i: int|
                    0 <= i < old(self)@.recs.len() ==> old(self)@.recs[i].id != id),
            },
    {
        match self.find_pos(id) {
            Some(i) => {
                self.records.remove(i);
                proof {
                    assert(self@.recs =~= old(self)@.recs.remove(i as int));
                    lemma_remove_keeps_wf(old(self)@, i as int);
                }
                Ok(())
            },
            None => {
                proof {
                    lemma_find_id(old(self)@.recs, id);
                }
                Err(Error::NotFound)
            },
        }
    }

    /// Retires the record under `id`: its data is kept aside and the
    /// identifier is never assignable again.
    pub fn deactivate(&mut self, id: u32) -> (r: Result<(), Error>)
        requires
            old(self).wf(),
        ensures
            final(self).wf(),
            match r {
                Ok(()) => {
                    let i = find_id(old(self)@.recs, id);
                    i >= 0 && final(self)@.recs == old(self)@.recs.remove(i) && final(self)@.retired == old(self)@.retired.push(old(self)@.recs[i]) && final(self)@.counter == old(self)@.counter
                },
                Err(e) => final(self)@ == old(self)@ && e == Error::NotFound && (forall|i: int|
                    0 <= i < old(self)@.recs.len() ==> old(self)@.recs[i].id != id),
            },
    {
        match self.find_pos(id) {
            Some(i) => {
                let rec = self.records.remove(i);
                self.retired.push(rec);
                proof {
                    assert(self@.recs =~= old(self)@.recs.remove(i as int));
                    assert(self@.retired =~= old(self)@.retired.push(old(self)@.recs[i as int]));
                    lemma_deactivate_keeps_wf(old(self)@, i as int);
                }
                Ok(())
            },
            None => {
                proof {
                    lemma_find_id(old(self)@.recs, id);
                }
                Err(Error::NotFound)
            },
        }
    }
}

/// Finding by identifier returns the first position holding it.
proof fn lemma_find_id_prefix(recs: Seq<RecModel>, id: u32, i: int)
    requires
        0 <= i < recs.len(),
        recs[i].id == id,
        forall|j: int| 0 <= j < i ==> recs[j].id != id,
    ensures
        find_id(recs, id) == i,
    decreases i,
{
    if i > 0 {
        assert(forall|j: int| 0 <= j < i - 1 ==> recs.drop_first()[j].id != id);
        assert(recs.drop_first()[i - 1].id == id);
        lemma_find_id_prefix(recs.drop_first(), id, i - 1);
    }
}

/// Deleting a live record keeps the state well formed.
pub proof fn lemma_remove_keeps_wf(m: MapModel, i: int)
    requires
        map_wf(m),
        0 <= i < m.recs.len(),
    ensures
        map_wf(MapModel { recs: m.recs.remove(i), retired: m.retired, counter: m.counter }),
{
    let r = m.recs.remove(i);
    assert forall|p: int| 0 <= p < r.len() implies r[p] == m.recs[skip_over(p, i)] && 0
        <= skip_over(p, i) < m.recs.len() && skip_over(p, i) != i by {
    }
    assert forall|p: int, q: int| 0 <= p < q < r.len() implies lex_lt(r[p].key, r[q].key) by {
        assert(r[p] == m.recs[skip_over(p, i)]);
        assert(r[q] == m.recs[skip_over(q, i)]);
    }
    assert forall|p: int, q: int|
        0 <= p < r.len() && 0 <= q < r.len() && p != q implies r[p].id != r[q].id by {
        assert(r[p] == m.recs[skip_over(p, i)]);
        assert(r[q] == m.recs[skip_over(q, i)]);
    }
}

/// The original position of element `p` of a sequence with position `i` removed.
pub open spec fn skip_over(p: int, i: int) -> int {
    if p < i {
        p
    } else {
        p + 1
    }
}

/// Retiring a live record keeps the state well formed.
pub proof fn lemma_deactivate_keeps_wf(m: MapModel, i: int)
    requires
        map_wf(m),
        0 <= i < m.recs.len(),
    ensures
        map_wf(
            MapModel {
                recs: m.recs.remove(i),
                retired: m.retired.push(m.recs[i]),
                counter: m.counter,
            },
        ),
{
    lemma_remove_keeps_wf(m, i);
    let r = m.recs.remove(i);
    let t = m.retired.push(m.recs[i]);
    assert forall|p: int, q: int|
        0 <= p < r.len() && 0 <= q < t.len() implies r[p].id != t[q].id by {
        assert(r[p] == m.recs[skip_over(p, i)]);
        if q < m.retired.len() {
            assert(t[q] == m.retired[q]);
        } else {
            assert(t[q] == m.recs[i]);
        }
    }
    assert forall|p: int, q: int|
        0 <= p < t.len() && 0 <= q < t.len() && p != q implies t[p].id != t[q].id by {
        if p < m.retired.len() && q < m.retired.len() {
        } else if p < m.retired.len() {
            assert(t[q] == m.recs[i]);
        } else {
            assert(t[p] == m.recs[i]);
        }
    }
}

/// What an insertion does: exhaustion and key conflict leave the state
/// unchanged; otherwise the record enters under the smallest unused
/// identifier at its sorted position.
pub open spec fn insert_ensures<T: Indexable>(
    m0: MapModel,
    entity: T,
    m1: MapModel,
    r: Result<u32, Error>,
) -> bool {
    let id = spec_alloc(m0);
    if id == u32::MAX {
        m1 == m0 && r == Err::<u32, Error>(Error::IdExhausted)
    } else {
        let e2 = entity.spec_with_index(id);
        let ik = T::spec_indexed_key(e2.spec_key(), id);
        if has_key(m0.recs, ik) {
            m1 == m0 && r == Err::<u32, Error>(Error::KeyExists)
        } else {
            m1 == spec_insert_at(m0, id, ik, e2.spec_value()) && r == Ok::<u32, Error>(id)
        }
    }
}

/// What an update does: a compare-and-swap on the record under `id`, moving
/// it to the sorted position of its new key.
pub open spec fn update_ensures(
    m0: MapModel,
    id: u32,
    oldv: Seq<u8>,
    ik: Seq<u8>,
    v: Seq<u8>,
    m1: MapModel,
    r: Result<(), Error>,
) -> bool {
    let i = find_id(m0.recs, id);
    if i < 0 {
        m1 == m0 && r == Err::<(), Error>(Error::NotFound)
    } else if m0.recs[i].value != oldv {
        m1 == m0 && r == Err::<(), Error>(Error::ValueMismatch)
    } else if ik != m0.recs[i].key && has_key(m0.recs, ik) {
        m1 == m0 && r == Err::<(), Error>(Error::KeyExists)
    } else {
        m1 == spec_insert_at(
            MapModel { recs: m0.recs.remove(i), retired: m0.retired, counter: m0.counter },
            id,
            ik,
            v,
        ) && r == Ok::<(), Error>(())
    }
}

/// Where an ordered traversal starts and what it yields.
pub enum IterMode {
    /// Every record, ascending.
    Start,
    /// Every record, descending.
    End,
    /// Records whose key is at or after the bound, ascending.
    ForwardFrom(Vec<u8>),
    /// Records whose key is at or before the bound, descending.
    ReverseFrom(Vec<u8>),
}

/// The records a traversal yields, in the order it yields them.
pub open spec fn spec_iter(m: MapModel, mode: IterMode) -> Seq<RecModel> {
    match mode {
        IterMode::Start => m.recs,
        IterMode::End => m.recs.reverse(),
        IterMode::ForwardFrom(k) => m.recs.skip(cut(m.recs, k@)),
        IterMode::ReverseFrom(k) => m.recs.take(cut_gt(m.recs, k@)).reverse(),
    }
}

/// A fresh record entered at its sorted position keeps the state well formed.
proof fn lemma_insert_keeps_wf(m: MapModel, id: u32, ik: Seq<u8>, v: Seq<u8>)
    requires
        map_wf(m),
        !has_key(m.recs, ik),
        !id_used(m, id),
        id < u32::MAX,
    ensures
        map_wf(spec_insert_at(m, id, ik, v)),
{
    let c = cut(m.recs, ik);
    lemma_cut(m.recs, ik);
    let rec = RecModel { id, key: ik, value: v };
    let r = m.recs.insert(c, rec);
    let m1 = spec_insert_at(m, id, ik, v);
    assert forall|p: int| 0 <= p < r.len() implies r[p] == if p < c {
        m.recs[p]
    } else if p == c {
        rec
    } else {
        m.recs[p - 1]
    } by {
    }
    assert forall|p: int, q: int| 0 <= p < q < r.len() implies lex_lt(r[p].key, r[q].key) by {
        if p == c {
            assert(!lex_lt(r[q].key, ik));
            assert(r[q].key != ik);
            lemma_lex_trichotomy(r[q].key, ik);
        } else if q == c {
            assert(lex_lt(r[p].key, ik));
        }
    }
    assert forall|p: int, q: int|
        0 <= p < r.len() && 0 <= q < r.len() && p != q implies r[p].id != r[q].id by {
        if r[p].id == id && p != c {
            assert(id_used(m, id)) by {
                let p0 = if p < c {
                    p
                } else {
                    p - 1
                };
                assert(m.recs[p0].id == id);
            }
        }
        if r[q].id == id && q != c {
            assert(id_used(m, id)) by {
                let q0 = if q < c {
                    q
                } else {
                    q - 1
                };
                assert(m.recs[q0].id == id);
            }
        }
    }
    assert forall|p: int, q: int|
        0 <= p < r.len() && 0 <= q < m1.retired.len() implies r[p].id != m1.retired[q].id by {
        if p != c {
            let p0 = if p < c {
                p
            } else {
                p - 1
            };
            assert(r[p] == m.recs[p0]);
        } else {
            if m.retired[q].id == id {
                assert(id_used(m, id));
            }
        }
    }
    assert forall|p: int| 0 <= p < r.len() implies r[p].id < m1.counter by {
        if p != c {
            let p0 = if p < c {
                p
            } else {
                p - 1
            };
            assert(r[p] == m.recs[p0]);
        }
    }
}

impl IndexedMap {
    /// The smallest identifier no record holds; exhaustion yields nothing.
    fn find_free_id(&self) -> (r: Option<u32>)
        ensures
            match r {
                Some(id) => id == spec_alloc(self@) && id < u32::MAX && !id_used(self@, id)
                    && forall|j: u32| j < id ==> id_used(self@, j),
                None => spec_alloc(self@) == u32::MAX,
            },
    {
        let mut id: u32 = 0;
        while id < u32::MAX
            invariant
                spec_alloc(self@) == min_free_from(self@, id),
                forall|j: u32| j < id ==> id_used(self@, j),
            decreases u32::MAX - id,
        {
            if !self.contains_id(id) {
                return Some(id);
            }
            id = id + 1;
        }
        None
    }

    /// Position of the first live record whose key is not below `k`.
    fn lower_bound(&self, k: &Vec<u8>) -> (r: usize)
        ensures
            r == cut(self@.recs, k@),
    {
        let mut i: usize = 0;
        while i < self.records.len()
            invariant
                0 <= i <= self.records.len(),
                forall|j: int| 0 <= j < i ==> lex_lt(self@.recs[j].key, k@),
            decreases self.records.len() - i,
        {
            if !bytes_lt(&self.records[i].key, k) {
                proof {
                    assert(!lex_lt(self@.recs[i as int].key, k@));
                    lemma_cut_at(self@.recs, k@, i as int);
                }
                return i;
            }
            proof {
                assert(lex_lt(self@.recs[i as int].key, k@));
            }
            i = i + 1;
        }
        proof {
            lemma_cut_at(self@.recs, k@, self@.recs.len() as int);
        }
        self.records.len()
    }

    /// Position of the first live record whose key is above `k`.
    fn upper_bound(&self, k: &Vec<u8>) -> (r: usize)
        ensures
            r == cut_gt(self@.recs, k@),
    {
        let mut i: usize = 0;
        while i < self.records.len()
            invariant
                0 <= i <= self.records.len(),
                forall|j: int| 0 <= j < i ==> !lex_lt(k@, self@.recs[j].key),
            decreases self.records.len() - i,
        {
            if bytes_lt(k, &self.records[i].key) {
                proof {
                    lemma_cut_gt_at(self@.recs, k@, i as int);
                }
                return i;
            }
            proof {
                assert(!lex_lt(k@, self@.recs[i as int].key));
            }
            i = i + 1;
        }
        proof {
            lemma_cut_gt_at(self@.recs, k@, self@.recs.len() as int);
        }
        self.records.len()
    }

    /// Inserts an entity, allocating the smallest unused identifier; refuses
    /// a key a live record already holds.
    pub fn insert<T: Indexable>(&mut self, entity: T) -> (r: Result<u32, Error>)
        requires
            old(self).wf(),
        ensures
            final(self).wf(),
            insert_ensures(old(self)@, entity, final(self)@, r),
    {
        let id = match self.find_free_id() {
            Some(id) => id,
            None => {
                return Err(Error::IdExhausted);
            },
        };
        let mut e = entity;
        e.set_index(id);
        let key = e.key();
        let ik = T::make_indexed_key(key, id);
        let v = e.value();
        if self.contains_key(&ik) {
            return Err(Error::KeyExists);
        }
        let pos = self.lower_bound(&ik);
        proof {
            lemma_cut(self@.recs, ik@);
        }
        self.records.insert(pos, Record { id, key: ik, value: v });
        if id >= self.counter {
            self.counter = id + 1;
        }
        proof {
            let m0 = old(self)@;
            let e2 = entity.spec_with_index(id);
            let ik_s = <T as Indexable>::spec_indexed_key(e2.spec_key(), id);
            assert(self@.recs =~= m0.recs.insert(cut(m0.recs, ik_s), RecModel { id, key: ik_s, value: e2.spec_value() }));
            assert(self@.retired =~= m0.retired);
            lemma_insert_keeps_wf(m0, id, ik_s, e2.spec_value());
        }
        Ok(id)
    }

    /// Replaces the record under `id` if it still carries the expected prior
    /// payload; refuses a new key another live record holds.
    pub fn update<T: Indexable>(&mut self, id: u32, old_entity: &T, new_entity: &T) -> (r: Result<
        (),
        Error,
    >)
        requires
            old(self).wf(),
        ensures
            final(self).wf(),
            update_ensures(
                old(self)@,
                id,
                old_entity.spec_value(),
                <T as Indexable>::spec_indexed_key(new_entity.spec_key(), id),
                new_entity.spec_value(),
                final(self)@,
                r,
            ),
    {
        let pos = match self.find_pos(id) {
            Some(p) => p,
            None => {
                return Err(Error::NotFound);
            },
        };
        let oldv = old_entity.value();
        if !bytes_eq(&self.records[pos].value, &oldv) {
            proof {
                assert(self@.recs[pos as int].value == self.records@[pos as int].value@);
            }
            return Err(Error::ValueMismatch);
        }
        proof {
            assert(self@.recs[pos as int].value == self.records@[pos as int].value@);
        }
        let nk = <T as Indexable>::make_indexed_key(new_entity.key(), id);
        let same_key = bytes_eq(&self.records[pos].key, &nk);
        proof {
            assert(self@.recs[pos as int].key == self.records@[pos as int].key@);
        }
        if !same_key && self.contains_key(&nk) {
            return Err(Error::KeyExists);
        }
        let v = new_entity.value();
        let ghost m0 = self@;
        self.records.remove(pos);
        proof {
            assert(self@.recs =~= m0.recs.remove(pos as int));
            assert(self@.retired =~= m0.retired);
            lemma_remove_keeps_wf(m0, pos as int);
        }
        let c = self.lower_bound(&nk);
        proof {
            lemma_key_unique(m0.recs, pos as int, nk@);
            assert(!id_used(self@, id)) by {
                if id_used(self@, id) {
                    if exists|i: int| 0 <= i < self@.recs.len() && self@.recs[i].id == id {
                        let i = choose|i: int|
                            0 <= i < self@.recs.len() && self@.recs[i].id == id;
                        assert(m0.recs[skip_over(i, pos as int)].id == id);
                    } else {
                        let i = choose|i: int|
                            0 <= i < self@.retired.len() && self@.retired[i].id == id;
                        assert(m0.retired[i].id == id);
                        assert(m0.recs[pos as int].id == id);
                    }
                }
            }
            lemma_insert_keeps_wf(self@, id, nk@, v@);
        }
        let ghost m_mid = self@;
        proof {
            lemma_cut(self@.recs, nk@);
        }
        self.records.insert(c, Record { id, key: nk, value: v });
        proof {
            assert(self@.recs =~= m_mid.recs.insert(
                cut(m_mid.recs, nk@),
                RecModel { id, key: nk@, value: v@ },
            ));
            assert(self@.retired =~= m_mid.retired);
        }
        Ok(())
    }

    /// Raw ordered traversal: key and payload of each record the mode selects.
    pub fn inner_iterator(&self, mode: &IterMode) -> (r: Vec<(Vec<u8>, Vec<u8>)>)
        requires
            self.wf(),
        ensures
            r@.len() == spec_iter(self@, *mode).len(),
            forall|i: int|
                0 <= i < r@.len() ==> r@[i].0@ == spec_iter(self@, *mode)[i].key && r@[i].1@
                    == spec_iter(self@, *mode)[i].value,
    {
        let (start, end, rev): (usize, usize, bool) = match mode {
            IterMode::Start => (0, self.records.len(), false),
            IterMode::End => (0, self.records.len(), true),
            IterMode::ForwardFrom(k) => (self.lower_bound(k), self.records.len(), false),
            IterMode::ReverseFrom(k) => (0, self.upper_bound(k), true),
        };
        proof {
            match mode {
                IterMode::ForwardFrom(k) => {
                    lemma_cut(self@.recs, k@);
                },
                IterMode::ReverseFrom(k) => {
                    lemma_cut_gt(self@.recs, k@);
                },
                _ => {},
            }
        }
        let mut r: Vec<(Vec<u8>, Vec<u8>)> = Vec::new();
        if !rev {
            let mut i: usize = start;
            while i < end
                invariant
                    start <= i <= end <= self.records.len(),
                    r@.len() == i - start,
                    forall|j: int|
                        0 <= j < r@.len() ==> r@[j].0@ == self@.recs[start + j].key && r@[j].1@
                            == self@.recs[start + j].value,
                decreases end - i,
            {
                let k = copy_bytes(&self.records[i].key);
                let v = copy_bytes(&self.records[i].value);
                r.push((k, v));
                i = i + 1;
            }
        } else {
            let mut i: usize = end;
            while i > start
                invariant
                    start <= i <= end <= self.records.len(),
                    r@.len() == end - i,
                    forall|j: int|
                        0 <= j < r@.len() ==> r@[j].0@ == self@.recs[end - 1 - j].key && r@[j].1@
                            == self@.recs[end - 1 - j].value,
                decreases i,
            {
                let k = copy_bytes(&self.records[i - 1].key);
                let v = copy_bytes(&self.records[i - 1].value);
                r.push((k, v));
                i = i - 1;
            }
        }
        r
    }
}

/// A position whose key is not below `k`, with everything before it below,
/// is where `cut` lands.
proof fn lemma_cut_at(recs: Seq<RecModel>, k: Seq<u8>, i: int)
    requires
        0 <= i <= recs.len(),
        forall|j: int| 0 <= j < i ==> lex_lt(recs[j].key, k),
        i < recs.len() ==> !lex_lt(recs[i].key, k),
    ensures
        cut(recs, k) == i,
    decreases i,
{
    if i > 0 {
        assert(forall|j: int| 0 <= j < i - 1 ==> lex_lt(recs.drop_first()[j].key, k));
        if i < recs.len() {
            assert(recs.drop_first()[i - 1] == recs[i]);
        }
        lemma_cut_at(recs.drop_first(), k, i - 1);
    }
}

/// A position whose key is above `k`, with everything before it not above,
/// is where `cut_gt` lands.
proof fn lemma_cut_gt_at(recs: Seq<RecModel>, k: Seq<u8>, i: int)
    requires
        0 <= i <= recs.len(),
        forall|j: int| 0 <= j < i ==> !lex_lt(k, recs[j].key),
        i < recs.len() ==> lex_lt(k, recs[i].key),
    ensures
        cut_gt(recs, k) == i,
    decreases i,
{
    if i > 0 {
        assert(forall|j: int| 0 <= j < i - 1 ==> !lex_lt(k, recs.drop_first()[j].key));
        if i < recs.len() {
            assert(recs.drop_first()[i - 1] == recs[i]);
        }
        lemma_cut_gt_at(recs.drop_first(), k, i - 1);
    }
}

/// In a strictly sorted sequence a key can appear at one position only, so
/// removing that position removes the key.
proof fn lemma_key_unique(recs: Seq<RecModel>, pos: int, k: Seq<u8>)
    requires
        sorted(recs),
        0 <= pos < recs.len(),
        k != recs[pos].key ==> !has_key(recs, k),
    ensures
        !has_key(recs.remove(pos), k),
{
    let r = recs.remove(pos);
    if has_key(r, k) {
        let i = choose|i: int| 0 <= i < r.len() && r[i].key == k;
        let i0 = skip_over(i, pos);
        assert(r[i] == recs[i0]);
        assert(recs[i0].key == k);
        if k == recs[pos].key {
            if i0 < pos {
                assert(lex_lt(recs[i0].key, recs[pos].key));
                lemma_lex_trichotomy(recs[i0].key, recs[pos].key);
            } else {
                assert(lex_lt(recs[pos].key, recs[i0].key));
                lemma_lex_trichotomy(recs[pos].key, recs[i0].key);
            }
        } else {
            assert(has_key(recs, k));
        }
    }
}

} // verus!
