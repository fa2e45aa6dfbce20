//! The category table: a typed facade over the engine, with default-entry
//! bootstrap and cursor pagination.
use vstd::prelude::*;

verus! {

use crate::Error;
use crate::map::{
    IndexedMap, IterMode, MapModel, RecModel, map_wf, has_key, id_used, find_id, cut, cut_gt,
    spec_alloc, spec_insert_at, spec_iter, lemma_min_free_from,
    lemma_find_id, lemma_cut, lemma_cut_gt, skip_over,
};
use crate::order::lex_lt;
use crate::record::{
    Category, CatModel, Indexable, spec_encode, decode, lemma_codec_round_trip,
};

/// The name of the throwaway entry the bootstrap uses to claim identifier 0.
pub open spec fn dummy_name() -> Seq<u8> {
    seq![100u8, 117u8, 109u8, 109u8, 121u8]
}

/// The first default entry, seeded under identifier 1.
pub open spec fn non_specified_name() -> Seq<u8> {
    seq![
        78u8, 111u8, 110u8, 45u8, 83u8, 112u8, 101u8, 99u8, 105u8, 102u8, 105u8, 101u8, 100u8,
        32u8, 65u8, 108u8, 101u8, 114u8, 116u8,
    ]
}

/// The second default entry, seeded under identifier 2.
pub open spec fn irrelevant_name() -> Seq<u8> {
    seq![
        73u8, 114u8, 114u8, 101u8, 108u8, 101u8, 118u8, 97u8, 110u8, 116u8, 32u8, 65u8, 108u8,
        101u8, 114u8, 116u8,
    ]
}

/// Every stored payload is the canonical encoding of its identifier and key.
pub open spec fn table_inv(recs: Seq<RecModel>) -> bool {
    forall|i: int|
        0 <= i < recs.len() ==> #[trigger] recs[i].value == spec_encode(recs[i].id, recs[i].key)
}

/// The categories a record sequence holds, in storage order.
pub open spec fn cats_of(recs: Seq<RecModel>) -> Seq<CatModel> {
    recs.map_values(|r: RecModel| CatModel { id: r.id, name: r.key })
}

/// What adding a name does: the smallest unused identifier is allocated and
/// the record enters at its sorted position, unless the name is taken or
/// identifiers are exhausted.
pub open spec fn cat_add(m: MapModel, name: Seq<u8>) -> (MapModel, Result<u32, Error>) {
    let id = spec_alloc(m);
    if id == u32::MAX {
        (m, Err(Error::IdExhausted))
    } else if has_key(m.recs, name) {
        (m, Err(Error::KeyExists))
    } else {
        (spec_insert_at(m, id, name, spec_encode(id, name)), Ok(id))
    }
}

/// What removing an identifier does: its record leaves and the identifier
/// becomes reusable.
pub open spec fn cat_remove(m: MapModel, id: u32) -> (MapModel, Result<(), Error>) {
    let i = find_id(m.recs, id);
    if i < 0 {
        (m, Err(Error::NotFound))
    } else {
        (MapModel { recs: m.recs.remove(i), retired: m.retired, counter: m.counter }, Ok(()))
    }
}

/// What deactivating an identifier does: its record is retired and the
/// identifier is never assignable again.
pub open spec fn cat_deactivate(m: MapModel, id: u32) -> (MapModel, Result<(), Error>) {
    let i = find_id(m.recs, id);
    if i < 0 {
        (m, Err(Error::NotFound))
    } else {
        (
            MapModel {
                recs: m.recs.remove(i),
                retired: m.retired.push(m.recs[i]),
                counter: m.counter,
            },
            Ok(()),
        )
    }
}

/// What a compare-and-swap rename does: the record under `id` is replaced
/// exactly when it still encodes the expected old name and the new name is
/// not taken by another record.
pub open spec fn cat_update(m: MapModel, id: u32, oldn: Seq<u8>, newn: Seq<u8>) -> (
    MapModel,
    Result<(), Error>,
) {
    let i = find_id(m.recs, id);
    if i < 0 {
        (m, Err(Error::NotFound))
    } else if m.recs[i].value != spec_encode(id, oldn) {
        (m, Err(Error::ValueMismatch))
    } else if newn != m.recs[i].key && has_key(m.recs, newn) {
        (m, Err(Error::KeyExists))
    } else {
        (
            spec_insert_at(
                MapModel { recs: m.recs.remove(i), retired: m.retired, counter: m.counter },
                id,
                newn,
                spec_encode(id, newn),
            ),
            Ok(()),
        )
    }
}

/// The bootstrap sequence: on an empty table claim identifier 0 with a
/// throwaway entry, retire it, and seed the default entries; back out and
/// stop as soon as an entry misses its expected identifier.
pub open spec fn spec_setup(m: MapModel) -> (MapModel, Result<(), Error>) {
    if m.recs.len() > 0 {
        (m, Ok(()))
    } else {
        let s1 = cat_add(m, dummy_name());
        match s1.1 {
            Err(e) => (s1.0, Err(e)),
            Ok(added) => if added != 0 {
                cat_remove(s1.0, added)
            } else {
                let s2 = cat_deactivate(s1.0, 0);
                match s2.1 {
                    Err(e) => (s2.0, Err(e)),
                    Ok(_) => {
                        let s3 = cat_add(s2.0, non_specified_name());
                        match s3.1 {
                            Err(e) => (s3.0, Err(e)),
                            Ok(a1) => if a1 != 1 {
                                cat_remove(s3.0, a1)
                            } else {
                                let s4 = cat_add(s3.0, irrelevant_name());
                                match s4.1 {
                                    Err(e) => (s4.0, Err(e)),
                                    Ok(a2) => if a2 != 2 {
                                        cat_remove(s4.0, a2)
                                    } else {
                                        (s4.0, Ok(()))
                                    },
                                }
                            },
                        }
                    },
                }
            },
        }
    }
}

/// The bootstrap can seed the defaults: the table is empty and none of the
/// reserved identifiers 0, 1 and 2 is held by a retired record.
pub open spec fn setup_can_seed(m: MapModel) -> bool {
    m.recs.len() == 0 && !id_used(m, 0) && !id_used(m, 1) && !id_used(m, 2)
}

/// At most the first `n` elements of a sequence.
pub open spec fn first_n(s: Seq<CatModel>, n: int) -> Seq<CatModel> {
    if n <= s.len() {
        s.take(n)
    } else {
        s
    }
}

/// The model of an optional cursor.
pub open spec fn opt_model(o: Option<Category>) -> Option<CatModel> {
    match o {
        Some(c) => Some(c@),
        None => None,
    }
}

/// The directed scan a cursor selects: from the cursor's key (or an end of
/// the table), skipping the cursor's own record when it is the live record
/// at the head of the scan.
pub open spec fn spec_select(recs: Seq<RecModel>, from: Option<CatModel>, is_first: bool) -> Seq<
    CatModel,
> {
    let base = spec_select_base(recs, from, is_first);
    match from {
        Some(f) => if base.len() > 0 && base[0] == f {
            base.drop_first()
        } else {
            base
        },
        None => base,
    }
}

/// What a range query returns: a single cursor anchors the scan, and with
/// no cursor (or both) the direction flag picks an end of the table.
pub open spec fn spec_get_range(
    recs: Seq<RecModel>,
    before: Option<CatModel>,
    after: Option<CatModel>,
    is_first: bool,
    limit: int,
) -> Seq<CatModel> {
    if before is Some && after is None {
        first_n(spec_select(recs, before, false), limit)
    } else if before is None && after is Some {
        first_n(spec_select(recs, after, true), limit)
    } else {
        first_n(spec_select(recs, None, is_first), limit)
    }
}

/// The category table: records keyed and ordered by name.
pub struct IndexedTable {
    indexed_map: IndexedMap,
}

impl View for IndexedTable {
    type V = MapModel;

    closed spec fn view(&self) -> MapModel {
        self.indexed_map@
    }
}

impl IndexedTable {
    /// Well-formed table: a well-formed engine whose payloads are canonical.
    pub open spec fn wf(&self) -> bool {
        map_wf(self@) && table_inv(self@.recs)
    }

    /// Creates an empty table.
    pub fn new() -> (r: IndexedTable)
        ensures
            r.wf(),
            r@.recs.len() == 0,
            r@.retired.len() == 0,
            r@.counter == 0,
    {
        IndexedTable { indexed_map: IndexedMap::new() }
    }

    /// The number of live categories.
    pub fn count(&self) -> (r: usize)
        ensures
            r == self@.recs.len(),
    {
        self.indexed_map.count()
    }

    /// Adds a category entry with `name` and returns its identifier.
    ///
    /// Fails with a conflict if the name already exists.
    pub fn add(&mut self, name: &[u8]) -> (r: Result<u32, Error>)
        requires
            old(self).wf(),
        ensures
            final(self).wf(),
            final(self)@ == cat_add(old(self)@, name@).0,
            r == cat_add(old(self)@, name@).1,
    {
        let entry = Category { id: u32::MAX, name: copy_slice(name) };
        let r = self.indexed_map.insert(entry);
        proof {
            let m0 = old(self)@;
            if spec_alloc(m0) != u32::MAX && !has_key(m0.recs, name@) {
                let id = spec_alloc(m0);
                lemma_table_inv_insert_value(m0.recs, id, name@);
            }
        }
        r
    }

    /// Renames the category under `id` from `old_name` to `new_name`,
    /// only if it still carries `old_name`.
    pub fn update(&mut self, id: u32, old_name: &[u8], new_name: &[u8]) -> (r: Result<(), Error>)
        requires
            old(self).wf(),
        ensures
            final(self).wf(),
            final(self)@ == cat_update(old(self)@, id, old_name@, new_name@).0,
            r == cat_update(old(self)@, id, old_name@, new_name@).1,
    {
        let new_entry = Category { id, name: copy_slice(new_name) };
        let old_entry = Category { id, name: copy_slice(old_name) };
        let r = self.indexed_map.update(id, &old_entry, &new_entry);
        proof {
            let m0 = old(self)@;
            let i = find_id(m0.recs, id);
            if i >= 0 && m0.recs[i].value == spec_encode(id, old_name@) && !(new_name@
                != m0.recs[i].key && has_key(m0.recs, new_name@)) {
                lemma_find_id(m0.recs, id);
                let mr = MapModel {
                    recs: m0.recs.remove(i),
                    retired: m0.retired,
                    counter: m0.counter,
                };
                assert forall|p: int| 0 <= p < mr.recs.len() implies #[trigger] mr.recs[p].value
                    == spec_encode(mr.recs[p].id, mr.recs[p].key) by {
                    assert(mr.recs[p] == m0.recs[skip_over(p, i)]);
                }
                lemma_table_inv_insert_value(mr.recs, id, new_name@);
            }
        }
        r
    }

    /// Deletes the category under `id`, freeing the identifier for reuse.
    pub fn remove(&mut self, id: u32) -> (r: Result<(), Error>)
        requires
            old(self).wf(),
        ensures
            final(self).wf(),
            final(self)@ == cat_remove(old(self)@, id).0,
            r == cat_remove(old(self)@, id).1,
    {
        let r = self.indexed_map.remove(id);
        proof {
            let m0 = old(self)@;
            let i = find_id(m0.recs, id);
            lemma_find_id(m0.recs, id);
            if i >= 0 {
                assert forall|p: int| 0 <= p < final(self)@.recs.len() implies #[trigger] final(self)@.recs[p].value == spec_encode(final(self)@.recs[p].id, final(self)@.recs[p].key)
                    by {
                    assert(final(self)@.recs[p] == m0.recs[skip_over(p, i)]);
                }
            }
            match r {
                Ok(u) => {
                    assert(r == Ok::<(), Error>(u));
                    assert(u == ());
                },
                Err(e) => {
                    assert(r == Err::<(), Error>(e));
                },
            }
        }
        r
    }

    /// Retires `id`: the record is kept aside, the identifier never reused.
    pub fn deactivate(&mut self, id: u32) -> (r: Result<(), Error>)
        requires
            old(self).wf(),
        ensures
            final(self).wf(),
            final(self)@ == cat_deactivate(old(self)@, id).0,
            r == cat_deactivate(old(self)@, id).1,
    {
        let r = self.indexed_map.deactivate(id);
        proof {
            let m0 = old(self)@;
            let i = find_id(m0.recs, id);
            lemma_find_id(m0.recs, id);
            if i >= 0 {
                assert forall|p: int| 0 <= p < final(self)@.recs.len() implies #[trigger] final(self)@.recs[p].value == spec_encode(final(self)@.recs[p].id, final(self)@.recs[p].key)
                    by {
                    assert(final(self)@.recs[p] == m0.recs[skip_over(p, i)]);
                }
            }
            match r {
                Ok(u) => {
                    assert(r == Ok::<(), Error>(u));
                    assert(u == ());
                },
                Err(e) => {
                    assert(r == Err::<(), Error>(e));
                },
            }
        }
        r
    }

    /// Returns the category under `id`.
    pub fn get(&self, id: u32) -> (r: Result<Category, Error>)
        requires
            self.wf(),
        ensures
            match r {
                Ok(c) => {
                    let i = find_id(self@.recs, id);
                    i >= 0 && c@ == CatModel { id: self@.recs[i].id, name: self@.recs[i].key }
                        && c@.id == id
                },
                Err(e) => e == Error::NotFound && find_id(self@.recs, id) < 0,
            },
    {
        match self.indexed_map.get_by_id(id) {
            Some(v) => {
                proof {
                    let i = find_id(self@.recs, id);
                    lemma_find_id(self@.recs, id);
                    lemma_codec_round_trip(self@.recs[i].id, self@.recs[i].key);
                }
                match decode(&v) {
                    Ok(c) => Ok(c),
                    Err(_) => Err(Error::NotFound),
                }
            },
            None => {
                proof {
                    lemma_find_id(self@.recs, id);
                }
                Err(Error::NotFound)
            },
        }
    }

    /// Seeds the default entries once, when the table is empty: identifier 0
    /// is claimed by a throwaway entry and retired, then each default entry
    /// must land on its expected identifier or the bootstrap backs out.
    pub fn setup(&mut self) -> (r: Result<(), Error>)
        requires
            old(self).wf(),
        ensures
            final(self).wf(),
            final(self)@ == spec_setup(old(self)@).0,
            r == spec_setup(old(self)@).1,
            setup_can_seed(old(self)@) ==> {
                &&& r == Ok::<(), Error>(())
                &&& final(self)@.recs.len() == 2
                &&& final(self)@.recs[0] == (RecModel {
                    id: 2u32,
                    key: irrelevant_name(),
                    value: spec_encode(2u32, irrelevant_name()),
                })
                &&& final(self)@.recs[1] == (RecModel {
                    id: 1u32,
                    key: non_specified_name(),
                    value: spec_encode(1u32, non_specified_name()),
                })
                &&& final(self)@.retired == old(self)@.retired.push(
                    RecModel { id: 0u32, key: dummy_name(), value: spec_encode(0u32, dummy_name()) },
                )
                &&& final(self)@.counter == (if old(self)@.counter >= 3 {
                    old(self)@.counter
                } else {
                    3u32
                })
            },
    {
        let ghost m0 = self@;
        let ghost pristine = setup_can_seed(m0);
        if self.count() > 0 {
            return Ok(());
        }
        let dummy = dummy_vec();
        proof {
            if pristine {
                lemma_min_free_from(m0, 0);
                if spec_alloc(m0) != 0 {
                    assert(id_used(m0, 0));
                }
            }
        }
        let added = match self.add(dummy.as_slice()) {
            Ok(a) => a,
            Err(e) => {
                return Err(e);
            },
        };
        if added != 0 {
            let rr = self.remove(added);
            return match rr {
                Ok(_) => Ok(()),
                Err(e) => Err(e),
            };
        }
        let ghost m1 = self@;
        let rd = self.deactivate(added);
        match rd {
            Ok(_) => {},
            Err(e) => {
                return Err(e);
            },
        }
        let ghost m2 = self@;
        proof {
            if pristine {
                assert(m1.recs == m0.recs.insert(0, RecModel { id: 0u32, key: dummy_name(), value: spec_encode(0u32, dummy_name()) }));
                assert(m1.recs[0].id == 0);
                assert(find_id(m1.recs, 0) == 0);
                assert(m2.recs =~= Seq::<RecModel>::empty());
                assert(m2.retired == m0.retired.push(m1.recs[0]));
                assert(m2.retired[m0.retired.len() as int].id == 0);
                lemma_min_free_from(m2, 0);
                assert(id_used(m2, 0));
                assert(!id_used(m2, 1)) by {
                    if id_used(m2, 1) {
                        let i = choose|i: int|
                            0 <= i < m2.retired.len() && m2.retired[i].id == 1;
                        if i < m0.retired.len() {
                            assert(m0.retired[i].id == 1);
                            assert(id_used(m0, 1));
                        }
                    }
                }
                if spec_alloc(m2) == 0 {
                    assert(!id_used(m2, 0));
                }
                if spec_alloc(m2) != 1 {
                    assert(id_used(m2, 1));
                }
                assert(spec_alloc(m2) == 1);
            }
        }
        let first = non_specified_vec();
        let a1 = match self.add(first.as_slice()) {
            Ok(a) => a,
            Err(e) => {
                return Err(e);
            },
        };
        if a1 != 1 {
            let rr = self.remove(a1);
            return match rr {
                Ok(_) => Ok(()),
                Err(e) => Err(e),
            };
        }
        let ghost m3 = self@;
        proof {
            if pristine {
                assert(m3.recs =~= Seq::<RecModel>::empty().insert(0, RecModel { id: 1u32, key: non_specified_name(), value: spec_encode(1u32, non_specified_name()) }));
                assert(m3.recs.len() == 1 && m3.recs[0].id == 1 && m3.recs[0].key
                    == non_specified_name());
                assert(m3.retired == m2.retired);
                lemma_min_free_from(m3, 0);
                assert(m3.retired[m0.retired.len() as int].id == 0);
                assert(id_used(m3, 0));
                assert(id_used(m3, 1));
                assert(!id_used(m3, 2)) by {
                    if id_used(m3, 2) {
                        if exists|i: int| 0 <= i < m3.recs.len() && m3.recs[i].id == 2 {
                            let i = choose|i: int|
                                0 <= i < m3.recs.len() && m3.recs[i].id == 2;
                            assert(m3.recs[i].id == 1);
                        } else {
                            let i = choose|i: int|
                                0 <= i < m3.retired.len() && m3.retired[i].id == 2;
                            if i < m0.retired.len() {
                                assert(m0.retired[i].id == 2);
                                assert(id_used(m0, 2));
                            }
                        }
                    }
                }
                if spec_alloc(m3) == 0 || spec_alloc(m3) == 1 {
                    assert(!id_used(m3, spec_alloc(m3)));
                }
                if spec_alloc(m3) != 2 {
                    assert(id_used(m3, 2));
                }
                assert(spec_alloc(m3) == 2);
                assert(!has_key(m3.recs, irrelevant_name())) by {
                    assert(non_specified_name().len() != irrelevant_name().len());
                }
                assert(!lex_lt(m3.recs[0].key, irrelevant_name()));
                assert(cut(m3.recs, irrelevant_name()) == 0);
            }
        }
        let second = irrelevant_vec();
        let a2 = match self.add(second.as_slice()) {
            Ok(a) => a,
            Err(e) => {
                return Err(e);
            },
        };
        if a2 != 2 {
            let rr = self.remove(a2);
            return match rr {
                Ok(_) => Ok(()),
                Err(e) => Err(e),
            };
        }
        proof {
            if pristine {
                assert(final(self)@.recs == m3.recs.insert(0, RecModel { id: 2u32, key: irrelevant_name(), value: spec_encode(2u32, irrelevant_name()) }));
            }
        }
        Ok(())
    }

    /// Up to `n` categories scanned from the cursor (or an end of the
    /// table), excluding the cursor's own record when it is still live.
    fn get_n(&self, from: Option<Category>, n: usize, is_first: bool) -> (r: Result<
        Vec<Category>,
        Error,
    >)
        requires
            self.wf(),
        ensures
            r matches Ok(v) && v@.map_values(|c: Category| c@) == first_n(
                spec_select(self@.recs, opt_model(from), is_first),
                n as int,
            ),
    {
        let ghost recs = self@.recs;
        let mode = match (&from, is_first) {
            (Some(f), true) => IterMode::ForwardFrom(
                <Category as Indexable>::make_indexed_key(f.key(), f.index()),
            ),
            (Some(f), false) => IterMode::ReverseFrom(
                <Category as Indexable>::make_indexed_key(f.key(), f.index()),
            ),
            (None, true) => IterMode::Start,
            (None, false) => IterMode::End,
        };
        let pairs = self.indexed_map.inner_iterator(&mode);
        let ghost sel = spec_iter(self@, mode);
        proof {
            match &mode {
                IterMode::ForwardFrom(k) => lemma_cut(recs, k@),
                IterMode::ReverseFrom(k) => lemma_cut_gt(recs, k@),
                _ => {},
            }
            assert forall|j: int| 0 <= j < sel.len() implies #[trigger] sel[j].value
                == spec_encode(sel[j].id, sel[j].key) by {
                match &mode {
                    IterMode::Start => {
                        assert(sel[j] == recs[j]);
                    },
                    IterMode::End => {
                        assert(sel[j] == recs[recs.len() - 1 - j]);
                    },
                    IterMode::ForwardFrom(k) => {
                        assert(sel[j] == recs[cut(recs, k@) + j]);
                    },
                    IterMode::ReverseFrom(k) => {
                        let c = cut_gt(recs, k@);
                        assert(sel[j] == recs.take(c)[c - 1 - j]);
                        assert(recs.take(c)[c - 1 - j] == recs[c - 1 - j]);
                    },
                }
            }
        }
        let mut cats: Vec<Category> = Vec::new();
        let mut i: usize = 0;
        while i < pairs.len()
            invariant
                0 <= i <= pairs.len(),
                pairs@.len() == sel.len(),
                forall|j: int|
                    0 <= j < pairs@.len() ==> pairs@[j].1@ == sel[j].value,
                forall|j: int|
                    0 <= j < sel.len() ==> #[trigger] sel[j].value == spec_encode(
                        sel[j].id,
                        sel[j].key,
                    ),
                cats@.len() == i,
                forall|j: int|
                    0 <= j < i ==> (#[trigger] cats@[j])@ == (CatModel {
                        id: sel[j].id,
                        name: sel[j].key,
                    }),
            decreases pairs.len() - i,
        {
            proof {
                lemma_codec_round_trip(sel[i as int].id, sel[i as int].key);
            }
            match decode(&pairs[i].1) {
                Ok(c) => {
                    cats.push(c);
                },
                Err(e) => {
                    return Err(e);
                },
            }
            i = i + 1;
        }
        let ghost base = spec_select_base(recs, opt_model(from), is_first);
        proof {
            assert(base =~= cats_of(sel));
            assert forall|j: int| 0 <= j < base.len() implies base[j] == (CatModel {
                id: sel[j].id,
                name: sel[j].key,
            }) by {
            }
        }
        let skip_head = match &from {
            Some(f) => cats.len() > 0 && {
                let head_matches = {
                    let c0 = &cats[0];
                    c0.id == f.id && crate::order::bytes_eq(&c0.name, &f.name)
                };
                head_matches
            },
            None => false,
        };
        if skip_head {
            cats.remove(0);
        }
        let ghost selres = spec_select(recs, opt_model(from), is_first);
        proof {
            match opt_model(from) {
                Some(fm) => {
                    if base.len() > 0 && base[0] == fm {
                        assert(selres == base.drop_first());
                        assert(cats@.len() == selres.len());
                    } else {
                        assert(selres == base);
                    }
                },
                None => {
                    assert(selres == base);
                },
            }
            assert forall|j: int| 0 <= j < cats@.len() implies (#[trigger] cats@[j])@
                == selres[j] by {
                if skip_head {
                    assert(selres[j] == base[j + 1]);
                }
            }
        }
        while cats.len() > n
            invariant
                cats@.len() <= selres.len(),
                forall|j: int| 0 <= j < cats@.len() ==> (#[trigger] cats@[j])@ == selres[j],
                cats@.len() >= n || cats@.len() == selres.len(),
            decreases cats.len(),
        {
            cats.pop();
        }
        proof {
            assert(cats@.map_values(|c: Category| c@) =~= first_n(selres, n as int));
        }
        Ok(cats)
    }

    /// Up to `limit` categories: entries strictly before the `before` cursor
    /// walking backward, strictly after the `after` cursor walking forward,
    /// or from either end of the table when no single cursor is given.
    pub fn get_range(
        &self,
        before: Option<Category>,
        after: Option<Category>,
        is_first: bool,
        limit: usize,
    ) -> (r: Result<Vec<Category>, Error>)
        requires
            self.wf(),
        ensures
            r matches Ok(v) && v@.map_values(|c: Category| c@) == spec_get_range(
                self@.recs,
                opt_model(before),
                opt_model(after),
                is_first,
                limit as int,
            ),
    {
        let b_some = before.is_some();
        let a_some = after.is_some();
        if b_some && !a_some {
            self.get_n(before, limit, false)
        } else if !b_some && a_some {
            self.get_n(after, limit, true)
        } else {
            self.get_n(None, limit, is_first)
        }
    }
}

/// The undirected scan a cursor selects, before its own record is skipped.
pub open spec fn spec_select_base(
    recs: Seq<RecModel>,
    from: Option<CatModel>,
    is_first: bool,
) -> Seq<CatModel> {
    match from {
        Some(f) => if is_first {
            cats_of(recs.skip(cut(recs, f.name)))
        } else {
            cats_of(recs.take(cut_gt(recs, f.name)).reverse())
        },
        None => if is_first {
            cats_of(recs)
        } else {
            cats_of(recs.reverse())
        },
    }
}

/// Builds the throwaway bootstrap name.
fn dummy_vec() -> (r: Vec<u8>)
    ensures
        r@ == dummy_name(),
{
    let v = vec![100u8, 117u8, 109u8, 109u8, 121u8];
    proof {
        assert(v@ =~= dummy_name());
    }
    v
}

/// Builds the first default entry name.
fn non_specified_vec() -> (r: Vec<u8>)
    ensures
        r@ == non_specified_name(),
{
    let v = vec![
        78u8, 111u8, 110u8, 45u8, 83u8, 112u8, 101u8, 99u8, 105u8, 102u8, 105u8, 101u8, 100u8,
        32u8, 65u8, 108u8, 101u8, 114u8, 116u8,
    ];
    proof {
        assert(v@ =~= non_specified_name());
    }
    v
}

/// Builds the second default entry name.
fn irrelevant_vec() -> (r: Vec<u8>)
    ensures
        r@ == irrelevant_name(),
{
    let v = vec![
        73u8, 114u8, 114u8, 101u8, 108u8, 101u8, 118u8, 97u8, 110u8, 116u8, 32u8, 65u8, 108u8,
        101u8, 114u8, 116u8,
    ];
    proof {
        assert(v@ =~= irrelevant_name());
    }
    v
}

/// Copies a byte slice into a vector.
pub fn copy_slice(a: &[u8]) -> (r: Vec<u8>)
    ensures
        r@ == a@,
{
    let mut r: Vec<u8> = Vec::new();
    let mut i: usize = 0;
    while i < a.len()
        invariant
            0 <= i <= a.len(),
            r@ == a@.take(i as int),
        decreases a.len() - i,
    {
        r.push(a[i]);
        proof {
            assert(a@.take(i + 1) =~= a@.take(i as int).push(a@[i as int]));
        }
        i = i + 1;
    }
    proof {
        assert(a@.take(a@.len() as int) =~= a@);
    }
    r
}

/// The payload invariant survives any sorted insertion of a canonical record.
proof fn lemma_table_inv_insert_value(recs: Seq<RecModel>, id: u32, name: Seq<u8>)
    requires
        table_inv(recs),
    ensures
        table_inv(
            recs.insert(cut(recs, name), RecModel { id, key: name, value: spec_encode(id, name) }),
        ),
{
    let c = cut(recs, name);
    crate::map::lemma_cut_bounds(recs, name);
    let r = recs.insert(c, RecModel { id, key: name, value: spec_encode(id, name) });
    assert forall|p: int| 0 <= p < r.len() implies #[trigger] r[p].value == spec_encode(
        r[p].id,
        r[p].key,
    ) by {
        if p < c {
            assert(r[p] == recs[p]);
        } else if p > c {
            assert(r[p] == recs[p - 1]);
        }
    }
}

} // verus!
