//! Laws of the table: how allocation, compare-and-swap and pagination
//! behave across operations.
use vstd::prelude::*;

verus! {

use crate::Error;
use crate::map::{
    MapModel, RecModel, map_wf, sorted, has_key, id_used, find_id, cut, cut_gt, spec_alloc,
    lemma_min_free_from, lemma_find_id, lemma_cut, lemma_cut_gt, lemma_cut_bounds,
    skip_over,
};
use crate::order::{lex_lt, lemma_lex_trichotomy, lemma_lex_trans};
use crate::record::{CatModel, spec_encode};
use crate::table::{
    cat_add, cat_remove, cat_update, cats_of, first_n, spec_select, spec_select_base,
    spec_get_range,
};

/// Adding two names in a row assigns distinct identifiers.
pub proof fn lemma_add_assigns_distinct_ids(m0: MapModel, n1: Seq<u8>, n2: Seq<u8>)
    requires
        map_wf(m0),
    ensures
        ({
            let s1 = cat_add(m0, n1);
            let s2 = cat_add(s1.0, n2);
            s1.1 is Ok && s2.1 is Ok ==> s1.1->Ok_0 != s2.1->Ok_0
        }),
{
    let s1 = cat_add(m0, n1);
    let s2 = cat_add(s1.0, n2);
    if s1.1 is Ok && s2.1 is Ok {
        let id1 = spec_alloc(m0);
        let m1 = s1.0;
        let c = cut(m0.recs, n1);
        lemma_cut_bounds(m0.recs, n1);
        assert(s1.1 == Ok::<u32, Error>(id1));
        assert(s2.1 == Ok::<u32, Error>(spec_alloc(m1)));
        assert(m1.recs[c].id == id1);
        assert(id_used(m1, id1));
        lemma_min_free_from(m1, 0);
        assert(spec_alloc(m1) != u32::MAX);
        assert(!id_used(m1, spec_alloc(m1)));
        assert(spec_alloc(m1) != id1);
    }
}

/// Adding the same name a second time fails with a key conflict, as long as
/// identifiers are not exhausted.
pub proof fn lemma_add_twice_conflicts(m0: MapModel, n: Seq<u8>)
    requires
        map_wf(m0),
        cat_add(m0, n).1 is Ok,
        spec_alloc(cat_add(m0, n).0) != u32::MAX,
    ensures
        cat_add(cat_add(m0, n).0, n).1 == Err::<u32, Error>(Error::KeyExists),
{
    let m1 = cat_add(m0, n).0;
    let c = cut(m0.recs, n);
    lemma_cut_bounds(m0.recs, n);
    assert(m1.recs[c].key == n);
    assert(has_key(m1.recs, n));
}

/// Two adds with distinct fresh names both succeed, as long as identifiers
/// are not exhausted.
pub proof fn lemma_add_distinct_names_succeed(m0: MapModel, n1: Seq<u8>, n2: Seq<u8>)
    requires
        map_wf(m0),
        !has_key(m0.recs, n1),
        !has_key(m0.recs, n2),
        n1 != n2,
        spec_alloc(m0) != u32::MAX,
        spec_alloc(cat_add(m0, n1).0) != u32::MAX,
    ensures
        cat_add(m0, n1).1 is Ok,
        cat_add(cat_add(m0, n1).0, n2).1 is Ok,
{
    let m1 = cat_add(m0, n1).0;
    let c = cut(m0.recs, n1);
    lemma_cut_bounds(m0.recs, n1);
    assert(!has_key(m1.recs, n2)) by {
        if has_key(m1.recs, n2) {
            let i = choose|i: int| 0 <= i < m1.recs.len() && m1.recs[i].key == n2;
            if i != c {
                let i0 = if i < c {
                    i
                } else {
                    i - 1
                };
                assert(m1.recs[i] == m0.recs[i0]);
            }
        }
    }
}

/// A retired identifier is never assigned by a later add.
pub proof fn lemma_retired_id_never_allocated(m: MapModel, q: int, n: Seq<u8>)
    requires
        0 <= q < m.retired.len(),
    ensures
        cat_add(m, n).1 matches Ok(id) ==> id != m.retired[q].id,
{
    if cat_add(m, n).1 is Ok {
        lemma_min_free_from(m, 0);
        assert(id_used(m, m.retired[q].id));
    }
}

/// An update is a compare-and-swap: it succeeds exactly when the live record
/// under `id` still encodes the expected old name, and the new name is its
/// own or not taken.
pub proof fn lemma_update_is_compare_and_swap(m: MapModel, id: u32, oldn: Seq<u8>, newn: Seq<u8>)
    ensures
        cat_update(m, id, oldn, newn).1 is Ok <==> ({
            let i = find_id(m.recs, id);
            &&& i >= 0
            &&& m.recs[i].value == spec_encode(id, oldn)
            &&& (newn == m.recs[i].key || !has_key(m.recs, newn))
        }),
{
}

/// Allocation never skips an unused identifier: the identifier an add
/// assigns is unused, and every smaller one is in use.
pub proof fn lemma_alloc_minimal(m: MapModel, n: Seq<u8>)
    ensures
        cat_add(m, n).1 matches Ok(id) ==> !id_used(m, id) && (forall|j: u32|
            j < id ==> id_used(m, j)),
{
    lemma_min_free_from(m, 0);
}

/// A removed identifier is granted to the next add once no smaller
/// identifier is free.
pub proof fn lemma_removed_id_reused(m0: MapModel, id: u32, n: Seq<u8>)
    requires
        map_wf(m0),
        cat_remove(m0, id).1 is Ok,
        forall|j: u32| j < id ==> id_used(cat_remove(m0, id).0, j),
        !has_key(cat_remove(m0, id).0.recs, n),
    ensures
        cat_add(cat_remove(m0, id).0, n).1 == Ok::<u32, Error>(id),
{
    let i = find_id(m0.recs, id);
    lemma_find_id(m0.recs, id);
    let m1 = cat_remove(m0, id).0;
    assert(m0.recs[i].id == id);
    assert(id < m0.counter);
    assert(!id_used(m1, id)) by {
        if id_used(m1, id) {
            if exists|p: int| 0 <= p < m1.recs.len() && m1.recs[p].id == id {
                let p = choose|p: int| 0 <= p < m1.recs.len() && m1.recs[p].id == id;
                assert(m1.recs[p] == m0.recs[skip_over(p, i)]);
            } else {
                let p = choose|p: int| 0 <= p < m1.retired.len() && m1.retired[p].id == id;
                assert(m0.retired[p].id == id);
            }
        }
    }
    lemma_min_free_from(m1, 0);
    let a = spec_alloc(m1);
    if a > id {
        assert(id_used(m1, id));
    }
    if a < id {
        assert(id_used(m1, a));
        assert(a < u32::MAX);
    }
    assert(a == id);
}

/// A `before` cursor yields at most `limit` entries, all strictly preceding
/// the cursor's position, in descending order, the cursor's record excluded.
/// The cursor must not be stale onto another live record's name.
pub proof fn lemma_get_range_before(recs: Seq<RecModel>, x: CatModel, limit: int, is_first: bool)
    requires
        limit >= 0,
        sorted(recs),
        forall|i: int| 0 <= i < recs.len() && recs[i].key == x.name ==> recs[i].id == x.id,
    ensures
        ({
            let r = spec_get_range(recs, Some(x), None, is_first, limit);
            &&& r.len() <= limit
            &&& forall|i: int| 0 <= i < r.len() ==> lex_lt(#[trigger] r[i].name, x.name)
            &&& forall|i: int, j: int| 0 <= i < j < r.len() ==> lex_lt(r[j].name, r[i].name)
        }),
{
    let c = cut_gt(recs, x.name);
    lemma_cut_gt(recs, x.name);
    let base = spec_select_base(recs, Some(x), false);
    let selres = spec_select(recs, Some(x), false);
    assert(base.len() == c);
    assert forall|j: int| 0 <= j < base.len() implies #[trigger] base[j] == (CatModel {
        id: recs[c - 1 - j].id,
        name: recs[c - 1 - j].key,
    }) by {
        assert(recs.take(c).reverse()[j] == recs.take(c)[c - 1 - j]);
    }
    assert forall|i: int, j: int| 0 <= i < j < base.len() implies lex_lt(
        base[j].name,
        base[i].name,
    ) by {
        assert(lex_lt(recs[c - 1 - j].key, recs[c - 1 - i].key));
    }
    assert forall|j: int| 1 <= j < base.len() implies lex_lt(#[trigger] base[j].name, x.name) by {
        assert(lex_lt(recs[c - 1 - j].key, recs[c - 1].key));
        if lex_lt(x.name, recs[c - 1 - j].key) {
            lemma_lex_trans(x.name, recs[c - 1 - j].key, recs[c - 1].key);
            assert(lex_lt(x.name, recs[c - 1].key));
            assert(false);
        }
        lemma_lex_trichotomy(recs[c - 1 - j].key, x.name);
        if recs[c - 1 - j].key == x.name {
            assert(lex_lt(x.name, recs[c - 1].key));
            assert(false);
        }
    }
    if base.len() > 0 {
        let head = recs[c - 1];
        if base[0] == x {
            assert(selres == base.drop_first());
            assert forall|i: int| 0 <= i < selres.len() implies lex_lt(
                #[trigger] selres[i].name,
                x.name,
            ) by {
                assert(selres[i] == base[i + 1]);
            }
        } else {
            assert(selres == base);
            assert(head.key != x.name) by {
                if head.key == x.name {
                    assert(head.id == x.id);
                    assert(base[0] == x);
                }
            }
            lemma_lex_trichotomy(head.key, x.name);
            assert(lex_lt(head.key, x.name));
        }
    } else {
        assert(selres == base);
    }
    let r = spec_get_range(recs, Some(x), None, is_first, limit);
    assert(r == first_n(selres, limit));
    assert forall|i: int| 0 <= i < r.len() implies #[trigger] r[i] == selres[i] by {
        if limit <= selres.len() {
            assert(r == selres.take(limit));
        }
    }
    assert forall|i: int| 0 <= i < r.len() implies lex_lt(#[trigger] r[i].name, x.name) by {
        assert(r[i] == selres[i]);
    }
    assert forall|i: int, j: int| 0 <= i < j < r.len() implies lex_lt(r[j].name, r[i].name) by {
        assert(r[i] == selres[i] && r[j] == selres[j]);
        if base.len() > 0 && base[0] == x {
            assert(selres[i] == base[i + 1] && selres[j] == base[j + 1]);
        }
    }
}

/// An `after` cursor yields at most `limit` entries, all strictly following
/// the cursor's position, in ascending order, the cursor's record excluded.
/// The cursor must not be stale onto another live record's name.
pub proof fn lemma_get_range_after(recs: Seq<RecModel>, x: CatModel, limit: int, is_first: bool)
    requires
        limit >= 0,
        sorted(recs),
        forall|i: int| 0 <= i < recs.len() && recs[i].key == x.name ==> recs[i].id == x.id,
    ensures
        ({
            let r = spec_get_range(recs, None, Some(x), is_first, limit);
            &&& r.len() <= limit
            &&& forall|i: int| 0 <= i < r.len() ==> lex_lt(x.name, #[trigger] r[i].name)
            &&& forall|i: int, j: int| 0 <= i < j < r.len() ==> lex_lt(r[i].name, r[j].name)
        }),
{
    let c = cut(recs, x.name);
    lemma_cut(recs, x.name);
    let base = spec_select_base(recs, Some(x), true);
    let selres = spec_select(recs, Some(x), true);
    assert(base.len() == recs.len() - c);
    assert forall|j: int| 0 <= j < base.len() implies #[trigger] base[j] == (CatModel {
        id: recs[c + j].id,
        name: recs[c + j].key,
    }) by {
        assert(recs.skip(c)[j] == recs[c + j]);
    }
    assert forall|j: int| 1 <= j < base.len() implies lex_lt(x.name, #[trigger] base[j].name) by {
        assert(lex_lt(recs[c].key, recs[c + j].key));
        lemma_lex_trichotomy(recs[c].key, x.name);
        if lex_lt(x.name, recs[c].key) {
            lemma_lex_trans(x.name, recs[c].key, recs[c + j].key);
        } else {
            assert(recs[c].key == x.name);
        }
    }
    if base.len() > 0 {
        let head = recs[c];
        if base[0] == x {
            assert(selres == base.drop_first());
            assert forall|i: int| 0 <= i < selres.len() implies lex_lt(
                x.name,
                #[trigger] selres[i].name,
            ) by {
                assert(selres[i] == base[i + 1]);
            }
        } else {
            assert(selres == base);
            assert(head.key != x.name) by {
                if head.key == x.name {
                    assert(head.id == x.id);
                    assert(base[0] == x);
                }
            }
            lemma_lex_trichotomy(head.key, x.name);
            assert(lex_lt(x.name, head.key));
        }
    } else {
        assert(selres == base);
    }
    let r = spec_get_range(recs, None, Some(x), is_first, limit);
    assert(r == first_n(selres, limit));
    assert forall|i: int| 0 <= i < r.len() implies #[trigger] r[i] == selres[i] by {
        if limit <= selres.len() {
            assert(r == selres.take(limit));
        }
    }
    assert forall|i: int| 0 <= i < r.len() implies lex_lt(x.name, #[trigger] r[i].name) by {
        assert(r[i] == selres[i]);
    }
    assert forall|i: int, j: int| 0 <= i < j < r.len() implies lex_lt(r[i].name, r[j].name) by {
        assert(r[i] == selres[i] && r[j] == selres[j]);
        if base.len() > 0 && base[0] == x {
            assert(selres[i] == base[i + 1] && selres[j] == base[j + 1]);
        } else {
            assert(lex_lt(recs[c + i].key, recs[c + j].key));
        }
    }
}

/// With no cursor the query returns the first `limit` entries in ascending
/// order, or the last `limit` in descending order: a complete prefix of the
/// table's ordering, from whichever end the direction flag picks.
pub proof fn lemma_get_range_ends(recs: Seq<RecModel>, limit: int)
    ensures
        spec_get_range(recs, None, None, true, limit) == first_n(cats_of(recs), limit),
        spec_get_range(recs, None, None, false, limit) == first_n(cats_of(recs.reverse()), limit),
{
    assert(spec_select(recs, None, true) == cats_of(recs));
    assert(spec_select(recs, None, false) == cats_of(recs.reverse()));
}

} // verus!
