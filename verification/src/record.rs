//! Storable entities: the capability contract and the category record.
use vstd::prelude::*;

verus! {

use crate::Error;

/// Capability contract a storable entity implements: produce a natural key,
/// carry a numeric index, and serialize its payload.
pub trait Indexable: Sized {
    /// The natural key, the identity used for uniqueness.
    spec fn spec_key(&self) -> Seq<u8>;

    /// The numeric index currently assigned.
    spec fn spec_index(&self) -> u32;

    /// The canonical serialized payload.
    spec fn spec_value(&self) -> Seq<u8>;

    /// The entity with its index replaced.
    spec fn spec_with_index(self, index: u32) -> Self;

    /// The physical sort key derived from natural key and index.
    spec fn spec_indexed_key(key: Seq<u8>, index: u32) -> Seq<u8>;

    fn key(&self) -> (r: Vec<u8>)
        ensures
            r@ == self.spec_key(),
    ;

    fn index(&self) -> (r: u32)
        ensures
            r == self.spec_index(),
    ;

    fn set_index(&mut self, index: u32)
        ensures
            *final(self) == old(self).spec_with_index(index),
            final(self).spec_index() == index,
            final(self).spec_key() == old(self).spec_key(),
    ;

    fn value(&self) -> (r: Vec<u8>)
        ensures
            r@ == self.spec_value(),
    ;

    fn make_indexed_key(key: Vec<u8>, index: u32) -> (r: Vec<u8>)
        ensures
            r@ == Self::spec_indexed_key(key@, index),
    ;
}

/// The mathematical value of a category record.
pub struct CatModel {
    pub id: u32,
    pub name: Seq<u8>,
}

/// A named category under a numeric identifier; names order the table.
#[derive(Clone, Debug)]
pub struct Category {
    pub id: u32,
    pub name: Vec<u8>,
}

impl View for Category {
    type V = CatModel;

    open spec fn view(&self) -> CatModel {
        CatModel { id: self.id, name: self.name@ }
    }
}

impl PartialEq for Category {
    fn eq(&self, other: &Category) -> (r: bool) {
        self.id == other.id && crate::order::bytes_eq(&self.name, &other.name)
    }
}

impl Eq for Category {

}

impl vstd::std_specs::cmp::PartialEqSpecImpl for Category {
    open spec fn obeys_eq_spec() -> bool {
        true
    }

    open spec fn eq_spec(&self, other: &Category) -> bool {
        self@ == other@
    }
}

/// Little-endian bytes of a 32-bit identifier.
pub open spec fn u32_le(x: u32) -> Seq<u8> {
    seq![
        (x & 0xff) as u8,
        ((x >> 8) & 0xff) as u8,
        ((x >> 16) & 0xff) as u8,
        ((x >> 24) & 0xff) as u8,
    ]
}

/// A 32-bit identifier read back from little-endian bytes.
pub open spec fn u32_from_le(b0: u8, b1: u8, b2: u8, b3: u8) -> u32 {
    (b0 as u32) | ((b1 as u32) << 8) | ((b2 as u32) << 16) | ((b3 as u32) << 24)
}

/// The canonical payload: identifier bytes followed by the name.
pub open spec fn spec_encode(id: u32, name: Seq<u8>) -> Seq<u8> {
    u32_le(id) + name
}

/// The record a payload decodes to, if it is long enough to hold one.
pub open spec fn spec_decode(b: Seq<u8>) -> Option<CatModel> {
    if b.len() >= 4 {
        Some(CatModel { id: u32_from_le(b[0], b[1], b[2], b[3]), name: b.skip(4) })
    } else {
        None
    }
}

proof fn lemma_u32_le_round_trip(x: u32)
    ensures
        u32_from_le(
            (x & 0xff) as u8,
            ((x >> 8) & 0xff) as u8,
            ((x >> 16) & 0xff) as u8,
            ((x >> 24) & 0xff) as u8,
        ) == x,
{
    assert((((x & 0xff) as u8) as u32) | (((((x >> 8) & 0xff) as u8) as u32) << 8) | (((((x
        >> 16) & 0xff) as u8) as u32) << 16) | (((((x >> 24) & 0xff) as u8) as u32) << 24)
        == x) by (bit_vector);
}

/// Decoding an encoded payload restores the record exactly.
pub proof fn lemma_codec_round_trip(id: u32, name: Seq<u8>)
    ensures
        spec_decode(spec_encode(id, name)) == Some(CatModel { id, name }),
{
    lemma_u32_le_round_trip(id);
    assert(spec_encode(id, name).skip(4) =~= name);
}

/// Re-encoding what a payload decodes to restores the payload: decoding
/// loses nothing.
pub proof fn lemma_decode_then_encode(b: Seq<u8>)
    requires
        spec_decode(b) is Some,
    ensures
        forall|m: CatModel| spec_decode(b) == Some(m) ==> spec_encode(m.id, m.name) == b,
{
    let b0 = b[0];
    let b1 = b[1];
    let b2 = b[2];
    let b3 = b[3];
    assert((((b0 as u32) | ((b1 as u32) << 8) | ((b2 as u32) << 16) | ((b3 as u32) << 24))
        & 0xff) as u8 == b0 && ((((b0 as u32) | ((b1 as u32) << 8) | ((b2 as u32) << 16) | ((b3
        as u32) << 24)) >> 8) & 0xff) as u8 == b1 && ((((b0 as u32) | ((b1 as u32) << 8) | ((b2
        as u32) << 16) | ((b3 as u32) << 24)) >> 16) & 0xff) as u8 == b2 && ((((b0 as u32) | ((b1
        as u32) << 8) | ((b2 as u32) << 16) | ((b3 as u32) << 24)) >> 24) & 0xff) as u8 == b3)
        by (bit_vector);
    assert forall|m: CatModel| spec_decode(b) == Some(m) implies spec_encode(m.id, m.name)
        == b by {
        assert(spec_encode(m.id, m.name) =~= b);
    }
}

/// Serializes a category into its canonical payload.
pub fn encode(c: &Category) -> (r: Vec<u8>)
    ensures
        r@ == spec_encode(c.id, c.name@),
{
    let mut r: Vec<u8> = Vec::new();
    proof {
        let x = c.id;
        assert(x & 0xff < 256 && (x >> 8) & 0xff < 256 && (x >> 16) & 0xff < 256 && (x >> 24)
            & 0xff < 256) by (bit_vector);
    }
    r.push((c.id & 0xff) as u8);
    r.push(((c.id >> 8) & 0xff) as u8);
    r.push(((c.id >> 16) & 0xff) as u8);
    r.push(((c.id >> 24) & 0xff) as u8);
    let mut i: usize = 0;
    while i < c.name.len()
        invariant
            0 <= i <= c.name.len(),
            r@ == u32_le(c.id) + c.name@.take(i as int),
        decreases c.name.len() - i,
    {
        r.push(c.name[i]);
        proof {
            assert(c.name@.take(i + 1) =~= c.name@.take(i as int).push(c.name@[i as int]));
        }
        i = i + 1;
    }
    proof {
        assert(c.name@.take(c.name@.len() as int) =~= c.name@);
        assert(r@ =~= spec_encode(c.id, c.name@));
    }
    r
}

/// Deserializes a canonical payload; rejects one too short to hold a record.
pub fn decode(b: &Vec<u8>) -> (r: Result<Category, Error>)
    ensures
        match r {
            Ok(c) => spec_decode(b@) == Some(c@),
            Err(e) => spec_decode(b@) is None && e == Error::Corrupt,
        },
{
    if b.len() < 4 {
        return Err(Error::Corrupt);
    }
    let id: u32 = (b[0] as u32) | ((b[1] as u32) << 8) | ((b[2] as u32) << 16) | ((b[3]
        as u32) << 24);
    let mut name: Vec<u8> = Vec::new();
    let mut i: usize = 4;
    while i < b.len()
        invariant
            4 <= i <= b.len(),
            name@ == b@.subrange(4, i as int),
        decreases b.len() - i,
    {
        name.push(b[i]);
        proof {
            assert(b@.subrange(4, i + 1) =~= b@.subrange(4, i as int).push(b@[i as int]));
        }
        i = i + 1;
    }
    proof {
        assert(name@ =~= b@.skip(4));
    }
    Ok(Category { id, name })
}

impl Indexable for Category {
    open spec fn spec_key(&self) -> Seq<u8> {
        self.name@
    }

    open spec fn spec_index(&self) -> u32 {
        self.id
    }

    open spec fn spec_value(&self) -> Seq<u8> {
        spec_encode(self.id, self.name@)
    }

    open spec fn spec_with_index(self, index: u32) -> Category {
        Category { id: index, ..self }
    }

    open spec fn spec_indexed_key(key: Seq<u8>, index: u32) -> Seq<u8> {
        key
    }

    fn key(&self) -> (r: Vec<u8>) {
        crate::order::copy_bytes(&self.name)
    }

    fn index(&self) -> (r: u32) {
        self.id
    }

    fn set_index(&mut self, index: u32) {
        self.id = index;
    }

    fn value(&self) -> (r: Vec<u8>) {
        encode(self)
    }

    fn make_indexed_key(key: Vec<u8>, index: u32) -> (r: Vec<u8>) {
        key
    }
}

} // verus!
