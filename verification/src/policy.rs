//! The triage policy record: an indexable entity bundling ordered rule
//! collections, with a canonical length-framed payload.
use vstd::prelude::*;

verus! {

use crate::Error;
use crate::order::copy_bytes;
use crate::record::{Indexable, u32_le};
use crate::types::{
    Ti, PacketAttr, Confidence, Response, attr_cmp_kind_rank, event_category_code,
    opt_bytes_model, response_kind_rank, ti_cmp_kind_rank, value_kind_rank,
};

/// A triage policy: named rule collections under a numeric identifier. The
/// creation time is a nanosecond count; weights are total-order keys.
#[derive(Debug)]
pub struct TriagePolicy {
    pub id: u32,
    pub name: Vec<u8>,
    pub ti_db: Vec<Ti>,
    pub packet_attr: Vec<PacketAttr>,
    pub confidence: Vec<Confidence>,
    pub response: Vec<Response>,
    pub creation_time: i64,
}

/// Little-endian bytes of a 64-bit value.
pub open spec fn u64_le(x: u64) -> Seq<u8> {
    seq![
        (x & 0xff) as u8,
        ((x >> 8) & 0xff) as u8,
        ((x >> 16) & 0xff) as u8,
        ((x >> 24) & 0xff) as u8,
        ((x >> 32) & 0xff) as u8,
        ((x >> 40) & 0xff) as u8,
        ((x >> 48) & 0xff) as u8,
        ((x >> 56) & 0xff) as u8,
    ]
}

/// A length-framed byte string.
pub open spec fn enc_bytes(b: Seq<u8>) -> Seq<u8> {
    u64_le(b.len() as u64) + b
}

/// A tagged optional 64-bit value.
pub open spec fn enc_opt_u64(o: Option<u64>) -> Seq<u8> {
    match o {
        None => seq![0u8],
        Some(x) => seq![1u8] + u64_le(x),
    }
}

/// A tagged optional byte string.
pub open spec fn enc_opt_bytes(o: Option<Seq<u8>>) -> Seq<u8> {
    match o {
        None => seq![0u8],
        Some(b) => seq![1u8] + enc_bytes(b),
    }
}

/// The canonical bytes of one threat-intelligence entry.
pub open spec fn spec_enc_ti(t: Ti) -> Seq<u8> {
    enc_bytes(t.ti_name@) + seq![ti_cmp_kind_rank(t.kind) as u8] + enc_opt_u64(t.weight)
}

/// The canonical bytes of one packet attribute rule.
pub open spec fn spec_enc_attr(a: PacketAttr) -> Seq<u8> {
    enc_bytes(a.attr_name@) + seq![
        value_kind_rank(a.value_kind) as u8,
        attr_cmp_kind_rank(a.cmp_kind) as u8,
    ] + enc_bytes(a.first_value@) + enc_opt_bytes(opt_bytes_model(&a.second_value)) + enc_opt_u64(
        a.weight,
    )
}

/// The canonical bytes of one confidence rule.
pub open spec fn spec_enc_conf(c: Confidence) -> Seq<u8> {
    seq![event_category_code(c.threat_category)] + enc_bytes(c.threat_kind@) + u64_le(c.confidence)
        + enc_opt_u64(c.weight)
}

/// The canonical bytes of one response rule.
pub open spec fn spec_enc_resp(r: Response) -> Seq<u8> {
    u64_le(r.minimum_score) + seq![response_kind_rank(r.kind) as u8]
}

/// The concatenated bytes of a run of threat-intelligence entries.
pub open spec fn enc_ti_seq(s: Seq<Ti>) -> Seq<u8>
    decreases s.len(),
{
    if s.len() == 0 {
        Seq::empty()
    } else {
        spec_enc_ti(s[0]) + enc_ti_seq(s.drop_first())
    }
}

/// The concatenated bytes of a run of packet attribute rules.
pub open spec fn enc_attr_seq(s: Seq<PacketAttr>) -> Seq<u8>
    decreases s.len(),
{
    if s.len() == 0 {
        Seq::empty()
    } else {
        spec_enc_attr(s[0]) + enc_attr_seq(s.drop_first())
    }
}

/// The concatenated bytes of a run of confidence rules.
pub open spec fn enc_conf_seq(s: Seq<Confidence>) -> Seq<u8>
    decreases s.len(),
{
    if s.len() == 0 {
        Seq::empty()
    } else {
        spec_enc_conf(s[0]) + enc_conf_seq(s.drop_first())
    }
}

/// The concatenated bytes of a run of response rules.
pub open spec fn enc_resp_seq(s: Seq<Response>) -> Seq<u8>
    decreases s.len(),
{
    if s.len() == 0 {
        Seq::empty()
    } else {
        spec_enc_resp(s[0]) + enc_resp_seq(s.drop_first())
    }
}

/// The canonical payload of a whole policy: identifier, name, the four rule
/// collections each behind a count, and the creation time.
pub open spec fn spec_enc_policy(p: TriagePolicy) -> Seq<u8> {
    u32_le(p.id) + enc_bytes(p.name@) + u64_le(p.ti_db@.len() as u64) + enc_ti_seq(p.ti_db@)
        + u64_le(p.packet_attr@.len() as u64) + enc_attr_seq(p.packet_attr@) + u64_le(
        p.confidence@.len() as u64,
    ) + enc_conf_seq(p.confidence@) + u64_le(p.response@.len() as u64) + enc_resp_seq(p.response@)
        + u64_le(p.creation_time as u64)
}

/// A 64-bit value read back from little-endian bytes.
pub open spec fn u64_from_le(
    b0: u8,
    b1: u8,
    b2: u8,
    b3: u8,
    b4: u8,
    b5: u8,
    b6: u8,
    b7: u8,
) -> u64 {
    (b0 as u64) | ((b1 as u64) << 8) | ((b2 as u64) << 16) | ((b3 as u64) << 24) | ((b4
        as u64) << 32) | ((b5 as u64) << 40) | ((b6 as u64) << 48) | ((b7 as u64) << 56)
}

/// The 64-bit value standing at a position of a payload.
pub open spec fn dec_u64(b: Seq<u8>, i: int) -> u64 {
    u64_from_le(b[i], b[i + 1], b[i + 2], b[i + 3], b[i + 4], b[i + 5], b[i + 6], b[i + 7])
}

/// Where one byte read at `i` ends, if it fits the payload.
pub open spec fn step_byte(b: Seq<u8>, i: int) -> Option<int> {
    if 0 <= i && i + 1 <= b.len() {
        Some(i + 1)
    } else {
        None
    }
}

/// Where a 64-bit read at `i` ends, if it fits the payload.
pub open spec fn step_u64(b: Seq<u8>, i: int) -> Option<int> {
    if 0 <= i && i + 8 <= b.len() {
        Some(i + 8)
    } else {
        None
    }
}

/// Where a length-framed byte string at `i` ends, if its frame is honest.
pub open spec fn step_bytes(b: Seq<u8>, i: int) -> Option<int> {
    if 0 <= i && i + 8 <= b.len() {
        let n = dec_u64(b, i) as int;
        if n <= b.len() - (i + 8) {
            Some(i + 8 + n)
        } else {
            None
        }
    } else {
        None
    }
}

/// Where a tagged optional 64-bit value at `i` ends.
pub open spec fn step_opt_u64(b: Seq<u8>, i: int) -> Option<int> {
    if 0 <= i && i + 1 <= b.len() {
        if b[i] == 0 {
            Some(i + 1)
        } else if b[i] == 1 {
            step_u64(b, i + 1)
        } else {
            None
        }
    } else {
        None
    }
}

/// Where a tagged optional byte string at `i` ends.
pub open spec fn step_opt_bytes(b: Seq<u8>, i: int) -> Option<int> {
    if 0 <= i && i + 1 <= b.len() {
        if b[i] == 0 {
            Some(i + 1)
        } else if b[i] == 1 {
            step_bytes(b, i + 1)
        } else {
            None
        }
    } else {
        None
    }
}

/// Where a rank byte below `bound` at `i` ends.
pub open spec fn step_rank(b: Seq<u8>, i: int, bound: u8) -> Option<int> {
    if 0 <= i && i + 1 <= b.len() && b[i] < bound {
        Some(i + 1)
    } else {
        None
    }
}

/// Where an event-category code at `i` ends.
pub open spec fn step_event(b: Seq<u8>, i: int) -> Option<int> {
    if 0 <= i && i + 1 <= b.len() && 1 <= b[i] <= 10 {
        Some(i + 1)
    } else {
        None
    }
}

/// Where one threat-intelligence entry at `i` ends.
pub open spec fn step_ti(b: Seq<u8>, i: int) -> Option<int> {
    match step_bytes(b, i) {
        None => None,
        Some(i1) => match step_rank(b, i1, 4) {
            None => None,
            Some(i2) => step_opt_u64(b, i2),
        },
    }
}

/// Where one packet attribute rule at `i` ends.
pub open spec fn step_attr(b: Seq<u8>, i: int) -> Option<int> {
    match step_bytes(b, i) {
        None => None,
        Some(i1) => match step_rank(b, i1, 3) {
            None => None,
            Some(i2) => match step_rank(b, i2, 16) {
                None => None,
                Some(i3) => match step_bytes(b, i3) {
                    None => None,
                    Some(i4) => match step_opt_bytes(b, i4) {
                        None => None,
                        Some(i5) => step_opt_u64(b, i5),
                    },
                },
            },
        },
    }
}

/// Where one confidence rule at `i` ends.
pub open spec fn step_conf(b: Seq<u8>, i: int) -> Option<int> {
    match step_event(b, i) {
        None => None,
        Some(i1) => match step_bytes(b, i1) {
            None => None,
            Some(i2) => match step_u64(b, i2) {
                None => None,
                Some(i3) => step_opt_u64(b, i3),
            },
        },
    }
}

/// Where one response rule at `i` ends.
pub open spec fn step_resp(b: Seq<u8>, i: int) -> Option<int> {
    match step_u64(b, i) {
        None => None,
        Some(i1) => step_rank(b, i1, 3),
    }
}

/// Where `n` threat-intelligence entries starting at `i` end.
pub open spec fn steps_ti_items(b: Seq<u8>, i: int, n: nat) -> Option<int>
    decreases n,
{
    if n == 0 {
        Some(i)
    } else {
        match step_ti(b, i) {
            None => None,
            Some(j) => steps_ti_items(b, j, (n - 1) as nat),
        }
    }
}

/// Where `n` packet attribute rules starting at `i` end.
pub open spec fn steps_attr_items(b: Seq<u8>, i: int, n: nat) -> Option<int>
    decreases n,
{
    if n == 0 {
        Some(i)
    } else {
        match step_attr(b, i) {
            None => None,
            Some(j) => steps_attr_items(b, j, (n - 1) as nat),
        }
    }
}

/// Where `n` confidence rules starting at `i` end.
pub open spec fn steps_conf_items(b: Seq<u8>, i: int, n: nat) -> Option<int>
    decreases n,
{
    if n == 0 {
        Some(i)
    } else {
        match step_conf(b, i) {
            None => None,
            Some(j) => steps_conf_items(b, j, (n - 1) as nat),
        }
    }
}

/// Where `n` response rules starting at `i` end.
pub open spec fn steps_resp_items(b: Seq<u8>, i: int, n: nat) -> Option<int>
    decreases n,
{
    if n == 0 {
        Some(i)
    } else {
        match step_resp(b, i) {
            None => None,
            Some(j) => steps_resp_items(b, j, (n - 1) as nat),
        }
    }
}

/// Where a counted run of threat-intelligence entries at `i` ends.
pub open spec fn step_ti_vec(b: Seq<u8>, i: int) -> Option<int> {
    if 0 <= i && i + 8 <= b.len() {
        let n = dec_u64(b, i);
        if n as int > b.len() {
            None
        } else {
            steps_ti_items(b, i + 8, n as nat)
        }
    } else {
        None
    }
}

/// Where a counted run of packet attribute rules at `i` ends.
pub open spec fn step_attr_vec(b: Seq<u8>, i: int) -> Option<int> {
    if 0 <= i && i + 8 <= b.len() {
        let n = dec_u64(b, i);
        if n as int > b.len() {
            None
        } else {
            steps_attr_items(b, i + 8, n as nat)
        }
    } else {
        None
    }
}

/// Where a counted run of confidence rules at `i` ends.
pub open spec fn step_conf_vec(b: Seq<u8>, i: int) -> Option<int> {
    if 0 <= i && i + 8 <= b.len() {
        let n = dec_u64(b, i);
        if n as int > b.len() {
            None
        } else {
            steps_conf_items(b, i + 8, n as nat)
        }
    } else {
        None
    }
}

/// Where a counted run of response rules at `i` ends.
pub open spec fn step_resp_vec(b: Seq<u8>, i: int) -> Option<int> {
    if 0 <= i && i + 8 <= b.len() {
        let n = dec_u64(b, i);
        if n as int > b.len() {
            None
        } else {
            steps_resp_items(b, i + 8, n as nat)
        }
    } else {
        None
    }
}

/// The payload is one whole, honestly framed policy: the chunk walk
/// succeeds and consumes every byte.
pub open spec fn policy_parses(b: Seq<u8>) -> bool {
    if b.len() < 4 {
        false
    } else {
        match step_bytes(b, 4) {
            None => false,
            Some(i1) => match step_ti_vec(b, i1) {
                None => false,
                Some(i2) => match step_attr_vec(b, i2) {
                    None => false,
                    Some(i3) => match step_conf_vec(b, i3) {
                        None => false,
                        Some(i4) => match step_resp_vec(b, i4) {
                            None => false,
                            Some(i5) => step_u64(b, i5) == Some(b.len() as int),
                        },
                    },
                },
            },
        }
    }
}

proof fn lemma_enc_ti_seq_snoc(s: Seq<Ti>, t: Ti)
    ensures
        enc_ti_seq(s.push(t)) == enc_ti_seq(s) + spec_enc_ti(t),
    decreases s.len(),
{
    if s.len() == 0 {
        assert(s.push(t).drop_first() =~= Seq::<Ti>::empty());
        assert(s.push(t)[0] == t);
        assert(enc_ti_seq(Seq::<Ti>::empty()) == Seq::<u8>::empty());
        assert(enc_ti_seq(s.push(t)) == spec_enc_ti(s.push(t)[0]) + enc_ti_seq(s.push(t).drop_first()));
        assert(enc_ti_seq(s.push(t)) =~= enc_ti_seq(s) + spec_enc_ti(t));
    } else {
        assert(s.push(t).drop_first() =~= s.drop_first().push(t));
        lemma_enc_ti_seq_snoc(s.drop_first(), t);
        assert(s.push(t)[0] == s[0]);
        assert(enc_ti_seq(s.push(t)) =~= enc_ti_seq(s) + spec_enc_ti(t));
    }
}

proof fn lemma_enc_attr_seq_snoc(s: Seq<PacketAttr>, t: PacketAttr)
    ensures
        enc_attr_seq(s.push(t)) == enc_attr_seq(s) + spec_enc_attr(t),
    decreases s.len(),
{
    if s.len() == 0 {
        assert(s.push(t).drop_first() =~= Seq::<PacketAttr>::empty());
        assert(s.push(t)[0] == t);
        assert(enc_attr_seq(Seq::<PacketAttr>::empty()) == Seq::<u8>::empty());
        assert(enc_attr_seq(s.push(t)) == spec_enc_attr(s.push(t)[0]) + enc_attr_seq(s.push(t).drop_first()));
        assert(enc_attr_seq(s.push(t)) =~= enc_attr_seq(s) + spec_enc_attr(t));
    } else {
        assert(s.push(t).drop_first() =~= s.drop_first().push(t));
        lemma_enc_attr_seq_snoc(s.drop_first(), t);
        assert(s.push(t)[0] == s[0]);
        assert(enc_attr_seq(s.push(t)) =~= enc_attr_seq(s) + spec_enc_attr(t));
    }
}

proof fn lemma_enc_conf_seq_snoc(s: Seq<Confidence>, t: Confidence)
    ensures
        enc_conf_seq(s.push(t)) == enc_conf_seq(s) + spec_enc_conf(t),
    decreases s.len(),
{
    if s.len() == 0 {
        assert(s.push(t).drop_first() =~= Seq::<Confidence>::empty());
        assert(s.push(t)[0] == t);
        assert(enc_conf_seq(Seq::<Confidence>::empty()) == Seq::<u8>::empty());
        assert(enc_conf_seq(s.push(t)) == spec_enc_conf(s.push(t)[0]) + enc_conf_seq(s.push(t).drop_first()));
        assert(enc_conf_seq(s.push(t)) =~= enc_conf_seq(s) + spec_enc_conf(t));
    } else {
        assert(s.push(t).drop_first() =~= s.drop_first().push(t));
        lemma_enc_conf_seq_snoc(s.drop_first(), t);
        assert(s.push(t)[0] == s[0]);
        assert(enc_conf_seq(s.push(t)) =~= enc_conf_seq(s) + spec_enc_conf(t));
    }
}

proof fn lemma_enc_resp_seq_snoc(s: Seq<Response>, t: Response)
    ensures
        enc_resp_seq(s.push(t)) == enc_resp_seq(s) + spec_enc_resp(t),
    decreases s.len(),
{
    if s.len() == 0 {
        assert(s.push(t).drop_first() =~= Seq::<Response>::empty());
        assert(s.push(t)[0] == t);
        assert(enc_resp_seq(Seq::<Response>::empty()) == Seq::<u8>::empty());
        assert(enc_resp_seq(s.push(t)) == spec_enc_resp(s.push(t)[0]) + enc_resp_seq(s.push(t).drop_first()));
        assert(enc_resp_seq(s.push(t)) =~= enc_resp_seq(s) + spec_enc_resp(t));
    } else {
        assert(s.push(t).drop_first() =~= s.drop_first().push(t));
        lemma_enc_resp_seq_snoc(s.drop_first(), t);
        assert(s.push(t)[0] == s[0]);
        assert(enc_resp_seq(s.push(t)) =~= enc_resp_seq(s) + spec_enc_resp(t));
    }
}

/// Appends the little-endian bytes of a 64-bit value.
fn push_u64(out: &mut Vec<u8>, x: u64)
    ensures
        final(out)@ == old(out)@ + u64_le(x),
{
    proof {
        assert(x & 0xff < 256 && (x >> 8) & 0xff < 256 && (x >> 16) & 0xff < 256 && (x >> 24)
            & 0xff < 256 && (x >> 32) & 0xff < 256 && (x >> 40) & 0xff < 256 && (x >> 48) & 0xff
            < 256 && (x >> 56) & 0xff < 256) by (bit_vector);
    }
    out.push((x & 0xff) as u8);
    out.push(((x >> 8) & 0xff) as u8);
    out.push(((x >> 16) & 0xff) as u8);
    out.push(((x >> 24) & 0xff) as u8);
    out.push(((x >> 32) & 0xff) as u8);
    out.push(((x >> 40) & 0xff) as u8);
    out.push(((x >> 48) & 0xff) as u8);
    out.push(((x >> 56) & 0xff) as u8);
    proof {
        assert(out@ =~= old(out)@ + u64_le(x));
    }
}

/// Appends a length-framed byte string.
fn push_bytes(out: &mut Vec<u8>, b: &Vec<u8>)
    ensures
        final(out)@ == old(out)@ + enc_bytes(b@),
{
    push_u64(out, b.len() as u64);
    let ghost mid = out@;
    let mut i: usize = 0;
    while i < b.len()
        invariant
            0 <= i <= b@.len(),
            out@ == mid + b@.take(i as int),
        decreases b.len() - i,
    {
        out.push(b[i]);
        proof {
            assert(b@.take(i + 1) =~= b@.take(i as int).push(b@[i as int]));
            assert(out@ =~= mid + b@.take(i + 1));
        }
        i = i + 1;
    }
    proof {
        assert(b@.take(b@.len() as int) =~= b@);
        assert(out@ =~= old(out)@ + enc_bytes(b@));
    }
}

/// Appends a tagged optional 64-bit value.
fn push_opt_u64(out: &mut Vec<u8>, o: &Option<u64>)
    ensures
        final(out)@ == old(out)@ + enc_opt_u64(*o),
{
    match o {
        None => {
            out.push(0u8);
            proof {
                assert(out@ =~= old(out)@ + enc_opt_u64(None::<u64>));
            }
        },
        Some(x) => {
            out.push(1u8);
            push_u64(out, *x);
            proof {
                assert(out@ =~= old(out)@ + enc_opt_u64(Some(*x)));
            }
        },
    }
}

/// Appends a tagged optional byte string.
fn push_opt_bytes(out: &mut Vec<u8>, o: &Option<Vec<u8>>)
    ensures
        final(out)@ == old(out)@ + enc_opt_bytes(opt_bytes_model(o)),
{
    match o {
        None => {
            out.push(0u8);
            proof {
                assert(out@ =~= old(out)@ + enc_opt_bytes(None::<Seq<u8>>));
            }
        },
        Some(b) => {
            out.push(1u8);
            push_bytes(out, b);
            proof {
                assert(out@ =~= old(out)@ + enc_opt_bytes(Some(b@)));
            }
        },
    }
}

/// Appends one threat-intelligence entry.
fn push_ti(out: &mut Vec<u8>, t: &Ti)
    ensures
        final(out)@ == old(out)@ + spec_enc_ti(*t),
{
    push_bytes(out, &t.ti_name);
    out.push(crate::types::ti_cmp_kind_rank_exec(t.kind));
    push_opt_u64(out, &t.weight);
    proof {
        assert(out@ =~= old(out)@ + spec_enc_ti(*t));
    }
}

/// Appends one packet attribute rule.
fn push_attr(out: &mut Vec<u8>, a: &PacketAttr)
    ensures
        final(out)@ == old(out)@ + spec_enc_attr(*a),
{
    push_bytes(out, &a.attr_name);
    out.push(crate::types::value_kind_rank_exec(a.value_kind));
    out.push(crate::types::attr_cmp_kind_rank_exec(a.cmp_kind));
    push_bytes(out, &a.first_value);
    push_opt_bytes(out, &a.second_value);
    push_opt_u64(out, &a.weight);
    proof {
        assert(out@ =~= old(out)@ + spec_enc_attr(*a));
    }
}

/// Appends one confidence rule.
fn push_conf(out: &mut Vec<u8>, c: &Confidence)
    ensures
        final(out)@ == old(out)@ + spec_enc_conf(*c),
{
    out.push(c.threat_category.to_u8());
    push_bytes(out, &c.threat_kind);
    push_u64(out, c.confidence);
    push_opt_u64(out, &c.weight);
    proof {
        assert(out@ =~= old(out)@ + spec_enc_conf(*c));
    }
}

/// Appends one response rule.
fn push_resp(out: &mut Vec<u8>, r: &Response)
    ensures
        final(out)@ == old(out)@ + spec_enc_resp(*r),
{
    push_u64(out, r.minimum_score);
    out.push(crate::types::response_kind_rank_exec(r.kind));
    proof {
        assert(out@ =~= old(out)@ + spec_enc_resp(*r));
    }
}

/// Serializes a whole policy into its canonical payload.
pub fn encode_policy(p: &TriagePolicy) -> (r: Vec<u8>)
    ensures
        r@ == spec_enc_policy(*p),
{
    let mut out: Vec<u8> = Vec::new();
    proof {
        let x = p.id;
        assert(x & 0xff < 256 && (x >> 8) & 0xff < 256 && (x >> 16) & 0xff < 256 && (x >> 24)
            & 0xff < 256) by (bit_vector);
    }
    out.push((p.id & 0xff) as u8);
    out.push(((p.id >> 8) & 0xff) as u8);
    out.push(((p.id >> 16) & 0xff) as u8);
    out.push(((p.id >> 24) & 0xff) as u8);
    proof {
        assert(out@ =~= Seq::<u8>::empty() + u32_le(p.id));
    }
    push_bytes(&mut out, &p.name);
    push_u64(&mut out, p.ti_db.len() as u64);
    let ghost base_ti = out@;
    let mut i: usize = 0;
    while i < p.ti_db.len()
        invariant
            0 <= i <= p.ti_db@.len(),
            out@ == base_ti + enc_ti_seq(p.ti_db@.take(i as int)),
        decreases p.ti_db.len() - i,
    {
        push_ti(&mut out, &p.ti_db[i]);
        proof {
            assert(p.ti_db@.take(i + 1) =~= p.ti_db@.take(i as int).push(p.ti_db@[i as int]));
            lemma_enc_ti_seq_snoc(p.ti_db@.take(i as int), p.ti_db@[i as int]);
            assert(out@ =~= base_ti + enc_ti_seq(p.ti_db@.take(i + 1)));
        }
        i = i + 1;
    }
    proof {
        assert(p.ti_db@.take(p.ti_db@.len() as int) =~= p.ti_db@);
    }
    push_u64(&mut out, p.packet_attr.len() as u64);
    let ghost base_attr = out@;
    let mut i: usize = 0;
    while i < p.packet_attr.len()
        invariant
            0 <= i <= p.packet_attr@.len(),
            out@ == base_attr + enc_attr_seq(p.packet_attr@.take(i as int)),
        decreases p.packet_attr.len() - i,
    {
        push_attr(&mut out, &p.packet_attr[i]);
        proof {
            assert(p.packet_attr@.take(i + 1) =~= p.packet_attr@.take(i as int).push(
                p.packet_attr@[i as int],
            ));
            lemma_enc_attr_seq_snoc(p.packet_attr@.take(i as int), p.packet_attr@[i as int]);
            assert(out@ =~= base_attr + enc_attr_seq(p.packet_attr@.take(i + 1)));
        }
        i = i + 1;
    }
    proof {
        assert(p.packet_attr@.take(p.packet_attr@.len() as int) =~= p.packet_attr@);
    }
    push_u64(&mut out, p.confidence.len() as u64);
    let ghost base_conf = out@;
    let mut i: usize = 0;
    while i < p.confidence.len()
        invariant
            0 <= i <= p.confidence@.len(),
            out@ == base_conf + enc_conf_seq(p.confidence@.take(i as int)),
        decreases p.confidence.len() - i,
    {
        push_conf(&mut out, &p.confidence[i]);
        proof {
            assert(p.confidence@.take(i + 1) =~= p.confidence@.take(i as int).push(
                p.confidence@[i as int],
            ));
            lemma_enc_conf_seq_snoc(p.confidence@.take(i as int), p.confidence@[i as int]);
            assert(out@ =~= base_conf + enc_conf_seq(p.confidence@.take(i + 1)));
        }
        i = i + 1;
    }
    proof {
        assert(p.confidence@.take(p.confidence@.len() as int) =~= p.confidence@);
    }
    push_u64(&mut out, p.response.len() as u64);
    let ghost base_resp = out@;
    let mut i: usize = 0;
    while i < p.response.len()
        invariant
            0 <= i <= p.response@.len(),
            out@ == base_resp + enc_resp_seq(p.response@.take(i as int)),
        decreases p.response.len() - i,
    {
        push_resp(&mut out, &p.response[i]);
        proof {
            assert(p.response@.take(i + 1) =~= p.response@.take(i as int).push(
                p.response@[i as int],
            ));
            lemma_enc_resp_seq_snoc(p.response@.take(i as int), p.response@[i as int]);
            assert(out@ =~= base_resp + enc_resp_seq(p.response@.take(i + 1)));
        }
        i = i + 1;
    }
    proof {
        assert(p.response@.take(p.response@.len() as int) =~= p.response@);
    }
    push_u64(&mut out, p.creation_time as u64);
    proof {
        assert(out@ =~= spec_enc_policy(*p));
    }
    out
}

impl Indexable for TriagePolicy {
    open spec fn spec_key(&self) -> Seq<u8> {
        self.name@
    }

    open spec fn spec_index(&self) -> u32 {
        self.id
    }

    open spec fn spec_value(&self) -> Seq<u8> {
        spec_enc_policy(*self)
    }

    open spec fn spec_with_index(self, index: u32) -> TriagePolicy {
        TriagePolicy { id: index, ..self }
    }

    open spec fn spec_indexed_key(key: Seq<u8>, index: u32) -> Seq<u8> {
        key
    }

    fn key(&self) -> (r: Vec<u8>) {
        copy_bytes(&self.name)
    }

    fn index(&self) -> (r: u32) {
        self.id
    }

    fn set_index(&mut self, index: u32) {
        self.id = index;
    }

    fn value(&self) -> (r: Vec<u8>) {
        encode_policy(self)
    }

    fn make_indexed_key(key: Vec<u8>, index: u32) -> (r: Vec<u8>) {
        key
    }
}

/// Reads one byte.
fn rd_byte(b: &Vec<u8>, i: usize) -> (r: Result<(u8, usize), Error>)
    ensures
        match r {
            Ok((v, j)) => j == i + 1 && j <= b@.len() && b@.subrange(i as int, j as int) == seq![v]
                && v == b@[i as int] && step_byte(b@, i as int) == Some(j as int),
            Err(e) => e == Error::Corrupt && step_byte(b@, i as int) is None,
        },
{
    if i < b.len() {
        proof {
            assert(b@.subrange(i as int, i + 1) =~= seq![b@[i as int]]);
        }
        Ok((b[i], i + 1))
    } else {
        Err(Error::Corrupt)
    }
}

/// Reads a little-endian 64-bit value.
fn rd_u64(b: &Vec<u8>, i: usize) -> (r: Result<(u64, usize), Error>)
    ensures
        match r {
            Ok((x, j)) => j == i + 8 && j <= b@.len() && b@.subrange(i as int, j as int) == u64_le(
                x,
            ) && x == dec_u64(b@, i as int) && step_u64(b@, i as int) == Some(j as int),
            Err(e) => e == Error::Corrupt && step_u64(b@, i as int) is None,
        },
{
    if b.len() < 8 || i > b.len() - 8 {
        return Err(Error::Corrupt);
    }
    let b0 = b[i];
    let b1 = b[i + 1];
    let b2 = b[i + 2];
    let b3 = b[i + 3];
    let b4 = b[i + 4];
    let b5 = b[i + 5];
    let b6 = b[i + 6];
    let b7 = b[i + 7];
    let x: u64 = (b0 as u64) | ((b1 as u64) << 8) | ((b2 as u64) << 16) | ((b3 as u64) << 24) | ((
    b4 as u64) << 32) | ((b5 as u64) << 40) | ((b6 as u64) << 48) | ((b7 as u64) << 56);
    proof {
        assert((((b0 as u64) | ((b1 as u64) << 8) | ((b2 as u64) << 16) | ((b3 as u64) << 24) | ((b4 as u64) << 32) | ((b5 as u64) << 40) | ((b6 as u64) << 48) | ((b7 as u64) << 56)) & 0xff) as u8 == b0 && ((((b0 as u64) | ((b1 as u64) << 8) | ((b2 as u64) << 16) | ((b3 as u64) << 24) | ((b4 as u64) << 32) | ((b5 as u64) << 40) | ((b6 as u64) << 48) | ((b7 as u64) << 56)) >> 8) & 0xff) as u8 == b1 && ((((b0 as u64) | ((b1 as u64) << 8) | ((b2 as u64) << 16) | ((b3 as u64) << 24) | ((b4 as u64) << 32) | ((b5 as u64) << 40) | ((b6 as u64) << 48) | ((b7 as u64) << 56)) >> 16) & 0xff) as u8 == b2 && ((((b0 as u64) | ((b1 as u64) << 8) | ((b2 as u64) << 16) | ((b3 as u64) << 24) | ((b4 as u64) << 32) | ((b5 as u64) << 40) | ((b6 as u64) << 48) | ((b7 as u64) << 56)) >> 24) & 0xff) as u8 == b3 && ((((b0 as u64) | ((b1 as u64) << 8) | ((b2 as u64) << 16) | ((b3 as u64) << 24) | ((b4 as u64) << 32) | ((b5 as u64) << 40) | ((b6 as u64) << 48) | ((b7 as u64) << 56)) >> 32) & 0xff) as u8 == b4 && ((((b0 as u64) | ((b1 as u64) << 8) | ((b2 as u64) << 16) | ((b3 as u64) << 24) | ((b4 as u64) << 32) | ((b5 as u64) << 40) | ((b6 as u64) << 48) | ((b7 as u64) << 56)) >> 40) & 0xff) as u8 == b5 && ((((b0 as u64) | ((b1 as u64) << 8) | ((b2 as u64) << 16) | ((b3 as u64) << 24) | ((b4 as u64) << 32) | ((b5 as u64) << 40) | ((b6 as u64) << 48) | ((b7 as u64) << 56)) >> 48) & 0xff) as u8 == b6 && ((((b0 as u64) | ((b1 as u64) << 8) | ((b2 as u64) << 16) | ((b3 as u64) << 24) | ((b4 as u64) << 32) | ((b5 as u64) << 40) | ((b6 as u64) << 48) | ((b7 as u64) << 56)) >> 56) & 0xff) as u8 == b7) by (bit_vector);
        assert(b@.subrange(i as int, i + 8) =~= u64_le(x));
    }
    Ok((x, i + 8))
}

/// Reads a length-framed byte string.
fn rd_bytes(b: &Vec<u8>, i: usize) -> (r: Result<(Vec<u8>, usize), Error>)
    ensures
        match r {
            Ok((v, j)) => i <= j <= b@.len() && b@.subrange(i as int, j as int) == enc_bytes(v@)
                && step_bytes(b@, i as int) == Some(j as int),
            Err(e) => e == Error::Corrupt && step_bytes(b@, i as int) is None,
        },
{
    let (n, mid) = match rd_u64(b, i) {
        Ok(p) => p,
        Err(e) => {
            return Err(e);
        },
    };
    if n > (b.len() - mid) as u64 {
        return Err(Error::Corrupt);
    }
    let m = n as usize;
    proof {
        assert(m <= b@.len() - mid);
    }
    let blen = b.len();
    let mut v: Vec<u8> = Vec::new();
    let mut k: usize = 0;
    while k < m
        invariant
            0 <= k <= m,
            mid + m <= blen,
            blen == b@.len(),
            v@ == b@.subrange(mid as int, mid + k),
        decreases m - k,
    {
        v.push(b[mid + k]);
        proof {
            assert(b@.subrange(mid as int, mid + k + 1) =~= b@.subrange(mid as int, mid + k).push(
                b@[mid + k],
            ));
        }
        k = k + 1;
    }
    proof {
        assert(v@.len() == m);
        assert(m as u64 == n);
        assert(b@.subrange(i as int, mid + m) =~= b@.subrange(i as int, mid as int) + b@.subrange(
            mid as int,
            mid + m,
        ));
        assert(b@.subrange(i as int, mid + m) =~= enc_bytes(v@));
    }
    Ok((v, mid + m))
}

/// Reads a tagged optional 64-bit value.
fn rd_opt_u64(b: &Vec<u8>, i: usize) -> (r: Result<(Option<u64>, usize), Error>)
    ensures
        match r {
            Ok((o, j)) => i <= j <= b@.len() && b@.subrange(i as int, j as int) == enc_opt_u64(o)
                && step_opt_u64(b@, i as int) == Some(j as int),
            Err(e) => e == Error::Corrupt && step_opt_u64(b@, i as int) is None,
        },
{
    let (tag, mid) = match rd_byte(b, i) {
        Ok(p) => p,
        Err(e) => {
            return Err(e);
        },
    };
    if tag == 0 {
        return Ok((None, mid));
    }
    if tag != 1 {
        return Err(Error::Corrupt);
    }
    let (x, j) = match rd_u64(b, mid) {
        Ok(p) => p,
        Err(e) => {
            return Err(e);
        },
    };
    proof {
        assert(b@.subrange(i as int, j as int) =~= b@.subrange(i as int, mid as int) + b@.subrange(
            mid as int,
            j as int,
        ));
        assert(b@.subrange(i as int, j as int) =~= enc_opt_u64(Some(x)));
    }
    Ok((Some(x), j))
}

/// Reads a tagged optional byte string.
fn rd_opt_bytes(b: &Vec<u8>, i: usize) -> (r: Result<(Option<Vec<u8>>, usize), Error>)
    ensures
        match r {
            Ok((o, j)) => i <= j <= b@.len() && b@.subrange(i as int, j as int) == enc_opt_bytes(
                opt_bytes_model(&o),
            ) && step_opt_bytes(b@, i as int) == Some(j as int),
            Err(e) => e == Error::Corrupt && step_opt_bytes(b@, i as int) is None,
        },
{
    let (tag, mid) = match rd_byte(b, i) {
        Ok(p) => p,
        Err(e) => {
            return Err(e);
        },
    };
    if tag == 0 {
        return Ok((None, mid));
    }
    if tag != 1 {
        return Err(Error::Corrupt);
    }
    let (v, j) = match rd_bytes(b, mid) {
        Ok(p) => p,
        Err(e) => {
            return Err(e);
        },
    };
    proof {
        assert(b@.subrange(i as int, j as int) =~= b@.subrange(i as int, mid as int) + b@.subrange(
            mid as int,
            j as int,
        ));
        assert(b@.subrange(i as int, j as int) =~= enc_opt_bytes(Some(v@)));
    }
    Ok((Some(v), j))
}

/// Reads one threat-intelligence entry.
fn rd_ti(b: &Vec<u8>, i: usize) -> (r: Result<(Ti, usize), Error>)
    ensures
        match r {
            Ok((t, j)) => i <= j <= b@.len() && b@.subrange(i as int, j as int) == spec_enc_ti(t)
                && step_ti(b@, i as int) == Some(j as int),
            Err(e) => e == Error::Corrupt && step_ti(b@, i as int) is None,
        },
{
    let (name, i1) = match rd_bytes(b, i) {
        Ok(p) => p,
        Err(e) => {
            return Err(e);
        },
    };
    let (kb, i2) = match rd_byte(b, i1) {
        Ok(p) => p,
        Err(e) => {
            return Err(e);
        },
    };
    let kind = match kb {
        0u8 => crate::types::TiCmpKind::IpAddress,
        1u8 => crate::types::TiCmpKind::Domain,
        2u8 => crate::types::TiCmpKind::Hostname,
        3u8 => crate::types::TiCmpKind::Uri,
        _ => {
            return Err(Error::Corrupt);
        },
    };
    let (weight, j) = match rd_opt_u64(b, i2) {
        Ok(p) => p,
        Err(e) => {
            return Err(e);
        },
    };
    let t = Ti { ti_name: name, kind, weight };
    proof {
        assert(b@.subrange(i as int, j as int) =~= b@.subrange(i as int, i1 as int) + b@.subrange(
            i1 as int,
            i2 as int,
        ) + b@.subrange(i2 as int, j as int));
        assert(b@.subrange(i as int, j as int) =~= spec_enc_ti(t));
    }
    Ok((t, j))
}

/// Reads one packet attribute rule.
#[verifier::rlimit(50)]
fn rd_attr(b: &Vec<u8>, i: usize) -> (r: Result<(PacketAttr, usize), Error>)
    ensures
        match r {
            Ok((a, j)) => i <= j <= b@.len() && b@.subrange(i as int, j as int) == spec_enc_attr(
                a,
            ) && step_attr(b@, i as int) == Some(j as int),
            Err(e) => e == Error::Corrupt && step_attr(b@, i as int) is None,
        },
{
    let (name, i1) = match rd_bytes(b, i) {
        Ok(p) => p,
        Err(e) => {
            return Err(e);
        },
    };
    let (vb, i2) = match rd_byte(b, i1) {
        Ok(p) => p,
        Err(e) => {
            return Err(e);
        },
    };
    let value_kind = match vb {
        0u8 => crate::types::ValueKind::String,
        1u8 => crate::types::ValueKind::Integer,
        2u8 => crate::types::ValueKind::Float,
        _ => {
            return Err(Error::Corrupt);
        },
    };
    let (cb, i3) = match rd_byte(b, i2) {
        Ok(p) => p,
        Err(e) => {
            return Err(e);
        },
    };
    let cmp_kind = match cb {
        0u8 => crate::types::AttrCmpKind::Less,
        1u8 => crate::types::AttrCmpKind::Equal,
        2u8 => crate::types::AttrCmpKind::Greater,
        3u8 => crate::types::AttrCmpKind::LessOrEqual,
        4u8 => crate::types::AttrCmpKind::GreaterOrEqual,
        5u8 => crate::types::AttrCmpKind::Contain,
        6u8 => crate::types::AttrCmpKind::OpenRange,
        7u8 => crate::types::AttrCmpKind::CloseRange,
        8u8 => crate::types::AttrCmpKind::LeftOpenRange,
        9u8 => crate::types::AttrCmpKind::RightOpenRange,
        10u8 => crate::types::AttrCmpKind::NotEqual,
        11u8 => crate::types::AttrCmpKind::NotContain,
        12u8 => crate::types::AttrCmpKind::NotOpenRange,
        13u8 => crate::types::AttrCmpKind::NotCloseRange,
        14u8 => crate::types::AttrCmpKind::NotLeftOpenRange,
        15u8 => crate::types::AttrCmpKind::NotRightOpenRange,
        _ => {
            return Err(Error::Corrupt);
        },
    };
    let (first_value, i4) = match rd_bytes(b, i3) {
        Ok(p) => p,
        Err(e) => {
            return Err(e);
        },
    };
    let (second_value, i5) = match rd_opt_bytes(b, i4) {
        Ok(p) => p,
        Err(e) => {
            return Err(e);
        },
    };
    let (weight, j) = match rd_opt_u64(b, i5) {
        Ok(p) => p,
        Err(e) => {
            return Err(e);
        },
    };
    let a = PacketAttr { attr_name: name, value_kind, cmp_kind, first_value, second_value, weight };
    proof {
        assert(b@.subrange(i1 as int, i3 as int) =~= b@.subrange(i1 as int, i2 as int)
            + b@.subrange(i2 as int, i3 as int));
        assert(b@.subrange(i as int, i3 as int) =~= b@.subrange(i as int, i1 as int)
            + b@.subrange(i1 as int, i3 as int));
        assert(b@.subrange(i as int, i4 as int) =~= b@.subrange(i as int, i3 as int)
            + b@.subrange(i3 as int, i4 as int));
        assert(b@.subrange(i as int, i5 as int) =~= b@.subrange(i as int, i4 as int)
            + b@.subrange(i4 as int, i5 as int));
        assert(b@.subrange(i as int, j as int) =~= b@.subrange(i as int, i5 as int)
            + b@.subrange(i5 as int, j as int));
        assert(b@.subrange(i1 as int, i3 as int) =~= seq![
            value_kind_rank(a.value_kind) as u8,
            attr_cmp_kind_rank(a.cmp_kind) as u8,
        ]);
        assert(b@.subrange(i as int, j as int) =~= spec_enc_attr(a));
    }
    Ok((a, j))
}

/// Reads one confidence rule.
fn rd_conf(b: &Vec<u8>, i: usize) -> (r: Result<(Confidence, usize), Error>)
    ensures
        match r {
            Ok((c, j)) => i <= j <= b@.len() && b@.subrange(i as int, j as int) == spec_enc_conf(
                c,
            ) && step_conf(b@, i as int) == Some(j as int),
            Err(e) => e == Error::Corrupt && step_conf(b@, i as int) is None,
        },
{
    let (cb, i1) = match rd_byte(b, i) {
        Ok(p) => p,
        Err(e) => {
            return Err(e);
        },
    };
    let threat_category = match crate::types::EventCategory::from_u8(cb) {
        Ok(c) => c,
        Err(e) => {
            return Err(e);
        },
    };
    let (threat_kind, i2) = match rd_bytes(b, i1) {
        Ok(p) => p,
        Err(e) => {
            return Err(e);
        },
    };
    let (confidence, i3) = match rd_u64(b, i2) {
        Ok(p) => p,
        Err(e) => {
            return Err(e);
        },
    };
    let (weight, j) = match rd_opt_u64(b, i3) {
        Ok(p) => p,
        Err(e) => {
            return Err(e);
        },
    };
    let c = Confidence { threat_category, threat_kind, confidence, weight };
    proof {
        assert(b@.subrange(i as int, j as int) =~= b@.subrange(i as int, i1 as int) + b@.subrange(
            i1 as int,
            i2 as int,
        ) + b@.subrange(i2 as int, i3 as int) + b@.subrange(i3 as int, j as int));
        assert(b@.subrange(i as int, j as int) =~= spec_enc_conf(c));
    }
    Ok((c, j))
}

/// Reads one response rule.
fn rd_resp(b: &Vec<u8>, i: usize) -> (r: Result<(Response, usize), Error>)
    ensures
        match r {
            Ok((v, j)) => i <= j <= b@.len() && b@.subrange(i as int, j as int) == spec_enc_resp(
                v,
            ) && step_resp(b@, i as int) == Some(j as int),
            Err(e) => e == Error::Corrupt && step_resp(b@, i as int) is None,
        },
{
    let (minimum_score, i1) = match rd_u64(b, i) {
        Ok(p) => p,
        Err(e) => {
            return Err(e);
        },
    };
    let (kb, j) = match rd_byte(b, i1) {
        Ok(p) => p,
        Err(e) => {
            return Err(e);
        },
    };
    let kind = match kb {
        0u8 => crate::types::ResponseKind::Manual,
        1u8 => crate::types::ResponseKind::Blacklist,
        2u8 => crate::types::ResponseKind::Whitelist,
        _ => {
            return Err(Error::Corrupt);
        },
    };
    let v = Response { minimum_score, kind };
    proof {
        assert(b@.subrange(i as int, j as int) =~= b@.subrange(i as int, i1 as int) + b@.subrange(
            i1 as int,
            j as int,
        ));
        assert(b@.subrange(i as int, j as int) =~= spec_enc_resp(v));
    }
    Ok((v, j))
}


/// A payload split at the recorded cut points into the canonical chunks of
/// a policy is that policy's canonical payload.
#[verifier::rlimit(50)]
proof fn lemma_policy_assembled(
    b: Seq<u8>,
    i1: int,
    i2: int,
    i3: int,
    i4: int,
    i5: int,
    p: TriagePolicy,
)
    requires
        4 <= i1 <= i2 <= i3 <= i4 <= i5 <= b.len(),
        b.subrange(0, 4) == u32_le(p.id),
        b.subrange(4, i1) == enc_bytes(p.name@),
        b.subrange(i1, i2) == u64_le(p.ti_db@.len() as u64) + enc_ti_seq(p.ti_db@),
        b.subrange(i2, i3) == u64_le(p.packet_attr@.len() as u64) + enc_attr_seq(p.packet_attr@),
        b.subrange(i3, i4) == u64_le(p.confidence@.len() as u64) + enc_conf_seq(p.confidence@),
        b.subrange(i4, i5) == u64_le(p.response@.len() as u64) + enc_resp_seq(p.response@),
        b.subrange(i5, b.len() as int) == u64_le(p.creation_time as u64),
    ensures
        b == spec_enc_policy(p),
{
    assert(b.subrange(0, i1) =~= b.subrange(0, 4) + b.subrange(4, i1));
    assert(b.subrange(0, i2) =~= b.subrange(0, i1) + b.subrange(i1, i2));
    assert(b.subrange(0, i3) =~= b.subrange(0, i2) + b.subrange(i2, i3));
    assert(b.subrange(0, i4) =~= b.subrange(0, i3) + b.subrange(i3, i4));
    assert(b.subrange(0, i5) =~= b.subrange(0, i4) + b.subrange(i4, i5));
    assert(b =~= b.subrange(0, i5) + b.subrange(i5, b.len() as int));
    assert(b =~= spec_enc_policy(p));
}

/// Deserializes a canonical policy payload: decoding succeeds exactly on
/// honestly framed whole payloads, in particular on the canonical payload
/// of every policy, and only an exact encoding of the result is accepted.
pub fn decode_policy(b: &Vec<u8>) -> (r: Result<TriagePolicy, Error>)
    ensures
        match r {
            Ok(p) => b@ == spec_enc_policy(p) && policy_parses(b@),
            Err(e) => e == Error::Corrupt && !policy_parses(b@),
        },
        (exists|p2: TriagePolicy| b@ == spec_enc_policy(p2)) ==> r is Ok,
{
    let r = parse_policy(b);
    proof {
        if exists|p2: TriagePolicy| b@ == spec_enc_policy(p2) {
            let p2 = choose|p2: TriagePolicy| b@ == spec_enc_policy(p2);
            lemma_canonical_policy_parses(p2);
        }
    }
    r
}

/// Walks a payload chunk by chunk; accepts exactly the honestly framed
/// whole-payload policies.
fn parse_policy(b: &Vec<u8>) -> (r: Result<TriagePolicy, Error>)
    ensures
        match r {
            Ok(p) => b@ == spec_enc_policy(p) && policy_parses(b@),
            Err(e) => e == Error::Corrupt && !policy_parses(b@),
        },
{
    if b.len() < 4 {
        return Err(Error::Corrupt);
    }
    let id: u32 = (b[0] as u32) | ((b[1] as u32) << 8) | ((b[2] as u32) << 16) | ((b[3]
        as u32) << 24);
    proof {
        let b0 = b@[0];
        let b1 = b@[1];
        let b2 = b@[2];
        let b3 = b@[3];
        assert((((b0 as u32) | ((b1 as u32) << 8) | ((b2 as u32) << 16) | ((b3 as u32) << 24)) & 0xff) as u8 == b0 && ((((b0 as u32) | ((b1 as u32) << 8) | ((b2 as u32) << 16) | ((b3 as u32) << 24)) >> 8) & 0xff) as u8 == b1 && ((((b0 as u32) | ((b1 as u32) << 8) | ((b2 as u32) << 16) | ((b3 as u32) << 24)) >> 16) & 0xff) as u8 == b2 && ((((b0 as u32) | ((b1 as u32) << 8) | ((b2 as u32) << 16) | ((b3 as u32) << 24)) >> 24) & 0xff) as u8 == b3) by (bit_vector);
        assert(b@.subrange(0, 4) =~= u32_le(id));
    }
    let (name, i1) = match rd_bytes(b, 4) {
        Ok(p) => p,
        Err(e) => {
            return Err(e);
        },
    };
    let (ti_db, i2) = match rd_ti_vec(b, i1) {
        Ok(p) => p,
        Err(e) => {
            return Err(e);
        },
    };
    let (packet_attr, i3) = match rd_attr_vec(b, i2) {
        Ok(p) => p,
        Err(e) => {
            return Err(e);
        },
    };
    let (confidence, i4) = match rd_conf_vec(b, i3) {
        Ok(p) => p,
        Err(e) => {
            return Err(e);
        },
    };
    let (response, i5) = match rd_resp_vec(b, i4) {
        Ok(p) => p,
        Err(e) => {
            return Err(e);
        },
    };
    let (time, i6) = match rd_u64(b, i5) {
        Ok(p) => p,
        Err(e) => {
            return Err(e);
        },
    };
    if i6 != b.len() {
        return Err(Error::Corrupt);
    }
    let p = TriagePolicy {
        id,
        name,
        ti_db,
        packet_attr,
        confidence,
        response,
        creation_time: time as i64,
    };
    proof {
        let t: u64 = time;
        assert((t as i64) as u64 == t) by (bit_vector);
        lemma_policy_assembled(b@, i1 as int, i2 as int, i3 as int, i4 as int, i5 as int, p);
    }
    Ok(p)
}


proof fn lemma_u64_round(x: u64)
    ensures
        u64_from_le(
            (x & 0xff) as u8,
            ((x >> 8) & 0xff) as u8,
            ((x >> 16) & 0xff) as u8,
            ((x >> 24) & 0xff) as u8,
            ((x >> 32) & 0xff) as u8,
            ((x >> 40) & 0xff) as u8,
            ((x >> 48) & 0xff) as u8,
            ((x >> 56) & 0xff) as u8,
        ) == x,
{
    assert((((x & 0xff) as u8) as u64) | (((((x >> 8) & 0xff) as u8) as u64) << 8) | (((((x
        >> 16) & 0xff) as u8) as u64) << 16) | (((((x >> 24) & 0xff) as u8) as u64) << 24) | (((((
    x >> 32) & 0xff) as u8) as u64) << 32) | (((((x >> 40) & 0xff) as u8) as u64) << 40) | (((((x
        >> 48) & 0xff) as u8) as u64) << 48) | (((((x >> 56) & 0xff) as u8) as u64) << 56) == x)
        by (bit_vector);
}

/// A 64-bit chunk standing at `i` is read back as itself.
proof fn lemma_step_u64_enc(b: Seq<u8>, i: int, x: u64)
    requires
        0 <= i,
        i + 8 <= b.len(),
        b.subrange(i, i + 8) == u64_le(x),
    ensures
        step_u64(b, i) == Some(i + 8),
        dec_u64(b, i) == x,
{
    assert forall|k: int| 0 <= k < 8 implies b[i + k] == u64_le(x)[k] by {
        assert(b.subrange(i, i + 8)[k] == b[i + k]);
    }
    lemma_u64_round(x);
}

/// A length-framed byte chunk standing at `i` steps to its end.
proof fn lemma_step_bytes_enc(b: Seq<u8>, i: int, d: Seq<u8>)
    requires
        0 <= i,
        d.len() <= u64::MAX,
        i + 8 + d.len() <= b.len(),
        b.subrange(i, i + 8 + d.len()) == enc_bytes(d),
    ensures
        step_bytes(b, i) == Some(i + 8 + d.len()),
{
    assert(b.subrange(i, i + 8) =~= enc_bytes(d).subrange(0, 8));
    assert(enc_bytes(d).subrange(0, 8) =~= u64_le(d.len() as u64));
    lemma_step_u64_enc(b, i, d.len() as u64);
}

/// A tagged optional 64-bit chunk standing at `i` steps to its end.
proof fn lemma_step_opt_u64_enc(b: Seq<u8>, i: int, o: Option<u64>)
    requires
        0 <= i,
        i + enc_opt_u64(o).len() <= b.len(),
        b.subrange(i, i + enc_opt_u64(o).len()) == enc_opt_u64(o),
    ensures
        step_opt_u64(b, i) == Some(i + enc_opt_u64(o).len()),
{
    match o {
        None => {
            assert(b[i] == enc_opt_u64(o)[0]);
        },
        Some(x) => {
            assert(b[i] == enc_opt_u64(o)[0]);
            assert(b.subrange(i + 1, i + 9) =~= enc_opt_u64(o).subrange(1, 9));
            assert(enc_opt_u64(o).subrange(1, 9) =~= u64_le(x));
            lemma_step_u64_enc(b, i + 1, x);
        },
    }
}

/// A tagged optional byte-string chunk standing at `i` steps to its end.
proof fn lemma_step_opt_bytes_enc(b: Seq<u8>, i: int, o: Option<Seq<u8>>)
    requires
        0 <= i,
        o matches Some(d) ==> d.len() <= u64::MAX,
        i + enc_opt_bytes(o).len() <= b.len(),
        b.subrange(i, i + enc_opt_bytes(o).len()) == enc_opt_bytes(o),
    ensures
        step_opt_bytes(b, i) == Some(i + enc_opt_bytes(o).len()),
{
    match o {
        None => {
            assert(b[i] == enc_opt_bytes(o)[0]);
        },
        Some(d) => {
            assert(b[i] == enc_opt_bytes(o)[0]);
            assert(b.subrange(i + 1, i + 9 + d.len()) =~= enc_opt_bytes(o).subrange(
                1,
                9 + d.len() as int,
            ));
            assert(enc_opt_bytes(o).subrange(1, 9 + d.len() as int) =~= enc_bytes(d));
            lemma_step_bytes_enc(b, i + 1, d);
        },
    }
}

/// One encoded threat-intelligence entry standing at `i` steps to its end.
proof fn lemma_step_ti_enc(b: Seq<u8>, i: int, t: Ti)
    requires
        0 <= i,
        i + spec_enc_ti(t).len() <= b.len(),
        b.subrange(i, i + spec_enc_ti(t).len()) == spec_enc_ti(t),
    ensures
        step_ti(b, i) == Some(i + spec_enc_ti(t).len()),
{
    vstd::std_specs::vec::axiom_spec_len(&t.ti_name);
    let e = spec_enc_ti(t);
    let c1 = enc_bytes(t.ti_name@).len() as int;
    assert(b.subrange(i, i + c1) =~= e.subrange(0, c1));
    assert(e.subrange(0, c1) =~= enc_bytes(t.ti_name@));
    lemma_step_bytes_enc(b, i, t.ti_name@);
    let i1 = i + c1;
    assert(b[i1] == e[c1]);
    assert(e[c1] == ti_cmp_kind_rank(t.kind) as u8);
    assert(ti_cmp_kind_rank(t.kind) < 4);
    let i2 = i1 + 1;
    assert(b.subrange(i2, i + e.len()) =~= e.subrange(c1 + 1, e.len() as int));
    assert(e.subrange(c1 + 1, e.len() as int) =~= enc_opt_u64(t.weight));
    lemma_step_opt_u64_enc(b, i2, t.weight);
}

/// One encoded packet attribute rule standing at `i` steps to its end.
#[verifier::rlimit(50)]
proof fn lemma_step_attr_enc(b: Seq<u8>, i: int, a: PacketAttr)
    requires
        0 <= i,
        i + spec_enc_attr(a).len() <= b.len(),
        b.subrange(i, i + spec_enc_attr(a).len()) == spec_enc_attr(a),
    ensures
        step_attr(b, i) == Some(i + spec_enc_attr(a).len()),
{
    vstd::std_specs::vec::axiom_spec_len(&a.attr_name);
    vstd::std_specs::vec::axiom_spec_len(&a.first_value);
    let e = spec_enc_attr(a);
    let c1 = enc_bytes(a.attr_name@).len() as int;
    assert(b.subrange(i, i + c1) =~= e.subrange(0, c1));
    assert(e.subrange(0, c1) =~= enc_bytes(a.attr_name@));
    lemma_step_bytes_enc(b, i, a.attr_name@);
    let i1 = i + c1;
    assert(b[i1] == e[c1] && b[i1 + 1] == e[c1 + 1]);
    assert(e[c1] == value_kind_rank(a.value_kind) as u8);
    assert(e[c1 + 1] == attr_cmp_kind_rank(a.cmp_kind) as u8);
    assert(value_kind_rank(a.value_kind) < 3);
    assert(attr_cmp_kind_rank(a.cmp_kind) < 16);
    let i3 = i1 + 2;
    let c4 = enc_bytes(a.first_value@).len() as int;
    assert(b.subrange(i3, i3 + c4) =~= e.subrange(c1 + 2, c1 + 2 + c4));
    assert(e.subrange(c1 + 2, c1 + 2 + c4) =~= enc_bytes(a.first_value@));
    lemma_step_bytes_enc(b, i3, a.first_value@);
    let i4 = i3 + c4;
    let c5 = enc_opt_bytes(opt_bytes_model(&a.second_value)).len() as int;
    assert(b.subrange(i4, i4 + c5) =~= e.subrange(c1 + 2 + c4, c1 + 2 + c4 + c5));
    assert(e.subrange(c1 + 2 + c4, c1 + 2 + c4 + c5) =~= enc_opt_bytes(
        opt_bytes_model(&a.second_value),
    ));
    match &a.second_value {
        Some(d) => {
            vstd::std_specs::vec::axiom_spec_len(d);
        },
        None => {},
    }
    lemma_step_opt_bytes_enc(b, i4, opt_bytes_model(&a.second_value));
    let i5 = i4 + c5;
    assert(b.subrange(i5, i + e.len()) =~= e.subrange(c1 + 2 + c4 + c5, e.len() as int));
    assert(e.subrange(c1 + 2 + c4 + c5, e.len() as int) =~= enc_opt_u64(a.weight));
    lemma_step_opt_u64_enc(b, i5, a.weight);
}

/// One encoded confidence rule standing at `i` steps to its end.
proof fn lemma_step_conf_enc(b: Seq<u8>, i: int, c: Confidence)
    requires
        0 <= i,
        i + spec_enc_conf(c).len() <= b.len(),
        b.subrange(i, i + spec_enc_conf(c).len()) == spec_enc_conf(c),
    ensures
        step_conf(b, i) == Some(i + spec_enc_conf(c).len()),
{
    vstd::std_specs::vec::axiom_spec_len(&c.threat_kind);
    let e = spec_enc_conf(c);
    assert(b[i] == e[0]);
    assert(e[0] == event_category_code(c.threat_category));
    assert(1 <= event_category_code(c.threat_category) <= 10);
    let i1 = i + 1;
    let c2 = enc_bytes(c.threat_kind@).len() as int;
    assert(b.subrange(i1, i1 + c2) =~= e.subrange(1, 1 + c2));
    assert(e.subrange(1, 1 + c2) =~= enc_bytes(c.threat_kind@));
    lemma_step_bytes_enc(b, i1, c.threat_kind@);
    let i2 = i1 + c2;
    assert(b.subrange(i2, i2 + 8) =~= e.subrange(1 + c2, 1 + c2 + 8));
    assert(e.subrange(1 + c2, 1 + c2 + 8) =~= u64_le(c.confidence));
    lemma_step_u64_enc(b, i2, c.confidence);
    let i3 = i2 + 8;
    assert(b.subrange(i3, i + e.len()) =~= e.subrange(1 + c2 + 8, e.len() as int));
    assert(e.subrange(1 + c2 + 8, e.len() as int) =~= enc_opt_u64(c.weight));
    lemma_step_opt_u64_enc(b, i3, c.weight);
}

/// One encoded response rule standing at `i` steps to its end.
proof fn lemma_step_resp_enc(b: Seq<u8>, i: int, v: Response)
    requires
        0 <= i,
        i + spec_enc_resp(v).len() <= b.len(),
        b.subrange(i, i + spec_enc_resp(v).len()) == spec_enc_resp(v),
    ensures
        step_resp(b, i) == Some(i + spec_enc_resp(v).len()),
{
    let e = spec_enc_resp(v);
    assert(b.subrange(i, i + 8) =~= e.subrange(0, 8));
    assert(e.subrange(0, 8) =~= u64_le(v.minimum_score));
    lemma_step_u64_enc(b, i, v.minimum_score);
    assert(b[i + 8] == e[8]);
    assert(e[8] == response_kind_rank(v.kind) as u8);
    assert(response_kind_rank(v.kind) < 3);
}

proof fn lemma_enc_ti_seq_min(s: Seq<Ti>)
    ensures
        enc_ti_seq(s).len() >= s.len(),
    decreases s.len(),
{
    if s.len() > 0 {
        lemma_enc_ti_seq_min(s.drop_first());
    }
}

proof fn lemma_enc_attr_seq_min(s: Seq<PacketAttr>)
    ensures
        enc_attr_seq(s).len() >= s.len(),
    decreases s.len(),
{
    if s.len() > 0 {
        lemma_enc_attr_seq_min(s.drop_first());
    }
}

proof fn lemma_enc_conf_seq_min(s: Seq<Confidence>)
    ensures
        enc_conf_seq(s).len() >= s.len(),
    decreases s.len(),
{
    if s.len() > 0 {
        lemma_enc_conf_seq_min(s.drop_first());
    }
}

proof fn lemma_enc_resp_seq_min(s: Seq<Response>)
    ensures
        enc_resp_seq(s).len() >= s.len(),
    decreases s.len(),
{
    if s.len() > 0 {
        lemma_enc_resp_seq_min(s.drop_first());
    }
}

proof fn lemma_steps_ti_items_enc(b: Seq<u8>, i: int, s: Seq<Ti>)
    requires
        0 <= i,
        i + enc_ti_seq(s).len() <= b.len(),
        b.subrange(i, i + enc_ti_seq(s).len()) == enc_ti_seq(s),
    ensures
        steps_ti_items(b, i, s.len()) == Some(i + enc_ti_seq(s).len()),
    decreases s.len(),
{
    if s.len() > 0 {
        let e = enc_ti_seq(s);
        let l0 = spec_enc_ti(s[0]).len() as int;
        assert(b.subrange(i, i + l0) =~= e.subrange(0, l0));
        assert(e.subrange(0, l0) =~= spec_enc_ti(s[0]));
        lemma_step_ti_enc(b, i, s[0]);
        assert(b.subrange(i + l0, i + e.len()) =~= e.subrange(l0, e.len() as int));
        assert(e.subrange(l0, e.len() as int) =~= enc_ti_seq(s.drop_first()));
        lemma_steps_ti_items_enc(b, i + l0, s.drop_first());
    }
}

proof fn lemma_steps_attr_items_enc(b: Seq<u8>, i: int, s: Seq<PacketAttr>)
    requires
        0 <= i,
        i + enc_attr_seq(s).len() <= b.len(),
        b.subrange(i, i + enc_attr_seq(s).len()) == enc_attr_seq(s),
    ensures
        steps_attr_items(b, i, s.len()) == Some(i + enc_attr_seq(s).len()),
    decreases s.len(),
{
    if s.len() > 0 {
        let e = enc_attr_seq(s);
        let l0 = spec_enc_attr(s[0]).len() as int;
        assert(b.subrange(i, i + l0) =~= e.subrange(0, l0));
        assert(e.subrange(0, l0) =~= spec_enc_attr(s[0]));
        lemma_step_attr_enc(b, i, s[0]);
        assert(b.subrange(i + l0, i + e.len()) =~= e.subrange(l0, e.len() as int));
        assert(e.subrange(l0, e.len() as int) =~= enc_attr_seq(s.drop_first()));
        lemma_steps_attr_items_enc(b, i + l0, s.drop_first());
    }
}

proof fn lemma_steps_conf_items_enc(b: Seq<u8>, i: int, s: Seq<Confidence>)
    requires
        0 <= i,
        i + enc_conf_seq(s).len() <= b.len(),
        b.subrange(i, i + enc_conf_seq(s).len()) == enc_conf_seq(s),
    ensures
        steps_conf_items(b, i, s.len()) == Some(i + enc_conf_seq(s).len()),
    decreases s.len(),
{
    if s.len() > 0 {
        let e = enc_conf_seq(s);
        let l0 = spec_enc_conf(s[0]).len() as int;
        assert(b.subrange(i, i + l0) =~= e.subrange(0, l0));
        assert(e.subrange(0, l0) =~= spec_enc_conf(s[0]));
        lemma_step_conf_enc(b, i, s[0]);
        assert(b.subrange(i + l0, i + e.len()) =~= e.subrange(l0, e.len() as int));
        assert(e.subrange(l0, e.len() as int) =~= enc_conf_seq(s.drop_first()));
        lemma_steps_conf_items_enc(b, i + l0, s.drop_first());
    }
}

proof fn lemma_steps_resp_items_enc(b: Seq<u8>, i: int, s: Seq<Response>)
    requires
        0 <= i,
        i + enc_resp_seq(s).len() <= b.len(),
        b.subrange(i, i + enc_resp_seq(s).len()) == enc_resp_seq(s),
    ensures
        steps_resp_items(b, i, s.len()) == Some(i + enc_resp_seq(s).len()),
    decreases s.len(),
{
    if s.len() > 0 {
        let e = enc_resp_seq(s);
        let l0 = spec_enc_resp(s[0]).len() as int;
        assert(b.subrange(i, i + l0) =~= e.subrange(0, l0));
        assert(e.subrange(0, l0) =~= spec_enc_resp(s[0]));
        lemma_step_resp_enc(b, i, s[0]);
        assert(b.subrange(i + l0, i + e.len()) =~= e.subrange(l0, e.len() as int));
        assert(e.subrange(l0, e.len() as int) =~= enc_resp_seq(s.drop_first()));
        lemma_steps_resp_items_enc(b, i + l0, s.drop_first());
    }
}

proof fn lemma_step_ti_vec_enc(b: Seq<u8>, i: int, s: Seq<Ti>)
    requires
        0 <= i,
        s.len() <= u64::MAX,
        i + 8 + enc_ti_seq(s).len() <= b.len(),
        b.subrange(i, i + 8 + enc_ti_seq(s).len()) == u64_le(s.len() as u64) + enc_ti_seq(s),
    ensures
        step_ti_vec(b, i) == Some(i + 8 + enc_ti_seq(s).len()),
{
    let e = u64_le(s.len() as u64) + enc_ti_seq(s);
    assert(b.subrange(i, i + 8) =~= e.subrange(0, 8));
    assert(e.subrange(0, 8) =~= u64_le(s.len() as u64));
    lemma_step_u64_enc(b, i, s.len() as u64);
    lemma_enc_ti_seq_min(s);
    assert(b.subrange(i + 8, i + e.len()) =~= e.subrange(8, e.len() as int));
    assert(e.subrange(8, e.len() as int) =~= enc_ti_seq(s));
    lemma_steps_ti_items_enc(b, i + 8, s);
}

proof fn lemma_step_attr_vec_enc(b: Seq<u8>, i: int, s: Seq<PacketAttr>)
    requires
        0 <= i,
        s.len() <= u64::MAX,
        i + 8 + enc_attr_seq(s).len() <= b.len(),
        b.subrange(i, i + 8 + enc_attr_seq(s).len()) == u64_le(s.len() as u64) + enc_attr_seq(s),
    ensures
        step_attr_vec(b, i) == Some(i + 8 + enc_attr_seq(s).len()),
{
    let e = u64_le(s.len() as u64) + enc_attr_seq(s);
    assert(b.subrange(i, i + 8) =~= e.subrange(0, 8));
    assert(e.subrange(0, 8) =~= u64_le(s.len() as u64));
    lemma_step_u64_enc(b, i, s.len() as u64);
    lemma_enc_attr_seq_min(s);
    assert(b.subrange(i + 8, i + e.len()) =~= e.subrange(8, e.len() as int));
    assert(e.subrange(8, e.len() as int) =~= enc_attr_seq(s));
    lemma_steps_attr_items_enc(b, i + 8, s);
}

proof fn lemma_step_conf_vec_enc(b: Seq<u8>, i: int, s: Seq<Confidence>)
    requires
        0 <= i,
        s.len() <= u64::MAX,
        i + 8 + enc_conf_seq(s).len() <= b.len(),
        b.subrange(i, i + 8 + enc_conf_seq(s).len()) == u64_le(s.len() as u64) + enc_conf_seq(s),
    ensures
        step_conf_vec(b, i) == Some(i + 8 + enc_conf_seq(s).len()),
{
    let e = u64_le(s.len() as u64) + enc_conf_seq(s);
    assert(b.subrange(i, i + 8) =~= e.subrange(0, 8));
    assert(e.subrange(0, 8) =~= u64_le(s.len() as u64));
    lemma_step_u64_enc(b, i, s.len() as u64);
    lemma_enc_conf_seq_min(s);
    assert(b.subrange(i + 8, i + e.len()) =~= e.subrange(8, e.len() as int));
    assert(e.subrange(8, e.len() as int) =~= enc_conf_seq(s));
    lemma_steps_conf_items_enc(b, i + 8, s);
}

proof fn lemma_step_resp_vec_enc(b: Seq<u8>, i: int, s: Seq<Response>)
    requires
        0 <= i,
        s.len() <= u64::MAX,
        i + 8 + enc_resp_seq(s).len() <= b.len(),
        b.subrange(i, i + 8 + enc_resp_seq(s).len()) == u64_le(s.len() as u64) + enc_resp_seq(s),
    ensures
        step_resp_vec(b, i) == Some(i + 8 + enc_resp_seq(s).len()),
{
    let e = u64_le(s.len() as u64) + enc_resp_seq(s);
    assert(b.subrange(i, i + 8) =~= e.subrange(0, 8));
    assert(e.subrange(0, 8) =~= u64_le(s.len() as u64));
    lemma_step_u64_enc(b, i, s.len() as u64);
    lemma_enc_resp_seq_min(s);
    assert(b.subrange(i + 8, i + e.len()) =~= e.subrange(8, e.len() as int));
    assert(e.subrange(8, e.len() as int) =~= enc_resp_seq(s));
    lemma_steps_resp_items_enc(b, i + 8, s);
}

/// Every policy's canonical payload parses as one whole policy.
#[verifier::rlimit(100)]
pub proof fn lemma_canonical_policy_parses(p: TriagePolicy)
    ensures
        policy_parses(spec_enc_policy(p)),
{
    vstd::std_specs::vec::axiom_spec_len(&p.name);
    vstd::std_specs::vec::axiom_spec_len(&p.ti_db);
    vstd::std_specs::vec::axiom_spec_len(&p.packet_attr);
    vstd::std_specs::vec::axiom_spec_len(&p.confidence);
    vstd::std_specs::vec::axiom_spec_len(&p.response);
    let b = spec_enc_policy(p);
    let i1 = 4 + 8 + p.name@.len() as int;
    let i2 = i1 + 8 + enc_ti_seq(p.ti_db@).len() as int;
    let i3 = i2 + 8 + enc_attr_seq(p.packet_attr@).len() as int;
    let i4 = i3 + 8 + enc_conf_seq(p.confidence@).len() as int;
    let i5 = i4 + 8 + enc_resp_seq(p.response@).len() as int;
    assert(b.len() == i5 + 8);
    assert(b.subrange(4, i1) =~= enc_bytes(p.name@));
    lemma_step_bytes_enc(b, 4, p.name@);
    assert(b.subrange(i1, i2) =~= u64_le(p.ti_db@.len() as u64) + enc_ti_seq(p.ti_db@));
    lemma_step_ti_vec_enc(b, i1, p.ti_db@);
    assert(b.subrange(i2, i3) =~= u64_le(p.packet_attr@.len() as u64) + enc_attr_seq(
        p.packet_attr@,
    ));
    lemma_step_attr_vec_enc(b, i2, p.packet_attr@);
    assert(b.subrange(i3, i4) =~= u64_le(p.confidence@.len() as u64) + enc_conf_seq(
        p.confidence@,
    ));
    lemma_step_conf_vec_enc(b, i3, p.confidence@);
    assert(b.subrange(i4, i5) =~= u64_le(p.response@.len() as u64) + enc_resp_seq(p.response@));
    lemma_step_resp_vec_enc(b, i4, p.response@);
    assert(step_u64(b, i5) == Some(b.len() as int));
}

impl crate::types::FromKeyValue for TriagePolicy {
    open spec fn spec_payload(&self) -> Seq<u8> {
        spec_enc_policy(*self)
    }

    open spec fn payload_wf(value: Seq<u8>) -> bool {
        policy_parses(value)
    }

    fn from_key_value(key: &[u8], value: &[u8]) -> (r: Result<TriagePolicy, Error>) {
        let v = crate::table::copy_slice(value);
        decode_policy(&v)
    }
}

/// Reads a counted run of threat-intelligence entries.
fn rd_ti_vec(b: &Vec<u8>, i: usize) -> (r: Result<(Vec<Ti>, usize), Error>)
    ensures
        match r {
            Ok((v, j)) => i <= j <= b@.len() && b@.subrange(i as int, j as int) == u64_le(
                v@.len() as u64,
            ) + enc_ti_seq(v@) && step_ti_vec(b@, i as int) == Some(j as int),
            Err(e) => e == Error::Corrupt && step_ti_vec(b@, i as int) is None,
        },
{
    let (n, mid) = match rd_u64(b, i) {
        Ok(p) => p,
        Err(e) => {
            return Err(e);
        },
    };
    if n > b.len() as u64 {
        return Err(Error::Corrupt);
    }
    let m = n as usize;
    let mut v: Vec<Ti> = Vec::new();
    let mut cur: usize = mid;
    let mut k: usize = 0;
    while k < m
        invariant
            0 <= k <= m,
            mid <= cur <= b@.len(),
            mid == i + 8,
            i + 8 <= b@.len(),
            m as u64 == n,
            n == dec_u64(b@, i as int),
            n as int <= b@.len(),
            v@.len() == k,
            b@.subrange(mid as int, cur as int) == enc_ti_seq(v@),
            steps_ti_items(b@, mid as int, n as nat) == steps_ti_items(b@, cur as int, (m - k) as nat),
        decreases m - k,
    {
        let (item, nxt) = match rd_ti(b, cur) {
            Ok(p) => p,
            Err(e) => {
                proof {
                    assert(steps_ti_items(b@, cur as int, (m - k) as nat) is None);
                }
                return Err(e);
            },
        };
        proof {
            lemma_enc_ti_seq_snoc(v@, item);
            assert(b@.subrange(mid as int, nxt as int) =~= b@.subrange(mid as int, cur as int)
                + b@.subrange(cur as int, nxt as int));
            assert(b@.subrange(mid as int, nxt as int) =~= enc_ti_seq(v@.push(item)));
            assert(steps_ti_items(b@, cur as int, (m - k) as nat) == steps_ti_items(
                b@,
                nxt as int,
                (m - (k + 1)) as nat,
            ));
        }
        v.push(item);
        cur = nxt;
        k = k + 1;
    }
    proof {
        assert(m as u64 == n);
        assert(steps_ti_items(b@, cur as int, 0) == Some(cur as int));
        assert(step_ti_vec(b@, i as int) == Some(cur as int));
        assert(b@.subrange(i as int, cur as int) =~= b@.subrange(i as int, mid as int)
            + b@.subrange(mid as int, cur as int));
        assert(b@.subrange(i as int, cur as int) =~= u64_le(v@.len() as u64) + enc_ti_seq(v@));
    }
    Ok((v, cur))
}

/// Reads a counted run of packet attribute rules.
fn rd_attr_vec(b: &Vec<u8>, i: usize) -> (r: Result<(Vec<PacketAttr>, usize), Error>)
    ensures
        match r {
            Ok((v, j)) => i <= j <= b@.len() && b@.subrange(i as int, j as int) == u64_le(
                v@.len() as u64,
            ) + enc_attr_seq(v@) && step_attr_vec(b@, i as int) == Some(j as int),
            Err(e) => e == Error::Corrupt && step_attr_vec(b@, i as int) is None,
        },
{
    let (n, mid) = match rd_u64(b, i) {
        Ok(p) => p,
        Err(e) => {
            return Err(e);
        },
    };
    if n > b.len() as u64 {
        return Err(Error::Corrupt);
    }
    let m = n as usize;
    let mut v: Vec<PacketAttr> = Vec::new();
    let mut cur: usize = mid;
    let mut k: usize = 0;
    while k < m
        invariant
            0 <= k <= m,
            mid <= cur <= b@.len(),
            mid == i + 8,
            i + 8 <= b@.len(),
            m as u64 == n,
            n == dec_u64(b@, i as int),
            n as int <= b@.len(),
            v@.len() == k,
            b@.subrange(mid as int, cur as int) == enc_attr_seq(v@),
            steps_attr_items(b@, mid as int, n as nat) == steps_attr_items(b@, cur as int, (m - k) as nat),
        decreases m - k,
    {
        let (item, nxt) = match rd_attr(b, cur) {
            Ok(p) => p,
            Err(e) => {
                proof {
                    assert(steps_attr_items(b@, cur as int, (m - k) as nat) is None);
                }
                return Err(e);
            },
        };
        proof {
            lemma_enc_attr_seq_snoc(v@, item);
            assert(b@.subrange(mid as int, nxt as int) =~= b@.subrange(mid as int, cur as int)
                + b@.subrange(cur as int, nxt as int));
            assert(b@.subrange(mid as int, nxt as int) =~= enc_attr_seq(v@.push(item)));
            assert(steps_attr_items(b@, cur as int, (m - k) as nat) == steps_attr_items(
                b@,
                nxt as int,
                (m - (k + 1)) as nat,
            ));
        }
        v.push(item);
        cur = nxt;
        k = k + 1;
    }
    proof {
        assert(m as u64 == n);
        assert(steps_attr_items(b@, cur as int, 0) == Some(cur as int));
        assert(step_attr_vec(b@, i as int) == Some(cur as int));
        assert(b@.subrange(i as int, cur as int) =~= b@.subrange(i as int, mid as int)
            + b@.subrange(mid as int, cur as int));
        assert(b@.subrange(i as int, cur as int) =~= u64_le(v@.len() as u64) + enc_attr_seq(v@));
    }
    Ok((v, cur))
}

/// Reads a counted run of confidence rules.
fn rd_conf_vec(b: &Vec<u8>, i: usize) -> (r: Result<(Vec<Confidence>, usize), Error>)
    ensures
        match r {
            Ok((v, j)) => i <= j <= b@.len() && b@.subrange(i as int, j as int) == u64_le(
                v@.len() as u64,
            ) + enc_conf_seq(v@) && step_conf_vec(b@, i as int) == Some(j as int),
            Err(e) => e == Error::Corrupt && step_conf_vec(b@, i as int) is None,
        },
{
    let (n, mid) = match rd_u64(b, i) {
        Ok(p) => p,
        Err(e) => {
            return Err(e);
        },
    };
    if n > b.len() as u64 {
        return Err(Error::Corrupt);
    }
    let m = n as usize;
    let mut v: Vec<Confidence> = Vec::new();
    let mut cur: usize = mid;
    let mut k: usize = 0;
    while k < m
        invariant
            0 <= k <= m,
            mid <= cur <= b@.len(),
            mid == i + 8,
            i + 8 <= b@.len(),
            m as u64 == n,
            n == dec_u64(b@, i as int),
            n as int <= b@.len(),
            v@.len() == k,
            b@.subrange(mid as int, cur as int) == enc_conf_seq(v@),
            steps_conf_items(b@, mid as int, n as nat) == steps_conf_items(b@, cur as int, (m - k) as nat),
        decreases m - k,
    {
        let (item, nxt) = match rd_conf(b, cur) {
            Ok(p) => p,
            Err(e) => {
                proof {
                    assert(steps_conf_items(b@, cur as int, (m - k) as nat) is None);
                }
                return Err(e);
            },
        };
        proof {
            lemma_enc_conf_seq_snoc(v@, item);
            assert(b@.subrange(mid as int, nxt as int) =~= b@.subrange(mid as int, cur as int)
                + b@.subrange(cur as int, nxt as int));
            assert(b@.subrange(mid as int, nxt as int) =~= enc_conf_seq(v@.push(item)));
            assert(steps_conf_items(b@, cur as int, (m - k) as nat) == steps_conf_items(
                b@,
                nxt as int,
                (m - (k + 1)) as nat,
            ));
        }
        v.push(item);
        cur = nxt;
        k = k + 1;
    }
    proof {
        assert(m as u64 == n);
        assert(steps_conf_items(b@, cur as int, 0) == Some(cur as int));
        assert(step_conf_vec(b@, i as int) == Some(cur as int));
        assert(b@.subrange(i as int, cur as int) =~= b@.subrange(i as int, mid as int)
            + b@.subrange(mid as int, cur as int));
        assert(b@.subrange(i as int, cur as int) =~= u64_le(v@.len() as u64) + enc_conf_seq(v@));
    }
    Ok((v, cur))
}

/// Reads a counted run of response rules.
fn rd_resp_vec(b: &Vec<u8>, i: usize) -> (r: Result<(Vec<Response>, usize), Error>)
    ensures
        match r {
            Ok((v, j)) => i <= j <= b@.len() && b@.subrange(i as int, j as int) == u64_le(
                v@.len() as u64,
            ) + enc_resp_seq(v@) && step_resp_vec(b@, i as int) == Some(j as int),
            Err(e) => e == Error::Corrupt && step_resp_vec(b@, i as int) is None,
        },
{
    let (n, mid) = match rd_u64(b, i) {
        Ok(p) => p,
        Err(e) => {
            return Err(e);
        },
    };
    if n > b.len() as u64 {
        return Err(Error::Corrupt);
    }
    let m = n as usize;
    let mut v: Vec<Response> = Vec::new();
    let mut cur: usize = mid;
    let mut k: usize = 0;
    while k < m
        invariant
            0 <= k <= m,
            mid <= cur <= b@.len(),
            mid == i + 8,
            i + 8 <= b@.len(),
            m as u64 == n,
            n == dec_u64(b@, i as int),
            n as int <= b@.len(),
            v@.len() == k,
            b@.subrange(mid as int, cur as int) == enc_resp_seq(v@),
            steps_resp_items(b@, mid as int, n as nat) == steps_resp_items(b@, cur as int, (m - k) as nat),
        decreases m - k,
    {
        let (item, nxt) = match rd_resp(b, cur) {
            Ok(p) => p,
            Err(e) => {
                proof {
                    assert(steps_resp_items(b@, cur as int, (m - k) as nat) is None);
                }
                return Err(e);
            },
        };
        proof {
            lemma_enc_resp_seq_snoc(v@, item);
            assert(b@.subrange(mid as int, nxt as int) =~= b@.subrange(mid as int, cur as int)
                + b@.subrange(cur as int, nxt as int));
            assert(b@.subrange(mid as int, nxt as int) =~= enc_resp_seq(v@.push(item)));
            assert(steps_resp_items(b@, cur as int, (m - k) as nat) == steps_resp_items(
                b@,
                nxt as int,
                (m - (k + 1)) as nat,
            ));
        }
        v.push(item);
        cur = nxt;
        k = k + 1;
    }
    proof {
        assert(m as u64 == n);
        assert(steps_resp_items(b@, cur as int, 0) == Some(cur as int));
        assert(step_resp_vec(b@, i as int) == Some(cur as int));
        assert(b@.subrange(i as int, cur as int) =~= b@.subrange(i as int, mid as int)
            + b@.subrange(mid as int, cur as int));
        assert(b@.subrange(i as int, cur as int) =~= u64_le(v@.len() as u64) + enc_resp_seq(v@));
    }
    Ok((v, cur))
}

} // verus!
