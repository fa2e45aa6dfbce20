//! The type catalogue: plain record types, the event taxonomy, and the
//! ordered value types used in sorted collections.
use vstd::prelude::*;

verus! {

use core::cmp::Ordering;
use crate::Error;
use crate::order::{lex_lt, bytes_lt, bytes_eq};
use crate::record::{Category, decode};
use crate::table::copy_slice;

/// Builds an entity from a stored key and payload.
pub trait FromKeyValue: Sized {
    /// The canonical payload of a value.
    spec fn spec_payload(&self) -> Seq<u8>;

    /// The payload is an honest encoding that some value decodes from.
    spec fn payload_wf(value: Seq<u8>) -> bool;

    /// Creates an instance from the given key and payload: succeeds exactly
    /// on well-formed payloads, returning the value the payload encodes.
    fn from_key_value(key: &[u8], value: &[u8]) -> (r: Result<Self, Error>)
        ensures
            match r {
                Ok(v) => v.spec_payload() == value@ && Self::payload_wf(value@),
                Err(_) => !Self::payload_wf(value@),
            },
    ;
}

impl FromKeyValue for Category {
    open spec fn spec_payload(&self) -> Seq<u8> {
        crate::record::spec_encode(self.id, self.name@)
    }

    open spec fn payload_wf(value: Seq<u8>) -> bool {
        crate::record::spec_decode(value) is Some
    }

    fn from_key_value(key: &[u8], value: &[u8]) -> (r: Result<Category, Error>) {
        let v = copy_slice(value);
        let r = decode(&v);
        proof {
            if r is Ok {
                crate::record::lemma_decode_then_encode(value@);
                let c = r->Ok_0;
                assert(crate::record::spec_decode(value@) == Some(c@));
                assert(crate::record::spec_encode(c@.id, c@.name) == value@);
            }
        }
        r
    }
}

/// A serialized pretrained model.
pub struct PretrainedModel(pub Vec<u8>);

/// The taxonomy of detected events.
#[derive(Clone, Copy, Debug, PartialEq, Eq, Structural)]
pub enum EventCategory {
    Reconnaissance,
    InitialAccess,
    Execution,
    CredentialAccess,
    Discovery,
    LateralMovement,
    CommandAndControl,
    Exfiltration,
    Impact,
    HttpThreat,
}

/// The wire code of each event category, starting at 1.
pub open spec fn event_category_code(c: EventCategory) -> u8 {
    match c {
        EventCategory::Reconnaissance => 1,
        EventCategory::InitialAccess => 2,
        EventCategory::Execution => 3,
        EventCategory::CredentialAccess => 4,
        EventCategory::Discovery => 5,
        EventCategory::LateralMovement => 6,
        EventCategory::CommandAndControl => 7,
        EventCategory::Exfiltration => 8,
        EventCategory::Impact => 9,
        EventCategory::HttpThreat => 10,
    }
}

impl EventCategory {
    /// The wire code of this category.
    pub fn to_u8(self) -> (r: u8)
        ensures
            r == event_category_code(self),
    {
        match self {
            EventCategory::Reconnaissance => 1,
            EventCategory::InitialAccess => 2,
            EventCategory::Execution => 3,
            EventCategory::CredentialAccess => 4,
            EventCategory::Discovery => 5,
            EventCategory::LateralMovement => 6,
            EventCategory::CommandAndControl => 7,
            EventCategory::Exfiltration => 8,
            EventCategory::Impact => 9,
            EventCategory::HttpThreat => 10,
        }
    }

    /// The category a wire code stands for; codes outside 1 to 10 are
    /// rejected.
    pub fn from_u8(value: u8) -> (r: Result<EventCategory, Error>)
        ensures
            match r {
                Ok(c) => 1 <= value <= 10 && event_category_code(c) == value,
                Err(e) => (value == 0 || value > 10) && e == Error::Corrupt,
            },
    {
        match value {
            1u8 => Ok(EventCategory::Reconnaissance),
            2u8 => Ok(EventCategory::InitialAccess),
            3u8 => Ok(EventCategory::Execution),
            4u8 => Ok(EventCategory::CredentialAccess),
            5u8 => Ok(EventCategory::Discovery),
            6u8 => Ok(EventCategory::LateralMovement),
            7u8 => Ok(EventCategory::CommandAndControl),
            8u8 => Ok(EventCategory::Exfiltration),
            9u8 => Ok(EventCategory::Impact),
            10u8 => Ok(EventCategory::HttpThreat),
            _ => Err(Error::Corrupt),
        }
    }
}

/// Which way traffic flows at an endpoint.
#[derive(Clone, Copy, Debug, PartialEq, Eq, Structural)]
pub enum TrafficDirection {
    Inbound,
    Outbound,
}

/// An endpoint: an optional traffic direction and the network it names.
pub struct Endpoint {
    pub direction: Option<TrafficDirection>,
    pub network: crate::host_group::HostNetworkGroup,
}

/// A cluster of similar events. The score is carried as a total-order key
/// and the modification time as nanoseconds, so the record holds plain
/// values only.
pub struct Cluster {
    pub id: i32,
    pub cluster_id: String,
    pub category_id: i32,
    pub detector_id: i32,
    pub event_ids: Vec<i64>,
    pub event_sources: Vec<String>,
    pub labels: Option<Vec<String>>,
    pub qualifier_id: i32,
    pub status_id: i32,
    pub signature: String,
    pub size: i64,
    pub score: Option<u64>,
    pub last_modification_time: Option<i64>,
    pub model_id: i32,
}

/// A clustering outlier: the raw event and where it was seen.
pub struct Outlier {
    pub id: i32,
    pub raw_event: Vec<u8>,
    pub event_ids: Vec<i64>,
    pub event_sources: Vec<String>,
    pub size: i64,
    pub model_id: i32,
}

/// Summary of one training batch of a model.
pub struct ModelBatchInfo {
    pub id: i64,
    pub earliest: i64,
    pub latest: i64,
    pub size: usize,
    pub sources: Vec<String>,
}

/// What a threat-intelligence entry matches on.
#[derive(Clone, Copy, Debug, PartialEq, Eq, Structural)]
pub enum TiCmpKind {
    IpAddress,
    Domain,
    Hostname,
    Uri,
}

/// The rank `TiCmpKind` orders by.
pub open spec fn ti_cmp_kind_rank(k: TiCmpKind) -> int {
    match k {
        TiCmpKind::IpAddress => 0,
        TiCmpKind::Domain => 1,
        TiCmpKind::Hostname => 2,
        TiCmpKind::Uri => 3,
    }
}

pub(crate) fn ti_cmp_kind_rank_exec(k: TiCmpKind) -> (r: u8)
    ensures
        r == ti_cmp_kind_rank(k),
{
    match k {
        TiCmpKind::IpAddress => 0,
        TiCmpKind::Domain => 1,
        TiCmpKind::Hostname => 2,
        TiCmpKind::Uri => 3,
    }
}

/// The kind of a packet attribute value.
#[derive(Clone, Copy, Debug, PartialEq, Eq, Structural)]
pub enum ValueKind {
    String,
    Integer,
    Float,
}

/// The rank `ValueKind` orders by.
pub open spec fn value_kind_rank(k: ValueKind) -> int {
    match k {
        ValueKind::String => 0,
        ValueKind::Integer => 1,
        ValueKind::Float => 2,
    }
}

pub(crate) fn value_kind_rank_exec(k: ValueKind) -> (r: u8)
    ensures
        r == value_kind_rank(k),
{
    match k {
        ValueKind::String => 0,
        ValueKind::Integer => 1,
        ValueKind::Float => 2,
    }
}

/// How a packet attribute is compared against its reference values.
#[derive(Clone, Copy, Debug, PartialEq, Eq, Structural)]
pub enum AttrCmpKind {
    Less,
    Equal,
    Greater,
    LessOrEqual,
    GreaterOrEqual,
    Contain,
    OpenRange,
    CloseRange,
    LeftOpenRange,
    RightOpenRange,
    NotEqual,
    NotContain,
    NotOpenRange,
    NotCloseRange,
    NotLeftOpenRange,
    NotRightOpenRange,
}

/// The rank `AttrCmpKind` orders by.
pub open spec fn attr_cmp_kind_rank(k: AttrCmpKind) -> int {
    match k {
        AttrCmpKind::Less => 0,
        AttrCmpKind::Equal => 1,
        AttrCmpKind::Greater => 2,
        AttrCmpKind::LessOrEqual => 3,
        AttrCmpKind::GreaterOrEqual => 4,
        AttrCmpKind::Contain => 5,
        AttrCmpKind::OpenRange => 6,
        AttrCmpKind::CloseRange => 7,
        AttrCmpKind::LeftOpenRange => 8,
        AttrCmpKind::RightOpenRange => 9,
        AttrCmpKind::NotEqual => 10,
        AttrCmpKind::NotContain => 11,
        AttrCmpKind::NotOpenRange => 12,
        AttrCmpKind::NotCloseRange => 13,
        AttrCmpKind::NotLeftOpenRange => 14,
        AttrCmpKind::NotRightOpenRange => 15,
    }
}

pub(crate) fn attr_cmp_kind_rank_exec(k: AttrCmpKind) -> (r: u8)
    ensures
        r == attr_cmp_kind_rank(k),
{
    match k {
        AttrCmpKind::Less => 0,
        AttrCmpKind::Equal => 1,
        AttrCmpKind::Greater => 2,
        AttrCmpKind::LessOrEqual => 3,
        AttrCmpKind::GreaterOrEqual => 4,
        AttrCmpKind::Contain => 5,
        AttrCmpKind::OpenRange => 6,
        AttrCmpKind::CloseRange => 7,
        AttrCmpKind::LeftOpenRange => 8,
        AttrCmpKind::RightOpenRange => 9,
        AttrCmpKind::NotEqual => 10,
        AttrCmpKind::NotContain => 11,
        AttrCmpKind::NotOpenRange => 12,
        AttrCmpKind::NotCloseRange => 13,
        AttrCmpKind::NotLeftOpenRange => 14,
        AttrCmpKind::NotRightOpenRange => 15,
    }
}

/// What a triage response does.
#[derive(Clone, Copy, Debug, PartialEq, Eq, Structural)]
pub enum ResponseKind {
    Manual,
    Blacklist,
    Whitelist,
}

/// The rank `ResponseKind` orders by.
pub open spec fn response_kind_rank(k: ResponseKind) -> int {
    match k {
        ResponseKind::Manual => 0,
        ResponseKind::Blacklist => 1,
        ResponseKind::Whitelist => 2,
    }
}

pub(crate) fn response_kind_rank_exec(k: ResponseKind) -> (r: u8)
    ensures
        r == response_kind_rank(k),
{
    match k {
        ResponseKind::Manual => 0,
        ResponseKind::Blacklist => 1,
        ResponseKind::Whitelist => 2,
    }
}

/// Comparison of two byte strings under the lexicographic order.
pub open spec fn ord_bytes(a: Seq<u8>, b: Seq<u8>) -> Ordering {
    if lex_lt(a, b) {
        Ordering::Less
    } else if a == b {
        Ordering::Equal
    } else {
        Ordering::Greater
    }
}

/// Comparison of two ranks.
pub open spec fn ord_int(a: int, b: int) -> Ordering {
    if a < b {
        Ordering::Less
    } else if a == b {
        Ordering::Equal
    } else {
        Ordering::Greater
    }
}

/// Comparison of optional weight keys: an absent weight orders first.
pub open spec fn ord_opt_weight(a: Option<u64>, b: Option<u64>) -> Ordering {
    match (a, b) {
        (None, None) => Ordering::Equal,
        (None, Some(_)) => Ordering::Less,
        (Some(_), None) => Ordering::Greater,
        (Some(x), Some(y)) => ord_int(x as int, y as int),
    }
}

/// Comparison of optional byte strings: an absent value orders first.
pub open spec fn ord_opt_bytes(a: Option<Seq<u8>>, b: Option<Seq<u8>>) -> Ordering {
    match (a, b) {
        (None, None) => Ordering::Equal,
        (None, Some(_)) => Ordering::Less,
        (Some(_), None) => Ordering::Greater,
        (Some(x), Some(y)) => ord_bytes(x, y),
    }
}

/// The second comparison decides where the first is a tie.
pub open spec fn ord_then(a: Ordering, b: Ordering) -> Ordering {
    if a == Ordering::Equal {
        b
    } else {
        a
    }
}

fn ord_bytes_exec(a: &Vec<u8>, b: &Vec<u8>) -> (r: Ordering)
    ensures
        r == ord_bytes(a@, b@),
{
    if bytes_lt(a, b) {
        Ordering::Less
    } else if bytes_eq(a, b) {
        Ordering::Equal
    } else {
        Ordering::Greater
    }
}

fn ord_u8_exec(a: u8, b: u8) -> (r: Ordering)
    ensures
        r == ord_int(a as int, b as int),
{
    if a < b {
        Ordering::Less
    } else if a == b {
        Ordering::Equal
    } else {
        Ordering::Greater
    }
}

fn ord_u64_exec(a: u64, b: u64) -> (r: Ordering)
    ensures
        r == ord_int(a as int, b as int),
{
    if a < b {
        Ordering::Less
    } else if a == b {
        Ordering::Equal
    } else {
        Ordering::Greater
    }
}

fn ord_opt_weight_exec(a: &Option<u64>, b: &Option<u64>) -> (r: Ordering)
    ensures
        r == ord_opt_weight(*a, *b),
{
    match (a, b) {
        (None, None) => Ordering::Equal,
        (None, Some(_)) => Ordering::Less,
        (Some(_), None) => Ordering::Greater,
        (Some(x), Some(y)) => ord_u64_exec(*x, *y),
    }
}

/// A threat-intelligence entry. The weight is carried as a total-order key,
/// so that entries can live in sorted collections.
#[derive(Debug)]
pub struct Ti {
    pub ti_name: Vec<u8>,
    pub kind: TiCmpKind,
    pub weight: Option<u64>,
}

/// The total order on threat-intelligence entries: name, kind, weight.
pub open spec fn spec_cmp_ti(a: &Ti, b: &Ti) -> Ordering {
    ord_then(
        ord_bytes(a.ti_name@, b.ti_name@),
        ord_then(
            ord_int(ti_cmp_kind_rank(a.kind), ti_cmp_kind_rank(b.kind)),
            ord_opt_weight(a.weight, b.weight),
        ),
    )
}

impl Ti {
    /// Compares by name, then kind, then weight.
    pub fn cmp(&self, other: &Ti) -> (r: Ordering)
        ensures
            r == spec_cmp_ti(self, other),
    {
        let first = ord_bytes_exec(&self.ti_name, &other.ti_name);
        match first {
            Ordering::Equal => {},
            _ => {
                return first;
            },
        }
        let second = ord_u8_exec(
            ti_cmp_kind_rank_exec(self.kind),
            ti_cmp_kind_rank_exec(other.kind),
        );
        match second {
            Ordering::Equal => {},
            _ => {
                return second;
            },
        }
        ord_opt_weight_exec(&self.weight, &other.weight)
    }
}

/// A packet attribute rule. The weight is carried as a total-order key.
#[derive(Debug)]
pub struct PacketAttr {
    pub attr_name: Vec<u8>,
    pub value_kind: ValueKind,
    pub cmp_kind: AttrCmpKind,
    pub first_value: Vec<u8>,
    pub second_value: Option<Vec<u8>>,
    pub weight: Option<u64>,
}

/// The model of an optional byte vector.
pub open spec fn opt_bytes_model(o: &Option<Vec<u8>>) -> Option<Seq<u8>> {
    match o {
        Some(v) => Some(v@),
        None => None,
    }
}

/// The total order on packet attributes: name, value kind, comparison kind,
/// first value, second value, weight.
pub open spec fn spec_cmp_packet_attr(a: &PacketAttr, b: &PacketAttr) -> Ordering {
    ord_then(
        ord_bytes(a.attr_name@, b.attr_name@),
        ord_then(
            ord_int(value_kind_rank(a.value_kind), value_kind_rank(b.value_kind)),
            ord_then(
                ord_int(attr_cmp_kind_rank(a.cmp_kind), attr_cmp_kind_rank(b.cmp_kind)),
                ord_then(
                    ord_bytes(a.first_value@, b.first_value@),
                    ord_then(
                        ord_opt_bytes(opt_bytes_model(&a.second_value), opt_bytes_model(&b.second_value)),
                        ord_opt_weight(a.weight, b.weight),
                    ),
                ),
            ),
        ),
    )
}

impl PacketAttr {
    /// Compares field by field in declaration order.
    pub fn cmp(&self, other: &PacketAttr) -> (r: Ordering)
        ensures
            r == spec_cmp_packet_attr(self, other),
    {
        let first = ord_bytes_exec(&self.attr_name, &other.attr_name);
        match first {
            Ordering::Equal => {},
            _ => {
                return first;
            },
        }
        let second = ord_u8_exec(
            value_kind_rank_exec(self.value_kind),
            value_kind_rank_exec(other.value_kind),
        );
        match second {
            Ordering::Equal => {},
            _ => {
                return second;
            },
        }
        let third = ord_u8_exec(
            attr_cmp_kind_rank_exec(self.cmp_kind),
            attr_cmp_kind_rank_exec(other.cmp_kind),
        );
        match third {
            Ordering::Equal => {},
            _ => {
                return third;
            },
        }
        let fourth = ord_bytes_exec(&self.first_value, &other.first_value);
        match fourth {
            Ordering::Equal => {},
            _ => {
                return fourth;
            },
        }
        let fifth = match (&self.second_value, &other.second_value) {
            (None, None) => Ordering::Equal,
            (None, Some(_)) => Ordering::Less,
            (Some(_), None) => Ordering::Greater,
            (Some(x), Some(y)) => ord_bytes_exec(x, y),
        };
        match fifth {
            Ordering::Equal => {},
            _ => {
                return fifth;
            },
        }
        ord_opt_weight_exec(&self.weight, &other.weight)
    }
}

/// A confidence rule. Confidence and weight are carried as total-order keys.
#[derive(Debug)]
pub struct Confidence {
    pub threat_category: EventCategory,
    pub threat_kind: Vec<u8>,
    pub confidence: u64,
    pub weight: Option<u64>,
}

/// The total order on confidence rules: category, kind, confidence, weight.
pub open spec fn spec_cmp_confidence(a: &Confidence, b: &Confidence) -> Ordering {
    ord_then(
        ord_int(
            event_category_code(a.threat_category) as int,
            event_category_code(b.threat_category) as int,
        ),
        ord_then(
            ord_bytes(a.threat_kind@, b.threat_kind@),
            ord_then(
                ord_int(a.confidence as int, b.confidence as int),
                ord_opt_weight(a.weight, b.weight),
            ),
        ),
    )
}

impl Confidence {
    /// Compares field by field in declaration order.
    pub fn cmp(&self, other: &Confidence) -> (r: Ordering)
        ensures
            r == spec_cmp_confidence(self, other),
    {
        let first = ord_u8_exec(self.threat_category.to_u8(), other.threat_category.to_u8());
        match first {
            Ordering::Equal => {},
            _ => {
                return first;
            },
        }
        let second = ord_bytes_exec(&self.threat_kind, &other.threat_kind);
        match second {
            Ordering::Equal => {},
            _ => {
                return second;
            },
        }
        let third = ord_u64_exec(self.confidence, other.confidence);
        match third {
            Ordering::Equal => {},
            _ => {
                return third;
            },
        }
        ord_opt_weight_exec(&self.weight, &other.weight)
    }
}

/// A response rule. The score is carried as a total-order key.
#[derive(Debug)]
pub struct Response {
    pub minimum_score: u64,
    pub kind: ResponseKind,
}

/// The total order on response rules: score, then kind.
pub open spec fn spec_cmp_response(a: &Response, b: &Response) -> Ordering {
    ord_then(
        ord_int(a.minimum_score as int, b.minimum_score as int),
        ord_int(response_kind_rank(a.kind), response_kind_rank(b.kind)),
    )
}

impl Response {
    /// Compares by score, then kind.
    pub fn cmp(&self, other: &Response) -> (r: Ordering)
        ensures
            r == spec_cmp_response(self, other),
    {
        let first = ord_u64_exec(self.minimum_score, other.minimum_score);
        match first {
            Ordering::Equal => {},
            _ => {
                return first;
            },
        }
        ord_u8_exec(response_kind_rank_exec(self.kind), response_kind_rank_exec(other.kind))
    }
}

/// A description of a record status.
pub struct Status {
    pub id: u32,
    pub description: String,
}

/// A description of a record qualifier.
pub struct Qualifier {
    pub id: u32,
    pub description: String,
}

} // verus!
