use std::cmp::Ordering;

use indexed_store::record::{decode, encode, Category};
use indexed_store::stats::top_n_rows;
use indexed_store::types::{
    Confidence, EventCategory, FromKeyValue, PacketAttr, Response, ResponseKind, Ti, TiCmpKind,
    ValueKind, AttrCmpKind,
};
use indexed_store::Error;

#[test]
fn codec_round_trip() {
    let c = Category { id: 70000, name: b"some category".to_vec() };
    let bytes = encode(&c);
    assert_eq!(decode(&bytes).unwrap(), c);

    let empty = Category { id: 0, name: Vec::new() };
    assert_eq!(decode(&encode(&empty)).unwrap(), empty);
}

#[test]
fn decode_rejects_short_payload() {
    assert_eq!(decode(&vec![1u8, 2u8]).unwrap_err(), Error::Corrupt);
}

#[test]
fn from_key_value_reads_the_payload() {
    let c = Category { id: 9, name: b"restored".to_vec() };
    let bytes = encode(&c);
    let back = Category::from_key_value(b"restored", &bytes).unwrap();
    assert_eq!(back, c);
}

#[test]
fn event_category_codes() {
    assert_eq!(EventCategory::Reconnaissance.to_u8(), 1);
    assert_eq!(EventCategory::HttpThreat.to_u8(), 10);
    for code in 1u8..=10u8 {
        assert_eq!(EventCategory::from_u8(code).unwrap().to_u8(), code);
    }
    assert_eq!(EventCategory::from_u8(0).unwrap_err(), Error::Corrupt);
    assert_eq!(EventCategory::from_u8(11).unwrap_err(), Error::Corrupt);
}

#[test]
fn ti_orders_by_name_kind_weight() {
    let a = Ti { ti_name: b"alpha".to_vec(), kind: TiCmpKind::Domain, weight: None };
    let b = Ti { ti_name: b"beta".to_vec(), kind: TiCmpKind::IpAddress, weight: None };
    assert_eq!(a.cmp(&b), Ordering::Less);

    let c = Ti { ti_name: b"alpha".to_vec(), kind: TiCmpKind::Uri, weight: None };
    assert_eq!(a.cmp(&c), Ordering::Less);

    // An absent weight orders before any present one.
    let d = Ti { ti_name: b"alpha".to_vec(), kind: TiCmpKind::Domain, weight: Some(0) };
    assert_eq!(a.cmp(&d), Ordering::Less);
    assert_eq!(d.cmp(&a), Ordering::Greater);
    assert_eq!(a.cmp(&a), Ordering::Equal);
}

#[test]
fn packet_attr_orders_field_by_field() {
    let base = PacketAttr {
        attr_name: b"len".to_vec(),
        value_kind: ValueKind::Integer,
        cmp_kind: AttrCmpKind::Less,
        first_value: vec![5],
        second_value: None,
        weight: None,
    };
    let bigger_value = PacketAttr { first_value: vec![9], ..clone_attr(&base) };
    assert_eq!(base.cmp(&bigger_value), Ordering::Less);

    let with_second = PacketAttr { second_value: Some(vec![1]), ..clone_attr(&base) };
    assert_eq!(base.cmp(&with_second), Ordering::Less);
    assert_eq!(base.cmp(&clone_attr(&base)), Ordering::Equal);
}

fn clone_attr(a: &PacketAttr) -> PacketAttr {
    PacketAttr {
        attr_name: a.attr_name.clone(),
        value_kind: a.value_kind,
        cmp_kind: a.cmp_kind,
        first_value: a.first_value.clone(),
        second_value: a.second_value.clone(),
        weight: a.weight,
    }
}

#[test]
fn confidence_and_response_order() {
    let a = Confidence {
        threat_category: EventCategory::Execution,
        threat_kind: b"kind".to_vec(),
        confidence: 10,
        weight: None,
    };
    let b = Confidence {
        threat_category: EventCategory::Execution,
        threat_kind: b"kind".to_vec(),
        confidence: 20,
        weight: None,
    };
    assert_eq!(a.cmp(&b), Ordering::Less);

    let r1 = Response { minimum_score: 1, kind: ResponseKind::Whitelist };
    let r2 = Response { minimum_score: 2, kind: ResponseKind::Manual };
    assert_eq!(r1.cmp(&r2), Ordering::Less);
    let r3 = Response { minimum_score: 1, kind: ResponseKind::Manual };
    assert_eq!(r3.cmp(&r1), Ordering::Less);
}

#[test]
fn top_n_rows_builds_both_requests() {
    let top_n = vec![
        (Some(b"most frequent".to_vec()), 41u64),
        (None, 7u64),
    ];
    let (desc, rows) = top_n_rows(3, b"most frequent".to_vec(), top_n);

    assert_eq!(desc.description_id, 3);
    assert_eq!(desc.mode, b"most frequent".to_vec());
    assert_eq!(rows.len(), 2);
    assert_eq!(rows[0].description_id, 3);
    assert_eq!(rows[0].value, Some(b"most frequent".to_vec()));
    assert_eq!(rows[0].count, 41);
    assert_eq!(rows[1].value, None);
    assert_eq!(rows[1].count, 7);
}
