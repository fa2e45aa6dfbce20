use indexed_store::policy::{decode_policy, encode_policy, TriagePolicy};
use indexed_store::types::{
    AttrCmpKind, Confidence, EventCategory, FromKeyValue, PacketAttr, Response, ResponseKind, Ti,
    TiCmpKind, ValueKind,
};
use indexed_store::Error;

fn sample_policy() -> TriagePolicy {
    TriagePolicy {
        id: 11,
        name: b"default policy".to_vec(),
        ti_db: vec![
            Ti { ti_name: b"bad domain".to_vec(), kind: TiCmpKind::Domain, weight: Some(3) },
            Ti { ti_name: b"bad ip".to_vec(), kind: TiCmpKind::IpAddress, weight: None },
        ],
        packet_attr: vec![PacketAttr {
            attr_name: b"len".to_vec(),
            value_kind: ValueKind::Integer,
            cmp_kind: AttrCmpKind::GreaterOrEqual,
            first_value: vec![1, 2],
            second_value: Some(vec![9]),
            weight: Some(7),
        }],
        confidence: vec![Confidence {
            threat_category: EventCategory::Exfiltration,
            threat_kind: b"exfil".to_vec(),
            confidence: 80,
            weight: None,
        }],
        response: vec![Response { minimum_score: 5, kind: ResponseKind::Blacklist }],
        creation_time: -1_234_567_890,
    }
}

#[test]
fn policy_round_trip() {
    let p = sample_policy();
    let bytes = encode_policy(&p);
    let q = decode_policy(&bytes).unwrap();

    assert_eq!(q.id, p.id);
    assert_eq!(q.name, p.name);
    assert_eq!(q.creation_time, p.creation_time);
    assert_eq!(q.ti_db.len(), 2);
    assert_eq!(q.ti_db[0].ti_name, b"bad domain".to_vec());
    assert_eq!(q.ti_db[0].weight, Some(3));
    assert_eq!(q.ti_db[1].kind, TiCmpKind::IpAddress);
    assert_eq!(q.packet_attr.len(), 1);
    assert_eq!(q.packet_attr[0].second_value, Some(vec![9]));
    assert_eq!(q.confidence[0].threat_category, EventCategory::Exfiltration);
    assert_eq!(q.response[0].kind, ResponseKind::Blacklist);
    // The decoder accepts only the exact canonical payload of its result.
    assert_eq!(encode_policy(&q), bytes);
}

#[test]
fn policy_from_key_value() {
    let p = sample_policy();
    let bytes = encode_policy(&p);
    let q = TriagePolicy::from_key_value(b"default policy", &bytes).unwrap();
    assert_eq!(encode_policy(&q), bytes);
}

#[test]
fn policy_decode_rejects_damage() {
    let p = sample_policy();
    let mut bytes = encode_policy(&p);
    bytes.pop();
    assert_eq!(decode_policy(&bytes).unwrap_err(), Error::Corrupt);
    assert_eq!(decode_policy(&vec![1u8, 2, 3]).unwrap_err(), Error::Corrupt);
}

#[test]
fn policy_lives_in_the_engine() {
    let mut m = indexed_store::map::IndexedMap::new();
    let id = m.insert(sample_policy()).unwrap();
    assert_eq!(id, 0);

    let stored = m.get_by_id(id).unwrap();
    let q = decode_policy(&stored).unwrap();
    // The engine re-keys the entity to its allocated identifier.
    assert_eq!(q.id, 0);
    assert_eq!(q.name, b"default policy".to_vec());
}

#[test]
fn empty_policy_round_trips() {
    let p = TriagePolicy {
        id: 0,
        name: Vec::new(),
        ti_db: Vec::new(),
        packet_attr: Vec::new(),
        confidence: Vec::new(),
        response: Vec::new(),
        creation_time: 0,
    };
    let bytes = encode_policy(&p);
    let q = decode_policy(&bytes).unwrap();
    assert_eq!(q.name, p.name);
    assert_eq!(q.ti_db.len(), 0);
    assert_eq!(encode_policy(&q), bytes);
}
