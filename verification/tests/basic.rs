use swindex::id::Uuid7;
use swindex::node::{Edge, EdgeKind, Node, NodeKind};
use swindex::version;
use uuid::Uuid;

#[test]
fn version_is_non_empty() {
    assert!(!version().is_empty());
}

#[test]
fn version_matches_cargo_pkg_version() {
    assert_eq!(version(), "0.1.0");
}

#[test]
fn now_yields_version_seven() {
    let id = Uuid7::now();
    assert_eq!(Uuid::from_u128(id.as_uuid()).get_version_num(), 7);
}

#[test]
fn now_is_monotonic_within_the_same_thread() {
    let a = Uuid7::now();
    let b = Uuid7::now();
    let c = Uuid7::now();
    assert!(a <= b);
    assert!(b <= c);
}

#[test]
fn from_uuid_rejects_non_v7() {
    let nil = Uuid::nil();
    assert_ne!(nil.get_version_num(), 7);
    assert!(Uuid7::from_uuid(nil.as_u128()).is_none());
}

#[test]
fn from_uuid_accepts_v7() {
    let raw = Uuid::now_v7();
    let wrapped = Uuid7::from_uuid(raw.as_u128()).expect("v7 input must be accepted");
    assert_eq!(wrapped.as_uuid(), raw.as_u128());
}

#[test]
fn every_other_version_is_rejected() {
    let raw = Uuid::now_v7().as_u128();
    let cleared = raw & !(0xf << 76);
    for version in 0..16_u128 {
        let candidate = cleared | (version << 76);
        assert_eq!(Uuid7::from_uuid(candidate).is_some(), version == 7);
    }
}

#[test]
fn display_matches_canonical_form() {
    let raw = Uuid::now_v7();
    let wrapped = Uuid7::from_uuid(raw.as_u128()).unwrap();
    assert_eq!(wrapped.to_string(), raw.to_string());
}

#[test]
fn canonical_text_of_a_known_id() {
    let id = Uuid7::from_uuid(0x0190_1234_5678_7abc_8def_0123_4567_89ab).unwrap();
    assert_eq!(id.to_string(), "01901234-5678-7abc-8def-0123456789ab");
}

#[test]
fn bytes_are_big_endian_and_round_trip() {
    let id = Uuid7::from_uuid(0x0190_1234_5678_7abc_8def_0123_4567_89ab).unwrap();
    let bytes = id.as_bytes();
    assert_eq!(
        bytes,
        [
            0x01, 0x90, 0x12, 0x34, 0x56, 0x78, 0x7a, 0xbc, 0x8d, 0xef, 0x01, 0x23, 0x45, 0x67,
            0x89, 0xab
        ]
    );
    assert_eq!(Uuid7::from_bytes(bytes), Some(id));
    assert_eq!(Uuid7::from_bytes([0; 16]), None);
}

#[test]
fn edge_kind_as_str_matches_input() {
    let k = EdgeKind::new("owns");
    assert_eq!(k.as_str(), "owns");
    assert_eq!(k.as_ref(), "owns");
}

#[test]
fn fresh_node_has_v7_id_and_given_kind() {
    let n = Node::fresh(NodeKind::new("parcel"));
    assert_eq!(n.kind.as_str(), "parcel");
    assert_eq!(Uuid::from_u128(n.id.as_uuid()).get_version_num(), 7);
}

#[test]
fn fresh_edge_links_given_endpoints() {
    let a = Uuid7::now();
    let b = Uuid7::now();
    let e = Edge::fresh(a, b, EdgeKind::new("owns"));
    assert_eq!(e.source, a);
    assert_eq!(e.target, b);
    assert_eq!(e.kind.as_str(), "owns");
    assert_ne!(e.id, a, "edge id must be distinct from endpoint ids");
    assert_ne!(e.id, b, "edge id must be distinct from endpoint ids");
}
