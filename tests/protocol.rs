use rune_core::protocol::Protocol;
use rune_item_mod::protocol::{AssociatedKind, ProtocolId, EMPTY_HASH};

fn id_of(p: &Protocol) -> ProtocolId {
    ProtocolId::from_hash(p.hash.into_inner()).unwrap()
}

#[test]
fn catalogue_hashes_are_found() {
    assert_eq!(id_of(&Protocol::ADD).hash, 0xe4ecf51fa0bf1076);
    assert_eq!(id_of(&Protocol::INDEX_GET).hash, 0xadb5b27e2a4d2dec);
}

#[test]
fn lookup_by_hash() {
    assert_eq!(
        ProtocolId::from_hash(0xe4ecf51fa0bf1076),
        Some(ProtocolId { hash: 0xe4ecf51fa0bf1076 })
    );
    assert_eq!(ProtocolId::from_hash(0), None);
    assert_eq!(ProtocolId::from_hash(12345), None);
}

#[test]
fn conversion_is_deterministic() {
    let a = id_of(&Protocol::DISPLAY_FMT).to_instance();
    let b = id_of(&Protocol::DISPLAY_FMT).to_instance();
    assert_eq!(a, b);
    assert_eq!(a.function_parameters, EMPTY_HASH);
    assert_eq!(
        a.associated,
        AssociatedKind::Protocol(ProtocolId { hash: 0x811b62957ea9d9f9 })
    );
}

#[test]
fn distinct_protocols_have_distinct_names() {
    let add = id_of(&Protocol::ADD).to_instance();
    let sub = id_of(&Protocol::SUB).to_instance();
    assert_ne!(add, sub);
    let id = id_of(&Protocol::PARTIAL_EQ);
    assert_eq!(id.to_instance(), id.to_instance());
    assert_ne!(id.to_instance(), id_of(&Protocol::EQ).to_instance());
}

#[test]
fn conversion_of_any_hash_is_total() {
    let name = ProtocolId { hash: 12345 }.to_instance();
    assert_eq!(name.associated, AssociatedKind::Protocol(ProtocolId { hash: 12345 }));
    assert_eq!(name.function_parameters, EMPTY_HASH);
}
