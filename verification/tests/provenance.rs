use phonograph::inference::{InferredEntity, ProvenanceRecord};
use phonograph::provenance::{deserialize_provenance, serialize_provenance, ProvenanceRegistry};
use phonograph::types::{EdgeId, NodeId, PropertyKeyId, TypeId};

#[test]
fn provenance_record_and_get() {
    let mut reg = ProvenanceRegistry::new();
    reg.record(InferredEntity::Node(NodeId(1)), "rule_a", 10);
    let p = reg.get(&InferredEntity::Node(NodeId(1)));
    assert!(p.is_some());
    assert_eq!(p.unwrap().rule_name, "rule_a");
    assert_eq!(p.unwrap().materialized_at, 10);
}

#[test]
fn provenance_is_inferred() {
    let mut reg = ProvenanceRegistry::new();
    reg.record(InferredEntity::Edge(EdgeId(5)), "rule_b", 20);
    assert!(reg.is_inferred(&InferredEntity::Edge(EdgeId(5))));
    assert!(!reg.is_inferred(&InferredEntity::Node(NodeId(999))));
}

#[test]
fn provenance_remove_by_rule() {
    let mut reg = ProvenanceRegistry::new();
    reg.record(InferredEntity::Node(NodeId(1)), "rule_a", 10);
    reg.record(InferredEntity::Node(NodeId(2)), "rule_a", 10);
    reg.record(InferredEntity::Edge(EdgeId(3)), "rule_b", 10);

    let removed = reg.remove_by_rule("rule_a");
    assert_eq!(removed.len(), 2);
    assert!(!reg.is_inferred(&InferredEntity::Node(NodeId(1))));
    assert!(!reg.is_inferred(&InferredEntity::Node(NodeId(2))));
    assert!(reg.is_inferred(&InferredEntity::Edge(EdgeId(3))));
}

#[test]
fn provenance_remove_by_rule_nonexistent() {
    let mut reg = ProvenanceRegistry::new();
    let removed = reg.remove_by_rule("nonexistent");
    assert!(removed.is_empty());
}

#[test]
fn provenance_entities_by_rule() {
    let mut reg = ProvenanceRegistry::new();
    reg.record(InferredEntity::Node(NodeId(1)), "rule_a", 10);
    reg.record(InferredEntity::Node(NodeId(2)), "rule_a", 10);

    let entities = reg.entities_by_rule("rule_a");
    assert_eq!(entities.len(), 2);

    let empty = reg.entities_by_rule("unknown");
    assert!(empty.is_empty());
}

#[test]
fn provenance_replace_existing_entity() {
    let mut reg = ProvenanceRegistry::new();
    reg.record(InferredEntity::Node(NodeId(1)), "rule_a", 10);
    reg.record(InferredEntity::Node(NodeId(1)), "rule_a", 20);
    assert_eq!(reg.get(&InferredEntity::Node(NodeId(1))).unwrap().materialized_at, 20);
    assert_eq!(reg.entities_by_rule("rule_a").len(), 1);
}

#[test]
fn provenance_replace_entity_different_rule() {
    let mut reg = ProvenanceRegistry::new();
    reg.record(InferredEntity::Node(NodeId(1)), "rule_a", 10);
    reg.record(InferredEntity::Node(NodeId(1)), "rule_b", 20);
    assert_eq!(reg.get(&InferredEntity::Node(NodeId(1))).unwrap().rule_name, "rule_b");
    assert!(reg.entities_by_rule("rule_a").is_empty());
    assert_eq!(reg.entities_by_rule("rule_b").len(), 1);
}

#[test]
fn encode_decode_node_round_trip() {
    let entity = InferredEntity::Node(NodeId(42));
    let record = ProvenanceRecord { rule_name: "test".into(), materialized_at: 100 };
    let (key, value) = ProvenanceRegistry::encode_entry(&entity, &record);
    assert_eq!(key.len(), 14);
    assert_eq!(key[0], 0x06);
    assert_eq!(key[1], 0x01);

    let (e2, r2) = ProvenanceRegistry::decode_entry(&key, &value).unwrap();
    assert_eq!(e2, entity);
    assert_eq!(r2, record);
}

#[test]
fn encode_decode_edge_round_trip() {
    let entity = InferredEntity::Edge(EdgeId(99));
    let record = ProvenanceRecord { rule_name: "r2".into(), materialized_at: 200 };
    let (key, value) = ProvenanceRegistry::encode_entry(&entity, &record);
    let (e2, r2) = ProvenanceRegistry::decode_entry(&key, &value).unwrap();
    assert_eq!(e2, entity);
    assert_eq!(r2, record);
}

#[test]
fn encode_decode_node_property_round_trip() {
    let entity = InferredEntity::NodeProperty { node: NodeId(10), key: PropertyKeyId(5) };
    let record = ProvenanceRecord { rule_name: "prop_rule".into(), materialized_at: 50 };
    let (key, value) = ProvenanceRegistry::encode_entry(&entity, &record);
    assert_eq!(key[1], 0x03);
    let (e2, r2) = ProvenanceRegistry::decode_entry(&key, &value).unwrap();
    assert_eq!(e2, entity);
    assert_eq!(r2, record);
}

#[test]
fn encode_decode_edge_property_round_trip() {
    let entity = InferredEntity::EdgeProperty { edge: EdgeId(7), key: PropertyKeyId(3) };
    let record = ProvenanceRecord { rule_name: "ep".into(), materialized_at: 1 };
    let (key, value) = ProvenanceRegistry::encode_entry(&entity, &record);
    assert_eq!(key[1], 0x04);
    let (e2, r2) = ProvenanceRegistry::decode_entry(&key, &value).unwrap();
    assert_eq!(e2, entity);
    assert_eq!(r2, record);
}

#[test]
fn encode_decode_node_type_round_trip() {
    let entity = InferredEntity::NodeType { node: NodeId(1), type_id: TypeId(8) };
    let record = ProvenanceRecord { rule_name: "nt".into(), materialized_at: 5 };
    let (key, value) = ProvenanceRegistry::encode_entry(&entity, &record);
    assert_eq!(key[1], 0x05);
    let (e2, r2) = ProvenanceRegistry::decode_entry(&key, &value).unwrap();
    assert_eq!(e2, entity);
    assert_eq!(r2, record);
}

#[test]
fn encode_decode_edge_type_round_trip() {
    let entity = InferredEntity::EdgeType { edge: EdgeId(2), type_id: TypeId(9) };
    let record = ProvenanceRecord { rule_name: "et".into(), materialized_at: 3 };
    let (key, value) = ProvenanceRegistry::encode_entry(&entity, &record);
    assert_eq!(key[1], 0x06);
    let (e2, r2) = ProvenanceRegistry::decode_entry(&key, &value).unwrap();
    assert_eq!(e2, entity);
    assert_eq!(r2, record);
}

#[test]
fn keys_sort_correctly() {
    let n = InferredEntity::Node(NodeId(1));
    let e = InferredEntity::Edge(EdgeId(1));
    let np = InferredEntity::NodeProperty { node: NodeId(1), key: PropertyKeyId(1) };
    let record = ProvenanceRecord { rule_name: "r".into(), materialized_at: 1 };
    let (kn, _) = ProvenanceRegistry::encode_entry(&n, &record);
    let (ke, _) = ProvenanceRegistry::encode_entry(&e, &record);
    let (knp, _) = ProvenanceRegistry::encode_entry(&np, &record);
    assert!(kn < ke);
    assert!(ke < knp);
}

#[test]
fn decode_entry_wrong_prefix_returns_none() {
    let mut key = vec![0u8; 14];
    key[0] = 0x05;
    assert!(ProvenanceRegistry::decode_entry(&key, &[]).is_none());
}

#[test]
fn decode_entry_truncated_key_returns_none() {
    let key = vec![0x06, 0x01, 0, 0, 0];
    assert!(ProvenanceRegistry::decode_entry(&key, &[]).is_none());
}

#[test]
fn decode_entry_unknown_kind_returns_none() {
    let mut key = vec![0u8; 14];
    key[0] = 0x06;
    key[1] = 0xFF;
    let value = serialize_provenance(&ProvenanceRecord { rule_name: "r".into(), materialized_at: 1 });
    assert!(ProvenanceRegistry::decode_entry(&key, &value).is_none());
}

#[test]
fn load_from_entries_populates_both_indexes() {
    let mut reg = ProvenanceRegistry::new();
    let n = InferredEntity::Node(NodeId(1));
    let e = InferredEntity::Edge(EdgeId(2));
    let record_a = ProvenanceRecord { rule_name: "r".into(), materialized_at: 1 };
    let record_b = ProvenanceRecord { rule_name: "r".into(), materialized_at: 1 };
    let entries = vec![
        ProvenanceRegistry::encode_entry(&n, &record_a),
        ProvenanceRegistry::encode_entry(&e, &record_b),
    ];
    reg.load_from_entries(entries);
    assert!(reg.is_inferred(&n));
    assert!(reg.is_inferred(&e));
    assert_eq!(reg.entities_by_rule("r").len(), 2);
}

#[test]
fn to_entries_load_from_entries_round_trip() {
    let mut reg1 = ProvenanceRegistry::new();
    reg1.record(InferredEntity::Node(NodeId(10)), "rule_x", 100);
    reg1.record(InferredEntity::Edge(EdgeId(20)), "rule_y", 200);
    reg1.record(InferredEntity::NodeProperty { node: NodeId(10), key: PropertyKeyId(5) }, "rule_x", 100);

    let entries = reg1.to_entries();
    let mut reg2 = ProvenanceRegistry::new();
    reg2.load_from_entries(entries);

    assert!(reg2.is_inferred(&InferredEntity::Node(NodeId(10))));
    assert!(reg2.is_inferred(&InferredEntity::Edge(EdgeId(20))));
    assert!(reg2.is_inferred(&InferredEntity::NodeProperty { node: NodeId(10), key: PropertyKeyId(5) }));
    assert_eq!(reg2.entities_by_rule("rule_x").len(), 2);
    assert_eq!(reg2.entities_by_rule("rule_y").len(), 1);
}

#[test]
fn provenance_value_layout() {
    let v = serialize_provenance(&ProvenanceRecord { rule_name: "ab".into(), materialized_at: 0x0102 });
    assert_eq!(v, vec![0x02, 0x01, 0, 0, 0, 0, 0, 0, 2, 0, b'a', b'b']);
    let r = deserialize_provenance(&v).unwrap();
    assert_eq!(r.rule_name, "ab");
    assert_eq!(r.materialized_at, 0x0102);
}

#[test]
fn provenance_value_rejects_bad_input() {
    assert!(deserialize_provenance(&[0u8; 9]).is_err());
    assert!(deserialize_provenance(&[0, 0, 0, 0, 0, 0, 0, 0, 3, 0, b'a']).is_err());
    assert!(deserialize_provenance(&[0, 0, 0, 0, 0, 0, 0, 0, 1, 0, 0xFF]).is_err());
}

#[test]
fn provenance_key_layout() {
    let record = ProvenanceRecord { rule_name: "r".into(), materialized_at: 1 };
    let (key, _) = ProvenanceRegistry::encode_entry(
        &InferredEntity::EdgeType { edge: EdgeId(0x0102030405060708), type_id: TypeId(0x0A0B0C0D) },
        &record,
    );
    assert_eq!(key, vec![0x06, 0x06, 1, 2, 3, 4, 5, 6, 7, 8, 0x0A, 0x0B, 0x0C, 0x0D]);
}

#[test]
fn to_entries_are_in_key_order() {
    let mut reg = ProvenanceRegistry::new();
    reg.record(InferredEntity::Edge(EdgeId(1)), "r", 1);
    reg.record(InferredEntity::Node(NodeId(9)), "r", 1);
    reg.record(InferredEntity::Node(NodeId(2)), "r", 1);
    let entries = reg.to_entries();
    assert_eq!(entries.len(), 3);
    assert!(entries[0].0 < entries[1].0);
    assert!(entries[1].0 < entries[2].0);
    let (first, _) = ProvenanceRegistry::decode_entry(&entries[0].0, &entries[0].1).unwrap();
    assert_eq!(first, InferredEntity::Node(NodeId(2)));
}

#[test]
fn record_moves_entity_to_end_of_rule_list() {
    let mut reg = ProvenanceRegistry::new();
    reg.record(InferredEntity::Node(NodeId(1)), "r", 1);
    reg.record(InferredEntity::Node(NodeId(2)), "r", 1);
    reg.record(InferredEntity::Node(NodeId(1)), "r", 2);
    assert_eq!(reg.entities_by_rule("r"), &[InferredEntity::Node(NodeId(2)), InferredEntity::Node(NodeId(1))]);
}

#[test]
fn provenance_keys_order_by_kind_then_id_then_sub_id() {
    let record = ProvenanceRecord { rule_name: "r".into(), materialized_at: 1 };
    let entities = vec![
        InferredEntity::Node(NodeId(1)),
        InferredEntity::Node(NodeId(256)),
        InferredEntity::Node(NodeId(u64::MAX)),
        InferredEntity::Edge(EdgeId(0)),
        InferredEntity::NodeProperty { node: NodeId(7), key: PropertyKeyId(1) },
        InferredEntity::NodeProperty { node: NodeId(7), key: PropertyKeyId(0x100) },
        InferredEntity::NodeProperty { node: NodeId(8), key: PropertyKeyId(0) },
    ];
    let keys: Vec<Vec<u8>> =
        entities.iter().map(|e| ProvenanceRegistry::encode_entry(e, &record).0).collect();
    for i in 0..keys.len() {
        for j in i + 1..keys.len() {
            assert!(keys[i] < keys[j], "key {} should order before key {}", i, j);
        }
    }
}
