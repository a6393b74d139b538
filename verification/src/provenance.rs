//! Provenance of inferred data.
//!
//! The registry records, for each entity that an inference rule produced,
//! which rule produced it and at which transaction, with a reverse index
//! from rule name to the entities it produced. Entries persist in the
//! schema store as key/value pairs:
//!
//! - key (14 bytes): `0x06`, the entity kind (1–6), the entity id (u64 BE),
//!   the sub-id (u32 BE; a property key or type id, else 0);
//! - value: the transaction id (u64 LE), the rule name's length (u16 LE),
//!   the rule name (UTF-8).

use vstd::prelude::*;
use vstd::string::StringExecFns;
use vstd::utf8::{decode_utf8, encode_utf8, valid_utf8};
use crate::codec::{
    be32, be32_bytes, be64, be64_bytes, le16, le16_bytes, le64, le64_bytes, read_be32, read_be64,
    read_le16, read_le64, write_be32, write_be64, write_le16, write_le64, copy_range,
};
use crate::error::StorageError;
use crate::keys::{key_lt, key_order, lemma_key_order_concat, lemma_key_order_facts, lemma_key_order_first_diff};
use crate::inference::{InferredEntity, ProvenanceRecord};
use crate::types::{EdgeId, NodeId, PropertyKeyId, TypeId};
use crate::text::string_of;

verus! {

broadcast use vstd::utf8::group_utf8_lib;

/// The schema store prefix byte of provenance keys.
pub const PROVENANCE_PREFIX: u8 = 0x06;

/// The kind byte of an inferred entity.
pub open spec fn entity_kind(e: InferredEntity) -> u8 {
    match e {
        InferredEntity::Node(_) => 1,
        InferredEntity::Edge(_) => 2,
        InferredEntity::NodeProperty { .. } => 3,
        InferredEntity::EdgeProperty { .. } => 4,
        InferredEntity::NodeType { .. } => 5,
        InferredEntity::EdgeType { .. } => 6,
    }
}

/// The node or edge id of an inferred entity.
pub open spec fn entity_id(e: InferredEntity) -> u64 {
    match e {
        InferredEntity::Node(n) => n.0,
        InferredEntity::Edge(x) => x.0,
        InferredEntity::NodeProperty { node, .. } => node.0,
        InferredEntity::EdgeProperty { edge, .. } => edge.0,
        InferredEntity::NodeType { node, .. } => node.0,
        InferredEntity::EdgeType { edge, .. } => edge.0,
    }
}

/// The sub-id of an inferred entity: its property key or type id, else 0.
pub open spec fn entity_sub(e: InferredEntity) -> u32 {
    match e {
        InferredEntity::Node(_) => 0,
        InferredEntity::Edge(_) => 0,
        InferredEntity::NodeProperty { key, .. } => key.0,
        InferredEntity::EdgeProperty { key, .. } => key.0,
        InferredEntity::NodeType { type_id, .. } => type_id.0,
        InferredEntity::EdgeType { type_id, .. } => type_id.0,
    }
}

/// The entity that a kind byte, id and sub-id designate, if the kind is
/// known (the sub-id of a node or edge is ignored).
pub open spec fn entity_of(kind: u8, id: u64, sub: u32) -> Option<InferredEntity> {
    if kind == 1 {
        Some(InferredEntity::Node(NodeId(id)))
    } else if kind == 2 {
        Some(InferredEntity::Edge(EdgeId(id)))
    } else if kind == 3 {
        Some(InferredEntity::NodeProperty { node: NodeId(id), key: PropertyKeyId(sub) })
    } else if kind == 4 {
        Some(InferredEntity::EdgeProperty { edge: EdgeId(id), key: PropertyKeyId(sub) })
    } else if kind == 5 {
        Some(InferredEntity::NodeType { node: NodeId(id), type_id: TypeId(sub) })
    } else if kind == 6 {
        Some(InferredEntity::EdgeType { edge: EdgeId(id), type_id: TypeId(sub) })
    } else {
        None
    }
}

/// The 14-byte schema store key of an entity's provenance entry.
pub open spec fn provenance_key(e: InferredEntity) -> Seq<u8> {
    seq![PROVENANCE_PREFIX, entity_kind(e)] + be64_bytes(entity_id(e)) + be32_bytes(entity_sub(e))
}

/// The value bytes of a provenance record with rule name `name` and
/// transaction `txn` (the name's length kept to 16 bits as written).
pub open spec fn provenance_value(name: Seq<char>, txn: u64) -> Seq<u8> {
    le64_bytes(txn) + le16_bytes(encode_utf8(name).len() as u16) + encode_utf8(name)
}

/// The entity a provenance key designates, if it is one.
pub open spec fn decode_provenance_key(key: Seq<u8>) -> Option<InferredEntity> {
    if key.len() != 14 || key[0] != PROVENANCE_PREFIX {
        None
    } else {
        entity_of(key[1], be64(key, 2), be32(key, 10))
    }
}

/// The rule name and transaction a provenance value holds, if it is one:
/// at least 10 bytes, a length that the bytes after the header cover, and
/// a UTF-8 name (bytes past the name are ignored).
pub open spec fn decode_provenance_value(value: Seq<u8>) -> Option<(Seq<char>, u64)> {
    if value.len() < 10 {
        None
    } else {
        let n = le16(value, 8) as int;
        if 10 + n > value.len() {
            None
        } else {
            let bytes = value.subrange(10, 10 + n);
            if valid_utf8(bytes) {
                Some((decode_utf8(bytes), le64(value, 0)))
            } else {
                None
            }
        }
    }
}

/// The mathematical value of a provenance record: its rule name and
/// transaction.
pub open spec fn record_view(r: ProvenanceRecord) -> (Seq<char>, u64) {
    (r.rule_name@, r.materialized_at)
}

#[verifier::external_type_specification]
#[verifier::external_body]
pub struct ExFromUtf8Error(std::string::FromUtf8Error);

/// Calls `String::from_utf8`, which succeeds exactly when the bytes are
/// valid UTF-8 and then holds the characters they encode.
#[verifier::external_body]
pub(crate) fn string_from_utf8(bytes: Vec<u8>) -> (r: Result<String, std::string::FromUtf8Error>)
    ensures
        r is Ok <==> valid_utf8(bytes@),
        r matches Ok(s) ==> s@ == decode_utf8(bytes@),
{
    String::from_utf8(bytes)
}

/// Encodes a provenance record as a schema store value.
pub fn serialize_provenance(record: &ProvenanceRecord) -> (r: Vec<u8>)
    ensures
        r@ == provenance_value(record.rule_name@, record.materialized_at),
{
    let name = record.rule_name.as_str().as_bytes();
    let n = name.len();
    let mut v: Vec<u8> = vec![0u8; 10];
    write_le64(&mut v, 0, record.materialized_at);
    write_le16(&mut v, 8, #[verifier::truncate] (n as u16));
    let ghost head = v@;
    v.extend_from_slice(name);
    proof {
        assert(head =~= le64_bytes(record.materialized_at) + le16_bytes(n as u16));
        assert forall|i: int| 10 <= i < v@.len() implies v@[i] == name@[i - 10] by {
            assert(vstd::pervasive::cloned::<u8>(name@[i - 10], v@[i]));
        }
        assert(v@ =~= provenance_value(record.rule_name@, record.materialized_at));
    }
    v
}

/// Decodes a schema store value into a provenance record.
///
/// Fails when the value is shorter than its 10-byte header or than the
/// name length it records, and when the name is not UTF-8.
pub fn deserialize_provenance(value: &[u8]) -> (r: Result<ProvenanceRecord, StorageError>)
    ensures
        match r {
            Ok(rec) => decode_provenance_value(value@) == Some(record_view(rec)),
            Err(_) => decode_provenance_value(value@) is None,
        },
{
    let len = value.len();
    if len < 10 {
        return Err(StorageError::new("provenance value too short"));
    }
    let txn = read_le64(value, 0);
    let n = read_le16(value, 8) as usize;
    if 10 + n > len {
        return Err(StorageError::new("provenance rule name extends beyond value"));
    }
    let bytes = copy_range(value, 10, n);
    match string_from_utf8(bytes) {
        Ok(rule_name) => Ok(ProvenanceRecord { rule_name, materialized_at: txn }),
        Err(_) => Err(StorageError::new("provenance rule name is not valid UTF-8")),
    }
}

/// The kind byte, id and sub-id of an entity.
pub fn entity_parts(e: &InferredEntity) -> (r: (u8, u64, u32))
    ensures
        r == (entity_kind(*e), entity_id(*e), entity_sub(*e)),
{
    match e {
        InferredEntity::Node(id) => (1, id.0, 0),
        InferredEntity::Edge(id) => (2, id.0, 0),
        InferredEntity::NodeProperty { node, key } => (3, node.0, key.0),
        InferredEntity::EdgeProperty { edge, key } => (4, edge.0, key.0),
        InferredEntity::NodeType { node, type_id } => (5, node.0, type_id.0),
        InferredEntity::EdgeType { edge, type_id } => (6, edge.0, type_id.0),
    }
}

impl ProvenanceRegistry {
    /// Encodes an entity's provenance entry as a schema store `(key, value)`.
    pub fn encode_entry(entity: &InferredEntity, record: &ProvenanceRecord) -> (r: (Vec<u8>, Vec<u8>))
        ensures
            r.0@ == provenance_key(*entity),
            r.1@ == provenance_value(record.rule_name@, record.materialized_at),
    {
        let (kind, id, sub) = entity_parts(entity);
        let mut key: Vec<u8> = vec![0u8; 14];
        key.set(0, PROVENANCE_PREFIX);
        key.set(1, kind);
        write_be64(&mut key, 2, id);
        write_be32(&mut key, 10, sub);
        assert(key@ =~= provenance_key(*entity));
        let value = serialize_provenance(record);
        (key, value)
    }

    /// Decodes a schema store `(key, value)` into an entity and its provenance
    /// record; `None` when the key is not a provenance key of a known entity
    /// kind or the value does not decode.
    pub fn decode_entry(key: &[u8], value: &[u8]) -> (r: Option<(InferredEntity, ProvenanceRecord)>)
        ensures
            match r {
                Some((e, rec)) => decode_provenance_key(key@) == Some(e) && decode_provenance_value(value@)
                    == Some(record_view(rec)),
                None => decode_provenance_key(key@) is None || decode_provenance_value(value@) is None,
            },
    {
        if key.len() != 14 || key[0] != PROVENANCE_PREFIX {
            return None;
        }
        let entity_id = read_be64(key, 2);
        let sub_id = read_be32(key, 10);
        let entity = match key[1] {
            1 => InferredEntity::Node(NodeId(entity_id)),
            2 => InferredEntity::Edge(EdgeId(entity_id)),
            3 => InferredEntity::NodeProperty { node: NodeId(entity_id), key: PropertyKeyId(sub_id) },
            4 => InferredEntity::EdgeProperty { edge: EdgeId(entity_id), key: PropertyKeyId(sub_id) },
            5 => InferredEntity::NodeType { node: NodeId(entity_id), type_id: TypeId(sub_id) },
            6 => InferredEntity::EdgeType { edge: EdgeId(entity_id), type_id: TypeId(sub_id) },
            _ => {
                return None;
            },
        };
        match deserialize_provenance(value) {
            Ok(record) => Some((entity, record)),
            Err(_) => None,
        }
    }
}

/// Decoding an encoded provenance entry gives back the entity and the
/// record, whenever the rule name's UTF-8 encoding fits the 16-bit length
/// field.
pub proof fn lemma_provenance_round_trip(e: InferredEntity, name: Seq<char>, txn: u64)
    requires
        encode_utf8(name).len() <= 0xFFFF,
    ensures
        decode_provenance_key(provenance_key(e)) == Some(e),
        decode_provenance_value(provenance_value(name, txn)) == Some((name, txn)),
{
    let k = provenance_key(e);
    crate::codec::lemma_be64_bytes(entity_id(e));
    crate::codec::lemma_be32_bytes(entity_sub(e));
    assert(be64(k, 2) == be64(be64_bytes(entity_id(e)), 0));
    assert(be32(k, 10) == be32(be32_bytes(entity_sub(e)), 0));
    let v = provenance_value(name, txn);
    let b = encode_utf8(name);
    crate::codec::lemma_u64_round_trip(txn);
    crate::codec::lemma_u16_round_trip(b.len() as u16);
    assert(le64(v, 0) == txn);
    assert(le16(v, 8) == b.len());
    assert(v.subrange(10, 10 + b.len() as int) =~= b);
}

} // verus!

verus! {

// ---------------------------------------------------------------------------
// Entity order
// ---------------------------------------------------------------------------

/// The position of an entity in key order: by kind, then id, then sub-id
/// (the order of the encoded keys).
pub open spec fn entity_rank(e: InferredEntity) -> int {
    entity_kind(e) as int * 0x1_0000_0000_0000_0000_0000_0000 + entity_id(e) as int * 0x1_0000_0000
        + entity_sub(e) as int
}

/// An entity is determined by its kind, id and sub-id.
pub proof fn lemma_entity_of_parts(e: InferredEntity)
    ensures
        entity_of(entity_kind(e), entity_id(e), entity_sub(e)) == Some(e),
{
}

/// Distinct entities have distinct ranks.
pub proof fn lemma_entity_rank_injective(a: InferredEntity, b: InferredEntity)
    requires
        entity_rank(a) == entity_rank(b),
    ensures
        a == b,
{
    lemma_entity_of_parts(a);
    lemma_entity_of_parts(b);
    assert(entity_kind(a) == entity_kind(b));
    assert(entity_id(a) == entity_id(b));
}

/// Whether `a` comes before `b` in key order.
fn entity_less(a: &InferredEntity, b: &InferredEntity) -> (r: bool)
    ensures
        r == (entity_rank(*a) < entity_rank(*b)),
{
    let (ka, ia, sa) = entity_parts(a);
    let (kb, ib, sb) = entity_parts(b);
    if ka != kb {
        ka < kb
    } else if ia != ib {
        ia < ib
    } else {
        sa < sb
    }
}

proof fn lemma_u64_byte_order(a: u64, b: u64)
    by (bit_vector)
    ensures
        ((a >> 56u64) as u8) != ((b >> 56u64) as u8)
            ==> (a < b <==> ((a >> 56u64) as u8) < ((b >> 56u64) as u8)),
        ((a >> 56u64) as u8) == ((b >> 56u64) as u8) && ((a >> 48u64) as u8) != ((b >> 48u64) as u8)
            ==> (a < b <==> ((a >> 48u64) as u8) < ((b >> 48u64) as u8)),
        ((a >> 56u64) as u8) == ((b >> 56u64) as u8) && ((a >> 48u64) as u8) == ((b >> 48u64) as u8) && ((a >> 40u64) as u8) != ((b >> 40u64) as u8)
            ==> (a < b <==> ((a >> 40u64) as u8) < ((b >> 40u64) as u8)),
        ((a >> 56u64) as u8) == ((b >> 56u64) as u8) && ((a >> 48u64) as u8) == ((b >> 48u64) as u8) && ((a >> 40u64) as u8) == ((b >> 40u64) as u8) && ((a >> 32u64) as u8) != ((b >> 32u64) as u8)
            ==> (a < b <==> ((a >> 32u64) as u8) < ((b >> 32u64) as u8)),
        ((a >> 56u64) as u8) == ((b >> 56u64) as u8) && ((a >> 48u64) as u8) == ((b >> 48u64) as u8) && ((a >> 40u64) as u8) == ((b >> 40u64) as u8) && ((a >> 32u64) as u8) == ((b >> 32u64) as u8) && ((a >> 24u64) as u8) != ((b >> 24u64) as u8)
            ==> (a < b <==> ((a >> 24u64) as u8) < ((b >> 24u64) as u8)),
        ((a >> 56u64) as u8) == ((b >> 56u64) as u8) && ((a >> 48u64) as u8) == ((b >> 48u64) as u8) && ((a >> 40u64) as u8) == ((b >> 40u64) as u8) && ((a >> 32u64) as u8) == ((b >> 32u64) as u8) && ((a >> 24u64) as u8) == ((b >> 24u64) as u8) && ((a >> 16u64) as u8) != ((b >> 16u64) as u8)
            ==> (a < b <==> ((a >> 16u64) as u8) < ((b >> 16u64) as u8)),
        ((a >> 56u64) as u8) == ((b >> 56u64) as u8) && ((a >> 48u64) as u8) == ((b >> 48u64) as u8) && ((a >> 40u64) as u8) == ((b >> 40u64) as u8) && ((a >> 32u64) as u8) == ((b >> 32u64) as u8) && ((a >> 24u64) as u8) == ((b >> 24u64) as u8) && ((a >> 16u64) as u8) == ((b >> 16u64) as u8) && ((a >> 8u64) as u8) != ((b >> 8u64) as u8)
            ==> (a < b <==> ((a >> 8u64) as u8) < ((b >> 8u64) as u8)),
        ((a >> 56u64) as u8) == ((b >> 56u64) as u8) && ((a >> 48u64) as u8) == ((b >> 48u64) as u8) && ((a >> 40u64) as u8) == ((b >> 40u64) as u8) && ((a >> 32u64) as u8) == ((b >> 32u64) as u8) && ((a >> 24u64) as u8) == ((b >> 24u64) as u8) && ((a >> 16u64) as u8) == ((b >> 16u64) as u8) && ((a >> 8u64) as u8) == ((b >> 8u64) as u8) && (a as u8) != (b as u8)
            ==> (a < b <==> (a as u8) < (b as u8)),
        ((a >> 56u64) as u8) == ((b >> 56u64) as u8) && ((a >> 48u64) as u8) == ((b >> 48u64) as u8) && ((a >> 40u64) as u8) == ((b >> 40u64) as u8) && ((a >> 32u64) as u8) == ((b >> 32u64) as u8) && ((a >> 24u64) as u8) == ((b >> 24u64) as u8) && ((a >> 16u64) as u8) == ((b >> 16u64) as u8) && ((a >> 8u64) as u8) == ((b >> 8u64) as u8) && (a as u8) == (b as u8)
            ==> a == b,
{
}

proof fn lemma_u32_byte_order(a: u32, b: u32)
    by (bit_vector)
    ensures
        ((a >> 24u32) as u8) != ((b >> 24u32) as u8)
            ==> (a < b <==> ((a >> 24u32) as u8) < ((b >> 24u32) as u8)),
        ((a >> 24u32) as u8) == ((b >> 24u32) as u8) && ((a >> 16u32) as u8) != ((b >> 16u32) as u8)
            ==> (a < b <==> ((a >> 16u32) as u8) < ((b >> 16u32) as u8)),
        ((a >> 24u32) as u8) == ((b >> 24u32) as u8) && ((a >> 16u32) as u8) == ((b >> 16u32) as u8) && ((a >> 8u32) as u8) != ((b >> 8u32) as u8)
            ==> (a < b <==> ((a >> 8u32) as u8) < ((b >> 8u32) as u8)),
        ((a >> 24u32) as u8) == ((b >> 24u32) as u8) && ((a >> 16u32) as u8) == ((b >> 16u32) as u8) && ((a >> 8u32) as u8) == ((b >> 8u32) as u8) && (a as u8) != (b as u8)
            ==> (a < b <==> (a as u8) < (b as u8)),
        ((a >> 24u32) as u8) == ((b >> 24u32) as u8) && ((a >> 16u32) as u8) == ((b >> 16u32) as u8) && ((a >> 8u32) as u8) == ((b >> 8u32) as u8) && (a as u8) == (b as u8)
            ==> a == b,
{
}

/// Big-endian encodings of 64-bit numbers order as the numbers do.
proof fn lemma_be64_key_order(a: u64, b: u64)
    ensures
        key_order(be64_bytes(a), be64_bytes(b)) == if a < b {
            -1int
        } else if a == b {
            0int
        } else {
            1int
        },
{
    let x = be64_bytes(a);
    let y = be64_bytes(b);
    lemma_u64_byte_order(a, b);
    lemma_key_order_facts(x, y);
    assert(x[0] == ((a >> 56u64) as u8) && y[0] == ((b >> 56u64) as u8));
    assert(x[1] == ((a >> 48u64) as u8) && y[1] == ((b >> 48u64) as u8));
    assert(x[2] == ((a >> 40u64) as u8) && y[2] == ((b >> 40u64) as u8));
    assert(x[3] == ((a >> 32u64) as u8) && y[3] == ((b >> 32u64) as u8));
    assert(x[4] == ((a >> 24u64) as u8) && y[4] == ((b >> 24u64) as u8));
    assert(x[5] == ((a >> 16u64) as u8) && y[5] == ((b >> 16u64) as u8));
    assert(x[6] == ((a >> 8u64) as u8) && y[6] == ((b >> 8u64) as u8));
    assert(x[7] == (a as u8) && y[7] == (b as u8));
    if a == b {
    } else if x[0] != y[0] {
        lemma_key_order_first_diff(x, y, 0);
    } else if x[1] != y[1] {
        lemma_key_order_first_diff(x, y, 1);
    } else if x[2] != y[2] {
        lemma_key_order_first_diff(x, y, 2);
    } else if x[3] != y[3] {
        lemma_key_order_first_diff(x, y, 3);
    } else if x[4] != y[4] {
        lemma_key_order_first_diff(x, y, 4);
    } else if x[5] != y[5] {
        lemma_key_order_first_diff(x, y, 5);
    } else if x[6] != y[6] {
        lemma_key_order_first_diff(x, y, 6);
    } else if x[7] != y[7] {
        lemma_key_order_first_diff(x, y, 7);
    } else {
        assert(a == b);
    }
}

/// Big-endian encodings of 32-bit numbers order as the numbers do.
proof fn lemma_be32_key_order(a: u32, b: u32)
    ensures
        key_order(be32_bytes(a), be32_bytes(b)) == if a < b {
            -1int
        } else if a == b {
            0int
        } else {
            1int
        },
{
    let x = be32_bytes(a);
    let y = be32_bytes(b);
    lemma_u32_byte_order(a, b);
    lemma_key_order_facts(x, y);
    assert(x[0] == ((a >> 24u32) as u8) && y[0] == ((b >> 24u32) as u8));
    assert(x[1] == ((a >> 16u32) as u8) && y[1] == ((b >> 16u32) as u8));
    assert(x[2] == ((a >> 8u32) as u8) && y[2] == ((b >> 8u32) as u8));
    assert(x[3] == (a as u8) && y[3] == (b as u8));
    if a == b {
    } else if x[0] != y[0] {
        lemma_key_order_first_diff(x, y, 0);
    } else if x[1] != y[1] {
        lemma_key_order_first_diff(x, y, 1);
    } else if x[2] != y[2] {
        lemma_key_order_first_diff(x, y, 2);
    } else if x[3] != y[3] {
        lemma_key_order_first_diff(x, y, 3);
    } else {
        assert(a == b);
    }
}

/// Provenance keys order as their entities do: by kind, then id, then
/// sub-id; and distinct entities have distinct keys.
pub proof fn lemma_provenance_key_order(a: InferredEntity, b: InferredEntity)
    ensures
        key_lt(provenance_key(a), provenance_key(b)) <==> entity_rank(a) < entity_rank(b),
        provenance_key(a) == provenance_key(b) <==> a == b,
{
    let (ka, ia, sa) = (entity_kind(a), entity_id(a), entity_sub(a));
    let (kb, ib, sb) = (entity_kind(b), entity_id(b), entity_sub(b));
    let pa = seq![PROVENANCE_PREFIX, ka];
    let pb = seq![PROVENANCE_PREFIX, kb];
    let ha = pa + be64_bytes(ia);
    let hb = pb + be64_bytes(ib);
    lemma_key_order_concat(ha, hb, be32_bytes(sa), be32_bytes(sb));
    lemma_key_order_concat(pa, pb, be64_bytes(ia), be64_bytes(ib));
    lemma_be64_key_order(ia, ib);
    lemma_be32_key_order(sa, sb);
    lemma_key_order_facts(pa, pb);
    lemma_key_order_facts(ha, hb);
    lemma_key_order_facts(provenance_key(a), provenance_key(b));
    if ka != kb {
        lemma_key_order_first_diff(pa, pb, 1);
    } else {
        assert(pa =~= pb);
    }
    if ha == hb {
        assert(pa =~= ha.subrange(0, 2) && pb =~= hb.subrange(0, 2));
        assert(be64_bytes(ia) =~= ha.subrange(2, 10) && be64_bytes(ib) =~= hb.subrange(2, 10));
    }
    if provenance_key(a) == provenance_key(b) {
        assert(ha =~= provenance_key(a).subrange(0, 10) && hb =~= provenance_key(b).subrange(0, 10));
        assert(be32_bytes(sa) =~= provenance_key(a).subrange(10, 14));
        assert(be32_bytes(sb) =~= provenance_key(b).subrange(10, 14));
    }
    if a == b {
    } else {
        assert(entity_rank(a) != entity_rank(b)) by {
            if entity_rank(a) == entity_rank(b) {
                lemma_entity_rank_injective(a, b);
            }
        }
    }
}

/// `s` without any occurrence of `e`, in order.
pub open spec fn without(s: Seq<InferredEntity>, e: InferredEntity) -> Seq<InferredEntity>
    decreases s.len(),
{
    if s.len() == 0 {
        s
    } else {
        let sub = without(s.drop_last(), e);
        if s.last() == e {
            sub
        } else {
            sub.push(s.last())
        }
    }
}

fn without_vec(list: &Vec<InferredEntity>, e: &InferredEntity) -> (r: Vec<InferredEntity>)
    ensures
        r@ == without(list@, *e),
{
    let mut r: Vec<InferredEntity> = Vec::new();
    let mut i: usize = 0;
    while i < list.len()
        invariant
            i <= list@.len(),
            r@ == without(list@.take(i as int), *e),
        decreases list@.len() - i,
    {
        proof {
            assert(list@.take(i + 1).drop_last() =~= list@.take(i as int));
        }
        if list[i] != *e {
            r.push(list[i]);
        }
        i = i + 1;
    }
    assert(list@.take(list@.len() as int) =~= list@);
    r
}

// ---------------------------------------------------------------------------
// The registry
// ---------------------------------------------------------------------------

/// The mathematical value of a [`ProvenanceRegistry`]: each inferred
/// entity's rule name and transaction, and each rule's entities.
#[verifier::ext_equal]
pub struct ProvenanceView {
    /// Inferred entity → (rule name, transaction).
    pub records: Map<InferredEntity, (Seq<char>, u64)>,
    /// Rule name → the entities it produced, in recording order.
    pub rules: Map<Seq<char>, Seq<InferredEntity>>,
}

/// The entities recorded for rule `name` (none when it has no entry).
pub open spec fn rule_list(rules: Map<Seq<char>, Seq<InferredEntity>>, name: Seq<char>) -> Seq<InferredEntity> {
    if rules.contains_key(name) {
        rules[name]
    } else {
        Seq::empty()
    }
}

/// The reverse index after recording `e` under rule `name`: `e` leaves the
/// list of the rule it was recorded under (which goes when it empties), and
/// joins the end of `name`'s list.
pub open spec fn rules_after_record(v: ProvenanceView, e: InferredEntity, name: Seq<char>) -> Map<Seq<char>, Seq<InferredEntity>> {
    let cleared = if v.records.contains_key(e) {
        let o = v.records[e].0;
        let l = without(rule_list(v.rules, o), e);
        if l.len() == 0 {
            v.rules.remove(o)
        } else {
            v.rules.insert(o, l)
        }
    } else {
        v.rules
    };
    cleared.insert(name, rule_list(cleared, name).push(e))
}

/// The record map of a sequence of entries with distinct entities.
pub open spec fn records_map(s: Seq<(InferredEntity, ProvenanceRecord)>) -> Map<InferredEntity, (Seq<char>, u64)> {
    Map::new(
        |e: InferredEntity| exists|i: int| 0 <= i < s.len() && #[trigger] s[i].0 == e,
        |e: InferredEntity| record_view(s[choose|i: int| 0 <= i < s.len() && #[trigger] s[i].0 == e].1),
    )
}

/// The rule map of a sequence of rule entries with distinct names.
pub open spec fn rules_map(s: Seq<(String, Vec<InferredEntity>)>) -> Map<Seq<char>, Seq<InferredEntity>> {
    Map::new(
        |n: Seq<char>| exists|i: int| 0 <= i < s.len() && #[trigger] s[i].0@ == n,
        |n: Seq<char>| s[choose|i: int| 0 <= i < s.len() && #[trigger] s[i].0@ == n].1@,
    )
}

/// Entries are in strictly increasing key order.
pub open spec fn entries_sorted(s: Seq<(InferredEntity, ProvenanceRecord)>) -> bool {
    forall|i: int, j: int| 0 <= i < j < s.len() ==> entity_rank(#[trigger] s[i].0) < entity_rank(#[trigger] s[j].0)
}

/// Rule entries have distinct names and non-empty lists.
pub open spec fn rules_wf(s: Seq<(String, Vec<InferredEntity>)>) -> bool {
    &&& forall|i: int, j: int| 0 <= i < s.len() && 0 <= j < s.len() && i != j ==> #[trigger] s[i].0@ != #[trigger] s[j].0@
    &&& forall|i: int| 0 <= i < s.len() ==> (#[trigger] s[i]).1@.len() > 0
}

proof fn lemma_records_map_at(s: Seq<(InferredEntity, ProvenanceRecord)>, i: int)
    requires
        entries_sorted(s),
        0 <= i < s.len(),
    ensures
        records_map(s).contains_key(s[i].0),
        records_map(s)[s[i].0] == record_view(s[i].1),
{
    let e = s[i].0;
    assert(exists|k: int| 0 <= k < s.len() && #[trigger] s[k].0 == e);
    let j = choose|k: int| 0 <= k < s.len() && #[trigger] s[k].0 == e;
    if j != i {
        if j < i {
            assert(entity_rank(s[j].0) < entity_rank(s[i].0));
        } else {
            assert(entity_rank(s[i].0) < entity_rank(s[j].0));
        }
    }
}

proof fn lemma_rules_map_at(s: Seq<(String, Vec<InferredEntity>)>, i: int)
    requires
        rules_wf(s),
        0 <= i < s.len(),
    ensures
        rules_map(s).contains_key(s[i].0@),
        rules_map(s)[s[i].0@] == s[i].1@,
{
    let n = s[i].0@;
    assert(exists|k: int| 0 <= k < s.len() && #[trigger] s[k].0@ == n);
    let j = choose|k: int| 0 <= k < s.len() && #[trigger] s[k].0@ == n;
    if j != i {
        assert(s[i].0@ != s[j].0@);
    }
}

/// Removing the entry at `pos` removes its entity from the record map.
proof fn lemma_records_map_remove(s: Seq<(InferredEntity, ProvenanceRecord)>, pos: int)
    requires
        entries_sorted(s),
        0 <= pos < s.len(),
    ensures
        entries_sorted(s.remove(pos)),
        records_map(s.remove(pos)) == records_map(s).remove(s[pos].0),
{
    let t = s.remove(pos);
    assert forall|i: int, j: int| 0 <= i < j < t.len() implies entity_rank(#[trigger] t[i].0) < entity_rank(#[trigger] t[j].0) by {
        let i2 = if i < pos { i } else { i + 1 };
        let j2 = if j < pos { j } else { j + 1 };
        assert(t[i] == s[i2] && t[j] == s[j2]);
        assert(entity_rank(s[i2].0) < entity_rank(s[j2].0));
    }
    let m = records_map(s).remove(s[pos].0);
    assert forall|e: InferredEntity| #[trigger] records_map(t).contains_key(e) <==> m.contains_key(e) by {
        if records_map(t).contains_key(e) {
            let k = choose|k: int| 0 <= k < t.len() && #[trigger] t[k].0 == e;
            let k2 = if k < pos { k } else { k + 1 };
            assert(s[k2].0 == e);
            lemma_records_map_at(s, k2);
            if e == s[pos].0 {
                lemma_entity_rank_injective(s[k2].0, s[pos].0);
                assert(k2 != pos);
                if k2 < pos {
                    assert(entity_rank(s[k2].0) < entity_rank(s[pos].0));
                } else {
                    assert(entity_rank(s[pos].0) < entity_rank(s[k2].0));
                }
            }
        }
        if m.contains_key(e) {
            let k = choose|k: int| 0 <= k < s.len() && #[trigger] s[k].0 == e;
            assert(k != pos);
            let k2 = if k < pos { k } else { k - 1 };
            assert(t[k2].0 == e);
        }
    }
    assert forall|e: InferredEntity| #[trigger] records_map(t).contains_key(e) implies records_map(t)[e] == m[e] by {
        let k = choose|k: int| 0 <= k < t.len() && #[trigger] t[k].0 == e;
        let k2 = if k < pos { k } else { k + 1 };
        assert(t[k] == s[k2]);
        lemma_records_map_at(t, k);
        lemma_records_map_at(s, k2);
    }
    assert(records_map(t) =~= m);
}

/// Replacing the record at `pos` (same entity) updates that entity's record.
proof fn lemma_records_map_set(s: Seq<(InferredEntity, ProvenanceRecord)>, pos: int, r: ProvenanceRecord)
    requires
        entries_sorted(s),
        0 <= pos < s.len(),
    ensures
        entries_sorted(s.update(pos, (s[pos].0, r))),
        records_map(s.update(pos, (s[pos].0, r))) == records_map(s).insert(s[pos].0, record_view(r)),
{
    let e0 = s[pos].0;
    let t = s.update(pos, (e0, r));
    assert forall|i: int, j: int| 0 <= i < j < t.len() implies entity_rank(#[trigger] t[i].0) < entity_rank(#[trigger] t[j].0) by {
        assert(t[i].0 == s[i].0 && t[j].0 == s[j].0);
    }
    let m = records_map(s).insert(e0, record_view(r));
    assert forall|e: InferredEntity| #[trigger] records_map(t).contains_key(e) <==> m.contains_key(e) by {
        if records_map(t).contains_key(e) {
            let k = choose|k: int| 0 <= k < t.len() && #[trigger] t[k].0 == e;
            assert(s[k].0 == e);
        }
        if m.contains_key(e) {
            if e == e0 {
                assert(t[pos].0 == e);
            } else {
                let k = choose|k: int| 0 <= k < s.len() && #[trigger] s[k].0 == e;
                assert(t[k].0 == e);
            }
        }
    }
    assert forall|e: InferredEntity| #[trigger] records_map(t).contains_key(e) implies records_map(t)[e] == m[e] by {
        let k = choose|k: int| 0 <= k < t.len() && #[trigger] t[k].0 == e;
        lemma_records_map_at(t, k);
        if k != pos {
            assert(t[k] == s[k]);
            lemma_records_map_at(s, k);
            if e == e0 {
                assert(s[k].0 == s[pos].0);
                if k < pos {
                    assert(entity_rank(s[k].0) < entity_rank(s[pos].0));
                } else {
                    assert(entity_rank(s[pos].0) < entity_rank(s[k].0));
                }
            }
        }
    }
    assert(records_map(t) =~= m);
}

/// Inserting a new entity at its sorted position adds its record.
proof fn lemma_records_map_insert(s: Seq<(InferredEntity, ProvenanceRecord)>, pos: int, e0: InferredEntity, r: ProvenanceRecord)
    requires
        entries_sorted(s),
        0 <= pos <= s.len(),
        forall|i: int| 0 <= i < pos ==> entity_rank(#[trigger] s[i].0) < entity_rank(e0),
        forall|i: int| pos <= i < s.len() ==> entity_rank(e0) < entity_rank(#[trigger] s[i].0),
    ensures
        entries_sorted(s.insert(pos, (e0, r))),
        records_map(s.insert(pos, (e0, r))) == records_map(s).insert(e0, record_view(r)),
{
    let t = s.insert(pos, (e0, r));
    assert forall|i: int, j: int| 0 <= i < j < t.len() implies entity_rank(#[trigger] t[i].0) < entity_rank(#[trigger] t[j].0) by {
        if i < pos {
            assert(t[i] == s[i]);
        }
        if i > pos {
            assert(t[i] == s[i - 1]);
        }
        if j < pos {
            assert(t[j] == s[j]);
        }
        if j > pos {
            assert(t[j] == s[j - 1]);
        }
    }
    let m = records_map(s).insert(e0, record_view(r));
    assert forall|e: InferredEntity| #[trigger] records_map(t).contains_key(e) <==> m.contains_key(e) by {
        if records_map(t).contains_key(e) {
            let k = choose|k: int| 0 <= k < t.len() && #[trigger] t[k].0 == e;
            if k < pos {
                assert(s[k].0 == e);
            } else if k > pos {
                assert(s[k - 1].0 == e);
            }
        }
        if m.contains_key(e) {
            if e == e0 {
                assert(t[pos].0 == e);
            } else {
                let k = choose|k: int| 0 <= k < s.len() && #[trigger] s[k].0 == e;
                if k < pos {
                    assert(t[k].0 == e);
                } else {
                    assert(t[k + 1].0 == e);
                }
            }
        }
    }
    assert forall|e: InferredEntity| #[trigger] records_map(t).contains_key(e) implies records_map(t)[e] == m[e] by {
        let k = choose|k: int| 0 <= k < t.len() && #[trigger] t[k].0 == e;
        lemma_records_map_at(t, k);
        if k != pos {
            let k2 = if k < pos { k } else { k - 1 };
            assert(t[k] == s[k2]);
            lemma_records_map_at(s, k2);
            assert(e != e0);
        }
    }
    assert(records_map(t) =~= m);
}

/// Removing the rule entry at `i` removes its name from the rule map.
proof fn lemma_rules_map_remove(s: Seq<(String, Vec<InferredEntity>)>, pos: int)
    requires
        rules_wf(s),
        0 <= pos < s.len(),
    ensures
        rules_wf(s.remove(pos)),
        rules_map(s.remove(pos)) == rules_map(s).remove(s[pos].0@),
{
    let t = s.remove(pos);
    assert forall|i: int, j: int| 0 <= i < t.len() && 0 <= j < t.len() && i != j implies #[trigger] t[i].0@ != #[trigger] t[j].0@ by {
        let i2 = if i < pos { i } else { i + 1 };
        let j2 = if j < pos { j } else { j + 1 };
        assert(t[i] == s[i2] && t[j] == s[j2]);
    }
    assert forall|i: int| 0 <= i < t.len() implies (#[trigger] t[i]).1@.len() > 0 by {
        let i2 = if i < pos { i } else { i + 1 };
        assert(t[i] == s[i2]);
    }
    let m = rules_map(s).remove(s[pos].0@);
    assert forall|n: Seq<char>| #[trigger] rules_map(t).contains_key(n) <==> m.contains_key(n) by {
        if rules_map(t).contains_key(n) {
            let k = choose|k: int| 0 <= k < t.len() && #[trigger] t[k].0@ == n;
            let k2 = if k < pos { k } else { k + 1 };
            assert(s[k2].0@ == n);
            assert(k2 != pos);
        }
        if m.contains_key(n) {
            let k = choose|k: int| 0 <= k < s.len() && #[trigger] s[k].0@ == n;
            assert(k != pos);
            let k2 = if k < pos { k } else { k - 1 };
            assert(t[k2].0@ == n);
        }
    }
    assert forall|n: Seq<char>| #[trigger] rules_map(t).contains_key(n) implies rules_map(t)[n] == m[n] by {
        let k = choose|k: int| 0 <= k < t.len() && #[trigger] t[k].0@ == n;
        let k2 = if k < pos { k } else { k + 1 };
        assert(t[k] == s[k2]);
        lemma_rules_map_at(t, k);
        lemma_rules_map_at(s, k2);
    }
    assert(rules_map(t) =~= m);
}

/// Appending a rule entry with a new name and a non-empty list adds it to
/// the rule map.
proof fn lemma_rules_map_push(s: Seq<(String, Vec<InferredEntity>)>, entry: (String, Vec<InferredEntity>))
    requires
        rules_wf(s),
        !rules_map(s).contains_key(entry.0@),
        entry.1@.len() > 0,
    ensures
        rules_wf(s.push(entry)),
        rules_map(s.push(entry)) == rules_map(s).insert(entry.0@, entry.1@),
{
    let t = s.push(entry);
    let n0 = entry.0@;
    assert forall|i: int| 0 <= i < s.len() implies #[trigger] s[i].0@ != n0 by {
        if s[i].0@ == n0 {
            assert(rules_map(s).contains_key(n0));
        }
    }
    assert forall|i: int, j: int| 0 <= i < t.len() && 0 <= j < t.len() && i != j implies #[trigger] t[i].0@ != #[trigger] t[j].0@ by {
        if i < s.len() {
            assert(t[i] == s[i]);
        }
        if j < s.len() {
            assert(t[j] == s[j]);
        }
    }
    assert forall|i: int| 0 <= i < t.len() implies (#[trigger] t[i]).1@.len() > 0 by {
        if i < s.len() {
            assert(t[i] == s[i]);
        }
    }
    let m = rules_map(s).insert(n0, entry.1@);
    assert forall|n: Seq<char>| #[trigger] rules_map(t).contains_key(n) <==> m.contains_key(n) by {
        if rules_map(t).contains_key(n) {
            let k = choose|k: int| 0 <= k < t.len() && #[trigger] t[k].0@ == n;
            if k < s.len() {
                assert(s[k].0@ == n);
            }
        }
        if m.contains_key(n) {
            if n == n0 {
                assert(t[s.len() as int].0@ == n);
            } else {
                let k = choose|k: int| 0 <= k < s.len() && #[trigger] s[k].0@ == n;
                assert(t[k].0@ == n);
            }
        }
    }
    assert forall|n: Seq<char>| #[trigger] rules_map(t).contains_key(n) implies rules_map(t)[n] == m[n] by {
        let k = choose|k: int| 0 <= k < t.len() && #[trigger] t[k].0@ == n;
        lemma_rules_map_at(t, k);
        if k < s.len() {
            assert(t[k] == s[k]);
            lemma_rules_map_at(s, k);
        }
    }
    assert(rules_map(t) =~= m);
}

} // verus!

verus! {

/// Records which entities were produced by inference rules.
///
/// Kept in memory and persisted to the schema store; loaded when the
/// database opens and updated as inference results are materialized.
pub struct ProvenanceRegistry {
    /// Entity → record, in key order.
    by_entity: Vec<(InferredEntity, ProvenanceRecord)>,
    /// Rule name → the entities it produced.
    by_rule: Vec<(String, Vec<InferredEntity>)>,
}

impl View for ProvenanceRegistry {
    type V = ProvenanceView;

    closed spec fn view(&self) -> ProvenanceView {
        ProvenanceView { records: records_map(self.by_entity@), rules: rules_map(self.by_rule@) }
    }
}

/// The first position whose entity is not before `e` in key order.
fn entity_lower_bound(v: &Vec<(InferredEntity, ProvenanceRecord)>, e: &InferredEntity) -> (r: usize)
    requires
        entries_sorted(v@),
    ensures
        r <= v@.len(),
        forall|i: int| 0 <= i < r ==> entity_rank(#[trigger] v@[i].0) < entity_rank(*e),
        forall|i: int| r <= i < v@.len() ==> entity_rank(*e) <= entity_rank(#[trigger] v@[i].0),
{
    let mut lo: usize = 0;
    let mut hi: usize = v.len();
    while lo < hi
        invariant
            lo <= hi <= v@.len(),
            entries_sorted(v@),
            forall|i: int| 0 <= i < lo ==> entity_rank(#[trigger] v@[i].0) < entity_rank(*e),
            forall|i: int| hi <= i < v@.len() ==> entity_rank(*e) <= entity_rank(#[trigger] v@[i].0),
        decreases hi - lo,
    {
        let mid = lo + (hi - lo) / 2;
        if entity_less(&v[mid].0, e) {
            lo = mid + 1;
        } else {
            hi = mid;
        }
    }
    lo
}

/// The position of the entry with entity `e`, if there is one.
fn find_entity(v: &Vec<(InferredEntity, ProvenanceRecord)>, e: &InferredEntity) -> (r: (usize, bool))
    requires
        entries_sorted(v@),
    ensures
        r.0 <= v@.len(),
        forall|i: int| 0 <= i < r.0 ==> entity_rank(#[trigger] v@[i].0) < entity_rank(*e),
        r.1 ==> r.0 < v@.len() && v@[r.0 as int].0 == *e,
        !r.1 ==> forall|i: int| r.0 <= i < v@.len() ==> entity_rank(*e) < entity_rank(#[trigger] v@[i].0),
        r.1 <==> records_map(v@).contains_key(*e),
{
    let pos = entity_lower_bound(v, e);
    let found = pos < v.len() && v[pos].0 == *e;
    proof {
        if !found {
            assert forall|i: int| pos <= i < v@.len() implies entity_rank(*e) < entity_rank(#[trigger] v@[i].0) by {
                if entity_rank(*e) == entity_rank(v@[i].0) {
                    lemma_entity_rank_injective(*e, v@[i].0);
                    if i > pos {
                        assert(entity_rank(v@[pos as int].0) < entity_rank(v@[i].0));
                    }
                }
            }
            if records_map(v@).contains_key(*e) {
                let k = choose|k: int| 0 <= k < v@.len() && #[trigger] v@[k].0 == *e;
                if k < pos {
                    assert(entity_rank(v@[k].0) < entity_rank(*e));
                } else {
                    assert(entity_rank(*e) < entity_rank(v@[k].0));
                }
            }
        } else {
            lemma_records_map_at(v@, pos as int);
        }
    }
    (pos, found)
}

/// The position of the rule entry named `name`, if there is one.
fn find_rule(v: &Vec<(String, Vec<InferredEntity>)>, name: &String) -> (r: Option<usize>)
    ensures
        r matches Some(i) ==> i < v@.len() && v@[i as int].0@ == name@,
        r is None ==> forall|i: int| 0 <= i < v@.len() ==> #[trigger] v@[i].0@ != name@,
        r is None ==> !rules_map(v@).contains_key(name@),
{
    let mut i: usize = 0;
    while i < v.len()
        invariant
            i <= v@.len(),
            forall|k: int| 0 <= k < i ==> #[trigger] v@[k].0@ != name@,
        decreases v@.len() - i,
    {
        if v[i].0 == *name {
            return Some(i);
        }
        i = i + 1;
    }
    None
}

impl ProvenanceRegistry {
    /// The registry's internal invariant: entries in strictly increasing key
    /// order; rule entries with distinct names and non-empty lists.
    pub closed spec fn wf(&self) -> bool {
        entries_sorted(self.by_entity@) && rules_wf(self.by_rule@)
    }

    /// An empty registry.
    pub fn new() -> (r: ProvenanceRegistry)
        ensures
            r.wf(),
            r@.records == Map::<InferredEntity, (Seq<char>, u64)>::empty(),
            r@.rules == Map::<Seq<char>, Seq<InferredEntity>>::empty(),
    {
        let r = ProvenanceRegistry { by_entity: Vec::new(), by_rule: Vec::new() };
        assert(r@.records =~= Map::<InferredEntity, (Seq<char>, u64)>::empty());
        assert(r@.rules =~= Map::<Seq<char>, Seq<InferredEntity>>::empty());
        r
    }

    /// The provenance record of `entity`; `None` when it was not inferred.
    pub fn get(&self, entity: &InferredEntity) -> (r: Option<&ProvenanceRecord>)
        requires
            self.wf(),
        ensures
            r is Some <==> self@.records.contains_key(*entity),
            r matches Some(rec) ==> record_view(*rec) == self@.records[*entity],
    {
        let (pos, found) = find_entity(&self.by_entity, entity);
        if found {
            proof {
                lemma_records_map_at(self.by_entity@, pos as int);
            }
            Some(&self.by_entity[pos].1)
        } else {
            None
        }
    }

    /// Whether `entity` was produced by inference.
    pub fn is_inferred(&self, entity: &InferredEntity) -> (r: bool)
        requires
            self.wf(),
        ensures
            r == self@.records.contains_key(*entity),
    {
        let (_, found) = find_entity(&self.by_entity, entity);
        found
    }

    /// The entities that rule `rule_name` produced, in recording order;
    /// empty when the rule has none.
    pub fn entities_by_rule(&self, rule_name: &str) -> (r: &[InferredEntity])
        requires
            self.wf(),
        ensures
            r@ == rule_list(self@.rules, rule_name@),
    {
        let name = string_of(rule_name);
        match find_rule(&self.by_rule, &name) {
            Some(i) => {
                proof {
                    lemma_rules_map_at(self.by_rule@, i as int);
                }
                self.by_rule[i].1.as_slice()
            },
            None => {
                let empty: &[InferredEntity] = &[];
                assert(empty@ =~= Seq::<InferredEntity>::empty());
                empty
            },
        }
    }

    /// Records that `entity` was produced by rule `rule_name` at
    /// transaction `txn_id`, replacing any earlier record of it (the entity
    /// then leaves the earlier rule's list).
    pub fn record(&mut self, entity: InferredEntity, rule_name: &str, txn_id: u64)
        requires
            old(self).wf(),
        ensures
            final(self).wf(),
            final(self)@.records == old(self)@.records.insert(entity, (rule_name@, txn_id)),
            final(self)@.rules == rules_after_record(old(self)@, entity, rule_name@),
    {
        let ghost v0 = self@;
        let name = string_of(rule_name);
        let mut entities: Vec<(InferredEntity, ProvenanceRecord)> = Vec::new();
        std::mem::swap(&mut entities, &mut self.by_entity);
        let mut rules: Vec<(String, Vec<InferredEntity>)> = Vec::new();
        std::mem::swap(&mut rules, &mut self.by_rule);
        assert(records_map(entities@) == v0.records);
        assert(rules_map(rules@) == v0.rules);
        let (pos, found) = find_entity(&entities, &entity);
        let rec = ProvenanceRecord { rule_name: name.clone(), materialized_at: txn_id };
        if found {
            proof {
                lemma_records_map_at(entities@, pos as int);
            }
            let old_rule = entities[pos].1.rule_name.clone();
            match find_rule(&rules, &old_rule) {
                Some(ri) => {
                    proof {
                        lemma_rules_map_at(rules@, ri as int);
                        lemma_rules_map_remove(rules@, ri as int);
                    }
                    let (rn, list) = rules.remove(ri);
                    let filtered = without_vec(&list, &entity);
                    if filtered.len() > 0 {
                        proof {
                            lemma_rules_map_push(rules@, (rn, filtered));
                            assert(rules_map(rules@).remove(rn@).insert(rn@, filtered@) =~= v0.rules.insert(
                                rn@,
                                filtered@,
                            ));
                        }
                        rules.push((rn, filtered));
                    }
                },
                None => {
                    proof {
                        assert(v0.rules.remove(old_rule@) =~= v0.rules);
                    }
                },
            }
            proof {
                lemma_records_map_set(entities@, pos as int, rec);
            }
            entities.set(pos, (entity, rec));
        } else {
            proof {
                lemma_records_map_insert(entities@, pos as int, entity, rec);
            }
            entities.insert(pos, (entity, rec));
        }
        let ghost cleared = rules_map(rules@);
        match find_rule(&rules, &name) {
            Some(ri) => {
                proof {
                    lemma_rules_map_at(rules@, ri as int);
                    lemma_rules_map_remove(rules@, ri as int);
                }
                let (rn, mut list) = rules.remove(ri);
                list.push(entity);
                proof {
                    lemma_rules_map_push(rules@, (rn, list));
                    assert(cleared.remove(rn@).insert(rn@, list@) =~= cleared.insert(rn@, list@));
                }
                rules.push((rn, list));
            },
            None => {
                let list = vec![entity];
                proof {
                    lemma_rules_map_push(rules@, (name, list));
                    assert(list@ =~= Seq::<InferredEntity>::empty().push(entity));
                }
                rules.push((name, list));
            },
        }
        self.by_entity = entities;
        self.by_rule = rules;
    }
}

} // verus!

verus! {

/// The byte views of encoded `(key, value)` pairs.
pub open spec fn pairs_view(es: Seq<(Vec<u8>, Vec<u8>)>) -> Seq<(Seq<u8>, Seq<u8>)> {
    es.map_values(|p: (Vec<u8>, Vec<u8>)| (p.0@, p.1@))
}

/// `es` encodes the records of `ents`, which are every entity of
/// `records`, each once, in key order.
pub open spec fn entries_encode(
    es: Seq<(Seq<u8>, Seq<u8>)>,
    ents: Seq<InferredEntity>,
    records: Map<InferredEntity, (Seq<char>, u64)>,
) -> bool {
    &&& ents.len() == es.len()
    &&& forall|i: int|
        0 <= i < es.len() ==> records.contains_key(ents[i]) && #[trigger] es[i] == (
        provenance_key(ents[i]),
        provenance_value(records[ents[i]].0, records[ents[i]].1),
    )
    &&& forall|i: int, j: int| 0 <= i < j < ents.len() ==> entity_rank(#[trigger] ents[i]) < entity_rank(#[trigger] ents[j])
    &&& forall|e: InferredEntity| #[trigger] records.contains_key(e) ==> ents.contains(e)
}

/// `es` encodes every record of `records`, each once, in key order.
pub open spec fn encoded_entries(es: Seq<(Seq<u8>, Seq<u8>)>, records: Map<InferredEntity, (Seq<char>, u64)>) -> bool {
    exists|ents: Seq<InferredEntity>| #[trigger] entries_encode(es, ents, records)
}

/// The set of the first `i + 1` elements is that of the first `i` and the
/// `i`-th.
proof fn lemma_take_to_set_step(s: Seq<InferredEntity>, i: int)
    requires
        0 <= i < s.len(),
    ensures
        s.take(i + 1).to_set() == s.take(i).to_set().insert(s[i]),
{
    let a = s.take(i + 1);
    let b = s.take(i);
    assert forall|x: InferredEntity| a.contains(x) <==> b.to_set().insert(s[i]).contains(x) by {
        if a.contains(x) {
            let j = choose|j: int| 0 <= j < a.len() && a[j] == x;
            if j < i {
                assert(b[j] == x);
            }
        }
        if b.contains(x) {
            let j = choose|j: int| 0 <= j < b.len() && b[j] == x;
            assert(a[j] == x);
        }
        if x == s[i] {
            assert(a[i] == x);
        }
    }
    assert(a.to_set() =~= b.to_set().insert(s[i]));
}

/// The registry after loading one persisted entry: an entry that decodes
/// sets its entity's record and joins the end of its rule's list; any other
/// entry is skipped.
pub open spec fn load_step(v: ProvenanceView, entry: (Seq<u8>, Seq<u8>)) -> ProvenanceView {
    match (decode_provenance_key(entry.0), decode_provenance_value(entry.1)) {
        (Some(e), Some(rec)) => ProvenanceView {
            records: v.records.insert(e, rec),
            rules: v.rules.insert(rec.0, rule_list(v.rules, rec.0).push(e)),
        },
        _ => v,
    }
}

/// The registry after loading the persisted entries `es` in order.
pub open spec fn after_load(v: ProvenanceView, es: Seq<(Seq<u8>, Seq<u8>)>) -> ProvenanceView
    decreases es.len(),
{
    if es.len() == 0 {
        v
    } else {
        load_step(after_load(v, es.drop_last()), es.last())
    }
}

/// Every rule name's UTF-8 encoding fits the 16-bit length field.
pub open spec fn names_encodable(records: Map<InferredEntity, (Seq<char>, u64)>) -> bool {
    forall|e: InferredEntity| #[trigger] records.contains_key(e) ==> encode_utf8(records[e].0).len() <= 0xFFFF
}

/// The empty registry.
pub open spec fn empty_provenance() -> ProvenanceView {
    ProvenanceView { records: Map::empty(), rules: Map::empty() }
}

impl ProvenanceRegistry {
    /// Removes every record of the entities that rule `rule_name` produced,
    /// and the rule's list; returns that list.
    pub fn remove_by_rule(&mut self, rule_name: &str) -> (r: Vec<InferredEntity>)
        requires
            old(self).wf(),
        ensures
            final(self).wf(),
            r@ == rule_list(old(self)@.rules, rule_name@),
            final(self)@.rules == old(self)@.rules.remove(rule_name@),
            final(self)@.records == old(self)@.records.remove_keys(r@.to_set()),
    {
        let ghost v0 = self@;
        let name = string_of(rule_name);
        match find_rule(&self.by_rule, &name) {
            Some(ri) => {
                let mut entities: Vec<(InferredEntity, ProvenanceRecord)> = Vec::new();
                std::mem::swap(&mut entities, &mut self.by_entity);
                let mut rules: Vec<(String, Vec<InferredEntity>)> = Vec::new();
                std::mem::swap(&mut rules, &mut self.by_rule);
                proof {
                    lemma_rules_map_at(rules@, ri as int);
                    lemma_rules_map_remove(rules@, ri as int);
                }
                let (_, list) = rules.remove(ri);
                proof {
                    assert(list@.take(0).to_set() =~= Set::<InferredEntity>::empty());
                    assert(v0.records.remove_keys(Set::<InferredEntity>::empty()) =~= v0.records);
                }
                let mut i: usize = 0;
                while i < list.len()
                    invariant
                        i <= list@.len(),
                        entries_sorted(entities@),
                        records_map(entities@) == v0.records.remove_keys(list@.take(i as int).to_set()),
                    decreases list@.len() - i,
                {
                    let ghost before = records_map(entities@);
                    let (pos, found) = find_entity(&entities, &list[i]);
                    if found {
                        proof {
                            lemma_records_map_remove(entities@, pos as int);
                        }
                        entities.remove(pos);
                    }
                    proof {
                        lemma_take_to_set_step(list@, i as int);
                        if !found {
                            assert(before.remove(list@[i as int]) =~= before);
                        }
                        assert(v0.records.remove_keys(list@.take(i as int).to_set().insert(list@[i as int]))
                            =~= before.remove(list@[i as int]));
                    }
                    i = i + 1;
                }
                proof {
                    assert(list@.take(list@.len() as int) =~= list@);
                }
                self.by_entity = entities;
                self.by_rule = rules;
                list
            },
            None => {
                let r: Vec<InferredEntity> = Vec::new();
                proof {
                    assert(v0.rules.remove(name@) =~= v0.rules);
                    assert(r@.to_set() =~= Set::<InferredEntity>::empty());
                    assert(v0.records.remove_keys(r@.to_set()) =~= v0.records);
                }
                r
            },
        }
    }

    /// Every record as an encoded `(key, value)` pair, in key order.
    pub fn to_entries(&self) -> (r: Vec<(Vec<u8>, Vec<u8>)>)
        requires
            self.wf(),
        ensures
            encoded_entries(pairs_view(r@), self@.records),
    {
        let ghost s = self.by_entity@;
        let ghost ents = s.map_values(|p: (InferredEntity, ProvenanceRecord)| p.0);
        let mut r: Vec<(Vec<u8>, Vec<u8>)> = Vec::new();
        let mut i: usize = 0;
        while i < self.by_entity.len()
            invariant
                i <= s.len(),
                s == self.by_entity@,
                entries_sorted(s),
                r@.len() == i,
                forall|k: int|
                    0 <= k < i ==> (#[trigger] r@[k]).0@ == provenance_key(s[k].0) && r@[k].1@
                        == provenance_value(s[k].1.rule_name@, s[k].1.materialized_at),
            decreases s.len() - i,
        {
            let (k, v) = ProvenanceRegistry::encode_entry(&self.by_entity[i].0, &self.by_entity[i].1);
            r.push((k, v));
            i = i + 1;
        }
        proof {
            let es = pairs_view(r@);
            assert forall|k: int| 0 <= k < es.len() implies #[trigger] es[k] == (
                provenance_key(s[k].0),
                provenance_value(s[k].1.rule_name@, s[k].1.materialized_at),
            ) by {
                assert(es[k] == (r@[k].0@, r@[k].1@));
            }
            let records = self@.records;
            assert forall|k: int| 0 <= k < es.len() implies records.contains_key(ents[k]) && #[trigger] es[k] == (
                provenance_key(ents[k]),
                provenance_value(records[ents[k]].0, records[ents[k]].1),
            ) by {
                lemma_records_map_at(s, k);
            }
            assert forall|e: InferredEntity| #[trigger] records.contains_key(e) implies ents.contains(e) by {
                let k = choose|k: int| 0 <= k < s.len() && #[trigger] s[k].0 == e;
                assert(ents[k] == e);
            }
            assert(entries_encode(es, ents, records));
        }
        r
    }

    /// Loads persisted `(key, value)` entries in order: each entry that
    /// decodes sets its entity's record and joins its rule's list; the
    /// others are skipped.
    pub fn load_from_entries(&mut self, entries: Vec<(Vec<u8>, Vec<u8>)>)
        requires
            old(self).wf(),
        ensures
            final(self).wf(),
            final(self)@ == after_load(old(self)@, pairs_view(entries@)),
    {
        let ghost v0 = self@;
        let ghost es = pairs_view(entries@);
        let mut entities: Vec<(InferredEntity, ProvenanceRecord)> = Vec::new();
        std::mem::swap(&mut entities, &mut self.by_entity);
        let mut rules: Vec<(String, Vec<InferredEntity>)> = Vec::new();
        std::mem::swap(&mut rules, &mut self.by_rule);
        proof {
            assert(es.take(0) =~= Seq::<(Seq<u8>, Seq<u8>)>::empty());
        }
        let mut i: usize = 0;
        while i < entries.len()
            invariant
                i <= entries@.len() == es.len(),
                es == pairs_view(entries@),
                entries_sorted(entities@),
                rules_wf(rules@),
                (ProvenanceView { records: records_map(entities@), rules: rules_map(rules@) }) == after_load(
                    v0,
                    es.take(i as int),
                ),
            decreases entries@.len() - i,
        {
            let ghost cur = ProvenanceView { records: records_map(entities@), rules: rules_map(rules@) };
            proof {
                assert(es.take(i + 1).drop_last() =~= es.take(i as int));
                assert(es[i as int] == (entries@[i as int].0@, entries@[i as int].1@));
            }
            match ProvenanceRegistry::decode_entry(entries[i].0.as_slice(), entries[i].1.as_slice()) {
                Some((entity, record)) => {
                    let rule_name = record.rule_name.clone();
                    let ghost rv = record_view(record);
                    let (pos, found) = find_entity(&entities, &entity);
                    if found {
                        proof {
                            lemma_records_map_set(entities@, pos as int, record);
                        }
                        entities.set(pos, (entity, record));
                    } else {
                        proof {
                            lemma_records_map_insert(entities@, pos as int, entity, record);
                        }
                        entities.insert(pos, (entity, record));
                    }
                    match find_rule(&rules, &rule_name) {
                        Some(ri) => {
                            proof {
                                lemma_rules_map_at(rules@, ri as int);
                                lemma_rules_map_remove(rules@, ri as int);
                            }
                            let (rn, mut list) = rules.remove(ri);
                            list.push(entity);
                            proof {
                                lemma_rules_map_push(rules@, (rn, list));
                                assert(cur.rules.remove(rn@).insert(rn@, list@) =~= cur.rules.insert(rn@, list@));
                            }
                            rules.push((rn, list));
                        },
                        None => {
                            let list = vec![entity];
                            proof {
                                lemma_rules_map_push(rules@, (rule_name, list));
                                assert(list@ =~= Seq::<InferredEntity>::empty().push(entity));
                            }
                            rules.push((rule_name, list));
                        },
                    }
                    proof {
                        let nv = ProvenanceView { records: records_map(entities@), rules: rules_map(rules@) };
                        assert(nv =~= load_step(cur, es[i as int]));
                    }
                },
                None => {},
            }
            i = i + 1;
        }
        proof {
            assert(es.take(es.len() as int) =~= es);
        }
        self.by_entity = entities;
        self.by_rule = rules;
    }
}

proof fn lemma_load_step_records(v: ProvenanceView, e: InferredEntity, name: Seq<char>, txn: u64)
    requires
        encode_utf8(name).len() <= 0xFFFF,
    ensures
        load_step(v, (provenance_key(e), provenance_value(name, txn))).records == v.records.insert(e, (name, txn)),
{
    lemma_provenance_round_trip(e, name, txn);
}

proof fn lemma_after_load_take(v: ProvenanceView, es: Seq<(Seq<u8>, Seq<u8>)>, k: int)
    requires
        0 < k <= es.len(),
    ensures
        after_load(v, es.take(k)) == load_step(after_load(v, es.take(k - 1)), es[k - 1]),
{
    assert(es.take(k).drop_last() =~= es.take(k - 1));
    assert(es.take(k).last() == es[k - 1]);
}

proof fn lemma_reload_prefix(
    es: Seq<(Seq<u8>, Seq<u8>)>,
    ents: Seq<InferredEntity>,
    records: Map<InferredEntity, (Seq<char>, u64)>,
    k: int,
)
    requires
        entries_encode(es, ents, records),
        names_encodable(records),
        0 <= k <= es.len(),
    ensures
        after_load(empty_provenance(), es.take(k)).records == records.restrict(ents.take(k).to_set()),
    decreases k,
{
    if k == 0 {
        assert(es.take(0) =~= Seq::<(Seq<u8>, Seq<u8>)>::empty());
        assert(records.restrict(ents.take(0).to_set()) =~= Map::<InferredEntity, (Seq<char>, u64)>::empty());
    } else {
        lemma_reload_prefix(es, ents, records, k - 1);
        let e = ents[k - 1];
        let prev = after_load(empty_provenance(), es.take(k - 1));
        assert(entries_encode(es, ents, records));
        let ek = es[k - 1];
        assert(records.contains_key(ents[k - 1]));
        assert(ek == (provenance_key(e), provenance_value(records[e].0, records[e].1)));
        lemma_after_load_take(empty_provenance(), es, k);
        lemma_load_step_records(prev, e, records[e].0, records[e].1);
        lemma_take_to_set_step(ents, k - 1);
        assert(records.restrict(ents.take(k).to_set()) =~= records.restrict(ents.take(k - 1).to_set()).insert(
            e,
            records[e],
        ));
    }
}

/// Loading the encoded entries of a registry into an empty registry gives
/// back every record, whenever every rule name fits the 16-bit length field.
pub proof fn lemma_entries_reload(es: Seq<(Seq<u8>, Seq<u8>)>, records: Map<InferredEntity, (Seq<char>, u64)>)
    requires
        encoded_entries(es, records),
        names_encodable(records),
    ensures
        after_load(empty_provenance(), es).records == records,
{
    let ents = choose|ents: Seq<InferredEntity>| #[trigger] entries_encode(es, ents, records);
    lemma_reload_prefix(es, ents, records, es.len() as int);
    assert(es.take(es.len() as int) =~= es);
    assert(ents.take(ents.len() as int) =~= ents);
    assert forall|e: InferredEntity| records.contains_key(e) <==> #[trigger] ents.to_set().contains(e) by {
        if ents.to_set().contains(e) {
            let i = choose|i: int| 0 <= i < ents.len() && ents[i] == e;
            assert(es[i] == es[i]);
        }
    }
    assert(records.restrict(ents.to_set()) =~= records);
}

/// The reverse index agrees with the records: an entity is in a rule's
/// list exactly when its record names that rule.
pub open spec fn index_consistent(v: ProvenanceView) -> bool {
    forall|e: InferredEntity, name: Seq<char>|
        #[trigger] rule_list(v.rules, name).contains(e) <==> (v.records.contains_key(e) && v.records[e].0 == name)
}

/// `without(s, e)` holds the items of `s` other than `e`.
pub proof fn lemma_without_contains(s: Seq<InferredEntity>, e: InferredEntity, x: InferredEntity)
    ensures
        without(s, e).contains(x) <==> s.contains(x) && x != e,
    decreases s.len(),
{
    if s.len() > 0 {
        let d = s.drop_last();
        let l = s.last();
        lemma_without_contains(d, e, x);
        lemma_push_contains(d, l, x);
        assert(s =~= d.push(l));
        if l != e {
            lemma_push_contains(without(d, e), l, x);
        }
    }
}

proof fn lemma_push_contains(d: Seq<InferredEntity>, l: InferredEntity, x: InferredEntity)
    ensures
        d.push(l).contains(x) <==> d.contains(x) || x == l,
{
    let s = d.push(l);
    if s.contains(x) {
        let i = choose|i: int| 0 <= i < s.len() && s[i] == x;
        if i < d.len() {
            assert(d[i] == x);
        }
    }
    if d.contains(x) {
        let i = choose|i: int| 0 <= i < d.len() && d[i] == x;
        assert(s[i] == x);
    }
    if x == l {
        assert(s[d.len() as int] == x);
    }
}

/// Recording keeps the reverse index in agreement with the records.
pub proof fn lemma_record_keeps_index(v: ProvenanceView, e: InferredEntity, name: Seq<char>, txn: u64)
    requires
        index_consistent(v),
    ensures
        index_consistent(
            ProvenanceView { records: v.records.insert(e, (name, txn)), rules: rules_after_record(v, e, name) },
        ),
{
    let records = v.records.insert(e, (name, txn));
    let cleared = if v.records.contains_key(e) {
        let o = v.records[e].0;
        let l = without(rule_list(v.rules, o), e);
        if l.len() == 0 {
            v.rules.remove(o)
        } else {
            v.rules.insert(o, l)
        }
    } else {
        v.rules
    };
    let rules = rules_after_record(v, e, name);
    assert(rules == cleared.insert(name, rule_list(cleared, name).push(e)));
    assert forall|x: InferredEntity, n: Seq<char>|
        #[trigger] rule_list(cleared, n).contains(x) <==> (v.records.contains_key(x) && v.records[x].0 == n && x != e) by {
        assert(rule_list(v.rules, n).contains(x) <==> (v.records.contains_key(x) && v.records[x].0 == n));
        if v.records.contains_key(e) {
            let o = v.records[e].0;
            let l = without(rule_list(v.rules, o), e);
            lemma_without_contains(rule_list(v.rules, o), e, x);
            if n == o {
                if l.len() == 0 {
                    assert(!rule_list(cleared, n).contains(x));
                    if v.records.contains_key(x) && v.records[x].0 == n && x != e {
                        assert(rule_list(v.rules, o).contains(x));
                        assert(l.contains(x));
                    }
                } else {
                    assert(rule_list(cleared, n) == l);
                }
            } else {
                assert(rule_list(cleared, n) == rule_list(v.rules, n));
                if rule_list(v.rules, n).contains(x) {
                    assert(x != e);
                }
            }
        } else {
            assert(cleared == v.rules);
            if rule_list(v.rules, n).contains(x) {
                assert(x != e);
            }
        }
    }
    assert forall|x: InferredEntity, n: Seq<char>|
        #[trigger] rule_list(rules, n).contains(x) <==> (records.contains_key(x) && records[x].0 == n) by {
        assert(rule_list(cleared, n).contains(x) <==> (v.records.contains_key(x) && v.records[x].0 == n && x != e));
        if n == name {
            let l = rule_list(cleared, name);
            assert(rule_list(rules, n) == l.push(e));
            if l.push(e).contains(x) {
                let j = choose|j: int| 0 <= j < l.len() + 1 && l.push(e)[j] == x;
                if j < l.len() {
                    assert(l[j] == x);
                }
            }
            if x == e {
                assert(l.push(e)[l.len() as int] == e);
            } else if l.contains(x) {
                let j = choose|j: int| 0 <= j < l.len() && l[j] == x;
                assert(l.push(e)[j] == x);
            }
        } else {
            assert(rule_list(rules, n) == rule_list(cleared, n));
        }
    }
}

/// Loading a persisted entry keeps the reverse index in agreement with the
/// records.
pub proof fn lemma_load_step_keeps_index(v: ProvenanceView, entry: (Seq<u8>, Seq<u8>))
    requires
        index_consistent(v),
        decode_provenance_key(entry.0) matches Some(e) ==> !v.records.contains_key(e),
    ensures
        index_consistent(load_step(v, entry)),
{
    match (decode_provenance_key(entry.0), decode_provenance_value(entry.1)) {
        (Some(e), Some(rec)) => {
            let w = load_step(v, entry);
            assert forall|x: InferredEntity, n: Seq<char>|
                #[trigger] rule_list(w.rules, n).contains(x) <==> (w.records.contains_key(x) && w.records[x].0 == n) by {
                assert(rule_list(v.rules, n).contains(x) <==> (v.records.contains_key(x) && v.records[x].0 == n));
                if n == rec.0 {
                    let l = rule_list(v.rules, n);
                    assert(rule_list(w.rules, n) == l.push(e));
                    if l.push(e).contains(x) {
                        let j = choose|j: int| 0 <= j < l.len() + 1 && l.push(e)[j] == x;
                        if j < l.len() {
                            assert(l[j] == x);
                        }
                    }
                    if x == e {
                        assert(l.push(e)[l.len() as int] == e);
                    } else if l.contains(x) {
                        let j = choose|j: int| 0 <= j < l.len() && l[j] == x;
                        assert(l.push(e)[j] == x);
                    }
                } else {
                    assert(rule_list(w.rules, n) == rule_list(v.rules, n));
                    if rule_list(v.rules, n).contains(x) {
                        assert(x != e);
                    }
                }
            }
        },
        _ => {},
    }
}

proof fn lemma_load_prefix_index(es: Seq<(Seq<u8>, Seq<u8>)>, records: Map<InferredEntity, (Seq<char>, u64)>, k: int)
    requires
        encoded_entries(es, records),
        names_encodable(records),
        0 <= k <= es.len(),
    ensures
        index_consistent(after_load(empty_provenance(), es.take(k))),
    decreases k,
{
    let ents = choose|ents: Seq<InferredEntity>| #[trigger] entries_encode(es, ents, records);
    assert(entries_encode(es, ents, records));
    if k == 0 {
        assert(es.take(0) =~= Seq::<(Seq<u8>, Seq<u8>)>::empty());
        let v = empty_provenance();
        assert forall|e: InferredEntity, name: Seq<char>|
            #[trigger] rule_list(v.rules, name).contains(e) <==> (v.records.contains_key(e) && v.records[e].0 == name) by {
            assert(rule_list(v.rules, name) =~= Seq::<InferredEntity>::empty());
        }
    } else {
        lemma_load_prefix_index(es, records, k - 1);
        lemma_reload_prefix(es, ents, records, k - 1);
        let e = ents[k - 1];
        let prev = after_load(empty_provenance(), es.take(k - 1));
        assert(es[k - 1] == es[k - 1]);
        assert(records.contains_key(ents[k - 1]));
        assert(es[k - 1] == (provenance_key(e), provenance_value(records[e].0, records[e].1)));
        lemma_provenance_round_trip(e, records[e].0, records[e].1);
        lemma_after_load_take(empty_provenance(), es, k);
        if prev.records.contains_key(e) {
            let t = ents.take(k - 1);
            assert(t.to_set().contains(e));
            assert(t.contains(e));
            let j = choose|j: int| 0 <= j < t.len() && #[trigger] t[j] == e;
            assert(ents[j] == e);
            assert(entity_rank(ents[j]) < entity_rank(ents[k - 1]));
        }
        lemma_load_step_keeps_index(prev, es[k - 1]);
    }
}

/// Reloading the encoded entries of a registry into an empty registry
/// rebuilds the per-rule lists: each rule's list holds exactly the entities
/// whose record names it.
pub proof fn lemma_reload_rebuilds_rule_lists(es: Seq<(Seq<u8>, Seq<u8>)>, records: Map<InferredEntity, (Seq<char>, u64)>)
    requires
        encoded_entries(es, records),
        names_encodable(records),
    ensures
        index_consistent(after_load(empty_provenance(), es)),
        after_load(empty_provenance(), es).records == records,
{
    lemma_entries_reload(es, records);
    lemma_load_prefix_index(es, records, es.len() as int);
    assert(es.take(es.len() as int) =~= es);
}

} // verus!
