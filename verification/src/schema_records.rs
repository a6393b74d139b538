//! Decoding the counter and extension-name records of the schema store.
//!
//! A counter record has the key `0x03, which` and an 8-byte little-endian
//! value: `which` 1 to 4 name the next node id, next edge id, next type id
//! and next property key id (the last two kept to their low 32 bits). An
//! extension record has the key `0x05, kind, name length (u16 LE), name`:
//! kind 1 names a constraint validator, kind 2 an inference rule. Records
//! that are too short, carry another prefix or kind, or whose name is not
//! UTF-8 are passed over.

use vstd::prelude::*;
use vstd::utf8::{decode_utf8, valid_utf8};
use crate::codec::{copy_range, le16, le64, read_le16, read_le64};
use crate::config::texts;
use crate::provenance::string_from_utf8;

verus! {

/// The id counters that the schema store persists.
#[derive(Clone, Copy, Debug, PartialEq, Eq, Structural)]
pub struct SchemaCounters {
    /// The next node id to hand out.
    pub next_node_id: u64,
    /// The next edge id to hand out.
    pub next_edge_id: u64,
    /// The next type id to hand out.
    pub next_type_id: u32,
    /// The next property key id to hand out.
    pub next_property_key_id: u32,
}

/// The extension names that the schema store persists.
#[derive(Clone, Debug)]
pub struct PersistedNames {
    /// Constraint validator names, in record order.
    pub constraints: Vec<String>,
    /// Inference rule names, in record order.
    pub inference_rules: Vec<String>,
}

/// The bytes of each key and value.
pub open spec fn entry_views(entries: Seq<(Vec<u8>, Vec<u8>)>) -> Seq<(Seq<u8>, Seq<u8>)> {
    entries.map_values(|e: (Vec<u8>, Vec<u8>)| (e.0@, e.1@))
}

/// The counters after the record with key `key` and value `value`.
pub open spec fn counter_record(c: SchemaCounters, key: Seq<u8>, value: Seq<u8>) -> SchemaCounters {
    if key.len() >= 2 && key[0] == 3 && value.len() >= 8 {
        let v = le64(value, 0);
        if key[1] == 1 {
            SchemaCounters { next_node_id: v, ..c }
        } else if key[1] == 2 {
            SchemaCounters { next_edge_id: v, ..c }
        } else if key[1] == 3 {
            SchemaCounters { next_type_id: v as u32, ..c }
        } else if key[1] == 4 {
            SchemaCounters { next_property_key_id: v as u32, ..c }
        } else {
            c
        }
    } else {
        c
    }
}

/// The counters after the records `entries`, in order.
pub open spec fn counters_after(c: SchemaCounters, entries: Seq<(Seq<u8>, Seq<u8>)>) -> SchemaCounters
    decreases entries.len(),
{
    if entries.len() == 0 {
        c
    } else {
        let last = entries.last();
        counter_record(counters_after(c, entries.drop_last()), last.0, last.1)
    }
}

/// The kind and name that an extension record's key carries, if any.
pub open spec fn extension_record(key: Seq<u8>) -> Option<(u8, Seq<char>)> {
    if key.len() >= 4 && key[0] == 5 {
        let n = le16(key, 2) as int;
        if key.len() >= 4 + n && valid_utf8(key.subrange(4, 4 + n)) {
            Some((key[1], decode_utf8(key.subrange(4, 4 + n))))
        } else {
            None
        }
    } else {
        None
    }
}

/// The names of kind `kind` that the extension records `entries` carry, in
/// order.
pub open spec fn extension_names(entries: Seq<(Seq<u8>, Seq<u8>)>, kind: u8) -> Seq<Seq<char>>
    decreases entries.len(),
{
    if entries.len() == 0 {
        Seq::empty()
    } else {
        let rest = extension_names(entries.drop_last(), kind);
        match extension_record(entries.last().0) {
            Some((k, name)) => if k == kind {
                rest.push(name)
            } else {
                rest
            },
            None => rest,
        }
    }
}

/// Applies the counter records `counter_entries` to `counters`, in order,
/// and appends the names that the extension records `extension_entries`
/// carry to `names`: constraint validators (kind 1) and inference rules
/// (kind 2).
pub fn load_schema_records(
    counter_entries: &[(Vec<u8>, Vec<u8>)],
    extension_entries: &[(Vec<u8>, Vec<u8>)],
    counters: &mut SchemaCounters,
    names: &mut PersistedNames,
)
    ensures
        *final(counters) == counters_after(*old(counters), entry_views(counter_entries@)),
        texts(final(names).constraints@) == texts(old(names).constraints@) + extension_names(
            entry_views(extension_entries@),
            1,
        ),
        texts(final(names).inference_rules@) == texts(old(names).inference_rules@) + extension_names(
            entry_views(extension_entries@),
            2,
        ),
{
    let ghost ce = entry_views(counter_entries@);
    let ghost c0 = *counters;
    let mut i: usize = 0;
    while i < counter_entries.len()
        invariant
            i <= counter_entries@.len(),
            ce == entry_views(counter_entries@),
            *counters == counters_after(c0, ce.subrange(0, i as int)),
        decreases counter_entries@.len() - i,
    {
        let key = counter_entries[i].0.as_slice();
        let value = counter_entries[i].1.as_slice();
        proof {
            assert(ce.subrange(0, i + 1).drop_last() =~= ce.subrange(0, i as int));
            assert(ce[i as int] == (key@, value@));
        }
        if key.len() >= 2 && key[0] == 3 && value.len() >= 8 {
            let v = read_le64(value, 0);
            if key[1] == 1 {
                counters.next_node_id = v;
            } else if key[1] == 2 {
                counters.next_edge_id = v;
            } else if key[1] == 3 {
                counters.next_type_id = #[verifier::truncate] (v as u32);
            } else if key[1] == 4 {
                counters.next_property_key_id = #[verifier::truncate] (v as u32);
            }
        }
        i = i + 1;
    }
    proof {
        assert(ce.subrange(0, ce.len() as int) =~= ce);
    }
    let ghost ee = entry_views(extension_entries@);
    let ghost n1 = texts(names.constraints@);
    let ghost n2 = texts(names.inference_rules@);
    let mut j: usize = 0;
    while j < extension_entries.len()
        invariant
            j <= extension_entries@.len(),
            ee == entry_views(extension_entries@),
            texts(names.constraints@) == n1 + extension_names(ee.subrange(0, j as int), 1),
            texts(names.inference_rules@) == n2 + extension_names(ee.subrange(0, j as int), 2),
        decreases extension_entries@.len() - j,
    {
        let key = extension_entries[j].0.as_slice();
        let ghost sub = ee.subrange(0, j + 1);
        proof {
            assert(sub.drop_last() =~= ee.subrange(0, j as int));
            assert(sub.last().0 == key@);
        }
        if key.len() >= 4 && key[0] == 5 {
            let kind = key[1];
            let n = read_le16(key, 2) as usize;
            if key.len() >= 4 + n {
                let bytes = copy_range(key, 4, n);
                match string_from_utf8(bytes) {
                    Ok(name) => {
                        let ghost nv = name@;
                        if kind == 1 {
                            let ghost before = names.constraints@;
                            names.constraints.push(name);
                            proof {
                                assert(texts(names.constraints@) =~= texts(before).push(nv));
                            }
                        } else if kind == 2 {
                            let ghost before = names.inference_rules@;
                            names.inference_rules.push(name);
                            proof {
                                assert(texts(names.inference_rules@) =~= texts(before).push(nv));
                            }
                        }
                    },
                    Err(_) => {},
                }
            }
        }
        j = j + 1;
    }
    proof {
        assert(ee.subrange(0, ee.len() as int) =~= ee);
    }
}

} // verus!
