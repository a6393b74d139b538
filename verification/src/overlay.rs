//! The id-keyed merge behind an overlay view of a graph: the entities of a
//! base snapshot with a transaction's pending deletes, updates and inserts
//! applied on top, in that order.
//!
//! Entities are keyed by their numeric id; what each id maps to rides
//! along unchanged.

use std::collections::HashMap;
use vstd::prelude::*;

verus! {

broadcast use vstd::std_specs::hash::group_hash_axioms;

/// The map that `entries` give, a later entry for an id overriding an
/// earlier one.
pub open spec fn entries_map<V>(entries: Seq<(u64, V)>) -> Map<u64, V>
    decreases entries.len(),
{
    if entries.len() == 0 {
        Map::empty()
    } else {
        entries_map(entries.drop_last()).insert(entries.last().0, entries.last().1)
    }
}

/// The ids that `ids` holds.
pub open spec fn id_set(ids: Seq<u64>) -> Set<u64> {
    Set::new(|k: u64| ids.contains(k))
}

/// The overlay of `base` with the ids in `deleted` removed, then `updated`
/// and then `inserted` written over it.
pub open spec fn overlay_map<V>(
    base: Seq<(u64, V)>,
    deleted: Seq<u64>,
    updated: Seq<(u64, V)>,
    inserted: Seq<(u64, V)>,
) -> Map<u64, V> {
    entries_map(base).remove_keys(id_set(deleted)).union_prefer_right(entries_map(updated)).union_prefer_right(
        entries_map(inserted),
    )
}

/// Writes every entry of `entries` into `m`, in order.
fn insert_all<V>(m: &mut HashMap<u64, V>, entries: Vec<(u64, V)>)
    ensures
        final(m)@ == old(m)@.union_prefer_right(entries_map(entries@)),
{
    let ghost s = entries@;
    let ghost m0 = m@;
    let mut entries = entries;
    let mut rev: Vec<(u64, V)> = Vec::new();
    while entries.len() > 0
        invariant
            s == entries@ + rev@.reverse(),
        decreases entries@.len(),
    {
        let ghost e0 = entries@;
        let ghost r0 = rev@;
        let e = entries.pop().unwrap();
        rev.push(e);
        proof {
            assert(e0 =~= entries@.push(e));
            assert(rev@.reverse() =~= seq![e] + r0.reverse());
            assert(entries@ + rev@.reverse() =~= entries@.push(e) + r0.reverse());
        }
    }
    let ghost mut done: Seq<(u64, V)> = Seq::empty();
    proof {
        assert(s =~= done + rev@.reverse());
    }
    while rev.len() > 0
        invariant
            s == done + rev@.reverse(),
            m@ == m0.union_prefer_right(entries_map(done)),
        decreases rev@.len(),
    {
        let ghost r0 = rev@;
        let ghost d0 = done;
        let e = rev.pop().unwrap();
        proof {
            assert(r0 =~= rev@.push(e));
            assert(r0.reverse() =~= seq![e] + rev@.reverse());
            done = done.push(e);
            assert(done.drop_last() =~= d0);
            assert(s =~= done + rev@.reverse());
        }
        let (k, v) = e;
        m.insert(k, v);
        proof {
            assert(m@ =~= m0.union_prefer_right(entries_map(done)));
        }
    }
    proof {
        assert(done =~= s);
    }
}

/// Removes every id of `ids` from `m`.
fn remove_all<V>(m: &mut HashMap<u64, V>, ids: &[u64])
    ensures
        final(m)@ == old(m)@.remove_keys(id_set(ids@)),
{
    let ghost m0 = m@;
    let mut i: usize = 0;
    while i < ids.len()
        invariant
            i <= ids@.len(),
            m@ == m0.remove_keys(id_set(ids@.subrange(0, i as int))),
        decreases ids@.len() - i,
    {
        let k = ids[i];
        m.remove(&k);
        proof {
            let a = ids@.subrange(0, i as int);
            let b = ids@.subrange(0, i + 1);
            assert(b =~= a.push(k));
            assert forall|x: u64| b.contains(x) <==> a.contains(x) || x == k by {
                if a.contains(x) {
                    let j = choose|j: int| 0 <= j < a.len() && a[j] == x;
                    assert(b[j] == x);
                }
                if x == k {
                    assert(b[i as int] == x);
                }
                if b.contains(x) && x != k {
                    let j = choose|j: int| 0 <= j < b.len() && b[j] == x;
                    assert(a[j] == x);
                }
            }
            assert(id_set(b) =~= id_set(a).insert(k));
            assert(m@ =~= m0.remove_keys(id_set(b)));
        }
        i = i + 1;
    }
    proof {
        assert(ids@.subrange(0, ids@.len() as int) =~= ids@);
    }
}

/// Merges the entities of a base snapshot, keyed by id, with pending
/// changes: the ids in `deleted` are removed, then every entry of `updated`
/// and then of `inserted` is written over what is there (a later entry for
/// an id overriding an earlier one).
pub fn overlay_ids<V>(
    base: Vec<(u64, V)>,
    deleted: &[u64],
    updated: Vec<(u64, V)>,
    inserted: Vec<(u64, V)>,
) -> (r: HashMap<u64, V>)
    ensures
        r@ == overlay_map(base@, deleted@, updated@, inserted@),
{
    let ghost (b, u, ins) = (base@, updated@, inserted@);
    let mut m: HashMap<u64, V> = HashMap::new();
    insert_all(&mut m, base);
    proof {
        assert(m@ =~= entries_map(b));
    }
    remove_all(&mut m, deleted);
    insert_all(&mut m, updated);
    insert_all(&mut m, inserted);
    m
}

/// The ids, in order, of the edges of `edges` (id, source, target) whose
/// source (`by_source`) or target (otherwise) is `node`.
pub open spec fn edge_ids_at(edges: Seq<(u64, u64, u64)>, node: u64, by_source: bool) -> Seq<u64>
    decreases edges.len(),
{
    if edges.len() == 0 {
        Seq::empty()
    } else {
        let rest = edge_ids_at(edges.drop_last(), node, by_source);
        let e = edges.last();
        if (if by_source {
            e.1
        } else {
            e.2
        }) == node {
            rest.push(e.0)
        } else {
            rest
        }
    }
}

/// The edge ids strictly ascend.
pub open spec fn ids_ascending(edges: Seq<(u64, u64, u64)>) -> bool {
    forall|a: int, b: int| 0 <= a < b < edges.len() ==> (#[trigger] edges[a]).0 < (#[trigger] edges[b]).0
}

/// `m` maps each node to the ids of its edges (by source or by target), in
/// order, and holds no other node.
pub open spec fn indexes(m: Map<u64, Vec<u64>>, edges: Seq<(u64, u64, u64)>, by_source: bool) -> bool {
    forall|n: u64|
        (#[trigger] m.contains_key(n) <==> edge_ids_at(edges, n, by_source).len() > 0) && (m.contains_key(n)
            ==> m[n]@ == edge_ids_at(edges, n, by_source))
}

/// The ids of a node's edges are a subsequence of the edges' ids, so they
/// ascend when those do.
pub proof fn lemma_edge_ids_ascending(edges: Seq<(u64, u64, u64)>, node: u64, by_source: bool)
    requires
        ids_ascending(edges),
    ensures
        forall|a: int, b: int|
            0 <= a < b < edge_ids_at(edges, node, by_source).len() ==> #[trigger] edge_ids_at(edges, node, by_source)[a]
                < #[trigger] edge_ids_at(edges, node, by_source)[b],
        forall|a: int|
            0 <= a < edge_ids_at(edges, node, by_source).len() ==> exists|j: int|
                0 <= j < edges.len() && edges[j].0 == #[trigger] edge_ids_at(edges, node, by_source)[a],
    decreases edges.len(),
{
    if edges.len() > 0 {
        let init = edges.drop_last();
        assert(ids_ascending(init)) by {
            assert forall|a: int, b: int| 0 <= a < b < init.len() implies (#[trigger] init[a]).0 < (
            #[trigger] init[b]).0 by {
                assert(init[a] == edges[a] && init[b] == edges[b]);
            }
        }
        lemma_edge_ids_ascending(init, node, by_source);
        let rest = edge_ids_at(init, node, by_source);
        let ids = edge_ids_at(edges, node, by_source);
        let last = edges.len() - 1;
        assert forall|a: int| 0 <= a < ids.len() implies exists|j: int|
            0 <= j < edges.len() && edges[j].0 == #[trigger] ids[a] by {
            if a < rest.len() {
                assert(ids[a] == rest[a]);
                let j = choose|j: int| 0 <= j < init.len() && init[j].0 == rest[a];
                assert(edges[j] == init[j]);
            } else {
                assert(edges[last].0 == ids[a]);
            }
        }
        assert forall|a: int, b: int| 0 <= a < b < ids.len() implies #[trigger] ids[a] < #[trigger] ids[b] by {
            if b < rest.len() {
                assert(ids[a] == rest[a] && ids[b] == rest[b]);
            } else {
                assert(ids[a] == rest[a]);
                let j = choose|j: int| 0 <= j < init.len() && init[j].0 == rest[a];
                assert(edges[j] == init[j]);
                assert(edges[j].0 < edges[last].0);
            }
        }
    }
}

fn index_push(m: &mut HashMap<u64, Vec<u64>>, node: u64, id: u64)
    ensures
        final(m)@[node]@ == (if old(m)@.contains_key(node) {
            old(m)@[node]@
        } else {
            Seq::<u64>::empty()
        }).push(id),
        final(m)@.contains_key(node),
        forall|n: u64| n != node ==> (#[trigger] final(m)@.contains_key(n) <==> old(m)@.contains_key(n)) && (
        old(m)@.contains_key(n) ==> final(m)@[n] == old(m)@[n]),
{
    let mut list = match m.remove(&node) {
        Some(l) => l,
        None => Vec::new(),
    };
    list.push(id);
    m.insert(node, list);
}

/// The adjacency indexes of `edges` (id, source, target), given in
/// ascending id order: each node with edges maps to the ids of the edges
/// leaving it (first map) and of those reaching it (second map), in
/// ascending order.
pub fn adjacency_index(edges: &[(u64, u64, u64)]) -> (r: (HashMap<u64, Vec<u64>>, HashMap<u64, Vec<u64>>))
    ensures
        indexes(r.0@, edges@, true),
        indexes(r.1@, edges@, false),
        ids_ascending(edges@) ==> forall|n: u64, a: int, b: int|
            r.0@.contains_key(n) && 0 <= a < b < r.0@[n]@.len() ==> #[trigger] r.0@[n]@[a] < #[trigger] r.0@[n]@[b],
        ids_ascending(edges@) ==> forall|n: u64, a: int, b: int|
            r.1@.contains_key(n) && 0 <= a < b < r.1@[n]@.len() ==> #[trigger] r.1@[n]@[a] < #[trigger] r.1@[n]@[b],
{
    let mut outgoing: HashMap<u64, Vec<u64>> = HashMap::new();
    let mut incoming: HashMap<u64, Vec<u64>> = HashMap::new();
    let mut i: usize = 0;
    while i < edges.len()
        invariant
            i <= edges@.len(),
            indexes(outgoing@, edges@.take(i as int), true),
            indexes(incoming@, edges@.take(i as int), false),
        decreases edges@.len() - i,
    {
        let (id, src, tgt) = edges[i];
        let ghost pre = edges@.take(i as int);
        let ghost post = edges@.take(i + 1);
        proof {
            assert(post.drop_last() =~= pre);
            assert(post.last() == (id, src, tgt));
        }
        index_push(&mut outgoing, src, id);
        index_push(&mut incoming, tgt, id);
        proof {
            assert forall|n: u64|
                (#[trigger] outgoing@.contains_key(n) <==> edge_ids_at(post, n, true).len() > 0) && (
                outgoing@.contains_key(n) ==> outgoing@[n]@ == edge_ids_at(post, n, true)) by {}
            assert forall|n: u64|
                (#[trigger] incoming@.contains_key(n) <==> edge_ids_at(post, n, false).len() > 0) && (
                incoming@.contains_key(n) ==> incoming@[n]@ == edge_ids_at(post, n, false)) by {}
        }
        i = i + 1;
    }
    proof {
        assert(edges@.take(edges@.len() as int) =~= edges@);
        if ids_ascending(edges@) {
            assert forall|n: u64, a: int, b: int|
                outgoing@.contains_key(n) && 0 <= a < b < outgoing@[n]@.len() implies #[trigger] outgoing@[n]@[a]
                < #[trigger] outgoing@[n]@[b] by {
                lemma_edge_ids_ascending(edges@, n, true);
            }
            assert forall|n: u64, a: int, b: int|
                incoming@.contains_key(n) && 0 <= a < b < incoming@[n]@.len() implies #[trigger] incoming@[n]@[a]
                < #[trigger] incoming@[n]@[b] by {
                lemma_edge_ids_ascending(edges@, n, false);
            }
        }
    }
    (outgoing, incoming)
}

} // verus!
