//! Constraint violations reported by validators, and the types a set of
//! changes touches.

use vstd::prelude::*;
use crate::types::{EdgeId, NodeId, TypeId};

verus! {

/// The type ids strictly increase.
pub open spec fn type_ids_sorted(s: Seq<TypeId>) -> bool {
    forall|i: int, j: int| 0 <= i < j < s.len() ==> (#[trigger] s[i]).0 < (#[trigger] s[j]).0
}

/// The type ids that some label list holds.
pub open spec fn labels_union(lists: Seq<Seq<TypeId>>) -> Set<TypeId> {
    Set::new(|t: TypeId| exists|i: int, j: int| 0 <= i < lists.len() && 0 <= j < lists[i].len() && #[trigger] lists[i][j] == t)
}

/// Adds `t` to the sorted ids, unless they hold it already.
fn insert_sorted(ids: &mut Vec<TypeId>, t: TypeId)
    requires
        type_ids_sorted(old(ids)@),
    ensures
        type_ids_sorted(final(ids)@),
        final(ids)@.to_set() == old(ids)@.to_set().insert(t),
{
    let mut lo: usize = 0;
    let mut hi: usize = ids.len();
    while lo < hi
        invariant
            lo <= hi <= ids@.len(),
            type_ids_sorted(ids@),
            forall|k: int| 0 <= k < lo ==> (#[trigger] ids@[k]).0 < t.0,
            forall|k: int| hi <= k < ids@.len() ==> (#[trigger] ids@[k]).0 >= t.0,
        decreases hi - lo,
    {
        let mid = lo + (hi - lo) / 2;
        if ids[mid].0 < t.0 {
            lo = mid + 1;
        } else {
            hi = mid;
        }
    }
    if lo < ids.len() && ids[lo].0 == t.0 {
        proof {
            assert(ids@[lo as int] == t);
            assert(ids@.to_set() =~= ids@.to_set().insert(t));
        }
        return;
    }
    let ghost before = ids@;
    ids.insert(lo, t);
    proof {
        assert(ids@ =~= before.insert(lo as int, t));
        assert forall|i: int, j: int| 0 <= i < j < ids@.len() implies (#[trigger] ids@[i]).0 < (#[trigger] ids@[j]).0 by {
            if j < lo {
            } else if i < lo && j == lo {
            } else if i < lo {
                assert(ids@[j] == before[j - 1]);
            } else if i == lo {
                assert(ids@[j] == before[j - 1]);
                assert(before[j - 1].0 >= t.0);
                assert(before[j - 1] != t) by {
                    if j - 1 == lo {
                        assert(before[lo as int].0 != t.0);
                    } else {
                        assert(before[lo as int].0 < before[j - 1].0);
                    }
                }
            } else {
                assert(ids@[i] == before[i - 1] && ids@[j] == before[j - 1]);
            }
        }
        assert(ids@.to_set() =~= before.to_set().insert(t)) by {
            assert forall|x: TypeId| ids@.to_set().contains(x) implies before.to_set().insert(t).contains(x) by {
                let k = choose|k: int| 0 <= k < ids@.len() && ids@[k] == x;
                if k < lo {
                    assert(before[k] == x);
                } else if k > lo {
                    assert(before[k - 1] == x);
                }
            }
            assert forall|x: TypeId| before.to_set().insert(t).contains(x) implies ids@.to_set().contains(x) by {
                if x == t {
                    assert(ids@[lo as int] == t);
                } else {
                    let k = choose|k: int| 0 <= k < before.len() && before[k] == x;
                    if k < lo {
                        assert(ids@[k] == x);
                    } else {
                        assert(ids@[k + 1] == x);
                    }
                }
            }
        }
    }
}

/// The type ids that the given label lists hold, each once, in increasing
/// order: the types a set of node and edge changes touches, given the type
/// labels of every node and edge state involved.
pub fn affected_type_ids(label_lists: &[Vec<TypeId>]) -> (r: Vec<TypeId>)
    ensures
        type_ids_sorted(r@),
        r@.to_set() == labels_union(label_lists@.map_values(|l: Vec<TypeId>| l@)),
{
    let ghost lists = label_lists@.map_values(|l: Vec<TypeId>| l@);
    let mut ids: Vec<TypeId> = Vec::new();
    let mut i: usize = 0;
    proof {
        assert(ids@.to_set() =~= labels_union(lists.take(0)));
    }
    while i < label_lists.len()
        invariant
            i <= label_lists@.len(),
            lists == label_lists@.map_values(|l: Vec<TypeId>| l@),
            type_ids_sorted(ids@),
            ids@.to_set() == labels_union(lists.take(i as int)),
        decreases label_lists@.len() - i,
    {
        let labels = &label_lists[i];
        let mut j: usize = 0;
        while j < labels.len()
            invariant
                i < label_lists@.len(),
                j <= labels@.len(),
                labels@ == lists[i as int],
                lists == label_lists@.map_values(|l: Vec<TypeId>| l@),
                type_ids_sorted(ids@),
                ids@.to_set() == labels_union(lists.take(i as int)).union(lists[i as int].take(j as int).to_set()),
            decreases labels@.len() - j,
        {
            let ghost prev = ids@.to_set();
            insert_sorted(&mut ids, labels[j]);
            proof {
                assert(lists[i as int].take(j + 1) =~= lists[i as int].take(j as int).push(labels@[j as int]));
                lists[i as int].take(j as int).lemma_push_to_set_commute(labels@[j as int]);
                assert(ids@.to_set() =~= labels_union(lists.take(i as int)).union(lists[i as int].take(j + 1).to_set()));
            }
            j = j + 1;
        }
        proof {
            assert(lists[i as int].take(labels@.len() as int) =~= lists[i as int]);
            assert(labels_union(lists.take(i + 1)) =~= labels_union(lists.take(i as int)).union(lists[i as int].to_set())) by {
                let a = lists.take(i + 1);
                let b = lists.take(i as int);
                assert forall|t: TypeId| labels_union(a).contains(t) implies labels_union(b).union(lists[i as int].to_set()).contains(t) by {
                    let (x, y) = choose|x: int, y: int| 0 <= x < a.len() && 0 <= y < a[x].len() && #[trigger] a[x][y] == t;
                    if x < i {
                        assert(b[x][y] == t);
                    } else {
                        assert(lists[i as int][y] == t);
                    }
                }
                assert forall|t: TypeId| labels_union(b).union(lists[i as int].to_set()).contains(t) implies labels_union(a).contains(t) by {
                    if labels_union(b).contains(t) {
                        let (x, y) = choose|x: int, y: int| 0 <= x < b.len() && 0 <= y < b[x].len() && #[trigger] b[x][y] == t;
                        assert(a[x][y] == t);
                    } else {
                        let y = choose|y: int| 0 <= y < lists[i as int].len() && lists[i as int][y] == t;
                        assert(a[i as int][y] == t);
                    }
                }
            }
        }
        i = i + 1;
    }
    proof {
        assert(lists.take(label_lists@.len() as int) =~= lists);
    }
    ids
}

/// Identifies the entity that caused a [`ConstraintViolation`].
#[derive(Clone, Copy, Debug, PartialEq, Eq, Structural)]
pub enum ViolationSubject {
    /// A node caused the violation.
    Node(NodeId),
    /// An edge caused the violation.
    Edge(EdgeId),
    /// A type definition caused the violation.
    Type(TypeId),
}

/// A constraint violation produced by a validator.
#[derive(Clone, Debug)]
pub struct ConstraintViolation {
    /// A machine-readable kind identifier (e.g. `"required_property_missing"`).
    pub violation_kind: String,
    /// A human-readable description of the violation.
    pub message: String,
    /// The entity that caused the violation, if applicable.
    pub subject: Option<ViolationSubject>,
}

} // verus!
