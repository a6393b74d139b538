use phonograph::constraint::affected_type_ids;
use phonograph::types::TypeId;

fn ids(v: &[u32]) -> Vec<TypeId> {
    v.iter().map(|&t| TypeId(t)).collect()
}

#[test]
fn affected_type_ids_deduplicated() {
    // Two inserted nodes labelled {1, 2} and {2, 3}, one edge labelled {3, 4}.
    let lists = vec![ids(&[1, 2]), ids(&[2, 3]), ids(&[3, 4])];
    assert_eq!(affected_type_ids(&lists), ids(&[1, 2, 3, 4]));
}

#[test]
fn affected_type_ids_sorts_unsorted_labels() {
    let lists = vec![ids(&[9, 3]), ids(&[]), ids(&[5, 9, 1])];
    assert_eq!(affected_type_ids(&lists), ids(&[1, 3, 5, 9]));
}

#[test]
fn affected_type_ids_of_no_changes() {
    let lists: Vec<Vec<TypeId>> = vec![];
    assert!(affected_type_ids(&lists).is_empty());
}
