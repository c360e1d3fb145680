use disjoint_sets::{DisjointSet, ForestError};

fn small() -> DisjointSet {
    DisjointSet::from_parents(vec![None, None, Some(0)]).unwrap()
}

fn sixteen() -> DisjointSet {
    DisjointSet::from_parents(vec![
        Some(10),
        Some(2),
        Some(14),
        Some(1),
        Some(3),
        None,
        Some(5),
        Some(0),
        Some(11),
        Some(8),
        Some(11),
        Some(6),
        Some(6),
        Some(2),
        None,
        Some(5),
    ])
    .unwrap()
}

#[test]
fn find_works() {
    let v = small();
    assert_eq!(v.find(0), Ok(0));
    assert_eq!(v.find(1), Ok(1));
    assert_eq!(v.find(2), Ok(0));

    let v = sixteen();
    assert_eq!(v.find(10), Ok(5));
}

#[test]
fn union_works() {
    let v = small();
    let expected: Vec<Option<usize>> = vec![None, Some(0), Some(0)];
    assert_eq!(v.union(1, 2).unwrap().parents(), &expected);

    let v = sixteen();
    let expected: Vec<Option<usize>> = vec![
        Some(10),
        Some(2),
        Some(14),
        Some(1),
        Some(3),
        Some(14),
        Some(5),
        Some(0),
        Some(11),
        Some(8),
        Some(11),
        Some(6),
        Some(6),
        Some(2),
        None,
        Some(5),
    ];
    assert_eq!(v.union(7, 4).unwrap().parents(), &expected);
}

#[test]
fn compressed_find_works() {
    let mut v = small();
    let unchanged: Vec<Option<usize>> = vec![None, None, Some(0)];
    assert_eq!(v.compressed_find(0), Ok(0));
    assert_eq!(v.parents(), &unchanged);
    assert_eq!(v.compressed_find(1), Ok(1));
    assert_eq!(v.parents(), &unchanged);
    assert_eq!(v.compressed_find(2), Ok(0));
    assert_eq!(v.parents(), &unchanged);

    let mut v = sixteen();
    let flattened: Vec<Option<usize>> = vec![
        Some(10),
        Some(2),
        Some(14),
        Some(1),
        Some(3),
        None,
        Some(5),
        Some(0),
        Some(11),
        Some(8),
        Some(5),
        Some(5),
        Some(6),
        Some(2),
        None,
        Some(5),
    ];
    assert_eq!(v.compressed_find(10), Ok(5));
    assert_eq!(v.parents(), &flattened);
    assert_eq!(v.compressed_find(10), Ok(5));
    assert_eq!(v.parents(), &flattened);

    let mut v = sixteen();
    let same_v = sixteen();
    // Compressed find agrees with naive find for every index.
    for i in 0..15 {
        assert_eq!(v.compressed_find(i), same_v.find(i));
    }
}

#[test]
fn compressed_union_works() {
    let mut v = small();
    v.compressed_union(1, 2).unwrap();
    let expected: Vec<Option<usize>> = vec![None, Some(0), Some(0)];
    assert_eq!(v.parents(), &expected);

    let mut v = sixteen();
    v.compressed_union(7, 4).unwrap();
    let expected: Vec<Option<usize>> = vec![
        Some(5),
        Some(14),
        Some(14),
        Some(14),
        Some(14),
        None,
        Some(5),
        Some(5),
        Some(11),
        Some(8),
        Some(5),
        Some(5),
        Some(6),
        Some(2),
        Some(5),
        Some(5),
    ];
    assert_eq!(v.parents(), &expected);
}

#[test]
fn out_of_range_indices_are_rejected() {
    let mut v = small();
    assert_eq!(v.find(3), Err(ForestError::RangeError));
    assert_eq!(v.union(0, 3).err(), Some(ForestError::RangeError));
    assert_eq!(v.union(3, 0).err(), Some(ForestError::RangeError));
    assert_eq!(v.compressed_find(3), Err(ForestError::RangeError));
    assert_eq!(v.compressed_find_depth(3, 0), Err(ForestError::RangeError));
    assert_eq!(v.compressed_union(0, 3), Err(ForestError::RangeError));
    assert_eq!(v.compressed_union(3, 0), Err(ForestError::RangeError));
    // A failed call leaves the forest untouched.
    let unchanged: Vec<Option<usize>> = vec![None, None, Some(0)];
    assert_eq!(v.parents(), &unchanged);
}

#[test]
fn empty_forest_has_no_valid_index() {
    let v = DisjointSet::from_parents(vec![]).unwrap();
    assert_eq!(v.len(), 0);
    assert_eq!(v.find(0), Err(ForestError::RangeError));
}

#[test]
fn construction_rejects_out_of_range_parent() {
    assert_eq!(
        DisjointSet::from_parents(vec![Some(5)]).err(),
        Some(ForestError::RangeError)
    );
    assert_eq!(
        DisjointSet::from_parents(vec![None, Some(2)]).err(),
        Some(ForestError::RangeError)
    );
}

#[test]
fn construction_rejects_cycle() {
    assert_eq!(
        DisjointSet::from_parents(vec![Some(0)]).err(),
        Some(ForestError::CycleInvariantViolation)
    );
    assert_eq!(
        DisjointSet::from_parents(vec![Some(1), Some(0)]).err(),
        Some(ForestError::CycleInvariantViolation)
    );
    assert_eq!(
        DisjointSet::from_parents(vec![None, Some(2), Some(3), Some(1)]).err(),
        Some(ForestError::CycleInvariantViolation)
    );
}

#[test]
fn compressed_find_is_idempotent() {
    let mut v = sixteen();
    let first = v.compressed_find(7).unwrap();
    // After one call the compressed index points straight at its root.
    assert_eq!(v.parents()[7], Some(first));
    let snapshot = v.parents().clone();
    let second = v.compressed_find(7).unwrap();
    assert_eq!(first, second);
    // The second call changes nothing.
    assert_eq!(v.parents(), &snapshot);
}

#[test]
fn union_leaves_input_unchanged() {
    let v = sixteen();
    let snapshot = v.parents().clone();
    let merged = v.union(7, 4).unwrap();
    assert_eq!(v.parents(), &snapshot);
    assert_ne!(merged.parents(), &snapshot);
}

#[test]
fn union_makes_finds_agree() {
    let v = sixteen();
    let merged = v.union(7, 4).unwrap();
    assert_eq!(merged.find(7), merged.find(4));

    let mut w = sixteen();
    w.compressed_union(7, 4).unwrap();
    assert_eq!(w.compressed_find(7), w.compressed_find(4));
}

fn root_count(v: &DisjointSet) -> usize {
    v.parents().iter().filter(|slot| slot.is_none()).count()
}

#[test]
fn union_shrinks_root_count() {
    let v = sixteen();
    assert_eq!(root_count(&v), 2);
    // Merging two distinct classes removes exactly one root.
    let merged = v.union(7, 4).unwrap();
    assert_eq!(root_count(&merged), 1);
    // Merging an already-united pair keeps the count.
    let same = v.union(7, 10).unwrap();
    assert_eq!(root_count(&same), 2);

    let mut w = sixteen();
    w.compressed_union(7, 4).unwrap();
    assert_eq!(root_count(&w), 1);
    let mut w2 = sixteen();
    w2.compressed_union(7, 10).unwrap();
    assert_eq!(root_count(&w2), 2);
}

#[test]
fn compressed_union_tie_breaks_toward_second_root() {
    // Equal depths: the first query's root goes under the second's.
    let mut v = DisjointSet::from_parents(vec![None, None]).unwrap();
    v.compressed_union(0, 1).unwrap();
    let expected: Vec<Option<usize>> = vec![Some(1), None];
    assert_eq!(v.parents(), &expected);
}

#[test]
fn compressed_union_prefers_deeper_root() {
    // Index 0 sits two hops deep, index 3 is a root: the shallower root
    // (index 3 itself) is attached under the deeper class's root.
    let mut v = DisjointSet::from_parents(vec![Some(1), Some(2), None, None]).unwrap();
    v.compressed_union(0, 3).unwrap();
    let expected: Vec<Option<usize>> = vec![Some(2), Some(2), None, Some(2)];
    assert_eq!(v.parents(), &expected);
}

#[test]
fn compressed_find_depth_reports_pre_compression_depth() {
    let mut v = sixteen();
    assert_eq!(v.compressed_find_depth(10, 0), Ok((5, 3)));
    let mut v = sixteen();
    // The depth argument is an accumulator added to the hop count.
    assert_eq!(v.compressed_find_depth(10, 4), Ok((5, 7)));
    // After compression the same walk is at most one hop.
    assert_eq!(v.compressed_find_depth(10, 0), Ok((5, 1)));
}

#[test]
fn compressed_union_agrees_with_naive_classes() {
    let mut v = sixteen();
    v.compressed_union(7, 4).unwrap();
    let w = sixteen().union(7, 4).unwrap();
    // Both strategies induce the same partition of 0..16.
    for a in 0..16 {
        for b in 0..16 {
            let same_compressed = v.compressed_find(a) == v.compressed_find(b);
            let same_naive = w.find(a) == w.find(b);
            assert_eq!(same_compressed, same_naive);
        }
    }
}
