use btree::btree::Btree;

// What the walk reports of a tree, as plain tuples.
fn rows_of(tree: &Btree<i32>) -> Vec<(usize, Vec<i32>, bool)> {
    let mut rows = Vec::new();
    for row in tree.preorder() {
        rows.push((row.depth, row.keys, row.is_leaf));
    }
    rows
}

// The in-order walk of the subtree whose root is row `at`; returns the
// index of the first row behind the subtree.
fn inorder_from(rows: &[(usize, Vec<i32>, bool)], at: usize, out: &mut Vec<i32>) -> usize {
    let (_, keys, is_leaf) = &rows[at];
    if *is_leaf {
        out.extend(keys.iter().copied());
        return at + 1;
    }
    let mut next = at + 1;
    for key in keys {
        next = inorder_from(rows, next, out);
        out.push(*key);
    }
    inorder_from(rows, next, out)
}

fn inorder_of(tree: &Btree<i32>) -> Vec<i32> {
    let rows = rows_of(tree);
    let mut out = Vec::new();
    if !rows.is_empty() {
        let end = inorder_from(&rows, 0, &mut out);
        assert_eq!(end, rows.len());
    }
    out
}

// Checks the shape of a tree of minimum degree `degree` on its rows: depths
// grow by one from parent to child, every leaf is equally deep, an inner
// node has one more child than keys, and key counts are within bounds.
fn check_shape(tree: &Btree<i32>, degree: usize) {
    let rows = rows_of(tree);
    assert_eq!(rows.is_empty(), tree.is_empty());
    if rows.is_empty() {
        return;
    }
    assert_eq!(rows[0].0, 0);
    let mut leaf_depth = None;
    for (index, (depth, keys, is_leaf)) in rows.iter().enumerate() {
        assert!(keys.len() <= 2 * degree - 1);
        if index == 0 {
            assert!(keys.len() >= 1);
        } else {
            assert!(keys.len() >= degree - 1);
        }
        if *is_leaf {
            match leaf_depth {
                None => leaf_depth = Some(*depth),
                Some(d) => assert_eq!(d, *depth),
            }
        }
    }
    let mut seen = Vec::new();
    let end = inorder_from(&rows, 0, &mut seen);
    assert_eq!(end, rows.len());
    for pair in seen.windows(2) {
        assert!(pair[0] <= pair[1]);
    }
}

fn scenario_tree() -> Btree<i32> {
    let mut tree = Btree::new(3);
    for key in vec![1, 3, 7, 10, 16, 18, 23, 26, 30, 33, 35, 38, 41, 45] {
        tree.insert(key);
    }
    tree
}

#[test]
fn fourteen_keys_split_the_root() {
    let tree = scenario_tree();
    assert!(tree.search(&26));
    assert!(!tree.search(&2));
    assert_eq!(
        rows_of(&tree),
        vec![
            (0, vec![7, 18, 30], false),
            (1, vec![1, 3], true),
            (1, vec![10, 16], true),
            (1, vec![23, 26], true),
            (1, vec![33, 35, 38, 41, 45], true),
        ]
    );
}

#[test]
fn delete_three_merges_the_first_two_leaves() {
    let mut tree = scenario_tree();
    assert!(tree.delete(&3));
    assert!(!tree.search(&3));
    for key in vec![1, 7, 10, 16, 18, 23, 26, 30, 33, 35, 38, 41, 45] {
        assert!(tree.search(&key));
    }
    assert_eq!(
        rows_of(&tree),
        vec![
            (0, vec![18, 30], false),
            (1, vec![1, 7, 10, 16], true),
            (1, vec![23, 26], true),
            (1, vec![33, 35, 38, 41, 45], true),
        ]
    );
}

#[test]
fn delete_sixteen_after_three() {
    let mut tree = scenario_tree();
    assert!(tree.delete(&3));
    assert!(tree.delete(&16));
    assert!(!tree.search(&16));
    assert_eq!(inorder_of(&tree), vec![1, 7, 10, 18, 23, 26, 30, 33, 35, 38, 41, 45]);
    check_shape(&tree, 3);
}

#[test]
fn empty_tree_of_degree_two() {
    let mut tree: Btree<i32> = Btree::new(2);
    assert!(!tree.search(&5));
    assert!(!tree.delete(&5));
    assert!(tree.is_empty());
    assert!(rows_of(&tree).is_empty());
}

#[test]
fn five_keys_deleted_in_insertion_order() {
    let mut tree = Btree::new(2);
    for key in vec![1, 2, 3, 4, 5] {
        tree.insert(key);
    }
    assert_eq!(
        rows_of(&tree),
        vec![(0, vec![2], false), (1, vec![1], true), (1, vec![3, 4, 5], true)]
    );
    for key in vec![1, 2, 3, 4, 5] {
        assert!(tree.delete(&key));
        check_shape(&tree, 2);
    }
    assert!(tree.is_empty());
}

#[test]
fn internal_key_gives_way_to_its_predecessor() {
    let mut tree = scenario_tree();
    tree.insert(24);
    tree.insert(25);
    assert!(tree.delete(&30));
    assert!(!tree.search(&30));
    assert_eq!(
        rows_of(&tree),
        vec![
            (0, vec![7, 18, 26], false),
            (1, vec![1, 3], true),
            (1, vec![10, 16], true),
            (1, vec![23, 24, 25], true),
            (1, vec![33, 35, 38, 41, 45], true),
        ]
    );
}

#[test]
fn internal_key_gives_way_to_its_successor() {
    let mut tree = scenario_tree();
    assert!(tree.delete(&30));
    assert_eq!(
        rows_of(&tree),
        vec![
            (0, vec![7, 18, 33], false),
            (1, vec![1, 3], true),
            (1, vec![10, 16], true),
            (1, vec![23, 26], true),
            (1, vec![35, 38, 41, 45], true),
        ]
    );
}

#[test]
fn internal_key_between_two_small_children_merges_them() {
    let mut tree = scenario_tree();
    assert!(tree.delete(&18));
    assert_eq!(
        rows_of(&tree),
        vec![
            (0, vec![7, 30], false),
            (1, vec![1, 3], true),
            (1, vec![10, 16, 23, 26], true),
            (1, vec![33, 35, 38, 41, 45], true),
        ]
    );
}

#[test]
fn child_borrows_from_its_right_neighbour() {
    let mut tree = scenario_tree();
    assert!(tree.delete(&23));
    assert_eq!(
        rows_of(&tree),
        vec![
            (0, vec![7, 18, 33], false),
            (1, vec![1, 3], true),
            (1, vec![10, 16], true),
            (1, vec![26, 30], true),
            (1, vec![35, 38, 41, 45], true),
        ]
    );
}

#[test]
fn child_borrows_from_its_left_neighbour() {
    let mut tree = scenario_tree();
    tree.insert(11);
    assert!(tree.delete(&26));
    assert_eq!(
        rows_of(&tree),
        vec![
            (0, vec![7, 16, 30], false),
            (1, vec![1, 3], true),
            (1, vec![10, 11], true),
            (1, vec![18, 23], true),
            (1, vec![33, 35, 38, 41, 45], true),
        ]
    );
}

#[test]
fn middle_child_merged_to_the_left_is_still_searched() {
    let mut tree = Btree::new(2);
    for key in vec![1, 2, 3, 4, 5, 6] {
        tree.insert(key);
    }
    assert!(tree.delete(&6));
    assert_eq!(
        rows_of(&tree),
        vec![
            (0, vec![2, 4], false),
            (1, vec![1], true),
            (1, vec![3], true),
            (1, vec![5], true),
        ]
    );
    assert!(tree.delete(&3));
    assert!(!tree.search(&3));
    assert_eq!(
        rows_of(&tree),
        vec![(0, vec![4], false), (1, vec![1, 2], true), (1, vec![5], true)]
    );
}

#[test]
fn root_grows_and_shrinks_by_one_level() {
    let mut tree = Btree::new(2);
    for key in 1..=10 {
        tree.insert(key);
    }
    let rows = rows_of(&tree);
    assert_eq!(rows.iter().map(|row| row.0).max(), Some(2));
    check_shape(&tree, 2);
    for key in 1..=10 {
        assert!(tree.delete(&key));
        check_shape(&tree, 2);
    }
    assert!(tree.is_empty());
}

#[test]
fn equal_keys_pile_up_and_leave_one_by_one() {
    let mut tree = Btree::new(2);
    for key in vec![5, 5, 5, 1, 5, 9, 5] {
        tree.insert(key);
    }
    assert_eq!(inorder_of(&tree), vec![1, 5, 5, 5, 5, 5, 9]);
    check_shape(&tree, 2);
    for left in (0..5).rev() {
        assert!(tree.search(&5));
        assert!(tree.delete(&5));
        check_shape(&tree, 2);
        let mut expected = vec![1];
        expected.extend(std::iter::repeat(5).take(left));
        expected.push(9);
        assert_eq!(inorder_of(&tree), expected);
    }
    assert!(!tree.search(&5));
    assert!(!tree.delete(&5));
    assert!(tree.search(&1));
    assert!(tree.search(&9));
}

#[test]
fn insert_then_delete_restores_the_keys() {
    let mut tree = scenario_tree();
    let keys_before = inorder_of(&tree);
    tree.insert(20);
    assert!(tree.search(&20));
    assert!(tree.delete(&20));
    assert!(!tree.search(&20));
    assert_eq!(inorder_of(&tree), keys_before);
    for key in keys_before {
        assert!(tree.search(&key));
    }
}

#[test]
fn search_finds_exactly_the_inserted_keys() {
    let mut tree = Btree::new(4);
    let keys: Vec<i32> = (0..200).map(|i| (i * 37) % 1000).collect();
    for key in keys.iter() {
        tree.insert(*key);
    }
    for probe in 0..1000 {
        assert_eq!(tree.search(&probe), keys.contains(&probe));
    }
    check_shape(&tree, 4);
}

#[test]
fn walk_of_a_single_leaf() {
    let mut tree = Btree::new(5);
    tree.insert(3);
    tree.insert(1);
    tree.insert(2);
    assert_eq!(rows_of(&tree), vec![(0, vec![1, 2, 3], true)]);
    assert!(!tree.is_empty());
}

#[test]
fn last_key_deleted_empties_the_tree() {
    let mut tree = Btree::new(3);
    tree.insert(10);
    assert!(!tree.is_empty());
    assert!(tree.delete(&10));
    assert!(tree.is_empty());
    assert!(!tree.search(&10));
    tree.insert(11);
    assert!(tree.search(&11));
}

// A sorted vector that is changed as the tree's contract says the keys are.
fn model_insert(model: &mut Vec<i32>, key: i32) {
    let at = model.iter().filter(|k| **k < key).count();
    model.insert(at, key);
}

fn model_delete(model: &mut Vec<i32>, key: i32) -> bool {
    match model.iter().position(|k| *k == key) {
        Some(at) => {
            model.remove(at);
            true
        }
        None => false,
    }
}

fn run_against_model(degree: usize, steps: usize, span: u64, seed: u64) {
    let mut tree = Btree::new(degree);
    let mut model: Vec<i32> = Vec::new();
    let mut state = seed;
    for _ in 0..steps {
        state = state.wrapping_mul(6364136223846793005).wrapping_add(1442695040888963407);
        let key = ((state >> 33) % span) as i32;
        let delete = (state >> 20) % 5 < 2;
        if delete {
            assert_eq!(tree.delete(&key), model_delete(&mut model, key));
        } else {
            tree.insert(key);
            model_insert(&mut model, key);
        }
        assert_eq!(tree.search(&key), model.contains(&key));
        assert_eq!(tree.is_empty(), model.is_empty());
    }
    assert_eq!(inorder_of(&tree), model);
    check_shape(&tree, degree);
    for key in model.clone() {
        assert!(tree.delete(&key));
    }
    assert!(tree.is_empty());
}

#[test]
fn long_runs_agree_with_a_sorted_vector() {
    run_against_model(2, 3000, 200, 1);
    run_against_model(3, 3000, 500, 2);
    run_against_model(4, 3000, 50, 3);
    run_against_model(7, 3000, 2000, 4);
}

#[test]
fn shape_holds_after_every_step() {
    let mut tree = Btree::new(2);
    let mut state: u64 = 99;
    for _ in 0..600 {
        state = state.wrapping_mul(6364136223846793005).wrapping_add(1442695040888963407);
        let key = ((state >> 33) % 60) as i32;
        if (state >> 20) % 2 == 0 {
            tree.insert(key);
        } else {
            tree.delete(&key);
        }
        check_shape(&tree, 2);
    }
}

#[test]
fn keys_of_another_integer_type() {
    let mut tree: Btree<u64> = Btree::new(2);
    for key in vec![u64::MAX, 0, 7, u64::MAX - 1] {
        tree.insert(key);
    }
    assert!(tree.search(&u64::MAX));
    assert!(tree.delete(&0));
    assert!(!tree.search(&0));
    let rows = tree.preorder();
    assert_eq!(rows.len(), 3);
    assert_eq!(rows[0].keys, vec![u64::MAX - 1]);
    assert_eq!(rows[1].keys, vec![7]);
    assert_eq!(rows[2].keys, vec![u64::MAX]);
}

#[test]
fn keys_without_repeats_stay_strictly_increasing() {
    let mut tree = Btree::new(3);
    for key in vec![50, 20, 80, 10, 30, 70, 90, 60, 40, 0, 100, 55, 45, 35, 25, 15, 5] {
        assert!(!tree.search(&key));
        tree.insert(key);
    }
    for key in vec![30, 0, 100, 55] {
        assert!(tree.delete(&key));
    }
    let keys = inorder_of(&tree);
    assert_eq!(keys, vec![5, 10, 15, 20, 25, 35, 40, 45, 50, 60, 70, 80, 90]);
    for pair in keys.windows(2) {
        assert!(pair[0] < pair[1]);
    }
}

#[test]
fn tree_reports_its_degree() {
    let mut tree: Btree<i32> = Btree::new(6);
    assert_eq!(tree.degree(), 6);
    tree.insert(1);
    assert!(tree.delete(&1));
    assert_eq!(tree.degree(), 6);
}

#[test]
fn node_holds_at_most_twice_the_degree_less_one() {
    let mut tree = Btree::new(2);
    for key in vec![10, 20, 30] {
        tree.insert(key);
    }
    assert_eq!(rows_of(&tree), vec![(0, vec![10, 20, 30], true)]);
    tree.insert(40);
    assert_eq!(
        rows_of(&tree),
        vec![(0, vec![20], false), (1, vec![10], true), (1, vec![30, 40], true)]
    );
}

#[test]
fn equal_key_goes_in_front_of_its_equals() {
    let mut tree = Btree::new(2);
    for key in vec![1, 2, 3, 4, 2] {
        tree.insert(key);
    }
    assert_eq!(
        rows_of(&tree),
        vec![(0, vec![2], false), (1, vec![1, 2], true), (1, vec![3, 4], true)]
    );
}

#[test]
fn three_levels_after_ten_keys() {
    let mut tree = Btree::new(2);
    for key in 1..=10 {
        tree.insert(key);
    }
    assert_eq!(
        rows_of(&tree),
        vec![
            (0, vec![4], false),
            (1, vec![2], false),
            (2, vec![1], true),
            (2, vec![3], true),
            (1, vec![6, 8], false),
            (2, vec![5], true),
            (2, vec![7], true),
            (2, vec![9, 10], true),
        ]
    );
    assert!(tree.delete(&1));
    assert_eq!(
        rows_of(&tree),
        vec![
            (0, vec![6], false),
            (1, vec![4], false),
            (2, vec![2, 3], true),
            (2, vec![5], true),
            (1, vec![8], false),
            (2, vec![7], true),
            (2, vec![9, 10], true),
        ]
    );
}

#[test]
fn root_with_one_key_gives_way_to_its_merged_children() {
    let mut tree = Btree::new(2);
    for key in vec![1, 2, 3, 4] {
        tree.insert(key);
    }
    assert!(tree.delete(&4));
    assert_eq!(
        rows_of(&tree),
        vec![(0, vec![2], false), (1, vec![1], true), (1, vec![3], true)]
    );
    assert!(!tree.delete(&9));
    assert_eq!(rows_of(&tree), vec![(0, vec![1, 2, 3], true)]);
}
