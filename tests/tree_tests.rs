use h5inspect::tree::{ancestor_paths, reconcile_selection, Hdf5Object, TreeError, TreeNode};

#[test]
fn test_path_to_first_match() {
    let tree = TreeNode::<i32>::new_with_indices(
        0,
        "root",
        vec![
            TreeNode::new_with_indices(1, "child1", vec![], vec![], true),
            TreeNode::new_with_indices(2, "child2", vec![], vec![], true),
        ],
        vec![],
        false,
    );
    assert_eq!(tree.path_to_first_match(), vec![0, 1]);
}

#[test]
fn test_path_to_first_match_no_match() {
    let tree = TreeNode::<i32>::new_with_indices(0, "root", vec![], vec![], false);
    assert_eq!(tree.path_to_first_match(), vec![]);
}

#[test]
fn test_path_to_first_match_nested() {
    let tree = TreeNode::<i32>::new_with_indices(
        0,
        "root",
        vec![
            TreeNode::new_with_indices(
                1,
                "child1",
                vec![TreeNode::new_with_indices(
                    2,
                    "child2",
                    vec![],
                    vec![],
                    false,
                )],
                vec![],
                false,
            ),
            TreeNode::new_with_indices(3, "child3", vec![], vec![], true),
        ],
        vec![],
        false,
    );
    assert_eq!(tree.path_to_first_match(), vec![0, 3]);
}

#[test]
fn test_get_selected_node() {
    let tree = TreeNode::<i32>::new(
        0,
        "root",
        vec![
            TreeNode::new(1, "child1", vec![]),
            TreeNode::new(2, "child2", vec![]),
        ],
    );
    assert_eq!(tree.get_selected_node(&vec![0]), Some(&tree));
    assert_eq!(tree.get_selected_node(&vec![0, 1]), Some(&tree.children()[0]));
    assert_eq!(tree.get_selected_node(&vec![0, 2]), Some(&tree.children()[1]));
    assert_eq!(tree.get_selected_node(&vec![0, 1, 5]), None);
    assert_eq!(tree.get_selected_node(&vec![]), None);
    assert_eq!(tree.get_selected_node(&vec![0, 5]), None);
}

fn sample_tree() -> TreeNode<i64> {
    TreeNode::new(
        0,
        "root",
        vec![
            TreeNode::new(
                1,
                "group",
                vec![
                    TreeNode::new(2, "alpha", vec![]).set_hdf5_object(Hdf5Object::Dataset),
                    TreeNode::new(3, "beta", vec![]).set_hdf5_object(Hdf5Object::Dataset),
                ],
            )
            .set_hdf5_object(Hdf5Object::Group),
            TreeNode::new(4, "gamma", vec![]).set_hdf5_object(Hdf5Object::Dataset),
        ],
    )
    .set_hdf5_object(Hdf5Object::Group)
}

#[test]
fn recursive_count_sums_children() {
    let tree = sample_tree();
    assert_eq!(tree.recursive_num_children(), 4);
    assert_eq!(tree.children()[0].recursive_num_children(), 2);
    assert_eq!(tree.children()[1].recursive_num_children(), 0);
    let counted: usize = tree
        .children()
        .iter()
        .map(|c| 1 + c.recursive_num_children())
        .sum();
    assert_eq!(counted, tree.recursive_num_children());
}

#[test]
fn storage_size_sums_children() {
    let tree = TreeNode::<i64>::new(
        0,
        "root",
        vec![
            TreeNode::new(1, "a", vec![]).set_storage_dataset_size(100),
            TreeNode::new(2, "b", vec![]).set_storage_dataset_size(23),
        ],
    );
    assert_eq!(tree.recursive_storage_data_size, 123);
}

#[test]
fn filter_keeps_matches_and_their_ancestors() {
    let tree = sample_tree();
    let view = tree.filter("alpha").unwrap();
    assert_eq!(view.id(), 0);
    assert!(!view.is_direct_match);
    assert_eq!(view.children().len(), 1);
    let group = &view.children()[0];
    assert_eq!(group.id(), 1);
    assert!(!group.is_direct_match);
    assert_eq!(group.children().len(), 1);
    assert_eq!(group.children()[0].id(), 2);
    assert!(group.children()[0].is_direct_match);
    assert_eq!(group.children()[0].matching_indices(), &vec![0, 1, 2, 3, 4]);
    assert_eq!(view.recursive_num_children(), 2);
    assert_eq!(view.path_to_first_match(), vec![0, 1, 2]);
}

#[test]
fn filter_records_fuzzy_positions() {
    let tree = TreeNode::<i64>::new(7, "child1", vec![]);
    let view = tree.filter("c1").unwrap();
    assert_eq!(view.matching_indices(), &vec![0, 5]);
    assert!(view.is_direct_match);
}

#[test]
fn filter_drops_everything_without_a_match() {
    let tree = sample_tree();
    assert_eq!(tree.filter("zzzz"), None);
}

#[test]
fn every_survivor_matches_or_has_a_child() {
    let tree = sample_tree();
    let view = tree.filter("a").unwrap();
    check_survivors(&view);
}

fn check_survivors(n: &TreeNode<i64>) {
    assert!(n.is_direct_match || !n.children().is_empty());
    for c in n.children() {
        check_survivors(c);
    }
}

#[test]
fn empty_query_keeps_the_whole_tree() {
    let tree = sample_tree();
    let view = tree.filter("").unwrap();
    check_same_shape(&view, &tree);
}

fn check_same_shape(a: &TreeNode<i64>, b: &TreeNode<i64>) {
    assert_eq!(a.id(), b.id());
    assert_eq!(a.text(), b.text());
    assert!(a.is_direct_match);
    assert_eq!(a.children().len(), b.children().len());
    for (x, y) in a.children().iter().zip(b.children().iter()) {
        check_same_shape(x, y);
    }
}

#[test]
fn try_new_rejects_duplicate_sibling_ids() {
    let r = TreeNode::<i64>::try_new(
        0,
        "root",
        vec![TreeNode::new(1, "a", vec![]), TreeNode::new(1, "b", vec![])],
    );
    assert_eq!(r, Err(TreeError::DuplicateSiblingId));
    let ok = TreeNode::<i64>::try_new(
        0,
        "root",
        vec![TreeNode::new(1, "a", vec![]), TreeNode::new(2, "b", vec![])],
    );
    assert_eq!(ok.unwrap().recursive_num_children(), 2);
}

#[test]
fn reconcile_keeps_a_selection_that_still_matches() {
    let tree = sample_tree();
    let view = tree.filter("a").unwrap();
    let selected = vec![0, 4];
    assert!(view.get_selected_node(&selected).unwrap().is_direct_match);
    assert_eq!(reconcile_selection(Some(&view), &selected), vec![0, 4]);
}

#[test]
fn reconcile_moves_a_lost_selection_to_the_first_match() {
    let tree = sample_tree();
    let view = tree.filter("beta").unwrap();
    assert_eq!(reconcile_selection(Some(&view), &[0, 4]), vec![0, 1, 3]);
    assert_eq!(reconcile_selection(Some(&view), &[]), vec![0, 1, 3]);
    assert_eq!(reconcile_selection(Some(&view), &[0, 1]), vec![0, 1, 3]);
}

#[test]
fn reconcile_clears_without_a_view() {
    assert_eq!(reconcile_selection::<i64>(None, &[0, 4]), Vec::<i64>::new());
}

#[test]
fn ancestors_are_the_proper_prefixes() {
    assert_eq!(ancestor_paths(&[0i64, 1, 3]), vec![vec![0], vec![0, 1]]);
    assert_eq!(ancestor_paths::<i64>(&[]), Vec::<Vec<i64>>::new());
    assert_eq!(ancestor_paths(&[5i64]), Vec::<Vec<i64>>::new());
}

#[test]
fn all_paths_in_pre_order() {
    let tree = sample_tree();
    let paths = tree.all_paths();
    assert_eq!(
        paths,
        vec![vec![0], vec![0, 1], vec![0, 1, 2], vec![0, 1, 3], vec![0, 4]]
    );
    assert_eq!(paths.len(), 1 + tree.recursive_num_children());
    for p in &paths {
        assert!(tree.get_selected_node(p).is_some());
    }
}
