use game_search::search::{minimax, mtd, negamax, negamax_alphabeta, string_to_idx, get_nodes_by_id, Node, BOUND};

fn choice_tree() -> (Node, Vec<Node>) {
    let node1 = (0, 0, String::from("1,2"));
    let node2 = (1, 1, String::from("3,4"));
    let node3 = (2, 1, String::from("5,6"));
    let node2a = (3, 1, String::from(""));
    let node2b = (4, 2, String::from(""));
    let node3a = (5, 3, String::from(""));
    let node3b = (6, 4, String::from(""));
    let tree = vec![
        node1.clone(),
        node2.clone(),
        node3.clone(),
        node2a.clone(),
        node2b.clone(),
        node3a.clone(),
        node3b.clone(),
    ];
    (node1, tree)
}

#[test]
fn test_terminal_state() {
    let node = (0, 1, String::from(""));
    let tree = vec![node.clone()];
    assert_eq!(minimax(node.clone(), tree, true), 1)
}

#[test]
fn test_two_steps() {
    let node1 = (0, 1, String::from("1"));
    let node2 = (1, -1, String::from(""));
    let tree = vec![node1.clone(), node2.clone()];
    assert_eq!(minimax(node1.clone(), tree, true), -1)
}

#[test]
fn test_choice() {
    let (node1, tree) = choice_tree();
    assert_eq!(minimax(node1.clone(), tree.clone(), true), 3);
    assert_eq!(negamax(node1.clone(), tree.clone()), 3);
    assert_eq!(negamax_alphabeta(&node1, &tree, 0, 100, 5), 3);
    assert_eq!(mtd(&node1, &tree, 0, 5), 3);
}

#[test]
fn child_list_parses() {
    assert_eq!(string_to_idx(&String::from("1,2")), Some(vec![1, 2]));
    assert_eq!(string_to_idx(&String::from("42")), Some(vec![42]));
    assert_eq!(string_to_idx(&String::from("4294967295,0")), Some(vec![4294967295, 0]));
}

#[test]
fn child_list_rejects_malformed_text() {
    assert_eq!(string_to_idx(&String::from("")), None);
    assert_eq!(string_to_idx(&String::from("1,,2")), None);
    assert_eq!(string_to_idx(&String::from("1,")), None);
    assert_eq!(string_to_idx(&String::from("12a")), None);
    assert_eq!(string_to_idx(&String::from("4294967296")), None);
}

#[test]
fn nodes_come_in_tree_order() {
    let (_, tree) = choice_tree();
    assert_eq!(get_nodes_by_id(vec![6, 3, 9], &tree), vec![3, 6]);
    assert_eq!(get_nodes_by_id(vec![], &tree), Vec::<usize>::new());
}

#[test]
fn negamax_equals_minimax_on_even_leaves() {
    let (root, tree) = choice_tree();
    assert_eq!(negamax(root.clone(), tree.clone()), minimax(root, tree, true));
}

#[test]
fn minimizing_root_takes_smallest() {
    let (root, tree) = choice_tree();
    // min over children of max over leaves: min(2, 4)
    assert_eq!(minimax(root, tree, false), 2);
}

fn deeper_tree() -> (Node, Vec<Node>) {
    let root = (0, 0, String::from("1,2,3"));
    let tree = vec![
        root.clone(),
        (1, 0, String::from("4,5")),
        (2, 0, String::from("6,7")),
        (3, 0, String::from("8")),
        (4, -7, String::from("")),
        (5, 5, String::from("")),
        (6, 2, String::from("")),
        (7, -1, String::from("")),
        (8, 9, String::from("")),
    ];
    (root, tree)
}

#[test]
fn alphabeta_full_window_matches_negamax() {
    let (root, tree) = deeper_tree();
    let plain = negamax(root.clone(), tree.clone());
    // child 1: max(7, -5) = 7, child 2: max(-2, 1) = 1, child 3: -9
    // root: max(-7, -1, 9) = 9
    assert_eq!(plain, 9);
    assert_eq!(negamax_alphabeta(&root, &tree, -BOUND, BOUND, 2), plain);
}

#[test]
fn mtd_converges_for_any_guess() {
    let (root, tree) = deeper_tree();
    for guess in [-20000, -9999, -3, 0, 9, 50, 9999, 20000] {
        assert_eq!(mtd(&root, &tree, guess, 2), 9);
    }
}

#[test]
fn alphabeta_depth_zero_is_static_value() {
    let (root, tree) = deeper_tree();
    assert_eq!(negamax_alphabeta(&root, &tree, -BOUND, BOUND, 0), 0);
    assert_eq!(mtd(&root, &tree, 5, 1), 0);
}

#[test]
fn alphabeta_returns_stored_value_outside_window() {
    let (root, tree) = deeper_tree();
    let leaf = tree[8].clone();
    assert_eq!(negamax_alphabeta(&leaf, &tree, 20, 30, 3), 9);
    assert_eq!(negamax_alphabeta(&tree[1], &tree, 20, 30, 0), 0);
    assert_eq!(negamax_alphabeta(&root, &tree, -BOUND, BOUND, 1), 0);
}

#[test]
fn alphabeta_fail_high_bounds_value() {
    let (root, tree) = deeper_tree();
    // a window entirely below the value: the result is a lower bound
    let r = negamax_alphabeta(&root, &tree, -10, -9, 2);
    assert!(r >= -9);
    assert!(r <= 9);
}

#[test]
fn negamax_on_mover_values_equals_minimax() {
    // leaves one level down are scored for the maximizer in `tree`, for the
    // mover (the minimizer) in `tree2`
    let root = (0, 0, String::from("1,2"));
    let tree = vec![root.clone(), (1, 4, String::from("")), (2, -6, String::from(""))];
    let tree2 = vec![root.clone(), (1, -4, String::from("")), (2, 6, String::from(""))];
    assert_eq!(minimax(root.clone(), tree, true), 4);
    assert_eq!(negamax(root, tree2), 4);
}
