use std::collections::HashMap;

use game_search::codec::game_to_node;
use game_search::connect4::{connect4_new, Connect4};
use game_search::mcts::{
    backpropagate, best_child, exploration_bonus, expand, keep_searching, mcts_iteration, rollout, select_child, traverse,
    SearchTree, ONE,
};
use rand::SeedableRng;
use rand_chacha::ChaCha8Rng;

#[test]
fn test_rollout() {
    let mut seed = ChaCha8Rng::seed_from_u64(22);
    let game = Connect4 {
        columns: vec![
            vec![false, true],
            vec![false, true],
            vec![false, true],
            vec![],
            vec![false, true],
            vec![false, true],
            vec![false, true],
        ],
        height: 6,
        player: false,
    };
    assert_eq!(rollout(game_to_node(&game, false), &mut seed), ONE);
}

#[test]
fn test_backpropagate() {
    let mut tree = HashMap::<u128, (Vec<u128>, i64)>::new();
    tree.insert(0, (vec![1, 2], ONE));
    tree.insert(1, (vec![11, 12], ONE));
    tree.insert(2, (vec![21, 22], 0));
    tree.insert(11, (vec![111, 112], 0));
    tree.insert(12, (vec![], 0));
    tree.insert(21, (vec![], 0));
    tree.insert(22, (vec![], 0));
    tree.insert(111, (vec![], 0));
    tree.insert(112, (vec![], 0));

    let path = vec![0, 1, 11, 111];
    let value: i64 = 2 * ONE;

    backpropagate(value, &path, &mut tree);
    assert_eq!(tree.get(&11).unwrap().1, ONE);
    assert_eq!(tree.get(&0).unwrap().1, 3 * ONE / 2);
    assert_eq!(tree.get(&1).unwrap().1, 3 * ONE / 2);
    assert_eq!(tree.get(&111).unwrap().1, ONE);
    assert_eq!(tree.get(&2).unwrap().1, 0);
    assert_eq!(tree.get(&0).unwrap().0, vec![1, 2]);
}

#[test]
fn backpropagate_rounds_toward_zero() {
    let mut tree = HashMap::<u128, (Vec<u128>, i64)>::new();
    tree.insert(5, (vec![], 0));
    backpropagate(-3, &vec![5], &mut tree);
    assert_eq!(tree.get(&5).unwrap().1, -1);
    backpropagate(-3, &vec![5, 5], &mut tree);
    // (-1 - 3) / 2 = -2, then (-2 - 3) / 2 = -2
    assert_eq!(tree.get(&5).unwrap().1, -2);
}

fn root_key() -> u128 {
    game_to_node(&connect4_new(7, 6), false)
}

#[test]
fn unvisited_child_is_selected_first() {
    let root = root_key();
    let mut tree = SearchTree::new(root);
    let children = expand(root, &mut tree);
    assert_eq!(children.len(), 7);
    // child 0 visited with a high estimate, child 1 never visited
    tree.nodes.get_mut(&children[0]).unwrap().1 = 100 * ONE;
    tree.visits.insert(children[0], 1);
    for k in 2..7 {
        tree.visits.insert(children[k], 1);
    }
    tree.total = 7;
    let pair = vec![children[0], children[1]];
    assert_eq!(select_child(&pair, &tree), 1);
    assert_eq!(select_child(&children, &tree), 1);
}

#[test]
fn visited_children_compete_on_score() {
    let root = root_key();
    let mut tree = SearchTree::new(root);
    let children = expand(root, &mut tree);
    for k in 0..7 {
        tree.visits.insert(children[k], 4);
    }
    tree.visits.insert(children[2], 1);
    tree.total = 28;
    // equal estimates: the child with fewest visits has the largest bonus
    assert_eq!(select_child(&children, &tree), 2);
    tree.nodes.get_mut(&children[5]).unwrap().1 = ONE;
    assert_eq!(select_child(&children, &tree), 5);
}

#[test]
fn exploration_bonus_values() {
    // ln 8 taken as 3 ln 2: sqrt(3 * 45426 * 65536 / n)
    assert_eq!(exploration_bonus(8, 1), 94504);
    assert_eq!(exploration_bonus(8, 4), 47252);
    // ln 7 taken as (2 + 3/4) ln 2
    assert_eq!(exploration_bonus(7, 1), 90481);
    assert_eq!(exploration_bonus(1, 3), 0);
    assert_eq!(exploration_bonus(0, 1), 0);
}

#[test]
fn expansion_creates_one_child_per_legal_column() {
    let mut game = connect4_new(7, 6);
    game.columns[2] = vec![false, true, false, true, false, true];
    let root = game_to_node(&game, false);
    let mut tree = SearchTree::new(root);
    let children = expand(root, &mut tree);
    assert_eq!(children.len(), 6);
    assert_eq!(tree.nodes.get(&root).unwrap().0, children);
    for child in &children {
        assert_eq!(tree.nodes.get(child).unwrap().1, 0);
    }
}

#[test]
fn traverse_reaches_a_fresh_leaf() {
    let root = root_key();
    let mut tree = SearchTree::new(root);
    let mut rng = ChaCha8Rng::seed_from_u64(7);
    let (leaf, path) = traverse(root, &mut tree, &mut rng);
    assert_eq!(path.len(), 2);
    assert_eq!(path[0], root);
    assert_eq!(path[1], leaf);
    assert!(tree.nodes.get(&root).unwrap().0.contains(&leaf));
    assert_eq!(tree.total, 1);
    assert_eq!(*tree.visits.get(&leaf).unwrap(), 1);
    // the second pass picks an unvisited child of the root
    let (leaf2, path2) = traverse(root, &mut tree, &mut rng);
    assert_eq!(path2[0], root);
    assert_ne!(path2[1], leaf);
    assert_eq!(path2.len(), 3);
    assert!(tree.nodes.get(&path2[1]).unwrap().0.contains(&leaf2));
    assert_eq!(tree.total, 3);
}

#[test]
fn iterations_grow_the_tree() {
    let root = root_key();
    let mut tree = SearchTree::new(root);
    let mut rng = ChaCha8Rng::seed_from_u64(22);
    for _ in 0..50 {
        assert!(mcts_iteration(root, &mut tree, &mut rng));
    }
    assert_eq!(tree.nodes.get(&root).unwrap().0.len(), 7);
    assert!(tree.nodes.len() > 8);
    let best = best_child(root, &tree).unwrap();
    assert!(tree.nodes.get(&root).unwrap().0.contains(&best));
}

#[test]
fn full_board_root_is_not_searched() {
    let mut game = connect4_new(7, 6);
    for c in 0..7 {
        game.columns[c] = if c % 2 == 0 {
            vec![false, false, true, true, false, false]
        } else {
            vec![true, true, false, false, true, true]
        };
    }
    let root = game_to_node(&game, false);
    let mut tree = SearchTree::new(root);
    let mut rng = ChaCha8Rng::seed_from_u64(1);
    assert!(!mcts_iteration(root, &mut tree, &mut rng));
    assert_eq!(tree.total, 0);
    assert_eq!(best_child(root, &tree), None);
}

#[test]
fn full_board_playout_is_scored_by_last_mover() {
    let mut game = connect4_new(7, 6);
    for c in 0..7 {
        game.columns[c] = if c % 2 == 0 {
            vec![false, false, true, true, false, false]
        } else {
            vec![true, true, false, false, true, true]
        };
    }
    let mut rng = ChaCha8Rng::seed_from_u64(5);
    // the first player is to move, so the second made the last move
    assert_eq!(rollout(game_to_node(&game, false), &mut rng), -ONE);
    game.player = true;
    assert_eq!(rollout(game_to_node(&game, false), &mut rng), ONE);
}

#[test]
fn playouts_score_plus_or_minus_one() {
    let root = root_key();
    for seed in 0..20 {
        let mut rng = ChaCha8Rng::seed_from_u64(seed);
        let r = rollout(root, &mut rng);
        assert!(r == ONE || r == -ONE);
    }
}

#[test]
fn search_stops_when_asked() {
    let root = root_key();
    let mut tree = SearchTree::new(root);
    assert!(keep_searching(5, 10, &tree));
    assert!(!keep_searching(10, 10, &tree));
    tree.total = u64::MAX - 10;
    assert!(!keep_searching(0, 10, &tree));
}

#[test]
fn terminal_leaf_scores_its_winner() {
    let mut game = connect4_new(7, 6);
    game.columns[0] = vec![false, false, false, false];
    game.columns[1] = vec![true, true, true];
    game.player = true;
    let mut rng = ChaCha8Rng::seed_from_u64(3);
    assert_eq!(rollout(game_to_node(&game, true), &mut rng), ONE);
    game.player = false;
    assert_eq!(rollout(game_to_node(&game, true), &mut rng), -ONE);
}
