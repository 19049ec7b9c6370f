use game_search::codec::{decode_board, game_to_node, node_to_game, DecodeError};
use game_search::connect4::{connect4_move, connect4_new};

#[test]
fn test_game_to_columns() {
    let mut game = connect4_new(7, 6);
    game.columns[0] = vec![false, true, false, true];
    game.columns[6] = vec![false, true, false, true, false];
    game.player = true;
    let result = game_to_node(&game, false);
    assert_eq!(
        result,
        0b1011111000000000000000000000000000000001111001010000000000000000000000000000000001010
    );
    let new_game = node_to_game(result).unwrap();
    assert_eq!(new_game.columns, game.columns);
}

#[test]
fn round_trip_with_full_columns() {
    let mut game = connect4_new(7, 6);
    game.columns[6] = vec![true, false, true, false, true, false];
    game.columns[2] = vec![true];
    game.player = true;
    for terminal in [false, true] {
        let key = game_to_node(&game, terminal);
        let back = node_to_game(key).unwrap();
        assert_eq!(back.columns, game.columns);
        assert_eq!(back.player, game.player);
        assert_eq!(back.height, 6);
        assert_eq!((key >> 85) & 1 == 1, terminal);
    }
}

#[test]
fn boards_differing_only_in_turn_get_different_keys() {
    let mut a = connect4_new(7, 6);
    a.columns[6] = vec![false, true, false, true, false, false];
    let mut b = connect4_new(7, 6);
    b.columns[6] = vec![false, true, false, true, false];
    b.player = true;
    assert_ne!(game_to_node(&a, false), game_to_node(&b, false));
}

#[test]
fn round_trip_after_moves() {
    let mut game = connect4_new(7, 6);
    for column in [3u8, 3, 4, 2, 2, 6, 0] {
        let (end, next) = connect4_move(column, &game).unwrap();
        game = next;
        let key = game_to_node(&game, end);
        let back = node_to_game(key).unwrap();
        assert_eq!(back.columns, game.columns);
        assert_eq!(back.player, game.player);
    }
}

#[test]
fn empty_board_key() {
    let game = connect4_new(7, 6);
    assert_eq!(game_to_node(&game, false), 0);
    assert_eq!(game_to_node(&game, true), 1u128 << 85);
}

#[test]
fn other_board_sizes() {
    let mut game = connect4_new(3, 2);
    game.columns[1] = vec![true, false];
    let key = game_to_node(&game, false);
    // owner plane bits 0..6, occupancy 6..12, turn 12, terminal 13
    assert_eq!(key, 0b1100000100);
    let back = decode_board(key, 3, 2).unwrap();
    assert_eq!(back.columns, game.columns);
}

#[test]
fn out_of_range_key_is_refused() {
    assert_eq!(node_to_game(1u128 << 86).err(), Some(DecodeError::OutOfRange));
    assert_eq!(node_to_game(u128::MAX).err(), Some(DecodeError::OutOfRange));
}

#[test]
fn malformed_keys_are_refused() {
    // an owner bit on an empty cell
    assert_eq!(node_to_game(1).err(), Some(DecodeError::Malformed));
    // a cell occupied above an empty one
    assert_eq!(node_to_game(1u128 << 43).err(), Some(DecodeError::Malformed));
}
