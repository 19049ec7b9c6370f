use game_search::connect4::{check_contiguous, connect4_legal, connect4_move, connect4_new, Connect4, MoveError};

fn empty_board() -> Connect4 {
    Connect4 {
        columns: vec![
            Vec::<bool>::new(),
            Vec::<bool>::new(),
            Vec::<bool>::new(),
            Vec::<bool>::new(),
            Vec::<bool>::new(),
            Vec::<bool>::new(),
            Vec::<bool>::new(),
        ],
        height: 6,
        player: false,
    }
}

#[test]
fn test_connect4() {
    let game = empty_board();
    let step0 = connect4_move(0, &game).unwrap();
    let step1 = connect4_move(0, &step0.1).unwrap();
    let step2 = connect4_move(1, &step1.1).unwrap();
    let step3 = connect4_move(1, &step2.1).unwrap();
    let step4 = connect4_move(2, &step3.1).unwrap();
    let step5 = connect4_move(2, &step4.1).unwrap();
    let step6 = connect4_move(3, &step5.1).unwrap();

    assert_eq!(step0.0, false);
    assert_eq!(step1.0, false);
    assert_eq!(step2.0, false);
    assert_eq!(step3.0, false);
    assert_eq!(step4.0, false);
    assert_eq!(step5.0, false);
    assert_eq!(step6.0, true);
}

#[test]
fn test_mcts() {
    let game = connect4_new(7, 6);
    assert_eq!(game.columns.len(), 7);
}

#[test]
fn new_board_is_empty() {
    let game = connect4_new(5, 4);
    assert_eq!(game.columns, vec![Vec::<bool>::new(); 5]);
    assert_eq!(game.height, 4);
    assert!(!game.player);
}

#[test]
fn four_in_a_column_wins_on_fourth_drop() {
    let mut game = empty_board();
    for drop in 0..4 {
        let (end, next) = connect4_move(4, &game).unwrap();
        assert_eq!(end, drop == 3);
        game = next;
        game.player = false;
    }
    assert_eq!(game.columns[4], vec![false; 4]);
}

#[test]
fn move_appends_and_passes_turn() {
    let game = empty_board();
    let (end, next) = connect4_move(2, &game).unwrap();
    assert!(!end);
    assert_eq!(next.columns[2], vec![false]);
    assert!(next.player);
    let (_, after) = connect4_move(2, &next).unwrap();
    assert_eq!(after.columns[2], vec![false, true]);
    assert!(!after.player);
}

#[test]
fn diagonal_wins() {
    // rising diagonal for the first player: (0,0) (1,1) (2,2) (3,3)
    let mut game = empty_board();
    game.columns[1] = vec![true];
    game.columns[2] = vec![true, true];
    game.columns[3] = vec![true, true, true];
    game.columns[0] = vec![false];
    game.columns[1].push(false);
    game.columns[2].push(false);
    game.player = false;
    let (end, _) = connect4_move(3, &game).unwrap();
    assert!(end);

    // falling diagonal: (3,3) (4,2) (5,1) (6,0)
    let mut game = empty_board();
    game.columns[3] = vec![true, true, true];
    game.columns[4] = vec![true, true, false];
    game.columns[5] = vec![true, false];
    game.columns[6] = vec![false];
    game.player = false;
    let (end, _) = connect4_move(3, &game).unwrap();
    assert!(end);
}

#[test]
fn full_column_is_refused() {
    let mut game = empty_board();
    game.columns[0] = vec![false, true, false, true, false, true];
    assert_eq!(connect4_move(0, &game).err(), Some(MoveError::ColumnFull));
    assert_eq!(connect4_move(7, &game).err(), Some(MoveError::NoSuchColumn));
}

#[test]
fn legal_moves_follow_room() {
    let mut game = empty_board();
    game.columns[0] = vec![false, true, false, true, false, true];
    game.columns[3] = vec![true];
    assert_eq!(connect4_legal(&game), vec![false, true, true, true, true, true, true]);
}

#[test]
fn full_board_has_no_legal_move() {
    let mut game = connect4_new(2, 1);
    game.columns[0] = vec![false];
    game.columns[1] = vec![true];
    assert_eq!(connect4_legal(&game), vec![false, false]);
}

#[test]
fn contiguous_runs() {
    assert!(check_contiguous(&vec![true, false, false, false, false], false));
    assert!(!check_contiguous(&vec![false, false, false, true, false], false));
    assert!(!check_contiguous(&vec![], true));
    assert!(check_contiguous(&vec![true, true, true, true], true));
}
