use nd_tic_tac_toe::{Board, Game, Piece, PlacePieceError, Player};

#[test]
fn out_of_bounds_leaves_board_unchanged() {
    let mut game = Game::new(2, 2);
    let x = Player::new('X');

    // A component out of range, and a coordinate of the wrong length.
    let r = game.place_piece(Piece::new(x), vec![0, 3].into());
    assert_eq!(r, Err(PlacePieceError::OutOfBounds));
    let r = game.place_piece(Piece::new(x), vec![0].into());
    assert_eq!(r, Err(PlacePieceError::OutOfBounds));
    let r = game.place_piece(Piece::new(x), vec![0, 0, 0].into());
    assert_eq!(r, Err(PlacePieceError::OutOfBounds));

    // No cell was filled: it is still X's turn and the board is empty.
    assert_eq!(game.current_player().symbol(), 'X');
    for cell in game.board.flatten() {
        assert!(cell.player.is_none());
    }
}

#[test]
fn occupied_keeps_first_owner() {
    let mut game = Game::new(2, 2);
    let x = Player::new('X');
    let o = Player::new('O');

    game.place_piece(Piece::new(x), vec![1, 2].into()).unwrap();
    let r = game.place_piece(Piece::new(o), vec![1, 2].into());
    assert_eq!(r, Err(PlacePieceError::Occupied));

    // The original owner is kept, and the occupied count is unchanged:
    // it is O's turn, not X's again.
    let cell = game.board.get(vec![1, 2].into()).unwrap();
    assert_eq!(cell.player, Some(x));
    assert_eq!(game.current_player().symbol(), 'O');
}

#[test]
fn index_and_coord_agree_up_to_5_dimensions() {
    // For every valid coordinate tried, decomposing its flat index at
    // dimension d recovers the component for that dimension (dimension 1
    // is the innermost, i.e. the last component).
    for dim in 1..=5usize {
        let game = Game::new(dim, 2);
        let width = dim + 1;
        // A spread of coordinates: corners, the main diagonal, and a
        // mixed pattern.
        let mut samples: Vec<Vec<usize>> = vec![
            vec![0; dim],
            vec![width - 1; dim],
            (0..dim).map(|k| k % width).collect(),
            (0..dim).map(|k| (k * 2 + 1) % width).collect(),
        ];
        for t in 0..width {
            samples.push(vec![t; dim]);
        }
        for coords in samples {
            let index = game.get_index(coords.clone());
            for d in 1..=dim {
                assert_eq!(game.get_coord(index, d), coords[dim - d]);
            }
        }
    }
}

#[test]
fn flatten_order_matches_flat_index() {
    // Writing through a coordinate shows up in the flattened sequence at
    // exactly the flat index of that coordinate.
    let mut game = Game::new(2, 1);
    let x = Player::new('X');
    game.place_piece(Piece::new(x), vec![1, 2].into()).unwrap();
    let index = game.get_index(vec![1, 2]);
    let cells = game.board.flatten();
    assert_eq!(cells.len(), 9);
    for (i, cell) in cells.iter().enumerate() {
        if i == index {
            assert_eq!(cell.player, Some(x));
        } else {
            assert!(cell.player.is_none());
        }
    }
}

#[test]
fn turn_alternates_with_occupied_count() {
    let mut game = Game::new(2, 3);
    assert_eq!(game.current_player().symbol(), 'X');
    let p = game.current_player();
    game.place_piece(Piece::new(p), vec![0, 0].into()).unwrap();
    assert_eq!(game.current_player().symbol(), 'O');
    let p = game.current_player();
    game.place_piece(Piece::new(p), vec![0, 1].into()).unwrap();
    assert_eq!(game.current_player().symbol(), 'F');
    let p = game.current_player();
    game.place_piece(Piece::new(p), vec![0, 2].into()).unwrap();
    assert_eq!(game.current_player().symbol(), 'X');

    // A failed placement does not advance the turn.
    let p = game.current_player();
    let r = game.place_piece(Piece::new(p), vec![0, 0].into());
    assert_eq!(r, Err(PlacePieceError::Occupied));
    assert_eq!(game.current_player().symbol(), 'X');
}

#[test]
fn axis_aligned_and_diagonal_lines_win() {
    let x = Player::new('X');
    let o = Player::new('O');

    // A row along the innermost axis.
    let mut game = Game::new(2, 2);
    for t in 0..3 {
        game.place_piece(Piece::new(x), vec![1, t].into()).unwrap();
    }
    assert!(game.check_win(x));
    assert!(!game.check_win(o));

    // A column along the outermost axis.
    let mut game = Game::new(2, 2);
    for t in 0..3 {
        game.place_piece(Piece::new(x), vec![t, 2].into()).unwrap();
    }
    assert!(game.check_win(x));
    assert!(!game.check_win(o));

    // The main diagonal, and the anti-diagonal.
    let mut game = Game::new(2, 2);
    for t in 0..3 {
        game.place_piece(Piece::new(x), vec![t, t].into()).unwrap();
    }
    assert!(game.check_win(x));
    assert!(!game.check_win(o));

    let mut game = Game::new(2, 2);
    for t in 0..3 {
        game.place_piece(Piece::new(x), vec![t, 2 - t].into()).unwrap();
    }
    assert!(game.check_win(x));
    assert!(!game.check_win(o));
}

#[test]
fn two_points_need_no_spacing_check() {
    // On a 1-dimensional board of side 2 a line has only two points, too
    // few for the even-spacing rule to apply: both cells of one player win.
    let x = Player::new('X');
    let mut game = Game::new(1, 1);
    game.place_piece(Piece::new(x), vec![0].into()).unwrap();
    game.place_piece(Piece::new(x), vec![1].into()).unwrap();
    assert!(game.check_win(x));
}

#[test]
fn no_win_before_width_pieces() {
    let x = Player::new('X');
    let mut game = Game::new(2, 1);
    assert!(!game.check_win(x));
    game.place_piece(Piece::new(x), vec![0, 0].into()).unwrap();
    assert!(!game.check_win(x));
    game.place_piece(Piece::new(x), vec![1, 1].into()).unwrap();
    assert!(!game.check_win(x));
}

#[test]
fn board_get_distinguishes_interior_and_outside() {
    let board: Board<u8> = Board::new(vec![2, 3], 7);
    // A full coordinate reaches a cell.
    assert_eq!(board.get(vec![1, 2].into()), Some(&7));
    // A short coordinate stops at an interior node.
    assert!(board.get(vec![1].into()).is_none());
    // An out-of-range component leaves the board.
    assert!(board.get(vec![2, 0].into()).is_none());
    assert!(board.get(vec![0, 3].into()).is_none());
    // The sub-board of a short coordinate still exists.
    assert!(board.get_board(vec![1].into()).is_some());
    assert!(board.get_board(vec![2].into()).is_none());
}

#[test]
fn board_get_mut_writes_one_cell() {
    let mut board: Board<u8> = Board::new(vec![2, 2], 0);
    {
        let cell = board.get_mut(vec![1, 0].into()).unwrap();
        *cell = 9;
    }
    assert!(board.get_mut(vec![1].into()).is_none());
    assert_eq!(board.get(vec![1, 0].into()), Some(&9));
    assert_eq!(board.get(vec![0, 0].into()), Some(&0));
    assert_eq!(board.flatten(), vec![&0, &0, &9, &0]);
}

#[test]
fn board_from_wraps_a_leaf() {
    let board: Board<u8> = 5.into();
    assert_eq!(board.get(vec![].into()), Some(&5));
    assert!(board.get(vec![0].into()).is_none());
}

#[test]
fn board_get_board_mut_replaces_a_subtree() {
    let mut board: Board<u8> = Board::new(vec![2, 2], 0);
    {
        let sub = board.get_board_mut(vec![0].into()).unwrap();
        *sub = Board::Piece(3);
    }
    // The first axis now holds a bare leaf in place of a whole row.
    assert_eq!(board.get(vec![0].into()), Some(&3));
    assert_eq!(board.flatten(), vec![&3, &0, &0]);
    assert!(board.get_board_mut(vec![2].into()).is_none());
}

#[test]
fn player_symbols() {
    assert_eq!(Player::new('Q').symbol(), 'Q');
    assert_eq!(Player::from_index(0), Some(Player::new('X')));
    assert_eq!(Player::from_index(1), Some(Player::new('O')));
    assert_eq!(Player::from_index(2), Some(Player::new('F')));
    assert_eq!(Player::from_index(3), None);
    assert!(Piece::new(Player::new('X')).player.is_some());
    assert!(Piece::empty().player.is_none());
}

#[test]
fn input_pairs_swap_from_the_end() {
    let out = nd_tic_tac_toe::map_player_input(vec![5, 7, 9].into());
    let expect: Vec<usize> = vec![5, 9, 7];
    assert_eq!(out.into_iter().collect::<Vec<usize>>(), expect);

    let out = nd_tic_tac_toe::map_player_input(vec![1, 2, 3, 4].into());
    let expect: Vec<usize> = vec![2, 1, 4, 3];
    assert_eq!(out.into_iter().collect::<Vec<usize>>(), expect);

    let out = nd_tic_tac_toe::map_player_input(vec![].into());
    assert!(out.is_empty());
}
