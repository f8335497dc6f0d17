use minesweeper_replay::error::MinesweeperError;
use minesweeper_replay::minesweeper_logic::{Board, Field, FieldState};
use minesweeper_replay::parser::{Action, FlagAction, Metadata, OpenAction};

fn brute_force(mines: &[(i32, i32)], width: i32, height: i32, x: i32, y: i32) -> u8 {
    let mut count = 0;
    for dx in -1..=1 {
        for dy in -1..=1 {
            let (nx, ny) = (x + dx, y + dy);
            let inside = 0 <= nx && nx < width && 0 <= ny && ny < height;
            if (dx != 0 || dy != 0) && inside && mines.contains(&(nx, ny)) {
                count += 1;
            }
        }
    }
    count
}

#[test]
fn single_mine_in_the_middle() {
    let board = Board::build(&Metadata { x_size: 3, y_size: 3 }, &[(1, 1)]).unwrap();
    for x in 0..3 {
        for y in 0..3 {
            let field = board.field(x, y).unwrap();
            if (x, y) == (1, 1) {
                assert_eq!(field, Field { mine: true, value: 0, field_state: FieldState::Closed });
            } else {
                assert_eq!(field, Field { mine: false, value: 1, field_state: FieldState::Closed });
            }
        }
    }
    assert_eq!(board.mine_count(), 1);
    assert_eq!(board.total_fields(), 9);
    assert_eq!(board.opened_count(), 0);
}

#[test]
fn counts_are_those_of_a_count_by_hand() {
    let placements: [&[(i32, i32)]; 4] = [
        &[],
        &[(0, 0), (4, 4), (0, 4), (4, 0)],
        &[(1, 1), (1, 2), (1, 3), (2, 1), (2, 3), (3, 1), (3, 2), (3, 3)],
        &[(0, 1), (1, 0), (2, 2), (2, 3), (4, 1), (3, 3), (0, 1)],
    ];
    for mines in placements {
        let board = Board::build(&Metadata { x_size: 5, y_size: 5 }, mines).unwrap();
        for x in 0..5 {
            for y in 0..5 {
                let field = board.field(x, y).unwrap();
                assert_eq!(field.mine, mines.contains(&(x, y)));
                if !field.mine {
                    let expected = brute_force(mines, 5, 5, x, y);
                    assert_eq!(field.value, expected, "{:?} {},{}", mines, x, y);
                }
            }
        }
    }
    let ring = Board::build(&Metadata { x_size: 5, y_size: 5 }, placements[2]).unwrap();
    assert_eq!(ring.field(2, 2).unwrap().value, 8);
    assert_eq!(ring.mine_count(), 8);
}

#[test]
fn board_that_is_not_square() {
    let mines = [(0, 0), (1, 3), (2, 5)];
    let board = Board::build(&Metadata { x_size: 3, y_size: 6 }, &mines).unwrap();
    assert_eq!(board.total_fields(), 18);
    for x in 0..3 {
        for y in 0..6 {
            let field = board.field(x, y).unwrap();
            assert_eq!(field.mine, mines.contains(&(x, y)));
            if !field.mine {
                assert_eq!(field.value, brute_force(&mines, 3, 6, x, y));
            }
            assert!(board.is_changed(x, y));
        }
    }
    assert_eq!(board.field(3, 0), None);
    assert_eq!(board.field(0, 6), None);
    assert_eq!(board.field(-1, 0), None);
    assert!(!board.is_changed(3, 0));
}

#[test]
fn boards_that_cannot_be_built() {
    assert_eq!(
        Board::build(&Metadata { x_size: 0, y_size: 3 }, &[]).err(),
        Some(MinesweeperError::MalformedMetadata)
    );
    assert_eq!(
        Board::build(&Metadata { x_size: 3, y_size: -1 }, &[(9, 9)]).err(),
        Some(MinesweeperError::MalformedMetadata)
    );
    assert_eq!(
        Board::build(&Metadata { x_size: 70000, y_size: 70000 }, &[]).err(),
        Some(MinesweeperError::MalformedMetadata)
    );
    assert_eq!(
        Board::build(&Metadata { x_size: 3, y_size: 3 }, &[(1, 1), (3, 0)]).err(),
        Some(MinesweeperError::CoordinateOutOfBounds)
    );
    assert_eq!(
        Board::build(&Metadata { x_size: 3, y_size: 3 }, &[(0, -1)]).err(),
        Some(MinesweeperError::CoordinateOutOfBounds)
    );
    assert_eq!(
        Board::new(&Metadata { x_size: 0, y_size: 0 }).err(),
        Some(MinesweeperError::MalformedMetadata)
    );
    assert_eq!(Board::new(&Metadata { x_size: 2, y_size: 2 }).unwrap().total_fields(), 4);
}

#[test]
fn opening_and_flagging() {
    let mut board = Board::build(&Metadata { x_size: 2, y_size: 3 }, &[(0, 0)]).unwrap();
    board.clear_changed();
    assert!(!board.is_changed(1, 2));

    board.open_field(1, 2);
    assert_eq!(board.field(1, 2).unwrap().field_state, FieldState::Opened);
    assert_eq!(board.opened_count(), 1);
    assert!(board.is_changed(1, 2));
    assert!(!board.is_changed(1, 1));

    board.place_flag(1, 2);
    assert_eq!(board.field(1, 2).unwrap().field_state, FieldState::Opened);
    board.remove_flag(1, 2);
    assert_eq!(board.field(1, 2).unwrap().field_state, FieldState::Opened);
    assert_eq!(board.opened_count(), 1);

    board.place_flag(0, 0);
    assert_eq!(board.field(0, 0).unwrap().field_state, FieldState::Flagged);
    board.open_field(0, 0);
    assert_eq!(board.field(0, 0).unwrap().field_state, FieldState::Flagged);
    board.remove_flag(0, 0);
    assert_eq!(board.field(0, 0).unwrap().field_state, FieldState::Closed);
    board.remove_flag(0, 0);
    assert_eq!(board.field(0, 0).unwrap().field_state, FieldState::Closed);
    board.open_field(0, 0);
    assert_eq!(
        board.field(0, 0).unwrap(),
        Field { mine: true, value: 0, field_state: FieldState::Opened }
    );
    assert_eq!(board.opened_count(), 2);
    assert_eq!(board.mine_count(), 1);
    assert_eq!(board.at(0, 1).value, 1);
}

#[test]
fn actions_on_the_board() {
    let mut board = Board::build(&Metadata { x_size: 4, y_size: 2 }, &[]).unwrap();
    board.clear_changed();
    let place = FlagAction { x: 3, y: 1, time: 0, action: Action::Place, total_time: 0 };
    place.perform_action(&mut board);
    assert_eq!(board.field(3, 1).unwrap().field_state, FieldState::Flagged);
    assert!(board.is_changed(3, 1));
    for x in 0..4 {
        for y in 0..2 {
            if (x, y) != (3, 1) {
                assert_eq!(board.field(x, y).unwrap().field_state, FieldState::Closed);
                assert!(!board.is_changed(x, y));
            }
        }
    }
    let remove = FlagAction { x: 3, y: 1, time: 0, action: Action::Remove, total_time: 0 };
    remove.perform_action(&mut board);
    assert_eq!(board.field(3, 1).unwrap().field_state, FieldState::Closed);
    let open = OpenAction { x: 1, y: 0, time: 0, total_time: 0 };
    open.perform_action(&mut board);
    assert_eq!(board.field(1, 0).unwrap().field_state, FieldState::Opened);
    assert_eq!(board.field(0, 1).unwrap().field_state, FieldState::Closed);
    assert_eq!(board.opened_count(), 1);
}
