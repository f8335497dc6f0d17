use minesweeper_replay::error::MinesweeperError;
use minesweeper_replay::minesweeper_logic::FieldState;
use minesweeper_replay::parser::{
    get_flag_type, parse, parse_flag_data, parse_meta_data, parse_mine_data,
    parse_mine_locations, parse_open_data, parse_v1, Action, FlagAction, Metadata, OpenAction,
};

#[test]
fn metadata_of_five_by_five() {
    assert_eq!(parse_meta_data("5x5"), Ok(Metadata { x_size: 5, y_size: 5 }));
}

#[test]
fn metadata_keeps_width_and_height_apart() {
    assert_eq!(parse_meta_data("30x16"), Ok(Metadata { x_size: 30, y_size: 16 }));
    assert_eq!(parse_meta_data("+3x7"), Ok(Metadata { x_size: 3, y_size: 7 }));
}

#[test]
fn metadata_that_is_no_pair_of_numbers_is_malformed() {
    for text in ["", "5", "x", "5x", "x5", "ax5", "5xb", "5x5x5", "5 x5", "5X5"] {
        assert_eq!(parse_meta_data(text), Err(MinesweeperError::MalformedMetadata), "{}", text);
    }
}

#[test]
fn metadata_that_is_no_board_is_malformed() {
    for text in ["0x5", "5x0", "-5x5", "5x-5", "2147483648x1", "65536x65536", "99999999999x1"] {
        assert_eq!(parse_meta_data(text), Err(MinesweeperError::MalformedMetadata), "{}", text);
    }
    assert_eq!(parse_meta_data("65535x65537"), Ok(Metadata { x_size: 65535, y_size: 65537 }));
}

#[test]
fn dense_mine_is_one_digit_for_each_axis() {
    assert_eq!(parse_mine_locations("1a"), Ok(vec![(1, 10)]));
    assert_eq!(parse_mine_locations("1a2bzz00"), Ok(vec![(1, 10), (2, 11), (35, 35), (0, 0)]));
}

#[test]
fn dense_mine_outside_a_five_by_five_board() {
    let metadata = Metadata { x_size: 5, y_size: 5 };
    assert_eq!(
        parse_mine_data("1a", &metadata).err(),
        Some(MinesweeperError::CoordinateOutOfBounds)
    );
    assert_eq!(
        parse_mine_data("50", &metadata).err(),
        Some(MinesweeperError::CoordinateOutOfBounds)
    );
    assert!(parse_mine_data("44", &metadata).is_ok());
}

#[test]
fn delimited_mines_have_numerals_of_any_length() {
    assert_eq!(parse_mine_locations("1|a"), Ok(vec![(1, 10)]));
    assert_eq!(parse_mine_locations("10|2s;|"), Ok(vec![(36, 100), (0, 0)]));
    assert_eq!(parse_mine_locations("zik0zj|0"), Ok(vec![(i32::MAX, 0)]));
}

#[test]
fn mines_in_both_forms_side_by_side() {
    assert_eq!(parse_mine_locations("1a2b;3|c;;4d"), Ok(vec![(1, 10), (2, 11), (3, 12), (4, 13)]));
}

#[test]
fn dense_and_delimited_mines_are_the_same_mines() {
    assert_eq!(parse_mine_locations("1a2b"), parse_mine_locations("1|a;2|b"));
    let metadata = Metadata { x_size: 12, y_size: 12 };
    let dense = parse_mine_data("1a2b", &metadata).unwrap();
    let delimited = parse_mine_data("1|a;2|b", &metadata).unwrap();
    for x in 0..12 {
        for y in 0..12 {
            assert_eq!(dense.field(x, y), delimited.field(x, y));
        }
    }
    assert_eq!(dense.mine_count(), delimited.mine_count());
}

#[test]
fn mines_that_cannot_be_read_are_malformed() {
    for text in ["1", "1a2", "1A", "1a;2", "1|A", "1|2|3", "zik0zk|0", "1  a", "1a "] {
        assert_eq!(
            parse_mine_locations(text),
            Err(MinesweeperError::MalformedCoordinate),
            "{}",
            text
        );
    }
}

#[test]
fn mine_data_reports_the_mines_before_the_dimensions() {
    let no_board = Metadata { x_size: 0, y_size: 5 };
    assert_eq!(
        parse_mine_data("1", &no_board).err(),
        Some(MinesweeperError::MalformedCoordinate)
    );
    assert_eq!(parse_mine_data("11", &no_board).err(), Some(MinesweeperError::MalformedMetadata));
}

#[test]
fn a_mine_named_twice_is_one_mine() {
    let metadata = Metadata { x_size: 3, y_size: 3 };
    let board = parse_mine_data("11;1|1;11", &metadata).unwrap();
    assert_eq!(board.mine_count(), 1);
    assert_eq!(board.total_fields(), 9);
    assert_eq!(board.field(0, 0).unwrap().value, 1);
}

#[test]
fn open_log_adds_the_deltas_up() {
    let dense = parse_open_data("005;003").unwrap();
    assert_eq!(
        dense,
        vec![
            OpenAction { x: 0, y: 0, time: 5, total_time: 5 },
            OpenAction { x: 0, y: 0, time: 3, total_time: 8 },
        ]
    );
    assert_eq!(parse_open_data("0|0:5;0|0:3"), Ok(dense));
}

#[test]
fn open_log_with_a_colon_in_a_dense_entry() {
    assert_eq!(parse_open_data("00:5;00:3"), Err(MinesweeperError::MalformedTimestamp));
}

#[test]
fn open_log_times_are_sums_of_deltas() {
    let actions = parse_open_data("1210;34250;a|b:0;5640").unwrap();
    let totals: Vec<i64> = actions.iter().map(|a| a.total_time).collect();
    assert_eq!(totals, vec![10, 260, 260, 300]);
    let cells: Vec<(i32, i32)> = actions.iter().map(|a| (a.x, a.y)).collect();
    assert_eq!(cells, vec![(1, 2), (3, 4), (10, 11), (5, 6)]);
}

#[test]
fn open_log_takes_signed_deltas() {
    let actions = parse_open_data("00+7;00-2").unwrap();
    assert_eq!(actions[0].total_time, 7);
    assert_eq!(actions[1].time, -2);
    assert_eq!(actions[1].total_time, 5);
}

#[test]
fn open_log_errors() {
    assert_eq!(parse_open_data("0"), Err(MinesweeperError::MalformedCoordinate));
    assert_eq!(parse_open_data("005;"), Err(MinesweeperError::MalformedCoordinate));
    assert_eq!(parse_open_data("0A5"), Err(MinesweeperError::MalformedCoordinate));
    assert_eq!(parse_open_data("0|A:5"), Err(MinesweeperError::MalformedCoordinate));
    assert_eq!(parse_open_data("00"), Err(MinesweeperError::MalformedTimestamp));
    assert_eq!(parse_open_data("00x"), Err(MinesweeperError::MalformedTimestamp));
    assert_eq!(parse_open_data("0|0"), Err(MinesweeperError::MalformedTimestamp));
    assert_eq!(parse_open_data("0|0:"), Err(MinesweeperError::MalformedTimestamp));
    assert_eq!(parse_open_data("0A5x"), Err(MinesweeperError::MalformedTimestamp));
    assert_eq!(
        parse_open_data("009223372036854775808"),
        Err(MinesweeperError::MalformedTimestamp)
    );
    assert_eq!(
        parse_open_data("009223372036854775807;001"),
        Err(MinesweeperError::MalformedTimestamp)
    );
    assert_eq!(parse_open_data("0A5;00x"), Err(MinesweeperError::MalformedCoordinate));
}

#[test]
fn flag_entry_with_place_tag() {
    assert_eq!(
        parse_flag_data("000P"),
        Ok(vec![FlagAction { x: 0, y: 0, time: 0, action: Action::Place, total_time: 0 }])
    );
    assert_eq!(
        parse_flag_data("001P"),
        Ok(vec![FlagAction { x: 0, y: 0, time: 1, action: Action::Place, total_time: 1 }])
    );
}

#[test]
fn flag_entry_with_unknown_tag() {
    assert_eq!(parse_flag_data("001X"), Err(MinesweeperError::UnknownActionTag));
    assert_eq!(parse_flag_data("001p"), Err(MinesweeperError::UnknownActionTag));
    assert_eq!(parse_flag_data("001"), Err(MinesweeperError::UnknownActionTag));
    assert_eq!(parse_flag_data("001P;"), Err(MinesweeperError::UnknownActionTag));
    assert_eq!(parse_flag_data("0|0:1|"), Err(MinesweeperError::UnknownActionTag));
}

#[test]
fn flag_log_in_both_forms() {
    let dense = parse_flag_data("1240P;1260R").unwrap();
    assert_eq!(
        dense,
        vec![
            FlagAction { x: 1, y: 2, time: 40, action: Action::Place, total_time: 40 },
            FlagAction { x: 1, y: 2, time: 60, action: Action::Remove, total_time: 100 },
        ]
    );
    assert_eq!(parse_flag_data("1|2:40P;1|2:60R"), Ok(dense));
}

#[test]
fn flag_log_errors_after_the_tag() {
    assert_eq!(parse_flag_data("P"), Err(MinesweeperError::MalformedCoordinate));
    assert_eq!(parse_flag_data("00P"), Err(MinesweeperError::MalformedTimestamp));
    assert_eq!(parse_flag_data("0A1P"), Err(MinesweeperError::MalformedCoordinate));
    assert_eq!(parse_flag_data("0|01P"), Err(MinesweeperError::MalformedTimestamp));
}

#[test]
fn tags_of_flag_actions() {
    assert_eq!(get_flag_type('P'), Some(Action::Place));
    assert_eq!(get_flag_type('R'), Some(Action::Remove));
    assert_eq!(get_flag_type('F'), None);
}

#[test]
fn empty_segments_hold_nothing() {
    assert_eq!(parse_mine_locations(""), Ok(vec![]));
    assert_eq!(parse_open_data(""), Ok(vec![]));
    assert_eq!(parse_flag_data(""), Ok(vec![]));
    let board = parse_mine_data("", &Metadata { x_size: 4, y_size: 2 }).unwrap();
    assert_eq!(board.mine_count(), 0);
    assert_eq!(board.total_fields(), 8);
    let parsed = parse_v1("4x2+++").unwrap();
    assert!(parsed.open_data.is_empty());
    assert!(parsed.flag_data.is_empty());
    assert_eq!(parsed.game_board.mine_count(), 0);
}

#[test]
fn whole_match() {
    let parsed = parse_v1(" 3x3 + 11 + 005;2210 +\t000P;0020R\n+ ignored").unwrap();
    assert_eq!(parsed.metadata, Metadata { x_size: 3, y_size: 3 });
    assert_eq!(parsed.game_board.metadata(), parsed.metadata);
    assert_eq!(parsed.game_board.mine_count(), 1);
    assert_eq!(parsed.game_board.opened_count(), 0);
    assert!(parsed.game_board.field(1, 1).unwrap().mine);
    assert_eq!(parsed.game_board.field(2, 2).unwrap().field_state, FieldState::Closed);
    assert_eq!(parsed.open_data.len(), 2);
    assert_eq!(parsed.open_data[1].total_time, 15);
    assert_eq!(parsed.flag_data.len(), 2);
    assert_eq!(parsed.flag_data[1].action, Action::Remove);
    assert_eq!(parsed.flag_data[1].total_time, 20);
}

#[test]
fn whole_match_errors_come_in_the_order_of_the_segments() {
    assert_eq!(parse_v1("3x3+11+005").err(), Some(MinesweeperError::DataParseError));
    assert_eq!(parse_v1("").err(), Some(MinesweeperError::DataParseError));
    assert_eq!(parse_v1("3+1+00x+00").err(), Some(MinesweeperError::MalformedMetadata));
    assert_eq!(parse_v1("3x3+1+00x+00").err(), Some(MinesweeperError::MalformedCoordinate));
    assert_eq!(parse_v1("3x3+33+00x+00").err(), Some(MinesweeperError::CoordinateOutOfBounds));
    assert_eq!(parse_v1("3x3+11+00x+00").err(), Some(MinesweeperError::MalformedTimestamp));
    assert_eq!(parse_v1("3x3+11+005+00").err(), Some(MinesweeperError::UnknownActionTag));
    assert_eq!(parse_v1("3x3+11+305+").err(), Some(MinesweeperError::CoordinateOutOfBounds));
    assert_eq!(parse_v1("3x3+11++035P").err(), Some(MinesweeperError::CoordinateOutOfBounds));
}

#[test]
fn blob_with_version_tag() {
    let parsed = parse("1=3x3+11+005+").unwrap();
    assert_eq!(parsed.metadata, Metadata { x_size: 3, y_size: 3 });
    assert_eq!(parsed.open_data.len(), 1);
    assert_eq!(parse("2=3x3+11+005+").err(), Some(MinesweeperError::UnsupportedVersion));
    assert_eq!(parse("3x3+11+005+").err(), Some(MinesweeperError::UnsupportedVersion));
    assert_eq!(parse(" 1=3x3+11+005+").err(), Some(MinesweeperError::UnsupportedVersion));
    assert_eq!(parse("=3x3+11+005+").err(), Some(MinesweeperError::UnsupportedVersion));
    assert_eq!(parse("1=3x3+11").err(), Some(MinesweeperError::DataParseError));
}
