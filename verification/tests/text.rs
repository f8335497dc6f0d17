use minesweeper_replay::text::{
    char_is_whitespace, chars_of, find, parse_i32, parse_i64, split, split_once, text_is, trim,
};
use minesweeper_replay::timeline::{cumulative_times, merge, Step};
use minesweeper_replay::parser::{Action, ActionType, FlagAction, OpenAction};

fn chars(text: &str) -> Vec<char> {
    text.chars().collect()
}

#[test]
fn characters_of_a_string() {
    assert_eq!(chars_of("a|ß:→"), vec!['a', '|', 'ß', ':', '→']);
    assert_eq!(chars_of(""), Vec::<char>::new());
}

#[test]
fn finding_and_cutting() {
    let text = chars("ab;cd;;e");
    assert_eq!(find(&text, ';'), 2);
    assert_eq!(find(&text, 'x'), 8);
    let pieces: Vec<String> = split(&text, ';').iter().map(|p| p.iter().collect()).collect();
    assert_eq!(pieces, text.iter().collect::<String>().split(';').collect::<Vec<&str>>());
    assert_eq!(pieces, vec!["ab", "cd", "", "e"]);
    assert_eq!(split(&chars(""), ';').len(), 1);
    assert_eq!(split(&chars(";"), ';').len(), 2);
    let (before, after) = split_once(&text, ';').unwrap();
    assert_eq!(before, &chars("ab")[..]);
    assert_eq!(after, &chars("cd;;e")[..]);
    assert_eq!(split_once(&text, '|'), None);
}

#[test]
fn trimming_is_that_of_the_standard_library() {
    let texts =
        ["", " ", "  a b \t\n", "a", "\u{a0}x\u{3000}", "\u{200b}x ", "\u{85}\u{1680}y\u{2028}"];
    for text in texts {
        let trimmed: String = trim(&chars(text)).iter().collect();
        assert_eq!(trimmed, text.trim(), "{:?}", text);
    }
    for code in 0..0x3100u32 {
        if let Some(c) = char::from_u32(code) {
            assert_eq!(char_is_whitespace(c), c.is_whitespace(), "{:x}", code);
        }
    }
}

#[test]
fn decimal_numbers_are_those_of_the_standard_library() {
    for text in [
        "", "0", "7", "-7", "+7", "007", "-0", "+", "-", "1a", " 1", "1 ", "--1", "+-1",
        "9223372036854775807", "9223372036854775808", "-9223372036854775808",
        "-9223372036854775809", "18446744073709551616", "99999999999999999999999",
        "2147483647", "2147483648", "-2147483648", "-2147483649", "１２",
    ] {
        assert_eq!(parse_i64(&chars(text)), text.parse::<i64>().ok(), "{:?}", text);
        assert_eq!(parse_i32(&chars(text)), text.parse::<i32>().ok(), "{:?}", text);
    }
}

#[test]
fn comparing_with_a_literal() {
    assert!(text_is(&chars("greev"), "greev"));
    assert!(!text_is(&chars("greev"), "greex"));
    assert!(!text_is(&chars("gree"), "greev"));
    assert!(text_is(&chars(""), ""));
}

#[test]
fn times_are_sums_of_deltas() {
    assert_eq!(cumulative_times(&[5, 3]), Some(vec![5, 8]));
    assert_eq!(cumulative_times(&[]), Some(vec![]));
    assert_eq!(cumulative_times(&[0, 0, 7, 1, 0]), Some(vec![0, 0, 7, 8, 8]));
    assert_eq!(cumulative_times(&[10, -4, -10]), Some(vec![10, 6, -4]));
    assert_eq!(cumulative_times(&[i64::MAX, 1]), None);
    assert_eq!(cumulative_times(&[i64::MIN, -1]), None);
    assert_eq!(cumulative_times(&[i64::MAX, -1, 1]), Some(vec![i64::MAX, i64::MAX - 1, i64::MAX]));
}

#[test]
fn times_never_decrease_where_no_delta_is_negative() {
    let deltas = [3, 0, 0, 12, 7, 0, 1];
    let times = cumulative_times(&deltas).unwrap();
    for i in 1..times.len() {
        assert!(times[i - 1] <= times[i]);
        assert_eq!(times[i], deltas[..=i].iter().sum::<i64>());
    }
}

#[test]
fn logs_are_replayed_in_the_order_of_time() {
    let open = |t| OpenAction { x: 0, y: 0, time: 0, total_time: t };
    let flag = |t| FlagAction { x: 0, y: 0, time: 0, action: Action::Place, total_time: t };
    let opens = [open(1), open(4), open(4), open(9)];
    let flags = [flag(0), flag(4), flag(5), flag(20)];
    let steps = merge(&opens, &flags);
    let expected = [
        (ActionType::Flag, 0),
        (ActionType::Open, 0),
        (ActionType::Open, 1),
        (ActionType::Open, 2),
        (ActionType::Flag, 1),
        (ActionType::Flag, 2),
        (ActionType::Open, 3),
        (ActionType::Flag, 3),
    ];
    assert_eq!(steps.len(), expected.len());
    for (step, (kind, index)) in steps.iter().zip(expected) {
        assert_eq!(*step, Step { kind, index });
    }
    assert_eq!(merge(&[], &[]), vec![]);
    assert_eq!(merge(&opens[..1], &[]), vec![Step { kind: ActionType::Open, index: 0 }]);
}

#[test]
fn each_log_is_replayed_in_its_own_order() {
    let open = |t| OpenAction { x: 0, y: 0, time: 0, total_time: t };
    let flag = |t| FlagAction { x: 0, y: 0, time: 0, action: Action::Remove, total_time: t };
    let opens = [open(9), open(2), open(2), open(30), open(1)];
    let flags = [flag(5), flag(4), flag(40), flag(0)];
    let steps = merge(&opens, &flags);
    let of = |kind: ActionType| -> Vec<usize> {
        steps.iter().filter(|s| s.kind == kind).map(|s| s.index).collect()
    };
    assert_eq!(of(ActionType::Open), vec![0, 1, 2, 3, 4]);
    assert_eq!(of(ActionType::Flag), vec![0, 1, 2, 3]);
    assert_eq!(steps.len(), 9);
    assert_eq!(steps[0], Step { kind: ActionType::Flag, index: 0 });
    assert_eq!(steps[2], Step { kind: ActionType::Open, index: 0 });
}
