//! The grammar of a recorded match.
//!
//! A match is written as four segments joined by `+`: the board dimensions,
//! the mines, the log of opened cells and the log of flag actions. Mines
//! and log entries are separated by `;`. A coordinate pair is written in one
//! of two forms: dense, as two radix 36 digits, or delimited, as two radix 36
//! numerals joined by `|`, where a `:` ends the second numeral of a log
//! entry.

use crate::base36::{all_digits, decode_spec, digit_of, digit_value, is_digit, NumeralCodec};
use crate::error::MinesweeperError;
use crate::minesweeper_logic::{
    all_in_bounds, flagged, flat_index, opened, unflagged, Board, Field,
};
use crate::text::{
    bounded_decimal_spec, chars_of, lemma_position, lemma_position_is, lemma_split_join,
    parse_i32, parse_i64, piece_views, split, split_once, split_once_spec, split_spec, trim,
    trim_spec,
};
use crate::timeline::{
    absolute_times, cumulative_times, lemma_absolute_times_monotonic, prefix_sum, sums_fit,
};
use vstd::prelude::*;
use vstd::seq_lib::lemma_flatten_concat;
use vstd::slice::slice_subrange;

verus! {

/// The dimensions of a board.
#[derive(Clone, Copy, Debug, PartialEq, Eq, Structural)]
pub struct Metadata {
    /// The number of columns: `x` runs from 0 up to it.
    pub x_size: i32,
    /// The number of rows: `y` runs from 0 up to it.
    pub y_size: i32,
}

impl Metadata {
    /// Both dimensions are positive, and the number of cells fits in 32 bits.
    pub open spec fn valid(&self) -> bool {
        &&& 0 < self.x_size
        &&& 0 < self.y_size
        &&& self.x_size * self.y_size <= u32::MAX
    }

    /// Whether `(x, y)` is a cell of a board of these dimensions.
    pub open spec fn contains(&self, x: int, y: int) -> bool {
        0 <= x < self.x_size && 0 <= y < self.y_size
    }

    /// Returns whether the dimensions are those of a board.
    pub fn is_valid(&self) -> (b: bool)
        ensures
            b == self.valid(),
    {
        if self.x_size <= 0 || self.y_size <= 0 {
            return false;
        }
        let width: i64 = self.x_size as i64;
        let height: i64 = self.y_size as i64;
        assert(0 < width * height <= 0x7fff_ffff * 0x7fff_ffff) by (nonlinear_arith)
            requires
                0 < width <= 0x7fff_ffff,
                0 < height <= 0x7fff_ffff,
        ;
        width * height <= 0xffff_ffff
    }

    /// Returns the number of cells of a board of these dimensions.
    pub fn area(&self) -> (cells: u32)
        requires
            self.valid(),
        ensures
            cells == self.x_size * self.y_size,
    {
        ((self.x_size as i64) * (self.y_size as i64)) as u32
    }

    /// Returns whether `(x, y)` is a cell of a board of these dimensions.
    pub fn holds(&self, x: i32, y: i32) -> (b: bool)
        ensures
            b == self.contains(x as int, y as int),
    {
        0 <= x && x < self.x_size && 0 <= y && y < self.y_size
    }
}

/// What a flag action does.
#[derive(Clone, Copy, Debug, PartialEq, Eq, Structural)]
pub enum Action {
    /// Puts a flag on a closed cell.
    Place,
    /// Takes the flag off a flagged cell.
    Remove,
}

/// One flag action of the log.
#[derive(Clone, Copy, Debug, PartialEq, Eq, Structural)]
pub struct FlagAction {
    /// The column of the cell.
    pub x: i32,
    /// The row of the cell.
    pub y: i32,
    /// The time since the flag action before this one.
    pub time: i64,
    /// What is done to the cell.
    pub action: Action,
    /// The time since the start of the match.
    pub total_time: i64,
}

/// One opening of a cell.
#[derive(Clone, Copy, Debug, PartialEq, Eq, Structural)]
pub struct OpenAction {
    /// The column of the cell.
    pub x: i32,
    /// The row of the cell.
    pub y: i32,
    /// The time since the opening before this one.
    pub time: i64,
    /// The time since the start of the match.
    pub total_time: i64,
}

/// The two logs of a match.
#[derive(Clone, Copy, PartialEq, Eq, Debug, Structural)]
pub enum ActionType {
    /// The log of opened cells.
    Open,
    /// The log of flag actions.
    Flag,
}

/// The coordinate that the radix 36 numeral `s` denotes, if it is a numeral
/// and a 32 bit number. The empty numeral denotes 0.
pub open spec fn coordinate_spec(s: Seq<char>) -> Option<i32> {
    if all_digits(s, 36) && decode_spec(s, 36) <= i32::MAX {
        Some(decode_spec(s, 36) as i32)
    } else {
        None
    }
}

/// The texts of the two coordinates and of the time of a log entry.
///
/// An entry with a `|` is delimited: the first coordinate ends at the first
/// `|`, the second at the first `:` after it, and it is a `MalformedTimestamp`
/// if there is none. An entry without `|` is dense: its first two characters
/// are the coordinates, and it is a `MalformedCoordinate` if it is shorter
/// than that.
pub open spec fn entry_parts_spec(e: Seq<char>) -> Result<
    (Seq<char>, Seq<char>, Seq<char>),
    MinesweeperError,
> {
    match split_once_spec(e, '|') {
        Some((xs, rest)) => match split_once_spec(rest, ':') {
            Some((ys, ts)) => Ok((xs, ys, ts)),
            None => Err(MinesweeperError::MalformedTimestamp),
        },
        None => if e.len() >= 2 {
            Ok((e.subrange(0, 1), e.subrange(1, 2), e.skip(2)))
        } else {
            Err(MinesweeperError::MalformedCoordinate)
        },
    }
}

/// The cell and the time of an entry of the log of opened cells.
///
/// Of an entry that can be cut into its parts the time is looked at first:
/// it is a `MalformedTimestamp` unless it is a signed decimal 64 bit number.
/// Then each coordinate is a `MalformedCoordinate` unless it is a radix 36
/// numeral of a 32 bit number.
pub open spec fn open_entry_spec(e: Seq<char>) -> Result<(i32, i32, i64), MinesweeperError> {
    match entry_parts_spec(e) {
        Err(error) => Err(error),
        Ok((xs, ys, ts)) => match bounded_decimal_spec(ts, i64::MIN as int, i64::MAX as int) {
            None => Err(MinesweeperError::MalformedTimestamp),
            Some(time) => match (coordinate_spec(xs), coordinate_spec(ys)) {
                (Some(x), Some(y)) => Ok((x, y, time as i64)),
                _ => Err(MinesweeperError::MalformedCoordinate),
            },
        },
    }
}

/// What the tag `c` of a flag action stands for.
pub open spec fn action_tag_spec(c: char) -> Option<Action> {
    if c == 'P' {
        Some(Action::Place)
    } else if c == 'R' {
        Some(Action::Remove)
    } else {
        None
    }
}

/// The cell, the time and the kind of an entry of the log of flag actions.
///
/// The last character is the tag: the entry is an `UnknownActionTag` if it is
/// empty or ends in anything but `P` or `R`. What stands before the tag is
/// read as an entry of the log of opened cells.
pub open spec fn flag_entry_spec(e: Seq<char>) -> Result<
    (i32, i32, i64, Action),
    MinesweeperError,
> {
    if e.len() == 0 {
        Err(MinesweeperError::UnknownActionTag)
    } else {
        match action_tag_spec(e.last()) {
            None => Err(MinesweeperError::UnknownActionTag),
            Some(action) => match open_entry_spec(e.drop_last()) {
                Ok((x, y, time)) => Ok((x, y, time, action)),
                Err(error) => Err(error),
            },
        }
    }
}

/// Reads a coordinate.
pub fn parse_coordinate(s: &[char]) -> (value: Option<i32>)
    ensures
        value == coordinate_spec(s@),
{
    match NumeralCodec::base36().decode_chars(s) {
        Ok(v) => if v <= 0x7fff_ffff {
            Some(v as i32)
        } else {
            None
        },
        Err(_) => None,
    }
}

/// Cuts a log entry into the texts of its coordinates and of its time.
pub fn entry_parts<'a>(e: &'a [char]) -> (parts: Result<
    (&'a [char], &'a [char], &'a [char]),
    MinesweeperError,
>)
    ensures
        match parts {
            Ok((xs, ys, ts)) => entry_parts_spec(e@) == Ok::<_, MinesweeperError>(
                (xs@, ys@, ts@),
            ),
            Err(error) => entry_parts_spec(e@) == Err::<(Seq<char>, Seq<char>, Seq<char>), _>(
                error,
            ),
        },
{
    match split_once(e, '|') {
        Some((xs, rest)) => match split_once(rest, ':') {
            Some((ys, ts)) => Ok((xs, ys, ts)),
            None => Err(MinesweeperError::MalformedTimestamp),
        },
        None => if e.len() >= 2 {
            Ok((slice_subrange(e, 0, 1), slice_subrange(e, 1, 2), slice_subrange(e, 2, e.len())))
        } else {
            Err(MinesweeperError::MalformedCoordinate)
        },
    }
}

/// Reads an entry of the log of opened cells.
pub fn parse_open_entry(e: &[char]) -> (entry: Result<(i32, i32, i64), MinesweeperError>)
    ensures
        entry == open_entry_spec(e@),
{
    let (xs, ys, ts) = match entry_parts(e) {
        Ok(parts) => parts,
        Err(error) => {
            return Err(error);
        },
    };
    let time: i64 = match parse_i64(ts) {
        Some(t) => t,
        None => {
            return Err(MinesweeperError::MalformedTimestamp);
        },
    };
    match (parse_coordinate(xs), parse_coordinate(ys)) {
        (Some(x), Some(y)) => Ok((x, y, time)),
        _ => Err(MinesweeperError::MalformedCoordinate),
    }
}

/// Tells what the tag of a flag action stands for.
pub fn get_flag_type(raw_flag_type: char) -> (action: Option<Action>)
    ensures
        action == action_tag_spec(raw_flag_type),
{
    if raw_flag_type == 'P' {
        Some(Action::Place)
    } else if raw_flag_type == 'R' {
        Some(Action::Remove)
    } else {
        None
    }
}

/// Reads an entry of the log of flag actions.
pub fn parse_flag_entry(e: &[char]) -> (entry: Result<(i32, i32, i64, Action), MinesweeperError>)
    ensures
        entry == flag_entry_spec(e@),
{
    if e.len() == 0 {
        return Err(MinesweeperError::UnknownActionTag);
    }
    let action: Action = match get_flag_type(e[e.len() - 1]) {
        Some(a) => a,
        None => {
            return Err(MinesweeperError::UnknownActionTag);
        },
    };
    let body = slice_subrange(e, 0, e.len() - 1);
    assert(body@ == e@.drop_last());
    match parse_open_entry(body) {
        Ok((x, y, time)) => Ok((x, y, time, action)),
        Err(error) => Err(error),
    }
}

/// The values of `items` if all of them are values, else the first error
/// among them.
pub open spec fn collect_spec<T>(items: Seq<Result<T, MinesweeperError>>) -> Result<
    Seq<T>,
    MinesweeperError,
>
    decreases items.len(),
{
    if items.len() == 0 {
        Ok(Seq::empty())
    } else {
        match collect_spec(items.drop_last()) {
            Err(error) => Err(error),
            Ok(head) => match items.last() {
                Ok(value) => Ok(head.push(value)),
                Err(error) => Err(error),
            },
        }
    }
}

/// What the first `k + 1` items collect to, from what the first `k` collect
/// to.
pub proof fn lemma_collect_step<T>(items: Seq<Result<T, MinesweeperError>>, k: int)
    requires
        0 <= k < items.len(),
    ensures
        collect_spec(items.take(k + 1)) == match collect_spec(items.take(k)) {
            Err(error) => Err(error),
            Ok(head) => match items[k] {
                Ok(value) => Ok(head.push(value)),
                Err(error) => Err(error),
            },
        },
{
    assert(items.take(k + 1).drop_last() == items.take(k));
}

/// An error among the first `k` items is the result for all items.
pub proof fn lemma_collect_error<T>(items: Seq<Result<T, MinesweeperError>>, k: int)
    requires
        0 <= k <= items.len(),
        collect_spec(items.take(k)) is Err,
    ensures
        collect_spec(items) == collect_spec(items.take(k)),
    decreases items.len() - k,
{
    if k == items.len() {
        assert(items.take(k) == items);
    } else {
        lemma_collect_step(items, k);
        lemma_collect_error(items, k + 1);
    }
}

/// What each entry of the log of opened cells reads as.
pub open spec fn open_entries_spec(texts: Seq<Seq<char>>) -> Seq<
    Result<(i32, i32, i64), MinesweeperError>,
> {
    texts.map_values(|e: Seq<char>| open_entry_spec(e))
}

/// The time of each entry since the entry before it.
pub open spec fn open_deltas(entries: Seq<(i32, i32, i64)>) -> Seq<i64> {
    entries.map_values(|e: (i32, i32, i64)| e.2)
}

/// The actions of the entries, each with the sum of the times up to and
/// including its own; a `MalformedTimestamp` if a sum is no 64 bit number.
pub open spec fn open_actions_spec(entries: Seq<(i32, i32, i64)>) -> Result<
    Seq<OpenAction>,
    MinesweeperError,
> {
    if sums_fit(open_deltas(entries)) {
        Ok(
            Seq::new(
                entries.len(),
                |i: int|
                    OpenAction {
                        x: entries[i].0,
                        y: entries[i].1,
                        time: entries[i].2,
                        total_time: absolute_times(open_deltas(entries))[i],
                    },
            ),
        )
    } else {
        Err(MinesweeperError::MalformedTimestamp)
    }
}

/// The log of opened cells that `data` denotes: no action for the empty
/// text, else one action for each of the entries between the `;`s. The
/// error of the first entry that cannot be read comes before that of a sum
/// of times that does not fit.
pub open spec fn open_log_spec(data: Seq<char>) -> Result<Seq<OpenAction>, MinesweeperError> {
    if data.len() == 0 {
        Ok(Seq::empty())
    } else {
        match collect_spec(open_entries_spec(split_spec(data, ';'))) {
            Err(error) => Err(error),
            Ok(entries) => open_actions_spec(entries),
        }
    }
}

/// What each entry of the log of flag actions reads as.
pub open spec fn flag_entries_spec(texts: Seq<Seq<char>>) -> Seq<
    Result<(i32, i32, i64, Action), MinesweeperError>,
> {
    texts.map_values(|e: Seq<char>| flag_entry_spec(e))
}

/// The time of each entry since the entry before it.
pub open spec fn flag_deltas(entries: Seq<(i32, i32, i64, Action)>) -> Seq<i64> {
    entries.map_values(|e: (i32, i32, i64, Action)| e.2)
}

/// The actions of the entries, each with the sum of the times up to and
/// including its own; a `MalformedTimestamp` if a sum is no 64 bit number.
pub open spec fn flag_actions_spec(entries: Seq<(i32, i32, i64, Action)>) -> Result<
    Seq<FlagAction>,
    MinesweeperError,
> {
    if sums_fit(flag_deltas(entries)) {
        Ok(
            Seq::new(
                entries.len(),
                |i: int|
                    FlagAction {
                        x: entries[i].0,
                        y: entries[i].1,
                        time: entries[i].2,
                        action: entries[i].3,
                        total_time: absolute_times(flag_deltas(entries))[i],
                    },
            ),
        )
    } else {
        Err(MinesweeperError::MalformedTimestamp)
    }
}

/// The log of flag actions that `data` denotes: no action for the empty
/// text, else one action for each of the entries between the `;`s. The
/// error of the first entry that cannot be read comes before that of a sum
/// of times that does not fit.
pub open spec fn flag_log_spec(data: Seq<char>) -> Result<Seq<FlagAction>, MinesweeperError> {
    if data.len() == 0 {
        Ok(Seq::empty())
    } else {
        match collect_spec(flag_entries_spec(split_spec(data, ';'))) {
            Err(error) => Err(error),
            Ok(entries) => flag_actions_spec(entries),
        }
    }
}

/// The cells of the mines that the group `g` denotes.
///
/// A group with a `|` is one cell in delimited form: a radix 36 numeral of
/// a 32 bit number on each side of the first `|`. A group without `|` is
/// dense: each two characters are the two radix 36 digits of one cell. Any
/// other group is a `MalformedCoordinate`.
pub open spec fn mine_group_spec(g: Seq<char>) -> Result<Seq<(i32, i32)>, MinesweeperError> {
    match split_once_spec(g, '|') {
        Some((xs, ys)) => match (coordinate_spec(xs), coordinate_spec(ys)) {
            (Some(x), Some(y)) => Ok(seq![(x, y)]),
            _ => Err(MinesweeperError::MalformedCoordinate),
        },
        None => if g.len() % 2 == 0 && all_digits(g, 36) {
            Ok(
                Seq::new(
                    g.len() / 2,
                    |k: int|
                        (
                            digit_value(g[2 * k]).unwrap() as i32,
                            digit_value(g[2 * k + 1]).unwrap() as i32,
                        ),
                ),
            )
        } else {
            Err(MinesweeperError::MalformedCoordinate)
        },
    }
}

/// What each group of mines reads as.
pub open spec fn mine_groups_spec(texts: Seq<Seq<char>>) -> Seq<
    Result<Seq<(i32, i32)>, MinesweeperError>,
> {
    texts.map_values(|g: Seq<char>| mine_group_spec(g))
}

/// The cells of the mines that `data` denotes, in the order in which they
/// are written: none for the empty text, else those of each of the groups
/// between the `;`s.
pub open spec fn mine_locations_spec(data: Seq<char>) -> Result<
    Seq<(i32, i32)>,
    MinesweeperError,
> {
    if data.len() == 0 {
        Ok(Seq::empty())
    } else {
        match collect_spec(mine_groups_spec(split_spec(data, ';'))) {
            Err(error) => Err(error),
            Ok(groups) => Ok(groups.flatten()),
        }
    }
}

/// The dimensions that `s` denotes: a signed decimal 32 bit number on each
/// side of the first `x`, which together are the dimensions of a board.
pub open spec fn metadata_spec(s: Seq<char>) -> Option<Metadata> {
    match split_once_spec(s, 'x') {
        None => None,
        Some((xs, ys)) => match (
            bounded_decimal_spec(xs, i32::MIN as int, i32::MAX as int),
            bounded_decimal_spec(ys, i32::MIN as int, i32::MAX as int),
        ) {
            (Some(x), Some(y)) => {
                let metadata = Metadata { x_size: x as i32, y_size: y as i32 };
                if metadata.valid() {
                    Some(metadata)
                } else {
                    None
                }
            },
            _ => None,
        },
    }
}

/// The deltas of a log with one more entry.
proof fn lemma_open_deltas_push(entries: Seq<(i32, i32, i64)>, entry: (i32, i32, i64))
    ensures
        open_deltas(entries.push(entry)) == open_deltas(entries).push(entry.2),
{
    assert(open_deltas(entries.push(entry)) =~= open_deltas(entries).push(entry.2));
}

/// The deltas of a log with one more entry.
proof fn lemma_flag_deltas_push(
    entries: Seq<(i32, i32, i64, Action)>,
    entry: (i32, i32, i64, Action),
)
    ensures
        flag_deltas(entries.push(entry)) == flag_deltas(entries).push(entry.2),
{
    assert(flag_deltas(entries.push(entry)) =~= flag_deltas(entries).push(entry.2));
}

/// Reads the log of opened cells from its characters.
pub fn parse_open_chars(data: &[char]) -> (actions: Result<Vec<OpenAction>, MinesweeperError>)
    ensures
        match actions {
            Ok(a) => open_log_spec(data@) == Ok::<_, MinesweeperError>(a@),
            Err(error) => open_log_spec(data@) == Err::<Seq<OpenAction>, _>(error),
        },
{
    if data.len() == 0 {
        return Ok(Vec::new());
    }
    let pieces = split(data, ';');
    let ghost texts = split_spec(data@, ';');
    let ghost results = open_entries_spec(texts);
    let mut entries: Vec<(i32, i32, i64)> = Vec::new();
    let mut deltas: Vec<i64> = Vec::new();
    let mut k: usize = 0;
    assert(results.take(0) =~= Seq::empty());
    assert(deltas@ =~= open_deltas(entries@));
    while k < pieces.len()
        invariant
            0 <= k <= pieces.len(),
            data@.len() > 0,
            texts == split_spec(data@, ';'),
            piece_views(pieces@) == texts,
            results == open_entries_spec(texts),
            collect_spec(results.take(k as int)) == Ok::<_, MinesweeperError>(entries@),
            deltas@ == open_deltas(entries@),
        decreases pieces.len() - k,
    {
        let piece: &[char] = pieces[k];
        let ghost before = entries@;
        assert(piece@ == texts[k as int]) by {
            assert(piece_views(pieces@)[k as int] == pieces@[k as int]@);
        }
        let parsed = parse_open_entry(piece);
        proof {
            assert(results[k as int] == parsed);
            lemma_collect_step(results, k as int);
        }
        match parsed {
            Ok(entry) => {
                entries.push(entry);
                deltas.push(entry.2);
                proof {
                    lemma_open_deltas_push(before, entry);
                }
            },
            Err(error) => {
                proof {
                    lemma_collect_error(results, k as int + 1);
                }
                return Err(error);
            },
        }
        k += 1;
    }
    assert(results.take(k as int) == results);
    let times: Vec<i64> = match cumulative_times(deltas.as_slice()) {
        Some(t) => t,
        None => {
            return Err(MinesweeperError::MalformedTimestamp);
        },
    };
    let mut actions: Vec<OpenAction> = Vec::new();
    let mut i: usize = 0;
    while i < entries.len()
        invariant
            0 <= i <= entries.len(),
            times@.len() == entries@.len(),
            actions@.len() == i,
            forall|j: int|
                0 <= j < i ==> (#[trigger] actions@[j]) == (OpenAction {
                    x: entries@[j].0,
                    y: entries@[j].1,
                    time: entries@[j].2,
                    total_time: times@[j],
                }),
        decreases entries.len() - i,
    {
        let entry: (i32, i32, i64) = entries[i];
        actions.push(OpenAction { x: entry.0, y: entry.1, time: entry.2, total_time: times[i] });
        i += 1;
    }
    assert(open_actions_spec(entries@) matches Ok(a) && a =~= actions@);
    Ok(actions)
}

/// Reads the log of opened cells.
///
/// Fails with the error of the first entry that cannot be read, else with
/// `MalformedTimestamp` if the times add up to more than 64 bits hold.
pub fn parse_open_data(data: &str) -> (actions: Result<Vec<OpenAction>, MinesweeperError>)
    ensures
        match actions {
            Ok(a) => open_log_spec(data@) == Ok::<_, MinesweeperError>(a@),
            Err(error) => open_log_spec(data@) == Err::<Seq<OpenAction>, _>(error),
        },
{
    let chars = chars_of(data);
    parse_open_chars(chars.as_slice())
}

/// Reads the log of flag actions from its characters.
pub fn parse_flag_chars(data: &[char]) -> (actions: Result<Vec<FlagAction>, MinesweeperError>)
    ensures
        match actions {
            Ok(a) => flag_log_spec(data@) == Ok::<_, MinesweeperError>(a@),
            Err(error) => flag_log_spec(data@) == Err::<Seq<FlagAction>, _>(error),
        },
{
    if data.len() == 0 {
        return Ok(Vec::new());
    }
    let pieces = split(data, ';');
    let ghost texts = split_spec(data@, ';');
    let ghost results = flag_entries_spec(texts);
    let mut entries: Vec<(i32, i32, i64, Action)> = Vec::new();
    let mut deltas: Vec<i64> = Vec::new();
    let mut k: usize = 0;
    assert(results.take(0) =~= Seq::empty());
    assert(deltas@ =~= flag_deltas(entries@));
    while k < pieces.len()
        invariant
            0 <= k <= pieces.len(),
            data@.len() > 0,
            texts == split_spec(data@, ';'),
            piece_views(pieces@) == texts,
            results == flag_entries_spec(texts),
            collect_spec(results.take(k as int)) == Ok::<_, MinesweeperError>(entries@),
            deltas@ == flag_deltas(entries@),
        decreases pieces.len() - k,
    {
        let piece: &[char] = pieces[k];
        let ghost before = entries@;
        assert(piece@ == texts[k as int]) by {
            assert(piece_views(pieces@)[k as int] == pieces@[k as int]@);
        }
        let parsed = parse_flag_entry(piece);
        proof {
            assert(results[k as int] == parsed);
            lemma_collect_step(results, k as int);
        }
        match parsed {
            Ok(entry) => {
                entries.push(entry);
                deltas.push(entry.2);
                proof {
                    lemma_flag_deltas_push(before, entry);
                }
            },
            Err(error) => {
                proof {
                    lemma_collect_error(results, k as int + 1);
                }
                return Err(error);
            },
        }
        k += 1;
    }
    assert(results.take(k as int) == results);
    let times: Vec<i64> = match cumulative_times(deltas.as_slice()) {
        Some(t) => t,
        None => {
            return Err(MinesweeperError::MalformedTimestamp);
        },
    };
    let mut actions: Vec<FlagAction> = Vec::new();
    let mut i: usize = 0;
    while i < entries.len()
        invariant
            0 <= i <= entries.len(),
            times@.len() == entries@.len(),
            actions@.len() == i,
            forall|j: int|
                0 <= j < i ==> (#[trigger] actions@[j]) == (FlagAction {
                    x: entries@[j].0,
                    y: entries@[j].1,
                    time: entries@[j].2,
                    action: entries@[j].3,
                    total_time: times@[j],
                }),
        decreases entries.len() - i,
    {
        let entry: (i32, i32, i64, Action) = entries[i];
        actions.push(
            FlagAction {
                x: entry.0,
                y: entry.1,
                time: entry.2,
                action: entry.3,
                total_time: times[i],
            },
        );
        i += 1;
    }
    assert(flag_actions_spec(entries@) matches Ok(a) && a =~= actions@);
    Ok(actions)
}

/// Reads the log of flag actions.
///
/// Fails with the error of the first entry that cannot be read, else with
/// `MalformedTimestamp` if the times add up to more than 64 bits hold.
pub fn parse_flag_data(data: &str) -> (actions: Result<Vec<FlagAction>, MinesweeperError>)
    ensures
        match actions {
            Ok(a) => flag_log_spec(data@) == Ok::<_, MinesweeperError>(a@),
            Err(error) => flag_log_spec(data@) == Err::<Seq<FlagAction>, _>(error),
        },
{
    let chars = chars_of(data);
    parse_flag_chars(chars.as_slice())
}

/// Reads one group of mines and appends its cells to `mines`. Returns
/// whether the group could be read; if not, `mines` holds what it held.
fn parse_mine_group(g: &[char], mines: &mut Vec<(i32, i32)>) -> (read: bool)
    ensures
        match mine_group_spec(g@) {
            Ok(cells) => read && final(mines)@ == old(mines)@ + cells,
            Err(_) => !read && final(mines)@ == old(mines)@,
        },
{
    match split_once(g, '|') {
        Some((xs, ys)) => match (parse_coordinate(xs), parse_coordinate(ys)) {
            (Some(x), Some(y)) => {
                mines.push((x, y));
                assert(mines@ =~= old(mines)@ + seq![(x, y)]);
                true
            },
            _ => false,
        },
        None => {
            if g.len() % 2 != 0 {
                return false;
            }
            let mut cells: Vec<(i32, i32)> = Vec::new();
            let mut i: usize = 0;
            while i < g.len()
                invariant
                    split_once_spec(g@, '|') is None,
                    mines@ == old(mines)@,
                    g@.len() % 2 == 0,
                    i % 2 == 0,
                    0 <= i <= g@.len(),
                    all_digits(g@.take(i as int), 36),
                    cells@.len() == i / 2,
                    forall|j: int|
                        0 <= j < i / 2 ==> (#[trigger] cells@[j]) == (
                            digit_value(g@[2 * j]).unwrap() as i32,
                            digit_value(g@[2 * j + 1]).unwrap() as i32,
                        ),
                decreases g@.len() - i,
            {
                let x: u8 = match digit_of(g[i]) {
                    Some(d) => d,
                    None => {
                        assert(!is_digit(g@[i as int], 36));
                        return false;
                    },
                };
                let y: u8 = match digit_of(g[i + 1]) {
                    Some(d) => d,
                    None => {
                        assert(!is_digit(g@[i as int + 1], 36));
                        return false;
                    },
                };
                cells.push((x as i32, y as i32));
                proof {
                    let longer = g@.take(i as int + 2);
                    assert forall|j: int| 0 <= j < longer.len() implies is_digit(
                        #[trigger] longer[j],
                        36,
                    ) by {
                        if j < i {
                            assert(longer[j] == g@.take(i as int)[j]);
                        }
                    }
                }
                i += 2;
            }
            assert(g@.take(i as int) == g@);
            let ghost expected = mine_group_spec(g@)->Ok_0;
            assert(cells@ =~= expected);
            mines.append(&mut cells);
            true
        },
    }
}

/// Reads the cells of the mines from their characters.
pub fn parse_mine_chars(data: &[char]) -> (mines: Result<Vec<(i32, i32)>, MinesweeperError>)
    ensures
        match mines {
            Ok(m) => mine_locations_spec(data@) == Ok::<_, MinesweeperError>(m@),
            Err(error) => mine_locations_spec(data@) == Err::<Seq<(i32, i32)>, _>(error),
        },
{
    let mut mines: Vec<(i32, i32)> = Vec::new();
    if data.len() == 0 {
        return Ok(mines);
    }
    let pieces = split(data, ';');
    let ghost texts = split_spec(data@, ';');
    let ghost results = mine_groups_spec(texts);
    let ghost mut groups: Seq<Seq<(i32, i32)>> = Seq::empty();
    let mut k: usize = 0;
    assert(results.take(0) =~= Seq::empty());
    while k < pieces.len()
        invariant
            0 <= k <= pieces.len(),
            data@.len() > 0,
            texts == split_spec(data@, ';'),
            piece_views(pieces@) == texts,
            results == mine_groups_spec(texts),
            collect_spec(results.take(k as int)) == Ok::<_, MinesweeperError>(groups),
            mines@ == groups.flatten(),
        decreases pieces.len() - k,
    {
        proof {
            assert(piece_views(pieces@)[k as int] == pieces@[k as int]@);
            assert(results[k as int] == mine_group_spec(texts[k as int]));
            lemma_collect_step(results, k as int);
        }
        let read: bool = parse_mine_group(pieces[k], &mut mines);
        if !read {
            proof {
                lemma_collect_error(results, k as int + 1);
            }
            return Err(MinesweeperError::MalformedCoordinate);
        }
        proof {
            let cells = mine_group_spec(texts[k as int])->Ok_0;
            groups.lemma_flatten_push(cells);
            groups = groups.push(cells);
        }
        k += 1;
    }
    assert(results.take(k as int) == results);
    Ok(mines)
}

/// Reads the cells of the mines, in the order in which they are written.
///
/// Fails with `MalformedCoordinate` if a group cannot be read.
pub fn parse_mine_locations(data: &str) -> (mines: Result<Vec<(i32, i32)>, MinesweeperError>)
    ensures
        match mines {
            Ok(m) => mine_locations_spec(data@) == Ok::<_, MinesweeperError>(m@),
            Err(error) => mine_locations_spec(data@) == Err::<Seq<(i32, i32)>, _>(error),
        },
{
    let chars = chars_of(data);
    parse_mine_chars(chars.as_slice())
}

/// Reads the board dimensions from their characters.
pub fn parse_meta_chars(data: &[char]) -> (metadata: Result<Metadata, MinesweeperError>)
    ensures
        match metadata {
            Ok(m) => metadata_spec(data@) == Some(m),
            Err(error) => error == MinesweeperError::MalformedMetadata && metadata_spec(data@)
                is None,
        },
{
    let (xs, ys) = match split_once(data, 'x') {
        Some(parts) => parts,
        None => {
            return Err(MinesweeperError::MalformedMetadata);
        },
    };
    match (parse_i32(xs), parse_i32(ys)) {
        (Some(x), Some(y)) => {
            let metadata = Metadata { x_size: x, y_size: y };
            if metadata.is_valid() {
                Ok(metadata)
            } else {
                Err(MinesweeperError::MalformedMetadata)
            }
        },
        _ => Err(MinesweeperError::MalformedMetadata),
    }
}

/// Reads the board dimensions, written as `<width>x<height>`.
///
/// Fails with `MalformedMetadata` if there is no `x`, if what stands on a
/// side of the first `x` is no signed decimal 32 bit number, or if the
/// numbers are not the dimensions of a board.
pub fn parse_meta_data(data: &str) -> (metadata: Result<Metadata, MinesweeperError>)
    ensures
        match metadata {
            Ok(m) => metadata_spec(data@) == Some(m),
            Err(error) => error == MinesweeperError::MalformedMetadata && metadata_spec(data@)
                is None,
        },
{
    let chars = chars_of(data);
    parse_meta_chars(chars.as_slice())
}

/// What building the board from the mines `data` and the dimensions
/// `metadata` fails with, if it fails: the error of the mines if they cannot
/// be read, else `MalformedMetadata` if the dimensions are not those of a
/// board, else `CoordinateOutOfBounds` if a mine is no cell of the board.
pub open spec fn mine_data_error(data: Seq<char>, metadata: Metadata) -> Option<MinesweeperError> {
    match mine_locations_spec(data) {
        Err(error) => Some(error),
        Ok(mines) => if !metadata.valid() {
            Some(MinesweeperError::MalformedMetadata)
        } else if !all_in_bounds(mines, metadata) {
            Some(MinesweeperError::CoordinateOutOfBounds)
        } else {
            None
        },
    }
}

/// Builds the board from the characters of the mines.
pub fn parse_mine_data_chars(data: &[char], metadata: &Metadata) -> (board: Result<
    Board,
    MinesweeperError,
>)
    ensures
        match board {
            Ok(b) => mine_data_error(data@, *metadata) is None && b.built_from(
                *metadata,
                mine_locations_spec(data@)->Ok_0,
            ),
            Err(error) => mine_data_error(data@, *metadata) == Some(error),
        },
{
    let mines: Vec<(i32, i32)> = match parse_mine_chars(data) {
        Ok(m) => m,
        Err(error) => {
            return Err(error);
        },
    };
    Board::build(metadata, mines.as_slice())
}

/// Builds the board of the given dimensions with the mines that `data`
/// denotes. Every cell is closed; every cell without a mine knows the number
/// of mines among its neighbours.
///
/// Fails with the error of the mines if they cannot be read, else with
/// `MalformedMetadata` if the dimensions are not those of a board, else with
/// `CoordinateOutOfBounds` if a mine is no cell of the board.
pub fn parse_mine_data(data: &str, metadata: &Metadata) -> (board: Result<Board, MinesweeperError>)
    ensures
        match board {
            Ok(b) => mine_data_error(data@, *metadata) is None && b.built_from(
                *metadata,
                mine_locations_spec(data@)->Ok_0,
            ),
            Err(error) => mine_data_error(data@, *metadata) == Some(error),
        },
{
    let chars = chars_of(data);
    parse_mine_data_chars(chars.as_slice(), metadata)
}

/// The cells after the flag action was done to the cell that it names.
pub open spec fn flag_applied(cells: Seq<Field>, meta: Metadata, action: FlagAction) -> Seq<
    Field,
> {
    let index = flat_index(action.x as int, action.y as int, meta.y_size as int);
    cells.update(
        index,
        match action.action {
            Action::Place => flagged(cells[index]),
            Action::Remove => unflagged(cells[index]),
        },
    )
}

/// The cells after the cell that the action names was opened.
pub open spec fn open_applied(cells: Seq<Field>, meta: Metadata, action: OpenAction) -> Seq<
    Field,
> {
    let index = flat_index(action.x as int, action.y as int, meta.y_size as int);
    cells.update(index, opened(cells[index]))
}

impl FlagAction {
    /// Does the action to its cell: `Place` puts a flag on it if it is
    /// closed, `Remove` takes the flag off it if it has one. Either way the
    /// cell is marked as changed.
    pub fn perform_action(&self, board: &mut Board)
        requires
            old(board).wf(),
            old(board).in_bounds(self.x as int, self.y as int),
        ensures
            final(board).wf(),
            final(board).metadata_spec() == old(board).metadata_spec(),
            final(board).cells() == flag_applied(
                old(board).cells(),
                old(board).metadata_spec(),
                *self,
            ),
            final(board).changed_cells() == old(board).changed_cells().update(
                flat_index(self.x as int, self.y as int, old(board).height()),
                true,
            ),
    {
        match self.action {
            Action::Place => {
                board.place_flag(self.x, self.y);
            },
            Action::Remove => {
                board.remove_flag(self.x, self.y);
            },
        }
    }
}

impl OpenAction {
    /// Opens the cell if it is closed, and marks it as changed.
    pub fn perform_action(&self, board: &mut Board)
        requires
            old(board).wf(),
            old(board).in_bounds(self.x as int, self.y as int),
        ensures
            final(board).wf(),
            final(board).metadata_spec() == old(board).metadata_spec(),
            final(board).cells() == open_applied(
                old(board).cells(),
                old(board).metadata_spec(),
                *self,
            ),
            final(board).changed_cells() == old(board).changed_cells().update(
                flat_index(self.x as int, self.y as int, old(board).height()),
                true,
            ),
    {
        board.open_field(self.x, self.y);
    }
}

/// Whether every action names a cell of the board `meta`.
pub open spec fn actions_in_bounds(
    opens: Seq<OpenAction>,
    flags: Seq<FlagAction>,
    meta: Metadata,
) -> bool {
    &&& forall|i: int| 0 <= i < opens.len() ==> meta.contains(opens[i].x as int, opens[i].y as int)
    &&& forall|i: int| 0 <= i < flags.len() ==> meta.contains(flags[i].x as int, flags[i].y as int)
}

/// A decoded match.
#[derive(Debug)]
pub struct ParsedData {
    /// The board dimensions.
    pub metadata: Metadata,
    /// The board before any action.
    pub game_board: Board,
    /// The log of opened cells.
    pub open_data: Vec<OpenAction>,
    /// The log of flag actions.
    pub flag_data: Vec<FlagAction>,
}

/// The segment number `i` of a match, without the whitespace around it.
pub open spec fn segment_spec(raw: Seq<char>, i: int) -> Seq<char> {
    trim_spec(split_spec(raw, '+')[i])
}

/// What decoding the match `raw` fails with, if it fails.
///
/// A match with less than four segments is a `DataParseError`. Else the
/// segments are read in order, and the first that cannot be read gives its
/// error: the dimensions, the mines (with which the board is built), the
/// opened cells, the flag actions. If all can be read, it is a
/// `CoordinateOutOfBounds` if an action names a cell that is not on the
/// board.
pub open spec fn parse_v1_error(raw: Seq<char>) -> Option<MinesweeperError> {
    if split_spec(raw, '+').len() < 4 {
        Some(MinesweeperError::DataParseError)
    } else {
        match metadata_spec(segment_spec(raw, 0)) {
            None => Some(MinesweeperError::MalformedMetadata),
            Some(meta) => match mine_data_error(segment_spec(raw, 1), meta) {
                Some(error) => Some(error),
                None => match open_log_spec(segment_spec(raw, 2)) {
                    Err(error) => Some(error),
                    Ok(opens) => match flag_log_spec(segment_spec(raw, 3)) {
                        Err(error) => Some(error),
                        Ok(flags) => if actions_in_bounds(opens, flags, meta) {
                            None
                        } else {
                            Some(MinesweeperError::CoordinateOutOfBounds)
                        },
                    },
                },
            },
        }
    }
}

impl ParsedData {
    /// The board is consistent and of the dimensions given, and every action
    /// names a cell of it.
    pub open spec fn wf(&self) -> bool {
        &&& self.game_board.wf()
        &&& self.game_board.metadata_spec() == self.metadata
        &&& actions_in_bounds(self.open_data@, self.flag_data@, self.metadata)
    }

    /// This is what the match `raw` denotes: the dimensions of its first
    /// segment, the untouched board with the mines of its second, and the
    /// logs of its third and fourth.
    pub open spec fn describes(&self, raw: Seq<char>) -> bool {
        &&& metadata_spec(segment_spec(raw, 0)) == Some(self.metadata)
        &&& mine_locations_spec(segment_spec(raw, 1)) is Ok
        &&& self.game_board.built_from(
            self.metadata,
            mine_locations_spec(segment_spec(raw, 1))->Ok_0,
        )
        &&& open_log_spec(segment_spec(raw, 2)) == Ok::<_, MinesweeperError>(self.open_data@)
        &&& flag_log_spec(segment_spec(raw, 3)) == Ok::<_, MinesweeperError>(self.flag_data@)
    }
}

/// Returns whether every action names a cell of the board `meta`.
pub fn check_actions(opens: &[OpenAction], flags: &[FlagAction], meta: &Metadata) -> (fit: bool)
    ensures
        fit == actions_in_bounds(opens@, flags@, *meta),
{
    let mut i: usize = 0;
    while i < opens.len()
        invariant
            0 <= i <= opens.len(),
            forall|j: int| 0 <= j < i ==> meta.contains(opens@[j].x as int, opens@[j].y as int),
        decreases opens.len() - i,
    {
        if !meta.holds(opens[i].x, opens[i].y) {
            return false;
        }
        i += 1;
    }
    let mut k: usize = 0;
    while k < flags.len()
        invariant
            0 <= k <= flags.len(),
            forall|j: int|
                0 <= j < opens@.len() ==> meta.contains(opens@[j].x as int, opens@[j].y as int),
            forall|j: int| 0 <= j < k ==> meta.contains(flags@[j].x as int, flags@[j].y as int),
        decreases flags.len() - k,
    {
        if !meta.holds(flags[k].x, flags[k].y) {
            return false;
        }
        k += 1;
    }
    true
}

/// Decodes a match from its characters.
pub fn parse_v1_chars(raw_data: &[char]) -> (parsed: Result<ParsedData, MinesweeperError>)
    ensures
        match parsed {
            Ok(p) => parse_v1_error(raw_data@) is None && p.describes(raw_data@) && p.wf(),
            Err(error) => parse_v1_error(raw_data@) == Some(error),
        },
{
    let parts = split(raw_data, '+');
    if parts.len() < 4 {
        return Err(MinesweeperError::DataParseError);
    }
    proof {
        assert(piece_views(parts@)[0] == parts@[0]@);
        assert(piece_views(parts@)[1] == parts@[1]@);
        assert(piece_views(parts@)[2] == parts@[2]@);
        assert(piece_views(parts@)[3] == parts@[3]@);
    }
    let metadata: Metadata = match parse_meta_chars(trim(parts[0])) {
        Ok(m) => m,
        Err(error) => {
            return Err(error);
        },
    };
    let game_board: Board = match parse_mine_data_chars(trim(parts[1]), &metadata) {
        Ok(b) => b,
        Err(error) => {
            return Err(error);
        },
    };
    let open_data: Vec<OpenAction> = match parse_open_chars(trim(parts[2])) {
        Ok(a) => a,
        Err(error) => {
            return Err(error);
        },
    };
    let flag_data: Vec<FlagAction> = match parse_flag_chars(trim(parts[3])) {
        Ok(a) => a,
        Err(error) => {
            return Err(error);
        },
    };
    if !check_actions(open_data.as_slice(), flag_data.as_slice(), &metadata) {
        return Err(MinesweeperError::CoordinateOutOfBounds);
    }
    Ok(ParsedData { metadata, game_board, open_data, flag_data })
}

/// Decodes a match: `<dimensions>+<mines>+<opened cells>+<flag actions>`,
/// where whitespace around a segment does not count and segments after the
/// fourth are not looked at.
///
/// Fails as `parse_v1_error` says.
pub fn parse_v1(raw_data: &str) -> (parsed: Result<ParsedData, MinesweeperError>)
    ensures
        match parsed {
            Ok(p) => parse_v1_error(raw_data@) is None && p.describes(raw_data@) && p.wf(),
            Err(error) => parse_v1_error(raw_data@) == Some(error),
        },
{
    let chars = chars_of(raw_data);
    parse_v1_chars(chars.as_slice())
}

/// The grammars that a version tag can select.
#[derive(Clone, Copy, Debug, PartialEq, Eq, Structural)]
pub enum Version {
    /// The grammar of `parse_v1`.
    V1,
}

/// The grammar that the version tag selects: `1` selects the first.
pub open spec fn version_spec(tag: Seq<char>) -> Option<Version> {
    if tag == seq!['1'] {
        Some(Version::V1)
    } else {
        None
    }
}

/// What decoding the blob `blob` fails with, if it fails: an
/// `UnsupportedVersion` if there is no `=` or if no grammar is registered
/// for what stands before the first `=`, else what the grammar fails with on
/// what stands after it.
pub open spec fn parse_error(blob: Seq<char>) -> Option<MinesweeperError> {
    match split_once_spec(blob, '=') {
        None => Some(MinesweeperError::UnsupportedVersion),
        Some((tag, payload)) => match version_spec(tag) {
            None => Some(MinesweeperError::UnsupportedVersion),
            Some(Version::V1) => parse_v1_error(payload),
        },
    }
}

/// The payload of a blob: what stands after the first `=`.
pub open spec fn payload_spec(blob: Seq<char>) -> Seq<char> {
    split_once_spec(blob, '=')->Some_0.1
}

/// Tells which grammar the version tag selects.
pub fn version_of(tag: &[char]) -> (version: Option<Version>)
    ensures
        version == version_spec(tag@),
{
    if tag.len() == 1 && tag[0] == '1' {
        assert(tag@ =~= seq!['1']);
        Some(Version::V1)
    } else {
        None
    }
}

/// Decodes a blob from its characters.
pub fn parse_chars(blob: &[char]) -> (parsed: Result<ParsedData, MinesweeperError>)
    ensures
        match parsed {
            Ok(p) => parse_error(blob@) is None && p.describes(payload_spec(blob@)) && p.wf(),
            Err(error) => parse_error(blob@) == Some(error),
        },
{
    let (tag, payload) = match split_once(blob, '=') {
        Some(parts) => parts,
        None => {
            return Err(MinesweeperError::UnsupportedVersion);
        },
    };
    match version_of(tag) {
        Some(Version::V1) => parse_v1_chars(payload),
        None => Err(MinesweeperError::UnsupportedVersion),
    }
}

/// Decodes a blob: `<version>=<match>`.
///
/// Fails as `parse_error` says.
pub fn parse(blob: &str) -> (parsed: Result<ParsedData, MinesweeperError>)
    ensures
        match parsed {
            Ok(p) => parse_error(blob@) is None && p.describes(payload_spec(blob@)) && p.wf(),
            Err(error) => parse_error(blob@) == Some(error),
        },
{
    let chars = chars_of(blob);
    parse_chars(chars.as_slice())
}

/// A text without `|` has no part before a `|`.
proof fn lemma_no_bar(s: Seq<char>)
    requires
        !s.contains('|'),
    ensures
        split_once_spec(s, '|') is None,
{
    lemma_position(s, '|');
}

/// A single radix 36 digit is the numeral of its value.
pub proof fn lemma_single_digit(c: char)
    ensures
        coordinate_spec(seq![c]) == if digit_value(c) is Some {
            Some(digit_value(c).unwrap() as i32)
        } else {
            None::<i32>
        },
{
    let s = seq![c];
    assert(s.drop_last() =~= Seq::<char>::empty());
    assert(decode_spec(s.drop_last(), 36) == 0);
    if digit_value(c) is Some {
        assert(all_digits(s, 36));
    } else {
        assert(!is_digit(s[0], 36));
    }
}

/// An entry of the log of opened cells reads the same in dense and in
/// delimited form: `<x><y><time>` as `<x>|<y>:<time>`, for every two
/// characters `x` and `y` and every text `time` with which the dense form
/// holds no `|` and the second coordinate is no `:`.
pub proof fn lemma_open_entry_forms(x: char, y: char, time: Seq<char>)
    requires
        x != '|',
        y != '|',
        y != ':',
        !time.contains('|'),
    ensures
        open_entry_spec(seq![x, y] + time) == open_entry_spec(seq![x, '|', y, ':'] + time),
        entry_parts_spec(seq![x, y] + time) == Ok::<_, MinesweeperError>(
            (seq![x], seq![y], time),
        ),
{
    let dense = seq![x, y] + time;
    let delimited = seq![x, '|', y, ':'] + time;
    assert(!dense.contains('|')) by {
        if dense.contains('|') {
            let k = choose|k: int| 0 <= k < dense.len() && dense[k] == '|';
            assert(time[k - 2] == '|');
        }
    }
    lemma_no_bar(dense);
    assert(dense.subrange(0, 1) =~= seq![x]);
    assert(dense.subrange(1, 2) =~= seq![y]);
    assert(dense.skip(2) =~= time);
    lemma_position_is(delimited, '|', 1);
    assert(delimited.take(1) =~= seq![x]);
    let rest = delimited.skip(2);
    assert(rest =~= seq![y, ':'] + time);
    lemma_position_is(rest, ':', 1);
    assert(rest.take(1) =~= seq![y]);
    assert(rest.skip(2) =~= time);
}

/// An entry of the log of flag actions reads the same in dense and in
/// delimited form: `<x><y><time><tag>` as `<x>|<y>:<time><tag>`.
pub proof fn lemma_flag_entry_forms(x: char, y: char, time: Seq<char>, tag: char)
    requires
        x != '|',
        y != '|',
        y != ':',
        !time.contains('|'),
    ensures
        flag_entry_spec(seq![x, y] + time + seq![tag]) == flag_entry_spec(
            seq![x, '|', y, ':'] + time + seq![tag],
        ),
{
    let dense = seq![x, y] + time;
    let delimited = seq![x, '|', y, ':'] + time;
    assert((dense + seq![tag]).drop_last() =~= dense);
    assert((delimited + seq![tag]).drop_last() =~= delimited);
    lemma_open_entry_forms(x, y, time);
}

/// A mine reads the same in dense and in delimited form: `<x><y>` as
/// `<x>|<y>`.
pub proof fn lemma_mine_group_forms(x: char, y: char)
    requires
        x != '|',
        y != '|',
    ensures
        mine_group_spec(seq![x, y]) == mine_group_spec(seq![x, '|', y]),
        mine_group_spec(seq![x, y]) == if digit_value(x) is Some && digit_value(y) is Some {
            Ok::<_, MinesweeperError>(
                seq![(digit_value(x).unwrap() as i32, digit_value(y).unwrap() as i32)],
            )
        } else {
            Err::<Seq<(i32, i32)>, _>(MinesweeperError::MalformedCoordinate)
        },
{
    let dense = seq![x, y];
    let delimited = seq![x, '|', y];
    lemma_position_is(dense, '|', 2);
    lemma_position_is(delimited, '|', 1);
    assert(delimited.take(1) =~= seq![x]);
    assert(delimited.skip(2) =~= seq![y]);
    lemma_single_digit(x);
    lemma_single_digit(y);
    if digit_value(x) is Some && digit_value(y) is Some {
        assert(all_digits(dense, 36));
        assert(mine_group_spec(dense)->Ok_0 =~= seq![
            (digit_value(x).unwrap() as i32, digit_value(y).unwrap() as i32),
        ]);
    } else {
        if digit_value(x) is None {
            assert(!is_digit(dense[0], 36));
        } else {
            assert(!is_digit(dense[1], 36));
        }
    }
}

/// A dense group of mines reads as its two halves one after the other,
/// wherever it is cut between two mines.
pub proof fn lemma_dense_group_concat(first: Seq<char>, second: Seq<char>)
    requires
        !first.contains('|'),
        !second.contains('|'),
        first.len() % 2 == 0,
    ensures
        mine_group_spec(first + second) == match (
            mine_group_spec(first),
            mine_group_spec(second),
        ) {
            (Ok(a), Ok(b)) => Ok::<_, MinesweeperError>(a + b),
            _ => Err::<Seq<(i32, i32)>, _>(MinesweeperError::MalformedCoordinate),
        },
{
    let whole = first + second;
    assert(!whole.contains('|')) by {
        if whole.contains('|') {
            let k = choose|k: int| 0 <= k < whole.len() && whole[k] == '|';
            if k < first.len() {
                assert(first[k] == '|');
            } else {
                assert(second[k - first.len()] == '|');
            }
        }
    }
    lemma_no_bar(first);
    lemma_no_bar(second);
    lemma_no_bar(whole);
    if all_digits(whole, 36) {
        assert forall|i: int| 0 <= i < first.len() implies is_digit(#[trigger] first[i], 36) by {
            assert(whole[i] == first[i]);
        }
        assert forall|i: int| 0 <= i < second.len() implies is_digit(#[trigger] second[i], 36) by {
            assert(whole[i + first.len()] == second[i]);
        }
    }
    if all_digits(first, 36) && all_digits(second, 36) {
        assert forall|i: int| 0 <= i < whole.len() implies is_digit(#[trigger] whole[i], 36) by {
            if i < first.len() {
                assert(whole[i] == first[i]);
            } else {
                assert(whole[i] == second[i - first.len()]);
            }
        }
    }
    if whole.len() % 2 == 0 && all_digits(whole, 36) {
        let a = mine_group_spec(first)->Ok_0;
        let b = mine_group_spec(second)->Ok_0;
        let all = mine_group_spec(whole)->Ok_0;
        assert(all.len() == a.len() + b.len());
        assert forall|k: int| 0 <= k < all.len() implies all[k] == (a + b)[k] by {
            if k < a.len() {
                assert(whole[2 * k] == first[2 * k]);
                assert(whole[2 * k + 1] == first[2 * k + 1]);
            } else {
                assert(whole[2 * k] == second[2 * (k - a.len())]);
                assert(whole[2 * k + 1] == second[2 * (k - a.len()) + 1]);
            }
        }
        assert(all =~= a + b);
    }
}

/// Two logs of opened cells with as many entries, of which each reads as
/// the entry in the same place of the other, give the same actions or the
/// same error.
pub proof fn lemma_open_log_by_entries(first: Seq<char>, second: Seq<char>)
    requires
        first.len() == 0 <==> second.len() == 0,
        split_spec(first, ';').len() == split_spec(second, ';').len(),
        forall|k: int|
            0 <= k < split_spec(first, ';').len() ==> open_entry_spec(split_spec(first, ';')[k])
                == open_entry_spec(split_spec(second, ';')[k]),
    ensures
        open_log_spec(first) == open_log_spec(second),
{
    assert(open_entries_spec(split_spec(first, ';')) =~= open_entries_spec(
        split_spec(second, ';'),
    ));
}

/// Two logs of flag actions with as many entries, of which each reads as
/// the entry in the same place of the other, give the same actions or the
/// same error.
pub proof fn lemma_flag_log_by_entries(first: Seq<char>, second: Seq<char>)
    requires
        first.len() == 0 <==> second.len() == 0,
        split_spec(first, ';').len() == split_spec(second, ';').len(),
        forall|k: int|
            0 <= k < split_spec(first, ';').len() ==> flag_entry_spec(split_spec(first, ';')[k])
                == flag_entry_spec(split_spec(second, ';')[k]),
    ensures
        flag_log_spec(first) == flag_log_spec(second),
{
    assert(flag_entries_spec(split_spec(first, ';')) =~= flag_entries_spec(
        split_spec(second, ';'),
    ));
}

/// Two mine segments with as many groups, of which each reads as the group
/// in the same place of the other, give the same mines or the same error,
/// and with them the same board.
pub proof fn lemma_mines_by_groups(first: Seq<char>, second: Seq<char>, metadata: Metadata)
    requires
        first.len() == 0 <==> second.len() == 0,
        split_spec(first, ';').len() == split_spec(second, ';').len(),
        forall|k: int|
            0 <= k < split_spec(first, ';').len() ==> mine_group_spec(split_spec(first, ';')[k])
                == mine_group_spec(split_spec(second, ';')[k]),
    ensures
        mine_locations_spec(first) == mine_locations_spec(second),
        mine_data_error(first, metadata) == mine_data_error(second, metadata),
{
    assert(mine_groups_spec(split_spec(first, ';')) =~= mine_groups_spec(
        split_spec(second, ';'),
    ));
}

/// Collecting two rows of items one after the other gives the values of
/// both, or the first error.
pub proof fn lemma_collect_concat<T>(
    first: Seq<Result<T, MinesweeperError>>,
    second: Seq<Result<T, MinesweeperError>>,
)
    ensures
        collect_spec(first + second) == match collect_spec(first) {
            Err(error) => Err(error),
            Ok(head) => match collect_spec(second) {
                Err(error) => Err(error),
                Ok(tail) => Ok(head + tail),
            },
        },
    decreases second.len(),
{
    if second.len() == 0 {
        assert(first + second =~= first);
        if collect_spec(first) is Ok {
            assert(collect_spec(first)->Ok_0 + Seq::<T>::empty() =~= collect_spec(first)->Ok_0);
        }
    } else {
        let shorter = second.drop_last();
        lemma_collect_concat(first, shorter);
        assert((first + second).drop_last() =~= first + shorter);
        assert((first + second).last() == second.last());
        if collect_spec(first) is Ok && collect_spec(shorter) is Ok && second.last() is Ok {
            let head = collect_spec(first)->Ok_0;
            let tail = collect_spec(shorter)->Ok_0;
            assert((head + tail).push(second.last()->Ok_0) =~= head + tail.push(
                second.last()->Ok_0,
            ));
        }
    }
}

/// A mine segment that is joined of two segments by a `;` holds the mines
/// of the first and then those of the second, or fails with the error of
/// the first that fails.
pub proof fn lemma_mine_locations_join(first: Seq<char>, second: Seq<char>)
    ensures
        mine_locations_spec(first + seq![';'] + second) == match mine_locations_spec(first) {
            Err(error) => Err(error),
            Ok(head) => match mine_locations_spec(second) {
                Err(error) => Err(error),
                Ok(tail) => Ok(head + tail),
            },
        },
{
    let joined = first + seq![';'] + second;
    let a = mine_groups_spec(split_spec(first, ';'));
    let b = mine_groups_spec(split_spec(second, ';'));
    lemma_split_join(first, second, ';');
    assert(mine_groups_spec(split_spec(joined, ';')) =~= a + b);
    lemma_collect_concat(a, b);
    lemma_mines_of_groups(first);
    lemma_mines_of_groups(second);
    if collect_spec(a) is Ok && collect_spec(b) is Ok {
        lemma_flatten_concat(collect_spec(a)->Ok_0, collect_spec(b)->Ok_0);
    }
    assert(joined.len() > 0);
}

/// The mines of a segment are those of its groups, also where it is empty.
proof fn lemma_mines_of_groups(data: Seq<char>)
    ensures
        mine_locations_spec(data) == match collect_spec(
            mine_groups_spec(split_spec(data, ';')),
        ) {
            Err(error) => Err(error),
            Ok(groups) => Ok(groups.flatten()),
        },
{
    if data.len() == 0 {
        let groups = mine_groups_spec(split_spec(data, ';'));
        assert(split_spec(data, ';') =~= seq![data]);
        lemma_position(data, '|');
        assert(mine_group_spec(data) == Ok::<_, MinesweeperError>(Seq::<(i32, i32)>::empty())) by {
            assert(mine_group_spec(data)->Ok_0 =~= Seq::<(i32, i32)>::empty());
        }
        assert(groups =~= seq![mine_group_spec(data)]);
        lemma_collect_step(groups, 0);
        assert(groups.take(1) =~= groups);
        assert(groups.take(0) =~= Seq::empty());
        assert(collect_spec(groups.take(0)) == Ok::<_, MinesweeperError>(
            Seq::<Seq<(i32, i32)>>::empty(),
        ));
        let collected = collect_spec(groups)->Ok_0;
        assert(collected =~= seq![Seq::<(i32, i32)>::empty()]);
        collected.lemma_flatten_one_element();
    }
}

/// An empty segment holds nothing and is no error: no mine, no opened cell,
/// no flag action, and the board of a segment without mines is built.
pub proof fn lemma_empty_segments(metadata: Metadata)
    ensures
        mine_locations_spec(Seq::empty()) == Ok::<_, MinesweeperError>(Seq::<(i32, i32)>::empty()),
        open_log_spec(Seq::empty()) == Ok::<_, MinesweeperError>(Seq::<OpenAction>::empty()),
        flag_log_spec(Seq::empty()) == Ok::<_, MinesweeperError>(Seq::<FlagAction>::empty()),
        metadata.valid() ==> mine_data_error(Seq::empty(), metadata) is None,
{
}

/// The time of each opened cell is the sum of the deltas up to and
/// including its own; where no delta is negative, the times never
/// decrease.
pub proof fn lemma_open_times(entries: Seq<(i32, i32, i64)>)
    requires
        open_actions_spec(entries) is Ok,
    ensures
        forall|i: int|
            0 <= i < entries.len() ==> (#[trigger] open_actions_spec(entries)->Ok_0[i]).total_time
                == prefix_sum(open_deltas(entries), i + 1),
        (forall|k: int| 0 <= k < entries.len() ==> entries[k].2 >= 0) ==> forall|i: int, j: int|
            0 <= i <= j < entries.len() ==> open_actions_spec(entries)->Ok_0[i].total_time
                <= open_actions_spec(entries)->Ok_0[j].total_time,
{
    let deltas = open_deltas(entries);
    let actions = open_actions_spec(entries)->Ok_0;
    assert forall|i: int| 0 <= i < entries.len() implies (#[trigger] actions[i]).total_time
        == prefix_sum(deltas, i + 1) by {
        assert(i64::MIN <= prefix_sum(deltas, i + 1) <= i64::MAX);
    }
    if forall|k: int| 0 <= k < entries.len() ==> entries[k].2 >= 0 {
        assert forall|k: int| 0 <= k < deltas.len() implies deltas[k] >= 0 by {
            assert(deltas[k] == entries[k].2);
        }
        lemma_absolute_times_monotonic(deltas);
        assert forall|i: int, j: int| 0 <= i <= j < entries.len() implies actions[i].total_time
            <= actions[j].total_time by {
            assert(absolute_times(deltas)[i] <= absolute_times(deltas)[j]);
        }
    }
}

/// The time of each flag action is the sum of the deltas up to and
/// including its own; where no delta is negative, the times never
/// decrease.
pub proof fn lemma_flag_times(entries: Seq<(i32, i32, i64, Action)>)
    requires
        flag_actions_spec(entries) is Ok,
    ensures
        forall|i: int|
            0 <= i < entries.len() ==> (#[trigger] flag_actions_spec(entries)->Ok_0[i]).total_time
                == prefix_sum(flag_deltas(entries), i + 1),
        (forall|k: int| 0 <= k < entries.len() ==> entries[k].2 >= 0) ==> forall|i: int, j: int|
            0 <= i <= j < entries.len() ==> flag_actions_spec(entries)->Ok_0[i].total_time
                <= flag_actions_spec(entries)->Ok_0[j].total_time,
{
    let deltas = flag_deltas(entries);
    let actions = flag_actions_spec(entries)->Ok_0;
    assert forall|i: int| 0 <= i < entries.len() implies (#[trigger] actions[i]).total_time
        == prefix_sum(deltas, i + 1) by {
        assert(i64::MIN <= prefix_sum(deltas, i + 1) <= i64::MAX);
    }
    if forall|k: int| 0 <= k < entries.len() ==> entries[k].2 >= 0 {
        assert forall|k: int| 0 <= k < deltas.len() implies deltas[k] >= 0 by {
            assert(deltas[k] == entries[k].2);
        }
        lemma_absolute_times_monotonic(deltas);
        assert forall|i: int, j: int| 0 <= i <= j < entries.len() implies actions[i].total_time
            <= actions[j].total_time by {
            assert(absolute_times(deltas)[i] <= absolute_times(deltas)[j]);
        }
    }
}

} // verus!
