//! Character sequences: reading a string, cutting it at delimiters,
//! trimming, and decimal numbers.

use crate::base36::{
    all_digits, decode_spec, digit_of, is_digit, lemma_decode_monotonic, lemma_decode_push,
};
use vstd::prelude::*;
use vstd::slice::slice_subrange;
use vstd::string::StrSliceExecFns;

verus! {

/// Returns the characters of `s`, in order.
pub fn chars_of(s: &str) -> (chars: Vec<char>)
    ensures
        chars@ == s@,
{
    let mut chars: Vec<char> = Vec::new();
    for c in it: s.chars()
        invariant
            it.seq() == s@,
            chars@ == it.history(),
    {
        chars.push(c);
    }
    chars
}

/// The index of the first `d` in `s`, or the length of `s` if there is none.
pub open spec fn position(s: Seq<char>, d: char) -> int
    decreases s.len(),
{
    if s.len() == 0 || s[0] == d {
        0
    } else {
        1 + position(s.drop_first(), d)
    }
}

/// `position` is within the sequence or at its end, no `d` stands before
/// it, and a `d` stands at it unless it is the end.
pub proof fn lemma_position(s: Seq<char>, d: char)
    ensures
        0 <= position(s, d) <= s.len(),
        forall|j: int| 0 <= j < position(s, d) ==> s[j] != d,
        position(s, d) < s.len() ==> s[position(s, d)] == d,
        position(s, d) < s.len() <==> s.contains(d),
    decreases s.len(),
{
    if s.len() == 0 || s[0] == d {
    } else {
        let t = s.drop_first();
        lemma_position(t, d);
        assert forall|j: int| 0 <= j < position(s, d) implies s[j] != d by {
            if j > 0 {
                assert(s[j] == t[j - 1]);
            }
        }
        if position(s, d) < s.len() {
            assert(s[position(s, d)] == t[position(t, d)]);
        }
        if s.contains(d) {
            let k = choose|k: int| 0 <= k < s.len() && s[k] == d;
            assert(t[k - 1] == d);
        }
    }
}

/// The index `i` is `position(s, d)` if no `d` stands before it and a `d`
/// stands at it, or it is the end.
pub proof fn lemma_position_is(s: Seq<char>, d: char, i: int)
    requires
        0 <= i <= s.len(),
        forall|j: int| 0 <= j < i ==> s[j] != d,
        i < s.len() ==> s[i] == d,
    ensures
        position(s, d) == i,
{
    lemma_position(s, d);
    let p = position(s, d);
    if p < i {
        assert(s[p] != d);
    } else if i < p {
        assert(s[i] == d);
    }
}

/// The part of `s` before its first `d` and the part after it, if `s`
/// holds a `d`.
pub open spec fn split_once_spec(s: Seq<char>, d: char) -> Option<(Seq<char>, Seq<char>)> {
    let i = position(s, d);
    if i < s.len() {
        Some((s.take(i), s.skip(i + 1)))
    } else {
        None
    }
}

/// The parts of `s` between its `d`s: one part more than `s` holds `d`s,
/// so the empty sequence has one empty part.
pub open spec fn split_spec(s: Seq<char>, d: char) -> Seq<Seq<char>>
    decreases s.len(),
{
    let i = position(s, d);
    if 0 <= i < s.len() {
        seq![s.take(i)] + split_spec(s.skip(i + 1), d)
    } else {
        seq![s]
    }
}

/// Cutting a text that is joined of two texts by a `d` gives the parts of
/// the first and then the parts of the second.
pub proof fn lemma_split_join(first: Seq<char>, second: Seq<char>, d: char)
    ensures
        split_spec(first + seq![d] + second, d) == split_spec(first, d) + split_spec(second, d),
    decreases first.len(),
{
    let joined = first + seq![d] + second;
    let p = position(first, d);
    lemma_position(first, d);
    if p < first.len() {
        assert forall|j: int| 0 <= j < p implies joined[j] != d by {
            assert(joined[j] == first[j]);
        }
        assert(joined[p] == first[p]);
        lemma_position_is(joined, d, p);
        assert(joined.take(p) =~= first.take(p));
        assert(joined.skip(p + 1) =~= first.skip(p + 1) + seq![d] + second);
        lemma_split_join(first.skip(p + 1), second, d);
        assert(split_spec(joined, d) =~= split_spec(first, d) + split_spec(second, d));
    } else {
        assert forall|j: int| 0 <= j < first.len() implies joined[j] != d by {
            assert(joined[j] == first[j]);
        }
        assert(joined[first.len() as int] == d);
        lemma_position_is(joined, d, first.len() as int);
        assert(joined.take(first.len() as int) =~= first);
        assert(joined.skip(first.len() as int + 1) =~= second);
        assert(split_spec(joined, d) =~= split_spec(first, d) + split_spec(second, d));
    }
}

/// The characters that `char::is_whitespace` accepts.
pub open spec fn is_whitespace(c: char) -> bool {
    let code = c as u32;
    ||| 0x09 <= code <= 0x0d
    ||| code == 0x20
    ||| code == 0x85
    ||| code == 0xa0
    ||| code == 0x1680
    ||| 0x2000 <= code <= 0x200a
    ||| code == 0x2028
    ||| code == 0x2029
    ||| code == 0x202f
    ||| code == 0x205f
    ||| code == 0x3000
}

/// `s` without its leading whitespace.
pub open spec fn trim_start_spec(s: Seq<char>) -> Seq<char>
    decreases s.len(),
{
    if s.len() > 0 && is_whitespace(s[0]) {
        trim_start_spec(s.drop_first())
    } else {
        s
    }
}

/// `s` without its trailing whitespace.
pub open spec fn trim_end_spec(s: Seq<char>) -> Seq<char>
    decreases s.len(),
{
    if s.len() > 0 && is_whitespace(s.last()) {
        trim_end_spec(s.drop_last())
    } else {
        s
    }
}

/// `s` without its leading and trailing whitespace.
pub open spec fn trim_spec(s: Seq<char>) -> Seq<char> {
    trim_end_spec(trim_start_spec(s))
}

/// The number that `s` denotes as a decimal numeral with an optional sign:
/// `+` or `-`, then at least one of the digits `0-9`, and nothing else.
pub open spec fn signed_decimal_spec(s: Seq<char>) -> Option<int> {
    if s.len() == 0 {
        None
    } else if s[0] == '-' {
        if s.len() > 1 && all_digits(s.skip(1), 10) {
            Some(-decode_spec(s.skip(1), 10))
        } else {
            None
        }
    } else if s[0] == '+' {
        if s.len() > 1 && all_digits(s.skip(1), 10) {
            Some(decode_spec(s.skip(1), 10))
        } else {
            None
        }
    } else if all_digits(s, 10) {
        Some(decode_spec(s, 10))
    } else {
        None
    }
}

/// The number that `s` denotes, if it lies between `low` and `high`.
pub open spec fn bounded_decimal_spec(s: Seq<char>, low: int, high: int) -> Option<int> {
    match signed_decimal_spec(s) {
        Some(v) => if low <= v <= high {
            Some(v)
        } else {
            None
        },
        None => None,
    }
}

/// The views of the pieces.
pub open spec fn piece_views(pieces: Seq<&[char]>) -> Seq<Seq<char>> {
    pieces.map_values(|p: &[char]| p@)
}

/// Returns the index of the first `d` in `s`, or the length of `s`.
pub fn find(s: &[char], d: char) -> (i: usize)
    ensures
        i == position(s@, d),
        i <= s@.len(),
{
    let mut i: usize = 0;
    while i < s.len() && s[i] != d
        invariant
            0 <= i <= s.len(),
            forall|j: int| 0 <= j < i ==> s@[j] != d,
        decreases s.len() - i,
    {
        i += 1;
    }
    proof {
        lemma_position_is(s@, d, i as int);
    }
    i
}

/// Cuts `s` at its first `d`.
pub fn split_once<'a>(s: &'a [char], d: char) -> (parts: Option<(&'a [char], &'a [char])>)
    ensures
        match parts {
            Some((before, after)) => split_once_spec(s@, d) == Some((before@, after@)),
            None => split_once_spec(s@, d) is None,
        },
{
    let i: usize = find(s, d);
    if i < s.len() {
        let before = slice_subrange(s, 0, i);
        let after = slice_subrange(s, i + 1, s.len());
        Some((before, after))
    } else {
        None
    }
}

/// Cuts `s` at every `d`.
pub fn split<'a>(s: &'a [char], d: char) -> (pieces: Vec<&'a [char]>)
    ensures
        piece_views(pieces@) == split_spec(s@, d),
{
    let mut pieces: Vec<&'a [char]> = Vec::new();
    let mut rest: &'a [char] = s;
    loop
        invariant_except_break
            split_spec(s@, d) == piece_views(pieces@) + split_spec(rest@, d),
        ensures
            piece_views(pieces@) == split_spec(s@, d),
        decreases rest@.len(),
    {
        let i: usize = find(rest, d);
        let ghost before = pieces@;
        if i == rest.len() {
            pieces.push(rest);
            proof {
                assert(piece_views(pieces@) == piece_views(before) + seq![rest@]);
            }
            break ;
        }
        let piece = slice_subrange(rest, 0, i);
        let after = slice_subrange(rest, i + 1, rest.len());
        pieces.push(piece);
        proof {
            assert(piece_views(pieces@) == piece_views(before) + seq![piece@]);
            assert(split_spec(rest@, d) == seq![piece@] + split_spec(after@, d));
        }
        rest = after;
    }
    pieces
}

/// Returns whether `c` is whitespace.
pub fn char_is_whitespace(c: char) -> (b: bool)
    ensures
        b == is_whitespace(c),
{
    let code: u32 = c as u32;
    (0x09 <= code && code <= 0x0d) || code == 0x20 || code == 0x85 || code == 0xa0 || code
        == 0x1680 || (0x2000 <= code && code <= 0x200a) || code == 0x2028 || code == 0x2029
        || code == 0x202f || code == 0x205f || code == 0x3000
}

/// `trim_start_spec` drops exactly the `n` leading characters if those are
/// whitespace and the next one is not.
proof fn lemma_trim_start(s: Seq<char>, n: int)
    requires
        0 <= n <= s.len(),
        forall|j: int| 0 <= j < n ==> is_whitespace(s[j]),
        n < s.len() ==> !is_whitespace(s[n]),
    ensures
        trim_start_spec(s) == s.skip(n),
    decreases n,
{
    if n == 0 {
        assert(s.skip(0) == s);
    } else {
        let t = s.drop_first();
        assert forall|j: int| 0 <= j < n - 1 implies is_whitespace(t[j]) by {
            assert(t[j] == s[j + 1]);
        }
        lemma_trim_start(t, n - 1);
        assert(t.skip(n - 1) == s.skip(n));
    }
}

/// `trim_end_spec` keeps exactly the `n` leading characters if all after
/// them are whitespace and the last of them is not.
proof fn lemma_trim_end(s: Seq<char>, n: int)
    requires
        0 <= n <= s.len(),
        forall|j: int| n <= j < s.len() ==> is_whitespace(s[j]),
        n > 0 ==> !is_whitespace(s[n - 1]),
    ensures
        trim_end_spec(s) == s.take(n),
    decreases s.len() - n,
{
    if n == s.len() {
        assert(s.take(n) == s);
    } else {
        let t = s.drop_last();
        lemma_trim_end(t, n);
        assert(t.take(n) == s.take(n));
    }
}

/// Drops the whitespace at both ends of `s`.
pub fn trim<'a>(s: &'a [char]) -> (trimmed: &'a [char])
    ensures
        trimmed@ == trim_spec(s@),
{
    let mut start: usize = 0;
    while start < s.len() && char_is_whitespace(s[start])
        invariant
            0 <= start <= s.len(),
            forall|j: int| 0 <= j < start ==> is_whitespace(s@[j]),
        decreases s.len() - start,
    {
        start += 1;
    }
    let mut end: usize = s.len();
    while end > start && char_is_whitespace(s[end - 1])
        invariant
            start <= end <= s.len(),
            forall|j: int| end <= j < s.len() ==> is_whitespace(s@[j]),
        decreases end,
    {
        end -= 1;
    }
    proof {
        lemma_trim_start(s@, start as int);
        let t = s@.skip(start as int);
        assert forall|j: int| end - start <= j < t.len() implies is_whitespace(t[j]) by {
            assert(t[j] == s@[j + start]);
        }
        if end > start {
            assert(t[end - start - 1] == s@[end - 1]);
        }
        lemma_trim_end(t, end - start);
        assert(t.take(end - start) == s@.subrange(start as int, end as int));
    }
    slice_subrange(s, start, end)
}

/// Reads the digits `s` as a decimal number that fits in 64 bits.
fn decimal_magnitude(s: &[char]) -> (value: Option<u64>)
    ensures
        match value {
            Some(v) => all_digits(s@, 10) && v == decode_spec(s@, 10),
            None => !all_digits(s@, 10) || decode_spec(s@, 10) > u64::MAX,
        },
{
    let mut value: u64 = 0;
    let mut fits: bool = true;
    let mut i: usize = 0;
    while i < s.len()
        invariant
            0 <= i <= s.len(),
            all_digits(s@.take(i as int), 10),
            fits ==> value == decode_spec(s@.take(i as int), 10),
            !fits ==> decode_spec(s@.take(i as int), 10) > u64::MAX,
        decreases s.len() - i,
    {
        let ghost head = s@.take(i as int);
        let ghost longer = s@.take(i as int + 1);
        proof {
            assert(longer == head.push(s@[i as int]));
            lemma_decode_push(head, s@[i as int], 10);
        }
        let digit: u8 = match digit_of(s[i]) {
            Some(d) => d,
            None => {
                return None;
            },
        };
        if digit >= 10 {
            assert(!is_digit(s@[i as int], 10));
            return None;
        }
        proof {
            assert forall|j: int| 0 <= j < longer.len() implies is_digit(
                #[trigger] longer[j],
                10,
            ) by {
                if j < i {
                    assert(longer[j] == head[j]);
                }
            }
            lemma_decode_monotonic(longer, i as int, 10);
            assert(longer.take(i as int) == head);
        }
        if fits {
            match value.checked_mul(10) {
                Some(scaled) => match scaled.checked_add(digit as u64) {
                    Some(sum) => {
                        value = sum;
                    },
                    None => {
                        fits = false;
                    },
                },
                None => {
                    fits = false;
                },
            }
        }
        i += 1;
    }
    proof {
        assert(s@.take(i as int) == s@);
    }
    if fits {
        Some(value)
    } else {
        None
    }
}

/// Reads `s` as a signed decimal number, as `str::parse::<i64>` does.
pub fn parse_i64(s: &[char]) -> (value: Option<i64>)
    ensures
        match value {
            Some(v) => bounded_decimal_spec(s@, i64::MIN as int, i64::MAX as int) == Some(
                v as int,
            ),
            None => bounded_decimal_spec(s@, i64::MIN as int, i64::MAX as int) is None,
        },
{
    if s.len() == 0 {
        return None;
    }
    let first: char = s[0];
    if first == '-' || first == '+' {
        if s.len() == 1 {
            return None;
        }
        let digits = slice_subrange(s, 1, s.len());
        match decimal_magnitude(digits) {
            Some(m) => {
                if first == '+' {
                    if m <= 0x7fff_ffff_ffff_ffff {
                        Some(m as i64)
                    } else {
                        None
                    }
                } else if m <= 0x7fff_ffff_ffff_ffff {
                    Some(-(m as i64))
                } else if m == 0x8000_0000_0000_0000 {
                    Some(i64::MIN)
                } else {
                    None
                }
            },
            None => None,
        }
    } else {
        match decimal_magnitude(s) {
            Some(m) => if m <= 0x7fff_ffff_ffff_ffff {
                Some(m as i64)
            } else {
                None
            },
            None => None,
        }
    }
}

/// Reads `s` as a signed decimal number, as `str::parse::<i32>` does.
pub fn parse_i32(s: &[char]) -> (value: Option<i32>)
    ensures
        match value {
            Some(v) => bounded_decimal_spec(s@, i32::MIN as int, i32::MAX as int) == Some(
                v as int,
            ),
            None => bounded_decimal_spec(s@, i32::MIN as int, i32::MAX as int) is None,
        },
{
    match parse_i64(s) {
        Some(v) => if -0x8000_0000 <= v && v <= 0x7fff_ffff {
            Some(v as i32)
        } else {
            None
        },
        None => None,
    }
}

/// Returns whether `s` holds the characters of `literal` and no others.
pub fn text_is(s: &[char], literal: &str) -> (same: bool)
    ensures
        same == (s@ == literal@),
{
    let length: usize = literal.unicode_len();
    if s.len() != length {
        return false;
    }
    let mut i: usize = 0;
    while i < length
        invariant
            0 <= i <= length,
            length == literal@.len(),
            s@.len() == length,
            forall|j: int| 0 <= j < i ==> s@[j] == literal@[j],
        decreases length - i,
    {
        if s[i] != literal.get_char(i) {
            return false;
        }
        i += 1;
    }
    assert(s@ =~= literal@);
    true
}

} // verus!
