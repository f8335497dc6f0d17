//! Positional numerals over the alphabet `0-9a-z`.
//!
//! A number is written most significant digit first, without leading zeros;
//! zero is written as the empty string. The radix can be anything from 2 to
//! 36 and selects the leading part of the alphabet.

use crate::error::MinesweeperError;
use crate::text::chars_of;
use vstd::arithmetic::div_mod::{lemma_div_decreases, lemma_fundamental_div_mod, lemma_mod_bound};
use vstd::prelude::*;
use vstd::string::{StrSliceExecFns, StringExecFns};

verus! {

/// The largest radix, and the one of the free functions `encode` and `decode`.
pub const BASE: i64 = 36;

/// The digits, in order of their value.
pub const CHARACTERS: &'static str = "0123456789abcdefghijklmnopqrstuvwxyz";

/// The value of the digit `c`, if `c` is a digit of the full alphabet.
pub open spec fn digit_value(c: char) -> Option<int> {
    if '0' <= c && c <= '9' {
        Some(c as int - '0' as int)
    } else if 'a' <= c && c <= 'z' {
        Some(c as int - 'a' as int + 10)
    } else {
        None
    }
}

/// Whether `c` is a digit in the given radix.
pub open spec fn is_digit(c: char, radix: int) -> bool {
    digit_value(c) matches Some(d) && d < radix
}

/// Whether every character of `s` is a digit in the given radix.
pub open spec fn all_digits(s: Seq<char>, radix: int) -> bool {
    forall|i: int| 0 <= i < s.len() ==> is_digit(#[trigger] s[i], radix)
}

/// The number that the digits `s` denote, most significant digit first.
/// The empty sequence denotes zero.
pub open spec fn decode_spec(s: Seq<char>, radix: int) -> int
    decreases s.len(),
{
    if s.len() == 0 {
        0
    } else {
        decode_spec(s.drop_last(), radix) * radix + digit_value(s.last()).unwrap()
    }
}

/// The numeral of `n`: no digit at all for zero (and for anything below),
/// else the numeral of `n / radix` followed by the digit `n % radix`.
pub open spec fn encode_spec(n: int, radix: int) -> Seq<char>
    decreases n,
    when 2 <= radix
    via encode_spec_decreases
{
    if n <= 0 {
        Seq::empty()
    } else {
        encode_spec(n / radix, radix).push(CHARACTERS@[n % radix])
    }
}

#[via_fn]
proof fn encode_spec_decreases(n: int, radix: int) {
    if n > 0 {
        lemma_div_decreases(n, radix);
        assert(0 <= n / radix) by (nonlinear_arith)
            requires
                n > 0,
                radix >= 2,
        ;
    }
}

/// The alphabet has 36 digits, and the digit at position `d` has value `d`.
pub proof fn lemma_alphabet()
    ensures
        CHARACTERS@.len() == 36,
        forall|d: int| 0 <= d < 36 ==> digit_value(#[trigger] CHARACTERS@[d]) == Some(d),
        vstd::string::is_ascii(CHARACTERS),
{
    reveal_strlit("0123456789abcdefghijklmnopqrstuvwxyz");
    assert forall|d: int| 0 <= d < 36 implies digit_value(#[trigger] CHARACTERS@[d]) == Some(
        d,
    ) by {
        assert(d == 0 || d == 1 || d == 2 || d == 3 || d == 4 || d == 5 || d == 6 || d == 7 || d
            == 8 || d == 9 || d == 10 || d == 11 || d == 12 || d == 13 || d == 14 || d == 15 || d
            == 16 || d == 17 || d == 18 || d == 19 || d == 20 || d == 21 || d == 22 || d == 23
            || d == 24 || d == 25 || d == 26 || d == 27 || d == 28 || d == 29 || d == 30 || d
            == 31 || d == 32 || d == 33 || d == 34 || d == 35);
    }
    assert forall|i: int| 0 <= i < CHARACTERS@.len() implies (CHARACTERS@[i] as u32) < 128 by {
        assert(digit_value(CHARACTERS@[i]) == Some(i));
    }
}

/// A numeral is the numeral of its leading digits followed by its last digit.
pub proof fn lemma_decode_push(s: Seq<char>, c: char, radix: int)
    ensures
        decode_spec(s.push(c), radix) == decode_spec(s, radix) * radix + digit_value(c).unwrap(),
{
    assert(s.push(c).drop_last() == s);
}

/// The value of a numeral is not negative, and not below that of any of its
/// leading parts.
pub proof fn lemma_decode_monotonic(s: Seq<char>, k: int, radix: int)
    requires
        1 <= radix,
        all_digits(s, radix),
        0 <= k <= s.len(),
    ensures
        0 <= decode_spec(s.take(k), radix) <= decode_spec(s, radix),
    decreases s.len() - k,
{
    if k == s.len() {
        assert(s.take(k) == s);
        lemma_decode_nonnegative(s, radix);
    } else {
        lemma_decode_monotonic(s, k + 1, radix);
        let t = s.take(k);
        assert(s.take(k + 1) == t.push(s[k]));
        lemma_decode_push(t, s[k], radix);
        assert(all_digits(t, radix));
        lemma_decode_nonnegative(t, radix);
        let v = decode_spec(t, radix);
        assert(v <= v * radix) by (nonlinear_arith)
            requires
                0 <= v,
                1 <= radix,
        ;
    }
}

/// The value of a numeral is not negative.
pub proof fn lemma_decode_nonnegative(s: Seq<char>, radix: int)
    requires
        1 <= radix,
        all_digits(s, radix),
    ensures
        0 <= decode_spec(s, radix),
    decreases s.len(),
{
    if s.len() > 0 {
        let t = s.drop_last();
        assert(all_digits(t, radix));
        lemma_decode_nonnegative(t, radix);
        let v = decode_spec(t, radix);
        assert(0 <= v * radix) by (nonlinear_arith)
            requires
                0 <= v,
                1 <= radix,
        ;
        assert(is_digit(s[s.len() - 1], radix));
    }
}

/// Decoding undoes encoding: the numeral of a number that is not negative
/// consists of digits of the radix and denotes that number.
pub proof fn lemma_decode_encode(n: int, radix: int)
    requires
        0 <= n,
        2 <= radix <= 36,
    ensures
        all_digits(encode_spec(n, radix), radix),
        decode_spec(encode_spec(n, radix), radix) == n,
    decreases n,
{
    if n > 0 {
        let q = n / radix;
        let r = n % radix;
        lemma_div_decreases(n, radix);
        lemma_fundamental_div_mod(n, radix);
        lemma_mod_bound(n, radix);
        assert(0 <= q) by (nonlinear_arith)
            requires
                n > 0,
                radix >= 2,
                q == n / radix,
        ;
        lemma_decode_encode(q, radix);
        lemma_alphabet();
        let head = encode_spec(q, radix);
        let c = CHARACTERS@[r];
        assert(encode_spec(n, radix) == head.push(c));
        lemma_decode_push(head, c, radix);
        assert(q * radix == radix * q) by (nonlinear_arith);
        assert forall|i: int| 0 <= i < head.push(c).len() implies is_digit(
            #[trigger] head.push(c)[i],
            radix,
        ) by {
            if i < head.len() {
                assert(head.push(c)[i] == head[i]);
            }
        }
    }
}

/// Returns the value of `c` as a digit of the full alphabet.
pub fn digit_of(c: char) -> (digit: Option<u8>)
    ensures
        match digit {
            Some(d) => digit_value(c) == Some(d as int),
            None => digit_value(c) is None,
        },
{
    let code: u32 = c as u32;
    if 48 <= code && code <= 57 {
        Some((code - 48) as u8)
    } else if 97 <= code && code <= 122 {
        Some((code - 87) as u8)
    } else {
        None
    }
}

/// A numeral system with a radix between 2 and 36.
#[derive(Clone, Copy, Debug)]
pub struct NumeralCodec {
    radix: u8,
}

impl NumeralCodec {
    /// The radix of this codec.
    pub closed spec fn radix_spec(&self) -> int {
        self.radix as int
    }

    #[verifier::type_invariant]
    spec fn well_formed(&self) -> bool {
        2 <= self.radix <= 36
    }

    /// Returns the codec of the given radix, if the alphabet has that many
    /// digits and the radix is at least 2.
    pub fn new(radix: u8) -> (codec: Option<NumeralCodec>)
        ensures
            codec is Some <==> 2 <= radix <= 36,
            codec matches Some(c) ==> c.radix_spec() == radix,
    {
        if 2 <= radix && radix <= 36 {
            Some(NumeralCodec { radix })
        } else {
            None
        }
    }

    /// Returns the codec that uses the whole alphabet.
    pub fn base36() -> (codec: NumeralCodec)
        ensures
            codec.radix_spec() == BASE,
    {
        NumeralCodec { radix: 36 }
    }

    /// Returns the radix.
    pub fn radix(&self) -> (radix: u8)
        ensures
            radix == self.radix_spec(),
            2 <= radix <= 36,
    {
        proof {
            use_type_invariant(self);
        }
        self.radix
    }

    /// Writes `number` as a numeral. Zero and negative numbers give the
    /// empty string.
    pub fn encode(&self, number: i64) -> (text: String)
        ensures
            text@ == encode_spec(number as int, self.radix_spec()),
    {
        let radix: u64 = self.radix() as u64;
        let mut text = String::new();
        if number <= 0 {
            return text;
        }
        let mut rest: u64 = number as u64;
        while rest > 0
            invariant
                2 <= radix <= 36,
                encode_spec(number as int, radix as int) == encode_spec(rest as int, radix as int)
                    + text@,
            decreases rest,
        {
            let digit: usize = (rest % radix) as usize;
            proof {
                lemma_alphabet();
                assert(encode_spec(rest as int, radix as int) == encode_spec(
                    rest as int / radix as int,
                    radix as int,
                ).push(CHARACTERS@[rest as int % radix as int]));
                assert(CHARACTERS@.subrange(digit as int, digit as int + 1) == seq![
                    CHARACTERS@[digit as int],
                ]);
            }
            let piece: &str = CHARACTERS.substring_ascii(digit, digit + 1);
            let mut longer = String::from_str(piece);
            longer.append(text.as_str());
            rest = rest / radix;
            proof {
                assert(encode_spec(rest as int, radix as int).push(CHARACTERS@[digit as int])
                    + text@ == encode_spec(rest as int, radix as int) + longer@);
            }
            text = longer;
        }
        text
    }

    /// Reads the numeral `digits`.
    ///
    /// Fails with `InvalidDigit` if a character is not a digit of the radix,
    /// and with `DataParseError` if the digits denote a number above
    /// `i64::MAX`.
    pub fn decode_chars(&self, digits: &[char]) -> (value: Result<i64, MinesweeperError>)
        ensures
            match value {
                Ok(v) => all_digits(digits@, self.radix_spec()) && v == decode_spec(
                    digits@,
                    self.radix_spec(),
                ),
                Err(e) => if all_digits(digits@, self.radix_spec()) {
                    e == MinesweeperError::DataParseError && decode_spec(
                        digits@,
                        self.radix_spec(),
                    ) > i64::MAX
                } else {
                    e == MinesweeperError::InvalidDigit
                },
            },
    {
        let radix: u8 = self.radix();
        let mut value: i64 = 0;
        let mut fits: bool = true;
        let mut i: usize = 0;
        while i < digits.len()
            invariant
                0 <= i <= digits.len(),
                2 <= radix <= 36,
                radix == self.radix_spec(),
                all_digits(digits@.take(i as int), radix as int),
                fits ==> value == decode_spec(digits@.take(i as int), radix as int),
                !fits ==> decode_spec(digits@.take(i as int), radix as int) > i64::MAX,
            decreases digits.len() - i,
        {
            let ghost head = digits@.take(i as int);
            let ghost longer = digits@.take(i as int + 1);
            proof {
                assert(longer == head.push(digits@[i as int]));
                lemma_decode_push(head, digits@[i as int], radix as int);
            }
            let digit: u8 = match digit_of(digits[i]) {
                Some(d) => d,
                None => {
                    return Err(MinesweeperError::InvalidDigit);
                },
            };
            if digit >= radix {
                assert(!is_digit(digits@[i as int], radix as int));
                return Err(MinesweeperError::InvalidDigit);
            }
            proof {
                assert forall|j: int| 0 <= j < longer.len() implies is_digit(
                    #[trigger] longer[j],
                    radix as int,
                ) by {
                    if j < i {
                        assert(longer[j] == head[j]);
                    }
                }
                lemma_decode_monotonic(longer, i as int, radix as int);
                assert(longer.take(i as int) == head);
            }
            if fits {
                match value.checked_mul(radix as i64) {
                    Some(scaled) => match scaled.checked_add(digit as i64) {
                        Some(sum) => {
                            value = sum;
                        },
                        None => {
                            fits = false;
                        },
                    },
                    None => {
                        fits = false;
                    },
                }
            }
            i += 1;
        }
        proof {
            assert(digits@.take(i as int) == digits@);
        }
        if fits {
            Ok(value)
        } else {
            Err(MinesweeperError::DataParseError)
        }
    }

    /// Reads the numeral `number`; see `decode_chars`.
    pub fn decode(&self, number: &str) -> (value: Result<i64, MinesweeperError>)
        ensures
            match value {
                Ok(v) => all_digits(number@, self.radix_spec()) && v == decode_spec(
                    number@,
                    self.radix_spec(),
                ),
                Err(e) => if all_digits(number@, self.radix_spec()) {
                    e == MinesweeperError::DataParseError && decode_spec(
                        number@,
                        self.radix_spec(),
                    ) > i64::MAX
                } else {
                    e == MinesweeperError::InvalidDigit
                },
            },
    {
        let digits = chars_of(number);
        self.decode_chars(digits.as_slice())
    }
}

/// Writes `number` in radix 36. Zero and negative numbers give the empty
/// string.
pub fn encode(number: i64) -> (text: String)
    ensures
        text@ == encode_spec(number as int, BASE as int),
{
    NumeralCodec::base36().encode(number)
}

/// Reads the radix 36 numeral `number`.
///
/// Fails with `InvalidDigit` if a character is not one of `0-9a-z`, and with
/// `DataParseError` if the digits denote a number above `i64::MAX`.
pub fn decode(number: &str) -> (value: Result<i64, MinesweeperError>)
    ensures
        match value {
            Ok(v) => all_digits(number@, BASE as int) && v == decode_spec(number@, BASE as int),
            Err(e) => if all_digits(number@, BASE as int) {
                e == MinesweeperError::DataParseError && decode_spec(number@, BASE as int)
                    > i64::MAX
            } else {
                e == MinesweeperError::InvalidDigit
            },
        },
{
    NumeralCodec::base36().decode(number)
}

} // verus!
