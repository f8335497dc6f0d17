use minesweeper_replay::base36::{decode, digit_of, encode, NumeralCodec};
use minesweeper_replay::error::MinesweeperError;

#[test]
fn encode_of_zero_is_empty() {
    assert_eq!(encode(0), "");
}

#[test]
fn encode_writes_most_significant_digit_first() {
    assert_eq!(encode(35), "z");
    assert_eq!(encode(36), "10");
    assert_eq!(encode(1295), "zz");
    assert_eq!(encode(i64::MAX), "1y2p0ij32e8e7");
}

#[test]
fn decode_reads_what_encode_wrote() {
    for n in [0i64, 1, 9, 10, 35, 36, 37, 1295, 1296, 46655, 123456789, i64::MAX] {
        assert_eq!(decode(&encode(n)), Ok(n));
    }
}

#[test]
fn decode_rejects_a_character_outside_the_alphabet() {
    assert_eq!(decode("A"), Err(MinesweeperError::InvalidDigit));
    assert_eq!(decode("1|2"), Err(MinesweeperError::InvalidDigit));
    assert_eq!(decode("12 "), Err(MinesweeperError::InvalidDigit));
}

#[test]
fn decode_rejects_a_number_above_the_largest() {
    assert_eq!(decode("1y2p0ij32e8e8"), Err(MinesweeperError::DataParseError));
    assert_eq!(decode("zzzzzzzzzzzzzzzzzzzz"), Err(MinesweeperError::DataParseError));
}

#[test]
fn codec_of_another_radix() {
    assert!(NumeralCodec::new(0).is_none());
    assert!(NumeralCodec::new(1).is_none());
    assert!(NumeralCodec::new(37).is_none());
    let binary = NumeralCodec::new(2).unwrap();
    assert_eq!(binary.radix(), 2);
    assert_eq!(binary.encode(10), "1010");
    assert_eq!(binary.decode("1010"), Ok(10));
    assert_eq!(binary.decode("1012"), Err(MinesweeperError::InvalidDigit));
    let hex = NumeralCodec::new(16).unwrap();
    assert_eq!(hex.encode(48879), "beef");
    assert_eq!(hex.decode("beef"), Ok(48879));
    assert_eq!(hex.decode("beeg"), Err(MinesweeperError::InvalidDigit));
    assert_eq!(hex.decode("7fffffffffffffff"), Ok(i64::MAX));
    assert_eq!(hex.decode("8000000000000000"), Err(MinesweeperError::DataParseError));
    assert_eq!(hex.decode_chars(&['0', '0', 'f', 'f']), Ok(255));
    assert_eq!(NumeralCodec::base36().radix(), 36);
    for radix in 2..=36u8 {
        let codec = NumeralCodec::new(radix).unwrap();
        for n in [0i64, 1, 35, 36, 1000, 987654321, i64::MAX] {
            assert_eq!(codec.decode(&codec.encode(n)), Ok(n));
        }
    }
    assert_eq!(digit_of('0'), Some(0));
    assert_eq!(digit_of('9'), Some(9));
    assert_eq!(digit_of('a'), Some(10));
    assert_eq!(digit_of('z'), Some(35));
    for c in ['/', ':', '`', '{', 'A', 'Z', ' ', 'é'] {
        assert_eq!(digit_of(c), None);
    }
}

#[test]
fn negative_numbers_have_no_numeral() {
    assert_eq!(encode(-1), "");
    assert_eq!(encode(i64::MIN), "");
    assert_eq!(decode(""), Ok(0));
    assert_eq!(decode("000"), Ok(0));
    assert_eq!(decode("00z"), Ok(35));
}
