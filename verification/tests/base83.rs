use blurhash::base83::{encode, encode_char, encode_into, ALPHABET_SIZE};

const SYMBOLS: &str =
    "0123456789ABCDEFGHIJKLMNOPQRSTUVWXYZabcdefghijklmnopqrstuvwxyz#$%*+,-.:;=?@[]^_{|}~";

#[test]
fn alphabet_has_83_symbols() {
    assert_eq!(ALPHABET_SIZE, 83);
    assert_eq!(SYMBOLS.chars().count(), 83);
}

#[test]
fn single_digit_shows_each_symbol_in_order() {
    for (d, c) in SYMBOLS.chars().enumerate() {
        assert_eq!(encode(d, 1), c.to_string());
    }
}

#[test]
fn encode_first_and_last_symbol() {
    assert_eq!(encode(0, 1), "0");
    assert_eq!(encode(82, 1), "~");
}

#[test]
fn encode_is_most_significant_first() {
    assert_eq!(encode(83, 2), "10");
    assert_eq!(encode(84, 2), "11");
    assert_eq!(encode(83 * 82 + 1, 2), "~1");
    assert_eq!(encode(10984849, 4), "JHjm");
}

#[test]
fn encode_pads_with_the_symbol_of_zero() {
    assert_eq!(encode(5, 4), "0005");
    assert_eq!(encode(0, 3), "000");
}

#[test]
fn encode_of_length_zero_is_empty() {
    assert_eq!(encode(12345, 0), "");
}

#[test]
fn encode_wraps_above_the_top_digit() {
    assert_eq!(encode(83, 1), "0");
    assert_eq!(encode(83 * 83 + 84, 2), "11");
}

#[test]
fn encode_takes_any_length() {
    assert_eq!(encode(5, 12), "000000000005");
    assert_eq!(encode(usize::MAX, 30).len(), 30);
    assert!(encode(usize::MAX, 30).starts_with("000000000000000000"));
}

#[test]
fn encode_into_appends() {
    let mut text = String::from("ab");
    encode_into(&mut text, 10984849, 4);
    assert_eq!(text, "abJHjm");
    encode_into(&mut text, 3429, 2);
    assert_eq!(text, "abJHjmfQ");
    encode_into(&mut text, 7, 0);
    assert_eq!(text, "abJHjmfQ");
}

#[test]
fn encode_char_passes_over_the_lowest_digit() {
    assert_eq!(encode_char(0), '0');
    assert_eq!(encode_char(82), '0');
    assert_eq!(encode_char(83), '1');
    assert_eq!(encode_char(83 * 82), '~');
    assert_eq!(encode_char(83 * 82 + 82), '~');
    assert_eq!(encode_char(83 * 83), '0');
}

#[test]
fn encoded_text_holds_symbols_only() {
    for value in [0usize, 1, 82, 83, 6858, 16777215, 47458320, usize::MAX] {
        for length in 0..6 {
            let text = encode(value, length);
            assert_eq!(text.chars().count(), length);
            assert!(text.chars().all(|c| SYMBOLS.contains(c)));
        }
    }
}

#[test]
fn reading_back_gives_the_number() {
    for value in [0usize, 1, 82, 83, 6858, 10984849, 16777215, 47458320] {
        let text = encode(value, 4);
        let mut read = 0usize;
        for c in text.chars() {
            read = read * 83 + SYMBOLS.find(c).unwrap();
        }
        assert_eq!(read, value);
    }
}
