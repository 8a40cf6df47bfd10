use rle_codec::decode::{decode_chars, decompress_rle};
use rle_codec::digits::{char_is_digit, push_decimal};
use rle_codec::encode::{compress_rle, encode_chars};
use rle_codec::ratio::PercentChange;
use rle_codec::text::chars_of;

#[test]
fn empty_input_compresses_to_nothing() {
    let r = compress_rle("");
    assert_eq!(r.original_size, 0);
    assert_eq!(r.compressed_size, 0);
    assert_eq!(r.compressed_content, "");
    assert_eq!(r.compression_ratio, PercentChange { numerator: 0, denominator: 1 });
}

#[test]
fn empty_input_decompresses_to_nothing() {
    let r = decompress_rle("");
    assert_eq!(r.compressed_size, 0);
    assert_eq!(r.decompressed_size, 0);
    assert_eq!(r.decompressed_content, "");
    assert_eq!(r.expansion_ratio, PercentChange { numerator: 0, denominator: 1 });
}

#[test]
fn single_character() {
    assert_eq!(compress_rle("a").compressed_content, "1a");
    assert_eq!(decompress_rle("1a").decompressed_content, "a");
}

#[test]
fn runs_collapse() {
    let r = compress_rle("aaaabbbcca");
    assert_eq!(r.compressed_content, "4a3b2c1a");
    assert_eq!(r.original_size, 10);
    assert_eq!(r.compressed_size, 8);
    assert_eq!(r.compression_ratio, PercentChange { numerator: 200, denominator: 10 });
}

#[test]
fn bare_letters_are_dropped() {
    let r = decompress_rle("abc");
    assert_eq!(r.decompressed_content, "");
    assert_eq!(r.decompressed_size, 0);
    assert_eq!(r.compressed_size, 3);
    assert_eq!(r.expansion_ratio, PercentChange { numerator: -300, denominator: 3 });
}

#[test]
fn trailing_digits_are_dropped() {
    let r = decompress_rle("3");
    assert_eq!(r.decompressed_content, "");
    assert_eq!(r.decompressed_size, 0);
    assert_eq!(decompress_rle("2a17").decompressed_content, "aa");
}

#[test]
fn repetitive_input_saves_space() {
    let r = compress_rle("aaaaaaaaaa");
    assert_eq!(r.compressed_content, "10a");
    assert_eq!(r.compression_ratio, PercentChange { numerator: 700, denominator: 10 });
    assert!(r.compression_ratio.is_positive());
    assert!(!r.compression_ratio.is_negative());
}

#[test]
fn input_without_repeats_expands() {
    let r = compress_rle("abcdef");
    assert_eq!(r.compressed_content, "1a1b1c1d1e1f");
    assert_eq!(r.compressed_size, 12);
    assert_eq!(r.compression_ratio, PercentChange { numerator: -600, denominator: 6 });
    assert!(r.compression_ratio.is_negative());
    assert!(!r.compression_ratio.is_positive());
}

#[test]
fn clean_text_round_trips() {
    for text in ["a", "hello world", "aaabccddddde", "x  y", "ééé!ß", "zzzzzzzzzzzzzzzzzzzzzzzzz"] {
        let c = compress_rle(text);
        let d = decompress_rle(&c.compressed_content);
        assert_eq!(d.decompressed_content, text);
        assert_eq!(d.decompressed_size, c.original_size);
        assert_eq!(d.compressed_size, c.compressed_size);
    }
}

#[test]
fn sizes_count_characters() {
    let r = compress_rle("ééé");
    assert_eq!(r.compressed_content, "3é");
    assert_eq!(r.original_size, 3);
    assert_eq!(r.compressed_size, 2);
    let d = decompress_rle("2é");
    assert_eq!(d.decompressed_content, "éé");
    assert_eq!(d.compressed_size, 2);
    assert_eq!(d.decompressed_size, 2);
    assert_eq!(d.expansion_ratio, PercentChange { numerator: 0, denominator: 2 });
}

#[test]
fn multi_digit_counts() {
    let twelve = "a".repeat(12);
    assert_eq!(compress_rle(&twelve).compressed_content, "12a");
    let d = decompress_rle("12a3b");
    assert_eq!(d.decompressed_content, format!("{}bbb", twelve));
    assert_eq!(d.decompressed_size, 15);
    assert_eq!(d.expansion_ratio, PercentChange { numerator: 1000, denominator: 5 });
}

#[test]
fn zero_count_gives_nothing() {
    assert_eq!(decompress_rle("0a2b").decompressed_content, "bb");
    assert_eq!(decompress_rle("000c").decompressed_content, "");
    assert_eq!(decompress_rle("03c").decompressed_content, "ccc");
}

#[test]
fn overflowing_count_gives_nothing() {
    let d = decompress_rle("99999999999999999999a1b");
    assert_eq!(d.decompressed_content, "b");
    assert_eq!(d.decompressed_size, 1);
}

#[test]
fn unparseable_units_are_skipped() {
    assert_eq!(decompress_rle("2a b3c").decompressed_content, "aaccc");
    assert_eq!(decompress_rle("x2y").decompressed_content, "yy");
}

#[test]
fn digits_in_text_do_not_round_trip() {
    let c = compress_rle("a1");
    assert_eq!(c.compressed_content, "1a11");
    assert_eq!(decompress_rle(&c.compressed_content).decompressed_content, "a");
}

#[test]
fn digit_run_is_encoded_as_count_and_digit() {
    assert_eq!(compress_rle("111").compressed_content, "31");
    assert_eq!(decompress_rle("31").decompressed_content, "");
}

#[test]
fn percent_change_formulas() {
    assert_eq!(PercentChange::saving(3, 10), PercentChange { numerator: 700, denominator: 10 });
    assert_eq!(PercentChange::saving(5, 0), PercentChange { numerator: 0, denominator: 1 });
    assert_eq!(PercentChange::growth(15, 5), PercentChange { numerator: 1000, denominator: 5 });
    assert_eq!(PercentChange::growth(0, 4), PercentChange { numerator: -400, denominator: 4 });
    assert_eq!(PercentChange::growth(7, 0), PercentChange::zero());
    assert_eq!(
        PercentChange::growth(usize::MAX, 1),
        PercentChange { numerator: 100 * (usize::MAX as i128 - 1), denominator: 1 }
    );
}

#[test]
fn decimal_digits() {
    let mut out = vec!['x'];
    push_decimal(&mut out, 0);
    assert_eq!(out, vec!['x', '0']);
    push_decimal(&mut out, 1205);
    assert_eq!(out, vec!['x', '0', '1', '2', '0', '5']);
    let mut big = Vec::new();
    push_decimal(&mut big, usize::MAX);
    assert_eq!(big.iter().collect::<String>(), usize::MAX.to_string());
    assert!(char_is_digit('0'));
    assert!(char_is_digit('9'));
    assert!(!char_is_digit('a'));
    assert!(!char_is_digit('/'));
    assert!(!char_is_digit(':'));
    assert!(!char_is_digit('٣'));
}

#[test]
fn character_sequences() {
    assert_eq!(chars_of("aé€"), vec!['a', 'é', '€']);
    assert_eq!(chars_of(""), Vec::<char>::new());
    assert_eq!(encode_chars(&vec!['b', 'b', 'a']), vec!['2', 'b', '1', 'a']);
    assert_eq!(encode_chars(&vec![]), Vec::<char>::new());
    assert_eq!(decode_chars(&vec!['2', 'b', '1', 'a']), vec!['b', 'b', 'a']);
    assert_eq!(decode_chars(&vec!['7']), Vec::<char>::new());
}
