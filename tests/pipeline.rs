use wrong_text_encoding::codec::{byte_from_str, parse_bytes, print_byte, print_bytes};
use wrong_text_encoding::freq::{make_freq_list, make_freq_map};
use wrong_text_encoding::tags::{make_replace_list, replace_with_tags};
use wrong_text_encoding::{
    check_sample, ConversionMode, EmptyListError, EmptySourceError, NotEnoughTagsError,
    ParseByteError, PrintMode, TextError,
};

const SAMPLE: &str = "01001000 01100101 01101100 01101100 01101111 00100000\n\
                      01110111 01101111 01110010 01101100 01100100 00100001\n";

#[test]
fn replace_tags_test() {
    let sample = check_sample(SAMPLE.to_string()).unwrap();

    let (print_mode, conv_mode) = (PrintMode::Decimal, ConversionMode::Binary);
    let as_some = print_bytes(&parse_bytes(&sample, conv_mode).unwrap(), print_mode).unwrap();

    let byte_list = as_some.split_whitespace().collect::<Vec<&str>>();
    let replace_map = make_replace_list('\u{430}', '\u{44f}');

    let tag_list = replace_with_tags(&byte_list, replace_map).unwrap();

    let ref_occur = make_freq_list(make_freq_map(&byte_list).unwrap()).unwrap();
    let test = make_freq_list(make_freq_map(tag_list.as_slice()).unwrap()).unwrap();
    for (idx, n) in test.into_iter().enumerate() {
        assert_eq!(ref_occur[idx], n);
    }
}

#[test]
fn sample_pipeline_values() {
    let bytes = parse_bytes(SAMPLE, ConversionMode::Binary).unwrap();
    assert_eq!(bytes, b"Hello world!".to_vec());
    let text = print_bytes(&bytes, PrintMode::Decimal).unwrap();
    assert_eq!(text, "72 101 108 108 111 32 119 111 114 108 100 33");
}

#[test]
fn scenario_first_come_tags() {
    let s = vec!["1", "2", "1", "3", "2", "1"];
    let alphabet = make_replace_list('a', 'f');
    assert_eq!(alphabet.len(), 6);
    let tags = replace_with_tags(&s, alphabet).unwrap();
    assert_eq!(tags, vec!['a', 'b', 'a', 'c', 'b', 'a']);
    let out = make_freq_list(make_freq_map(&tags).unwrap()).unwrap();
    let inp = make_freq_list(make_freq_map(&s).unwrap()).unwrap();
    assert_eq!(out, vec![1, 2, 3]);
    assert_eq!(inp, vec![1, 2, 3]);
}

#[test]
fn scenario_not_enough_tags() {
    let s = vec!["1", "2", "3", "4", "5"];
    let alphabet = make_replace_list('a', 'c');
    assert_eq!(alphabet.len(), 3);
    assert_eq!(
        replace_with_tags(&s, alphabet),
        Err(TextError::NotEnoughTags(NotEnoughTagsError))
    );
}

#[test]
fn capacity_counts_length_not_distinct_tokens() {
    let s = vec![7u8, 7, 7, 7];
    assert_eq!(
        replace_with_tags(&s, make_replace_list('a', 'c')),
        Err(TextError::NotEnoughTags(NotEnoughTagsError))
    );
    assert_eq!(replace_with_tags(&s, make_replace_list('a', 'd')), Ok(vec!['a'; 4]));
}

#[test]
fn capacity_equality_boundary_succeeds() {
    let s = vec![3u8, 1, 4];
    let tags = replace_with_tags(&s, make_replace_list('x', 'z')).unwrap();
    assert_eq!(tags, vec!['x', 'y', 'z']);
}

#[test]
fn empty_inputs_are_rejected() {
    let none: Vec<&str> = Vec::new();
    assert_eq!(
        replace_with_tags(&none, make_replace_list('a', 'z')),
        Err(TextError::EmptyList(EmptyListError))
    );
    assert_eq!(make_freq_map(&none), Err(TextError::EmptyList(EmptyListError)));
    let table: Vec<(&u8, u32)> = Vec::new();
    assert_eq!(make_freq_list(table), Err(TextError::EmptyList(EmptyListError)));
    assert_eq!(print_bytes(&[], PrintMode::Hexadecimal), Err(TextError::EmptyList(EmptyListError)));
    assert_eq!(parse_bytes("", ConversionMode::Decimal), Err(TextError::EmptyList(EmptyListError)));
}

#[test]
fn empty_input_with_empty_alphabet_reports_capacity_first() {
    let none: Vec<u8> = Vec::new();
    let empty_alphabet = make_replace_list('b', 'a');
    assert!(empty_alphabet.is_empty());
    assert_eq!(
        replace_with_tags(&none, empty_alphabet),
        Err(TextError::EmptyList(EmptyListError))
    );
    assert_eq!(
        replace_with_tags(&[1u8], make_replace_list('b', 'a')),
        Err(TextError::NotEnoughTags(NotEnoughTagsError))
    );
}

#[test]
fn substitution_is_deterministic() {
    let s = vec!["x", "y", "x", "z", "w", "y"];
    let a = replace_with_tags(&s, make_replace_list('a', 'z')).unwrap();
    let b = replace_with_tags(&s, make_replace_list('a', 'z')).unwrap();
    assert_eq!(a, b);
}

#[test]
fn substitution_is_injective() {
    let s = vec![10u8, 20, 30, 10, 40, 20];
    let t = replace_with_tags(&s, make_replace_list('A', 'Z')).unwrap();
    for i in 0..s.len() {
        for j in 0..s.len() {
            assert_eq!(s[i] == s[j], t[i] == t[j]);
        }
    }
}

#[test]
fn freq_map_lists_first_occurrences() {
    let s = vec!['q', 'r', 'q', 's', 'q', 'r'];
    let table = make_freq_map(&s).unwrap();
    let plain: Vec<(char, u32)> = table.iter().map(|(c, n)| (**c, *n)).collect();
    assert_eq!(plain, vec![('q', 3), ('r', 2), ('s', 1)]);
}

#[test]
fn freq_list_sorts_counts() {
    let (a, b, c) = (1u8, 2u8, 3u8);
    let table = vec![(&a, 5u32), (&b, 1), (&c, 3)];
    assert_eq!(make_freq_list(table), Ok(vec![1, 3, 5]));
}

#[test]
fn replace_list_spans_inclusive_range() {
    assert_eq!(make_replace_list('a', 'e'), vec!['a', 'b', 'c', 'd', 'e']);
    assert_eq!(make_replace_list('k', 'k'), vec!['k']);
    assert!(make_replace_list('z', 'a').is_empty());
    assert_eq!(make_replace_list('\u{430}', '\u{44f}').len(), 32);
}

#[test]
fn replace_list_skips_surrogates() {
    assert_eq!(make_replace_list('\u{d7ff}', '\u{e000}'), vec!['\u{d7ff}', '\u{e000}']);
}

#[test]
fn print_byte_each_radix() {
    assert_eq!(print_byte(5, PrintMode::Binary), "00000101");
    assert_eq!(print_byte(0, PrintMode::Binary), "00000000");
    assert_eq!(print_byte(255, PrintMode::Binary), "11111111");
    assert_eq!(print_byte(255, PrintMode::Hexadecimal), "ff");
    assert_eq!(print_byte(10, PrintMode::Hexadecimal), "a");
    assert_eq!(print_byte(8, PrintMode::Octal), "10");
    assert_eq!(print_byte(0, PrintMode::Decimal), "0");
    assert_eq!(print_byte(200, PrintMode::Decimal), "200");
}

#[test]
fn print_bytes_joins_with_single_spaces() {
    assert_eq!(print_bytes(&[1, 2, 255], PrintMode::Decimal), Ok("1 2 255".to_string()));
    assert_eq!(print_bytes(&[7], PrintMode::Octal), Ok("7".to_string()));
    assert_eq!(print_bytes(&[1, 16], PrintMode::Hexadecimal), Ok("1 10".to_string()));
}

#[test]
fn parse_bytes_each_radix() {
    assert_eq!(parse_bytes("101 11", ConversionMode::Binary), Ok(vec![5, 3]));
    assert_eq!(parse_bytes("ff 0A", ConversionMode::Hexadecimal), Ok(vec![255, 10]));
    assert_eq!(parse_bytes("17 +7", ConversionMode::Octal), Ok(vec![15, 7]));
    assert_eq!(parse_bytes(" 255\t0\n 42 ", ConversionMode::Decimal), Ok(vec![255, 0, 42]));
    assert_eq!(parse_bytes("1\u{3000}2", ConversionMode::Decimal), Ok(vec![1, 2]));
    assert_eq!(parse_bytes("   ", ConversionMode::Decimal), Ok(vec![]));
}

#[test]
fn parse_bytes_errors() {
    assert_eq!(
        parse_bytes("101 102", ConversionMode::Binary),
        Err(TextError::Parse(ParseByteError::InvalidDigit))
    );
    assert_eq!(
        parse_bytes("12 256", ConversionMode::Decimal),
        Err(TextError::Parse(ParseByteError::Overflow))
    );
    assert_eq!(
        parse_bytes("999x 1z", ConversionMode::Decimal),
        Err(TextError::Parse(ParseByteError::Overflow))
    );
    assert_eq!(
        parse_bytes("1z 999", ConversionMode::Decimal),
        Err(TextError::Parse(ParseByteError::InvalidDigit))
    );
    assert_eq!(
        parse_bytes("-1", ConversionMode::Decimal),
        Err(TextError::Parse(ParseByteError::InvalidDigit))
    );
}

#[test]
fn byte_from_str_cases() {
    assert_eq!(byte_from_str("ff", ConversionMode::Hexadecimal), Ok(255));
    assert_eq!(byte_from_str("FF", ConversionMode::Hexadecimal), Ok(255));
    assert_eq!(byte_from_str("+", ConversionMode::Decimal), Err(ParseByteError::InvalidDigit));
    assert_eq!(byte_from_str("", ConversionMode::Decimal), Err(ParseByteError::Empty));
    assert_eq!(byte_from_str("100000000", ConversionMode::Binary), Err(ParseByteError::Overflow));
    assert_eq!(byte_from_str("0011111111", ConversionMode::Binary), Ok(255));
}

#[test]
fn round_trip_every_radix() {
    let all: Vec<u8> = (0..=255).collect();
    let pairs = [
        (PrintMode::Binary, ConversionMode::Binary),
        (PrintMode::Octal, ConversionMode::Octal),
        (PrintMode::Decimal, ConversionMode::Decimal),
        (PrintMode::Hexadecimal, ConversionMode::Hexadecimal),
    ];
    for (p, c) in pairs {
        let text = print_bytes(&all, p).unwrap();
        assert_eq!(parse_bytes(&text, c), Ok(all.clone()));
    }
}

#[test]
fn check_sample_rejects_empty_text() {
    assert_eq!(check_sample(String::new()), Err(TextError::EmptySource(EmptySourceError)));
    assert_eq!(check_sample("0 1".to_string()), Ok("0 1".to_string()));
}
