use std::collections::HashMap;
use sydney_rt::intmap::{sydney_map_create, sydney_map_get, sydney_map_set};
use sydney_rt::text::{
    sydney_print_bool, sydney_print_int, sydney_print_newline, sydney_print_string,
    sydney_strcat, sydney_strlen,
};
use sydney_rt::words::{order_ends, read_word, word_span, WordSpan, WORD};

#[test]
fn strlen_of_null_is_zero() {
    assert_eq!(sydney_strlen(None), 0);
}

#[test]
fn strlen_counts_up_to_the_first_nul() {
    assert_eq!(sydney_strlen(Some(&b"hello\0"[..])), 5);
    assert_eq!(sydney_strlen(Some(&b"\0"[..])), 0);
    assert_eq!(sydney_strlen(Some(&b"ab\0cd\0"[..])), 2);
    assert_eq!(sydney_strlen(Some(&b"abc"[..])), 3);
    assert_eq!(sydney_strlen(Some(&b""[..])), 0);
    assert_eq!(sydney_strlen(Some(&[0xffu8, 0xfe, 0][..])), 2);
}

#[test]
fn strcat_joins_and_terminates() {
    assert_eq!(
        sydney_strcat(Some(&b"foo\0"[..]), Some(&b"bar\0"[..])),
        b"foobar\0".to_vec()
    );
    assert_eq!(
        sydney_strcat(Some(&b"a\0zzz"[..]), Some(&b"b\0yyy"[..])),
        b"ab\0".to_vec()
    );
    assert_eq!(
        sydney_strcat(Some("h\u{e9}\0".as_bytes()), Some("\u{4e16}\u{754c}\0".as_bytes())),
        "h\u{e9}\u{4e16}\u{754c}\0".as_bytes().to_vec()
    );
}

#[test]
fn strcat_treats_null_as_empty() {
    assert_eq!(sydney_strcat(None, None), vec![0u8]);
    assert_eq!(sydney_strcat(None, Some(&b"x\0"[..])), b"x\0".to_vec());
    assert_eq!(sydney_strcat(Some(&b"x\0"[..]), None), b"x\0".to_vec());
    assert_eq!(sydney_strcat(Some(&b"\0"[..]), Some(&b"\0"[..])), vec![0u8]);
}

#[test]
fn strcat_joins_bytes_whatever_their_encoding() {
    assert_eq!(
        sydney_strcat(Some(&[0xffu8, 0][..]), Some(&b"x\0"[..])),
        vec![0xffu8, b'x', 0]
    );
    assert_eq!(
        sydney_strcat(Some(&[0xffu8, 0x41, 0][..]), Some(&b"ok\0"[..])),
        vec![0xffu8, 0x41, b'o', b'k', 0]
    );
    assert_eq!(
        sydney_strcat(Some(&b"ok\0"[..]), Some(&[0xc3u8, 0x28, 0][..])),
        vec![b'o', b'k', 0xc3, 0x28, 0]
    );
    assert_eq!(
        sydney_strcat(Some(&[0x41u8, 0, 0xff][..]), Some(&[0xe2u8, 0x82, 0][..])),
        vec![0x41u8, 0xe2, 0x82, 0]
    );
    assert_eq!(sydney_strcat(Some(&[0x80u8, 0x80, 0][..]), None), vec![0x80u8, 0x80, 0]);
}

#[test]
fn strcat_of_buffers_without_terminator_takes_them_whole() {
    assert_eq!(sydney_strcat(Some(&b"ab"[..]), Some(&b"cd"[..])), b"abcd\0".to_vec());
    assert_eq!(sydney_strcat(Some(&b""[..]), Some(&b"cd"[..])), b"cd\0".to_vec());
}

#[test]
fn strcat_length_is_the_sum_of_the_lengths() {
    let operands: [Option<&[u8]>; 7] = [
        None,
        Some(&b"\0"[..]),
        Some(&b"a\0"[..]),
        Some(&b"hello\0world\0"[..]),
        Some(&[0xffu8, 0xfe, 0xfd, 0][..]),
        Some(&[0xc3u8, 0][..]),
        Some(&b"no terminator"[..]),
    ];
    for a in operands {
        for b in operands {
            let la = sydney_strlen(a) as usize;
            let lb = sydney_strlen(b) as usize;
            let joined = sydney_strcat(a, b);
            assert_eq!(joined.len(), la + lb + 1);
            assert_eq!(sydney_strlen(Some(&joined[..])), (la + lb) as i64);
            assert_eq!(joined[la + lb], 0);
            assert!(joined[..la + lb].iter().all(|byte| *byte != 0));
            if let Some(buf) = a {
                assert_eq!(&joined[..la], &buf[..la]);
            }
            if let Some(buf) = b {
                assert_eq!(&joined[la..la + lb], &buf[..lb]);
            }
        }
    }
}

#[test]
fn print_string_of_null() {
    assert_eq!(sydney_print_string(None), b"null".to_vec());
}

#[test]
fn print_string_of_text() {
    assert_eq!(sydney_print_string(Some(&b"hello\0"[..])), b"hello".to_vec());
    assert_eq!(sydney_print_string(Some(&b"\0"[..])), Vec::<u8>::new());
    assert_eq!(sydney_print_string(Some(&b"null\0"[..])), b"null".to_vec());
    assert_eq!(
        sydney_print_string(Some("gr\u{fc}n\0rest".as_bytes())),
        "gr\u{fc}n".as_bytes().to_vec()
    );
}

#[test]
fn print_string_of_malformed_text() {
    assert_eq!(
        sydney_print_string(Some(&[0x61u8, 0x80, 0][..])),
        b"<invalid utf8>".to_vec()
    );
    assert_eq!(
        sydney_print_string(Some(&[0xedu8, 0xa0, 0x80, 0][..])),
        b"<invalid utf8>".to_vec()
    );
    assert_eq!(sydney_print_string(Some(&[0x61u8, 0, 0x80][..])), b"a".to_vec());
}

#[test]
fn print_bool_of_zero_and_others() {
    assert_eq!(sydney_print_bool(0), b"false".to_vec());
    assert_eq!(sydney_print_bool(1), b"true".to_vec());
    assert_eq!(sydney_print_bool(-1), b"true".to_vec());
    assert_eq!(sydney_print_bool(i8::MIN), b"true".to_vec());
    assert_eq!(sydney_print_bool(127), b"true".to_vec());
}

#[test]
fn print_int_writes_decimal() {
    assert_eq!(sydney_print_int(0), b"0".to_vec());
    assert_eq!(sydney_print_int(7), b"7".to_vec());
    assert_eq!(sydney_print_int(10), b"10".to_vec());
    assert_eq!(sydney_print_int(-1), b"-1".to_vec());
    assert_eq!(sydney_print_int(1_234_567_890), b"1234567890".to_vec());
    assert_eq!(sydney_print_int(-9_000), b"-9000".to_vec());
    assert_eq!(sydney_print_int(i64::MAX), b"9223372036854775807".to_vec());
    assert_eq!(sydney_print_int(i64::MIN), b"-9223372036854775808".to_vec());
}

#[test]
fn print_int_agrees_with_std_formatting() {
    let mut v: i64 = 1;
    for _ in 0..62 {
        for d in [-1i64, 0, 1] {
            let n = v + d;
            assert_eq!(sydney_print_int(n), format!("{}", n).into_bytes());
            assert_eq!(sydney_print_int(-n), format!("{}", -n).into_bytes());
        }
        v *= 2;
    }
}

#[test]
fn print_newline_is_one_line_feed() {
    assert_eq!(sydney_print_newline(), vec![b'\n']);
}

#[test]
fn map_reads_zero_for_missing_keys() {
    let map = sydney_map_create();
    assert!(map.is_empty());
    assert_eq!(sydney_map_get(&map, 0), 0);
    assert_eq!(sydney_map_get(&map, 42), 0);
    assert_eq!(sydney_map_get(&map, i64::MIN), 0);
}

#[test]
fn map_set_then_get() {
    let mut map = sydney_map_create();
    sydney_map_set(&mut map, 1, 100);
    sydney_map_set(&mut map, -5, -500);
    sydney_map_set(&mut map, i64::MAX, i64::MIN);
    assert_eq!(sydney_map_get(&map, 1), 100);
    assert_eq!(sydney_map_get(&map, -5), -500);
    assert_eq!(sydney_map_get(&map, i64::MAX), i64::MIN);
    assert_eq!(sydney_map_get(&map, 2), 0);
    assert_eq!(map.len(), 3);
}

#[test]
fn map_set_replaces_and_zero_looks_absent() {
    let mut map = sydney_map_create();
    sydney_map_set(&mut map, 7, 1);
    sydney_map_set(&mut map, 7, 2);
    assert_eq!(sydney_map_get(&map, 7), 2);
    assert_eq!(map.len(), 1);
    sydney_map_set(&mut map, 7, 0);
    assert_eq!(sydney_map_get(&map, 7), 0);
    assert_eq!(sydney_map_get(&map, 8), 0);
    assert_eq!(map.len(), 1);
}

#[test]
fn word_is_eight_bytes() {
    assert_eq!(WORD, 8);
}

#[test]
fn order_ends_puts_the_lower_first() {
    assert_eq!(order_ends(3, 9), (3, 9));
    assert_eq!(order_ends(9, 3), (3, 9));
    assert_eq!(order_ends(5, 5), (5, 5));
    assert_eq!(order_ends(u64::MAX, 0), (0, u64::MAX));
}

#[test]
fn word_span_of_aligned_range() {
    assert_eq!(word_span(0x1000, 0x1020), WordSpan { first: 0x1000, count: 4 });
    assert_eq!(word_span(0x1000, 0x1008), WordSpan { first: 0x1000, count: 1 });
    assert_eq!(word_span(0, 16), WordSpan { first: 0, count: 2 });
}

#[test]
fn word_span_rounds_inward() {
    assert_eq!(word_span(0x1001, 0x1020), WordSpan { first: 0x1008, count: 3 });
    assert_eq!(word_span(0x1000, 0x101f), WordSpan { first: 0x1000, count: 3 });
    assert_eq!(word_span(0x1007, 0x1011), WordSpan { first: 0x1008, count: 1 });
    assert_eq!(word_span(0x1000, 0x1014).count, 2);
}

#[test]
fn word_span_of_short_or_reversed_range_is_empty() {
    let empty = WordSpan { first: 0, count: 0 };
    assert_eq!(word_span(0x1000, 0x1000), empty);
    assert_eq!(word_span(0x1000, 0x1007), empty);
    assert_eq!(word_span(0x1001, 0x100f), empty);
    assert_eq!(word_span(0x1001, 0x1004), empty);
    assert_eq!(word_span(0x2000, 0x1000), empty);
    assert_eq!(word_span(u64::MAX - 3, u64::MAX), empty);
    assert_eq!(word_span(u64::MAX, u64::MAX), empty);
    assert_eq!(word_span(0, 0), empty);
    assert_eq!(word_span(0, 7), empty);
}

#[test]
fn word_span_at_the_end_of_the_address_space() {
    assert_eq!(
        word_span(u64::MAX - 15, u64::MAX),
        WordSpan { first: u64::MAX - 15, count: 1 }
    );
    assert_eq!(
        word_span(u64::MAX - 16, u64::MAX),
        WordSpan { first: u64::MAX - 15, count: 1 }
    );
}

#[test]
fn read_word_of_covered_and_uncovered_address() {
    let mut memory: HashMap<u64, u64> = HashMap::new();
    memory.insert(0x100, 77);
    memory.insert(0x108, 0);
    assert_eq!(read_word(&memory, 0x100), 77);
    assert_eq!(read_word(&memory, 0x108), 0);
    assert_eq!(read_word(&memory, 0x110), 0);
}
