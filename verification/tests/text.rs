use linear_dijkstra::{parse_number, parse_numbers, push_decimal, render, solve, zero_based};

#[test]
fn plain_digits_are_a_number() {
    assert_eq!(parse_number(b"0"), Some(0));
    assert_eq!(parse_number(b"7"), Some(7));
    assert_eq!(parse_number(b"42"), Some(42));
    assert_eq!(parse_number(b"1234567890"), Some(1234567890));
}

#[test]
fn leading_zeros_do_not_change_the_value() {
    assert_eq!(parse_number(b"007"), Some(7));
    assert_eq!(parse_number(b"0000"), Some(0));
}

#[test]
fn a_plus_sign_may_lead() {
    assert_eq!(parse_number(b"+5"), Some(5));
    assert_eq!(parse_number(b"+0"), Some(0));
    assert_eq!(parse_number(b"+"), None);
    assert_eq!(parse_number(b"++5"), None);
    assert_eq!(parse_number(b"5+"), None);
}

#[test]
fn empty_text_is_no_number() {
    assert_eq!(parse_number(b""), None);
}

#[test]
fn anything_but_digits_is_refused() {
    assert_eq!(parse_number(b"-1"), None);
    assert_eq!(parse_number(b" 5"), None);
    assert_eq!(parse_number(b"5 "), None);
    assert_eq!(parse_number(b"5\n"), None);
    assert_eq!(parse_number(b"1a"), None);
    assert_eq!(parse_number(b"a1"), None);
    assert_eq!(parse_number(b"1.0"), None);
    assert_eq!(parse_number(b"/"), None);
    assert_eq!(parse_number(b":"), None);
    assert_eq!(parse_number(&[0x31, 0xc3, 0xa9]), None);
}

#[test]
fn the_largest_word_is_read_and_the_next_is_not() {
    let largest = usize::MAX.to_string();
    assert_eq!(parse_number(largest.as_bytes()), Some(usize::MAX));
    let mut beyond = largest.clone().into_bytes();
    let last = beyond.len() - 1;
    beyond[last] += 1;
    assert_eq!(parse_number(&beyond), None);
    let mut longer = largest.into_bytes();
    longer.push(b'0');
    assert_eq!(parse_number(&longer), None);
    assert_eq!(parse_number(b"99999999999999999999999999999999999999999"), None);
}

#[test]
fn parsing_agrees_with_the_standard_library() {
    let samples = [
        "", "0", "1", "+1", "-1", "+", "12x", "x12", "0012", " 1", "1 ", "4294967295", "4294967296",
        "18446744073709551615", "18446744073709551616", "+18446744073709551615", "1e3", "١",
    ];
    for text in samples {
        assert_eq!(parse_number(text.as_bytes()), text.parse::<usize>().ok(), "{:?}", text);
    }
}

#[test]
fn numbers_on_a_line_are_split_at_single_spaces() {
    assert_eq!(parse_numbers(b"3 3 1"), Some(vec![3, 3, 1]));
    assert_eq!(parse_numbers(b"7"), Some(vec![7]));
    assert_eq!(parse_numbers(b"10 +20 030"), Some(vec![10, 20, 30]));
}

#[test]
fn an_empty_piece_spoils_the_line() {
    assert_eq!(parse_numbers(b""), None);
    assert_eq!(parse_numbers(b" "), None);
    assert_eq!(parse_numbers(b"1  2"), None);
    assert_eq!(parse_numbers(b" 1 2"), None);
    assert_eq!(parse_numbers(b"1 2 "), None);
}

#[test]
fn a_bad_piece_spoils_the_line_wherever_it_stands() {
    assert_eq!(parse_numbers(b"x 2 3"), None);
    assert_eq!(parse_numbers(b"1 x 3"), None);
    assert_eq!(parse_numbers(b"1 2 x"), None);
    assert_eq!(parse_numbers(b"1\t2"), None);
    assert_eq!(parse_numbers(b"1 2\n"), None);
    assert_eq!(parse_numbers(b"1 99999999999999999999999999 3"), None);
}

#[test]
fn line_splitting_agrees_with_the_standard_library() {
    let samples = ["", " ", "1", "1 2", "1  2", " 1", "1 ", "12 345 6", "+1 02", "1 a", "a", "5 5 5 5"];
    for text in samples {
        let expected: Option<Vec<usize>> = text.split(' ').map(|s| s.parse::<usize>().ok()).collect();
        assert_eq!(parse_numbers(text.as_bytes()), expected, "{:?}", text);
    }
}

#[test]
fn digits_are_appended_to_what_is_there() {
    let mut out = b"x=".to_vec();
    push_decimal(&mut out, 0);
    assert_eq!(out, b"x=0");
    push_decimal(&mut out, 907);
    assert_eq!(out, b"x=0907");
    push_decimal(&mut out, 10);
    assert_eq!(out, b"x=090710");
}

#[test]
fn the_largest_word_is_written_in_full() {
    let mut out = Vec::new();
    push_decimal(&mut out, usize::MAX);
    assert_eq!(out, usize::MAX.to_string().into_bytes());
}

#[test]
fn values_are_rendered_on_one_line() {
    assert_eq!(render(&vec![0, 1, 1]), b"0 1 1\n");
    assert_eq!(render(&vec![0]), b"0\n");
    assert_eq!(render(&vec![0, 10, 200, 3]), b"0 10 200 3\n");
    assert_eq!(render(&vec![]), b"\n");
}

#[test]
fn what_is_rendered_reads_back() {
    let values = vec![0, 9, 10, 99, 100, 12345, usize::MAX, 1];
    let mut line = render(&values);
    assert_eq!(line.pop(), Some(b'\n'));
    assert_eq!(parse_numbers(&line), Some(values));
}

#[test]
fn three_nodes_from_text_to_text() {
    let n = parse_number(b"3").unwrap();
    let raw = parse_numbers(b"3 3 1").unwrap();
    let shortcuts = zero_based(n, &raw).unwrap();
    assert_eq!(render(&solve(&shortcuts).unwrap()), b"0 1 1\n");
}

#[test]
fn five_nodes_from_text_to_text() {
    let n = parse_number(b"5").unwrap();
    let raw = parse_numbers(b"1 2 3 4 5").unwrap();
    let shortcuts = zero_based(n, &raw).unwrap();
    assert_eq!(render(&solve(&shortcuts).unwrap()), b"0 1 2 3 4\n");
}

#[test]
fn one_node_from_text_to_text() {
    let n = parse_number(b"1").unwrap();
    let raw = parse_numbers(b"1").unwrap();
    let shortcuts = zero_based(n, &raw).unwrap();
    assert_eq!(render(&solve(&shortcuts).unwrap()), b"0\n");
}
