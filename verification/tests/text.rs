use state_search::text::{
    copy_range, digits_value, grid_of, lines, numbers, parse_i64, parse_u64, signed_numbers, split,
    trim,
};

fn bytes(text: &str) -> Vec<u8> {
    text.as_bytes().to_vec()
}

fn all(texts: &[&str]) -> Vec<Vec<u8>> {
    texts.iter().map(|t| bytes(t)).collect()
}

#[test]
fn split_gives_the_pieces_between_the_separators() {
    assert_eq!(split(&bytes("a,bc,def"), b','), all(&["a", "bc", "def"]));
    assert_eq!(split(&bytes("abc"), b','), all(&["abc"]));
    assert_eq!(split(&bytes(""), b','), all(&[""]));
}

#[test]
fn split_keeps_empty_pieces() {
    assert_eq!(split(&bytes(",a,,b,"), b','), all(&["", "a", "", "b", ""]));
    assert_eq!(split(&bytes(","), b','), all(&["", ""]));
}

#[test]
fn split_agrees_with_the_split_of_strings() {
    for text in ["1 2 3", " x  y ", "", "   ", "no-blank"] {
        let expected: Vec<Vec<u8>> = text.split(' ').map(|p| p.as_bytes().to_vec()).collect();
        assert_eq!(split(&bytes(text), b' '), expected);
    }
}

#[test]
fn pieces_joined_by_the_separator_give_the_text_back() {
    for text in ["a;b;;c", ";", "", "abc", ";;x"] {
        let parts = split(&bytes(text), b';');
        assert_eq!(parts.join(&b';'), bytes(text));
        assert!(parts.iter().all(|p| !p.contains(&b';')));
    }
}

#[test]
fn lines_end_at_line_feeds() {
    assert_eq!(lines(&bytes("ab\ncd\nef")), all(&["ab", "cd", "ef"]));
    assert_eq!(lines(&bytes("ab\ncd\n")), all(&["ab", "cd"]));
    assert_eq!(lines(&bytes("ab\n\ncd\n\n")), all(&["ab", "", "cd", ""]));
    assert_eq!(lines(&bytes("")), all(&[]));
    assert_eq!(lines(&bytes("\n")), all(&[""]));
}

#[test]
fn lines_drop_the_carriage_return_before_a_line_feed() {
    assert_eq!(lines(&bytes("ab\r\ncd\r\n")), all(&["ab", "cd"]));
    assert_eq!(lines(&bytes("a\rb\r\r\n")), all(&["a\rb\r"]));
    assert_eq!(lines(&bytes("ab\r\ncd\r")), all(&["ab", "cd\r"]));
}

#[test]
fn lines_agree_with_the_lines_of_strings() {
    for text in ["one\ntwo\n", "one\r\ntwo", "\n\n", "x", "", "a\n\r\nb\r", "\r\n"] {
        let expected: Vec<Vec<u8>> = text.lines().map(|p| p.as_bytes().to_vec()).collect();
        assert_eq!(lines(&bytes(text)), expected);
    }
}

#[test]
fn trim_takes_the_blanks_from_both_ends() {
    assert_eq!(trim(&bytes("  ab c \n")), bytes("ab c"));
    assert_eq!(trim(&bytes("abc")), bytes("abc"));
    assert_eq!(trim(&bytes("\t\r\n x")), bytes("x"));
    assert_eq!(trim(&bytes("x\x0b\x0c ")), bytes("x"));
    assert_eq!(trim(&bytes(" \n\t ")), bytes(""));
    assert_eq!(trim(&bytes("")), bytes(""));
}

#[test]
fn copy_range_takes_the_bytes_between_two_places() {
    assert_eq!(copy_range(&bytes("abcdef"), 1, 4), bytes("bcd"));
    assert_eq!(copy_range(&bytes("abcdef"), 0, 6), bytes("abcdef"));
    assert_eq!(copy_range(&bytes("abcdef"), 3, 3), bytes(""));
}

#[test]
fn unsigned_numbers_are_read_in_base_ten() {
    assert_eq!(parse_u64(&bytes("0")), Some(0));
    assert_eq!(parse_u64(&bytes("7")), Some(7));
    assert_eq!(parse_u64(&bytes("1203")), Some(1203));
    assert_eq!(parse_u64(&bytes("007")), Some(7));
    assert_eq!(parse_u64(&bytes("+42")), Some(42));
    assert_eq!(parse_u64(&bytes("18446744073709551615")), Some(u64::MAX));
}

#[test]
fn text_that_writes_no_unsigned_number_is_refused() {
    assert_eq!(parse_u64(&bytes("")), None);
    assert_eq!(parse_u64(&bytes("+")), None);
    assert_eq!(parse_u64(&bytes("-1")), None);
    assert_eq!(parse_u64(&bytes("12a")), None);
    assert_eq!(parse_u64(&bytes(" 12")), None);
    assert_eq!(parse_u64(&bytes("1+2")), None);
    assert_eq!(parse_u64(&bytes("++2")), None);
    assert_eq!(parse_u64(&bytes("18446744073709551616")), None);
    assert_eq!(parse_u64(&bytes("99999999999999999999999")), None);
    assert_eq!(parse_u64(&bytes("99999999999999999999999x")), None);
}

#[test]
fn unsigned_numbers_agree_with_the_parser_of_strings() {
    for text in ["0", "+0", "31", "0000000000000000000000001", "18446744073709551615", "", "+",
        "-0", "1_000", "18446744073709551616", "٣"]
    {
        assert_eq!(parse_u64(&bytes(text)), text.parse::<u64>().ok());
    }
}

#[test]
fn signed_numbers_are_read_with_their_sign() {
    assert_eq!(parse_i64(&bytes("0")), Some(0));
    assert_eq!(parse_i64(&bytes("-0")), Some(0));
    assert_eq!(parse_i64(&bytes("-15")), Some(-15));
    assert_eq!(parse_i64(&bytes("+15")), Some(15));
    assert_eq!(parse_i64(&bytes("9223372036854775807")), Some(i64::MAX));
    assert_eq!(parse_i64(&bytes("-9223372036854775808")), Some(i64::MIN));
    assert_eq!(parse_i64(&bytes("-9223372036854775807")), Some(-9223372036854775807));
}

#[test]
fn text_that_writes_no_signed_number_is_refused() {
    assert_eq!(parse_i64(&bytes("")), None);
    assert_eq!(parse_i64(&bytes("-")), None);
    assert_eq!(parse_i64(&bytes("+")), None);
    assert_eq!(parse_i64(&bytes("--1")), None);
    assert_eq!(parse_i64(&bytes("1-")), None);
    assert_eq!(parse_i64(&bytes("9223372036854775808")), None);
    assert_eq!(parse_i64(&bytes("-9223372036854775809")), None);
    assert_eq!(parse_i64(&bytes("-18446744073709551616")), None);
}

#[test]
fn signed_numbers_agree_with_the_parser_of_strings() {
    for text in ["0", "-0", "+7", "-7", "9223372036854775807", "9223372036854775808",
        "-9223372036854775808", "-9223372036854775809", "", "-", "4 ", "-+4"]
    {
        assert_eq!(parse_i64(&bytes(text)), text.parse::<i64>().ok());
    }
}

#[test]
fn digits_are_read_from_a_place_on() {
    assert_eq!(digits_value(&bytes("x=125"), 2), Some(125));
    assert_eq!(digits_value(&bytes("x=125"), 1), None);
    assert_eq!(digits_value(&bytes("x=125"), 5), None);
    assert_eq!(digits_value(&bytes("x=125"), 4), Some(5));
}

#[test]
fn numbers_of_a_list_are_read_one_by_one() {
    assert_eq!(numbers(&bytes("1,2,3"), b','), Some(vec![1, 2, 3]));
    assert_eq!(numbers(&bytes(" 10, 20 ,30\n"), b','), Some(vec![10, 20, 30]));
    assert_eq!(numbers(&bytes("5"), b','), Some(vec![5]));
    assert_eq!(numbers(&bytes("4 8 15\n"), b' '), Some(vec![4, 8, 15]));
}

#[test]
fn list_with_a_piece_that_is_no_number_is_refused() {
    assert_eq!(numbers(&bytes("1,,3"), b','), None);
    assert_eq!(numbers(&bytes("1,2,"), b','), None);
    assert_eq!(numbers(&bytes(""), b','), None);
    assert_eq!(numbers(&bytes("1,x,3"), b','), None);
    assert_eq!(numbers(&bytes("1,-2,3"), b','), None);
    assert_eq!(numbers(&bytes("1  2"), b' '), None);
}

#[test]
fn lines_of_one_length_draw_a_grid() {
    let grid = grid_of(&bytes("abc\ndef\n")).unwrap();
    assert_eq!(grid.width, 3);
    assert_eq!(grid.height, 2);
    assert_eq!(grid.cells, bytes("abcdef"));
    let single = grid_of(&bytes("#")).unwrap();
    assert_eq!((single.width, single.height), (1, 1));
    let windows = grid_of(&bytes("S.\r\n.E\r\n")).unwrap();
    assert_eq!(windows.cells, bytes("S..E"));
    assert_eq!((windows.width, windows.height), (2, 2));
}

#[test]
fn empty_lines_draw_a_grid_without_cells() {
    let grid = grid_of(&bytes("\n\n")).unwrap();
    assert_eq!((grid.width, grid.height), (0, 2));
    assert!(grid.cells.is_empty());
}

#[test]
fn lines_of_different_length_draw_no_grid() {
    assert!(grid_of(&bytes("abc\nde\n")).is_none());
    assert!(grid_of(&bytes("ab\ncde")).is_none());
    assert!(grid_of(&bytes("abc\n\ndef")).is_none());
    assert!(grid_of(&bytes("")).is_none());
}

#[test]
fn signed_numbers_of_a_list_are_read_one_by_one() {
    assert_eq!(signed_numbers(&bytes("1,-2,+3"), b','), Some(vec![1, -2, 3]));
    assert_eq!(signed_numbers(&bytes(" -7 "), b','), Some(vec![-7]));
    assert_eq!(signed_numbers(&bytes("1,,3"), b','), None);
    assert_eq!(signed_numbers(&bytes("1,2-,3"), b','), None);
    assert_eq!(signed_numbers(&bytes(""), b','), None);
}
