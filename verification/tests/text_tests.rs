use hsharp_runtime::cbytes::{
    hsh_str_index_of, hsh_string_at, hsh_string_find, hsh_string_rfind, hsh_string_slice,
    hsh_strlen, hsh_substr,
};
use hsharp_runtime::cstr::{cstring_contents, encode_chars, read_str};
use hsharp_runtime::text::{
    hsh_assert, hsh_char_code_to_str, hsh_ends_with, hsh_panic, hsh_starts_with, hsh_str_contains,
    hsh_str_replace, hsh_str_split_count, hsh_str_split_part, hsh_str_split_whitespace,
    hsh_str_to_char_code, hsh_strcat, hsh_string_chars, hsh_string_lower, hsh_string_pad_right,
    hsh_string_repeat, hsh_string_split, hsh_string_trim_right, hsh_string_upper, hsh_to_lower,
    hsh_to_upper, hsh_trim,
};

fn s(x: &str) -> Option<&[u8]> {
    Some(x.as_bytes())
}

fn strs(v: Vec<Vec<u8>>) -> Vec<String> {
    v.into_iter().map(|b| String::from_utf8(b).unwrap()).collect()
}

#[test]
fn read_str_decodes_leniently() {
    assert_eq!(read_str(None), Vec::<char>::new());
    assert_eq!(read_str(s("hé")), vec!['h', 'é']);
    assert_eq!(read_str(Some(&[0x61, 0xff, 0x62])), vec!['a', '\u{FFFD}', 'b']);
}

#[test]
fn encode_and_cut_at_nul() {
    assert_eq!(encode_chars(&['a', 'é', '€', '😀']), "aé€😀".as_bytes().to_vec());
    assert_eq!(cstring_contents(b"ab\0cd"), b"ab".to_vec());
    assert_eq!(cstring_contents(b"abc"), b"abc".to_vec());
}

#[test]
fn strlen_counts_bytes() {
    assert_eq!(hsh_strlen(s("héllo")), 6);
    assert_eq!(hsh_strlen(None), 0);
}

#[test]
fn trim_strips_c_whitespace_only() {
    assert_eq!(hsh_trim(s(" \t hi there \r\n")), b"hi there".to_vec());
    assert_eq!(hsh_trim(s("\u{a0}x\u{a0}")), "\u{a0}x\u{a0}".as_bytes().to_vec());
    assert_eq!(hsh_trim(s("   ")), b"".to_vec());
    assert_eq!(hsh_trim(None), b"".to_vec());
    assert_eq!(hsh_string_trim_right(s("  a b  \n")), b"  a b".to_vec());
}

#[test]
fn trim_twice_is_trim_once() {
    let once = hsh_trim(s("\n  word \t"));
    let twice = hsh_trim(Some(&once));
    assert_eq!(once, twice);
}

#[test]
fn contains_starts_ends() {
    assert_eq!(hsh_str_contains(s("hello world"), s("o w")), 1);
    assert_eq!(hsh_str_contains(s("hello"), s("xyz")), 0);
    assert_eq!(hsh_str_contains(s("hello"), s("")), 1);
    assert_eq!(hsh_str_contains(None, s("")), 0);
    assert_eq!(hsh_str_contains(s("a"), None), 0);
    assert_eq!(hsh_starts_with(s("prefix-rest"), s("prefix")), 1);
    assert_eq!(hsh_starts_with(s("pre"), s("prefix")), 0);
    assert_eq!(hsh_starts_with(None, s("")), 0);
    assert_eq!(hsh_ends_with(s("file.txt"), s(".txt")), 1);
    assert_eq!(hsh_ends_with(s("file.txt"), s(".md")), 0);
    assert_eq!(hsh_ends_with(s("x"), s("")), 1);
    assert_eq!(hsh_ends_with(s("x"), None), 0);
}

#[test]
fn index_of_and_rfind_by_bytes() {
    assert_eq!(hsh_str_index_of(s("abcabc"), s("bc")), 1);
    assert_eq!(hsh_str_index_of(s("abcabc"), s("")), 0);
    assert_eq!(hsh_str_index_of(s("abc"), s("abcd")), -1);
    assert_eq!(hsh_str_index_of(s("héllo"), s("l")), 3);
    assert_eq!(hsh_str_index_of(None, s("a")), -1);
    assert_eq!(hsh_string_find(s("aaa"), s("aa")), 0);
    assert_eq!(hsh_string_rfind(s("abcabc"), s("bc")), 4);
    assert_eq!(hsh_string_rfind(s("aaa"), s("aa")), 1);
    assert_eq!(hsh_string_rfind(s("abc"), s("")), 3);
    assert_eq!(hsh_string_rfind(s("abc"), s("x")), -1);
    assert_eq!(hsh_string_rfind(s("ab"), s("abc")), -1);
    assert_eq!(hsh_string_rfind(s("ab"), None), -1);
}

#[test]
fn substr_clamps_its_range() {
    assert_eq!(hsh_substr(s("hello"), 1, 3), b"el".to_vec());
    assert_eq!(hsh_substr(s("hello"), -4, 2), b"he".to_vec());
    assert_eq!(hsh_substr(s("hello"), 2, -1), b"llo".to_vec());
    assert_eq!(hsh_substr(s("hello"), 2, 99), b"llo".to_vec());
    assert_eq!(hsh_substr(s("hello"), 4, 2), b"".to_vec());
    assert_eq!(hsh_substr(None, 0, 2), b"".to_vec());
    assert_eq!(hsh_substr(s("hé"), 0, 2), "h\u{FFFD}".as_bytes().to_vec());
    assert_eq!(hsh_string_slice(s("hello"), 0, 5), b"hello".to_vec());
}

#[test]
fn string_at_reads_a_byte_as_a_latin1_char() {
    assert_eq!(hsh_string_at(s("abc"), 1), b"b".to_vec());
    assert_eq!(hsh_string_at(s("abc"), 3), b"".to_vec());
    assert_eq!(hsh_string_at(s("abc"), -1), b"".to_vec());
    assert_eq!(hsh_string_at(s("é"), 0), "Ã".as_bytes().to_vec());
    assert_eq!(hsh_string_at(None, 0), b"".to_vec());
}

#[test]
fn replace_left_to_right_without_overlap() {
    assert_eq!(hsh_str_replace(s("aaaa"), s("aa"), s("b")), b"bb".to_vec());
    assert_eq!(hsh_str_replace(s("aaa"), s("aa"), s("b")), b"ba".to_vec());
    assert_eq!(hsh_str_replace(s("one two one"), s("one"), s("1")), b"1 two 1".to_vec());
    assert_eq!(hsh_str_replace(s("abc"), s(""), s("x")), b"abc".to_vec());
    assert_eq!(hsh_str_replace(s("abc"), s("b"), None), b"ac".to_vec());
}

#[test]
fn pad_and_repeat() {
    assert_eq!(hsh_string_pad_right(s("ab"), 5), b"ab   ".to_vec());
    assert_eq!(hsh_string_pad_right(s("é"), 3), "é  ".as_bytes().to_vec());
    assert_eq!(hsh_string_pad_right(s("abcdef"), 3), b"abcdef".to_vec());
    assert_eq!(hsh_string_pad_right(s("ab"), -2), b"ab".to_vec());
    assert_eq!(hsh_string_repeat(s("ab"), 3), b"ababab".to_vec());
    assert_eq!(hsh_string_repeat(s("ab"), 0), b"".to_vec());
    assert_eq!(hsh_string_repeat(s("ab"), -1), b"".to_vec());
}

#[test]
fn case_mapping() {
    assert_eq!(hsh_to_upper(s("abc é")), "ABC É".as_bytes().to_vec());
    assert_eq!(hsh_to_lower(s("ABC É")), "abc é".as_bytes().to_vec());
    assert_eq!(hsh_string_upper(s("straße")), "STRASSE".as_bytes().to_vec());
    assert_eq!(hsh_string_lower(s("Q")), b"q".to_vec());
}

#[test]
fn char_codes() {
    assert_eq!(hsh_str_to_char_code(s("A")), 65);
    assert_eq!(hsh_str_to_char_code(s("€x")), 0x20AC);
    assert_eq!(hsh_str_to_char_code(s("")), 0);
    assert_eq!(hsh_str_to_char_code(None), 0);
    assert_eq!(hsh_char_code_to_str(65), b"A".to_vec());
    assert_eq!(hsh_char_code_to_str(0x20AC), "€".as_bytes().to_vec());
    assert_eq!(hsh_char_code_to_str(0xD800), "\u{FFFD}".as_bytes().to_vec());
    assert_eq!(hsh_char_code_to_str(0x110000), "\u{FFFD}".as_bytes().to_vec());
    assert_eq!(hsh_char_code_to_str(-5), b"".to_vec());
    assert_eq!(hsh_char_code_to_str(0), b"".to_vec());
    assert_eq!(hsh_char_code_to_str((1i64 << 32) + 66), b"B".to_vec());
}

#[test]
fn char_code_round_trip() {
    let t = hsh_char_code_to_str(0x1F600);
    assert_eq!(hsh_str_to_char_code(Some(&t)), 0x1F600);
}

#[test]
fn strcat_joins() {
    assert_eq!(hsh_strcat(s("ab"), s("cd")), b"abcd".to_vec());
    assert_eq!(hsh_strcat(None, s("cd")), b"cd".to_vec());
}

#[test]
fn split_by_separator() {
    assert_eq!(strs(hsh_string_split(s("a,b,,c"), s(","))), vec!["a", "b", "", "c"]);
    assert_eq!(strs(hsh_string_split(s("a::b"), s("::"))), vec!["a", "b"]);
    assert_eq!(strs(hsh_string_split(s("abc"), s(""))), vec!["abc"]);
    assert_eq!(strs(hsh_string_split(s(""), s(","))), vec![""]);
    assert_eq!(strs(hsh_string_split(s(",x,"), s(","))), vec!["", "x", ""]);
    assert_eq!(strs(hsh_string_split(None, s(","))), Vec::<String>::new());
    assert_eq!(strs(hsh_string_split(s("a"), None)), Vec::<String>::new());
}

#[test]
fn split_then_join_gives_back_the_text() {
    let parts = strs(hsh_string_split(s("x--y----z"), s("--")));
    assert_eq!(parts.join("--"), "x--y----z");
}

#[test]
fn split_count_and_part() {
    assert_eq!(hsh_str_split_count(s("a,b,c"), s(",")), 3);
    assert_eq!(hsh_str_split_count(None, s(",")), 0);
    assert_eq!(hsh_str_split_part(s("a,b,c"), s(","), 1), b"b".to_vec());
    assert_eq!(hsh_str_split_part(s("a,b,c"), s(","), 3), b"".to_vec());
    assert_eq!(hsh_str_split_part(s("a,b,c"), s(","), -1), b"".to_vec());
}

#[test]
fn split_whitespace_by_unicode_white_space() {
    assert_eq!(
        strs(hsh_str_split_whitespace(s("  one\ttwo\u{3000}three \n"))),
        vec!["one", "two", "three"]
    );
    assert_eq!(strs(hsh_str_split_whitespace(s("   "))), Vec::<String>::new());
    assert_eq!(strs(hsh_str_split_whitespace(None)), Vec::<String>::new());
}

#[test]
fn chars_one_string_each() {
    assert_eq!(strs(hsh_string_chars(s("aé€"))), vec!["a", "é", "€"]);
    assert_eq!(strs(hsh_string_chars(s(""))), Vec::<String>::new());
}

#[test]
fn assert_and_panic_messages() {
    assert_eq!(hsh_assert(1, s("x")), None);
    assert_eq!(hsh_assert(0, s("x > 0")), Some(b"assertion failed: x > 0".to_vec()));
    assert_eq!(hsh_panic(s("boom")), b"panic: boom".to_vec());
    assert_eq!(hsh_panic(None), b"panic: ".to_vec());
}

#[test]
fn replace_by_itself_or_absent_changes_nothing() {
    assert_eq!(hsh_str_replace(s("abab a"), s("ab"), s("ab")), b"abab a".to_vec());
    assert_eq!(hsh_str_replace(s("hello"), s("xyz"), s("Q")), b"hello".to_vec());
}

#[test]
fn returned_strings_are_utf8() {
    assert!(String::from_utf8(hsh_string_at(s("\u{ff}"), 1)).is_ok());
    assert!(String::from_utf8(hsh_substr(s("€"), 0, 1)).is_ok());
    assert!(String::from_utf8(hsh_char_code_to_str(0xDFFF)).is_ok());
}

#[test]
fn split_gives_one_piece_more_than_matches_and_no_piece_holds_the_separator() {
    let parts = strs(hsh_string_split(s("a,,b,c,"), s(",")));
    assert_eq!(parts.len(), 5);
    assert!(parts.iter().all(|p| !p.contains(',')));
    let parts = strs(hsh_string_split(s("aaaaa"), s("aa")));
    assert_eq!(parts, vec!["", "", "a"]);
    assert!(parts.iter().all(|p| !p.contains("aa")));
}

#[test]
fn contains_agrees_with_index_of_on_utf8() {
    for (h, n) in [("héllo wörld", "ö"), ("héllo", "llo"), ("abc", "d"), ("€uro", ""), ("", "x")] {
        let found = hsh_str_index_of(s(h), s(n)) >= 0;
        assert_eq!(hsh_str_contains(s(h), s(n)) == 1, found);
    }
}
