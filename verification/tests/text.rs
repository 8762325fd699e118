use archpatch::text::{find, from_chars, lines, replace, split_on, stands_at, to_chars, trim_cr};

#[test]
fn lines_end_in_newlines() {
    assert_eq!(lines("a\nb\n"), vec!["a", "b"]);
    assert_eq!(lines("a\nb"), vec!["a", "b"]);
    assert_eq!(lines("a\r\nb\n\nc"), vec!["a", "b", "", "c"]);
    assert_eq!(lines(""), Vec::<String>::new());
    assert_eq!(lines("\n"), vec![""]);
    assert_eq!(lines("a\r\r\nb\r"), vec!["a\r", "b\r"]);
}

#[test]
fn lines_are_those_of_the_standard_library() {
    for text in [
        "", "\n", "\r\n", "\r", "a", "a\n", "a\r", "a\r\n", "\n\n", "a\n\nb", "a\r\rb\r\n\r\n",
        "\u{e9}\n\u{1f980}\r\nz",
    ] {
        assert_eq!(lines(text), text.lines().collect::<Vec<&str>>());
    }
}

#[test]
fn split_gives_one_part_more_than_separators() {
    assert_eq!(split_on("a/b//c", '/'), vec!["a", "b", "", "c"]);
    assert_eq!(split_on("", '/'), vec![""]);
    assert_eq!(split_on("/", '/'), vec!["", ""]);
}

#[test]
fn replace_goes_from_left_to_right() {
    assert_eq!(replace("aaa", "aa", "b"), "ba");
    assert_eq!(replace("x-y-z", "-", "/"), "x/y/z");
    assert_eq!(replace("none", "-", "/"), "none");
    assert_eq!(replace("/tmp/1 /tmp/1", "/tmp/1", "/etc/f"), "/etc/f /etc/f");
}

#[test]
fn find_gives_the_first_match() {
    let text = to_chars("abcabc");
    assert_eq!(find(&text, &to_chars("bc"), 0), Some(1));
    assert_eq!(find(&text, &to_chars("bc"), 2), Some(4));
    assert_eq!(find(&text, &to_chars("bc"), 5), None);
    assert_eq!(find(&text, &to_chars(""), 6), Some(6));
    assert_eq!(find(&text, &to_chars(""), 7), None);
    assert!(stands_at(&text, &to_chars("abc"), 3));
    assert!(!stands_at(&text, &to_chars("abc"), 4));
    assert_eq!(from_chars(&text, 1, 3), "bc");
}

#[test]
fn one_carriage_return_is_trimmed() {
    assert_eq!(trim_cr(&"a\r".to_string()), "a");
    assert_eq!(trim_cr(&"a\r\r".to_string()), "a\r");
    assert_eq!(trim_cr(&"a".to_string()), "a");
    assert_eq!(trim_cr(&String::new()), "");
}
