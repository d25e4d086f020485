use file_processor::counter::count_line_words;
use file_processor::lines::split_lines;
use file_processor::words::count_words;

#[test]
fn test_count_line_words() {
    const DATA: (&str, &str) = (
        "file1.txt",
        r#""Lorem ipsum dolor sit amet,
            consectetur adipiscing elit, sed do eiusmod tempor incididunt ut labore et dolore magna\n aliqua.
            Ut enim ad minim veniam, quis nostrud exercitation ullamco laboris nisi ut aliquip ex ea\n commodo
            consequat. Duis aute irure dolor in reprehenderit in voluptate velit esse cillum dolore eu\n fugiat
            nulla pariatur. Excepteur sint occaecat cupidatat non proident\n,
            sunt in culpa qui officia deserunt mollit anim id est laborum.""#,
    );
    let counts: Vec<usize> = count_line_words(DATA.0, DATA.1)
        .into_iter()
        .map(|(_, count)| count)
        .collect();
    assert_eq!(counts, [5, 14, 16, 15, 8, 11]);
}

#[test]
fn test_count_line_words_carries_identifier() {
    let items = count_line_words("notes", "one\ntwo three\n");
    assert_eq!(items.len(), 2);
    assert_eq!(items[0].0, "notes");
    assert_eq!(items[0].1, 1);
    assert_eq!(items[1].0, "notes");
    assert_eq!(items[1].1, 2);
}

#[test]
fn test_count_words_simple() {
    assert_eq!(count_words("hello world"), 2);
    assert_eq!(count_words("one"), 1);
    assert_eq!(count_words("  leading and trailing   spaces  "), 4);
    assert_eq!(count_words("a\tb\tc"), 3);
}

#[test]
fn test_count_words_empty_and_whitespace() {
    assert_eq!(count_words(""), 0);
    assert_eq!(count_words(" "), 0);
    assert_eq!(count_words("\t \t"), 0);
    assert_eq!(count_words("      "), 0);
}

#[test]
fn test_count_words_unicode_whitespace() {
    assert_eq!(count_words("un\u{a0}deux\u{2003}trois"), 3);
    assert_eq!(count_words("\u{3000}\u{2028}"), 0);
}

#[test]
fn test_split_lines_plain() {
    assert_eq!(split_lines("a\nb\nc"), ["a", "b", "c"]);
    assert_eq!(split_lines("a\nb\n"), ["a", "b"]);
    assert_eq!(split_lines("solo"), ["solo"]);
}

#[test]
fn test_split_lines_empty() {
    assert_eq!(split_lines(""), Vec::<String>::new());
    assert_eq!(split_lines("\n"), [""]);
    assert_eq!(split_lines("\n\n"), ["", ""]);
}

#[test]
fn test_split_lines_carriage_return() {
    assert_eq!(split_lines("a\r\nb\r\n"), ["a", "b"]);
    assert_eq!(split_lines("a\r\nb"), ["a", "b"]);
    assert_eq!(split_lines("mid\rline\n"), ["mid\rline"]);
    assert_eq!(split_lines("tail\r"), ["tail\r"]);
}
