use simple_graph::tgf::contains_blank;
use simple_graph::tgf::delete_quotes;
use simple_graph::tgf::find_separator;
use simple_graph::tgf::is_blank_char;
use simple_graph::tgf::join_words;
use simple_graph::tgf::push_edge_line;
use simple_graph::tgf::push_separator;
use simple_graph::tgf::push_vertex_line;
use simple_graph::tgf::quote;
use simple_graph::tgf::split_line_into_vec_with_len;
use simple_graph::tgf::split_lines;
use simple_graph::tgf::split_words;

fn chars(text: &str) -> Vec<char> {
    text.chars().collect()
}

fn rows(texts: &[&str]) -> Vec<Vec<char>> {
    texts.iter().map(|text| chars(text)).collect()
}

#[test]
fn blanks_are_the_ascii_whitespace() {
    for c in [' ', '\t', '\n', '\x0C', '\r'] {
        assert!(is_blank_char(c));
    }
    for c in ['a', '#', '"', '\x0B', '\u{a0}', '0'] {
        assert!(!is_blank_char(c));
    }
}

#[test]
fn lines_end_at_line_feeds() {
    assert_eq!(split_lines(&chars("a\nb\nc")), rows(&["a", "b", "c"]));
    assert_eq!(split_lines(&chars("a\nb\nc\n")), rows(&["a", "b", "c"]));
    assert_eq!(split_lines(&chars("a\n\nb")), rows(&["a", "", "b"]));
    assert_eq!(split_lines(&chars("\n")), rows(&[""]));
    assert_eq!(split_lines(&chars("\n\n")), rows(&["", ""]));
    assert_eq!(split_lines(&chars("")), rows(&[]));
    assert_eq!(split_lines(&chars("one line")), rows(&["one line"]));
}

#[test]
fn lines_lose_a_carriage_return_before_the_line_feed_only() {
    assert_eq!(split_lines(&chars("a\r\nb\r\n")), rows(&["a", "b"]));
    assert_eq!(split_lines(&chars("a\rb\nc")), rows(&["a\rb", "c"]));
    assert_eq!(split_lines(&chars("a\n#\r")), rows(&["a", "#\r"]));
    assert_eq!(split_lines(&chars("a\r\r\n")), rows(&["a\r"]));
    assert_eq!(split_lines(&chars("\r\n")), rows(&[""]));
}

#[test]
fn lines_agree_with_std() {
    for text in ["", "\n", "a", "a\n", "a\r\n", "a\r", "\r", "a\n\nb\r\n\r\nc", "x\r\ny\rz\n\r"] {
        let expected: Vec<Vec<char>> = text.lines().map(|line| chars(line)).collect();
        assert_eq!(split_lines(&chars(text)), expected);
    }
}

#[test]
fn words_are_the_stretches_between_blanks() {
    assert_eq!(
        split_words(&chars("praise the blobcat")),
        rows(&["praise", "the", "blobcat"])
    );
    assert_eq!(
        split_words(&chars("  praise \t the\r\x0C blobcat  ")),
        rows(&["praise", "the", "blobcat"])
    );
    assert_eq!(split_words(&chars("")), rows(&[]));
    assert_eq!(split_words(&chars(" \t ")), rows(&[]));
    assert_eq!(split_words(&chars("one")), rows(&["one"]));
    assert_eq!(split_words(&chars("a\u{a0}b c")), rows(&["a\u{a0}b", "c"]));
}

#[test]
fn words_agree_with_std() {
    for text in ["", " ", "a", " a", "a ", "a b", "a  b\tc", "\"ha ha\" 2.2", "x\x0By z"] {
        let expected: Vec<Vec<char>> = text.split_ascii_whitespace().map(|word| chars(word)).collect();
        assert_eq!(split_words(&chars(text)), expected);
    }
}

#[test]
fn joined_words_have_one_space_between() {
    let words = rows(&["a", "bc", "", "d"]);
    assert_eq!(join_words(&words, 0), chars("a bc  d"));
    assert_eq!(join_words(&words, 1), chars("bc  d"));
    assert_eq!(join_words(&words, 3), chars("d"));
    assert_eq!(join_words(&words, 4), chars(""));
}

#[test]
fn fields_take_the_first_words_and_join_the_rest() {
    let line = chars("praise the blobcat");
    assert_eq!(
        split_line_into_vec_with_len(&line, 2),
        Some(rows(&["praise", "the blobcat"]))
    );
    assert_eq!(
        split_line_into_vec_with_len(&line, 3),
        Some(rows(&["praise", "the", "blobcat"]))
    );
    assert_eq!(
        split_line_into_vec_with_len(&line, 1),
        Some(rows(&["praise the blobcat"]))
    );
    assert_eq!(split_line_into_vec_with_len(&line, 4), None);
}

#[test]
fn fields_join_with_single_spaces() {
    assert_eq!(
        split_line_into_vec_with_len(&chars("  1 \t a   b\tc  "), 2),
        Some(rows(&["1", "a b c"]))
    );
}

#[test]
fn fields_of_short_lines_are_missing() {
    assert_eq!(split_line_into_vec_with_len(&chars("one"), 2), None);
    assert_eq!(split_line_into_vec_with_len(&chars(""), 2), None);
    assert_eq!(split_line_into_vec_with_len(&chars("   "), 1), None);
    assert_eq!(split_line_into_vec_with_len(&chars("a b"), 3), None);
}

#[test]
fn quotes_are_deleted_in_pairs_only() {
    assert_eq!(delete_quotes(&chars("\"hello world\"")), chars("hello world"));
    assert_eq!(delete_quotes(&chars("\"test")), chars("\"test"));
    assert_eq!(delete_quotes(&chars("test\"")), chars("test\""));
    assert_eq!(delete_quotes(&chars("test")), chars("test"));
    assert_eq!(delete_quotes(&chars("\"\"")), chars(""));
    assert_eq!(delete_quotes(&chars("\"")), chars("\""));
    assert_eq!(delete_quotes(&chars("")), chars(""));
    assert_eq!(delete_quotes(&chars("\"\"a\"\"")), chars("\"a\""));
}

#[test]
fn blank_detection() {
    assert!(contains_blank(&chars("ha ha")));
    assert!(contains_blank(&chars("tab\t")));
    assert!(!contains_blank(&chars("haha")));
    assert!(!contains_blank(&chars("")));
}

#[test]
fn fields_with_blanks_get_quotes() {
    assert_eq!(quote(&chars("ha ha")), chars("\"ha ha\""));
    assert_eq!(quote(&chars("\"ha ha\"")), chars("\"ha ha\""));
    assert_eq!(quote(&chars("haha")), chars("haha"));
    assert_eq!(quote(&chars("\"haha\"")), chars("\"haha\""));
    assert_eq!(quote(&chars("")), chars(""));
    assert_eq!(quote(&chars(" ")), chars("\" \""));
    assert_eq!(quote(&chars("\"a b")), chars("\"\"a b\""));
}

#[test]
fn the_first_separator_line_is_found() {
    assert_eq!(find_separator(&rows(&["1 a", "#", "1 2 3"])), Some(1));
    assert_eq!(find_separator(&rows(&["#", "#"])), Some(0));
    assert_eq!(find_separator(&rows(&["1 a", " #", "# ", "##", "#\r"])), None);
    assert_eq!(find_separator(&rows(&[])), None);
}

#[test]
fn written_lines() {
    let mut text = chars("x");
    push_vertex_line(&mut text, &chars("1"), &chars("ha ha"));
    assert_eq!(text, chars("x1 \"ha ha\"\n"));
    push_separator(&mut text);
    assert_eq!(text, chars("x1 \"ha ha\"\n#\n"));
    push_edge_line(&mut text, &chars("1"), &chars("2"), &chars("2.2"));
    assert_eq!(text, chars("x1 \"ha ha\"\n#\n1 2 2.2\n"));
    push_edge_line(&mut text, &chars("a b"), &chars("\"c\""), &chars(""));
    assert_eq!(text, chars("x1 \"ha ha\"\n#\n1 2 2.2\n\"a b\" \"c\" \n"));
}

#[test]
fn a_written_vertex_line_reads_back() {
    let mut text = Vec::new();
    push_vertex_line(&mut text, &chars("7"), &chars("two words"));
    let lines = split_lines(&text);
    assert_eq!(lines.len(), 1);
    let fields = split_line_into_vec_with_len(&lines[0], 2).unwrap();
    assert_eq!(delete_quotes(&fields[0]), chars("7"));
    assert_eq!(delete_quotes(&fields[1]), chars("two words"));
}
