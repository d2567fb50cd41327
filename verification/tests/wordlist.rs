use webfuzzy::wordlist::split_words;

fn split(text: &str) -> Vec<String> {
    split_words(text.as_bytes())
        .into_iter()
        .map(|w| String::from_utf8(w).unwrap())
        .collect()
}

#[test]
fn lines_are_taken_verbatim() {
    assert_eq!(split("a\n b\t\n"), vec!["a", " b\t"]);
    assert_eq!(split("a\r\nb\r\r\n\r\n\nc"), vec!["a", "b\r", "c"]);
    assert_eq!(split(""), Vec::<String>::new());
    assert_eq!(split("\n\r\n"), Vec::<String>::new());
    assert_eq!(split("x\ry"), vec!["x\ry"]);
    assert_eq!(split("x\r"), vec!["x"]);
}

#[test]
fn bytes_need_not_be_text() {
    assert_eq!(split_words(&[0xff, 10, 0, 1]), vec![vec![0xff], vec![0, 1]]);
}

#[test]
fn words_that_are_written_are_read_back() {
    let words = ["'", "<a b>", "\ttab", "é"];
    let mut lf = String::new();
    let mut crlf = String::new();
    for word in words {
        lf.push_str(word);
        lf.push('\n');
        crlf.push_str(word);
        crlf.push_str("\r\n");
    }
    assert_eq!(split(&lf), words);
    assert_eq!(split(&crlf), words);
}
