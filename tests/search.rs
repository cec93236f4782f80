use minigrep::lines::split_lines;
use minigrep::search::{contains, search, search_insensitive};

const POEM: &str = "Rust:\nsafe, fast, productive.\nPick three.\nTrust me.";

#[test]
fn search_case_sensitive() {
    let query = "duct";
    let contents = "Rust:\nsafe, fast, productive.\nPick three.";

    assert_eq!(vec!["safe, fast, productive."], search(query, contents));
}

#[test]
fn search_case_insensitive() {
    let query = "rUsT";
    let contents = "Rust:\nsafe, fast, productive.\nPick three.\nTrust me.";

    assert_eq!(
        vec!["Rust:", "Trust me."],
        search_insensitive(query, contents)
    );
}

#[test]
fn empty_query_returns_every_line() {
    assert_eq!(search("", POEM), vec!["Rust:", "safe, fast, productive.", "Pick three.", "Trust me."]);
    assert_eq!(search("", "a\n\nb\n"), vec!["a", "", "b"]);
}

#[test]
fn results_hold_query_in_text_order() {
    let text = "one a\ntwo\nthree a\nfour\na five";
    let found = search("a", text);
    assert_eq!(found, vec!["one a", "three a", "a five"]);
    for line in &found {
        assert!(line.contains("a"));
    }
}

#[test]
fn no_match_is_empty() {
    assert!(search("monomorphization", POEM).is_empty());
    assert!(search("RUST", POEM).is_empty());
    assert!(search("x", "").is_empty());
    assert!(search_insensitive("x", "").is_empty());
}

#[test]
fn case_variants_of_query_agree() {
    let a = search_insensitive("trust", POEM);
    let b = search_insensitive("TRUST", POEM);
    let c = search_insensitive("tRuSt", POEM);
    assert_eq!(a, vec!["Trust me."]);
    assert_eq!(a, b);
    assert_eq!(a, c);
}

#[test]
fn insensitive_returns_original_lines() {
    assert_eq!(search_insensitive("PICK", POEM), vec!["Pick three."]);
    assert_eq!(search_insensitive("", "A\nb"), vec!["A", "b"]);
}

#[test]
fn results_borrow_from_contents() {
    let contents = String::from("abc\nxbz");
    let found = search("b", &contents);
    let base = contents.as_ptr() as usize;
    assert_eq!(found[1].as_ptr() as usize, base + 4);
}

#[test]
fn lines_split_on_newline_and_crlf() {
    assert_eq!(split_lines("a\r\nb\nc"), vec!["a", "b", "c"]);
    assert_eq!(split_lines("a\nb\n"), vec!["a", "b"]);
    assert_eq!(split_lines("\n"), vec![""]);
    assert_eq!(split_lines(""), Vec::<&str>::new());
    assert_eq!(split_lines("a\rb\r"), vec!["a\rb\r"]);
    assert_eq!(split_lines("\r\n\r\nx"), vec!["", "", "x"]);
}

#[test]
fn lines_agree_with_std() {
    for text in ["", "x", "x\n", "x\r\n", "\n\n", "a\r\nb\r\n", "é\nüñ\r\nz", "a\r"] {
        let expected: Vec<&str> = text.lines().collect();
        assert_eq!(split_lines(text), expected, "text {:?}", text);
    }
}

#[test]
fn crlf_lines_are_searched_without_terminator() {
    assert_eq!(search("fast", "slow\r\nfast\r\n"), vec!["fast"]);
    assert_eq!(search("\r", "a\r\nb"), Vec::<&str>::new());
}

#[test]
fn contains_substrings() {
    assert!(contains("productive", "duct"));
    assert!(contains("abc", ""));
    assert!(contains("", ""));
    assert!(contains("abc", "abc"));
    assert!(contains("abc", "c"));
    assert!(!contains("abc", "abcd"));
    assert!(!contains("abc", "ac"));
    assert!(!contains("", "a"));
    assert!(contains("aaab", "aab"));
    assert!(contains("naïve café", "ïve c"));
}

#[test]
fn insensitive_with_non_ascii() {
    assert_eq!(search_insensitive("ÉTÉ", "un été\nhiver"), vec!["un été"]);
}
