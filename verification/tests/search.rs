use minigrep::{search, search_case_insensitive, search_regex};

#[test]
fn case_sensitive() {
    let query = "duct";
    let contents = "\
Rust:
safe, fast, productive.
Pick three.
Duct tape.";

    assert_eq!(vec!["safe, fast, productive."], search(query, contents));
}

#[test]
fn case_insensitive() {
    let query = "rUsT";
    let contents = "\
Rust:
safe, fast, productive.
Pick three.
Trust me.";

    assert_eq!(
        vec!["Rust:", "Trust me."],
        search_case_insensitive(query, contents)
    );
}

#[test]
fn regex_basic() {
    let query = r"duct";
    let pattern = regex::Regex::new(query).unwrap();
    let text = "\
Rust:
safe, productive, and fast-paced.
Pick three.";
    assert_eq!(
        vec!["safe, productive, and fast-paced."],
        search_regex(&pattern, text)
    );
}

#[test]
fn regex_word_boundary() {
    let query = r"\bfoo\b";
    let pattern = regex::Regex::new(query).unwrap();
    let text = "\
foobar
 foo bar
foo";
    assert_eq!(vec![" foo bar", "foo"], search_regex(&pattern, text));
}

#[test]
fn search_no_match_is_empty() {
    let r = search("absent", "one\ntwo\nthree");
    assert!(r.is_empty());
}

#[test]
fn search_empty_query_matches_every_line() {
    let r = search("", "one\ntwo");
    assert_eq!(vec!["one", "two"], r);
}

#[test]
fn search_strips_carriage_returns() {
    let r = search("a", "a1\r\na2\r\nbb");
    assert_eq!(vec!["a1", "a2"], r);
}

#[test]
fn case_insensitive_upper_casing_line_keeps_result() {
    let contents = "Rust:\nsafe, fast, productive.\nPick three.\nTrust me.";
    let upper = contents.to_uppercase();
    let lower_hits = search_case_insensitive("rUsT", contents).len();
    let upper_hits = search_case_insensitive("rUsT", &upper).len();
    assert_eq!(lower_hits, upper_hits);
    assert_eq!(2, lower_hits);
}

#[test]
fn case_insensitive_non_ascii_query() {
    // upper-case E-acute finds lower-case e-acute, and either case of the
    // query gives the same result
    let contents = "caf\u{e9}\nplain";
    let upper_q = search_case_insensitive("\u{c9}", contents);
    let lower_q = search_case_insensitive("\u{e9}", contents);
    assert_eq!(vec!["caf\u{e9}"], upper_q);
    assert_eq!(upper_q, lower_q);
}
