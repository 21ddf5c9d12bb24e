use minigrep::args::Args;
use minigrep::context::{build_window, ContextSpec};
use minigrep::highlight::Highlighter;
use minigrep::lines::split_lines;
use minigrep::matcher::{Matcher, SearchError};

fn base_args(queries: &[&str]) -> Args {
    Args {
        query: queries.iter().map(|q| q.to_string()).collect(),
        path: "-".to_string(),
        ignore_case: false,
        show_line_numbers: false,
        count: false,
        invert: false,
        context: 0,
        context_after: 0,
        context_before: 0,
        regex: false,
        recursive: false,
        ignore_file: ".gitignore".to_string(),
        color: false,
        fuzzy: false,
        fuzzy_threshold: 1,
    }
}

#[test]
fn exact_mode_is_substring_or() {
    let args = base_args(&["duct", "three"]);
    let m = Matcher::new(&args).unwrap();
    assert!(m.is_match("safe, fast, productive."));
    assert!(m.is_match("Pick three."));
    assert!(!m.is_match("Duct tape."));
}

#[test]
fn invert_negates_every_line() {
    let mut args = base_args(&["duct"]);
    let plain = Matcher::new(&args).unwrap();
    args.invert = true;
    let inverted = Matcher::new(&args).unwrap();
    for line in ["Rust:", "safe, fast, productive.", "Duct tape."] {
        assert_eq!(plain.is_match(line), !inverted.is_match(line));
    }
}

#[test]
fn case_insensitive_mode() {
    let mut args = base_args(&["rUsT"]);
    args.ignore_case = true;
    let m = Matcher::new(&args).unwrap();
    assert!(m.is_match("Rust:"));
    assert!(m.is_match("Trust me."));
    assert!(!m.is_match("Pick three."));
}

#[test]
fn case_insensitive_non_ascii_line() {
    let mut args = base_args(&["\u{c9}"]);
    args.ignore_case = true;
    let m = Matcher::new(&args).unwrap();
    assert!(m.is_match("caf\u{e9}"));
    assert!(!m.is_match("cafe"));
}

#[test]
fn regex_mode_word_boundary() {
    let mut args = base_args(&[r"\bfoo\b"]);
    args.regex = true;
    let m = Matcher::new(&args).unwrap();
    assert!(!m.is_match("foobar"));
    assert!(m.is_match(" foo bar"));
    assert!(m.is_match("foo"));
}

#[test]
fn invalid_regex_is_rejected_at_construction() {
    let mut args = base_args(&["f(oo"]);
    args.regex = true;
    match Matcher::new(&args) {
        Err(SearchError::InvalidPattern(p)) => assert_eq!("f(oo", p),
        Ok(_) => panic!("an unclosed group must not compile"),
    }
}

#[test]
fn fuzzy_mode_accepts_subsequences() {
    let mut args = base_args(&["hlo"]);
    args.fuzzy = true;
    args.fuzzy_threshold = 1;
    let m = Matcher::new(&args).unwrap();
    assert!(m.is_match("hello world"));
    assert!(!m.is_match("abc"));
}

#[test]
fn match_indices_are_ascending_positions() {
    let args = base_args(&["a"]);
    let m = Matcher::new(&args).unwrap();
    let lines = split_lines("abc\nxyz\nnear\nfar");
    let idx = m.match_indices(&lines);
    assert_eq!(vec![0usize, 2, 3], idx);
}

#[test]
fn context_window_symmetric_middle_match() {
    // one match in the middle of five lines, one line of context each way
    let matches = vec![2usize];
    let cs = ContextSpec { context: 0, after: 1, before: 1 };
    let (display, blocks) = build_window(5, &matches, &cs);
    assert_eq!(vec![1usize, 2, 3], display);
    assert_eq!(vec![(1usize, 3usize)], blocks);
}

#[test]
fn context_window_no_context_gives_two_blocks() {
    // two distant matches with no context: two blocks with a gap
    let matches = vec![0usize, 4];
    let cs = ContextSpec { context: 0, after: 0, before: 0 };
    let (display, blocks) = build_window(6, &matches, &cs);
    assert_eq!(vec![0usize, 4], display);
    assert_eq!(vec![(0usize, 0usize), (4usize, 4usize)], blocks);
}

#[test]
fn context_window_clamps_at_both_ends() {
    let matches = vec![0usize, 4];
    let cs = ContextSpec { context: 2, after: 0, before: 0 };
    let (display, blocks) = build_window(5, &matches, &cs);
    assert_eq!(vec![0usize, 1, 2, 3, 4], display);
    assert_eq!(vec![(0usize, 4usize)], blocks);
}

#[test]
fn context_symmetric_overrides_before_and_after() {
    let matches = vec![3usize];
    let cs = ContextSpec { context: 1, after: 0, before: 0 };
    let (display, _) = build_window(10, &matches, &cs);
    assert_eq!(vec![2usize, 3, 4], display);
}

#[test]
fn highlight_merges_overlapping_literal_spans() {
    let queries = vec!["ab".to_string(), "ba".to_string()];
    let h = Highlighter::new(&queries, false, false).unwrap();
    // "ab" at 0, "ba" at 1: the two spans overlap and fuse
    assert_eq!(vec![(0usize, 3usize)], h.highlight("aba"));
}

#[test]
fn highlight_non_overlapping_occurrences() {
    let queries = vec!["aa".to_string()];
    let h = Highlighter::new(&queries, false, false).unwrap();
    // left-to-right scan resumes after each occurrence; touching spans fuse
    assert_eq!(vec![(0usize, 4usize)], h.highlight("aaaa"));
    assert_eq!(vec![(0usize, 2usize)], h.highlight("aaa"));
}

#[test]
fn highlight_case_insensitive_literal() {
    let queries = vec!["rust".to_string()];
    let h = Highlighter::new(&queries, false, true).unwrap();
    assert_eq!(vec![(0usize, 4usize)], h.highlight("RUST is fun"));
}

#[test]
fn highlight_regex_spans() {
    let queries = vec![r"[0-9]+".to_string()];
    let h = Highlighter::new(&queries, true, false).unwrap();
    assert_eq!(vec![(2usize, 4usize), (7, 8)], h.highlight("ab12cde3f"));
}

#[test]
fn highlight_empty_query_yields_no_spans() {
    let queries = vec![String::new()];
    let h = Highlighter::new(&queries, false, false).unwrap();
    assert!(h.highlight("anything").is_empty());
}

#[test]
fn highlighter_rejects_invalid_regex() {
    let queries = vec!["[".to_string()];
    match Highlighter::new(&queries, true, false) {
        Err(SearchError::InvalidPattern(p)) => assert_eq!("[", p),
        Ok(_) => panic!("an unclosed class must not compile"),
    }
}

#[test]
fn split_lines_handles_terminators() {
    let lines = split_lines("a\r\nb\nc");
    assert_eq!(vec!["a", "b", "c"], lines);
    let lines = split_lines("one\ntwo\n");
    assert_eq!(vec!["one", "two"], lines);
    let lines: Vec<&str> = split_lines("");
    assert!(lines.is_empty());
}
