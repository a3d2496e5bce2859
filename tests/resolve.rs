use fmerge::error::ResolveError;
use fmerge::pattern::{Matcher, RawCapture};
use fmerge::resolve::{Resolver, Step};
use fmerge::scan::{occurrences_from, parse_count};
use fmerge::text::{indent_block, splice, Span};
use std::collections::HashMap;

const DEFAULT_REGEX: &str = r"\{\{\s*([\w./]+)\s*\+?(\d+)?\s*\}\}";

fn run(matcher: Matcher, root: &str, files: &[(&str, &str)]) -> (Result<String, ResolveError>, Vec<String>) {
    let map: HashMap<String, String> = files.iter().map(|(p, c)| (p.to_string(), c.to_string())).collect();
    let mut reads = Vec::new();
    let (mut resolver, mut step) = Resolver::start(matcher, root);
    loop {
        match step {
            Step::Read { path } => {
                reads.push(path.clone());
                step = resolver.feed(map.get(&path).cloned());
            },
            Step::Done { output } => return (Ok(String::from_utf8(output).unwrap()), reads),
            Step::Failed { error } => return (Err(error), reads),
        }
    }
}

#[test]
fn test_merge_mds() {
    let m = Matcher::from_split("#include %f!", "%f").unwrap();
    let files = [
        ("test/md/a.md", "# A\n#include b.md!\n#include c.md!"),
        ("test/md/b.md", "# B\n#include c.md!\n"),
        ("test/md/c.md", "# C\n"),
    ];
    let (res, _) = run(m, "test/md/a.md", &files);
    assert_eq!("# A\n# B\n# C\n# C", res.unwrap());
}

#[test]
fn merge_mds_with_default_regex() {
    let m = Matcher::from_regex(DEFAULT_REGEX).unwrap();
    let files = [
        ("test/md/a.md", "# A\n{{ b.md }}\n{{ c.md }}"),
        ("test/md/b.md", "# B\n{{ c.md }}\n"),
        ("test/md/c.md", "# C\n"),
    ];
    let (res, _) = run(m, "test/md/a.md", &files);
    assert_eq!("# A\n# B\n# C\n# C", res.unwrap());
}

#[test]
fn test_merge_yamls() {
    let m = Matcher::from_regex(DEFAULT_REGEX).unwrap();
    let files = [
        ("test/yaml/a.yaml.part", "root:\n  childA:\n    {{ b1 +4 }}\n  childB:\n    {{ b2 +4 }}\n  childC:\n    {{ b3 +4 }}\n"),
        ("test/yaml/b1", "test: ok\n"),
        ("test/yaml/b2", "test: ok\n"),
        ("test/yaml/b3", "test: ok\n"),
    ];
    let (res, _) = run(m, "test/yaml/a.yaml.part", &files);
    assert_eq!(
        r#"root:
  childA:
    test: ok
  childB:
    test: ok
  childC:
    test: ok
"#,
        res.unwrap()
    );
}

#[test]
fn nested_mapping_is_indented_per_line() {
    let m = Matcher::from_regex(DEFAULT_REGEX).unwrap();
    let files = [
        ("y/a.yaml", "root:\n  child:\n    {{ b.yaml +4 }}\n"),
        ("y/b.yaml", "x: 1\ny:\n  z: 2\n"),
    ];
    let (res, _) = run(m, "y/a.yaml", &files);
    assert_eq!("root:\n  child:\n    x: 1\n    y:\n      z: 2\n", res.unwrap());
}

#[test]
fn missing_placeholder_token_is_a_pattern_error() {
    let r = Matcher::from_split("#include path!", "%f");
    assert!(matches!(r, Err(ResolveError::Pattern { .. })));
}

#[test]
fn malformed_regex_is_a_pattern_error() {
    let r = Matcher::from_regex("{{ (unclosed");
    assert!(matches!(r, Err(ResolveError::Pattern { .. })));
}

#[test]
fn pattern_error_carries_the_parser_message() {
    let p = r"\{\{([\w./]+";
    let expected = fancy_regex::Regex::new(p).unwrap_err().to_string();
    match Matcher::from_regex(p) {
        Err(ResolveError::Pattern { message }) => assert_eq!(message, expected),
        other => panic!("unexpected {:?}", other.map(|_| ())),
    }
}

#[test]
fn indentation_leaves_surrounding_text() {
    let m = Matcher::from_regex(DEFAULT_REGEX).unwrap();
    let files = [("t/a", "k:\n  {{ b +2 }}\nz: {{ c }}"), ("t/b", "x: 1\ny: 2"), ("t/c", "3")];
    let (res, _) = run(m, "t/a", &files);
    assert_eq!("k:\n  x: 1\n  y: 2\nz: 3", res.unwrap());
}

#[test]
fn includes_resolve_against_their_own_directory() {
    let m = Matcher::from_regex(DEFAULT_REGEX).unwrap();
    let files = [("/r/a", "{{ sub/b }}"), ("/r/sub/b", "{{ c }}"), ("/r/sub/c", "IN"), ("/r/c", "OUT")];
    let (res, _) = run(m, "/r/a", &files);
    assert_eq!("IN", res.unwrap());
}

#[test]
fn missing_file_names_its_path() {
    let m = Matcher::from_regex(DEFAULT_REGEX).unwrap();
    let files = [("d/a.md", "x\n{{ gone.md }}\n")];
    let (res, _) = run(m, "d/a.md", &files);
    match res {
        Err(ResolveError::FileRead { path }) => assert_eq!(path, "d/gone.md"),
        other => panic!("unexpected {:?}", other),
    }
}

#[test]
fn paths_are_relative_to_the_including_file() {
    let m = Matcher::from_regex(DEFAULT_REGEX).unwrap();
    let files = [
        ("docs/a.md", "A {{ sub/b.md }}"),
        ("docs/sub/b.md", "B {{ c.md }}"),
        ("docs/sub/c.md", "C"),
    ];
    let (res, reads) = run(m, "docs/a.md", &files);
    assert_eq!("A B C", res.unwrap());
    assert_eq!(reads, vec!["docs/a.md", "docs/sub/b.md", "docs/sub/c.md"]);
}

#[test]
fn file_without_placeholders_is_unchanged() {
    let m = Matcher::from_regex(DEFAULT_REGEX).unwrap();
    let text = "plain\n  text\r\nwith no includes\n\n";
    let (res, _) = run(m, "p.txt", &[("p.txt", text)]);
    assert_eq!(text, res.unwrap());
}

#[test]
fn resolved_output_is_a_fixed_point() {
    let files = [("a", "1 {{ b +2 }} 3"), ("b", "x\ny\n")];
    let (once, _) = run(Matcher::from_regex(DEFAULT_REGEX).unwrap(), "a", &files);
    let once = once.unwrap();
    assert_eq!("1 x\n  y 3", once);
    let (twice, _) = run(Matcher::from_regex(DEFAULT_REGEX).unwrap(), "o", &[("o", once.as_str())]);
    assert_eq!(once, twice.unwrap());
}

#[test]
fn split_form_escapes_its_literals() {
    let files = [("a", "<b.x> <bzx>"), ("b", "B")];
    let (res, _) = run(Matcher::from_split("<%f.x>", "%f").unwrap(), "a", &files);
    assert_eq!("B <bzx>", res.unwrap());
}

#[test]
fn adjacent_placeholders_do_not_over_match() {
    let files = [("a", "[b][c]"), ("b", "B"), ("c", "C")];
    let (res, _) = run(Matcher::from_split("[%f]", "%f").unwrap(), "a", &files);
    assert_eq!("BC", res.unwrap());
}

#[test]
fn indentation_keeps_first_line() {
    assert_eq!(indent_block(b"a\nb\r\nc\n", 2), b"a\n  b\n  c".to_vec());
    assert_eq!(indent_block(b"", 3), Vec::<u8>::new());
    assert_eq!(indent_block(b"\n\n", 1), b"\n ".to_vec());
    assert_eq!(indent_block(b"a\r", 1), b"a\r".to_vec());
    assert_eq!(indent_block(b"a\nb", 0), b"a\nb".to_vec());
}

#[test]
fn splice_uses_unchanged_offsets() {
    let c = b"0123456789";
    let spans = vec![Span { start: 1, end: 3 }, Span { start: 3, end: 3 }, Span { start: 7, end: 10 }];
    let reps = vec![b"AAAA".to_vec(), b"B".to_vec(), Vec::new()];
    assert_eq!(splice(c, &spans, &reps), b"0AAAAB3456".to_vec());
}

#[test]
fn counts_are_parsed() {
    assert_eq!(parse_count(b"+12", 0, 3), Some(12));
    assert_eq!(parse_count(b"x42y", 1, 3), Some(42));
    assert_eq!(parse_count(b"", 0, 0), None);
    assert_eq!(parse_count(b"+", 0, 1), None);
    assert_eq!(parse_count(b"1a", 0, 2), None);
    assert_eq!(parse_count(b"18446744073709551616", 0, 20), None);
    assert_eq!(parse_count(b"18446744073709551615", 0, 20), Some(usize::MAX));
}

#[test]
fn unreadable_captures_are_extraction_errors() {
    let no_path = vec![RawCapture { whole: Some(Span { start: 0, end: 2 }), path: None, indent: None }];
    assert!(matches!(occurrences_from("ab", &no_path), Err(ResolveError::MatchExtraction { .. })));
    let overlap = vec![
        RawCapture { whole: Some(Span { start: 0, end: 2 }), path: Some(Span { start: 0, end: 1 }), indent: None },
        RawCapture { whole: Some(Span { start: 1, end: 2 }), path: Some(Span { start: 1, end: 2 }), indent: None },
    ];
    assert!(matches!(occurrences_from("ab", &overlap), Err(ResolveError::MatchExtraction { .. })));
    let bad_indent = vec![RawCapture {
        whole: Some(Span { start: 0, end: 3 }),
        path: Some(Span { start: 0, end: 1 }),
        indent: Some(Span { start: 2, end: 3 }),
    }];
    assert!(matches!(occurrences_from("a x", &bad_indent), Err(ResolveError::MatchExtraction { .. })));
    let ok = occurrences_from("a 7", &vec![RawCapture {
        whole: Some(Span { start: 0, end: 3 }),
        path: Some(Span { start: 0, end: 1 }),
        indent: Some(Span { start: 2, end: 3 }),
    }])
    .unwrap();
    assert_eq!(ok[0].path, "a");
    assert_eq!(ok[0].indentation, 7);
}

#[test]
fn error_messages_name_their_cause() {
    let e = ResolveError::FileRead { path: "x/y".to_string() };
    assert_eq!(e.message(), "failed to read file: x/y");
}
