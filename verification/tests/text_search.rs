use route_resolver::protocol::RouteInfo;
use route_resolver::route_index::RouteIndex;
use route_resolver::text_search::{
    compute_line_starts, is_quote_bounded, line_for_offset, utf16_units_between, RouteSearcher,
};

fn make_index(routes: &[(&str, &str, u32)]) -> RouteIndex {
    let mut index = RouteIndex::new();
    for (name, file, line) in routes {
        index.insert(name.to_string(), RouteInfo { file: file.to_string(), line: *line });
    }
    index
}

#[test]
fn test_finds_route_in_single_line() {
    let index = make_index(&[("app_home_index", "/src/Controller/HomeController.php", 10)]);
    let searcher = RouteSearcher::new(&index).unwrap();

    let content = "{{ path('app_home_index') }}";
    let matches = searcher.search(content);

    assert_eq!(matches.len(), 1);
    assert_eq!(matches[0].route, "app_home_index");
    assert_eq!(matches[0].position.start.line, 0);
    assert_eq!(matches[0].position.start.col, 9);
    assert_eq!(matches[0].position.end.col, 23);
}

#[test]
fn test_finds_multiple_occurrences() {
    let index = make_index(&[("my_route", "/src/Controller/Foo.php", 5)]);
    let searcher = RouteSearcher::new(&index).unwrap();

    let content = "'my_route' and then 'my_route' again";
    let matches = searcher.search(content);

    assert_eq!(matches.len(), 2);
}

#[test]
fn test_finds_route_on_second_line() {
    let index = make_index(&[("app_about", "/src/Controller/AboutController.php", 20)]);
    let searcher = RouteSearcher::new(&index).unwrap();

    let content = "first line\n'app_about' here";
    let matches = searcher.search(content);

    assert_eq!(matches.len(), 1);
    assert_eq!(matches[0].position.start.line, 1);
    assert_eq!(matches[0].position.start.col, 1);
}

#[test]
fn test_no_match_returns_empty() {
    let index = make_index(&[("app_foo", "/src/Controller/FooController.php", 1)]);
    let searcher = RouteSearcher::new(&index).unwrap();

    let matches = searcher.search("nothing interesting here");
    assert!(matches.is_empty());
}

#[test]
fn test_no_match_without_quotes() {
    let index = make_index(&[("app_foo", "/src/Controller/FooController.php", 1)]);
    let searcher = RouteSearcher::new(&index).unwrap();

    assert!(searcher.search("app_foo").is_empty());
    assert!(searcher.search("'app_foo\"").is_empty());
    assert!(searcher.search("app_foo_translation.key").is_empty());
}

#[test]
fn test_no_match_for_prefix_inside_longer_unquoted_string() {
    let index = make_index(&[("pdp_add", "/src/Controller/PdpController.php", 10)]);
    let searcher = RouteSearcher::new(&index).unwrap();

    assert!(searcher.search("pdp_add_something.translation").is_empty());
}

#[test]
fn test_empty_index_returns_none() {
    let index = RouteIndex::new();
    assert!(RouteSearcher::new(&index).is_none());
}

#[test]
fn test_file_info_is_propagated() {
    let index = make_index(&[("route_x", "/path/to/Controller.php", 42)]);
    let searcher = RouteSearcher::new(&index).unwrap();

    let matches = searcher.search("'route_x'");
    assert_eq!(matches[0].file.file, "/path/to/Controller.php");
    assert_eq!(matches[0].file.line, 42);
}

#[test]
fn test_double_quotes_also_match() {
    let index = make_index(&[("app_home", "/src/Controller/HomeController.php", 5)]);
    let searcher = RouteSearcher::new(&index).unwrap();

    let matches = searcher.search(r#"path("app_home")"#);
    assert_eq!(matches.len(), 1);
    assert_eq!(matches[0].route, "app_home");
}

#[test]
fn test_prefers_longer_match_over_prefix() {
    let index = make_index(&[
        ("pdp_add", "/src/Controller/PdpController.php", 10),
        ("pdp_add_tiers", "/src/Controller/PdpController.php", 20),
    ]);
    let searcher = RouteSearcher::new(&index).unwrap();

    let matches = searcher.search("route: 'pdp_add_tiers'");
    assert_eq!(matches.len(), 1);
    assert_eq!(matches[0].route, "pdp_add_tiers");
}

#[test]
fn test_matches_prefix_when_no_longer_route_present() {
    let index = make_index(&[
        ("pdp_add", "/src/Controller/PdpController.php", 10),
        ("pdp_add_tiers", "/src/Controller/PdpController.php", 20),
    ]);
    let searcher = RouteSearcher::new(&index).unwrap();

    let matches = searcher.search("route: 'pdp_add' and something");
    assert_eq!(matches.len(), 1);
    assert_eq!(matches[0].route, "pdp_add");
}

#[test]
fn test_matches_both_when_both_present() {
    let index = make_index(&[
        ("pdp_add", "/src/Controller/PdpController.php", 10),
        ("pdp_add_tiers", "/src/Controller/PdpController.php", 20),
    ]);
    let searcher = RouteSearcher::new(&index).unwrap();

    let matches = searcher.search("'pdp_add_tiers' and 'pdp_add' here");
    assert_eq!(matches.len(), 2);
    assert!(matches.iter().any(|m| m.route == "pdp_add_tiers"));
    assert!(matches.iter().any(|m| m.route == "pdp_add"));
}

#[test]
fn test_compute_line_starts() {
    let starts = compute_line_starts("ab\ncd\nef");
    assert_eq!(starts, vec![0, 3, 6]);
}

#[test]
fn test_line_for_offset() {
    let starts = vec![0, 3, 6];
    assert_eq!(line_for_offset(&starts, 0), 0);
    assert_eq!(line_for_offset(&starts, 2), 0);
    assert_eq!(line_for_offset(&starts, 3), 1);
    assert_eq!(line_for_offset(&starts, 5), 1);
    assert_eq!(line_for_offset(&starts, 6), 2);
    assert_eq!(line_for_offset(&starts, 8), 2);
}

#[test]
fn quote_bounding_needs_matching_quotes() {
    assert!(is_quote_bounded(b"'abc'", 1, 4));
    assert!(is_quote_bounded(b"\"abc\"", 1, 4));
    assert!(!is_quote_bounded(b"'abc\"", 1, 4));
    assert!(!is_quote_bounded(b"abc'", 0, 3));
    assert!(!is_quote_bounded(b"'abc", 1, 4));
}

#[test]
fn line_starts_of_empty_and_trailing_newline() {
    assert_eq!(compute_line_starts(""), vec![0]);
    assert_eq!(compute_line_starts("a\n"), vec![0, 2]);
    assert_eq!(compute_line_starts("\n\n"), vec![0, 1, 2]);
}

#[test]
fn match_positions_count_lines_after_non_ascii_line() {
    let index = make_index(&[("r", "/f.php", 1)]);
    let searcher = RouteSearcher::new(&index).unwrap();
    // The non-ASCII text is on the line before: columns of line 1 are plain.
    let matches = searcher.search("é\nx 'r' 'r'");
    assert_eq!(matches.len(), 2);
    assert_eq!(matches[0].position.start.line, 1);
    assert_eq!(matches[0].position.start.col, 3);
    assert_eq!(matches[0].position.end.col, 4);
    assert_eq!(matches[1].position.start.col, 7);
}

#[test]
fn match_columns_count_utf16_code_units() {
    let index = make_index(&[("r", "/f.php", 1)]);
    let searcher = RouteSearcher::new(&index).unwrap();
    // "é" is two UTF-8 bytes and one UTF-16 unit.
    let matches = searcher.search("é 'r'");
    assert_eq!(matches.len(), 1);
    assert_eq!((matches[0].position.start.col, matches[0].position.end.col), (3, 4));
    // "中" is three UTF-8 bytes and one UTF-16 unit.
    let matches = searcher.search("中'r'");
    assert_eq!((matches[0].position.start.col, matches[0].position.end.col), (2, 3));
    // "😀" is four UTF-8 bytes and two UTF-16 units (a surrogate pair).
    let matches = searcher.search("x\n😀'r'");
    assert_eq!(matches[0].position.start.line, 1);
    assert_eq!((matches[0].position.start.col, matches[0].position.end.col), (3, 4));
}

#[test]
fn utf16_units_between_counts_each_character() {
    let text = "a😀é中\nb";
    let bytes = text.as_bytes();
    assert_eq!(utf16_units_between(bytes, 0, bytes.len()), 7);
    assert_eq!(utf16_units_between(bytes, 0, 5), 3);
    assert_eq!(utf16_units_between(bytes, 1, 1), 0);
    assert_eq!(utf16_units_between(bytes, 5, 10), 2);
}

#[test]
fn line_for_offset_on_repeated_and_missing_starts() {
    assert_eq!(line_for_offset(&[], 4), 0);
    assert_eq!(line_for_offset(&[5, 5, 7], 2), 0);
    assert_eq!(line_for_offset(&[0, 4, 4, 9], 12), 3);
    let line = line_for_offset(&[0, 4, 4, 9], 4);
    assert!(line == 1 || line == 2);
}

#[test]
fn every_quoted_occurrence_is_reported() {
    let index = make_index(&[("a", "/a.php", 1), ("b", "/b.php", 2), ("ab", "/ab.php", 3)]);
    let searcher = RouteSearcher::new(&index).unwrap();
    let matches = searcher.search("'a' \"b\" 'ab' x a 'b\" 'a'");
    let found: Vec<(String, u32, u32)> = matches
        .iter()
        .map(|m| (m.route.clone(), m.position.start.col, m.position.end.col))
        .collect();
    assert_eq!(
        found,
        vec![
            ("a".to_string(), 1, 2),
            ("b".to_string(), 5, 6),
            ("ab".to_string(), 9, 11),
            ("a".to_string(), 22, 23),
        ]
    );
    assert_eq!(matches[2].file.line, 3);
}

#[test]
fn route_index_insert_replaces_and_counts() {
    let mut index = RouteIndex::new();
    assert!(index.is_empty());
    index.insert("a".to_string(), RouteInfo { file: "/a.php".to_string(), line: 1 });
    index.insert("b".to_string(), RouteInfo { file: "/b.php".to_string(), line: 2 });
    index.insert("a".to_string(), RouteInfo { file: "/c.php".to_string(), line: 3 });
    assert_eq!(index.len(), 2);
    assert_eq!(index.get("a").unwrap().file, "/c.php");
    assert_eq!(index.get("a").unwrap().line, 3);
    assert!(index.get("z").is_none());
    assert_eq!(index.route_names(), vec!["a".to_string(), "b".to_string()]);
    let copy = index.duplicate();
    assert_eq!(copy.len(), 2);
    assert_eq!(copy.get("b").unwrap().line, 2);
}

#[test]
fn matches_come_in_document_order() {
    let index = make_index(&[
        ("pdp_add", "/src/Controller/PdpController.php", 10),
        ("pdp_add_tiers", "/src/Controller/PdpController.php", 20),
    ]);
    let searcher = RouteSearcher::new(&index).unwrap();

    let matches = searcher.search("'pdp_add_tiers' and 'pdp_add' here\n\"pdp_add_tiers\"");
    assert_eq!(matches.len(), 3);
    assert_eq!(matches[0].route, "pdp_add_tiers");
    assert_eq!(matches[0].file.line, 20);
    assert_eq!((matches[0].position.start.col, matches[0].position.end.col), (1, 14));
    assert_eq!(matches[1].route, "pdp_add");
    assert_eq!(matches[1].file.line, 10);
    assert_eq!((matches[1].position.start.col, matches[1].position.end.col), (21, 28));
    assert_eq!(matches[2].position.start.line, 1);
    assert_eq!(matches[2].position.start.col, 1);
}

#[test]
fn unquoted_longer_route_hides_quoted_prefix() {
    // The longest route at a position wins even when only the shorter one
    // would be quoted: 'pdp_add' followed by "_tiers" is not reported.
    let index = make_index(&[
        ("pdp_add", "/a.php", 1),
        ("pdp_add_tiers", "/b.php", 2),
    ]);
    let searcher = RouteSearcher::new(&index).unwrap();
    assert!(searcher.search("'pdp_add_tiers").is_empty());
}
