use std::path::PathBuf;

use route_resolver::php_finder::{class_short_name, find_location_in_source, fqcn_to_path};

const SIMPLE_CLASS_PHP: &str = r#"<?php

namespace App\Controller;

class HomeController
{
    public function indexAction(): void {}
    public function aboutAction(): void {}
}
"#;

fn parse_and_find(source: &str, class_name: &str, method: Option<&str>) -> Option<u32> {
    find_location_in_source("/tmp/test.php", source, class_name, method).ok().map(|info| info.line)
}

#[test]
fn test_finds_class_declaration_line() {
    let line = parse_and_find(SIMPLE_CLASS_PHP, "HomeController", None).unwrap();
    assert_eq!(line, 5);
}

#[test]
fn test_finds_method_declaration_line() {
    let line = parse_and_find(SIMPLE_CLASS_PHP, "HomeController", Some("indexAction")).unwrap();
    assert_eq!(line, 7);
}

#[test]
fn test_finds_second_method_declaration_line() {
    let line = parse_and_find(SIMPLE_CLASS_PHP, "HomeController", Some("aboutAction")).unwrap();
    assert_eq!(line, 8);
}

#[test]
fn test_returns_class_line_when_method_not_found() {
    let line = parse_and_find(SIMPLE_CLASS_PHP, "HomeController", Some("nonExistent")).unwrap();
    assert_eq!(line, 5);
}

#[test]
fn test_returns_none_for_unknown_class() {
    let result = parse_and_find(SIMPLE_CLASS_PHP, "UnknownController", None);
    assert!(result.is_none());
}

#[test]
fn test_fqcn_to_path() {
    let path = fqcn_to_path("/workspace", "App\\Controller\\HomeController").unwrap();
    assert_eq!(PathBuf::from(path), PathBuf::from("/workspace/src/Controller/HomeController.php"));
}

#[test]
fn test_fqcn_to_path_rejects_non_app_namespace() {
    let result = fqcn_to_path("/workspace", "Vendor\\Lib\\SomeClass");
    assert!(result.is_err());
}

#[test]
fn fqcn_to_path_error_names_the_class() {
    let result = fqcn_to_path("/workspace", "Vendor\\Lib\\SomeClass");
    assert_eq!(result.unwrap_err(), "Unsupported namespace prefix in FQCN 'Vendor\\Lib\\SomeClass'");
    assert!(fqcn_to_path("/w", "App").is_err());
}

#[test]
fn class_short_name_is_last_segment() {
    assert_eq!(class_short_name("App\\Controller\\HomeController"), "HomeController");
    assert_eq!(class_short_name("HomeController"), "HomeController");
    assert_eq!(class_short_name("App\\"), "");
}

#[test]
fn find_location_in_source_reports_file_and_line() {
    let info = find_location_in_source("/w/src/Controller/HomeController.php", SIMPLE_CLASS_PHP, "App\\Controller\\HomeController", Some("aboutAction")).unwrap();
    assert_eq!(info.file, "/w/src/Controller/HomeController.php");
    assert_eq!(info.line, 8);
}

#[test]
fn find_location_in_source_error_message() {
    let err = find_location_in_source("/w/a.php", SIMPLE_CLASS_PHP, "App\\Missing", Some("run")).unwrap_err();
    assert_eq!(err, "Could not locate class 'App\\Missing' (method: Some(\"run\")) in '/w/a.php'");
    let err = find_location_in_source("/w/a.php", SIMPLE_CLASS_PHP, "App\\Missing", None).unwrap_err();
    assert_eq!(err, "Could not locate class 'App\\Missing' (method: None) in '/w/a.php'");
}

#[test]
fn classes_outside_namespaces_and_later_ones_are_found() {
    let source = "<?php\nclass A {}\n\nclass B\n{\n    const X = 1;\n    function run() {}\n}\n";
    assert_eq!(parse_and_find(source, "A", None), Some(2));
    assert_eq!(parse_and_find(source, "B", Some("run")), Some(7));
}
