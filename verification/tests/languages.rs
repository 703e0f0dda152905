use hiker_editor::languages::bundle;
use hiker_editor::languages::Language;

#[test]
fn rust_bundle_has_highlights_and_injections() {
    let lang = bundle(Language::Rust);
    assert!(!lang.highlights_query.is_empty());
    assert!(lang.injections_query.is_some());
    assert!(lang.indent_query.is_none());
    let mut parser = tree_sitter::Parser::new();
    parser.set_language(&lang.language).unwrap();
    let tree = parser.parse("fn main() { let s = \"hi\"; }\n", None).unwrap();
    assert!(!tree.root_node().has_error());
}

#[test]
fn python_bundle_has_no_injections() {
    let lang = bundle(Language::Python);
    assert!(!lang.highlights_query.is_empty());
    assert!(lang.injections_query.is_none());
    let mut parser = tree_sitter::Parser::new();
    parser.set_language(&lang.language).unwrap();
    let tree = parser.parse("def f(x):\n    return 'hi'\n", None).unwrap();
    assert!(!tree.root_node().has_error());
}
