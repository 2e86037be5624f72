use genchat::extensions::resolve_extension;

#[test]
fn every_table_entry_resolves_to_its_documented_extension() {
    assert_eq!(resolve_extension("python"), "py");
    assert_eq!(resolve_extension("javascript"), "js");
    assert_eq!(resolve_extension("typescript"), "ts");
    assert_eq!(resolve_extension("c"), "c");
    assert_eq!(resolve_extension("c++"), "cpp");
    assert_eq!(resolve_extension("c#"), "cs");
    assert_eq!(resolve_extension("html"), "html");
    assert_eq!(resolve_extension("css"), "css");
    assert_eq!(resolve_extension("go"), "go");
    assert_eq!(resolve_extension("rust"), "rs");
    assert_eq!(resolve_extension("php"), "php");
    assert_eq!(resolve_extension("ruby"), "rb");
    assert_eq!(resolve_extension("swift"), "swift");
    assert_eq!(resolve_extension("kotlin"), "kt");
    assert_eq!(resolve_extension("java"), "java");
}

#[test]
fn unknown_and_empty_tags_resolve_to_the_fallback() {
    assert_eq!(resolve_extension("unknownlang"), "md");
    assert_eq!(resolve_extension(""), "md");
    assert_eq!(resolve_extension("  "), "md");
    assert_eq!(resolve_extension("Python"), "md");
    assert_eq!(resolve_extension("rs"), "md");
}
