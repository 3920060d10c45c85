use plantuml_prerender::cache::artifact_file_name;
use plantuml_prerender::resolve::{
    directive_paths, find_directives, join_path_exec, parent_dir_exec, resolve_directives, FileMap,
};
use plantuml_prerender::scan::find_pumls;

#[test]
fn directive_is_replaced_by_file_content() {
    let mut fs = FileMap::new();
    fs.insert(
        b"a.puml".to_vec(),
        b"```plantuml\n@startuml\nx\n@enduml\n```".to_vec(),
    );
    let out = resolve_directives(b"Before {{#plantuml a.puml}} after", b"", &fs);
    assert_eq!(
        String::from_utf8(out).unwrap(),
        "Before ```plantuml\n@startuml\nx\n@enduml\n``` after"
    );
}

#[test]
fn identical_file_contents_share_one_artifact() {
    let mut fs = FileMap::new();
    let diagram = b"```plantuml\n@startuml\nshared\n@enduml\n```".to_vec();
    fs.insert(b"one/a.puml".to_vec(), diagram.clone());
    fs.insert(b"two/a.puml".to_vec(), diagram);

    let doc1 = resolve_directives(b"{{#plantuml a.puml}}", b"one", &fs);
    let doc2 = resolve_directives(b"X {{#plantuml a.puml}} Y", b"two", &fs);

    let b1 = find_pumls(&doc1);
    let b2 = find_pumls(&doc2);
    assert_eq!(b1.len(), 1);
    assert_eq!(b2.len(), 1);
    assert_eq!(b1[0].contents, b2[0].contents);
    assert_eq!(
        artifact_file_name(&b1[0].contents),
        artifact_file_name(&b2[0].contents)
    );
}

#[test]
fn self_reference_stops_at_depth_ceiling() {
    let mut fs = FileMap::new();
    fs.insert(b"a.puml".to_vec(), b"{{#plantuml a.puml}}".to_vec());
    let out = resolve_directives(b"{{#plantuml a.puml}}", b"", &fs);
    assert_eq!(String::from_utf8(out).unwrap(), "{{#plantuml a.puml}}");
}

#[test]
fn escaped_directive_loses_backslash_only() {
    let out = resolve_directives(b"keep \\{{#plantuml}} literal", b"", &FileMap::new());
    assert_eq!(String::from_utf8(out).unwrap(), "keep {{#plantuml}} literal");
}

#[test]
fn missing_file_leaves_directive_untouched() {
    let out = resolve_directives(b"A {{#plantuml missing.puml}} B", b"", &FileMap::new());
    assert_eq!(String::from_utf8(out).unwrap(), "A {{#plantuml missing.puml}} B");
}

#[test]
fn nested_reference_shifts_base_directory() {
    let mut fs = FileMap::new();
    fs.insert(b"sub/a.puml".to_vec(), b"[{{#plantuml b.puml}}]".to_vec());
    fs.insert(b"sub/b.puml".to_vec(), b"leaf".to_vec());
    let out = resolve_directives(b"{{#plantuml sub/a.puml}}", b"", &fs);
    assert_eq!(String::from_utf8(out).unwrap(), "[leaf]");
}

#[test]
fn directive_scanner_finds_spans_and_paths() {
    let s = b"x {{#plantuml  a.puml}} y {{#plantuml}} z";
    let ds = find_directives(s);
    assert_eq!(ds.len(), 1);
    assert_eq!(ds[0].start, 2);
    assert_eq!(ds[0].end, 23);
    assert_eq!(ds[0].path, b"a.puml".to_vec());
    assert!(!ds[0].escaped);
}

#[test]
fn directive_without_closing_pair_is_no_occurrence() {
    let ds = find_directives(b"{{#plantuml a.puml");
    assert!(ds.is_empty());
    let ds2 = find_directives(b"{{#plantuml a}b}}");
    assert!(ds2.is_empty());
}

#[test]
fn empty_text_stays_empty() {
    let out = resolve_directives(b"", b"docs", &FileMap::new());
    assert!(out.is_empty());
}

#[test]
fn later_entry_for_same_path_shadows_earlier() {
    let mut fs = FileMap::new();
    fs.insert(b"a.puml".to_vec(), b"old".to_vec());
    fs.insert(b"a.puml".to_vec(), b"new".to_vec());
    let out = resolve_directives(b"{{#plantuml a.puml}}", b"", &fs);
    assert_eq!(String::from_utf8(out).unwrap(), "new");
}

#[test]
fn paths_resolve_against_base_directory() {
    assert_eq!(join_path_exec(b"docs", b"a.puml"), b"docs/a.puml".to_vec());
    assert_eq!(join_path_exec(b"", b"a.puml"), b"a.puml".to_vec());
    assert_eq!(join_path_exec(b"docs", b"/abs.puml"), b"/abs.puml".to_vec());
    assert_eq!(parent_dir_exec(b"docs/sub/a.puml"), b"docs/sub".to_vec());
    assert_eq!(parent_dir_exec(b"a.puml"), b"".to_vec());

    let paths = directive_paths(b"{{#plantuml sub/a.puml}}", b"docs");
    assert_eq!(paths.len(), 1);
    assert_eq!(paths[0].0, b"docs/sub/a.puml".to_vec());
    assert_eq!(paths[0].1, b"docs/sub".to_vec());
}
