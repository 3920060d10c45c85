use plantuml_prerender::cache::{artifact_file_name, should_render};
use plantuml_prerender::identity::{artifact_stem, content_identity, find_name};
use plantuml_prerender::rewrite::{image_markup, replace_all};
use plantuml_prerender::scan::find_pumls;
use plantuml_prerender::PumlPreprocessor;

#[test]
fn replace() {
    let s = r#"Some random text with
```plantuml
@startuml Document Name

UML <-> Document

@enduml
```

and

```rust
let foo = "bar";
```

```plantuml
@startuml
Foo <-> Bar
@enduml
```

```plantuml,ignore
@startuml
Foo <-> Bar
@enduml
```
"#;

    let blocks = find_pumls(s.as_bytes());
    let results: Vec<bool> = blocks.iter().map(|b| !b.ignore).collect();
    let res = replace_all(s.as_bytes(), 2, &results);

    assert_eq!(
        String::from_utf8(res).unwrap(),
        r#"Some random text with
![Document Name](../../plantuml_images/bd15ddc5-f769-719d-dbb5-be1228872d69.svg)

and

```rust
let foo = "bar";
```

![](../../plantuml_images/3a1375f3-0f44-4b13-f722-de95a4661ce7.svg)

```plantuml,ignore
@startuml
Foo <-> Bar
@enduml
```
"#
    );
}

#[test]
fn rewrite_of_empty_text_is_empty() {
    let res = replace_all(b"", 0, &vec![]);
    assert!(res.is_empty());
}

#[test]
fn rewrite_of_plain_text_is_identity() {
    let s = b"no fences here at all\njust text\n";
    let res = replace_all(s, 3, &vec![]);
    assert_eq!(res, s.to_vec());
}

#[test]
fn successful_render_substitutes_markup() {
    let s = "A\n```plantuml\n@startuml X\nfoo\n@enduml\n```\nB";
    let content = b"@startuml X\nfoo\n@enduml\n";
    let stem = String::from_utf8(artifact_stem(content)).unwrap();
    let expected = format!("A\n![X](plantuml_images/{}.svg)\nB", stem);
    let res = replace_all(s.as_bytes(), 0, &vec![true]);
    assert_eq!(String::from_utf8(res).unwrap(), expected);

    // A second run over the same input substitutes the same identity.
    let res2 = replace_all(s.as_bytes(), 0, &vec![true]);
    assert_eq!(String::from_utf8(res2).unwrap(), expected);
}

#[test]
fn failed_render_preserves_block_verbatim() {
    let s = b"A\n```plantuml\n@startuml\nfoo\n@enduml\n```\nB";
    let res = replace_all(s, 1, &vec![false]);
    assert_eq!(res, s.to_vec());
}

#[test]
fn unterminated_block_preserves_trailing_text() {
    let s = b"A\n```plantuml\n@startuml\nfoo";
    let res = replace_all(s, 0, &vec![]);
    assert_eq!(res, s.to_vec());
}

#[test]
fn identity_depends_on_content_alone() {
    let a: u128 = content_identity(b"@startuml\nx\n@enduml\n");
    let b: u128 = content_identity(b"@startuml\nx\n@enduml\n");
    assert_eq!(a, b);
    let c: u128 = content_identity(b"@startuml\ny\n@enduml\n");
    assert_ne!(a, c);
}

#[test]
fn artifact_name_is_stem_and_svg() {
    let content = b"@startuml\nx\n@enduml\n";
    let stem = String::from_utf8(artifact_stem(content)).unwrap();
    let name = String::from_utf8(artifact_file_name(content)).unwrap();
    assert_eq!(name, format!("{}.svg", stem));
    assert_eq!(stem.len(), 36);
}

#[test]
fn renderer_runs_only_without_artifact() {
    assert!(should_render(false));
    assert!(!should_render(true));
}

#[test]
fn find_name_takes_first_line_after_marker() {
    assert_eq!(
        find_name(b"@startuml Document Name\nrest\n"),
        Some(b"Document Name".to_vec())
    );
    assert_eq!(find_name(b"@startuml X"), Some(b"X".to_vec()));
    assert_eq!(find_name(b"@startuml\nFoo\n"), None);
    assert_eq!(find_name(b"no marker"), None);
}

#[test]
fn image_markup_embeds_name_and_depth() {
    let m = image_markup(b"@startuml N\nx\n@enduml\n", 2);
    let stem = String::from_utf8(artifact_stem(b"@startuml N\nx\n@enduml\n")).unwrap();
    assert_eq!(
        String::from_utf8(m).unwrap(),
        format!("![N](../../plantuml_images/{}.svg)", stem)
    );
}

#[test]
fn preprocessor_reports_its_name() {
    assert_eq!(PumlPreprocessor.name(), "plantuml-preprocessor");
}
