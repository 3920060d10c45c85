use plantuml_prerender::scan::{find_pumls, Puml};

#[test]
fn test_find_plantuml() {
    let s = r#"Some random text with
```plantuml
@startuml Document Name

UML <-> Document

@enduml
```

and

```rust
let foo = "bar";
```

```plantuml
@startuml Another Doc
Foo
@enduml
```

```plantuml,ignore
@startuml
Foo <-> Bar
@enduml
```
"#;

    let res = find_pumls(s.as_bytes());

    assert_eq!(
        res,
        vec![
            Puml {
                start: 22,
                end: 88,
                contents: b"@startuml Document Name\n\nUML <-> Document\n\n@enduml\n".to_vec(),
                ignore: false,
            },
            Puml {
                start: 125,
                end: 174,
                contents: b"@startuml Another Doc\nFoo\n@enduml\n".to_vec(),
                ignore: false,
            },
            Puml {
                start: 176,
                end: 228,
                contents: b"@startuml\nFoo <-> Bar\n@enduml\n".to_vec(),
                ignore: true,
            },
        ]
    );
}

#[test]
fn unterminated_opener_yields_no_block() {
    let s = b"A\n```plantuml\n@startuml\nfoo";
    let res = find_pumls(s);
    assert!(res.is_empty());
}

#[test]
fn no_delimiters_yields_no_block() {
    let res = find_pumls(b"just ordinary text, nothing fenced");
    assert!(res.is_empty());
}

#[test]
fn adjacent_blocks_touch() {
    let s = b"```plantuml\na\n``````plantuml\nb\n```";
    let res = find_pumls(s);
    assert_eq!(res.len(), 2);
    assert_eq!(res[0].contents, b"a\n".to_vec());
    assert_eq!(res[1].contents, b"b\n".to_vec());
    assert_eq!(res[0].end, res[1].start);
    assert!(!res[0].ignore);
    assert!(!res[1].ignore);
}

#[test]
fn suppressed_opener_is_marked() {
    let s = b"```plantuml,ignore\nx\n```";
    let res = find_pumls(s);
    assert_eq!(res.len(), 1);
    assert!(res[0].ignore);
    assert_eq!(res[0].contents, b"x\n".to_vec());
    assert_eq!(res[0].start, 0);
    assert_eq!(res[0].end, 24);
}
