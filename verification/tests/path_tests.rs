use doc_assert::path::{JSONPath, Key, Path, PathError};

#[test]
fn test_parse_jsonpath() {
    let path: Path = "$.a.b.c".jsonpath().unwrap();
    assert_eq!(
        path,
        Path::Keys(vec![
            Key::Field("a".to_string()),
            Key::Field("b".to_string()),
            Key::Field("c".to_string()),
        ])
    );

    let path = "$.a[0].b.c".jsonpath().unwrap();
    assert_eq!(
        path,
        Path::Keys(vec![
            Key::Field("a".to_string()),
            Key::Idx(0),
            Key::Field("b".to_string()),
            Key::Field("c".to_string()),
        ])
    );

    let path = "$.a[0].b[1].c".jsonpath().unwrap();
    assert_eq!(
        path,
        Path::Keys(vec![
            Key::Field("a".to_string()),
            Key::Idx(0),
            Key::Field("b".to_string()),
            Key::Idx(1),
            Key::Field("c".to_string()),
        ])
    );

    let path: Path = "$.a[0].b[1:2].c".jsonpath().unwrap();
    assert_eq!(
        path,
        Path::Keys(vec![
            Key::Field("a".to_string()),
            Key::Idx(0),
            Key::Field("b".to_string()),
            Key::IdxRange(1, 2),
            Key::Field("c".to_string()),
        ])
    );

    let path: Path = "$.a[0].b[*].*.c[0:1]".jsonpath().unwrap();
    assert_eq!(
        path,
        Path::Keys(vec![
            Key::Field("a".to_string()),
            Key::Idx(0),
            Key::Field("b".to_string()),
            Key::WildcardArray,
            Key::Wildcard,
            Key::Field("c".to_string()),
            Key::IdxRange(0, 1),
        ])
    );

    let path: Path = "$[:].a[3:].b[4:].*.c[0:1]".jsonpath().unwrap();
    assert_eq!(
        path,
        Path::Keys(vec![
            Key::WildcardArray,
            Key::Field("a".to_string()),
            Key::IdxRangeStart(3),
            Key::Field("b".to_string()),
            Key::IdxRangeStart(4),
            Key::Wildcard,
            Key::Field("c".to_string()),
            Key::IdxRange(0, 1),
        ])
    );
}

#[test]
fn path_test_parse_jsonpath() {
    let path: Path = "$.a.b.c".jsonpath().unwrap();
    assert_eq!(
        path,
        Path::Keys(vec![
            Key::Field("a".to_string()),
            Key::Field("b".to_string()),
            Key::Field("c".to_string()),
        ])
    );

    let path: Path = "$.a[0].b[1:2].c".jsonpath().unwrap();
    assert_eq!(
        path,
        Path::Keys(vec![
            Key::Field("a".to_string()),
            Key::Idx(0),
            Key::Field("b".to_string()),
            Key::IdxRange(1, 2),
            Key::Field("c".to_string()),
        ])
    );

    let path: Path = "$.a[0].b[*].*.c[0:1]".jsonpath().unwrap();
    assert_eq!(
        path,
        Path::Keys(vec![
            Key::Field("a".to_string()),
            Key::Idx(0),
            Key::Field("b".to_string()),
            Key::WildcardArray,
            Key::Wildcard,
            Key::Field("c".to_string()),
            Key::IdxRange(0, 1),
        ])
    );
}

#[test]
fn test_prefixes() {
    let path1 = "$.a.b.c".jsonpath().unwrap();
    let path2 = "$.a.b.c".jsonpath().unwrap();
    assert!(path1.prefixes(&path2));

    let path1 = "$.a.b".jsonpath().unwrap();
    let path2 = "$.a.b.c".jsonpath().unwrap();
    assert!(path1.prefixes(&path2));

    let path1 = "$.a.b.c".jsonpath().unwrap();
    let path2 = "$.a.b.d".jsonpath().unwrap();
    assert!(!path1.prefixes(&path2));

    let path1 = "$.a.*.c[0:3]".jsonpath().unwrap();
    let path2 = "$.a.b.c[1]".jsonpath().unwrap();
    assert!(path1.prefixes(&path2));

    let path1 = "$.a.*.c[0:3]".jsonpath().unwrap();
    let path2 = "$.a.b.c[3]".jsonpath().unwrap();
    assert!(!path1.prefixes(&path2));

    let path1 = "$.a.*.c[0]".jsonpath().unwrap();
    let path2 = "$.a[1].c[0]".jsonpath().unwrap();
    assert!(!path1.prefixes(&path2));

    let path1 = "$.a.*.c[0].*".jsonpath().unwrap();
    let path2 = "$.a.d.c[0]".jsonpath().unwrap();
    assert!(!path1.prefixes(&path2));

    let path1 = "$.a.*.c[:3]".jsonpath().unwrap();
    let path2 = "$.a.d.c[2]".jsonpath().unwrap();
    assert!(path1.prefixes(&path2));

    let path1 = "$.a.*.c[:3]".jsonpath().unwrap();
    let path2 = "$.a.d.c[4]".jsonpath().unwrap();
    assert!(!path1.prefixes(&path2));

    let path1 = "$.a.*.c[3:]".jsonpath().unwrap();
    let path2 = "$.a.d.c[4]".jsonpath().unwrap();
    assert!(path1.prefixes(&path2));
}

#[test]
fn path_test_prefixes() {
    let path1 = "$.a.b".jsonpath().unwrap();
    let path2 = "$.a.b.c".jsonpath().unwrap();
    assert!(path1.prefixes(&path2));

    let path1 = "$.a.*.c[0:3]".jsonpath().unwrap();
    let path2 = "$.a.b.c[1]".jsonpath().unwrap();
    assert!(path1.prefixes(&path2));

    let path1 = "$.a.*.c[0:3]".jsonpath().unwrap();
    let path2 = "$.a.b.c[3]".jsonpath().unwrap();
    assert!(!path1.prefixes(&path2));

    let path1 = "$.a.*.c[3:]".jsonpath().unwrap();
    let path2 = "$.a.d.c[4]".jsonpath().unwrap();
    assert!(path1.prefixes(&path2));
}

#[test]
fn test_prefixes_validation() {
    let path1 = "$.a.b.c".jsonpath();
    assert!(path1.is_ok());

    let path2 = ".a.b.c".jsonpath();
    assert!(path2.is_err());

    let path3 = "$.a.b.c[".jsonpath();
    assert!(path3.is_err());

    let path4 = "$.a.b.c[]".jsonpath();
    assert!(path4.is_err());

    let path5 = "$.a.b.c[1:".jsonpath();
    assert!(path5.is_err());

    let path6 = "$.a.b.c[1:2".jsonpath();
    assert!(path6.is_err());

    let path7 = "$.a.b.c[1:2]".jsonpath();
    assert!(path7.is_ok());

    let path8 = "$[*].a".jsonpath();
    assert!(path8.is_ok());

    let path9 = "id".jsonpath();
    assert!(path9.is_err());

    let path10 = "".jsonpath();
    assert!(path10.is_err());
}

#[test]
fn path_test_prefixes_validation() {
    assert!("$.a.b.c".jsonpath().is_ok());
    assert!(".a.b.c".jsonpath().is_err());
    assert!("$.a.b.c[".jsonpath().is_err());
    assert!("$.a.b.c[]".jsonpath().is_err());
    assert!("$.a.b.c[1:".jsonpath().is_err());
    assert!("$.a.b.c[1:2".jsonpath().is_err());
    assert!("$.a.b.c[1:2]".jsonpath().is_ok());
    assert!("$[*].a".jsonpath().is_ok());
    assert!("id".jsonpath().is_err());
    assert!("".jsonpath().is_err());
}

#[test]
fn test_root_prefixes_everything() {
    let root = "$".jsonpath().unwrap();
    let deep = "$.a.b[3].c".jsonpath().unwrap();
    assert!(root.prefixes(&deep));
    assert!(root.prefixes(&root));
    assert!(!deep.prefixes(&root));
}

#[test]
fn test_render_round_trip() {
    for text in [
        "$",
        "$.a.b.c",
        "$.a[0].b[1:2].c",
        "$.a[0].b[*].*.c[0:1]",
        "$[:].a[3:].b[4:].*.c[0:1]",
        "$.x[:5]",
    ] {
        let parsed = text.jsonpath().unwrap();
        let rendered = parsed.to_jsonpath();
        let reparsed = rendered.as_str().jsonpath().unwrap();
        assert_eq!(parsed, reparsed);
        let rendered_again = reparsed.to_jsonpath();
        assert_eq!(rendered, rendered_again);
    }
    assert_eq!("$.a[1:2].b".jsonpath().unwrap().to_jsonpath(), "$.a[1:2].b");
    assert_eq!("$[:].a".jsonpath().unwrap().to_jsonpath(), "$[:].a".jsonpath().unwrap().to_jsonpath());
}

#[test]
fn test_display_text() {
    let root = "$".jsonpath().unwrap();
    assert_eq!(root.display_text(), "(root)");
    let path = "$.a[0].*.b[*]".jsonpath().unwrap();
    assert_eq!(path.display_text(), ".a[0]*.b[*]");
}

#[test]
fn test_index_overflow_is_rejected() {
    assert!(matches!(
        "$.a[99999999999999999999999999]".jsonpath(),
        Err(PathError::IndexOverflow(_))
    ));
    assert!(matches!("$.a..b".jsonpath(), Err(PathError::Syntax(_))));
}
