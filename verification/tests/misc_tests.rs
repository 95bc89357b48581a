use doc_assert::misc::{Indent, Indexes};

#[test]
fn test_indent() {
    assert_eq!("  foo", "foo".indent(2));
    assert_eq!("  foo\n  bar", "foo\nbar".indent(2));
}

#[test]
fn test_indexes() {
    let empty: Vec<i32> = vec![];
    let empty_indexes: Vec<usize> = vec![];
    assert_eq!(empty.indexes(), empty_indexes);

    assert_eq!(vec!['a', 'b'].indexes(), vec![0, 1]);
}

#[test]
fn test_indent_empty_and_deeper() {
    assert_eq!("", "".indent(4));
    assert_eq!("    a\n    b\n    c", "a\nb\nc".indent(4));
    assert_eq!("a", "a".indent(0));
}
