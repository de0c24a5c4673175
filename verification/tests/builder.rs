//! The incremental path builder.

use minifilepath::{FilePathBuilder, FilePathError};

#[test]
fn builder() {
    let mut builder = FilePathBuilder::new();
    assert!(builder.is_empty());
    assert_eq!(builder.len(), 0);
    assert_eq!(builder.as_str(), "");

    assert_eq!(
        builder.push("C:/foo").err().unwrap(),
        FilePathError::PrefixedPath
    );
    assert_eq!(
        builder.push("/foo").err().unwrap(),
        FilePathError::RootDirectory
    );
    assert_eq!(
        builder.push("foo/../").err().unwrap(),
        FilePathError::ParentDirectory(String::from("foo"))
    );
    assert_eq!(
        builder.push("./foo").err().unwrap(),
        FilePathError::CurrentDirectory(String::new())
    );

    builder.push("foo/./").unwrap();
    assert!(!builder.is_empty());
    assert_eq!(builder.as_str(), "foo");

    builder.push("Bar\\\\").unwrap();
    assert!(!builder.is_empty());
    assert_eq!(builder.as_str(), "foo/Bar");

    builder.push("baz/./BILL//").unwrap();
    assert!(!builder.is_empty());
    assert_eq!(builder.as_str(), "foo/Bar/baz/BILL");

    assert!(builder.pop());
    assert!(!builder.is_empty());
    assert_eq!(builder.as_str(), "foo/Bar/baz");

    let path = builder.build().unwrap();
    assert_eq!(path.as_str(), "foo/Bar/baz");
    let path_len = path.len();

    let mut builder = path.into_builder();
    assert!(!builder.is_empty());
    assert_eq!(builder.len(), path_len);
    assert_eq!(builder.as_str(), "foo/Bar/baz");

    builder.clear();
    assert!(builder.is_empty());
    assert_eq!(builder.len(), 0);
    assert_eq!(builder.as_str(), "");
}

#[test]
fn builder_pop_to_empty() {
    let mut builder = FilePathBuilder::new();
    assert!(!builder.pop());

    builder.push("solo").unwrap();
    assert!(builder.pop());
    assert!(builder.is_empty());
    assert!(builder.build().is_none());
}

#[test]
fn builder_default_and_into_inner() {
    let mut builder = FilePathBuilder::default();
    assert!(builder.is_empty());
    builder.push("a/b").unwrap();
    assert_eq!(builder.into_inner(), "a/b");
}
