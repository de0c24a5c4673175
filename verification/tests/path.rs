//! The borrowed path type, constructed from candidate strings.

use minifilepath::{FilePath, FilePathBuf, FilePathError, MAX_COMPONENT_LEN, MAX_PATH_LEN};
use std::hash::{Hash, Hasher};

#[allow(non_snake_case)]
#[test]
fn path_PrefixedPath() {
    assert_eq!(
        FilePath::new("C:/foo").err().unwrap(),
        FilePathError::PrefixedPath
    );
}

#[allow(non_snake_case)]
#[test]
fn path_RootDirectory() {
    assert_eq!(
        FilePath::new("/foo").err().unwrap(),
        FilePathError::RootDirectory
    );
}

#[allow(non_snake_case)]
#[test]
fn path_CurrentDirectory() {
    assert_eq!(
        FilePath::new("./foo\\baz").err().unwrap(),
        FilePathError::CurrentDirectory(String::new())
    );
    // But this works:
    let foobaz = FilePath::new("foo\\.\\baz").unwrap();
    assert_eq!(foobaz.to_owned(), FilePathBuf::new("foo/baz").unwrap());
}

#[allow(non_snake_case)]
#[test]
fn path_ParentDirectory() {
    assert_eq!(
        FilePath::new("..\\foo").err().unwrap(),
        FilePathError::ParentDirectory(String::new())
    );
    assert_eq!(
        FilePath::new("foo/..").err().unwrap(),
        FilePathError::ParentDirectory(String::from("foo"))
    );
}

#[allow(non_snake_case)]
#[test]
fn path_EmptyComponent() {
    // Repeated path separators are ignored and thus do not generate an
    // empty path component.
    let foobaz = FilePath::new("foo\\\\baz").unwrap();
    assert_eq!(foobaz.to_owned(), FilePathBuf::new("foo/baz").unwrap());

    let foobaz = FilePath::new("foo//baz").unwrap();
    assert_eq!(foobaz.to_owned(), FilePathBuf::new("foo/baz").unwrap());
}

#[allow(non_snake_case)]
#[test]
fn path_ComponentTooLong() {
    let invalid_len = MAX_COMPONENT_LEN + 1;
    let invalid_component = "a".repeat(invalid_len);

    assert_eq!(
        FilePath::new(&invalid_component).err().unwrap(),
        FilePathError::ComponentTooLong(invalid_component.clone(), invalid_len)
    );

    let valid_component = "a".repeat(MAX_COMPONENT_LEN);
    FilePath::new(&valid_component).unwrap();
}

#[allow(non_snake_case)]
#[test]
fn path_InvalidCharacter() {
    assert_eq!(
        FilePath::new("foo\\a?").err().unwrap(),
        FilePathError::InvalidCharacter(String::from("foo/a?"), '?')
    );
    assert_eq!(
        FilePath::new("foo/BAR/*").err().unwrap(),
        FilePathError::InvalidCharacter(String::from("foo/BAR/*"), '*')
    );
    assert_eq!(
        FilePath::new("foo/bar<1>").err().unwrap(),
        FilePathError::InvalidCharacter(String::from("foo/bar<1>"), '<')
    );
}

#[allow(non_snake_case)]
#[test]
fn path_ComponentEndsWithAPeriod() {
    assert_eq!(
        FilePath::new("foo\\...").err().unwrap(),
        FilePathError::ComponentEndsWithAPeriod(String::from("foo/..."))
    );
    // But this is a parent directory.
    assert_eq!(
        FilePath::new("foo\\..").err().unwrap(),
        FilePathError::ParentDirectory(String::from("foo"))
    );
    // And this is a current directory.
    assert_eq!(
        FilePath::new("./foo").err().unwrap(),
        FilePathError::CurrentDirectory(String::new())
    );
}

#[allow(non_snake_case)]
#[test]
fn path_ComponentEndsWithASpace() {
    assert_eq!(
        FilePath::new("foo\\bar.txt ").err().unwrap(),
        FilePathError::ComponentEndsWithASpace(String::from("foo/bar.txt "))
    );
}

#[allow(non_snake_case)]
#[test]
fn path_ReservedName() {
    assert_eq!(
        FilePath::new("foo\\NUL").err().unwrap(),
        FilePathError::ReservedName(String::from("foo/NUL"))
    );
    assert_eq!(
        FilePath::new("BAR/com7").err().unwrap(),
        FilePathError::ReservedName(String::from("BAR/com7"))
    );
}

#[allow(non_snake_case)]
#[test]
fn path_InvalidUTF8() {
    // "foo/b<?>r", where <?> is an unpaired surrogate (U+D800) as the
    // host would hand it over in its raw byte form.
    let bytes = b"foo/b\xed\xa0\x80r";

    assert_eq!(
        minifilepath::validate_path(bytes).err().unwrap(),
        FilePathError::InvalidUTF8(String::from("foo"))
    );
    // The same bytes with the offending character removed are fine.
    assert!(minifilepath::validate_path(b"foo/br").is_ok());
}

#[allow(non_snake_case)]
#[test]
fn path_EmptyPath() {
    assert_eq!(FilePath::new("").err().unwrap(), FilePathError::EmptyPath);
}

#[allow(non_snake_case)]
#[test]
fn path_PathTooLong() {
    let path_piece = "a/";
    // Trailing `/` is not counted, so need to add one extra to overflow.
    let num_path_pieces = MAX_PATH_LEN / path_piece.len() + 1;

    let mut valid_path: String = (0..num_path_pieces).map(|_| path_piece).collect();
    assert_eq!(valid_path.len(), MAX_PATH_LEN + 1);

    FilePath::new(&valid_path).unwrap();

    let invalid_path = {
        valid_path.push_str(path_piece);
        valid_path
    };
    assert_eq!(invalid_path.len(), MAX_PATH_LEN + 3);

    assert_eq!(
        FilePath::new(&invalid_path).err().unwrap(),
        FilePathError::PathTooLong(MAX_PATH_LEN + 2)
    );
}

#[allow(non_snake_case)]
#[test]
fn path_components() {
    // `.` in the middle is ignored.
    // Repeated path separators are ignored.
    // Trailing path separators are ignored.
    let path = FilePath::new("foo/./bar//Baz\\\\BILL\\").unwrap();
    for (idx, component) in path.components().iter().enumerate() {
        match idx {
            0 => assert_eq!(*component, "foo"),
            1 => assert_eq!(*component, "bar"),
            2 => assert_eq!(*component, "Baz"),
            3 => assert_eq!(*component, "BILL"),
            _ => panic!(),
        }
    }
    for (idx, component) in path.components().iter().rev().enumerate() {
        match idx {
            0 => assert_eq!(*component, "BILL"),
            1 => assert_eq!(*component, "Baz"),
            2 => assert_eq!(*component, "bar"),
            3 => assert_eq!(*component, "foo"),
            _ => panic!(),
        }
    }
}

#[allow(non_snake_case)]
#[test]
fn path_equality() {
    let l = FilePath::new("foo/./bar//Baz\\\\BILL\\").unwrap();
    let r = FilePath::new("foo/bar/Baz/BILL").unwrap();
    assert_eq!(l, r);
    // Strings are different ...
    assert_ne!(l.as_str(), r.as_str());
    // ... but hashes are equal.
    let mut hl = std::collections::hash_map::DefaultHasher::new();
    let mut hr = hl.clone();
    l.hash(&mut hl);
    r.hash(&mut hr);
    assert_eq!(hl.finish(), hr.finish());
}

#[test]
fn structural_rejection() {
    // Each structurally illegal shape is rejected with its own error
    // kind: a UNC prefix, a drive prefix, a root separator, a parent
    // directory anywhere, and a leading current directory.
    assert_eq!(
        FilePath::new("\\\\server\\share").err().unwrap(),
        FilePathError::PrefixedPath
    );
    assert_eq!(
        FilePath::new("//server/share").err().unwrap(),
        FilePathError::PrefixedPath
    );
    assert_eq!(
        FilePath::new("D:stuff").err().unwrap(),
        FilePathError::PrefixedPath
    );
    assert_eq!(
        FilePath::new("\\foo").err().unwrap(),
        FilePathError::RootDirectory
    );
    assert_eq!(
        FilePath::new("a/b/../c").err().unwrap(),
        FilePathError::ParentDirectory(String::from("a/b"))
    );
    assert_eq!(
        FilePath::new(".").err().unwrap(),
        FilePathError::CurrentDirectory(String::new())
    );
    assert_eq!(
        FilePath::new("..").err().unwrap(),
        FilePathError::ParentDirectory(String::new())
    );
}

#[test]
fn hash_into_matches_formatting_insensitive_equality() {
    // Hash/equality coherence across differently-formatted but equal
    // inputs, through the verified hasher feed.
    let l = FilePath::new("a\\.\\b//c").unwrap();
    let r = FilePath::new("a/b/c").unwrap();
    assert_eq!(l, r);
    let mut hl = std::collections::hash_map::DefaultHasher::new();
    let mut hr = hl.clone();
    l.hash_into(&mut hl);
    r.hash_into(&mut hr);
    assert_eq!(hl.finish(), hr.finish());
}

#[test]
fn file_name_stem_extension() {
    let path = FilePath::new("foo/bar.txt").unwrap();
    assert_eq!(path.file_name(), "bar.txt");
    assert_eq!(path.file_stem(), Some("bar"));
    assert_eq!(path.extension(), Some("txt"));

    let path = FilePath::new("foo/.txt").unwrap();
    assert_eq!(path.file_name(), ".txt");
    assert_eq!(path.file_stem(), None);
    assert_eq!(path.extension(), Some("txt"));

    let path = FilePath::new("foo/bar/baz").unwrap();
    assert_eq!(path.file_name(), "baz");
    assert_eq!(path.file_stem(), Some("baz"));
    assert_eq!(path.extension(), None);

    // Trailing separators and interior `.` do not change the file name.
    let path = FilePath::new("foo/./bar//").unwrap();
    assert_eq!(path.file_name(), "bar");
    assert_eq!(path.len(), "foo/./bar//".len());
}
