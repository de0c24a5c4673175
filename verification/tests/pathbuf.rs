//! The owned, canonical path type.

use minifilepath::{FilePathBuf, FilePathError, MAX_COMPONENT_LEN, MAX_PATH_LEN};
use std::hash::{Hash, Hasher};

#[allow(non_snake_case)]
#[test]
fn pathbuf_PrefixedPath() {
    assert_eq!(
        FilePathBuf::new("C:/foo").err().unwrap(),
        FilePathError::PrefixedPath
    );
}

#[allow(non_snake_case)]
#[test]
fn pathbuf_RootDirectory() {
    assert_eq!(
        FilePathBuf::new("/foo").err().unwrap(),
        FilePathError::RootDirectory
    );
}

#[allow(non_snake_case)]
#[test]
fn pathbuf_CurrentDirectory() {
    assert_eq!(
        FilePathBuf::new("./foo\\baz").err().unwrap(),
        FilePathError::CurrentDirectory(String::new())
    );
    // But this works:
    let foobaz = FilePathBuf::new("foo\\.\\baz").unwrap();
    assert_eq!(foobaz, FilePathBuf::new("foo/baz").unwrap());
}

#[allow(non_snake_case)]
#[test]
fn pathbuf_ParentDirectory() {
    assert_eq!(
        FilePathBuf::new("..\\foo").err().unwrap(),
        FilePathError::ParentDirectory(String::new())
    );
    assert_eq!(
        FilePathBuf::new("foo/..").err().unwrap(),
        FilePathError::ParentDirectory(String::from("foo"))
    );
}

#[allow(non_snake_case)]
#[test]
fn pathbuf_EmptyComponent() {
    // Repeated path separators are ignored and thus do not generate an
    // empty path component.
    let foobaz = FilePathBuf::new("foo\\\\baz").unwrap();
    assert_eq!(foobaz, FilePathBuf::new("foo/baz").unwrap());

    let foobaz = FilePathBuf::new("foo//baz").unwrap();
    assert_eq!(foobaz, FilePathBuf::new("foo/baz").unwrap());
}

#[allow(non_snake_case)]
#[test]
fn pathbuf_ComponentTooLong() {
    let invalid_len = MAX_COMPONENT_LEN + 1;
    let invalid_component = "a".repeat(invalid_len);

    assert_eq!(
        FilePathBuf::new(&invalid_component).err().unwrap(),
        FilePathError::ComponentTooLong(invalid_component.clone(), invalid_len)
    );

    let valid_component = "a".repeat(MAX_COMPONENT_LEN);
    FilePathBuf::new(&valid_component).unwrap();
}

#[allow(non_snake_case)]
#[test]
fn pathbuf_InvalidCharacter() {
    assert_eq!(
        FilePathBuf::new("foo\\a?").err().unwrap(),
        FilePathError::InvalidCharacter(String::from("foo/a?"), '?')
    );
    assert_eq!(
        FilePathBuf::new("foo/BAR/*").err().unwrap(),
        FilePathError::InvalidCharacter(String::from("foo/BAR/*"), '*')
    );
    assert_eq!(
        FilePathBuf::new("foo/bar<1>").err().unwrap(),
        FilePathError::InvalidCharacter(String::from("foo/bar<1>"), '<')
    );
}

#[allow(non_snake_case)]
#[test]
fn pathbuf_ComponentEndsWithAPeriod() {
    assert_eq!(
        FilePathBuf::new("foo\\...").err().unwrap(),
        FilePathError::ComponentEndsWithAPeriod(String::from("foo/..."))
    );
    // But this is a parent directory.
    assert_eq!(
        FilePathBuf::new("foo\\..").err().unwrap(),
        FilePathError::ParentDirectory(String::from("foo"))
    );
    // And this is a current directory.
    assert_eq!(
        FilePathBuf::new("./foo").err().unwrap(),
        FilePathError::CurrentDirectory(String::new())
    );
}

#[allow(non_snake_case)]
#[test]
fn pathbuf_ComponentEndsWithASpace() {
    assert_eq!(
        FilePathBuf::new("foo\\bar.txt ").err().unwrap(),
        FilePathError::ComponentEndsWithASpace(String::from("foo/bar.txt "))
    );
}

#[allow(non_snake_case)]
#[test]
fn pathbuf_ReservedName() {
    assert_eq!(
        FilePathBuf::new("foo\\NUL").err().unwrap(),
        FilePathError::ReservedName(String::from("foo/NUL"))
    );
    assert_eq!(
        FilePathBuf::new("BAR/com7").err().unwrap(),
        FilePathError::ReservedName(String::from("BAR/com7"))
    );
}

#[allow(non_snake_case)]
#[test]
fn pathbuf_InvalidUTF8() {
    // "foo/b<?>r", where <?> is an unpaired surrogate (U+D800) as the
    // host would hand it over in its raw byte form.
    let bytes = b"foo/b\xed\xa0\x80r";

    assert_eq!(
        minifilepath::validate_path(bytes).err().unwrap(),
        FilePathError::InvalidUTF8(String::from("foo"))
    );
    assert!(minifilepath::validate_path(b"foo/br").is_ok());
}

#[allow(non_snake_case)]
#[test]
fn pathbuf_EmptyPath() {
    assert_eq!(
        FilePathBuf::new("").err().unwrap(),
        FilePathError::EmptyPath
    );
}

#[allow(non_snake_case)]
#[test]
fn pathbuf_PathTooLong() {
    let path_piece = "a/";
    // Trailing `/` is not counted, so need to add one extra to overflow.
    let num_path_pieces = MAX_PATH_LEN / path_piece.len() + 1;

    let mut valid_path: String = (0..num_path_pieces).map(|_| path_piece).collect();
    assert_eq!(valid_path.len(), MAX_PATH_LEN + 1);

    {
        let mut valid_path = FilePathBuf::new(&valid_path).unwrap().into_builder();
        assert_eq!(valid_path.len(), MAX_PATH_LEN);
        assert_eq!(
            valid_path.push(path_piece).err().unwrap(),
            FilePathError::PathTooLong(MAX_PATH_LEN + 2)
        );
    }

    let invalid_path = {
        valid_path.push_str(path_piece);
        valid_path
    };
    assert_eq!(invalid_path.len(), MAX_PATH_LEN + 3);

    assert_eq!(
        FilePathBuf::new(&invalid_path).err().unwrap(),
        FilePathError::PathTooLong(MAX_PATH_LEN + 2)
    );
}

#[allow(non_snake_case)]
#[test]
fn pathbuf_components() {
    // `.` in the middle is ignored.
    // Repeated path separators are ignored.
    // Trailing path separators are ignored.
    let path = FilePathBuf::new("foo/./bar//Baz\\\\BILL\\").unwrap();
    assert_eq!(path, FilePathBuf::new("foo/bar/Baz/BILL").unwrap());
    let mut iter = path.components();
    let mut idx = 0;
    while let Some(component) = iter.next() {
        match idx {
            0 => assert_eq!(component, "foo"),
            1 => assert_eq!(component, "bar"),
            2 => assert_eq!(component, "Baz"),
            3 => assert_eq!(component, "BILL"),
            _ => panic!(),
        }
        idx += 1;
    }
    let mut iter = path.components();
    let mut idx = 0;
    while let Some(component) = iter.next_back() {
        match idx {
            0 => assert_eq!(component, "BILL"),
            1 => assert_eq!(component, "Baz"),
            2 => assert_eq!(component, "bar"),
            3 => assert_eq!(component, "foo"),
            _ => panic!(),
        }
        idx += 1;
    }
}

#[allow(non_snake_case)]
#[test]
fn pathbuf_equality() {
    let l = FilePathBuf::new("foo/./bar//Baz\\\\BILL\\").unwrap();
    let r = FilePathBuf::new("foo/bar/Baz/BILL").unwrap();
    assert_eq!(l, r);
    // Strings and hashes are equal.
    assert_eq!(l.as_str(), r.as_str());
    let mut hl = std::collections::hash_map::DefaultHasher::new();
    let mut hr = hl.clone();
    l.hash(&mut hl);
    r.hash(&mut hr);
    assert_eq!(hl.finish(), hr.finish());
}

#[test]
fn length_boundaries_exact() {
    // A canonical length of exactly MAX_PATH_LEN is accepted; one byte
    // over is rejected, and the error reports the exact computed length.
    let mut base = "a/".repeat(32766);
    let accepted = {
        let mut s = base.clone();
        s.push_str("abc");
        s
    };
    // 32766 one-byte components, separators, and one three-byte name
    assert_eq!(32766 * 2 - 1 + 4, MAX_PATH_LEN);
    let path = FilePathBuf::new(&accepted).unwrap();
    assert_eq!(path.len(), MAX_PATH_LEN);

    base.push_str("abcd");
    assert_eq!(
        FilePathBuf::new(&base).err().unwrap(),
        FilePathError::PathTooLong(MAX_PATH_LEN + 1)
    );
}

#[test]
fn canonicalization_is_idempotent() {
    // An already-canonical path comes back byte for byte.
    let first = FilePathBuf::new("foo/Bar/baz.txt").unwrap();
    let second = FilePathBuf::new(first.as_str()).unwrap();
    assert_eq!(first.as_str(), second.as_str());

    let noisy = FilePathBuf::new("foo\\.\\Bar//baz.txt\\").unwrap();
    let again = FilePathBuf::new(noisy.as_str()).unwrap();
    assert_eq!(noisy.as_str(), "foo/Bar/baz.txt");
    assert_eq!(noisy.as_str(), again.as_str());
}

#[test]
fn components_round_trip() {
    // Joining the components with the canonical separator and
    // re-decomposing gives the same components back.
    let path = FilePathBuf::new("alpha\\beta//gamma/./delta").unwrap();
    let mut joined = String::new();
    let mut iter = path.components();
    while let Some(component) = iter.next() {
        if !joined.is_empty() {
            joined.push('/');
        }
        joined.push_str(component);
    }
    assert_eq!(joined, "alpha/beta/gamma/delta");
    let rejoined = FilePathBuf::new(&joined).unwrap();
    assert_eq!(rejoined.as_str(), joined);
    assert_eq!(rejoined, path);
}

#[test]
fn pathbuf_accessors() {
    let path = FilePathBuf::new("foo/bar.txt").unwrap();
    assert_eq!(path.len(), 11);
    assert_eq!(path.file_name(), "bar.txt");
    assert_eq!(path.file_stem(), Some("bar"));
    assert_eq!(path.extension(), Some("txt"));
    assert_eq!(path.as_file_path().as_str(), "foo/bar.txt");
    assert_eq!(path.clone().into_string(), "foo/bar.txt");

    let dotfile = FilePathBuf::new("foo/.txt").unwrap();
    assert_eq!(dotfile.file_name(), ".txt");
    assert_eq!(dotfile.file_stem(), None);
    assert_eq!(dotfile.extension(), Some("txt"));

    let bare = FilePathBuf::new("foo/bar/baz").unwrap();
    assert_eq!(bare.file_name(), "baz");
    assert_eq!(bare.file_stem(), Some("baz"));
    assert_eq!(bare.extension(), None);
}
