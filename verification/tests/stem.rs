//! Splitting file names into stem and extension, and paths into their
//! path and name parts.

use minifilepath::{
    file_path_and_name, file_stem_and_extension, FilePath, FilePathAndName, FilePathBuf,
    FileStemAndExtension,
};

#[test]
fn file_name_and_extension_test() {
    assert_eq!(
        file_stem_and_extension(".txt"),
        Some(FileStemAndExtension {
            file_stem: None,
            extension: "txt"
        })
    );
    assert_eq!(
        file_stem_and_extension("foo.txt"),
        Some(FileStemAndExtension {
            file_stem: Some("foo"),
            extension: "txt"
        })
    );
    assert_eq!(
        file_stem_and_extension("foo.bar.txt"),
        Some(FileStemAndExtension {
            file_stem: Some("foo.bar"),
            extension: "txt"
        })
    );
    assert_eq!(file_stem_and_extension("foo"), None,);
    assert_eq!(file_stem_and_extension("foo."), None,);
}

#[test]
fn file_path_and_name_test() {
    assert_eq!(file_path_and_name(&FilePathBuf::new(".txt").unwrap()), None);
    assert_eq!(
        file_path_and_name(&FilePathBuf::new("foo.txt").unwrap()),
        None
    );
    assert_eq!(
        file_path_and_name(&FilePathBuf::new("foo.bar.txt").unwrap()),
        None
    );
    assert_eq!(file_path_and_name(&FilePathBuf::new("foo").unwrap()), None);

    assert_eq!(file_path_and_name(&FilePathBuf::new("foo/").unwrap()), None);

    assert_eq!(
        file_path_and_name(&FilePathBuf::new("foo/bar").unwrap()),
        Some(FilePathAndName {
            file_path: FilePath::new("foo").unwrap(),
            file_name: "bar"
        })
    );
    assert_eq!(
        file_path_and_name(&FilePathBuf::new("foo bar/baz bob").unwrap()),
        Some(FilePathAndName {
            file_path: FilePath::new("foo bar").unwrap(),
            file_name: "baz bob"
        })
    );
    assert_eq!(
        file_path_and_name(&FilePathBuf::new("foo/bar/baz bob").unwrap()),
        Some(FilePathAndName {
            file_path: FilePath::new("foo/bar").unwrap(),
            file_name: "baz bob"
        })
    );
    assert_eq!(
        file_path_and_name(&FilePathBuf::new("foo/bar.txt").unwrap()),
        Some(FilePathAndName {
            file_path: FilePath::new("foo").unwrap(),
            file_name: "bar.txt"
        })
    );
    assert_eq!(
        file_path_and_name(&FilePathBuf::new("foo/.txt").unwrap()),
        Some(FilePathAndName {
            file_path: FilePath::new("foo").unwrap(),
            file_name: ".txt"
        })
    );
}
