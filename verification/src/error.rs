//! The error type shared by every path-constructing operation.

use vstd::prelude::*;
use vstd::utf8::encode_utf8;

use crate::model::PathIssue;

verus! {

/// Why a candidate path was rejected. The `String` payloads carry the
/// location of the failure: the components accepted before it, joined
/// with the canonical `/` separator, including the failing component
/// itself for the component-shape errors. Rejection is always reported
/// for the first failure found scanning components left to right.
#[derive(Clone, PartialEq, Eq, Debug)]
pub enum FilePathError {
    /// Path contains a drive or UNC prefix.
    PrefixedPath,
    /// Path contains a root directory.
    RootDirectory,
    /// Path starts with a current directory component.
    /// Contains the path to the invalid component.
    CurrentDirectory(String),
    /// Path contains a parent directory component.
    /// Contains the path to the invalid component.
    ParentDirectory(String),
    /// A path component is empty.
    /// Contains the path to the empty component.
    EmptyComponent(String),
    /// A path component length in bytes is longer than
    /// [`MAX_COMPONENT_LEN`](crate::MAX_COMPONENT_LEN).
    /// Contains the path to the component and its length in bytes.
    ComponentTooLong(String, usize),
    /// Path component contains an invalid character.
    /// Contains the path to the invalid component and the invalid character.
    InvalidCharacter(String, char),
    /// Path component ends with a period.
    /// Contains the path to the invalid component.
    ComponentEndsWithAPeriod(String),
    /// Path component ends with a space.
    /// Contains the path to the invalid component.
    ComponentEndsWithASpace(String),
    /// Path component contains a reserved file name.
    /// Contains the path to the invalid component.
    ReservedName(String),
    /// A path component contains invalid UTF-8.
    /// Contains the path to the invalid component.
    InvalidUTF8(String),
    /// Empty paths are not allowed.
    EmptyPath,
    /// Path length in bytes is longer than
    /// [`MAX_PATH_LEN`](crate::MAX_PATH_LEN).
    /// Contains the length of the path in bytes.
    PathTooLong(usize),
}

impl View for FilePathError {
    type V = PathIssue;

    /// The abstract value of an error: the same case over byte sequences,
    /// with each location string read as its UTF-8 bytes.
    open spec fn view(&self) -> PathIssue {
        match self {
            FilePathError::PrefixedPath => PathIssue::Prefixed,
            FilePathError::RootDirectory => PathIssue::Root,
            FilePathError::CurrentDirectory(p) => PathIssue::CurDir(encode_utf8(p@)),
            FilePathError::ParentDirectory(p) => PathIssue::ParentDir(encode_utf8(p@)),
            FilePathError::EmptyComponent(p) => PathIssue::EmptyComp(encode_utf8(p@)),
            FilePathError::ComponentTooLong(p, n) => PathIssue::CompTooLong(encode_utf8(p@), *n as int),
            FilePathError::InvalidCharacter(p, c) => PathIssue::BadChar(encode_utf8(p@), *c),
            FilePathError::ComponentEndsWithAPeriod(p) => PathIssue::EndsWithPeriod(
                encode_utf8(p@),
            ),
            FilePathError::ComponentEndsWithASpace(p) => PathIssue::EndsWithSpace(
                encode_utf8(p@),
            ),
            FilePathError::ReservedName(p) => PathIssue::Reserved(encode_utf8(p@)),
            FilePathError::InvalidUTF8(p) => PathIssue::BadUtf8(encode_utf8(p@)),
            FilePathError::EmptyPath => PathIssue::Empty,
            FilePathError::PathTooLong(n) => PathIssue::TooLong(*n as int),
        }
    }
}

} // verus!
