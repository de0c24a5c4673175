//! Validated, canonical, relative, UTF-8 file system paths.
//!
//! A [`FilePathBuf`] is a non-empty, relative path whose string form is the
//! join of its components with a single forward slash: no drive or UNC
//! prefix, no root, no `.` / `..` components, no reserved device names
//! (`NUL`, `COM1`, ...), no characters that are illegal on common file
//! systems, and with both per-component and total byte lengths bounded.
//! A [`FilePath`] is the borrowed form: a validated view of a candidate
//! string that may still use mixed or repeated separators and interior `.`
//! segments; canonicalizing it (`to_owned`) produces a [`FilePathBuf`].

mod builder;
mod error;
mod iter;
mod model;
mod path;
mod pathbuf;
mod reserved;
mod trusted;
mod unicode;
mod util;

pub use builder::{lemma_pushed_total, push_len, pushed_state, FilePathBuilder};
pub use error::FilePathError;
pub use iter::FilePathBufIter;
pub use path::{lemma_hash_equality_coherence, FilePath};
pub use pathbuf::{file_path_and_name, FilePathAndName, FilePathBuf};
pub use model::{
    canonical_form, component_issue, component_ok, is_canonical_path, join_components,
    lemma_canonical_idempotent, lemma_components_round_trip, path_components, path_outcome,
    raw_chunks, ComponentIssue, PathIssue,
};
pub use reserved::{
    is_reserved_component, is_reserved_name, lemma_reserved_match_sound, reserved_match,
    split_at_reserved_name,
};
pub use util::{
    file_stem_and_extension, is_valid_path_component, stem_extension_of, validate_path,
    validate_path_component, FileStemAndExtension,
};

use vstd::prelude::*;

verus! {

/// Canonical path component separator, as a character.
pub const SEPARATOR_CHAR: char = '/';

/// Canonical path component separator, as a byte.
pub const SEPARATOR_BYTE: u8 = 47;

/// Maximum file path component length in bytes (in UTF-8 encoding).
pub const MAX_COMPONENT_LEN: usize = 255;

/// Maximum total file path length in bytes (in UTF-8 encoding), including
/// the file path component separators.
pub const MAX_PATH_LEN: usize = 65535;

/// Maximum number of components a file path may have: every component
/// contributes at least one byte, plus a separator for each one after the
/// first.
pub const MAX_NUM_COMPONENTS: usize = MAX_PATH_LEN / 2;

} // verus!
