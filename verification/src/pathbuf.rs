//! The owned path type: the canonical string form.

use vstd::prelude::*;
use vstd::string::StringSliceAdditionalSpecFns;
use vstd::utf8::*;

use crate::builder::FilePathBuilder;
use crate::error::FilePathError;
use crate::model::{
    is_canonical_path, join_components, last_index_of, lemma_canonical_back_split,
    lemma_canonical_idempotent, lemma_join_valid_utf8, path_outcome, raw_chunks,
};
use crate::path::FilePath;
use crate::trusted::string_from_utf8;
use crate::unicode::{lemma_ascii_boundaries, substr};
use crate::util::{canonicalize_bytes, file_stem_and_extension, stem_extension_of};

verus! {

broadcast use vstd::utf8::encode_utf8_valid_utf8, vstd::utf8::is_char_boundary_iff_not_is_continuation_byte, vstd::utf8::is_char_boundary_start_end_of_seq;

/// Non-empty, relative UTF-8 file system path in canonical form: the
/// join of its components with single forward slashes, no leading or
/// trailing separator, every component valid, and the whole string
/// within the total length bound. This is the owned version, [`FilePath`]
/// is the borrowed one.
#[derive(PartialEq, Eq, Debug)]
pub struct FilePathBuf {
    path: String,
}

impl Clone for FilePathBuf {
    /// An identical copy.
    fn clone(&self) -> (r: Self)
        ensures
            r@ == self@,
    {
        proof {
            use_type_invariant(self);
        }
        FilePathBuf { path: self.path.clone() }
    }
}

impl View for FilePathBuf {
    type V = Seq<u8>;

    /// The abstract value: the UTF-8 bytes of the canonical string.
    closed spec fn view(&self) -> Seq<u8> {
        encode_utf8(self.path@)
    }
}

impl FilePathBuf {
    /// The string form is always canonical.
    #[verifier::type_invariant]
    pub closed spec fn wf(self) -> bool {
        is_canonical_path(self@)
    }

    /// Tries to create a [`FilePathBuf`] from the candidate `path`
    /// string: the candidate is decomposed, every component validated,
    /// and the canonical form assembled. Returns the first validation
    /// error otherwise.
    pub fn new(path: &str) -> (r: Result<FilePathBuf, FilePathError>)
        ensures
            match path_outcome(path.spec_bytes()) {
                Ok(comps) => r matches Ok(p) && p@ == join_components(comps),
                Err(issue) => r matches Err(e) && e@ == issue,
            },
    {
        match canonicalize_bytes(path.as_bytes()) {
            Ok(v) => Ok(Self::from_canonical(v)),
            Err(e) => Err(e),
        }
    }

    /// Wraps bytes already known to be a canonical path.
    pub(crate) fn from_canonical(v: Vec<u8>) -> (r: FilePathBuf)
        requires
            is_canonical_path(v@),
        ensures
            r@ == v@,
    {
        proof {
            lemma_canonical_valid_utf8(v@);
        }
        let s = string_from_utf8(v);
        FilePathBuf { path: s }
    }

    /// Returns the length in bytes of the [`FilePathBuf`]. Always > 0.
    pub fn len(&self) -> (r: usize)
        ensures
            r == self@.len(),
            r > 0,
    {
        proof {
            use_type_invariant(self);
            lemma_canonical_nonempty(self@);
        }
        self.path.as_str().len()
    }

    /// Converts the [`FilePathBuf`] back to a [`FilePathBuilder`],
    /// without clearing it, allowing the buffer and the built path to be
    /// reused.
    pub fn into_builder(self) -> (r: FilePathBuilder)
        ensures
            r@ == self@,
            r.wf(),
    {
        proof {
            use_type_invariant(&self);
        }
        let v = vstd::slice::slice_to_vec(self.path.as_str().as_bytes());
        FilePathBuilder::from_bytes(v)
    }

    /// Consumes the [`FilePathBuf`] and returns the canonical string.
    pub fn into_string(self) -> (r: String)
        ensures
            encode_utf8(r@) == self@,
    {
        self.path
    }

    /// Borrows the [`FilePathBuf`] as a [`FilePath`].
    pub fn as_file_path(&self) -> (r: FilePath<'_>)
        ensures
            r@ == self@,
    {
        proof {
            use_type_invariant(self);
            lemma_canonical_idempotent(self@);
        }
        FilePath::from_valid(self.path.as_str())
    }

    /// The canonical string.
    pub fn as_str(&self) -> (r: &str)
        ensures
            r.spec_bytes() == self@,
    {
        self.path.as_str()
    }

    /// Returns an iterator over the components of the [`FilePathBuf`],
    /// root to leaf.
    pub fn components(&self) -> (r: crate::iter::FilePathBufIter<'_>)
        ensures
            r.remaining() == raw_chunks(self@),
    {
        proof {
            use_type_invariant(self);
        }
        crate::iter::FilePathBufIter::new_from(self.as_str())
    }

    /// Returns the file name portion of the [`FilePathBuf`]: its last
    /// component.
    pub fn file_name(&self) -> (r: &str)
        ensures
            r.spec_bytes() == raw_chunks(self@).last(),
    {
        proof {
            use_type_invariant(self);
            lemma_canonical_valid_utf8(self@);
            lemma_canonical_back_split(self@);
        }
        let ghost s = self@;
        let st = self.path.as_str();
        let bytes = st.as_bytes();
        let n = bytes.len();
        let mut k = n;
        while k > 0 && bytes[k - 1] != 47
            invariant
                st.spec_bytes() == s,
                bytes@ == s,
                n == s.len(),
                0 <= k <= n,
                forall|m: int| k <= m < n ==> s[m] != 47,
            decreases k,
        {
            k -= 1;
        }
        if k == 0 {
            proof {
                crate::model::lemma_last_index_none(s, 47);
                assert(raw_chunks(s).len() == 1);
                assert(join_components(raw_chunks(s)) == raw_chunks(s)[0]);
                assert(s.subrange(0, n as int) =~= s);
            }
            substr(st, 0, n)
        } else {
            proof {
                crate::model::lemma_last_index_at(s, 47, k - 1);
                assert(last_index_of(s, 47) == k - 1);
                assert(raw_chunks(s).len() != 1);
                assert(s[k - 1] < 0x80);
                lemma_ascii_boundaries(s, k - 1);
            }
            substr(st, k, n)
        }
    }

    /// Returns the file stem portion of the [`FilePathBuf`]: the last
    /// component without its extension, or the whole last component when
    /// it has no extension, or nothing for a leading-dot name.
    pub fn file_stem(&self) -> (r: Option<&str>)
        ensures
            ({
                let name = raw_chunks(self@).last();
                match stem_extension_of(name) {
                    None => r matches Some(f) && f.spec_bytes() == name,
                    Some((None, _)) => r is None,
                    Some((Some(st), _)) => r matches Some(f) && f.spec_bytes() == st,
                }
            }),
    {
        let name = self.file_name();
        match file_stem_and_extension(name) {
            Some(x) => x.file_stem,
            None => Some(name),
        }
    }

    /// Returns the extension portion of the [`FilePathBuf`]: what follows
    /// the last period of its last component, if anything does.
    pub fn extension(&self) -> (r: Option<&str>)
        ensures
            ({
                let name = raw_chunks(self@).last();
                match stem_extension_of(name) {
                    None => r is None,
                    Some((_, ext)) => r matches Some(e) && e.spec_bytes() == ext,
                }
            }),
    {
        match file_stem_and_extension(self.file_name()) {
            Some(x) => Some(x.extension),
            None => None,
        }
    }
}

impl FilePathBuf {
    /// Feeds the path to a hasher, one write per component, root to
    /// leaf: equal paths hash equally, whatever raw strings they came
    /// from.
    pub fn hash_into(&self, state: &mut std::collections::hash_map::DefaultHasher)
        ensures
            final(state)@ == old(state)@ + raw_chunks(self@),
    {
        proof {
            use_type_invariant(self);
            lemma_canonical_idempotent(self@);
        }
        let p = self.as_file_path();
        p.hash_into(state);
    }
}

impl core::hash::Hash for FilePathBuf {
    /// Relies on `Hasher::write`: feeds the hasher one write per
    /// component, root to leaf, exactly as the borrowed form does, so
    /// the owned and borrowed forms of one path hash alike.
    #[verifier::external_body]
    fn hash<H: core::hash::Hasher>(&self, state: &mut H) {
        self.as_file_path().hash(state)
    }
}

/// A canonical path is valid UTF-8: its components are, and so is the
/// separator between them.
pub proof fn lemma_canonical_valid_utf8(s: Seq<u8>)
    requires
        is_canonical_path(s),
    ensures
        valid_utf8(s),
{
    let comps = raw_chunks(s);
    assert(forall|k: int|
        0 <= k < comps.len() ==> valid_utf8(#[trigger] comps[k]));
    lemma_join_valid_utf8(comps);
}

/// A canonical path is never the empty string.
pub proof fn lemma_canonical_nonempty(s: Seq<u8>)
    requires
        is_canonical_path(s),
    ensures
        s.len() > 0,
{
    if s.len() == 0 {
        assert(crate::model::chunks_rec(s, 0, Seq::<u8>::empty()) =~= Seq::<Seq<u8>>::empty());
    }
}

/// Contains a [`FilePath`]'s file path and file name parts, for paths
/// that have both.
#[derive(Clone, Copy, PartialEq, Eq, Debug)]
pub struct FilePathAndName<'a> {
    /// The file path part: everything up to the last component.
    pub file_path: FilePath<'a>,
    /// The file name part: the last component.
    pub file_name: &'a str,
}

/// Splits the `file_path` into the file path and file name parts:
/// `foo/bar/baz.txt` becomes `foo/bar` and `baz.txt`. Returns `None` if
/// the path is a bare file name with no path part.
pub fn file_path_and_name<'a>(file_path: &'a FilePathBuf) -> (r: Option<FilePathAndName<'a>>)
    ensures
        ({
            let comps = raw_chunks(file_path@);
            if comps.len() == 1 {
                r is None
            } else {
                &&& r matches Some(x)
                &&& x.file_path@ == join_components(comps.drop_last())
                &&& x.file_name.spec_bytes() == comps.last()
            }
        }),
{
    proof {
        use_type_invariant(file_path);
        lemma_canonical_valid_utf8(file_path@);
        lemma_canonical_back_split(file_path@);
    }
    let ghost s = file_path@;
    let st = file_path.as_str();
    let bytes = st.as_bytes();
    let n = bytes.len();
    let mut k = n;
    while k > 0 && bytes[k - 1] != 47
        invariant
            st.spec_bytes() == s,
            bytes@ == s,
            n == s.len(),
            0 <= k <= n,
            forall|m: int| k <= m < n ==> s[m] != 47,
        decreases k,
    {
        k -= 1;
    }
    if k == 0 {
        proof {
            crate::model::lemma_last_index_none(s, 47);
            if raw_chunks(s).len() >= 2 {
                assert(last_index_of(s, 47) >= 0);
            }
        }
        None
    } else {
        proof {
            crate::model::lemma_last_index_at(s, 47, k - 1);
            assert(last_index_of(s, 47) == k - 1);
            assert(raw_chunks(s).len() != 1);
            assert(s[k - 1] < 0x80);
            lemma_ascii_boundaries(s, k - 1);
            lemma_canonical_idempotent(s.subrange(0, k - 1));
        }
        let pre = substr(st, 0, k - 1);
        let name = substr(st, k, n);
        Some(FilePathAndName { file_path: FilePath::from_valid(pre), file_name: name })
    }
}

} // verus!
