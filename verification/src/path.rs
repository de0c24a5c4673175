//! The borrowed path type: a validated view of a candidate string.

use vstd::prelude::*;
use core::hash::Hasher;
use vstd::std_specs::cmp::PartialEqSpec;
use vstd::std_specs::hash::DefaultHasherAdditionalSpecFns;
use vstd::string::StringSliceAdditionalSpecFns;
use vstd::utf8::*;

use crate::error::FilePathError;
use crate::model::{
    canonical_form, chunks_rec, is_sep_byte, path_components, path_outcome, raw_chunks,
    walk_chunks, PathIssue,
};
use crate::pathbuf::FilePathBuf;
use crate::unicode::{lemma_ascii_boundaries, substr};
use crate::util::{canonicalize_bytes, file_stem_and_extension, stem_extension_of, validate_path};

verus! {

broadcast use vstd::utf8::encode_utf8_valid_utf8, vstd::utf8::is_char_boundary_iff_not_is_continuation_byte, vstd::utf8::is_char_boundary_start_end_of_seq;

/// Non-empty, relative UTF-8 file system path, validated but not
/// canonicalized: the underlying string may still use either separator,
/// repeat separators, and hold interior `.` segments. Two [`FilePath`]s
/// are equal when they decompose into the same components, even when the
/// underlying strings differ; [`FilePath::to_owned`] canonicalizes into a
/// [`FilePathBuf`].
#[derive(Clone, Copy, Debug)]
pub struct FilePath<'a> {
    pub(crate) path: &'a str,
}

impl<'a> View for FilePath<'a> {
    type V = Seq<u8>;

    /// The abstract value: the UTF-8 bytes of the underlying string.
    closed spec fn view(&self) -> Seq<u8> {
        self.path.spec_bytes()
    }
}

impl<'a> FilePath<'a> {
    /// The underlying string always passes the whole-path validation.
    #[verifier::type_invariant]
    pub closed spec fn wf(self) -> bool {
        path_outcome(self@) is Ok
    }

    /// Tries to create a [`FilePath`] over the candidate `path` string,
    /// returning the first validation error if there is one.
    pub fn new(path: &'a str) -> (r: Result<FilePath<'a>, FilePathError>)
        ensures
            match path_outcome(path.spec_bytes()) {
                Ok(_) => r matches Ok(p) && p@ == path.spec_bytes(),
                Err(issue) => r matches Err(e) && e@ == issue,
            },
    {
        match validate_path(path.as_bytes()) {
            Ok(_) => Ok(FilePath { path }),
            Err(e) => Err(e),
        }
    }

    /// Wraps a string already known to pass validation.
    pub(crate) fn from_valid(path: &'a str) -> (r: FilePath<'a>)
        requires
            path_outcome(path.spec_bytes()) is Ok,
        ensures
            r@ == path.spec_bytes(),
    {
        FilePath { path }
    }

    /// Returns the length in bytes of the [`FilePath`]. Always > 0.
    pub fn len(&self) -> (r: usize)
        ensures
            r == self@.len(),
            r > 0,
    {
        proof {
            use_type_invariant(self);
            if self@.len() == 0 {
                assert(raw_chunks(self@) =~= Seq::<Seq<u8>>::empty());
                assert(walk_chunks(raw_chunks(self@), true, seq![]) == Ok::<_, PathIssue>(
                    Seq::<Seq<u8>>::empty(),
                ));
            }
        }
        let bytes = self.path.as_bytes();
        bytes.len()
    }

    /// The underlying string, unchanged.
    pub fn as_str(&self) -> (r: &'a str)
        ensures
            r.spec_bytes() == self@,
    {
        self.path
    }

    /// The components of the path, root to leaf: every ordinary segment,
    /// in order, with separators and interior `.` segments gone.
    pub fn components(&self) -> (r: Vec<&'a str>)
        ensures
            r@.len() == path_components(self@).len(),
            forall|k: int|
                0 <= k < r@.len() ==> (#[trigger] r@[k]).spec_bytes() == path_components(
                    self@,
                )[k],
    {
        proof {
            use_type_invariant(self);
        }
        let ghost s = self@;
        let ghost comps = path_components(s);
        let bytes = self.path.as_bytes();
        let n = bytes.len();
        let mut out: Vec<&'a str> = Vec::new();
        let mut i: usize = 0;
        let mut first: bool = true;
        let ghost mut acc: Seq<Seq<u8>> = seq![];
        while i < n
            invariant
                self@ == s,
                self.path.spec_bytes() == s,
                path_outcome(s) == Ok::<_, PathIssue>(comps),
                bytes@ == s,
                n == s.len(),
                0 <= i <= n,
                i == 0 || i == n || is_sep_byte(s[i - 1]) || is_sep_byte(s[i as int]),
                walk_chunks(raw_chunks(s), true, seq![]) == walk_chunks(
                    chunks_rec(s, i as int, seq![]),
                    first,
                    acc,
                ),
                out@.len() == acc.len(),
                forall|k: int|
                    0 <= k < out@.len() ==> (#[trigger] out@[k]).spec_bytes() == acc[k],
            decreases n - i,
        {
            if bytes[i] == 47 || bytes[i] == 92 {
                proof {
                    assert(chunks_rec(s, i as int, Seq::<u8>::empty()) == chunks_rec(
                        s,
                        i as int + 1,
                        seq![],
                    ));
                }
                i += 1;
            } else {
                let mut j = i + 1;
                while j < n && !(bytes[j] == 47 || bytes[j] == 92)
                    invariant
                        bytes@ == s,
                        n == s.len(),
                        0 <= i < j <= n,
                        forall|m: int| i <= m < j ==> !is_sep_byte(#[trigger] s[m]),
                    decreases n - j,
                {
                    j += 1;
                }
                let ghost chunk = s.subrange(i as int, j as int);
                proof {
                    crate::model::lemma_chunks_run(s, i as int, j as int, seq![]);
                    assert(Seq::<u8>::empty() + s.subrange(i as int, j as int) =~= chunk);
                    assert(chunks_rec(s, i as int, seq![]) == seq![chunk] + chunks_rec(
                        s,
                        j as int,
                        seq![],
                    ));
                    assert((seq![chunk] + chunks_rec(s, j as int, Seq::<u8>::empty()))[0]
                        == chunk);
                    assert((seq![chunk] + chunks_rec(s, j as int, Seq::<u8>::empty())).drop_first()
                        =~= chunks_rec(s, j as int, seq![]));
                    // boundaries of the chunk
                    assert(valid_utf8(s));
                    if i > 0 {
                        assert(is_sep_byte(s[i - 1]));
                        lemma_ascii_boundaries(s, i - 1);
                    }
                    if j < n {
                        assert(is_sep_byte(s[j as int]));
                        assert(!is_continuation_byte(s[j as int]));
                    }
                }
                if j - i == 1 && bytes[i] == 46 {
                    proof {
                        assert(chunk =~= seq![46u8]);
                        if first {
                            assert(path_outcome(s) is Err);
                        }
                    }
                } else {
                    proof {
                        assert(chunk != seq![46u8]) by {
                            if chunk == seq![46u8] {
                                assert(chunk.len() == 1 && chunk[0] == 46);
                            }
                        }
                        // the walk accepts this chunk: anything else would
                        // make the whole path invalid
                        if chunk == seq![46u8, 46u8] {
                            assert(path_outcome(s) is Err);
                        }
                        if valid_utf8(chunk) && crate::model::component_issue(chunk) is None {
                        } else {
                            assert(path_outcome(s) is Err);
                        }
                    }
                    let piece = substr(self.path, i, j);
                    out.push(piece);
                    proof {
                        acc = acc.push(chunk);
                    }
                }
                i = j;
                first = false;
            }
        }
        proof {
            assert(chunks_rec(s, n as int, Seq::<u8>::empty()) =~= Seq::<Seq<u8>>::empty());
            assert(walk_chunks(raw_chunks(s), true, seq![]) == Ok::<_, PathIssue>(acc));
            assert(comps == acc);
        }
        out
    }

    /// Canonicalizes into an owned [`FilePathBuf`]: the same components,
    /// joined with single forward slashes.
    pub fn to_owned(&self) -> (r: FilePathBuf)
        ensures
            r@ == canonical_form(self@),
    {
        proof {
            use_type_invariant(self);
        }
        match canonicalize_bytes(self.path.as_bytes()) {
            Ok(v) => FilePathBuf::from_canonical(v),
            Err(_) => vstd::pervasive::unreached(),
        }
    }

    /// Returns the file name portion of the [`FilePath`]: its last
    /// component.
    pub fn file_name(&self) -> (r: &'a str)
        ensures
            r.spec_bytes() == path_components(self@).last(),
    {
        proof {
            use_type_invariant(self);
            if path_components(self@).len() == 0 {
                assert(path_outcome(self@) is Err);
            }
        }
        let comps = self.components();
        comps[comps.len() - 1]
    }

    /// Returns the file stem portion of the [`FilePath`]: the last
    /// component without its extension, or the whole last component when
    /// it has no extension, or nothing when the last component is all
    /// extension (a leading-dot name).
    pub fn file_stem(&self) -> (r: Option<&'a str>)
        ensures
            ({
                let name = path_components(self@).last();
                match stem_extension_of(name) {
                    None => r matches Some(f) && f.spec_bytes() == name,
                    Some((None, _)) => r is None,
                    Some((Some(st), _)) => r matches Some(f) && f.spec_bytes() == st,
                }
            }),
    {
        let name = self.file_name();
        match file_stem_and_extension(name) {
            Some(x) => x.file_stem,
            None => Some(name),
        }
    }

    /// Returns the extension portion of the [`FilePath`]: what follows
    /// the last period of its last component, if anything does.
    pub fn extension(&self) -> (r: Option<&'a str>)
        ensures
            ({
                let name = path_components(self@).last();
                match stem_extension_of(name) {
                    None => r is None,
                    Some((_, ext)) => r matches Some(e) && e.spec_bytes() == ext,
                }
            }),
    {
        match file_stem_and_extension(self.file_name()) {
            Some(x) => Some(x.extension),
            None => None,
        }
    }
}

/// Compares two strings byte for byte.
pub(crate) fn str_bytes_eq(a: &str, b: &str) -> (r: bool)
    ensures
        r == (a.spec_bytes() == b.spec_bytes()),
{
    let ab = a.as_bytes();
    let bb = b.as_bytes();
    if ab.len() != bb.len() {
        return false;
    }
    let n = ab.len();
    let mut i: usize = 0;
    while i < n
        invariant
            ab@ == a.spec_bytes(),
            bb@ == b.spec_bytes(),
            n == ab@.len() == bb@.len(),
            0 <= i <= n,
            forall|m: int| 0 <= m < i ==> ab@[m] == bb@[m],
        decreases n - i,
    {
        if ab[i] != bb[i] {
            return false;
        }
        i += 1;
    }
    proof {
        assert(a.spec_bytes() =~= b.spec_bytes());
    }
    true
}

impl<'a> PartialEq for FilePath<'a> {
    /// Two paths are equal when their component sequences are, compared
    /// leaf to root: structurally different strings that decompose alike
    /// are the same path.
    fn eq(&self, other: &Self) -> (r: bool) {
        proof {
            use_type_invariant(self);
            use_type_invariant(other);
        }
        let va = self.components();
        let vb = other.components();
        let ghost ca = path_components(self@);
        let ghost cb = path_components(other@);
        if va.len() != vb.len() {
            proof {
                assert(ca.len() != cb.len());
            }
            return false;
        }
        let n = va.len();
        let mut k = n;
        while k > 0
            invariant
                ca == path_components(self@),
                cb == path_components(other@),
                va@.len() == ca.len(),
                vb@.len() == cb.len(),
                forall|m: int| 0 <= m < va@.len() ==> (#[trigger] va@[m]).spec_bytes() == ca[m],
                forall|m: int| 0 <= m < vb@.len() ==> (#[trigger] vb@[m]).spec_bytes() == cb[m],
                n == ca.len() == cb.len(),
                0 <= k <= n,
                forall|m: int| k <= m < n ==> ca[m] == cb[m],
            decreases k,
        {
            if !str_bytes_eq(va[k - 1], vb[k - 1]) {
                proof {
                    assert(ca[k - 1] != cb[k - 1]);
                }
                return false;
            }
            k -= 1;
        }
        proof {
            assert(ca =~~= cb);
        }
        true
    }
}

impl<'a> Eq for FilePath<'a> {

}

impl<'a> vstd::std_specs::cmp::PartialEqSpecImpl for FilePath<'a> {
    open spec fn obeys_eq_spec() -> bool {
        true
    }

    open spec fn eq_spec(&self, other: &Self) -> bool {
        path_components(self@) == path_components(other@)
    }
}

impl<'a> FilePath<'a> {
    /// Feeds the path to a hasher, one write per component, root to
    /// leaf: the hash depends on the component sequence alone, never on
    /// separators or other formatting of the underlying string.
    pub fn hash_into(&self, state: &mut std::collections::hash_map::DefaultHasher)
        ensures
            final(state)@ == old(state)@ + path_components(self@),
    {
        let ghost comps = path_components(self@);
        let parts = self.components();
        let n = parts.len();
        let mut k: usize = 0;
        while k < n
            invariant
                comps == path_components(self@),
                parts@.len() == comps.len(),
                forall|m: int|
                    0 <= m < parts@.len() ==> (#[trigger] parts@[m]).spec_bytes() == comps[m],
                n == comps.len(),
                0 <= k <= n,
                state@ == old(state)@ + comps.take(k as int),
            decreases n - k,
        {
            proof {
                assert(comps.take(k as int).push(comps[k as int]) =~= comps.take(k as int + 1));
                assert((old(state)@ + comps.take(k as int)).push(comps[k as int]) =~= old(
                    state,
                )@ + comps.take(k as int + 1));
            }
            state.write(parts[k].as_bytes());
            k += 1;
        }
        proof {
            assert(comps.take(n as int) =~= comps);
        }
    }
}

impl<'a> core::hash::Hash for FilePath<'a> {
    /// Relies on `Hasher::write`: feeds the hasher one write per
    /// component, root to leaf, exactly as [`FilePath::hash_into`] does
    /// for the default hasher; the bytes written are a function of the
    /// component sequence alone.
    #[verifier::external_body]
    fn hash<H: core::hash::Hasher>(&self, state: &mut H) {
        for component in self.components() {
            state.write(component.as_bytes());
        }
    }
}

/// Hash/equality coherence: two equal paths write the same byte groups
/// to a hasher, so from any common starting state the hasher finishes
/// with the same value for both.
pub proof fn lemma_hash_equality_coherence(a: FilePath, b: FilePath, writes: Seq<Seq<u8>>)
    requires
        a.eq_spec(&b),
    ensures
        std::collections::hash_map::DefaultHasher::spec_finish(writes + path_components(a@))
            == std::collections::hash_map::DefaultHasher::spec_finish(
            writes + path_components(b@),
        ),
{
}

} // verus!
