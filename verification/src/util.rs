//! The validation and canonicalization engine: single-component checks,
//! whole-path decomposition, and the construction of the canonical form.

use vstd::prelude::*;
use vstd::slice::slice_subrange;
use vstd::string::StringSliceAdditionalSpecFns;
use vstd::utf8::*;

use crate::error::FilePathError;
use crate::model::{
    chunks_rec, component_issue, component_ok, first_forbidden_index, is_canonical_path,
    join_components, lemma_component_ok_no_sep, lemma_join_push, lemma_join_then_chunks,
    lemma_sep_valid_utf8, path_outcome, raw_chunks, walk_chunks, ComponentIssue, PathIssue,
};
use crate::reserved::reserved_component_check;
use crate::trusted::string_from_utf8;
use crate::unicode::{is_valid_utf8, lemma_ascii_boundaries};
use crate::{MAX_COMPONENT_LEN, MAX_PATH_LEN, SEPARATOR_BYTE};

verus! {

/// Why one component was rejected; the executable mirror of
/// [`ComponentIssue`], before a location context is attached.
enum CompError {
    TooLong(usize),
    EndsPeriod,
    EndsSpace,
    BadChar(u8),
    Reserved,
}

/// Checks one component, in the fixed priority order: length, trailing
/// period, trailing space, forbidden characters, reserved names.
fn component_error(c: &[u8]) -> (r: Option<CompError>)
    ensures
        ({
            let issue = component_issue(c@);
            match r {
                None => issue is None,
                Some(CompError::TooLong(m)) => issue == Some(ComponentIssue::TooLong(m as int)),
                Some(CompError::EndsPeriod) => issue == Some(ComponentIssue::EndsWithPeriod),
                Some(CompError::EndsSpace) => issue == Some(ComponentIssue::EndsWithSpace),
                Some(CompError::BadChar(b)) => issue == Some(ComponentIssue::BadChar(b)),
                Some(CompError::Reserved) => issue == Some(ComponentIssue::Reserved),
            }
        }),
{
    let n = c.len();
    if n > MAX_COMPONENT_LEN {
        return Some(CompError::TooLong(n));
    }
    if n > 0 && c[n - 1] == 46 {
        return Some(CompError::EndsPeriod);
    }
    if n > 0 && c[n - 1] == 32 {
        return Some(CompError::EndsSpace);
    }
    let mut i: usize = 0;
    while i < n
        invariant
            n == c@.len(),
            0 <= i <= n,
            n <= MAX_COMPONENT_LEN,
            n > 0 ==> c@.last() != 46 && c@.last() != 32,
            first_forbidden_index(c@, 0) == first_forbidden_index(c@, i as int),
        decreases n - i,
    {
        let b = c[i];
        if b < 0x20 || b == 0x7f || b == 92 || b == 47 || b == 58 || b == 42 || b == 63 || b == 34
            || b == 60 || b == 62 || b == 124 {
            proof {
                assert(first_forbidden_index(c@, i as int) == i);
            }
            return Some(CompError::BadChar(b));
        }
        i += 1;
    }
    proof {
        assert(first_forbidden_index(c@, n as int) == -1);
    }
    if reserved_component_check(c) {
        return Some(CompError::Reserved);
    }
    None
}

/// Attempts to validate the file path `component` in isolation, reporting
/// the first applicable error with `context` as its location. The checks
/// run in a fixed priority order, so a component failing several of them
/// is always rejected for the same reason: over-length first, then a
/// trailing period or space, then the leftmost forbidden character, then
/// a reserved device name.
pub fn validate_path_component(component: &str, context: &str) -> (r: Result<(), FilePathError>)
    ensures
        ({
            let issue = component_issue(component.spec_bytes());
            match issue {
                None => r is Ok,
                Some(ComponentIssue::TooLong(m)) => r matches Err(
                    FilePathError::ComponentTooLong(p, l),
                ) && p@ == context@ && l == m,
                Some(ComponentIssue::EndsWithPeriod) => r matches Err(
                    FilePathError::ComponentEndsWithAPeriod(p),
                ) && p@ == context@,
                Some(ComponentIssue::EndsWithSpace) => r matches Err(
                    FilePathError::ComponentEndsWithASpace(p),
                ) && p@ == context@,
                Some(ComponentIssue::BadChar(b)) => r matches Err(
                    FilePathError::InvalidCharacter(p, ch),
                ) && p@ == context@ && ch == b as char,
                Some(ComponentIssue::Reserved) => r matches Err(
                    FilePathError::ReservedName(p),
                ) && p@ == context@,
            }
        }),
{
    match component_error(component.as_bytes()) {
        None => Ok(()),
        Some(CompError::TooLong(m)) => Err(
            FilePathError::ComponentTooLong(context.to_owned(), m),
        ),
        Some(CompError::EndsPeriod) => Err(
            FilePathError::ComponentEndsWithAPeriod(context.to_owned()),
        ),
        Some(CompError::EndsSpace) => Err(
            FilePathError::ComponentEndsWithASpace(context.to_owned()),
        ),
        Some(CompError::BadChar(b)) => Err(
            FilePathError::InvalidCharacter(context.to_owned(), b as char),
        ),
        Some(CompError::Reserved) => Err(FilePathError::ReservedName(context.to_owned())),
    }
}

/// Reports whether the `component` is legal as a single file path
/// component: non-empty and free of every component-shape fault.
/// `.` and `..` are rejected here too: both end in a period.
pub fn is_valid_path_component(component: &str) -> (r: bool)
    ensures
        r == (component.spec_bytes().len() > 0 && component_issue(component.spec_bytes()) is None),
{
    if component.is_empty() {
        proof {
            assert(component.spec_bytes() =~= encode_utf8(component@));
        }
        return false;
    }
    proof {
        if component.spec_bytes().len() == 0 {
            broadcast use vstd::utf8::encode_utf8_decode_utf8;

            assert(decode_utf8(encode_utf8(component@)) == component@);
            assert(component@.len() == 0);
        }
    }
    match component_error(component.as_bytes()) {
        None => true,
        Some(_) => false,
    }
}

/// The canonicalizing decomposer: splits the candidate bytes into native
/// chunks, classifies and validates each in order, and accumulates the
/// canonical form. Returns the canonical byte string, or the first error
/// with its location context.
pub(crate) fn canonicalize_bytes(path: &[u8]) -> (r: Result<Vec<u8>, FilePathError>)
    ensures
        match path_outcome(path@) {
            Ok(comps) => r matches Ok(v) && v@ == join_components(comps) && is_canonical_path(
                v@,
            ),
            Err(issue) => r matches Err(e) && e@ == issue,
        },
{
    let ghost s = path@;
    let n = path.len();
    if n >= 2 && ((65 <= path[0] && path[0] <= 90) || (97 <= path[0] && path[0] <= 122)) && path[1]
        == 58 {
        return Err(FilePathError::PrefixedPath);
    }
    if n >= 3 && (path[0] == 47 || path[0] == 92) && (path[1] == 47 || path[1] == 92) && !(path[2]
        == 47 || path[2] == 92) {
        return Err(FilePathError::PrefixedPath);
    }
    if n >= 1 && (path[0] == 47 || path[0] == 92) {
        return Err(FilePathError::RootDirectory);
    }
    let mut buf: Vec<u8> = Vec::new();
    let mut i: usize = 0;
    let mut first: bool = true;
    let ghost mut acc: Seq<Seq<u8>> = seq![];
    while i < n
        invariant
            path@ == s,
            n == s.len(),
            0 <= i <= n,
            !crate::model::has_drive_prefix(s),
            !crate::model::has_unc_prefix(s),
            n > 0 ==> !crate::model::is_sep_byte(s[0]),
            walk_chunks(raw_chunks(s), true, seq![]) == walk_chunks(
                chunks_rec(s, i as int, seq![]),
                first,
                acc,
            ),
            buf@ == join_components(acc),
            forall|k: int| 0 <= k < acc.len() ==> component_ok(#[trigger] acc[k]),
            acc.len() == 0 <==> buf@.len() == 0,
            valid_utf8(buf@),
        decreases n - i,
    {
        if path[i] == 47 || path[i] == 92 {
            proof {
                assert(chunks_rec(s, i as int, Seq::<u8>::empty()) == chunks_rec(
                    s,
                    i as int + 1,
                    seq![],
                ));
            }
            i += 1;
        } else {
            let mut j = i + 1;
            while j < n && !(path[j] == 47 || path[j] == 92)
                invariant
                    path@ == s,
                    n == s.len(),
                    0 <= i < j <= n,
                    forall|m: int| i <= m < j ==> !crate::model::is_sep_byte(#[trigger] s[m]),
                decreases n - j,
            {
                j += 1;
            }
            let ghost chunk = s.subrange(i as int, j as int);
            proof {
                crate::model::lemma_chunks_run(s, i as int, j as int, seq![]);
                assert(Seq::<u8>::empty() + s.subrange(i as int, j as int) =~= chunk);
                assert(chunks_rec(s, i as int, seq![]) == seq![chunk] + chunks_rec(
                    s,
                    j as int,
                    seq![],
                ));
            }
            let ghost rest = chunks_rec(s, j as int, Seq::<u8>::empty());
            proof {
                assert((seq![chunk] + rest)[0] == chunk);
                assert((seq![chunk] + rest).drop_first() =~= rest);
            }
            let c = slice_subrange(path, i, j);
            if c.len() == 1 && c[0] == 46 {
                proof {
                    assert(chunk =~= seq![46u8]);
                }
                if first {
                    let ctx = string_from_utf8(buf);
                    return Err(FilePathError::CurrentDirectory(ctx));
                }
                // an interior `.` chunk is dropped, as native splitting drops it
            } else if c.len() == 2 && c[0] == 46 && c[1] == 46 {
                proof {
                    assert(chunk != seq![46u8]);
                    assert(chunk =~= seq![46u8, 46u8]);
                }
                let ctx = string_from_utf8(buf);
                return Err(FilePathError::ParentDirectory(ctx));
            } else {
                proof {
                    assert(chunk != seq![46u8]) by {
                        if chunk == seq![46u8] {
                            assert(chunk.len() == 1 && chunk[0] == 46);
                        }
                    }
                    assert(chunk != seq![46u8, 46u8]) by {
                        if chunk == seq![46u8, 46u8] {
                            assert(chunk.len() == 2 && chunk[0] == 46 && chunk[1] == 46);
                        }
                    }
                }
                if !is_valid_utf8(c) {
                    let ctx = string_from_utf8(buf);
                    return Err(FilePathError::InvalidUTF8(ctx));
                }
                match component_error(c) {
                    Some(err) => {
                        let mut ctx_bytes = buf;
                        let ghost old_ctx = ctx_bytes@;
                        if ctx_bytes.len() > 0 {
                            ctx_bytes.push(SEPARATOR_BYTE);
                        }
                        ctx_bytes.extend_from_slice(c);
                        proof {
                            lemma_join_push(acc, chunk);
                            lemma_sep_valid_utf8();
                            if old_ctx.len() > 0 {
                                assert(ctx_bytes@ =~= old_ctx + seq![SEPARATOR_BYTE] + chunk);
                                valid_utf8_concat(old_ctx, seq![SEPARATOR_BYTE]);
                                valid_utf8_concat(old_ctx + seq![SEPARATOR_BYTE], chunk);
                            } else {
                                assert(ctx_bytes@ =~= chunk);
                            }
                            assert(ctx_bytes@ == join_components(acc.push(chunk)));
                        }
                        let ctx = string_from_utf8(ctx_bytes);
                        return Err(
                            match err {
                                CompError::TooLong(m) => FilePathError::ComponentTooLong(ctx, m),
                                CompError::EndsPeriod => FilePathError::ComponentEndsWithAPeriod(
                                    ctx,
                                ),
                                CompError::EndsSpace => FilePathError::ComponentEndsWithASpace(
                                    ctx,
                                ),
                                CompError::BadChar(b) => FilePathError::InvalidCharacter(
                                    ctx,
                                    b as char,
                                ),
                                CompError::Reserved => FilePathError::ReservedName(ctx),
                            },
                        );
                    },
                    None => {
                        let ghost old_buf = buf@;
                        if buf.len() > 0 {
                            buf.push(SEPARATOR_BYTE);
                        }
                        buf.extend_from_slice(c);
                        proof {
                            lemma_join_push(acc, chunk);
                            lemma_sep_valid_utf8();
                            if old_buf.len() > 0 {
                                assert(buf@ =~= old_buf + seq![SEPARATOR_BYTE] + chunk);
                                valid_utf8_concat(old_buf, seq![SEPARATOR_BYTE]);
                                valid_utf8_concat(old_buf + seq![SEPARATOR_BYTE], chunk);
                            } else {
                                assert(buf@ =~= chunk);
                            }
                            assert(component_ok(chunk));
                            acc = acc.push(chunk);
                            assert(buf@ == join_components(acc));
                            assert(forall|k: int|
                                0 <= k < acc.len() ==> component_ok(#[trigger] acc[k]));
                        }
                    },
                }
            }
            i = j;
            first = false;
        }
    }
    proof {
        assert(chunks_rec(s, n as int, Seq::<u8>::empty()) =~= Seq::<Seq<u8>>::empty());
        assert(walk_chunks(raw_chunks(s), true, seq![]) == Ok::<_, PathIssue>(acc));
    }
    if buf.len() == 0 {
        return Err(FilePathError::EmptyPath);
    }
    if buf.len() > MAX_PATH_LEN {
        let total = buf.len();
        return Err(FilePathError::PathTooLong(total));
    }
    proof {
        assert forall|k: int|
            0 <= k < acc.len() implies (#[trigger] acc[k]).len() > 0 && forall|m: int|
                0 <= m < acc[k].len() ==> !crate::model::is_sep_byte(#[trigger] acc[k][m]) by {
            lemma_component_ok_no_sep(acc[k]);
        }
        lemma_join_then_chunks(acc);
        assert(is_canonical_path(buf@));
    }
    Ok(buf)
}

/// What splitting a file name at its last period yields: the stem, if
/// the period is not the first character, and the extension.
pub open spec fn stem_extension_of(c: Seq<u8>) -> Option<(Option<Seq<u8>>, Seq<u8>)> {
    let k = crate::model::last_index_of(c, 46);
    if k < 0 {
        None
    } else {
        let ext = c.subrange(k + 1, c.len() as int);
        if ext.len() == 0 {
            None
        } else {
            Some(
                (
                    if k == 0 {
                        None
                    } else {
                        Some(c.subrange(0, k))
                    },
                    ext,
                ),
            )
        }
    }
}

/// Result of splitting a file path component into the file stem and
/// extension parts: the component has an extension and a possibly absent
/// file stem. A leading-dot name like `.gitignore` has no stem and the
/// extension `gitignore`, deliberately diverging from the standard
/// library's treatment of dotfiles.
#[derive(Clone, Copy, PartialEq, Eq, Debug)]
pub struct FileStemAndExtension<'a> {
    pub file_stem: Option<&'a str>,
    pub extension: &'a str,
}

/// Splits the `file_name` into the file stem and extension parts, at the
/// last period. Returns `None` if there is no period, or if the period is
/// the last character (a name ending in a period is invalid upstream
/// anyway). Everything past the last period is the extension, always:
/// `.txt` has no stem and the extension `txt`.
pub fn file_stem_and_extension<'a>(file_name: &'a str) -> (r: Option<FileStemAndExtension<'a>>)
    ensures
        match stem_extension_of(file_name.spec_bytes()) {
            None => r is None,
            Some((st, ext)) => {
                &&& r matches Some(x)
                &&& x.extension.spec_bytes() == ext
                &&& match st {
                    None => x.file_stem is None,
                    Some(sb) => x.file_stem matches Some(f) && f.spec_bytes() == sb,
                }
            },
        },
{
    let ghost s = file_name.spec_bytes();
    proof {
        broadcast use vstd::utf8::encode_utf8_valid_utf8, vstd::utf8::is_char_boundary_start_end_of_seq;

    }
    let bytes = file_name.as_bytes();
    let n = bytes.len();
    let mut k = n;
    while k > 0 && bytes[k - 1] != 46
        invariant
            s == file_name.spec_bytes(),
            bytes@ == s,
            n == s.len(),
            0 <= k <= n,
            forall|m: int| k <= m < n ==> s[m] != 46,
        decreases k,
    {
        k -= 1;
    }
    if k == 0 {
        proof {
            crate::model::lemma_last_index_none(s, 46);
        }
        return None;
    }
    let dot = k - 1;
    proof {
        crate::model::lemma_last_index_at(s, 46, dot as int);
    }
    if k == n {
        // the period is the last character: no extension
        return None;
    }
    proof {
        lemma_ascii_boundaries(s, dot as int);
    }
    let stem_str = crate::unicode::substr(file_name, 0, dot);
    let ext_str = crate::unicode::substr(file_name, dot + 1, n);
    if dot == 0 {
        Some(FileStemAndExtension { file_stem: None, extension: ext_str })
    } else {
        proof {
            assert(stem_str.spec_bytes() == s.subrange(0, dot as int));
        }
        Some(FileStemAndExtension { file_stem: Some(stem_str), extension: ext_str })
    }
}

/// Attempts to validate the candidate `path`, handed over as raw bytes in
/// the platform encoding: it may use either separator, repeat them, and
/// hold interior `.` segments, but every component must be acceptable and
/// the canonical form must fit the total length bound.
pub fn validate_path(path: &[u8]) -> (r: Result<(), FilePathError>)
    ensures
        match path_outcome(path@) {
            Ok(_) => r is Ok,
            Err(issue) => r matches Err(e) && e@ == issue,
        },
{
    match canonicalize_bytes(path) {
        Ok(_) => Ok(()),
        Err(e) => Err(e),
    }
}

} // verus!
