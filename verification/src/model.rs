//! Mathematical model of path decomposition, component validation and
//! canonicalization.
//!
//! Everything here is specification-level: candidate paths are modelled as
//! byte sequences (`Seq<u8>`, the UTF-8 encoding of the candidate string,
//! or raw bytes handed in by the host), components as the maximal runs of
//! non-separator bytes, and the canonical form as the join of the accepted
//! components with a single `/`.

use vstd::prelude::*;
use vstd::utf8::*;

use crate::reserved::is_reserved_component;
use crate::{MAX_COMPONENT_LEN, MAX_PATH_LEN, SEPARATOR_BYTE};

verus! {

/// A byte that separates path components in a candidate (native) path:
/// a forward slash or a backslash.
pub open spec fn is_sep_byte(b: u8) -> bool {
    b == 47 || b == 92
}

/// A byte that may not occur in a path component: the characters
/// `\ / : * ? " < > |` and the ASCII control codes (0x00-0x1F, 0x7F).
/// All of them are ASCII, so checking bytes and checking characters agree.
pub open spec fn is_forbidden_byte(b: u8) -> bool {
    ||| b < 0x20
    ||| b == 0x7f
    ||| b == 92
    ||| b == 47
    ||| b == 58
    ||| b == 42
    ||| b == 63
    ||| b == 34
    ||| b == 60
    ||| b == 62
    ||| b == 124
}

/// An ASCII letter, as used by the drive-prefix rule (`C:`).
pub open spec fn is_ascii_alpha(b: u8) -> bool {
    (65 <= b <= 90) || (97 <= b <= 122)
}

/// Helper for [`raw_chunks`]: walks the bytes from index `i` with the
/// partially accumulated current run `cur`.
pub open spec fn chunks_rec(s: Seq<u8>, i: int, cur: Seq<u8>) -> Seq<Seq<u8>>
    decreases s.len() - i,
{
    if i < 0 || i >= s.len() {
        if cur.len() > 0 {
            seq![cur]
        } else {
            seq![]
        }
    } else if is_sep_byte(s[i]) {
        if cur.len() > 0 {
            seq![cur] + chunks_rec(s, i + 1, seq![])
        } else {
            chunks_rec(s, i + 1, seq![])
        }
    } else {
        chunks_rec(s, i + 1, cur.push(s[i]))
    }
}

/// The maximal runs of non-separator bytes of `s`, in order. Repeated,
/// leading and trailing separators produce no chunks: this is the native
/// splitting of a candidate path, before any per-chunk classification.
pub open spec fn raw_chunks(s: Seq<u8>) -> Seq<Seq<u8>> {
    chunks_rec(s, 0, seq![])
}

/// The join of `comps` with a single `/` between consecutive components:
/// the canonical string form of a component sequence.
pub open spec fn join_components(comps: Seq<Seq<u8>>) -> Seq<u8>
    decreases comps.len(),
{
    if comps.len() == 0 {
        seq![]
    } else if comps.len() == 1 {
        comps[0]
    } else {
        comps[0] + seq![SEPARATOR_BYTE] + join_components(comps.drop_first())
    }
}

/// Index of the first forbidden byte of `s` at or after `i`, or `-1` if
/// there is none.
pub open spec fn first_forbidden_index(s: Seq<u8>, i: int) -> int
    decreases s.len() - i,
{
    if i < 0 || i >= s.len() {
        -1
    } else if is_forbidden_byte(s[i]) {
        i
    } else {
        first_forbidden_index(s, i + 1)
    }
}

/// Why a single path component is rejected, in the fixed priority order of
/// [`component_issue`].
pub enum ComponentIssue {
    /// Byte length exceeds [`MAX_COMPONENT_LEN`]; carries the length.
    TooLong(int),
    /// The last character is a period.
    EndsWithPeriod,
    /// The last character is a space.
    EndsWithSpace,
    /// A forbidden character occurs; carries the first one. Forbidden
    /// characters are all ASCII, so the byte is the character.
    BadChar(u8),
    /// The component is a reserved device name, bare or with an extension.
    Reserved,
}

/// Decides whether one non-empty path component is legal in isolation,
/// and if not, why; the checks run in this fixed order, so the issue
/// reported for a component that fails several of them is deterministic:
/// length bound first, then the trailing character, then the forbidden
/// characters scanning left to right, then the reserved-name rule.
pub open spec fn component_issue(c: Seq<u8>) -> Option<ComponentIssue> {
    if c.len() > MAX_COMPONENT_LEN {
        Some(ComponentIssue::TooLong(c.len() as int))
    } else if c.len() > 0 && c.last() == 46 {
        Some(ComponentIssue::EndsWithPeriod)
    } else if c.len() > 0 && c.last() == 32 {
        Some(ComponentIssue::EndsWithSpace)
    } else if first_forbidden_index(c, 0) >= 0 {
        Some(ComponentIssue::BadChar(c[first_forbidden_index(c, 0)]))
    } else if is_reserved_component(c) {
        Some(ComponentIssue::Reserved)
    } else {
        None
    }
}

/// A component that the validator accepts: non-empty, valid UTF-8, and
/// free of every [`ComponentIssue`].
pub open spec fn component_ok(c: Seq<u8>) -> bool {
    &&& c.len() > 0
    &&& valid_utf8(c)
    &&& component_issue(c) is None
}

/// Why a whole candidate path is rejected. The `Seq<u8>` payloads carry
/// the location context: the already-accepted components joined with `/`,
/// including the failing component itself for the component-shape errors.
pub enum PathIssue {
    /// The path starts with a drive letter (`C:`) or a UNC share (`\\s`).
    Prefixed,
    /// The path starts with a root separator.
    Root,
    /// The path starts with a `.` component.
    CurDir(Seq<u8>),
    /// A `..` component occurs.
    ParentDir(Seq<u8>),
    /// A component is empty. Native splitting never produces one (empty
    /// runs between separators are collapsed), so no path is rejected for
    /// this reason; the case exists because the error taxonomy names it.
    EmptyComp(Seq<u8>),
    /// A component's raw bytes are not valid UTF-8.
    BadUtf8(Seq<u8>),
    /// A component is longer than [`MAX_COMPONENT_LEN`]; carries its length.
    CompTooLong(Seq<u8>, int),
    /// A component holds a forbidden character; carries it.
    BadChar(Seq<u8>, char),
    /// A component ends with a period.
    EndsWithPeriod(Seq<u8>),
    /// A component ends with a space.
    EndsWithSpace(Seq<u8>),
    /// A component is a reserved device name.
    Reserved(Seq<u8>),
    /// No component at all.
    Empty,
    /// The canonical form is longer than [`MAX_PATH_LEN`]; carries its
    /// full length.
    TooLong(int),
}

/// Classifies the chunks of a candidate path in order, accumulating the
/// accepted components in `acc`. `first` is true only for the chunk at
/// index zero of the whole path: a `.` there is an error, while interior
/// `.` chunks are silently dropped, exactly as the native splitting of
/// the host platform does.
pub open spec fn walk_chunks(cs: Seq<Seq<u8>>, first: bool, acc: Seq<Seq<u8>>) -> Result<
    Seq<Seq<u8>>,
    PathIssue,
>
    decreases cs.len(),
{
    if cs.len() == 0 {
        Ok(acc)
    } else {
        let c = cs[0];
        if c == seq![46u8] {
            if first {
                Err(PathIssue::CurDir(join_components(acc)))
            } else {
                walk_chunks(cs.drop_first(), false, acc)
            }
        } else if c == seq![46u8, 46u8] {
            Err(PathIssue::ParentDir(join_components(acc)))
        } else if !valid_utf8(c) {
            Err(PathIssue::BadUtf8(join_components(acc)))
        } else {
            match component_issue(c) {
                Some(ComponentIssue::TooLong(n)) => Err(
                    PathIssue::CompTooLong(join_components(acc.push(c)), n),
                ),
                Some(ComponentIssue::EndsWithPeriod) => Err(
                    PathIssue::EndsWithPeriod(join_components(acc.push(c))),
                ),
                Some(ComponentIssue::EndsWithSpace) => Err(
                    PathIssue::EndsWithSpace(join_components(acc.push(c))),
                ),
                Some(ComponentIssue::BadChar(b)) => Err(
                    PathIssue::BadChar(join_components(acc.push(c)), b as char),
                ),
                Some(ComponentIssue::Reserved) => Err(
                    PathIssue::Reserved(join_components(acc.push(c))),
                ),
                None => walk_chunks(cs.drop_first(), false, acc.push(c)),
            }
        }
    }
}

/// The path begins with a drive prefix: an ASCII letter followed by `:`.
pub open spec fn has_drive_prefix(s: Seq<u8>) -> bool {
    s.len() >= 2 && is_ascii_alpha(s[0]) && s[1] == 58
}

/// The path begins with a UNC prefix: two separators followed by a
/// non-separator byte (the start of a server name).
pub open spec fn has_unc_prefix(s: Seq<u8>) -> bool {
    s.len() >= 3 && is_sep_byte(s[0]) && is_sep_byte(s[1]) && !is_sep_byte(s[2])
}

/// The full verdict on a candidate path, as raw bytes: either the
/// sequence of accepted components, in order, or the first reason for
/// rejection found scanning left to right. Prefixes and roots are
/// positional and rejected before any chunk is looked at; the empty-path
/// and total-length rules apply last, once every component was accepted.
pub open spec fn path_outcome(s: Seq<u8>) -> Result<Seq<Seq<u8>>, PathIssue> {
    if has_drive_prefix(s) || has_unc_prefix(s) {
        Err(PathIssue::Prefixed)
    } else if s.len() > 0 && is_sep_byte(s[0]) {
        Err(PathIssue::Root)
    } else {
        match walk_chunks(raw_chunks(s), true, seq![]) {
            Err(issue) => Err(issue),
            Ok(comps) => if comps.len() == 0 {
                Err(PathIssue::Empty)
            } else if join_components(comps).len() > MAX_PATH_LEN {
                Err(PathIssue::TooLong(join_components(comps).len() as int))
            } else {
                Ok(comps)
            },
        }
    }
}

/// The components of a valid candidate path.
pub open spec fn path_components(s: Seq<u8>) -> Seq<Seq<u8>>
    recommends
        path_outcome(s) is Ok,
{
    path_outcome(s)->Ok_0
}

/// The canonical form of a valid candidate path: its components joined
/// with a single `/`.
pub open spec fn canonical_form(s: Seq<u8>) -> Seq<u8>
    recommends
        path_outcome(s) is Ok,
{
    join_components(path_components(s))
}

/// A string that is already in canonical form: the join with single `/`
/// separators of at least one accepted component, within the total length
/// bound. Re-splitting such a string on `/` gives back exactly its
/// component sequence, so `s == join_components(raw_chunks(s))` rules out
/// leading, trailing and repeated separators at once (components cannot
/// hold separator bytes).
pub open spec fn is_canonical_path(s: Seq<u8>) -> bool {
    &&& raw_chunks(s).len() >= 1
    &&& s == join_components(raw_chunks(s))
    &&& forall|k: int|
        0 <= k < raw_chunks(s).len() ==> component_ok(#[trigger] raw_chunks(s)[k])
    &&& s.len() <= MAX_PATH_LEN
}

/// A chunk walk over a run of non-separator bytes gathers exactly that
/// run: starting at `k` with `cur` gathered, a run up to the separator
/// (or end) at `j` emits one chunk and continues after it.
pub proof fn lemma_chunks_run(s: Seq<u8>, k: int, j: int, cur: Seq<u8>)
    requires
        0 <= k <= j <= s.len(),
        forall|m: int| k <= m < j ==> !is_sep_byte(#[trigger] s[m]),
        j == s.len() || is_sep_byte(s[j]),
        cur.len() + (j - k) > 0,
    ensures
        chunks_rec(s, k, cur) == seq![cur + s.subrange(k, j)] + chunks_rec(s, j, seq![]),
    decreases j - k,
{
    if k == j {
        assert(cur + s.subrange(k, j) =~= cur);
        if j == s.len() {
            assert(chunks_rec(s, j, seq![]) =~= Seq::<Seq<u8>>::empty());
            assert(chunks_rec(s, k, cur) =~= seq![cur] + chunks_rec(s, j, seq![]));
        } else {
            assert(chunks_rec(s, j, Seq::<u8>::empty()) == chunks_rec(s, j + 1, seq![]));
        }
    } else {
        lemma_chunks_run(s, k + 1, j, cur.push(s[k]));
        assert(cur.push(s[k]) + s.subrange(k + 1, j) =~= cur + s.subrange(k, j));
    }
}

/// The chunk walk from a position only depends on the bytes from that
/// position on.
pub proof fn lemma_chunks_suffix(s: Seq<u8>, i: int, j: int, cur: Seq<u8>)
    requires
        0 <= i <= s.len(),
        0 <= j,
        i + j <= s.len(),
    ensures
        chunks_rec(s, i + j, cur) == chunks_rec(s.subrange(i, s.len() as int), j, cur),
    decreases s.len() - (i + j),
{
    let t = s.subrange(i, s.len() as int);
    if i + j >= s.len() {
    } else {
        assert(t[j] == s[i + j]);
        lemma_chunks_suffix(s, i, j + 1, cur.push(s[i + j]));
        lemma_chunks_suffix(s, i, j + 1, seq![]);
    }
}

/// A plausible chunk: non-empty and free of separator bytes. Everything
/// the native splitting emits has this shape.
pub open spec fn sep_free_chunk(c: Seq<u8>) -> bool {
    &&& c.len() > 0
    &&& forall|m: int| 0 <= m < c.len() ==> !is_sep_byte(#[trigger] c[m])
}

/// Every chunk of a byte sequence is non-empty and free of separators.
pub proof fn lemma_raw_chunks_shape(s: Seq<u8>, i: int, cur: Seq<u8>)
    requires
        0 <= i <= s.len(),
        forall|m: int| 0 <= m < cur.len() ==> !is_sep_byte(#[trigger] cur[m]),
    ensures
        forall|k: int|
            0 <= k < chunks_rec(s, i, cur).len() ==> sep_free_chunk(
                #[trigger] chunks_rec(s, i, cur)[k],
            ),
    decreases s.len() - i,
{
    let r = chunks_rec(s, i, cur);
    if i >= s.len() {
        if cur.len() > 0 {
            assert(sep_free_chunk(cur));
            assert(r[0] == cur);
        }
    } else if is_sep_byte(s[i]) {
        lemma_raw_chunks_shape(s, i + 1, seq![]);
        let rest = chunks_rec(s, i + 1, Seq::<u8>::empty());
        if cur.len() > 0 {
            assert(sep_free_chunk(cur));
            assert(r == seq![cur] + rest);
            assert forall|k: int| 0 <= k < r.len() implies sep_free_chunk(r[k]) by {
                if k == 0 {
                    assert(r[0] == cur);
                } else {
                    assert(r[k] == rest[k - 1]);
                    assert(sep_free_chunk(rest[k - 1]));
                }
            }
        } else {
            assert(r == rest);
            assert forall|k: int| 0 <= k < r.len() implies sep_free_chunk(r[k]) by {
                assert(sep_free_chunk(rest[k]));
            }
        }
    } else {
        let cur2 = cur.push(s[i]);
        assert(forall|m: int| 0 <= m < cur2.len() ==> !is_sep_byte(#[trigger] cur2[m]));
        lemma_raw_chunks_shape(s, i + 1, cur2);
        let rest = chunks_rec(s, i + 1, cur2);
        assert(r == rest);
        assert forall|k: int| 0 <= k < r.len() implies sep_free_chunk(r[k]) by {
            assert(sep_free_chunk(rest[k]));
        }
    }
}

/// Joining after appending one component: the join grows by a separator
/// (when something was there already) and the component.
pub proof fn lemma_join_push(comps: Seq<Seq<u8>>, c: Seq<u8>)
    ensures
        join_components(comps.push(c)) == if comps.len() == 0 {
            c
        } else {
            join_components(comps) + seq![SEPARATOR_BYTE] + c
        },
    decreases comps.len(),
{
    if comps.len() == 0 {
        assert(comps.push(c)[0] == c);
        assert(join_components(comps.push(c)) == c);
    } else if comps.len() == 1 {
        let p = comps.push(c);
        assert(p.len() == 2);
        assert(p[0] == comps[0]);
        assert(p.drop_first() =~= seq![c]);
        assert(join_components(seq![c]) == c);
    } else {
        let p = comps.push(c);
        assert(p.drop_first() =~= comps.drop_first().push(c));
        lemma_join_push(comps.drop_first(), c);
        assert(join_components(comps.push(c)) == comps[0] + seq![SEPARATOR_BYTE]
            + join_components(comps.drop_first().push(c)));
        assert(comps[0] + seq![SEPARATOR_BYTE] + (join_components(comps.drop_first())
            + seq![SEPARATOR_BYTE] + c) =~= (comps[0] + seq![SEPARATOR_BYTE] + join_components(
            comps.drop_first(),
        )) + seq![SEPARATOR_BYTE] + c);
    }
}

/// The canonical separator byte on its own is valid UTF-8.
pub proof fn lemma_sep_valid_utf8()
    ensures
        valid_utf8(seq![SEPARATOR_BYTE]),
{
    let sep = seq![SEPARATOR_BYTE];
    assert(is_leading_byte_width_1(sep[0]));
    assert(47u8 & 0x7f == 47u8) by (bit_vector);
    assert(codepoint_width_1(sep[0]) == 47);
    assert(valid_first_scalar(sep));
    assert(pop_first_scalar(sep) =~= Seq::<u8>::empty());
    assert(valid_utf8(Seq::<u8>::empty()));
}

/// A joined component sequence is valid UTF-8 when every component is.
pub proof fn lemma_join_valid_utf8(comps: Seq<Seq<u8>>)
    requires
        forall|k: int| 0 <= k < comps.len() ==> valid_utf8(#[trigger] comps[k]),
    ensures
        valid_utf8(join_components(comps)),
    decreases comps.len(),
{
    if comps.len() == 0 {
        assert(valid_utf8(join_components(comps)));
    } else if comps.len() == 1 {
        assert(join_components(comps) == comps[0]);
    } else {
        lemma_join_valid_utf8(comps.drop_first());
        lemma_sep_valid_utf8();
        valid_utf8_concat(seq![SEPARATOR_BYTE], join_components(comps.drop_first()));
        valid_utf8_concat(comps[0], seq![SEPARATOR_BYTE] + join_components(comps.drop_first()));
        assert(comps[0] + (seq![SEPARATOR_BYTE] + join_components(comps.drop_first()))
            =~= join_components(comps));
    }
}

/// A component, as the walk accepts it, holds no separator byte: both
/// separators are forbidden characters.
pub proof fn lemma_component_ok_no_sep(c: Seq<u8>)
    requires
        component_ok(c),
    ensures
        forall|m: int| 0 <= m < c.len() ==> !is_sep_byte(#[trigger] c[m]),
{
    assert forall|m: int| 0 <= m < c.len() implies !is_sep_byte(c[m]) by {
        if is_sep_byte(c[m]) {
            lemma_first_forbidden_finds(c, 0, m);
        }
    }
}

/// If a forbidden byte sits at `m`, the scan from `i` at or before `m`
/// finds one.
pub proof fn lemma_first_forbidden_finds(s: Seq<u8>, i: int, m: int)
    requires
        0 <= i <= m < s.len(),
        is_forbidden_byte(s[m]),
    ensures
        first_forbidden_index(s, i) >= 0,
    decreases m - i,
{
    if i < m && !is_forbidden_byte(s[i]) {
        lemma_first_forbidden_finds(s, i + 1, m);
    }
}

/// A walk over components that are all acceptable accepts them all, in
/// order, after whatever was accepted before.
pub proof fn lemma_walk_all_ok(cs: Seq<Seq<u8>>, first: bool, acc: Seq<Seq<u8>>)
    requires
        forall|k: int| 0 <= k < cs.len() ==> component_ok(#[trigger] cs[k]),
    ensures
        walk_chunks(cs, first, acc) == Ok::<_, PathIssue>(acc + cs),
    decreases cs.len(),
{
    if cs.len() == 0 {
        assert(acc + cs =~= acc);
    } else {
        let c = cs[0];
        assert(component_ok(c));
        assert(c != seq![46u8] && c != seq![46u8, 46u8]) by {
            if c == seq![46u8] || c == seq![46u8, 46u8] {
                assert(c.last() == 46);
            }
        }
        lemma_walk_all_ok(cs.drop_first(), false, acc.push(c));
        assert(acc.push(c) + cs.drop_first() =~= acc + cs);
    }
}

/// A walk that accepts leaves every accepted component acceptable; the
/// result is `acc` extended by accepted chunks.
pub proof fn lemma_walk_ok_components(cs: Seq<Seq<u8>>, first: bool, acc: Seq<Seq<u8>>)
    requires
        forall|k: int| 0 <= k < cs.len() ==> (#[trigger] cs[k]).len() > 0,
        forall|k: int| 0 <= k < acc.len() ==> component_ok(#[trigger] acc[k]),
    ensures
        walk_chunks(cs, first, acc) matches Ok(res) ==> forall|k: int|
            0 <= k < res.len() ==> component_ok(#[trigger] res[k]),
    decreases cs.len(),
{
    if cs.len() == 0 {
    } else {
        let c = cs[0];
        if c == seq![46u8] {
            if !first {
                lemma_walk_ok_components(cs.drop_first(), false, acc);
            }
        } else if c == seq![46u8, 46u8] {
        } else if !valid_utf8(c) {
        } else {
            match component_issue(c) {
                Some(_) => {},
                None => {
                    assert(forall|k: int|
                        0 <= k < acc.push(c).len() ==> component_ok(#[trigger] acc.push(c)[k]));
                    lemma_walk_ok_components(cs.drop_first(), false, acc.push(c));
                },
            }
        }
    }
}

/// Joining acceptable components and re-splitting the result gives the
/// components back: the canonical form of a path determines its
/// components exactly.
pub proof fn lemma_join_then_chunks(comps: Seq<Seq<u8>>)
    requires
        comps.len() >= 1,
        forall|k: int|
            0 <= k < comps.len() ==> (#[trigger] comps[k]).len() > 0 && forall|m: int|
                0 <= m < comps[k].len() ==> !is_sep_byte(#[trigger] comps[k][m]),
    ensures
        raw_chunks(join_components(comps)) == comps,
    decreases comps.len(),
{
    let s = join_components(comps);
    let c0 = comps[0];
    if comps.len() == 1 {
        assert(s == c0);
        lemma_chunks_run(s, 0, s.len() as int, seq![]);
        assert(Seq::<u8>::empty() + s.subrange(0, s.len() as int) =~= c0);
        assert(chunks_rec(s, s.len() as int, Seq::<u8>::empty()) =~= Seq::<Seq<u8>>::empty());
        assert(raw_chunks(s) =~= seq![c0]);
    } else {
        let rest = join_components(comps.drop_first());
        assert(s == c0 + seq![SEPARATOR_BYTE] + rest);
        let n0 = c0.len() as int;
        assert forall|m: int| 0 <= m < n0 implies !is_sep_byte(s[m]) by {
            assert(s[m] == c0[m]);
        }
        assert(s[n0] == SEPARATOR_BYTE);
        lemma_chunks_run(s, 0, n0, seq![]);
        assert(Seq::<u8>::empty() + s.subrange(0, n0) =~= c0);
        assert(chunks_rec(s, n0, Seq::<u8>::empty()) == chunks_rec(s, n0 + 1, seq![]));
        lemma_chunks_suffix(s, n0 + 1, 0, seq![]);
        assert(s.subrange(n0 + 1, s.len() as int) =~= rest);
        lemma_join_then_chunks(comps.drop_first());
        assert(raw_chunks(s) =~= seq![c0] + raw_chunks(rest));
        assert(seq![c0] + comps.drop_first() =~= comps);
    }
}

/// Index of the last occurrence of `b` in `s`, or `-1` if there is none.
pub open spec fn last_index_of(s: Seq<u8>, b: u8) -> int
    decreases s.len(),
{
    if s.len() == 0 {
        -1
    } else if s.last() == b {
        s.len() - 1
    } else {
        last_index_of(s.drop_last(), b)
    }
}

/// Index of the first occurrence of `b` in `s` at or after `i`, or `-1`.
pub open spec fn first_index_of(s: Seq<u8>, i: int, b: u8) -> int
    decreases s.len() - i,
{
    if i < 0 || i >= s.len() {
        -1
    } else if s[i] == b {
        i
    } else {
        first_index_of(s, i + 1, b)
    }
}

/// When nothing at or after `i` equals `b`, the search fails.
pub proof fn lemma_last_index_none(s: Seq<u8>, b: u8)
    requires
        forall|m: int| 0 <= m < s.len() ==> s[m] != b,
    ensures
        last_index_of(s, b) == -1,
    decreases s.len(),
{
    if s.len() > 0 {
        assert(forall|m: int| 0 <= m < s.drop_last().len() ==> s.drop_last()[m] != b);
        lemma_last_index_none(s.drop_last(), b);
    }
}

/// The last occurrence, when everything after position `k` differs
/// from `b` and `s[k] == b`, is `k`.
pub proof fn lemma_last_index_at(s: Seq<u8>, b: u8, k: int)
    requires
        0 <= k < s.len(),
        s[k] == b,
        forall|m: int| k < m < s.len() ==> s[m] != b,
    ensures
        last_index_of(s, b) == k,
    decreases s.len(),
{
    if k == s.len() - 1 {
    } else {
        assert(s.last() != b);
        assert(s.drop_last()[k] == b);
        lemma_last_index_at(s.drop_last(), b, k);
    }
}

/// Splitting a canonical path at its last separator: a single component
/// holds no separator at all; with two or more components the text
/// before the last separator is the canonical join of all but the last
/// component, and the text after it is the last component.
pub proof fn lemma_canonical_back_split(s: Seq<u8>)
    requires
        is_canonical_path(s),
    ensures
        raw_chunks(s).len() == 1 ==> last_index_of(s, SEPARATOR_BYTE) == -1,
        raw_chunks(s).len() >= 2 ==> {
            let comps = raw_chunks(s);
            let tail = comps.last();
            let pre = join_components(comps.drop_last());
            let k = last_index_of(s, SEPARATOR_BYTE);
            &&& k == s.len() - tail.len() - 1
            &&& 0 <= k < s.len()
            &&& s.subrange(0, k) == pre
            &&& s.subrange(k + 1, s.len() as int) == tail
            &&& is_canonical_path(s.subrange(0, k))
        },
{
    let comps = raw_chunks(s);
    assert(forall|k: int| 0 <= k < comps.len() ==> component_ok(#[trigger] comps[k]));
    assert forall|k: int|
        0 <= k < comps.len() implies sep_free_chunk(#[trigger] comps[k]) by {
        lemma_component_ok_no_sep(comps[k]);
        assert(comps[k].len() > 0);
    }
    if comps.len() == 1 {
        assert(s == join_components(comps));
        assert(join_components(comps) == comps[0]);
        assert(forall|m: int| 0 <= m < s.len() ==> s[m] != SEPARATOR_BYTE);
        lemma_last_index_none(s, SEPARATOR_BYTE);
    } else if comps.len() >= 2 {
        let tail = comps.last();
        let front = comps.drop_last();
        let pre = join_components(front);
        assert(comps =~= front.push(tail));
        lemma_join_push(front, tail);
        assert(s == pre + seq![SEPARATOR_BYTE] + tail);
        let k = pre.len() as int;
        assert(s[k] == SEPARATOR_BYTE);
        assert forall|m: int| k < m < s.len() implies s[m] != SEPARATOR_BYTE by {
            assert(s[m] == tail[m - k - 1]);
            assert(sep_free_chunk(comps[comps.len() - 1]));
        }
        lemma_last_index_at(s, SEPARATOR_BYTE, k);
        assert(s.subrange(0, k) =~= pre);
        assert(s.subrange(k + 1, s.len() as int) =~= tail);
        assert(k == s.len() - tail.len() - 1);
        // the prefix is canonical in its own right
        assert forall|j: int|
            0 <= j < front.len() implies sep_free_chunk(#[trigger] front[j]) by {
            assert(front[j] == comps[j]);
        }
        lemma_join_then_chunks(front);
        assert forall|j: int|
            0 <= j < raw_chunks(pre).len() implies component_ok(#[trigger] raw_chunks(pre)[j]) by {
            assert(raw_chunks(pre)[j] == front[j]);
            assert(front[j] == comps[j]);
        }
        assert(pre.len() <= s.len());
        assert(is_canonical_path(pre));
    }
}

/// Splitting a canonical path at its first separator: the text before it
/// is the first component, and the text after it is the canonical join
/// of the remaining components.
pub proof fn lemma_canonical_front_split(s: Seq<u8>)
    requires
        is_canonical_path(s),
    ensures
        raw_chunks(s).len() == 1 ==> first_index_of(s, 0, SEPARATOR_BYTE) == -1,
        raw_chunks(s).len() >= 2 ==> {
            let comps = raw_chunks(s);
            let head = comps[0];
            let rest = join_components(comps.drop_first());
            let k = first_index_of(s, 0, SEPARATOR_BYTE);
            &&& k == head.len()
            &&& 0 <= k < s.len()
            &&& s.subrange(0, k) == head
            &&& s.subrange(k + 1, s.len() as int) == rest
            &&& is_canonical_path(s.subrange(k + 1, s.len() as int))
        },
{
    let comps = raw_chunks(s);
    assert forall|k: int|
        0 <= k < comps.len() implies sep_free_chunk(#[trigger] comps[k]) by {
        lemma_component_ok_no_sep(comps[k]);
        assert(comps[k].len() > 0);
    }
    if comps.len() == 1 {
        assert(s == join_components(comps));
        assert(join_components(comps) == comps[0]);
        assert(forall|m: int| 0 <= m < s.len() ==> s[m] != SEPARATOR_BYTE);
        lemma_first_index_none(s, 0, SEPARATOR_BYTE);
    } else if comps.len() >= 2 {
        let head = comps[0];
        let rest = join_components(comps.drop_first());
        assert(s == head + seq![SEPARATOR_BYTE] + rest);
        let k = head.len() as int;
        assert(s[k] == SEPARATOR_BYTE);
        assert forall|m: int| 0 <= m < k implies s[m] != SEPARATOR_BYTE by {
            assert(s[m] == head[m]);
            assert(sep_free_chunk(comps[0]));
        }
        lemma_first_index_at(s, 0, SEPARATOR_BYTE, k);
        assert(s.subrange(0, k) =~= head);
        assert(s.subrange(k + 1, s.len() as int) =~= rest);
        // the suffix is canonical in its own right
        assert forall|j: int|
            0 <= j < comps.drop_first().len() implies sep_free_chunk(
            #[trigger] comps.drop_first()[j],
        ) by {
            assert(comps.drop_first()[j] == comps[j + 1]);
        }
        lemma_join_then_chunks(comps.drop_first());
        assert forall|j: int|
            0 <= j < raw_chunks(rest).len() implies component_ok(
            #[trigger] raw_chunks(rest)[j],
        ) by {
            assert(raw_chunks(rest)[j] == comps.drop_first()[j]);
            assert(comps.drop_first()[j] == comps[j + 1]);
        }
        assert(rest.len() <= s.len());
        assert(is_canonical_path(rest));
    }
}

/// When nothing at or after `i` equals `b`, the forward search fails.
pub proof fn lemma_first_index_none(s: Seq<u8>, i: int, b: u8)
    requires
        forall|m: int| i <= m < s.len() ==> s[m] != b,
    ensures
        first_index_of(s, i, b) == -1,
    decreases s.len() - i,
{
    if 0 <= i < s.len() {
        lemma_first_index_none(s, i + 1, b);
    }
}

/// The first occurrence at or after `i`, when everything from `i` up to
/// `k` differs from `b` and `s[k] == b`, is `k`.
pub proof fn lemma_first_index_at(s: Seq<u8>, i: int, b: u8, k: int)
    requires
        0 <= i <= k < s.len(),
        s[k] == b,
        forall|m: int| i <= m < k ==> s[m] != b,
    ensures
        first_index_of(s, i, b) == k,
    decreases k - i,
{
    if i < k {
        lemma_first_index_at(s, i + 1, b, k);
    }
}

/// Round trip: any sequence of acceptable components, joined with the
/// canonical separator, decomposes back into exactly that sequence, and
/// the join is its own canonical form.
pub proof fn lemma_components_round_trip(comps: Seq<Seq<u8>>)
    requires
        comps.len() >= 1,
        forall|k: int| 0 <= k < comps.len() ==> component_ok(#[trigger] comps[k]),
        join_components(comps).len() <= MAX_PATH_LEN,
    ensures
        path_outcome(join_components(comps)) == Ok::<_, PathIssue>(comps),
        canonical_form(join_components(comps)) == join_components(comps),
{
    assert forall|k: int| 0 <= k < comps.len() implies (#[trigger] comps[k]).len() > 0
        && forall|m: int| 0 <= m < comps[k].len() ==> !is_sep_byte(#[trigger] comps[k][m]) by {
        lemma_component_ok_no_sep(comps[k]);
    }
    lemma_join_then_chunks(comps);
    assert(is_canonical_path(join_components(comps)));
    lemma_canonical_idempotent(join_components(comps));
}

/// The canonical form of a valid path is itself accepted, unchanged:
/// canonicalization is idempotent. A string in canonical form passes the
/// whole validation with exactly its own chunks as components, and
/// re-canonicalizing it gives the same string back, byte for byte.
pub proof fn lemma_canonical_idempotent(s: Seq<u8>)
    requires
        is_canonical_path(s),
    ensures
        path_outcome(s) == Ok::<_, PathIssue>(raw_chunks(s)),
        canonical_form(s) == s,
{
    let comps = raw_chunks(s);
    let c0 = comps[0];
    assert(component_ok(c0));
    lemma_component_ok_no_sep(c0);
    assert(c0.len() > 0);
    // the string starts with the first component's bytes
    if comps.len() == 1 {
        assert(s == c0);
    } else {
        assert(s == c0 + seq![SEPARATOR_BYTE] + join_components(comps.drop_first()));
    }
    assert(s[0] == c0[0]);
    assert(!is_sep_byte(s[0]));
    assert(!has_unc_prefix(s));
    // a drive prefix needs a colon in second position, which is forbidden
    assert(!has_drive_prefix(s)) by {
        if s.len() >= 2 && s[1] == 58 {
            if c0.len() >= 2 {
                assert(s[1] == c0[1]);
                lemma_first_forbidden_finds(c0, 0, 1);
            } else {
                if comps.len() == 1 {
                    assert(s.len() < 2);
                } else {
                    assert(s[1] == SEPARATOR_BYTE);
                }
            }
        }
    }
    lemma_walk_all_ok(comps, true, seq![]);
    assert(Seq::<Seq<u8>>::empty() + comps =~= comps);
    assert(walk_chunks(raw_chunks(s), true, seq![]) == Ok::<_, PathIssue>(comps));
    assert(join_components(comps) == s);
}

} // verus!
