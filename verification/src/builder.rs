//! Incremental construction of canonical paths over a reusable buffer.

use vstd::prelude::*;
use vstd::slice::slice_subrange;
use vstd::string::StringSliceAdditionalSpecFns;
use vstd::utf8::*;

use crate::error::FilePathError;
use crate::model::{
    chunks_rec, component_ok, is_canonical_path, join_components, last_index_of,
    lemma_canonical_back_split, lemma_join_push, lemma_join_then_chunks,
    lemma_component_ok_no_sep, path_components, path_outcome, raw_chunks, sep_free_chunk,
    PathIssue,
};
use crate::pathbuf::{lemma_canonical_nonempty, lemma_canonical_valid_utf8, FilePathBuf};
use crate::trusted::{str_from_utf8, string_from_utf8};
use crate::util::canonicalize_bytes;
use crate::{MAX_PATH_LEN, SEPARATOR_BYTE};

verus! {

/// The running length after one more component: a separator is counted
/// for every component but the first.
pub open spec fn push_len(l: int, c: Seq<u8>) -> int {
    if l == 0 {
        c.len() as int
    } else {
        l + 1 + c.len()
    }
}

/// What pushing a sequence of components does to the builder: the
/// running length grows for every component, but a component is appended
/// to the buffer only while the running length stays within
/// [`MAX_PATH_LEN`]; the pair holds the final buffer and the final
/// running length. Appending stops for good at the first overflow, since
/// the running length never shrinks.
pub open spec fn pushed_state(buf: Seq<u8>, total: int, comps: Seq<Seq<u8>>) -> (Seq<u8>, int)
    decreases comps.len(),
{
    if comps.len() == 0 {
        (buf, total)
    } else {
        let t2 = push_len(total, comps[0]);
        let b2 = if t2 <= MAX_PATH_LEN {
            if buf.len() == 0 {
                comps[0]
            } else {
                buf + seq![SEPARATOR_BYTE] + comps[0]
            }
        } else {
            buf
        };
        pushed_state(b2, t2, comps.drop_first())
    }
}

/// The final running length in closed form: the old length, a separator
/// when the builder held anything, and the joined components.
pub proof fn lemma_pushed_total(buf: Seq<u8>, total: int, comps: Seq<Seq<u8>>)
    requires
        comps.len() >= 1,
        total >= 0,
        forall|k: int| 0 <= k < comps.len() ==> (#[trigger] comps[k]).len() > 0,
    ensures
        pushed_state(buf, total, comps).1 == if total == 0 {
            join_components(comps).len() as int
        } else {
            total + 1 + join_components(comps).len()
        },
    decreases comps.len(),
{
    let c0 = comps[0];
    assert(c0.len() > 0);
    let t2 = push_len(total, c0);
    let bn = if t2 <= MAX_PATH_LEN {
        if buf.len() == 0 {
            c0
        } else {
            buf + seq![SEPARATOR_BYTE] + c0
        }
    } else {
        buf
    };
    if comps.len() == 1 {
        assert(join_components(comps) == c0);
        assert(comps.drop_first().len() == 0);
        assert(pushed_state(bn, t2, comps.drop_first()).1 == t2);
    } else {
        assert(join_components(comps) == c0 + seq![SEPARATOR_BYTE] + join_components(
            comps.drop_first(),
        ));
        assert(t2 > 0);
        assert forall|k: int|
            0 <= k < comps.drop_first().len() implies (#[trigger] comps.drop_first()[k]).len()
            > 0 by {
            assert(comps.drop_first()[k] == comps[k + 1]);
        }
        lemma_pushed_total(bn, t2, comps.drop_first());
    }
}

/// Appending one acceptable component to a canonical (or empty) buffer
/// gives a canonical buffer, provided the result stays within the total
/// length bound.
pub proof fn lemma_append_component(buf: Seq<u8>, c: Seq<u8>)
    requires
        buf.len() == 0 || is_canonical_path(buf),
        component_ok(c),
        push_len(buf.len() as int, c) <= MAX_PATH_LEN,
    ensures
        ({
            let b2 = if buf.len() == 0 {
                c
            } else {
                buf + seq![SEPARATOR_BYTE] + c
            };
            &&& is_canonical_path(b2)
            &&& b2.len() == push_len(buf.len() as int, c)
        }),
{
    if buf.len() == 0 {
        lemma_component_ok_no_sep(c);
        lemma_join_then_chunks(seq![c]);
        assert(join_components(seq![c]) == c);
        assert(forall|j: int|
            0 <= j < raw_chunks(c).len() ==> component_ok(#[trigger] raw_chunks(c)[j]));
        assert(is_canonical_path(c));
    } else {
        let cs = raw_chunks(buf);
        let b2 = buf + seq![SEPARATOR_BYTE] + c;
        lemma_join_push(cs, c);
        assert(b2 == join_components(cs.push(c)));
        assert forall|j: int|
            0 <= j < cs.push(c).len() implies sep_free_chunk(#[trigger] cs.push(c)[j])
            && component_ok(cs.push(c)[j]) by {
            if j < cs.len() {
                assert(cs.push(c)[j] == cs[j]);
            }
            lemma_component_ok_no_sep(cs.push(c)[j]);
        }
        lemma_join_then_chunks(cs.push(c));
        assert(is_canonical_path(b2));
    }
}

/// Builder for a [`FilePathBuf`]: pushed paths are validated and their
/// components appended in canonical form; the heap buffer can be reused
/// across builds.
#[derive(Clone, Debug)]
pub struct FilePathBuilder {
    buf: Vec<u8>,
}

impl View for FilePathBuilder {
    type V = Seq<u8>;

    /// The abstract value: the canonical bytes built so far.
    closed spec fn view(&self) -> Seq<u8> {
        self.buf@
    }
}

impl FilePathBuilder {
    /// The buffer is empty or holds a canonical path.
    pub open spec fn wf(self) -> bool {
        self@.len() == 0 || is_canonical_path(self@)
    }

    /// Creates an empty [`FilePathBuilder`].
    pub fn new() -> (r: FilePathBuilder)
        ensures
            r@ == Seq::<u8>::empty(),
            r.wf(),
    {
        FilePathBuilder { buf: Vec::new() }
    }

    /// Creates an empty [`FilePathBuilder`] with at least `capacity`
    /// bytes reserved.
    pub fn with_capacity(capacity: usize) -> (r: FilePathBuilder)
        ensures
            r@ == Seq::<u8>::empty(),
            r.wf(),
    {
        FilePathBuilder { buf: Vec::with_capacity(capacity) }
    }

    /// Wraps a buffer already known to hold a canonical path (or nothing).
    pub(crate) fn from_bytes(v: Vec<u8>) -> (r: FilePathBuilder)
        requires
            v@.len() == 0 || is_canonical_path(v@),
        ensures
            r@ == v@,
            r.wf(),
    {
        FilePathBuilder { buf: v }
    }

    /// Returns the length in bytes of the built path. May be zero for an
    /// empty builder.
    pub fn len(&self) -> (r: usize)
        ensures
            r == self@.len(),
    {
        self.buf.len()
    }

    /// Whether nothing has been pushed (or everything popped).
    pub fn is_empty(&self) -> (r: bool)
        ensures
            r == (self@.len() == 0),
    {
        self.buf.len() == 0
    }

    /// Attempts to append the `path` to the built path. The candidate is
    /// validated as a whole first: on a validation error nothing changes.
    /// Then its components are appended one by one while the running
    /// total length stays within [`MAX_PATH_LEN`]; if it ends beyond the
    /// bound, the components that fit stay appended and the full running
    /// length is reported in the error; [`lemma_pushed_total`] gives that
    /// length in closed form.
    pub fn push(&mut self, path: &str) -> (r: Result<(), FilePathError>)
        requires
            old(self).wf(),
        ensures
            final(self).wf(),
            match path_outcome(path.spec_bytes()) {
                Err(issue) => r matches Err(e) && e@ == issue && final(self)@ == old(self)@,
                Ok(comps) => {
                    let st = pushed_state(old(self)@, old(self)@.len() as int, comps);
                    &&& final(self)@ == st.0
                    &&& (st.1 <= MAX_PATH_LEN ==> r is Ok)
                    &&& (st.1 > MAX_PATH_LEN ==> (r matches Err(e) && e@ == PathIssue::TooLong(
                        st.1,
                    )))
                },
            },
    {
        let rv = match canonicalize_bytes(path.as_bytes()) {
            Ok(v) => v,
            Err(e) => {
                return Err(e);
            },
        };
        let ghost comps = path_components(path.spec_bytes());
        proof {
            assert(rv@ == join_components(comps));
            let pb = path.spec_bytes();
            crate::model::lemma_raw_chunks_shape(pb, 0, Seq::<u8>::empty());
            crate::model::lemma_walk_ok_components(raw_chunks(pb), true, seq![]);
            assert(forall|k: int| 0 <= k < comps.len() ==> component_ok(#[trigger] comps[k]));
            assert forall|k: int| 0 <= k < comps.len() implies sep_free_chunk(
                #[trigger] comps[k],
            ) by {
                lemma_component_ok_no_sep(comps[k]);
            }
            if comps.len() == 0 {
                assert(path_outcome(pb) is Err);
            }
            lemma_join_then_chunks(comps);
            assert(raw_chunks(rv@) == comps);
            lemma_canonical_nonempty(rv@);
            assert forall|m: int| 0 <= m < rv@.len() implies rv@[m] != 92 by {
                lemma_canonical_no_backslash(rv@, m);
            }
        }
        let len0 = self.buf.len();
        let n = rv.len();
        let ghost s = rv@;
        let mut i: usize = 0;
        let mut total: usize = len0;
        let ghost mut rem: Seq<Seq<u8>> = comps;
        proof {
            assert(len0 <= MAX_PATH_LEN);
        }
        while i < n
            invariant
                old(self).wf(),
                rv@ == s,
                n == s.len(),
                n <= MAX_PATH_LEN,
                0 <= i <= n,
                total >= 0,
                forall|m: int| 0 <= m < s.len() ==> s[m] != 92,
                chunks_rec(s, i as int, seq![]) == rem,
                forall|k: int| 0 <= k < rem.len() ==> component_ok(#[trigger] rem[k]),
                pushed_state(old(self)@, old(self)@.len() as int, comps) == pushed_state(
                    self@,
                    total as int,
                    rem,
                ),
                self@.len() == total || total > MAX_PATH_LEN,
                len0 == old(self)@.len(),
                len0 <= MAX_PATH_LEN,
                total <= len0 + 2 * i,
                self.wf(),
            decreases n - i,
        {
            if rv[i] == 47 {
                proof {
                    assert(chunks_rec(s, i as int, Seq::<u8>::empty()) == chunks_rec(
                        s,
                        i as int + 1,
                        seq![],
                    ));
                }
                i += 1;
            } else {
                let mut j = i + 1;
                while j < n && rv[j] != 47
                    invariant
                        rv@ == s,
                        n == s.len(),
                        0 <= i < j <= n,
                        forall|m: int| 0 <= m < s.len() ==> s[m] != 92,
                        forall|m: int|
                            i <= m < j ==> !crate::model::is_sep_byte(#[trigger] s[m]),
                    decreases n - j,
                {
                    j += 1;
                }
                let ghost chunk = s.subrange(i as int, j as int);
                proof {
                    crate::model::lemma_chunks_run(s, i as int, j as int, seq![]);
                    assert(Seq::<u8>::empty() + s.subrange(i as int, j as int) =~= chunk);
                    assert(chunks_rec(s, i as int, seq![]) == seq![chunk] + chunks_rec(
                        s,
                        j as int,
                        seq![],
                    ));
                    assert((seq![chunk] + chunks_rec(s, j as int, Seq::<u8>::empty()))[0]
                        == chunk);
                    assert((seq![chunk] + chunks_rec(s, j as int, Seq::<u8>::empty())).drop_first()
                        =~= chunks_rec(s, j as int, seq![]));
                    assert(rem[0] == chunk);
                }
                let clen = j - i;
                let t2 = if total == 0 {
                    clen
                } else {
                    total + 1 + clen
                };
                proof {
                    assert(t2 == push_len(total as int, chunk));
                }
                if t2 <= MAX_PATH_LEN {
                    let ghost before = self@;
                    if self.buf.len() > 0 {
                        self.buf.push(SEPARATOR_BYTE);
                    }
                    let piece = slice_subrange(rv.as_slice(), i, j);
                    self.buf.extend_from_slice(piece);
                    proof {
                        assert(before.len() == total);
                        if before.len() == 0 {
                            assert(self@ =~= chunk);
                        } else {
                            assert(self@ =~= before + seq![SEPARATOR_BYTE] + chunk);
                        }
                        lemma_append_component(before, chunk);
                        assert(is_canonical_path(self@));
                        assert(self@.len() == t2);
                    }
                }
                total = t2;
                i = j;
                proof {
                    rem = rem.drop_first();
                }
            }
        }
        proof {
            assert(chunks_rec(s, n as int, Seq::<u8>::empty()) =~= Seq::<Seq<u8>>::empty());
            assert(rem =~= Seq::<Seq<u8>>::empty());
            assert(pushed_state(self@, total as int, rem) == (self@, total as int));
        }
        if total <= MAX_PATH_LEN {
            Ok(())
        } else {
            Err(FilePathError::PathTooLong(total))
        }
    }

    /// Attempts to pop the last (leaf) component of the built path.
    /// Returns `true` when the builder was not empty, whether one
    /// component or the only component was removed.
    pub fn pop(&mut self) -> (r: bool)
        requires
            old(self).wf(),
        ensures
            final(self).wf(),
            r == (old(self)@.len() > 0),
            final(self)@ == if old(self)@.len() == 0 {
                old(self)@
            } else {
                join_components(raw_chunks(old(self)@).drop_last())
            },
    {
        let ghost s = old(self)@;
        if self.buf.len() == 0 {
            return false;
        }
        proof {
            assert(s.subrange(0, s.len() as int) =~= s);
        }
        loop
            invariant
                is_canonical_path(s),
                old(self).wf(),
                s == old(self)@,
                s.len() > 0,
                self@.len() <= s.len(),
                self@ == s.subrange(0, self@.len() as int),
                forall|m: int| self@.len() <= m < s.len() ==> s[m] != 47,
            decreases self@.len(),
        {
            let ghost pre = self@;
            match self.buf.pop() {
                None => {
                    proof {
                        assert(pre.len() == 0);
                        lemma_canonical_back_split(s);
                        crate::model::lemma_last_index_none(s, 47);
                        assert(raw_chunks(s).len() == 1) by {
                            if raw_chunks(s).len() >= 2 {
                                assert(last_index_of(s, 47) >= 0);
                            }
                        }
                        assert(join_components(raw_chunks(s).drop_last()) =~= Seq::<u8>::empty());
                        assert(self@ =~= Seq::<u8>::empty());
                    }
                    return true;
                },
                Some(b) => {
                    proof {
                        assert(pre.len() > 0);
                        assert(pre == s.subrange(0, pre.len() as int));
                        assert(b == pre.last());
                        assert(pre.last() == pre[pre.len() - 1]);
                        assert(pre[pre.len() - 1] == s.subrange(0, pre.len() as int)[pre.len()
                            - 1]);
                        assert(s.subrange(0, pre.len() as int)[pre.len() - 1] == s[pre.len() - 1]);
                        assert(b == s[pre.len() - 1]);
                        assert(self@ == pre.drop_last());
                        assert forall|m: int| 0 <= m < self@.len() implies self@[m] == s[m] by {
                            assert(self@[m] == pre[m]);
                            assert(pre[m] == s[m]);
                        }
                        assert(self@ =~= s.subrange(0, pre.len() - 1));
                    }
                    if b == 47 {
                        proof {
                            lemma_canonical_back_split(s);
                            let k = self@.len() as int;
                            crate::model::lemma_last_index_at(s, 47, k);
                            assert(raw_chunks(s).len() != 1);
                            assert(self@ == join_components(raw_chunks(s).drop_last()));
                        }
                        return true;
                    }
                },
            }
        }
    }

    /// Clears the built path, keeping the buffer's capacity.
    pub fn clear(&mut self)
        ensures
            final(self)@ == Seq::<u8>::empty(),
            final(self).wf(),
    {
        self.buf.clear();
    }

    /// Consumes the [`FilePathBuilder`] and, if it is non-empty, returns
    /// the built [`FilePathBuf`].
    pub fn build(self) -> (r: Option<FilePathBuf>)
        requires
            self.wf(),
        ensures
            self@.len() == 0 ==> r is None,
            self@.len() > 0 ==> (r matches Some(p) && p@ == self@),
    {
        if self.buf.len() == 0 {
            None
        } else {
            Some(FilePathBuf::from_canonical(self.buf))
        }
    }

    /// Consumes the [`FilePathBuilder`] and returns its buffer as a
    /// string.
    pub fn into_inner(self) -> (r: String)
        requires
            self.wf(),
        ensures
            encode_utf8(r@) == self@,
    {
        proof {
            if self@.len() > 0 {
                lemma_canonical_valid_utf8(self@);
            }
        }
        string_from_utf8(self.buf)
    }

    /// The built path so far, as a string.
    pub fn as_str(&self) -> (r: &str)
        requires
            self.wf(),
        ensures
            r.spec_bytes() == self@,
    {
        proof {
            if self@.len() > 0 {
                lemma_canonical_valid_utf8(self@);
            }
        }
        str_from_utf8(self.buf.as_slice())
    }
}

impl Default for FilePathBuilder {
    /// An empty builder.
    fn default() -> (r: FilePathBuilder)
        ensures
            r@ == Seq::<u8>::empty(),
            r.wf(),
    {
        FilePathBuilder::new()
    }
}

/// No byte of a canonical path is a backslash: the only separator in
/// canonical form is the forward slash, and components hold neither.
pub proof fn lemma_canonical_no_backslash(s: Seq<u8>, m: int)
    requires
        is_canonical_path(s),
        0 <= m < s.len(),
    ensures
        s[m] != 92,
{
    lemma_join_backslash_free(raw_chunks(s), m);
}

/// A join of acceptable components holds no backslash.
proof fn lemma_join_backslash_free(comps: Seq<Seq<u8>>, m: int)
    requires
        forall|k: int| 0 <= k < comps.len() ==> component_ok(#[trigger] comps[k]),
        0 <= m < join_components(comps).len(),
    ensures
        join_components(comps)[m] != 92,
    decreases comps.len(),
{
    let s = join_components(comps);
    if comps.len() == 0 {
    } else if comps.len() == 1 {
        assert(s == comps[0]);
        lemma_component_ok_no_sep(comps[0]);
    } else {
        let c0 = comps[0];
        let rest = join_components(comps.drop_first());
        assert(s == c0 + seq![SEPARATOR_BYTE] + rest);
        if m < c0.len() {
            assert(s[m] == c0[m]);
            lemma_component_ok_no_sep(c0);
        } else if m == c0.len() {
            assert(s[m] == SEPARATOR_BYTE);
        } else {
            assert(s[m] == rest[m - c0.len() - 1]);
            assert(forall|k: int|
                0 <= k < comps.drop_first().len() ==> component_ok(
                    #[trigger] comps.drop_first()[k],
                ));
            lemma_join_backslash_free(comps.drop_first(), m - c0.len() - 1);
        }
    }
}

} // verus!
