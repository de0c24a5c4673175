//! Lightweight double-ended iteration over the components of a canonical
//! path string, by string splitting.

use vstd::prelude::*;
use vstd::string::StringSliceAdditionalSpecFns;
use vstd::utf8::*;

use crate::model::{
    first_index_of, is_canonical_path, join_components, last_index_of,
    lemma_canonical_back_split, lemma_canonical_front_split, lemma_first_index_at,
    lemma_first_index_none, lemma_last_index_at, lemma_last_index_none, raw_chunks,
};
use crate::pathbuf::{lemma_canonical_nonempty, lemma_canonical_valid_utf8};
use crate::unicode::{lemma_ascii_boundaries, substr};

verus! {

broadcast use vstd::utf8::encode_utf8_valid_utf8, vstd::utf8::is_char_boundary_iff_not_is_continuation_byte, vstd::utf8::is_char_boundary_start_end_of_seq;

/// Iterator over the components of a [`FilePathBuf`](crate::FilePathBuf),
/// root to leaf, backed by nothing but the canonical string: what is
/// still to come is always itself a canonical path, or nothing.
/// [`next`](Self::next) takes components from the front,
/// [`next_back`](Self::next_back) from the back.
#[derive(Clone, Copy, Debug)]
pub struct FilePathBufIter<'a> {
    rest: Option<&'a str>,
}

impl<'a> FilePathBufIter<'a> {
    /// Whatever text remains holds a canonical path.
    #[verifier::type_invariant]
    closed spec fn inv(self) -> bool {
        match self.rest {
            None => true,
            Some(s) => is_canonical_path(s.spec_bytes()),
        }
    }

    /// The components not yet handed out, in order.
    pub closed spec fn remaining(&self) -> Seq<Seq<u8>> {
        match self.rest {
            None => seq![],
            Some(s) => raw_chunks(s.spec_bytes()),
        }
    }

    /// Starts an iterator over a canonical path string.
    pub(crate) fn new_from(path: &'a str) -> (r: FilePathBufIter<'a>)
        requires
            is_canonical_path(path.spec_bytes()),
        ensures
            r.remaining() == raw_chunks(path.spec_bytes()),
    {
        FilePathBufIter { rest: Some(path) }
    }

    /// The next component from the front, if one remains.
    pub fn next(&mut self) -> (r: Option<&'a str>)
        ensures
            old(self).remaining().len() == 0 ==> r is None && final(self).remaining()
                == old(self).remaining(),
            old(self).remaining().len() > 0 ==> {
                &&& r matches Some(c)
                &&& c.spec_bytes() == old(self).remaining()[0]
                &&& final(self).remaining() == old(self).remaining().drop_first()
            },
    {
        proof {
            use_type_invariant(&*self);
        }
        match self.rest {
            None => None,
            Some(st) => {
                let ghost s = st.spec_bytes();
                let ghost comps = raw_chunks(s);
                proof {
                    lemma_canonical_valid_utf8(s);
                    lemma_canonical_front_split(s);
                    lemma_canonical_nonempty(s);
                }
                let bytes = st.as_bytes();
                let n = bytes.len();
                let mut k: usize = 0;
                while k < n && bytes[k] != 47
                    invariant
                        st.spec_bytes() == s,
                        bytes@ == s,
                        n == s.len(),
                        0 <= k <= n,
                        forall|m: int| 0 <= m < k ==> s[m] != 47,
                    decreases n - k,
                {
                    k += 1;
                }
                if k == n {
                    proof {
                        lemma_first_index_none(s, 0, 47);
                        assert(comps.len() == 1);
                        assert(join_components(comps) == comps[0]);
                        assert(comps.drop_first() =~= Seq::<Seq<u8>>::empty());
                    }
                    self.rest = None;
                    Some(st)
                } else {
                    proof {
                        lemma_first_index_at(s, 0, 47, k as int);
                        assert(first_index_of(s, 0, 47) == k);
                        assert(comps.len() != 1);
                        assert(s[k as int] < 0x80);
                        lemma_ascii_boundaries(s, k as int);
                    }
                    let head = substr(st, 0, k);
                    let tail = substr(st, k + 1, n);
                    proof {
                        assert(tail.spec_bytes() == join_components(comps.drop_first()));
                        assert forall|q: int|
                            0 <= q < comps.drop_first().len() implies crate::model::sep_free_chunk(
                            #[trigger] comps.drop_first()[q],
                        ) by {
                            assert(comps.drop_first()[q] == comps[q + 1]);
                            crate::model::lemma_component_ok_no_sep(comps[q + 1]);
                        }
                        crate::model::lemma_join_then_chunks(comps.drop_first());
                    }
                    self.rest = Some(tail);
                    Some(head)
                }
            },
        }
    }

    /// The next component from the back, if one remains.
    pub fn next_back(&mut self) -> (r: Option<&'a str>)
        ensures
            old(self).remaining().len() == 0 ==> r is None && final(self).remaining()
                == old(self).remaining(),
            old(self).remaining().len() > 0 ==> {
                &&& r matches Some(c)
                &&& c.spec_bytes() == old(self).remaining().last()
                &&& final(self).remaining() == old(self).remaining().drop_last()
            },
    {
        proof {
            use_type_invariant(&*self);
        }
        match self.rest {
            None => None,
            Some(st) => {
                let ghost s = st.spec_bytes();
                let ghost comps = raw_chunks(s);
                proof {
                    lemma_canonical_valid_utf8(s);
                    lemma_canonical_back_split(s);
                    lemma_canonical_nonempty(s);
                }
                let bytes = st.as_bytes();
                let n = bytes.len();
                let mut k: usize = n;
                while k > 0 && bytes[k - 1] != 47
                    invariant
                        st.spec_bytes() == s,
                        bytes@ == s,
                        n == s.len(),
                        0 <= k <= n,
                        forall|m: int| k <= m < n ==> s[m] != 47,
                    decreases k,
                {
                    k -= 1;
                }
                if k == 0 {
                    proof {
                        lemma_last_index_none(s, 47);
                        assert(comps.len() == 1);
                        assert(join_components(comps) == comps[0]);
                        assert(comps.drop_last() =~= Seq::<Seq<u8>>::empty());
                    }
                    self.rest = None;
                    Some(st)
                } else {
                    proof {
                        lemma_last_index_at(s, 47, k - 1);
                        assert(last_index_of(s, 47) == k - 1);
                        assert(comps.len() != 1);
                        assert(s[k - 1] < 0x80);
                        lemma_ascii_boundaries(s, k - 1);
                    }
                    let pre = substr(st, 0, k - 1);
                    let tail = substr(st, k, n);
                    proof {
                        assert(pre.spec_bytes() == join_components(comps.drop_last()));
                        assert forall|q: int|
                            0 <= q < comps.drop_last().len() implies crate::model::sep_free_chunk(
                            #[trigger] comps.drop_last()[q],
                        ) by {
                            assert(comps.drop_last()[q] == comps[q]);
                            crate::model::lemma_component_ok_no_sep(comps[q]);
                        }
                        crate::model::lemma_join_then_chunks(comps.drop_last());
                    }
                    self.rest = Some(pre);
                    Some(tail)
                }
            },
        }
    }
}

} // verus!
