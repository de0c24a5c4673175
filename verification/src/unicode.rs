//! UTF-8 facts the library leans on, and the executable UTF-8 validator.
//!
//! The path logic slices strings at positions it has found by scanning
//! bytes. Every such position sits right before or right after an ASCII
//! byte, and in UTF-8 every byte of a multi-byte character is `0x80` or
//! above, so those positions are always character boundaries; the lemmas
//! here say so.

use vstd::prelude::*;
use vstd::string::StringSliceAdditionalSpecFns;
use vstd::utf8::*;

verus! {

broadcast use vstd::seq::group_seq_axioms;

/// An ASCII byte in valid UTF-8 is a one-byte character: the positions
/// just before and just after it are character boundaries.
pub proof fn lemma_ascii_boundaries(bytes: Seq<u8>, i: int)
    requires
        valid_utf8(bytes),
        0 <= i < bytes.len(),
        bytes[i] < 0x80,
    ensures
        is_char_boundary(bytes, i),
        is_char_boundary(bytes, i + 1),
    decreases bytes.len(),
{
    let w = length_of_first_scalar(bytes);
    assert(valid_first_scalar(bytes));
    if i == 0 {
        assert(w == 1);
        assert(is_char_boundary(bytes, 0));
        assert(is_char_boundary(pop_first_scalar(bytes), 0));
        assert(is_char_boundary(bytes, 1));
    } else {
        if i < w {
            // positions 1..w of the first scalar hold continuation bytes
            assert(is_continuation_byte(bytes[i]));
            assert(false);
        } else {
            let rest = pop_first_scalar(bytes);
            assert(rest[i - w] == bytes[i]);
            lemma_ascii_boundaries(rest, i - w);
            assert(is_char_boundary(bytes, i));
            assert(is_char_boundary(bytes, i + 1));
        }
    }
}

/// Bit-level bounds of the codepoint held by a two-byte encoding.
proof fn bv_codepoint_2(b0: u8, b1: u8)
    by (bit_vector)
    ensures
        0xc2 <= b0 <= 0xdf ==> ((((b0 & 0x1F) as u32) << 6) | ((b1 & 0x3F) as u32)) >= 0x80,
        0xc0 <= b0 <= 0xc1 ==> ((((b0 & 0x1F) as u32) << 6) | ((b1 & 0x3F) as u32)) < 0x80,
        ((((b0 & 0x1F) as u32) << 6) | ((b1 & 0x3F) as u32)) <= 0x7ff,
{
}

/// Bit-level bounds of the codepoint held by a three-byte encoding.
proof fn bv_codepoint_3(b0: u8, b1: u8, b2: u8)
    by (bit_vector)
    ensures
        ({
            let cp = (((b0 & 0x0F) as u32) << 12) | (((b1 & 0x3F) as u32) << 6) | ((b2
                & 0x3F) as u32);
            &&& (cp >= 0x800 <==> (b0 & 0x0F) > 0 || (b1 & 0x3F) >= 0x20)
            &&& (0xD800 <= cp <= 0xDFFF <==> (b0 & 0x0F) == 0x0D && (b1 & 0x3F) >= 0x20)
            &&& cp <= 0xFFFF
        }),
{
}

/// Bit-level bounds of the codepoint held by a four-byte encoding.
proof fn bv_codepoint_4(b0: u8, b1: u8, b2: u8, b3: u8)
    by (bit_vector)
    ensures
        ({
            let cp = (((b0 & 0x07) as u32) << 18) | (((b1 & 0x3F) as u32) << 12) | (((b2
                & 0x3F) as u32) << 6) | ((b3 & 0x3F) as u32);
            &&& (cp >= 0x10000 <==> (b0 & 0x07) > 0 || (b1 & 0x3F) >= 0x10)
            &&& (cp <= 0x10FFFF <==> (b0 & 0x07) < 4 || ((b0 & 0x07) == 4 && (b1 & 0x3F)
                <= 0x0F))
        }),
{
}

/// Small bit facts used to move between byte ranges and masked bits.
proof fn bv_masks(b0: u8, b1: u8)
    by (bit_vector)
    ensures
        0xe0 <= b0 <= 0xef ==> ((b0 & 0x0F) == 0x0D <==> b0 == 0xed),
        0xe0 <= b0 <= 0xef ==> ((b0 & 0x0F) > 0 <==> b0 > 0xe0),
        0xf0 <= b0 <= 0xf7 ==> ((b0 & 0x07) > 0 <==> b0 > 0xf0),
        0xf0 <= b0 <= 0xf7 ==> ((b0 & 0x07) < 4 <==> b0 < 0xf4),
        0xf0 <= b0 <= 0xf7 ==> ((b0 & 0x07) == 4 <==> b0 == 0xf4),
        0x80 <= b1 <= 0xbf ==> ((b1 & 0x3F) >= 0x20 <==> b1 >= 0xa0),
        0x80 <= b1 <= 0xbf ==> ((b1 & 0x3F) >= 0x10 <==> b1 >= 0x90),
        0x80 <= b1 <= 0xbf ==> ((b1 & 0x3F) <= 0x0F <==> b1 <= 0x8f),
{
}

/// Decides whether the byte sequence is a valid UTF-8 encoding, one
/// character at a time: each leading byte announces its width, the
/// continuation bytes must follow, and overlong encodings and the
/// surrogate range are rejected.
pub fn is_valid_utf8(bytes: &[u8]) -> (r: bool)
    ensures
        r == valid_utf8(bytes@),
{
    let s = Ghost(bytes@);
    let n = bytes.len();
    let mut i: usize = 0;
    while i < n
        invariant
            s@ == bytes@,
            n == s@.len(),
            0 <= i <= n,
            partial_valid_utf8(s@, i as int),
        decreases n - i,
    {
        let ghost t = s@.subrange(i as int, n as int);
        proof {
            assert(t.len() == n - i);
            assert(t[0] == s@[i as int]);
        }
        let b0 = bytes[i];
        let left = n - i;
        let w: usize;
        if b0 < 0x80 {
            proof {
                assert(valid_first_scalar(t));
                assert(length_of_first_scalar(t) == 1);
            }
            w = 1;
        } else if 0xc2 <= b0 && b0 <= 0xdf {
            if left < 2 || !(0x80 <= bytes[i + 1] && bytes[i + 1] <= 0xbf) {
                proof {
                    if left >= 2 {
                        assert(t[1] == s@[i + 1]);
                    }
                    lemma_reject(s@, i as int);
                }
                return false;
            }
            proof {
                assert(t[1] == s@[i + 1]);
                bv_codepoint_2(b0, s@[i + 1]);
                assert(valid_first_scalar(t));
                assert(length_of_first_scalar(t) == 2);
            }
            w = 2;
        } else if 0xe0 <= b0 && b0 <= 0xef {
            if left < 3 || !(0x80 <= bytes[i + 1] && bytes[i + 1] <= 0xbf) || !(0x80 <= bytes[i
                + 2] && bytes[i + 2] <= 0xbf) {
                proof {
                    if left >= 2 {
                        assert(t[1] == s@[i + 1]);
                    }
                    if left >= 3 {
                        assert(t[2] == s@[i + 2]);
                    }
                    lemma_reject(s@, i as int);
                }
                return false;
            }
            let b1 = bytes[i + 1];
            proof {
                assert(t[1] == s@[i + 1]);
                assert(t[2] == s@[i + 2]);
                bv_codepoint_3(b0, b1, s@[i + 2]);
                bv_masks(b0, b1);
            }
            if (b0 == 0xe0 && b1 < 0xa0) || (b0 == 0xed && b1 >= 0xa0) {
                proof {
                    lemma_reject(s@, i as int);
                }
                return false;
            }
            proof {
                assert(valid_first_scalar(t));
                assert(length_of_first_scalar(t) == 3);
            }
            w = 3;
        } else if 0xf0 <= b0 && b0 <= 0xf4 {
            if left < 4 || !(0x80 <= bytes[i + 1] && bytes[i + 1] <= 0xbf) || !(0x80 <= bytes[i
                + 2] && bytes[i + 2] <= 0xbf) || !(0x80 <= bytes[i + 3] && bytes[i + 3] <= 0xbf) {
                proof {
                    if left >= 2 {
                        assert(t[1] == s@[i + 1]);
                    }
                    if left >= 3 {
                        assert(t[2] == s@[i + 2]);
                    }
                    if left >= 4 {
                        assert(t[3] == s@[i + 3]);
                    }
                    lemma_reject(s@, i as int);
                }
                return false;
            }
            let b1 = bytes[i + 1];
            proof {
                assert(t[1] == s@[i + 1]);
                assert(t[2] == s@[i + 2]);
                assert(t[3] == s@[i + 3]);
                bv_codepoint_4(b0, b1, s@[i + 2], s@[i + 3]);
                bv_masks(b0, b1);
            }
            if (b0 == 0xf0 && b1 < 0x90) || (b0 == 0xf4 && b1 > 0x8f) {
                proof {
                    lemma_reject(s@, i as int);
                }
                return false;
            }
            proof {
                assert(not_surrogate(decode_first_codepoint(t)));
                assert(valid_first_scalar(t));
                assert(length_of_first_scalar(t) == 4);
            }
            w = 4;
        } else {
            proof {
                if 0xc0 <= b0 && b0 <= 0xc1 && left >= 2 && 0x80 <= s@[i + 1] && s@[i + 1]
                    <= 0xbf {
                    assert(t[1] == s@[i + 1]);
                    bv_codepoint_2(b0, s@[i + 1]);
                }
                if 0xf5 <= b0 && b0 <= 0xf7 && left >= 4 && 0x80 <= s@[i + 1] && s@[i + 1] <= 0xbf
                    && 0x80 <= s@[i + 2] && s@[i + 2] <= 0xbf && 0x80 <= s@[i + 3] && s@[i + 3]
                    <= 0xbf {
                    assert(t[1] == s@[i + 1]);
                    assert(t[2] == s@[i + 2]);
                    assert(t[3] == s@[i + 3]);
                    bv_codepoint_4(b0, s@[i + 1], s@[i + 2], s@[i + 3]);
                    bv_masks(b0, s@[i + 1]);
                }
                lemma_reject(s@, i as int);
            }
            return false;
        }
        proof {
            partial_valid_utf8_extend(s@, i as int);
        }
        i = i + w;
    }
    proof {
        assert(s@.subrange(0, n as int) =~= s@);
    }
    true
}

/// The slice of `s` between byte positions `i` and `j`, both of which
/// must be character boundaries.
pub(crate) fn substr<'a>(s: &'a str, i: usize, j: usize) -> (r: &'a str)
    requires
        i <= j <= s.spec_bytes().len(),
        is_char_boundary(s.spec_bytes(), i as int),
        is_char_boundary(s.spec_bytes(), j as int),
    ensures
        r.spec_bytes() == s.spec_bytes().subrange(i as int, j as int),
{
    proof {
        broadcast use encode_utf8_valid_utf8, valid_utf8_split, is_char_boundary_iff_not_is_continuation_byte, is_char_boundary_start_end_of_seq;

        let b = s.spec_bytes();
        let pre = b.subrange(0, j as int);
        assert(valid_utf8(pre));
        if i < j {
            assert(pre[i as int] == b[i as int]);
            assert(!is_continuation_byte(pre[i as int]));
            assert(is_char_boundary(pre, i as int));
        } else {
            assert(is_char_boundary(pre, pre.len() as int));
        }
    }
    let (pre, _) = s.split_at(j);
    let (_, r) = pre.split_at(i);
    proof {
        assert(pre.spec_bytes().subrange(i as int, pre.spec_bytes().len() as int)
            =~= s.spec_bytes().subrange(i as int, j as int));
    }
    r
}

/// A valid UTF-8 prefix followed by bytes that do not begin a valid
/// character makes the whole sequence invalid.
proof fn lemma_reject(s: Seq<u8>, i: int)
    requires
        0 <= i < s.len(),
        partial_valid_utf8(s, i),
        !valid_first_scalar(s.subrange(i, s.len() as int)),
    ensures
        !valid_utf8(s),
{
    let t = s.subrange(i, s.len() as int);
    assert(t.len() > 0);
    assert(!valid_utf8(t));
    partial_valid_partial_invalid_utf8(s, i);
}

} // verus!
