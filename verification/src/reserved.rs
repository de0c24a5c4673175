//! Reserved device name detection.
//!
//! Windows-family file systems reserve the device names `AUX`, `CON`,
//! `PRN`, `NUL`, `COM0`-`COM9`, `LPT0`-`LPT9`, `CONIN$` and `CONOUT$`:
//! a file may not use one, case-insensitively, bare or with an extension.
//! [`split_at_reserved_name`] scans a component for the first such name in
//! a single pass, tracking at most one candidate at a time. This is
//! possible because the first character of every name selects at most one
//! family (`a`, `n`, `p`, `c`, `l`), and within the `c` family the third
//! character (`n` vs `m`) separates `CON`/`CONIN$`/`CONOUT$` from `COM?`.
//! A mismatch restarts the scan at the current character; there is no
//! backtracking. One consequence, inherited deliberately: a `CON` that
//! starts to extend towards `CONIN$`/`CONOUT$` and fails deep into the
//! extension is not reported (`CONI` alone holds no match), while a `CON`
//! whose very next character is not `i`/`o` is reported retroactively with
//! that character left outside the match (`CON7` splits as `"", "7"`).
//!
//! The scan works on bytes. Every reserved name is ASCII, and in UTF-8
//! every byte of a multi-byte character is `0x80` or above, so scanning
//! bytes and scanning characters agree: a non-ASCII byte simply drops the
//! current candidate, as a non-ASCII character does.

use vstd::prelude::*;
use vstd::string::StringSliceAdditionalSpecFns;
use vstd::utf8::*;

use crate::unicode::lemma_ascii_boundaries;

verus! {

broadcast use vstd::utf8::encode_utf8_valid_utf8, vstd::utf8::is_char_boundary_iff_not_is_continuation_byte, vstd::utf8::is_char_boundary_start_end_of_seq;

/// ASCII-lowercases a byte; bytes outside `A`-`Z` are left as they are.
pub open spec fn lower_byte(b: u8) -> u8 {
    if 65 <= b <= 90 {
        (b + 32) as u8
    } else {
        b
    }
}

/// An ASCII decimal digit.
pub open spec fn is_digit_byte(b: u8) -> bool {
    48 <= b <= 57
}

/// The candidate match in progress: the prefix of a reserved name seen so
/// far. `Con` may complete as `CON` or extend towards `CONIN$`/`CONOUT$`.
#[derive(Clone, Copy, Debug)]
pub enum RnState {
    A,
    Au,
    N,
    Nu,
    P,
    Pr,
    C,
    Co,
    Con,
    Coni,
    Conin,
    Cono,
    Conou,
    Conout,
    Com,
    L,
    Lp,
    Lpt,
}

/// The lowercased text that a candidate state has matched so far.
pub open spec fn state_text(st: RnState) -> Seq<u8> {
    match st {
        RnState::A => seq![97u8],
        RnState::Au => seq![97u8, 117u8],
        RnState::N => seq![110u8],
        RnState::Nu => seq![110u8, 117u8],
        RnState::P => seq![112u8],
        RnState::Pr => seq![112u8, 114u8],
        RnState::C => seq![99u8],
        RnState::Co => seq![99u8, 111u8],
        RnState::Con => seq![99u8, 111u8, 110u8],
        RnState::Coni => seq![99u8, 111u8, 110u8, 105u8],
        RnState::Conin => seq![99u8, 111u8, 110u8, 105u8, 110u8],
        RnState::Cono => seq![99u8, 111u8, 110u8, 111u8],
        RnState::Conou => seq![99u8, 111u8, 110u8, 111u8, 117u8],
        RnState::Conout => seq![99u8, 111u8, 110u8, 111u8, 117u8, 116u8],
        RnState::Com => seq![99u8, 111u8, 109u8],
        RnState::L => seq![108u8],
        RnState::Lp => seq![108u8, 112u8],
        RnState::Lpt => seq![108u8, 112u8, 116u8],
    }
}

/// Restarting the scan at byte `b`: the byte either begins a new
/// candidate (one of `a`, `n`, `p`, `c`, `l`, case-insensitively) or
/// leaves the scan with no candidate.
pub open spec fn rn_restart(b: u8) -> Option<RnState> {
    let l = lower_byte(b);
    if l == 97 {
        Some(RnState::A)
    } else if l == 110 {
        Some(RnState::N)
    } else if l == 112 {
        Some(RnState::P)
    } else if l == 99 {
        Some(RnState::C)
    } else if l == 108 {
        Some(RnState::L)
    } else {
        None
    }
}

/// A byte that completes the candidate `st` into a full reserved name.
/// The result is the pair of offsets, back from the current index, to the
/// start of the match and to its end: the end offset is `0` except for
/// the retroactive `CON` completion, whose current byte (an ASCII byte
/// other than `i`/`o`) stays outside the match.
pub open spec fn rn_completion(st: RnState, b: u8) -> Option<(int, int)> {
    let l = lower_byte(b);
    match st {
        RnState::Au => if l == 120 {
            Some((2, 0))
        } else {
            None
        },
        RnState::Nu => if l == 108 {
            Some((2, 0))
        } else {
            None
        },
        RnState::Pr => if l == 110 {
            Some((2, 0))
        } else {
            None
        },
        RnState::Con => if b < 0x80 && l != 105 && l != 111 {
            Some((3, 1))
        } else {
            None
        },
        RnState::Com => if is_digit_byte(b) {
            Some((3, 0))
        } else {
            None
        },
        RnState::Conin => if b == 36 {
            Some((5, 0))
        } else {
            None
        },
        RnState::Conout => if b == 36 {
            Some((6, 0))
        } else {
            None
        },
        RnState::Lpt => if is_digit_byte(b) {
            Some((3, 0))
        } else {
            None
        },
        _ => None,
    }
}

/// One step of the scan when byte `b` does not complete a match: either
/// the candidate grows, or the scan restarts at `b`. A non-ASCII byte
/// drops the candidate entirely.
pub open spec fn rn_transition(st: Option<RnState>, b: u8) -> Option<RnState> {
    let l = lower_byte(b);
    match st {
        None => rn_restart(b),
        Some(x) => if b >= 0x80 {
            None
        } else {
            match x {
                RnState::A => if l == 117 {
                    Some(RnState::Au)
                } else {
                    rn_restart(b)
                },
                RnState::N => if l == 117 {
                    Some(RnState::Nu)
                } else {
                    rn_restart(b)
                },
                RnState::P => if l == 114 {
                    Some(RnState::Pr)
                } else {
                    rn_restart(b)
                },
                RnState::C => if l == 111 {
                    Some(RnState::Co)
                } else {
                    rn_restart(b)
                },
                RnState::Co => if l == 110 {
                    Some(RnState::Con)
                } else if l == 109 {
                    Some(RnState::Com)
                } else {
                    rn_restart(b)
                },
                RnState::Con => if l == 105 {
                    Some(RnState::Coni)
                } else {
                    Some(RnState::Cono)
                },
                RnState::Coni => if l == 110 {
                    Some(RnState::Conin)
                } else {
                    rn_restart(b)
                },
                RnState::Cono => if l == 117 {
                    Some(RnState::Conou)
                } else {
                    rn_restart(b)
                },
                RnState::Conou => if l == 116 {
                    Some(RnState::Conout)
                } else {
                    rn_restart(b)
                },
                RnState::L => if l == 112 {
                    Some(RnState::Lp)
                } else {
                    rn_restart(b)
                },
                RnState::Lp => if l == 116 {
                    Some(RnState::Lpt)
                } else {
                    rn_restart(b)
                },
                _ => rn_restart(b),
            }
        },
    }
}

/// The scan from index `i` with candidate `st`: the first match found at
/// or after `i`, as the pair of its start and end indices in `s`. At the
/// end of the input a pending bare `CON` is reported retroactively.
pub open spec fn rn_scan(s: Seq<u8>, i: int, st: Option<RnState>) -> Option<(int, int)>
    decreases s.len() - i,
{
    if i < 0 || i >= s.len() {
        if st == Some(RnState::Con) {
            Some((s.len() - 3, s.len() as int))
        } else {
            None
        }
    } else {
        let done = match st {
            Some(x) => rn_completion(x, s[i]),
            None => None,
        };
        match done {
            Some((sb, eb)) => Some((i - sb, i - eb + 1)),
            None => rn_scan(s, i + 1, rn_transition(st, s[i])),
        }
    }
}

/// Where the scan of the whole component finds the first reserved name,
/// if anywhere: the match's start and end indices.
pub open spec fn reserved_match(s: Seq<u8>) -> Option<(int, int)> {
    rn_scan(s, 0, None)
}

/// `t` is the lowercased text of one of the reserved device names.
pub open spec fn is_reserved_name(t: Seq<u8>) -> bool {
    ||| t == seq![97u8, 117u8, 120u8]  // aux
    ||| t == seq![110u8, 117u8, 108u8]  // nul
    ||| t == seq![112u8, 114u8, 110u8]  // prn
    ||| t == seq![99u8, 111u8, 110u8]  // con
    ||| (t.len() == 4 && t.take(3) == seq![99u8, 111u8, 109u8] && is_digit_byte(t[3]))  // com0-com9
    ||| (t.len() == 4 && t.take(3) == seq![108u8, 112u8, 116u8] && is_digit_byte(t[3]))  // lpt0-lpt9
    ||| t == seq![99u8, 111u8, 110u8, 105u8, 110u8, 36u8]  // conin$
    ||| t == seq![99u8, 111u8, 110u8, 111u8, 117u8, 116u8, 36u8]  // conout$
}

/// The lowercased image of a byte sequence.
pub open spec fn lower_seq(s: Seq<u8>) -> Seq<u8> {
    s.map_values(|b: u8| lower_byte(b))
}

/// The candidate `st` fits at position `i` of `s`: the bytes just before
/// `i` lowercase to the candidate's matched text.
pub open spec fn state_fits(s: Seq<u8>, i: int, st: RnState) -> bool {
    let t = state_text(st);
    &&& t.len() <= i <= s.len()
    &&& forall|k: int| 0 <= k < t.len() ==> lower_byte(s[i - t.len() + k]) == t[k]
}

/// A step of the scan preserves the fit of the candidate.
/// The candidate `y` extends the candidate `x` by the byte at `i`.
proof fn lemma_extend_fits(s: Seq<u8>, i: int, x: RnState, y: RnState)
    requires
        0 <= i < s.len(),
        state_fits(s, i, x),
        state_text(y) == state_text(x).push(lower_byte(s[i])),
    ensures
        state_fits(s, i + 1, y),
{
    let tx = state_text(x);
    let ty = state_text(y);
    assert forall|k: int| 0 <= k < ty.len() implies lower_byte(s[i + 1 - ty.len() + k]) == ty[k] by {
        if k < ty.len() - 1 {
            assert(lower_byte(s[i - tx.len() + k]) == tx[k]);
        }
    }
}

/// A step of the scan preserves the fit of the candidate.
proof fn lemma_transition_fits(s: Seq<u8>, i: int, st: Option<RnState>)
    requires
        0 <= i < s.len(),
        st matches Some(x) ==> state_fits(s, i, x) && rn_completion(x, s[i]) is None,
    ensures
        rn_transition(st, s[i]) matches Some(y) ==> state_fits(s, i + 1, y),
{
    let b = s[i];
    let l = lower_byte(b);
    if let Some(y) = rn_transition(st, s[i]) {
        match st {
            None => {
                assert(state_fits(s, i + 1, y));
            },
            Some(x) => {
                if rn_restart(b) == Some(y) && state_text(y).len() == 1 {
                    assert(state_fits(s, i + 1, y));
                }
                match (x, y) {
                    (RnState::A, RnState::Au) => {
                        assert(state_text(y) =~= state_text(x).push(l));
                        lemma_extend_fits(s, i, x, y);
                    },
                    (RnState::N, RnState::Nu) => {
                        assert(state_text(y) =~= state_text(x).push(l));
                        lemma_extend_fits(s, i, x, y);
                    },
                    (RnState::P, RnState::Pr) => {
                        assert(state_text(y) =~= state_text(x).push(l));
                        lemma_extend_fits(s, i, x, y);
                    },
                    (RnState::C, RnState::Co) => {
                        assert(state_text(y) =~= state_text(x).push(l));
                        lemma_extend_fits(s, i, x, y);
                    },
                    (RnState::Co, RnState::Con) => {
                        assert(state_text(y) =~= state_text(x).push(l));
                        lemma_extend_fits(s, i, x, y);
                    },
                    (RnState::Co, RnState::Com) => {
                        assert(state_text(y) =~= state_text(x).push(l));
                        lemma_extend_fits(s, i, x, y);
                    },
                    (RnState::Con, RnState::Coni) => {
                        assert(state_text(y) =~= state_text(x).push(l));
                        lemma_extend_fits(s, i, x, y);
                    },
                    (RnState::Con, RnState::Cono) => {
                        assert(state_text(y) =~= state_text(x).push(l));
                        lemma_extend_fits(s, i, x, y);
                    },
                    (RnState::Coni, RnState::Conin) => {
                        assert(state_text(y) =~= state_text(x).push(l));
                        lemma_extend_fits(s, i, x, y);
                    },
                    (RnState::Cono, RnState::Conou) => {
                        assert(state_text(y) =~= state_text(x).push(l));
                        lemma_extend_fits(s, i, x, y);
                    },
                    (RnState::Conou, RnState::Conout) => {
                        assert(state_text(y) =~= state_text(x).push(l));
                        lemma_extend_fits(s, i, x, y);
                    },
                    (RnState::L, RnState::Lp) => {
                        assert(state_text(y) =~= state_text(x).push(l));
                        lemma_extend_fits(s, i, x, y);
                    },
                    (RnState::Lp, RnState::Lpt) => {
                        assert(state_text(y) =~= state_text(x).push(l));
                        lemma_extend_fits(s, i, x, y);
                    },
                    _ => {},
                }
            },
        }
    }
}

/// Every match the scan reports is a reserved name at the reported
/// place: the match indices are in bounds and the bytes between them
/// lowercase to one of the reserved names.
pub proof fn lemma_rn_scan_sound(s: Seq<u8>, i: int, st: Option<RnState>)
    requires
        0 <= i <= s.len(),
        st matches Some(x) ==> state_fits(s, i, x),
    ensures
        rn_scan(s, i, st) matches Some((a, b)) ==> {
            &&& 0 <= a <= b <= s.len()
            &&& is_reserved_name(lower_seq(s.subrange(a, b)))
        },
    decreases s.len() - i,
{
    if i >= s.len() {
        if st == Some(RnState::Con) {
            let a = s.len() - 3;
            let b = s.len() as int;
            assert(lower_seq(s.subrange(a, b)) =~= state_text(RnState::Con));
        }
    } else {
        let done = match st {
            Some(x) => rn_completion(x, s[i]),
            None => None,
        };
        match done {
            Some((sb, eb)) => {
                let x = st->0;
                let a = i - sb;
                let b = i - eb + 1;
                let t = state_text(x);
                assert(sb == t.len());
                if eb == 0 {
                    let u = t.push(lower_byte(s[i]));
                    assert(lower_seq(s.subrange(a, b)) =~= u);
                    assert(is_reserved_name(u)) by {
                        match x {
                            RnState::Au => {
                                assert(u =~= seq![97u8, 117u8, 120u8]);
                            },
                            RnState::Nu => {
                                assert(u =~= seq![110u8, 117u8, 108u8]);
                            },
                            RnState::Pr => {
                                assert(u =~= seq![112u8, 114u8, 110u8]);
                            },
                            RnState::Conin => {
                                assert(u =~= seq![99u8, 111u8, 110u8, 105u8, 110u8, 36u8]);
                            },
                            RnState::Conout => {
                                assert(u =~= seq![99u8, 111u8, 110u8, 111u8, 117u8, 116u8, 36u8]);
                            },
                            RnState::Com => {
                                assert(u.take(3) =~= seq![99u8, 111u8, 109u8]);
                                assert(is_digit_byte(u[3]));
                            },
                            RnState::Lpt => {
                                assert(u.take(3) =~= seq![108u8, 112u8, 116u8]);
                                assert(is_digit_byte(u[3]));
                            },
                            _ => {},
                        }
                    }
                } else {
                    assert(lower_seq(s.subrange(a, b)) =~= t);
                }
            },
            None => {
                lemma_transition_fits(s, i, st);
                lemma_rn_scan_sound(s, i + 1, rn_transition(st, s[i]));
            },
        }
    }
}

/// Every reported match of the whole component is a reserved name.
pub proof fn lemma_reserved_match_sound(s: Seq<u8>)
    ensures
        reserved_match(s) matches Some((a, b)) ==> {
            &&& 0 <= a <= b <= s.len()
            &&& is_reserved_name(lower_seq(s.subrange(a, b)))
        },
{
    lemma_rn_scan_sound(s, 0, None);
}

/// All bytes of `s` are ASCII spaces.
pub open spec fn all_spaces(s: Seq<u8>) -> bool {
    forall|k: int| 0 <= k < s.len() ==> s[k] == 32
}

/// Index of the first byte of `s` at or after `i` that is not an ASCII
/// space, or the length if there is none.
pub open spec fn skip_spaces(s: Seq<u8>, i: int) -> int
    decreases s.len() - i,
{
    if i < 0 || i >= s.len() {
        s.len() as int
    } else if s[i] == 32 {
        skip_spaces(s, i + 1)
    } else {
        i
    }
}

/// After trimming leading spaces, `s` is empty or begins with a period:
/// the text after a reserved name must be nothing or an extension.
pub open spec fn reserved_tail_ok(s: Seq<u8>) -> bool {
    let j = skip_spaces(s, 0);
    j == s.len() || s[j] == 46
}

/// ASCII-lowercases a byte.
fn lower_ascii(b: u8) -> (r: u8)
    ensures
        r == lower_byte(b),
{
    if 65 <= b && b <= 90 {
        b + 32
    } else {
        b
    }
}

/// Restarts the scan at byte `b`.
fn rn_restart_step(b: u8) -> (r: Option<RnState>)
    ensures
        r == rn_restart(b),
{
    let l = lower_ascii(b);
    if l == 97 {
        Some(RnState::A)
    } else if l == 110 {
        Some(RnState::N)
    } else if l == 112 {
        Some(RnState::P)
    } else if l == 99 {
        Some(RnState::C)
    } else if l == 108 {
        Some(RnState::L)
    } else {
        None
    }
}

/// Advances the candidate by byte `b` when it completes no match.
fn rn_transition_step(st: Option<RnState>, b: u8) -> (r: Option<RnState>)
    ensures
        r == rn_transition(st, b),
{
    let l = lower_ascii(b);
    match st {
        None => rn_restart_step(b),
        Some(x) => if b >= 0x80 {
            None
        } else {
            match x {
                RnState::A => if l == 117 {
                    Some(RnState::Au)
                } else {
                    rn_restart_step(b)
                },
                RnState::N => if l == 117 {
                    Some(RnState::Nu)
                } else {
                    rn_restart_step(b)
                },
                RnState::P => if l == 114 {
                    Some(RnState::Pr)
                } else {
                    rn_restart_step(b)
                },
                RnState::C => if l == 111 {
                    Some(RnState::Co)
                } else {
                    rn_restart_step(b)
                },
                RnState::Co => if l == 110 {
                    Some(RnState::Con)
                } else if l == 109 {
                    Some(RnState::Com)
                } else {
                    rn_restart_step(b)
                },
                RnState::Con => if l == 105 {
                    Some(RnState::Coni)
                } else {
                    Some(RnState::Cono)
                },
                RnState::Coni => if l == 110 {
                    Some(RnState::Conin)
                } else {
                    rn_restart_step(b)
                },
                RnState::Cono => if l == 117 {
                    Some(RnState::Conou)
                } else {
                    rn_restart_step(b)
                },
                RnState::Conou => if l == 116 {
                    Some(RnState::Conout)
                } else {
                    rn_restart_step(b)
                },
                RnState::L => if l == 112 {
                    Some(RnState::Lp)
                } else {
                    rn_restart_step(b)
                },
                RnState::Lp => if l == 116 {
                    Some(RnState::Lpt)
                } else {
                    rn_restart_step(b)
                },
                _ => rn_restart_step(b),
            }
        },
    }
}

/// Reports whether byte `b` completes the candidate `x`, and with which
/// offsets back from the current index.
fn rn_completion_step(x: RnState, b: u8) -> (r: Option<(usize, usize)>)
    ensures
        r is Some <==> rn_completion(x, b) is Some,
        r matches Some(q) ==> rn_completion(x, b) == Some((q.0 as int, q.1 as int)),
{
    let l = lower_ascii(b);
    match x {
        RnState::Au => if l == 120 {
            Some((2, 0))
        } else {
            None
        },
        RnState::Nu => if l == 108 {
            Some((2, 0))
        } else {
            None
        },
        RnState::Pr => if l == 110 {
            Some((2, 0))
        } else {
            None
        },
        RnState::Con => if b < 0x80 && l != 105 && l != 111 {
            Some((3, 1))
        } else {
            None
        },
        RnState::Com => if 48 <= b && b <= 57 {
            Some((3, 0))
        } else {
            None
        },
        RnState::Conin => if b == 36 {
            Some((5, 0))
        } else {
            None
        },
        RnState::Conout => if b == 36 {
            Some((6, 0))
        } else {
            None
        },
        RnState::Lpt => if 48 <= b && b <= 57 {
            Some((3, 0))
        } else {
            None
        },
        _ => None,
    }
}

/// Runs the scan over raw bytes and reports the first match's start and
/// end positions. When the bytes are valid UTF-8, both positions are
/// character boundaries: every matched character is ASCII, and so is the
/// character just before the reported end.
fn find_reserved_match(bytes: &[u8]) -> (r: Option<(usize, usize)>)
    ensures
        match reserved_match(bytes@) {
            Some((a, b)) => r matches Some(p) && p.0 == a && p.1 == b && 0 <= a <= b
                <= bytes@.len(),
            None => r is None,
        },
        valid_utf8(bytes@) ==> match r {
            Some(p) => is_char_boundary(bytes@, p.0 as int) && is_char_boundary(
                bytes@,
                p.1 as int,
            ),
            None => true,
        },
{
    let ghost s = bytes@;
    let n = bytes.len();
    let mut st: Option<RnState> = None;
    let mut i: usize = 0;
    while i < n
        invariant
            bytes@ == s,
            n == s.len(),
            0 <= i <= n,
            rn_scan(s, 0, None) == rn_scan(s, i as int, st),
            st matches Some(x) ==> state_fits(s, i as int, x),
        decreases n - i,
    {
        let b = bytes[i];
        let done = match st {
            Some(x) => rn_completion_step(x, b),
            None => None,
        };
        if let Some((sb, eb)) = done {
            proof {
                let x = st->0;
                assert(state_text(x).len() <= i);
                assert(sb == state_text(x).len());
                assert(lower_byte(s[i - sb]) == state_text(x)[0]);
            }
            let a = i - sb;
            let bidx = i + 1 - eb;
            proof {
                assert(rn_scan(s, 0, None) == Some((a as int, bidx as int)));
                if valid_utf8(s) {
                    assert(s[a as int] < 0x80);
                    lemma_ascii_boundaries(s, a as int);
                    if bidx < n {
                        assert(s[i as int] < 0x80);
                        lemma_ascii_boundaries(s, i as int);
                    } else {
                        assert(is_char_boundary(s, n as int));
                    }
                }
            }
            return Some((a, bidx));
        }
        proof {
            lemma_transition_fits(s, i as int, st);
        }
        st = rn_transition_step(st, b);
        i += 1;
    }
    if matches!(st, Some(RnState::Con)) {
        proof {
            assert(state_fits(s, n as int, RnState::Con));
            assert(n >= 3);
            assert(rn_scan(s, 0, None) == Some((n - 3, n as int)));
            if valid_utf8(s) {
                assert(lower_byte(s[n - 3]) == state_text(RnState::Con)[0]);
                lemma_ascii_boundaries(s, n - 3);
                assert(is_char_boundary(s, n as int));
            }
        }
        return Some((n - 3, n));
    }
    None
}

/// Like `str::split_once`, but splits, case-insensitively, at the first
/// occurrence of one of the Windows reserved file names, returning the
/// text strictly before and strictly after the match. Returns `None` if
/// no reserved name occurs. [`lemma_reserved_match_sound`] says that the
/// text between the two returned parts always lowercases to one of the
/// reserved names.
pub fn split_at_reserved_name<'a>(component: &'a str) -> (r: Option<(&'a str, &'a str)>)
    ensures
        match reserved_match(component.spec_bytes()) {
            Some((a, b)) => {
                &&& r matches Some(p)
                &&& p.0.spec_bytes() == component.spec_bytes().subrange(0, a)
                &&& p.1.spec_bytes() == component.spec_bytes().subrange(
                    b,
                    component.spec_bytes().len() as int,
                )
            },
            None => r is None,
        },
{
    match find_reserved_match(component.as_bytes()) {
        Some((a, b)) => {
            let (l, _) = component.split_at(a);
            let (_, rr) = component.split_at(b);
            Some((l, rr))
        },
        None => None,
    }
}

/// Decides whether a component is rejected under the reserved-name rule:
/// a match with nothing but spaces before it and nothing but an optional
/// extension after it.
pub(crate) fn reserved_component_check(c: &[u8]) -> (r: bool)
    ensures
        r == is_reserved_component(c@),
{
    let s = Ghost(c@);
    let n = c.len();
    match find_reserved_match(c) {
        None => false,
        Some((a, b)) => {
            let ghost head = s@.subrange(0, a as int);
            let mut k: usize = 0;
            while k < a
                invariant
                    s@ == c@,
                    n == s@.len(),
                    head == s@.subrange(0, a as int),
                    reserved_match(s@) == Some((a as int, b as int)),
                    0 <= k <= a <= n,
                    forall|m: int| 0 <= m < k ==> s@[m] == 32,
                decreases a - k,
            {
                if c[k] != 32 {
                    proof {
                        assert(reserved_match(c@) == Some((a as int, b as int)));
                        assert(head[k as int] == s@[k as int]);
                        assert(head[k as int] != 32);
                        assert(!all_spaces(head));
                    }
                    return false;
                }
                k += 1;
            }
            proof {
                assert forall|m: int| 0 <= m < head.len() implies head[m] == 32 by {
                    assert(head[m] == s@[m]);
                }
                assert(all_spaces(head));
            }
            let ghost tail = s@.subrange(b as int, n as int);
            let mut j: usize = b;
            while j < n && c[j] == 32
                invariant
                    s@ == c@,
                    n == s@.len(),
                    tail == s@.subrange(b as int, n as int),
                    reserved_match(s@) == Some((a as int, b as int)),
                    0 <= a <= b <= n,
                    b <= j <= n,
                    skip_spaces(tail, 0) == skip_spaces(tail, j - b),
                decreases n - j,
            {
                proof {
                    assert(tail[j - b] == s@[j as int]);
                }
                j += 1;
            }
            proof {
                if j < n {
                    assert(tail[j - b] == s@[j as int]);
                }
                assert(skip_spaces(tail, 0) == j - b);
            }
            if j == n {
                true
            } else {
                c[j] == 46
            }
        },
    }
}

/// The component is rejected for holding a reserved name: the scan finds
/// a match, everything before it is spaces, and everything after it,
/// trimmed of leading spaces, is empty or an extension starting with a
/// period. `foo.NUL` is thus legal (text before the match), while `NUL`,
/// `NUL.txt` and `  AUX` are not.
pub open spec fn is_reserved_component(c: Seq<u8>) -> bool {
    match reserved_match(c) {
        Some((a, b)) => all_spaces(c.subrange(0, a)) && reserved_tail_ok(
            c.subrange(b, c.len() as int),
        ),
        None => false,
    }
}

} // verus!
