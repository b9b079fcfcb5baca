//! Counting the characters of a transcription.
//!
//! The character counters grow by the number of non-whitespace characters in
//! the transcribed text: characters, not bytes, so multi-byte scripts count
//! each glyph once. The text is UTF-8; a byte that breaks the encoding is
//! counted as one (non-whitespace) character, the way a lossy decode shows a
//! replacement character for it.

use vstd::prelude::*;

verus! {

/// Whether `b` is a UTF-8 continuation byte.
pub open spec fn is_cont(b: u8) -> bool {
    0x80 <= b <= 0xBF
}

/// How many bytes the first character of `s` occupies: the length of a
/// well-formed UTF-8 sequence, or one for a byte that breaks the encoding.
pub open spec fn first_char_len(s: Seq<u8>) -> int {
    let b0 = s[0];
    if b0 < 0x80 {
        1
    } else if 0xC2 <= b0 <= 0xDF && s.len() >= 2 && is_cont(s[1]) {
        2
    } else if 0xE0 <= b0 <= 0xEF && s.len() >= 3 && is_cont(s[2]) && (if b0 == 0xE0 {
        0xA0 <= s[1] <= 0xBF
    } else if b0 == 0xED {
        0x80 <= s[1] <= 0x9F
    } else {
        is_cont(s[1])
    }) {
        3
    } else if 0xF0 <= b0 <= 0xF4 && s.len() >= 4 && is_cont(s[2]) && is_cont(s[3]) && (if b0
        == 0xF0 {
        0x90 <= s[1] <= 0xBF
    } else if b0 == 0xF4 {
        0x80 <= s[1] <= 0x8F
    } else {
        is_cont(s[1])
    }) {
        4
    } else {
        1
    }
}

/// The code point of the first character of `s`, or the replacement
/// character's for a byte that breaks the encoding.
pub open spec fn first_char_cp(s: Seq<u8>) -> int {
    let b0 = s[0];
    let l = first_char_len(s);
    if b0 < 0x80 {
        b0 as int
    } else if l == 2 {
        (b0 - 0xC0) * 0x40 + (s[1] - 0x80)
    } else if l == 3 {
        (b0 - 0xE0) * 0x1000 + (s[1] - 0x80) * 0x40 + (s[2] - 0x80)
    } else if l == 4 {
        (b0 - 0xF0) * 0x40000 + (s[1] - 0x80) * 0x1000 + (s[2] - 0x80) * 0x40 + (s[3] - 0x80)
    } else {
        0xFFFD
    }
}

/// The Unicode whitespace code points, as the standard library's whitespace
/// test knows them.
pub open spec fn is_ws_cp(cp: int) -> bool {
    cp == 0x09 || cp == 0x0A || cp == 0x0B || cp == 0x0C || cp == 0x0D || cp == 0x20 || cp == 0x85
        || cp == 0xA0 || cp == 0x1680 || (0x2000 <= cp <= 0x200A) || cp == 0x2028 || cp == 0x2029
        || cp == 0x202F || cp == 0x205F || cp == 0x3000
}

/// How many non-whitespace characters the text holds.
pub open spec fn nonws_char_count(s: Seq<u8>) -> nat
    decreases s.len(),
{
    if s.len() == 0 {
        0
    } else {
        let l = first_char_len(s);
        let rest = if l <= s.len() {
            s.subrange(l, s.len() as int)
        } else {
            Seq::<u8>::empty()
        };
        (if is_ws_cp(first_char_cp(s)) {
            0
        } else {
            1nat
        }) + nonws_char_count(rest)
    }
}

/// Whether the code point is whitespace.
fn ws_cp(cp: u32) -> (r: bool)
    ensures
        r == is_ws_cp(cp as int),
{
    cp == 0x09 || cp == 0x0A || cp == 0x0B || cp == 0x0C || cp == 0x0D || cp == 0x20 || cp == 0x85
        || cp == 0xA0 || cp == 0x1680 || (0x2000 <= cp && cp <= 0x200A) || cp == 0x2028 || cp
        == 0x2029 || cp == 0x202F || cp == 0x205F || cp == 0x3000
}

/// Count the non-whitespace characters of the text.
pub fn count_nonws_chars(s: &[u8]) -> (r: u64)
    ensures
        r == nonws_char_count(s@),
{
    let mut i: usize = 0;
    let mut count: u64 = 0;
    proof {
        assert(s@.subrange(0, s@.len() as int) =~= s@);
    }
    while i < s.len()
        invariant
            i <= s.len(),
            count <= i,
            count + nonws_char_count(s@.subrange(i as int, s@.len() as int)) == nonws_char_count(
                s@,
            ),
        decreases s.len() - i,
    {
        let ghost suf = s@.subrange(i as int, s@.len() as int);
        let b0 = s[i];
        let mut l: usize = 1;
        let mut cp: u32 = b0 as u32;
        if b0 < 0x80 {
            l = 1;
            cp = b0 as u32;
        } else if 0xC2 <= b0 && b0 <= 0xDF && s.len() - i >= 2 && 0x80 <= s[i + 1] && s[i + 1]
            <= 0xBF {
            l = 2;
            cp = (b0 - 0xC0) as u32 * 0x40 + (s[i + 1] - 0x80) as u32;
        } else if 0xE0 <= b0 && b0 <= 0xEF && s.len() - i >= 3 && 0x80 <= s[i + 2] && s[i + 2]
            <= 0xBF && (if b0 == 0xE0 {
            0xA0 <= s[i + 1] && s[i + 1] <= 0xBF
        } else if b0 == 0xED {
            0x80 <= s[i + 1] && s[i + 1] <= 0x9F
        } else {
            0x80 <= s[i + 1] && s[i + 1] <= 0xBF
        }) {
            l = 3;
            cp = (b0 - 0xE0) as u32 * 0x1000 + (s[i + 1] - 0x80) as u32 * 0x40 + (s[i + 2]
                - 0x80) as u32;
        } else if 0xF0 <= b0 && b0 <= 0xF4 && s.len() - i >= 4 && 0x80 <= s[i + 2] && s[i + 2]
            <= 0xBF && 0x80 <= s[i + 3] && s[i + 3] <= 0xBF && (if b0 == 0xF0 {
            0x90 <= s[i + 1] && s[i + 1] <= 0xBF
        } else if b0 == 0xF4 {
            0x80 <= s[i + 1] && s[i + 1] <= 0x8F
        } else {
            0x80 <= s[i + 1] && s[i + 1] <= 0xBF
        }) {
            l = 4;
            cp = (b0 - 0xF0) as u32 * 0x40000 + (s[i + 1] - 0x80) as u32 * 0x1000 + (s[i + 2]
                - 0x80) as u32 * 0x40 + (s[i + 3] - 0x80) as u32;
        } else {
            l = 1;
            cp = 0xFFFD;
        }
        proof {
            assert(suf[0] == s@[i as int]);
            if suf.len() >= 2 {
                assert(suf[1] == s@[i + 1]);
            }
            if suf.len() >= 3 {
                assert(suf[2] == s@[i + 2]);
            }
            if suf.len() >= 4 {
                assert(suf[3] == s@[i + 3]);
            }
            assert(first_char_len(suf) == l);
            assert(first_char_cp(suf) == cp);
            assert(s@.subrange(i + l, s@.len() as int) =~= suf.subrange(l as int, suf.len() as int));
        }
        if !ws_cp(cp) {
            count = count + 1;
        }
        i = i + l;
    }
    proof {
        assert(s@.subrange(i as int, s@.len() as int) =~= Seq::<u8>::empty());
    }
    count
}

/// How many characters the text holds, whitespace included.
pub open spec fn char_count(s: Seq<u8>) -> nat
    decreases s.len(),
{
    if s.len() == 0 {
        0
    } else {
        let l = first_char_len(s);
        let rest = if l <= s.len() {
            s.subrange(l, s.len() as int)
        } else {
            Seq::<u8>::empty()
        };
        1 + char_count(rest)
    }
}

/// Count the characters of the text.
pub fn count_chars(s: &[u8]) -> (r: u64)
    ensures
        r == char_count(s@),
{
    let mut i: usize = 0;
    let mut count: u64 = 0;
    proof {
        assert(s@.subrange(0, s@.len() as int) =~= s@);
    }
    while i < s.len()
        invariant
            i <= s.len(),
            count <= i,
            count + char_count(s@.subrange(i as int, s@.len() as int)) == char_count(s@),
        decreases s.len() - i,
    {
        let ghost suf = s@.subrange(i as int, s@.len() as int);
        let b0 = s[i];
        let mut l: usize = 1;
        if b0 < 0x80 {
            l = 1;
        } else if 0xC2 <= b0 && b0 <= 0xDF && s.len() - i >= 2 && 0x80 <= s[i + 1] && s[i + 1]
            <= 0xBF {
            l = 2;
        } else if 0xE0 <= b0 && b0 <= 0xEF && s.len() - i >= 3 && 0x80 <= s[i + 2] && s[i + 2]
            <= 0xBF && (if b0 == 0xE0 {
            0xA0 <= s[i + 1] && s[i + 1] <= 0xBF
        } else if b0 == 0xED {
            0x80 <= s[i + 1] && s[i + 1] <= 0x9F
        } else {
            0x80 <= s[i + 1] && s[i + 1] <= 0xBF
        }) {
            l = 3;
        } else if 0xF0 <= b0 && b0 <= 0xF4 && s.len() - i >= 4 && 0x80 <= s[i + 2] && s[i + 2]
            <= 0xBF && 0x80 <= s[i + 3] && s[i + 3] <= 0xBF && (if b0 == 0xF0 {
            0x90 <= s[i + 1] && s[i + 1] <= 0xBF
        } else if b0 == 0xF4 {
            0x80 <= s[i + 1] && s[i + 1] <= 0x8F
        } else {
            0x80 <= s[i + 1] && s[i + 1] <= 0xBF
        }) {
            l = 4;
        } else {
            l = 1;
        }
        proof {
            assert(suf[0] == s@[i as int]);
            if suf.len() >= 2 {
                assert(suf[1] == s@[i + 1]);
            }
            if suf.len() >= 3 {
                assert(suf[2] == s@[i + 2]);
            }
            if suf.len() >= 4 {
                assert(suf[3] == s@[i + 3]);
            }
            assert(first_char_len(suf) == l);
            assert(s@.subrange(i + l, s@.len() as int) =~= suf.subrange(l as int, suf.len() as int));
        }
        count = count + 1;
        i = i + l;
    }
    proof {
        assert(s@.subrange(i as int, s@.len() as int) =~= Seq::<u8>::empty());
    }
    count
}

} // verus!
