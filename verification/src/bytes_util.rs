//! Small byte-level helpers shared by the codecs: whitespace skipping,
//! literal-token matching, and appending to an output buffer.

use vstd::prelude::*;

verus! {

/// Whether `b` is one of the four whitespace bytes JSON allows between
/// tokens.
pub open spec fn is_ws(b: u8) -> bool {
    b == 0x20 || b == 0x09 || b == 0x0a || b == 0x0d
}

/// Where the run of whitespace starting at `i` ends.
pub open spec fn ws_end(s: Seq<u8>, i: int) -> int
    decreases s.len() - i,
{
    if i < s.len() && is_ws(s[i]) {
        ws_end(s, i + 1)
    } else {
        i
    }
}

/// The whitespace run stays within bounds and ends at a non-whitespace byte.
pub proof fn lemma_ws_end(s: Seq<u8>, i: int)
    requires
        0 <= i <= s.len(),
    ensures
        i <= ws_end(s, i) <= s.len(),
        ws_end(s, i) < s.len() ==> !is_ws(s[ws_end(s, i)]),
        forall|k: int| i <= k < ws_end(s, i) ==> is_ws(#[trigger] s[k]),
    decreases s.len() - i,
{
    if i < s.len() && is_ws(s[i]) {
        lemma_ws_end(s, i + 1);
    }
}

/// Step past whitespace.
pub fn skip_ws(s: &[u8], i: usize) -> (j: usize)
    requires
        i <= s.len(),
    ensures
        j == ws_end(s@, i as int),
        i <= j <= s.len(),
{
    proof {
        lemma_ws_end(s@, i as int);
    }
    let mut j: usize = i;
    while j < s.len() && (s[j] == 0x20 || s[j] == 0x09 || s[j] == 0x0a || s[j] == 0x0d)
        invariant
            i <= j <= s.len(),
            ws_end(s@, i as int) == ws_end(s@, j as int),
        decreases s.len() - j,
    {
        j += 1;
    }
    j
}

/// Whether the bytes of `tok` stand literally at position `i` of `s`.
pub open spec fn tok_at(s: Seq<u8>, i: int, tok: Seq<u8>) -> bool {
    i + tok.len() <= s.len() && s.subrange(i, i + tok.len() as int) == tok
}

/// What matching one literal token (after leading whitespace) yields: the
/// position just past it, or nothing.
pub open spec fn sp_tok(s: Seq<u8>, i: int, tok: Seq<u8>) -> Option<int> {
    let w = ws_end(s, i);
    if tok_at(s, w, tok) {
        Some(w + tok.len() as int)
    } else {
        None
    }
}

/// Skip whitespace, then require the bytes of `tok` to stand next.
pub fn expect_tok(s: &[u8], i: usize, tok: &[u8]) -> (r: Option<usize>)
    requires
        i <= s.len(),
    ensures
        match r {
            Some(j) => sp_tok(s@, i as int, tok@) == Some(j as int) && i <= j <= s.len(),
            None => sp_tok(s@, i as int, tok@) is None,
        },
{
    let w = skip_ws(s, i);
    if s.len() - w < tok.len() {
        proof {
            assert(!tok_at(s@, w as int, tok@));
        }
        return None;
    }
    let mut k: usize = 0;
    while k < tok.len()
        invariant
            k <= tok.len(),
            w + tok.len() <= s.len(),
            w == ws_end(s@, i as int),
            forall|t: int| 0 <= t < k ==> s@[w + t] == tok@[t],
        decreases tok.len() - k,
    {
        if s[w + k] != tok[k] {
            proof {
                assert(s@.subrange(w as int, w + tok@.len())[k as int] == s@[w + k]);
                assert(!tok_at(s@, w as int, tok@));
            }
            return None;
        }
        k += 1;
    }
    proof {
        assert(s@.subrange(w as int, w + tok@.len()) =~= tok@);
    }
    Some(w + tok.len())
}

/// Append the bytes of `seg` to `out`.
pub fn push_seg(out: &mut Vec<u8>, seg: &[u8])
    ensures
        final(out)@ == old(out)@ + seg@,
{
    let mut k: usize = 0;
    while k < seg.len()
        invariant
            k <= seg.len(),
            out@ == old(out)@ + seg@.subrange(0, k as int),
        decreases seg.len() - k,
    {
        out.push(seg[k]);
        proof {
            assert(out@ =~= old(out)@ + seg@.subrange(0, k + 1));
        }
        k += 1;
    }
    proof {
        assert(out@ =~= old(out)@ + seg@);
    }
}

/// If the suffix of `s` at `i` starts with a non-empty token whose first byte
/// is not whitespace, matching that token succeeds and leaves exactly `rest`.
pub proof fn lemma_sp_tok_exact(s: Seq<u8>, i: int, tok: Seq<u8>, rest: Seq<u8>)
    requires
        0 <= i <= s.len(),
        s.subrange(i, s.len() as int) == tok + rest,
        tok.len() > 0,
        !is_ws(tok[0]),
    ensures
        sp_tok(s, i, tok) == Some(i + tok.len() as int),
        s.subrange(i + tok.len(), s.len() as int) == rest,
{
    let suf = s.subrange(i, s.len() as int);
    assert(suf.len() == s.len() - i);
    assert(suf.len() == tok.len() + rest.len());
    assert(s[i] == suf[0]);
    assert(suf[0] == tok[0]);
    assert(ws_end(s, i) == i);
    assert forall|k: int| 0 <= k < tok.len() implies s.subrange(i, i + tok.len() as int)[k]
        == tok[k] by {
        assert(s.subrange(i, i + tok.len() as int)[k] == s[i + k]);
        assert(suf[k] == s[i + k]);
    }
    assert(s.subrange(i, i + tok.len() as int) =~= tok);
    assert forall|k: int| 0 <= k < rest.len() implies s.subrange(i + tok.len(), s.len() as int)[k]
        == rest[k] by {
        assert(suf[tok.len() + k] == s[i + tok.len() + k]);
    }
    assert(s.subrange(i + tok.len(), s.len() as int) =~= rest);
}

} // verus!
