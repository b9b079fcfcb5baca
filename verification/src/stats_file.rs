//! The on-disk form of the usage statistics.
//!
//! One JSON document holds the lifetime totals and the `today` block. The
//! writer emits a canonical, whitespace-free rendering; the reader accepts
//! the same document with any JSON whitespace between tokens, so files
//! written pretty-printed read back as well. Writing and reading back are
//! proven inverse: no field is disturbed by a trip through the file.

use vstd::prelude::*;
use crate::bytes_util::{ws_end, sp_tok, skip_ws, expect_tok, push_seg, lemma_sp_tok_exact};
use crate::date::{Date, spec_date_bytes, date_bytes_at, date_at, encode_date, parse_date, lemma_date_round_trip};
use crate::decimal::{is_digit, u64_dec_bytes, dec_val, digit_run_end, encode_u64, parse_u64_at, lemma_u64_dec_bytes, lemma_u64_round_trip};
use crate::stats::{UsageStats, UsageTotals, UsageToday, spec_rollover, spec_default_usage_stats, default_usage_stats, rollover_today_if_needed};

verus! {

/// `{`
pub open spec fn t_open() -> Seq<u8> {
    seq![0x7bu8]
}

/// `}`
pub open spec fn t_close() -> Seq<u8> {
    seq![0x7du8]
}

/// `,`
pub open spec fn t_comma() -> Seq<u8> {
    seq![0x2cu8]
}

/// `"`
pub open spec fn t_quote() -> Seq<u8> {
    seq![0x22u8]
}

/// `"totals":`
pub open spec fn kc_totals() -> Seq<u8> {
    seq![0x22u8, 0x74u8, 0x6fu8, 0x74u8, 0x61u8, 0x6cu8, 0x73u8, 0x22u8, 0x3au8]
}

/// `"time_saved_ms":`
pub open spec fn kc_time_saved_ms() -> Seq<u8> {
    seq![0x22u8, 0x74u8, 0x69u8, 0x6du8, 0x65u8, 0x5fu8, 0x73u8, 0x61u8, 0x76u8, 0x65u8, 0x64u8,
        0x5fu8, 0x6du8, 0x73u8, 0x22u8, 0x3au8]
}

/// `"total_chars":`
pub open spec fn kc_total_chars() -> Seq<u8> {
    seq![0x22u8, 0x74u8, 0x6fu8, 0x74u8, 0x61u8, 0x6cu8, 0x5fu8, 0x63u8, 0x68u8, 0x61u8, 0x72u8,
        0x73u8, 0x22u8, 0x3au8]
}

/// `"corrections":`
pub open spec fn kc_corrections() -> Seq<u8> {
    seq![0x22u8, 0x63u8, 0x6fu8, 0x72u8, 0x72u8, 0x65u8, 0x63u8, 0x74u8, 0x69u8, 0x6fu8, 0x6eu8,
        0x73u8, 0x22u8, 0x3au8]
}

/// `"today":`
pub open spec fn kc_today() -> Seq<u8> {
    seq![0x22u8, 0x74u8, 0x6fu8, 0x64u8, 0x61u8, 0x79u8, 0x22u8, 0x3au8]
}

/// `"date":`
pub open spec fn kc_date() -> Seq<u8> {
    seq![0x22u8, 0x64u8, 0x61u8, 0x74u8, 0x65u8, 0x22u8, 0x3au8]
}

/// The canonical bytes of one block of three counters, from its first key
/// through the closing brace.
pub open spec fn counters_bytes(a: u64, b: u64, c: u64) -> Seq<u8> {
    kc_time_saved_ms() + u64_dec_bytes(a as nat) + t_comma() + kc_total_chars() + u64_dec_bytes(
        b as nat,
    ) + t_comma() + kc_corrections() + u64_dec_bytes(c as nat) + t_close()
}

/// The canonical bytes of the whole stats document.
pub open spec fn spec_stats_bytes(st: UsageStats) -> Seq<u8> {
    t_open() + kc_totals() + t_open() + counters_bytes(
        st.totals.time_saved_ms,
        st.totals.total_chars,
        st.totals.corrections,
    ) + t_comma() + kc_today() + t_open() + kc_date() + t_quote() + spec_date_bytes(st.today.date)
        + t_quote() + t_comma() + counters_bytes(
        st.today.time_saved_ms,
        st.today.total_chars,
        st.today.corrections,
    ) + t_close()
}

/// What reading one counter (whitespace, then a digit run) yields.
pub open spec fn sp_num(s: Seq<u8>, i: int) -> Option<(u64, int)> {
    let w = ws_end(s, i);
    let e = digit_run_end(s, w);
    if e == w || dec_val(s.subrange(w, e)) > u64::MAX {
        None
    } else {
        Some((dec_val(s.subrange(w, e)) as u64, e))
    }
}

/// What reading a quoted `YYYY-MM-DD` date (after whitespace) yields.
pub open spec fn sp_date(s: Seq<u8>, i: int) -> Option<(Date, int)> {
    let w = ws_end(s, i);
    if w + 12 <= s.len() && s[w] == 0x22 && date_bytes_at(s, w + 1) && s[w + 11] == 0x22 {
        Some((date_at(s, w + 1), w + 12))
    } else {
        None
    }
}

/// What reading one three-counter block yields: the three values and the
/// position just past its closing brace.
pub open spec fn sp_counters(s: Seq<u8>, i: int) -> Option<((u64, u64, u64), int)> {
    match sp_tok(s, i, kc_time_saved_ms()) {
        None => None,
        Some(p1) => match sp_num(s, p1) {
            None => None,
            Some((a, p2)) => match sp_tok(s, p2, t_comma()) {
                None => None,
                Some(p3) => match sp_tok(s, p3, kc_total_chars()) {
                    None => None,
                    Some(p4) => match sp_num(s, p4) {
                        None => None,
                        Some((b, p5)) => match sp_tok(s, p5, t_comma()) {
                            None => None,
                            Some(p6) => match sp_tok(s, p6, kc_corrections()) {
                                None => None,
                                Some(p7) => match sp_num(s, p7) {
                                    None => None,
                                    Some((c, p8)) => match sp_tok(s, p8, t_close()) {
                                        None => None,
                                        Some(p9) => Some(((a, b, c), p9)),
                                    },
                                },
                            },
                        },
                    },
                },
            },
        },
    }
}

/// What reading the whole document yields: the statistics it stores, or
/// nothing if the bytes are not a stats document.
pub open spec fn spec_parse_stats(s: Seq<u8>) -> Option<UsageStats> {
    match sp_tok(s, 0, t_open()) {
        None => None,
        Some(q1) => match sp_tok(s, q1, kc_totals()) {
            None => None,
            Some(q2) => match sp_tok(s, q2, t_open()) {
                None => None,
                Some(q3) => match sp_counters(s, q3) {
                    None => None,
                    Some(((t1, t2, t3), q4)) => match sp_tok(s, q4, t_comma()) {
                        None => None,
                        Some(q5) => match sp_tok(s, q5, kc_today()) {
                            None => None,
                            Some(q6) => match sp_tok(s, q6, t_open()) {
                                None => None,
                                Some(q7) => match sp_tok(s, q7, kc_date()) {
                                    None => None,
                                    Some(q8) => match sp_date(s, q8) {
                                        None => None,
                                        Some((d, q9)) => match sp_tok(s, q9, t_comma()) {
                                            None => None,
                                            Some(q10) => match sp_counters(s, q10) {
                                                None => None,
                                                Some(((y1, y2, y3), q11)) => match sp_tok(
                                                    s,
                                                    q11,
                                                    t_close(),
                                                ) {
                                                    None => None,
                                                    Some(q12) => if ws_end(s, q12) == s.len() {
                                                        Some(
                                                            (UsageStats {
                                                                totals: (UsageTotals {
                                                                    time_saved_ms: t1,
                                                                    total_chars: t2,
                                                                    corrections: t3,
                                                                }),
                                                                today: (UsageToday {
                                                                    date: d,
                                                                    time_saved_ms: y1,
                                                                    total_chars: y2,
                                                                    corrections: y3,
                                                                }),
                                                            }),
                                                        )
                                                    } else {
                                                        None
                                                    },
                                                },
                                            },
                                        },
                                    },
                                },
                            },
                        },
                    },
                },
            },
        },
    }
}

/// Read one counter: whitespace, then a digit run whose value fits a `u64`.
fn scan_num(s: &[u8], i: usize) -> (r: Option<(u64, usize)>)
    requires
        i <= s.len(),
    ensures
        match r {
            Some((n, j)) => sp_num(s@, i as int) == Some((n, j as int)) && i <= j <= s.len(),
            None => sp_num(s@, i as int) is None,
        },
{
    let w = skip_ws(s, i);
    parse_u64_at(s, w)
}

/// Read a quoted date.
fn scan_date(s: &[u8], i: usize) -> (r: Option<(Date, usize)>)
    requires
        i <= s.len(),
    ensures
        match r {
            Some((d, j)) => sp_date(s@, i as int) == Some((d, j as int)) && i <= j <= s.len()
                && d.valid(),
            None => sp_date(s@, i as int) is None,
        },
{
    let w = skip_ws(s, i);
    if s.len() - w < 12 {
        return None;
    }
    if s[w] != 0x22 {
        return None;
    }
    match parse_date(s, w + 1) {
        None => None,
        Some((d, j)) => {
            if s[j] != 0x22 {
                return None;
            }
            Some((d, j + 1))
        },
    }
}

/// Read one three-counter block.
fn scan_counters(s: &[u8], i: usize) -> (r: Option<((u64, u64, u64), usize)>)
    requires
        i <= s.len(),
    ensures
        match r {
            Some((v, j)) => sp_counters(s@, i as int) == Some((v, j as int)) && i <= j <= s.len(),
            None => sp_counters(s@, i as int) is None,
        },
{
    let k_tsm: [u8; 16] = [0x22, 0x74, 0x69, 0x6d, 0x65, 0x5f, 0x73, 0x61, 0x76, 0x65, 0x64, 0x5f,
        0x6d, 0x73, 0x22, 0x3a];
    let k_tc: [u8; 14] = [0x22, 0x74, 0x6f, 0x74, 0x61, 0x6c, 0x5f, 0x63, 0x68, 0x61, 0x72, 0x73,
        0x22, 0x3a];
    let k_corr: [u8; 14] = [0x22, 0x63, 0x6f, 0x72, 0x72, 0x65, 0x63, 0x74, 0x69, 0x6f, 0x6e, 0x73,
        0x22, 0x3a];
    let comma: [u8; 1] = [0x2c];
    let close: [u8; 1] = [0x7d];
    proof {
        assert(k_tsm@ =~= kc_time_saved_ms());
        assert(k_tc@ =~= kc_total_chars());
        assert(k_corr@ =~= kc_corrections());
        assert(comma@ =~= t_comma());
        assert(close@ =~= t_close());
    }
    let p1 = match expect_tok(s, i, k_tsm.as_slice()) {
        Some(v) => v,
        None => {
            return None;
        },
    };
    let (a, p2) = match scan_num(s, p1) {
        Some(v) => v,
        None => {
            return None;
        },
    };
    let p3 = match expect_tok(s, p2, comma.as_slice()) {
        Some(v) => v,
        None => {
            return None;
        },
    };
    let p4 = match expect_tok(s, p3, k_tc.as_slice()) {
        Some(v) => v,
        None => {
            return None;
        },
    };
    let (b, p5) = match scan_num(s, p4) {
        Some(v) => v,
        None => {
            return None;
        },
    };
    let p6 = match expect_tok(s, p5, comma.as_slice()) {
        Some(v) => v,
        None => {
            return None;
        },
    };
    let p7 = match expect_tok(s, p6, k_corr.as_slice()) {
        Some(v) => v,
        None => {
            return None;
        },
    };
    let (c, p8) = match scan_num(s, p7) {
        Some(v) => v,
        None => {
            return None;
        },
    };
    let p9 = match expect_tok(s, p8, close.as_slice()) {
        Some(v) => v,
        None => {
            return None;
        },
    };
    Some(((a, b, c), p9))
}

/// Read a stats document. Yields exactly what the document grammar assigns
/// to these bytes; the date of a successfully read document is valid.
pub fn parse_usage_stats_bytes(s: &[u8]) -> (r: Option<UsageStats>)
    ensures
        r == spec_parse_stats(s@),
        match r {
            Some(st) => st.valid(),
            None => true,
        },
{
    let open_b: [u8; 1] = [0x7b];
    let close_b: [u8; 1] = [0x7d];
    let comma: [u8; 1] = [0x2c];
    let k_totals: [u8; 9] = [0x22, 0x74, 0x6f, 0x74, 0x61, 0x6c, 0x73, 0x22, 0x3a];
    let k_today: [u8; 8] = [0x22, 0x74, 0x6f, 0x64, 0x61, 0x79, 0x22, 0x3a];
    let k_date: [u8; 7] = [0x22, 0x64, 0x61, 0x74, 0x65, 0x22, 0x3a];
    proof {
        assert(open_b@ =~= t_open());
        assert(close_b@ =~= t_close());
        assert(comma@ =~= t_comma());
        assert(k_totals@ =~= kc_totals());
        assert(k_today@ =~= kc_today());
        assert(k_date@ =~= kc_date());
    }
    let q1 = match expect_tok(s, 0, open_b.as_slice()) {
        Some(v) => v,
        None => {
            return None;
        },
    };
    let q2 = match expect_tok(s, q1, k_totals.as_slice()) {
        Some(v) => v,
        None => {
            return None;
        },
    };
    let q3 = match expect_tok(s, q2, open_b.as_slice()) {
        Some(v) => v,
        None => {
            return None;
        },
    };
    let (tv, q4) = match scan_counters(s, q3) {
        Some(v) => v,
        None => {
            return None;
        },
    };
    let q5 = match expect_tok(s, q4, comma.as_slice()) {
        Some(v) => v,
        None => {
            return None;
        },
    };
    let q6 = match expect_tok(s, q5, k_today.as_slice()) {
        Some(v) => v,
        None => {
            return None;
        },
    };
    let q7 = match expect_tok(s, q6, open_b.as_slice()) {
        Some(v) => v,
        None => {
            return None;
        },
    };
    let q8 = match expect_tok(s, q7, k_date.as_slice()) {
        Some(v) => v,
        None => {
            return None;
        },
    };
    let (d, q9) = match scan_date(s, q8) {
        Some(v) => v,
        None => {
            return None;
        },
    };
    let q10 = match expect_tok(s, q9, comma.as_slice()) {
        Some(v) => v,
        None => {
            return None;
        },
    };
    let (yv, q11) = match scan_counters(s, q10) {
        Some(v) => v,
        None => {
            return None;
        },
    };
    let q12 = match expect_tok(s, q11, close_b.as_slice()) {
        Some(v) => v,
        None => {
            return None;
        },
    };
    let e = skip_ws(s, q12);
    if e != s.len() {
        return None;
    }
    let (t1, t2, t3) = tv;
    let (y1, y2, y3) = yv;
    Some(
        UsageStats {
            totals: UsageTotals { time_saved_ms: t1, total_chars: t2, corrections: t3 },
            today: UsageToday { date: d, time_saved_ms: y1, total_chars: y2, corrections: y3 },
        },
    )
}

/// Render the statistics as the canonical stats document.
pub fn encode_usage_stats(st: &UsageStats) -> (r: Vec<u8>)
    requires
        st.valid(),
    ensures
        r@ == spec_stats_bytes(*st),
{
    let open_b: [u8; 1] = [0x7b];
    let close_b: [u8; 1] = [0x7d];
    let comma: [u8; 1] = [0x2c];
    let quote: [u8; 1] = [0x22];
    let k_totals: [u8; 9] = [0x22, 0x74, 0x6f, 0x74, 0x61, 0x6c, 0x73, 0x22, 0x3a];
    let k_today: [u8; 8] = [0x22, 0x74, 0x6f, 0x64, 0x61, 0x79, 0x22, 0x3a];
    let k_date: [u8; 7] = [0x22, 0x64, 0x61, 0x74, 0x65, 0x22, 0x3a];
    proof {
        assert(open_b@ =~= t_open());
        assert(close_b@ =~= t_close());
        assert(comma@ =~= t_comma());
        assert(quote@ =~= t_quote());
        assert(k_totals@ =~= kc_totals());
        assert(k_today@ =~= kc_today());
        assert(k_date@ =~= kc_date());
    }
    let mut out: Vec<u8> = Vec::new();
    push_seg(&mut out, open_b.as_slice());
    push_seg(&mut out, k_totals.as_slice());
    push_seg(&mut out, open_b.as_slice());
    push_counters(&mut out, st.totals.time_saved_ms, st.totals.total_chars, st.totals.corrections);
    push_seg(&mut out, comma.as_slice());
    push_seg(&mut out, k_today.as_slice());
    push_seg(&mut out, open_b.as_slice());
    push_seg(&mut out, k_date.as_slice());
    push_seg(&mut out, quote.as_slice());
    let mut db = encode_date(st.today.date);
    out.append(&mut db);
    push_seg(&mut out, quote.as_slice());
    push_seg(&mut out, comma.as_slice());
    push_counters(&mut out, st.today.time_saved_ms, st.today.total_chars, st.today.corrections);
    push_seg(&mut out, close_b.as_slice());
    proof {
        assert(out@ =~= spec_stats_bytes(*st));
    }
    out
}

/// Append one three-counter block to the document being written.
fn push_counters(out: &mut Vec<u8>, a: u64, b: u64, c: u64)
    ensures
        final(out)@ == old(out)@ + counters_bytes(a, b, c),
{
    let k_tsm: [u8; 16] = [0x22, 0x74, 0x69, 0x6d, 0x65, 0x5f, 0x73, 0x61, 0x76, 0x65, 0x64, 0x5f,
        0x6d, 0x73, 0x22, 0x3a];
    let k_tc: [u8; 14] = [0x22, 0x74, 0x6f, 0x74, 0x61, 0x6c, 0x5f, 0x63, 0x68, 0x61, 0x72, 0x73,
        0x22, 0x3a];
    let k_corr: [u8; 14] = [0x22, 0x63, 0x6f, 0x72, 0x72, 0x65, 0x63, 0x74, 0x69, 0x6f, 0x6e, 0x73,
        0x22, 0x3a];
    let comma: [u8; 1] = [0x2c];
    let close: [u8; 1] = [0x7d];
    proof {
        assert(k_tsm@ =~= kc_time_saved_ms());
        assert(k_tc@ =~= kc_total_chars());
        assert(k_corr@ =~= kc_corrections());
        assert(comma@ =~= t_comma());
        assert(close@ =~= t_close());
    }
    push_seg(out, k_tsm.as_slice());
    let mut na = encode_u64(a);
    out.append(&mut na);
    push_seg(out, comma.as_slice());
    push_seg(out, k_tc.as_slice());
    let mut nb = encode_u64(b);
    out.append(&mut nb);
    push_seg(out, comma.as_slice());
    push_seg(out, k_corr.as_slice());
    let mut nc = encode_u64(c);
    out.append(&mut nc);
    push_seg(out, close.as_slice());
    proof {
        assert(out@ =~= old(out)@ + counters_bytes(a, b, c));
    }
}

/// If the suffix of `s` at `i` is a rendered counter followed by a non-digit
/// byte, reading a counter there yields exactly that value and stops exactly
/// past its digits.
pub proof fn lemma_sp_num_exact(s: Seq<u8>, i: int, n: u64, rest: Seq<u8>)
    requires
        0 <= i <= s.len(),
        s.subrange(i, s.len() as int) == u64_dec_bytes(n as nat) + rest,
        rest.len() > 0,
        !is_digit(rest[0]),
    ensures
        sp_num(s, i) == Some((n, i + u64_dec_bytes(n as nat).len() as int)),
        s.subrange(i + u64_dec_bytes(n as nat).len(), s.len() as int) == rest,
{
    let w = u64_dec_bytes(n as nat);
    lemma_u64_dec_bytes(n as nat);
    let suf = s.subrange(i, s.len() as int);
    assert(suf.len() == s.len() - i);
    assert(suf.len() == w.len() + rest.len());
    assert forall|k: int| 0 <= k < w.len() implies s.subrange(i, i + w.len() as int)[k]
        == w[k] by {
        assert(s.subrange(i, i + w.len() as int)[k] == s[i + k]);
        assert(suf[k] == s[i + k]);
    }
    assert(s.subrange(i, i + w.len() as int) =~= w);
    assert(suf[w.len() as int] == s[i + w.len()]);
    assert(rest[0] == s[i + w.len()]);
    assert(s[i] == suf[0]);
    assert(is_digit(s[i]));
    assert(ws_end(s, i) == i);
    lemma_u64_round_trip(s, i, n);
    assert forall|k: int| 0 <= k < rest.len() implies s.subrange(i + w.len(), s.len() as int)[k]
        == rest[k] by {
        assert(s.subrange(i + w.len(), s.len() as int)[k] == s[i + w.len() + k]);
        assert(suf[w.len() + k] == s[i + w.len() + k]);
    }
    assert(s.subrange(i + w.len(), s.len() as int) =~= rest);
}

/// If the suffix of `s` at `i` is a quoted rendered date, reading a date
/// there yields exactly that date and stops just past the closing quote.
pub proof fn lemma_sp_date_exact(s: Seq<u8>, i: int, d: Date, rest: Seq<u8>)
    requires
        0 <= i <= s.len(),
        d.valid(),
        s.subrange(i, s.len() as int) == t_quote() + spec_date_bytes(d) + t_quote() + rest,
    ensures
        sp_date(s, i) == Some((d, i + 12)),
        s.subrange(i + 12, s.len() as int) == rest,
{
    let suf = s.subrange(i, s.len() as int);
    let db = spec_date_bytes(d);
    assert(db.len() == 10);
    assert(suf.len() == s.len() - i);
    assert(suf.len() == 12 + rest.len());
    assert(s[i] == suf[0]);
    assert(suf[0] == 0x22);
    assert(ws_end(s, i) == i);
    assert forall|k: int| 0 <= k < 10 implies s[i + 1 + k] == db[k] by {
        assert(suf[1 + k] == s[i + 1 + k]);
    }
    assert(s[i + 11] == suf[11]);
    assert(suf[11] == 0x22);
    lemma_date_round_trip(d);
    assert(date_bytes_at(s, i + 1)) by {
        assert forall|k: int| 0 <= k < 10 && k != 4 && k != 7 implies 0x30 <= #[trigger] s[i + 1
            + k] <= 0x39 by {
            assert(s[i + 1 + k] == db[k]);
        }
        assert(s[i + 1 + 4] == db[4]);
        assert(s[i + 1 + 7] == db[7]);
        assert(s[i + 1 + 5] == db[5]);
        assert(s[i + 1 + 6] == db[6]);
        assert(s[i + 1 + 8] == db[8]);
        assert(s[i + 1 + 9] == db[9]);
    }
    assert(date_at(s, i + 1) == d) by {
        assert(s[i + 1] == db[0]);
        assert(s[i + 1 + 1] == db[1]);
        assert(s[i + 1 + 2] == db[2]);
        assert(s[i + 1 + 3] == db[3]);
        assert(s[i + 1 + 5] == db[5]);
        assert(s[i + 1 + 6] == db[6]);
        assert(s[i + 1 + 8] == db[8]);
        assert(s[i + 1 + 9] == db[9]);
        assert(date_at(db, 0) == d);
    }
    assert forall|k: int| 0 <= k < rest.len() implies s.subrange(i + 12, s.len() as int)[k]
        == rest[k] by {
        assert(s.subrange(i + 12, s.len() as int)[k] == s[i + 12 + k]);
        assert(suf[12 + k] == s[i + 12 + k]);
    }
    assert(s.subrange(i + 12, s.len() as int) =~= rest);
}

/// If the suffix of `s` at `i` is a rendered three-counter block, reading a
/// block there yields exactly those values and stops past its closing brace.
pub proof fn lemma_sp_counters_exact(s: Seq<u8>, i: int, a: u64, b: u64, c: u64, rest: Seq<u8>)
    requires
        0 <= i <= s.len(),
        s.subrange(i, s.len() as int) == counters_bytes(a, b, c) + rest,
    ensures
        sp_counters(s, i) == Some(((a, b, c), i + counters_bytes(a, b, c).len() as int)),
        s.subrange(i + counters_bytes(a, b, c).len(), s.len() as int) == rest,
{
    let na = u64_dec_bytes(a as nat);
    let nb = u64_dec_bytes(b as nat);
    let nc = u64_dec_bytes(c as nat);
    lemma_u64_dec_bytes(a as nat);
    lemma_u64_dec_bytes(b as nat);
    lemma_u64_dec_bytes(c as nat);
    let r9 = t_close() + rest;
    let r8 = nc + r9;
    let r7 = kc_corrections() + r8;
    let r6 = t_comma() + r7;
    let r5 = nb + r6;
    let r4 = kc_total_chars() + r5;
    let r3 = t_comma() + r4;
    let r2 = na + r3;
    assert(counters_bytes(a, b, c) + rest =~= kc_time_saved_ms() + r2);
    lemma_sp_tok_exact(s, i, kc_time_saved_ms(), r2);
    let p1 = i + kc_time_saved_ms().len() as int;
    assert(r3[0] == 0x2c);
    lemma_sp_num_exact(s, p1, a, r3);
    let p2 = p1 + na.len() as int;
    lemma_sp_tok_exact(s, p2, t_comma(), r4);
    let p3 = p2 + 1;
    lemma_sp_tok_exact(s, p3, kc_total_chars(), r5);
    let p4 = p3 + kc_total_chars().len() as int;
    assert(r6[0] == 0x2c);
    lemma_sp_num_exact(s, p4, b, r6);
    let p5 = p4 + nb.len() as int;
    lemma_sp_tok_exact(s, p5, t_comma(), r7);
    let p6 = p5 + 1;
    lemma_sp_tok_exact(s, p6, kc_corrections(), r8);
    let p7 = p6 + kc_corrections().len() as int;
    assert(r9[0] == 0x7d);
    lemma_sp_num_exact(s, p7, c, r9);
    let p8 = p7 + nc.len() as int;
    lemma_sp_tok_exact(s, p8, t_close(), rest);
    let p9 = p8 + 1;
    assert(sp_counters(s, i) == Some(((a, b, c), p9)));
    assert(p9 == i + counters_bytes(a, b, c).len() as int);
}

/// Concatenation of byte sequences is associative.
pub proof fn lemma_seq_assoc(a: Seq<u8>, b: Seq<u8>, c: Seq<u8>)
    ensures
        (a + b) + c == a + (b + c),
{
    assert((a + b) + c =~= a + (b + c));
}

/// The document, re-grouped from the left-associated form it is written in
/// to the right-associated form the reading walk consumes.
pub proof fn lemma_doc_right_assoc(st: UsageStats)
    ensures
        spec_stats_bytes(st) == t_open() + (kc_totals() + (t_open() + (counters_bytes(
            st.totals.time_saved_ms,
            st.totals.total_chars,
            st.totals.corrections,
        ) + (t_comma() + (kc_today() + (t_open() + (kc_date() + ((t_quote() + spec_date_bytes(
            st.today.date,
        ) + t_quote()) + (t_comma() + (counters_bytes(
            st.today.time_saved_ms,
            st.today.total_chars,
            st.today.corrections,
        ) + t_close())))))))))),
{
    let s = spec_stats_bytes(st);
    let cb1 = counters_bytes(st.totals.time_saved_ms, st.totals.total_chars, st.totals.corrections);
    let cb2 = counters_bytes(st.today.time_saved_ms, st.today.total_chars, st.today.corrections);
    let db = spec_date_bytes(st.today.date);
    let u10 = cb2 + t_close();
    let u9 = t_comma() + u10;
    let u8x = (t_quote() + db + t_quote()) + u9;
    let u7 = kc_date() + u8x;
    let u6 = t_open() + u7;
    let u5 = kc_today() + u6;
    let u4 = t_comma() + u5;
    let u3 = cb1 + u4;
    let u2 = t_open() + u3;
    let u1 = kc_totals() + u2;
    let l1 = t_open();
    let l2 = l1 + kc_totals();
    let l3 = l2 + t_open();
    let l4 = l3 + cb1;
    let l5 = l4 + t_comma();
    let l6 = l5 + kc_today();
    let l7 = l6 + t_open();
    let l8 = l7 + kc_date();
    let l9 = l8 + t_quote();
    let l10 = l9 + db;
    let l11 = l10 + t_quote();
    let l12 = l11 + t_comma();
    let l13 = l12 + cb2;
    assert(s == l13 + t_close());
    lemma_seq_assoc(l12, cb2, t_close());
    assert(s == l12 + u10);
    lemma_seq_assoc(l11, t_comma(), u10);
    assert(s == l11 + u9);
    lemma_seq_assoc(l8, t_quote(), db);
    lemma_seq_assoc(l8, t_quote() + db, t_quote());
    assert(l11 == l8 + (t_quote() + db + t_quote()));
    lemma_seq_assoc(l8, t_quote() + db + t_quote(), u9);
    assert(s == l8 + u8x);
    lemma_seq_assoc(l7, kc_date(), u8x);
    assert(s == l7 + u7);
    lemma_seq_assoc(l6, t_open(), u7);
    assert(s == l6 + u6);
    lemma_seq_assoc(l5, kc_today(), u6);
    assert(s == l5 + u5);
    lemma_seq_assoc(l4, t_comma(), u5);
    assert(s == l4 + u4);
    lemma_seq_assoc(l3, cb1, u4);
    assert(s == l3 + u3);
    lemma_seq_assoc(l2, t_open(), u3);
    assert(s == l2 + u2);
    lemma_seq_assoc(l1, kc_totals(), u2);
    assert(s == t_open() + u1);
}

/// The reading walk over the head of the canonical document: the opening
/// brace, the `totals` key, and the totals block, leaving the rest of the
/// document as the suffix.
#[verifier::rlimit(100)]
proof fn lemma_walk_head(st: UsageStats)
    requires
        st.valid(),
    ensures
        sp_tok(spec_stats_bytes(st), 0, t_open()) == Some(1int),
        sp_tok(spec_stats_bytes(st), 1, kc_totals()) == Some(10int),
        sp_tok(spec_stats_bytes(st), 10, t_open()) == Some(11int),
        sp_counters(spec_stats_bytes(st), 11) == Some(
            (
                (st.totals.time_saved_ms, st.totals.total_chars, st.totals.corrections),
                11 + counters_bytes(
                    st.totals.time_saved_ms,
                    st.totals.total_chars,
                    st.totals.corrections,
                ).len() as int,
            ),
        ),
        spec_stats_bytes(st).subrange(
            11 + counters_bytes(
                st.totals.time_saved_ms,
                st.totals.total_chars,
                st.totals.corrections,
            ).len() as int,
            spec_stats_bytes(st).len() as int,
        ) == t_comma() + (kc_today() + (t_open() + (kc_date() + ((t_quote() + spec_date_bytes(
            st.today.date,
        ) + t_quote()) + (t_comma() + (counters_bytes(
            st.today.time_saved_ms,
            st.today.total_chars,
            st.today.corrections,
        ) + t_close())))))),
{
    let s = spec_stats_bytes(st);
    let cb1 = counters_bytes(st.totals.time_saved_ms, st.totals.total_chars, st.totals.corrections);
    let cb2 = counters_bytes(st.today.time_saved_ms, st.today.total_chars, st.today.corrections);
    let db = spec_date_bytes(st.today.date);
    let u10 = cb2 + t_close();
    let u9 = t_comma() + u10;
    let u8x = (t_quote() + db + t_quote()) + u9;
    let u7 = kc_date() + u8x;
    let u6 = t_open() + u7;
    let u5 = kc_today() + u6;
    let u4 = t_comma() + u5;
    let u3 = cb1 + u4;
    let u2 = t_open() + u3;
    let u1 = kc_totals() + u2;
    lemma_doc_right_assoc(st);
    assert(s == t_open() + u1);
    assert(s.subrange(0, s.len() as int) =~= s);
    lemma_sp_tok_exact(s, 0, t_open(), u1);
    lemma_sp_tok_exact(s, 1, kc_totals(), u2);
    lemma_sp_tok_exact(s, 10, t_open(), u3);
    lemma_sp_counters_exact(
        s,
        11,
        st.totals.time_saved_ms,
        st.totals.total_chars,
        st.totals.corrections,
        u4,
    );
}

/// The reading walk over the tail of the canonical document, from the comma
/// after the totals block through the closing brace.
#[verifier::rlimit(100)]
proof fn lemma_walk_tail(s: Seq<u8>, i: int, d: Date, a: u64, b: u64, c: u64)
    requires
        0 <= i <= s.len(),
        d.valid(),
        s.subrange(i, s.len() as int) == t_comma() + (kc_today() + (t_open() + (kc_date() + ((
        t_quote() + spec_date_bytes(d) + t_quote()) + (t_comma() + (counters_bytes(a, b, c)
            + t_close())))))),
    ensures
        sp_tok(s, i, t_comma()) == Some(i + 1),
        sp_tok(s, i + 1, kc_today()) == Some(i + 9),
        sp_tok(s, i + 9, t_open()) == Some(i + 10),
        sp_tok(s, i + 10, kc_date()) == Some(i + 17),
        sp_date(s, i + 17) == Some((d, i + 29)),
        sp_tok(s, i + 29, t_comma()) == Some(i + 30),
        sp_counters(s, i + 30) == Some(((a, b, c), i + 30 + counters_bytes(a, b, c).len() as int)),
        sp_tok(s, i + 30 + counters_bytes(a, b, c).len() as int, t_close()) == Some(
            i + 31 + counters_bytes(a, b, c).len() as int,
        ),
        i + 31 + counters_bytes(a, b, c).len() == s.len(),
{
    let cb2 = counters_bytes(a, b, c);
    let db = spec_date_bytes(d);
    let u10 = cb2 + t_close();
    let u9 = t_comma() + u10;
    let u8x = (t_quote() + db + t_quote()) + u9;
    let u7 = kc_date() + u8x;
    let u6 = t_open() + u7;
    let u5 = kc_today() + u6;
    lemma_sp_tok_exact(s, i, t_comma(), u5);
    lemma_sp_tok_exact(s, i + 1, kc_today(), u6);
    lemma_sp_tok_exact(s, i + 9, t_open(), u7);
    lemma_sp_tok_exact(s, i + 10, kc_date(), u8x);
    lemma_sp_date_exact(s, i + 17, d, u9);
    lemma_sp_tok_exact(s, i + 29, t_comma(), u10);
    lemma_sp_counters_exact(s, i + 30, a, b, c, t_close());
    let q11 = i + 30 + cb2.len() as int;
    assert(s.subrange(q11, s.len() as int) == t_close() + Seq::<u8>::empty()) by {
        assert(t_close() + Seq::<u8>::empty() =~= t_close());
    }
    lemma_sp_tok_exact(s, q11, t_close(), Seq::<u8>::empty());
    assert(s.len() - (q11 + 1) == 0);
}

/// Writing the statistics and reading the document back yields the same
/// statistics, field for field: persistence loses nothing.
pub proof fn lemma_stats_round_trip(st: UsageStats)
    requires
        st.valid(),
    ensures
        spec_parse_stats(spec_stats_bytes(st)) == Some(st),
{
    let s = spec_stats_bytes(st);
    let cb1 = counters_bytes(st.totals.time_saved_ms, st.totals.total_chars, st.totals.corrections);
    let cb2 = counters_bytes(st.today.time_saved_ms, st.today.total_chars, st.today.corrections);
    lemma_walk_head(st);
    lemma_walk_tail(
        s,
        11 + cb1.len() as int,
        st.today.date,
        st.today.time_saved_ms,
        st.today.total_chars,
        st.today.corrections,
    );
    let q12 = 11 + cb1.len() as int + 31 + cb2.len() as int;
    assert(q12 == s.len());
    assert(ws_end(s, q12) == s.len());
    assert(spec_parse_stats(s) == Some(st));
}

/// Load the stored statistics: the document's values if the content is a
/// stats document, the all-zero default otherwise (file absent or corrupt),
/// then the daily rollover against `today`. Returns the statistics and
/// whether they differ from what was stored (so the caller knows to persist).
pub fn load_usage_stats(content: Option<&Vec<u8>>, today: Date) -> (r: (UsageStats, bool))
    requires
        today.valid(),
    ensures
        r.0 == (match content {
            Some(c) => match spec_parse_stats(c@) {
                Some(st) => spec_rollover(st, today),
                None => spec_default_usage_stats(today),
            },
            None => spec_default_usage_stats(today),
        }),
        r.0.valid(),
        r.0.today.date == today,
        r.1 == (match content {
            Some(c) => match spec_parse_stats(c@) {
                Some(st) => st.today.date != today,
                None => true,
            },
            None => true,
        }),
{
    match content {
        None => (default_usage_stats(today), true),
        Some(c) => match parse_usage_stats_bytes(c.as_slice()) {
            None => (default_usage_stats(today), true),
            Some(mut st) => {
                let changed = rollover_today_if_needed(&mut st, today);
                (st, changed)
            },
        },
    }
}

} // verus!
