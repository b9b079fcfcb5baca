//! Scanning of the inbound wire protocol's JSON values.
//!
//! The worker writes one JSON value per line. These scanners validate a
//! value byte by byte — strings with their escapes, numbers, nested arrays
//! and objects — and hand the dispatcher the pieces it reads: decoded string
//! contents and a number's integer value and millisecond magnitude. A line
//! that breaks the grammar is rejected as a whole, never partially applied.

use vstd::prelude::*;
use crate::bytes_util::ws_end;
use crate::decimal::{is_digit, dec_val, digit_run_end, lemma_digit_run_full};

verus! {

/// Whether every byte of `t` is a decimal digit.
pub open spec fn all_digits(t: Seq<u8>) -> bool {
    forall|k: int| 0 <= k < t.len() ==> is_digit(#[trigger] t[k])
}

/// Whether `t` holds no byte equal to `b`.
pub open spec fn no_byte(t: Seq<u8>, b: u8) -> bool {
    forall|k: int| 0 <= k < t.len() ==> #[trigger] t[k] != b
}

/// The milliseconds contributed by a fraction's digits: the first three,
/// scaled to thousandths, further digits rounded away.
pub open spec fn frac_ms(fp: Seq<u8>) -> nat {
    if fp.len() >= 3 {
        dec_val(fp.subrange(0, 3))
    } else if fp.len() == 2 {
        dec_val(fp) * 10
    } else if fp.len() == 1 {
        dec_val(fp) * 100
    } else {
        0
    }
}

/// What a scanned JSON number carries for the dispatcher.
///
/// `as_i64` is the number's value exactly when the token is an integer that
/// fits an `i64`, as a lenient reader of the field would see it. `millis`
/// is the magnitude in milliseconds, rounded down, saturated at `u64::MAX`;
/// the sign stays in `neg`.
#[derive(Clone, Copy, Debug)]
pub struct JsonNum {
    pub neg: bool,
    pub as_i64: Option<i64>,
    pub millis: u64,
}

/// The exponent digits of `s[a..b]` accumulated left to right onto `acc`,
/// the accumulation stopping once four digits are in: larger exponents only
/// saturate the value anyway.
pub open spec fn sp_exp_val(s: Seq<u8>, a: int, b: int, acc: u64) -> u64
    decreases b - a,
{
    if a >= b {
        acc
    } else {
        sp_exp_val(
            s,
            a + 1,
            b,
            if acc < 1000 {
                (acc * 10 + (s[a] - 0x30)) as u64
            } else {
                acc
            },
        )
    }
}

/// `m` scaled by ten, `n` times: dividing (rounding down) on the way down,
/// multiplying with saturation on the way up.
pub open spec fn sp_pow_adjust(m: u64, n: nat, down: bool) -> u64
    decreases n,
{
    if n == 0 {
        m
    } else {
        sp_pow_adjust(
            if down {
                m / 10
            } else if m > u64::MAX / 10 {
                u64::MAX
            } else {
                (m * 10) as u64
            },
            (n - 1) as nat,
            down,
        )
    }
}

/// What reading a JSON number token at `i` yields: its sign, its integer
/// reading where the body is all digits and fits an `i64`, its magnitude in
/// milliseconds (rounded down, saturated), and the position just past the
/// token — or nothing where the number grammar is broken.
pub open spec fn sp_number(s: Seq<u8>, i: int) -> Option<(JsonNum, int)> {
    let neg = 0 <= i < s.len() && s[i] == 0x2d;
    let bs = if neg {
        i + 1
    } else {
        i
    };
    if !(0 <= bs < s.len() && is_digit(s[bs])) {
        None
    } else {
        let int_end = if s[bs] == 0x30 {
            bs + 1
        } else {
            digit_run_end(s, bs)
        };
        if s[bs] == 0x30 && int_end < s.len() && is_digit(s[int_end]) {
            // A leading zero admits no further digits.
            None
        } else {
            let acc_n = dec_val(s.subrange(bs, int_end));
            let over = acc_n > u64::MAX;
            let has_frac = int_end < s.len() && s[int_end] == 0x2e;
            if has_frac && !(int_end + 1 < s.len() && is_digit(s[int_end + 1])) {
                None
            } else {
                let frac_end = if has_frac {
                    digit_run_end(s, int_end + 1)
                } else {
                    int_end
                };
                let f3 = if has_frac {
                    frac_ms(s.subrange(int_end + 1, frac_end))
                } else {
                    0
                };
                let pe = frac_end;
                let has_exp = pe < s.len() && (s[pe] == 0x65 || s[pe] == 0x45);
                let has_sign = has_exp && pe + 1 < s.len() && (s[pe + 1] == 0x2b || s[pe + 1]
                    == 0x2d);
                let ds = if has_sign {
                    pe + 2
                } else {
                    pe + 1
                };
                if has_exp && !(ds < s.len() && is_digit(s[ds])) {
                    None
                } else {
                    let exp_neg = has_sign && s[pe + 1] == 0x2d;
                    let exp_end = digit_run_end(s, ds);
                    let ev = sp_exp_val(s, ds, exp_end, 0);
                    let j = if has_exp {
                        exp_end
                    } else {
                        pe
                    };
                    let base = if over {
                        u64::MAX
                    } else if acc_n <= (u64::MAX - f3) / 1000 {
                        (acc_n * 1000 + f3) as u64
                    } else {
                        u64::MAX
                    };
                    let millis = if has_exp {
                        sp_pow_adjust(base, ev as nat, exp_neg)
                    } else {
                        base
                    };
                    let int_reading = if has_frac || has_exp || over {
                        Option::<i64>::None
                    } else if !neg {
                        if acc_n <= 0x7fff_ffff_ffff_ffff {
                            Some(acc_n as i64)
                        } else {
                            Option::<i64>::None
                        }
                    } else {
                        if acc_n <= 0x8000_0000_0000_0000 {
                            Some((-(acc_n as int)) as i64)
                        } else {
                            Option::<i64>::None
                        }
                    };
                    Some((JsonNum { neg, as_i64: int_reading, millis }, j))
                }
            }
        }
    }
}

/// Accumulating one more exponent digit from the right agrees with the
/// left-to-right reading.
proof fn lemma_sp_exp_val_snoc(s: Seq<u8>, a: int, b: int, acc: u64)
    requires
        a <= b < s.len(),
    ensures
        sp_exp_val(s, a, b + 1, acc) == ({
            let v = sp_exp_val(s, a, b, acc);
            if v < 1000 {
                (v * 10 + (s[b] - 0x30)) as u64
            } else {
                v
            }
        }),
    decreases b - a,
{
    let stepped = if acc < 1000 {
        (acc * 10 + (s[a] - 0x30)) as u64
    } else {
        acc
    };
    assert(sp_exp_val(s, a, b + 1, acc) == sp_exp_val(s, a + 1, b + 1, stepped));
    if a < b {
        assert(sp_exp_val(s, a, b, acc) == sp_exp_val(s, a + 1, b, stepped));
        lemma_sp_exp_val_snoc(s, a + 1, b, stepped);
    } else {
        assert(sp_exp_val(s, a + 1, b + 1, stepped) == stepped);
        assert(sp_exp_val(s, a, b, acc) == acc);
    }
}

/// Scan one JSON number starting at `i`. The result is exactly what the
/// number grammar assigns to these bytes.
#[verifier::loop_isolation(false)]
#[verifier::rlimit(100)]
pub fn parse_json_number(s: &[u8], i: usize) -> (r: Option<(JsonNum, usize)>)
    requires
        i <= s.len(),
    ensures
        match r {
            Some((num, j)) => sp_number(s@, i as int) == Some((num, j as int)) && i < j <= s.len(),
            None => sp_number(s@, i as int) is None,
        },
{
    let mut p = i;
    let mut neg = false;
    if p < s.len() && s[p] == 0x2d {
        neg = true;
        p = p + 1;
    }
    if p == s.len() || !(0x30 <= s[p] && s[p] <= 0x39) {
        return None;
    }
    let ghost bs = p as int;
    // Integer part: one zero, or a nonzero digit followed by any digits.
    let mut acc: u64 = 0;
    let mut over = false;
    let int_start = p;
    if s[p] == 0x30 {
        p = p + 1;
        if p < s.len() && 0x30 <= s[p] && s[p] <= 0x39 {
            // A leading zero admits no further digits.
            return None;
        }
        proof {
            assert(s@.subrange(bs, p as int) =~= seq![s@[bs]]);
            assert(s@.subrange(bs, p as int).drop_last() =~= Seq::<u8>::empty());
            assert(dec_val(Seq::<u8>::empty()) == 0);
            assert(acc == dec_val(s@.subrange(bs, p as int)));
        }
    } else {
        while p < s.len() && 0x30 <= s[p] && s[p] <= 0x39
            invariant
                int_start <= p <= s.len(),
                int_start < p || (int_start == p && p < s.len()),
                !over ==> acc == dec_val(s@.subrange(int_start as int, p as int)),
                over ==> dec_val(s@.subrange(int_start as int, p as int)) > u64::MAX,
                forall|k: int| int_start <= k < p ==> is_digit(#[trigger] s@[k]),
            decreases s.len() - p,
        {
            let d: u64 = (s[p] - 0x30) as u64;
            proof {
                assert(s@.subrange(int_start as int, p + 1).drop_last() =~= s@.subrange(
                    int_start as int,
                    p as int,
                ));
            }
            if !over {
                if acc > (u64::MAX - d) / 10 {
                    over = true;
                    proof {
                        assert(dec_val(s@.subrange(int_start as int, p + 1)) == dec_val(
                            s@.subrange(int_start as int, p as int),
                        ) * 10 + d);
                    }
                } else {
                    acc = acc * 10 + d;
                }
            } else {
                proof {
                    assert(dec_val(s@.subrange(int_start as int, p + 1)) == dec_val(
                        s@.subrange(int_start as int, p as int),
                    ) * 10 + d);
                }
            }
            p = p + 1;
        }
        proof {
            lemma_digit_run_full(s@, int_start as int, p as int);
        }
    }
    let int_end = p;
    // Fraction part.
    let mut has_frac = false;
    let mut frac3: u64 = 0;
    let frac_start: usize;
    let mut frac_seen: usize = 0;
    if p < s.len() && s[p] == 0x2e {
        p = p + 1;
        if p == s.len() || !(0x30 <= s[p] && s[p] <= 0x39) {
            return None;
        }
        has_frac = true;
        frac_start = p;
        while p < s.len() && 0x30 <= s[p] && s[p] <= 0x39
            invariant
                frac_start <= p <= s.len(),
                frac_seen == p - frac_start,
                frac3 == frac_ms(s@.subrange(frac_start as int, p as int)),
                frac3 <= 999,
                forall|k: int| frac_start <= k < p ==> is_digit(#[trigger] s@[k]),
            decreases s.len() - p,
        {
            let d: u64 = (s[p] - 0x30) as u64;
            proof {
                let t = s@.subrange(frac_start as int, p as int);
                let t2 = s@.subrange(frac_start as int, p + 1);
                assert(t2.drop_last() =~= t);
                assert(dec_val(t2) == dec_val(t) * 10 + d);
                if t.len() >= 3 {
                    assert(t2.subrange(0, 3) =~= t.subrange(0, 3));
                } else if t.len() == 2 {
                    assert(t2.subrange(0, 3) =~= t2);
                } else if t.len() == 1 {
                    assert(t2.drop_last() =~= t);
                } else {
                    assert(t2 =~= seq![s@[p as int]]);
                    assert(t2.drop_last() =~= Seq::<u8>::empty());
                }
            }
            if frac_seen == 0 {
                frac3 = d * 100;
            } else if frac_seen == 1 {
                frac3 = frac3 + d * 10;
            } else if frac_seen == 2 {
                frac3 = frac3 + d;
            }
            frac_seen = frac_seen + 1;
            p = p + 1;
        }
        proof {
            lemma_digit_run_full(s@, frac_start as int, p as int);
        }
    } else {
        frac_start = p;
    }
    let frac_end = p;
    // Exponent part: read for validity; the value keeps a coarse, saturating
    // scale adjustment.
    let mut has_exp = false;
    let mut exp_neg = false;
    let mut exp_val: u64 = 0;
    if p < s.len() && (s[p] == 0x65 || s[p] == 0x45) {
        p = p + 1;
        if p < s.len() && (s[p] == 0x2b || s[p] == 0x2d) {
            exp_neg = s[p] == 0x2d;
            p = p + 1;
        }
        if p == s.len() || !(0x30 <= s[p] && s[p] <= 0x39) {
            return None;
        }
        has_exp = true;
        let ghost exp_digit_start = p as int;
        while p < s.len() && 0x30 <= s[p] && s[p] <= 0x39
            invariant
                exp_digit_start <= p <= s.len(),
                exp_val == sp_exp_val(s@, exp_digit_start, p as int, 0),
                exp_val <= 10000,
                forall|k: int| exp_digit_start <= k < p ==> is_digit(#[trigger] s@[k]),
            decreases s.len() - p,
        {
            let d: u64 = (s[p] - 0x30) as u64;
            proof {
                lemma_sp_exp_val_snoc(s@, exp_digit_start, p as int, 0);
            }
            if exp_val < 1000 {
                exp_val = exp_val * 10 + d;
            }
            p = p + 1;
        }
        proof {
            lemma_digit_run_full(s@, exp_digit_start, p as int);
        }
    }
    let j = p;
    // The magnitude in milliseconds, rounded down, saturating.
    let mut millis: u64;
    if over {
        millis = u64::MAX;
    } else if acc <= (u64::MAX - frac3) / 1000 {
        millis = acc * 1000 + frac3;
    } else {
        millis = u64::MAX;
    }
    let ghost base = millis;
    if has_exp {
        let mut k: u64 = 0;
        while k < exp_val
            invariant
                k <= exp_val,
                sp_pow_adjust(millis, (exp_val - k) as nat, exp_neg) == sp_pow_adjust(
                    base,
                    exp_val as nat,
                    exp_neg,
                ),
            decreases exp_val - k,
        {
            if exp_neg {
                millis = millis / 10;
            } else {
                if millis > u64::MAX / 10 {
                    millis = u64::MAX;
                } else {
                    millis = millis * 10;
                }
            }
            k = k + 1;
        }
    }
    // The integer reading, exactly when the whole body is digits.
    let as_i64: Option<i64> = if has_frac || has_exp || over {
        None
    } else {
        if !neg {
            if acc <= 0x7fff_ffff_ffff_ffff {
                Some(acc as i64)
            } else {
                None
            }
        } else {
            if acc <= 0x7fff_ffff_ffff_ffff {
                Some(-(acc as i64))
            } else if acc == 0x8000_0000_0000_0000 {
                Some(i64::MIN)
            } else {
                None
            }
        }
    };
    let num = JsonNum { neg, as_i64, millis };
    proof {
        assert(sp_number(s@, i as int) == Some((num, j as int)));
    }
    Some((num, j))
}

/// The value of an ASCII hex digit, or nothing.
pub open spec fn sp_hex(b: u8) -> Option<u8> {
    if 0x30 <= b <= 0x39 {
        Some((b - 0x30) as u8)
    } else if 0x41 <= b <= 0x46 {
        Some((b - 0x41 + 10) as u8)
    } else if 0x61 <= b <= 0x66 {
        Some((b - 0x61 + 10) as u8)
    } else {
        None
    }
}

/// The value of the four hex digits at `k`, or nothing.
pub open spec fn sp_hex4(s: Seq<u8>, k: int) -> Option<u32> {
    if 0 <= k && k + 4 <= s.len() {
        match (sp_hex(s[k]), sp_hex(s[k + 1]), sp_hex(s[k + 2]), sp_hex(s[k + 3])) {
            (Some(a), Some(b), Some(c), Some(d)) => Some(
                ((a as u32) * 0x1000 + (b as u32) * 0x100 + (c as u32) * 0x10 + d as u32) as u32,
            ),
            _ => None,
        }
    } else {
        None
    }
}

/// The UTF-8 encoding of the code point `cp`.
pub open spec fn spec_utf8(cp: u32) -> Seq<u8> {
    if cp < 0x80 {
        seq![cp as u8]
    } else if cp < 0x800 {
        seq![(0xC0 + cp / 0x40) as u8, (0x80 + cp % 0x40) as u8]
    } else if cp < 0x10000 {
        seq![
            (0xE0 + cp / 0x1000) as u8,
            (0x80 + (cp / 0x40) % 0x40) as u8,
            (0x80 + cp % 0x40) as u8,
        ]
    } else {
        seq![
            (0xF0 + cp / 0x40000) as u8,
            (0x80 + (cp / 0x1000) % 0x40) as u8,
            (0x80 + (cp / 0x40) % 0x40) as u8,
            (0x80 + cp % 0x40) as u8,
        ]
    }
}

/// Prepend decoded bytes to the rest of a string's reading.
pub open spec fn sp_prepend(bs: Seq<u8>, rest: Option<(Seq<u8>, int)>) -> Option<(Seq<u8>, int)> {
    match rest {
        Some((t, e)) => Some((bs + t, e)),
        None => None,
    }
}

/// What reading a JSON string's content from position `k` (just inside the
/// quotes) yields: the decoded bytes and the position just past the closing
/// quote, or nothing where the grammar is broken.
pub open spec fn sp_string_tail(s: Seq<u8>, k: int) -> Option<(Seq<u8>, int)>
    decreases s.len() - k,
{
    if !(0 <= k < s.len()) {
        None
    } else {
        let b = s[k];
        if b == 0x22 {
            Some((Seq::empty(), k + 1))
        } else if b == 0x5c {
            if k + 1 >= s.len() {
                None
            } else {
                let e = s[k + 1];
                if e == 0x22 || e == 0x5c || e == 0x2f {
                    sp_prepend(seq![e], sp_string_tail(s, k + 2))
                } else if e == 0x62 {
                    sp_prepend(seq![0x08u8], sp_string_tail(s, k + 2))
                } else if e == 0x66 {
                    sp_prepend(seq![0x0cu8], sp_string_tail(s, k + 2))
                } else if e == 0x6e {
                    sp_prepend(seq![0x0au8], sp_string_tail(s, k + 2))
                } else if e == 0x72 {
                    sp_prepend(seq![0x0du8], sp_string_tail(s, k + 2))
                } else if e == 0x74 {
                    sp_prepend(seq![0x09u8], sp_string_tail(s, k + 2))
                } else if e == 0x75 {
                    if k + 6 > s.len() {
                        None
                    } else {
                        match sp_hex4(s, k + 2) {
                            None => None,
                            Some(hi) => if 0xD800 <= hi <= 0xDBFF {
                                if k + 12 > s.len() {
                                    None
                                } else if s[k + 6] != 0x5c || s[k + 7] != 0x75 {
                                    None
                                } else {
                                    match sp_hex4(s, k + 8) {
                                        None => None,
                                        Some(lo) => if 0xDC00 <= lo <= 0xDFFF {
                                            sp_prepend(
                                                spec_utf8(
                                                    (0x10000 + (hi - 0xD800) * 0x400 + (lo
                                                        - 0xDC00)) as u32,
                                                ),
                                                sp_string_tail(s, k + 12),
                                            )
                                        } else {
                                            None
                                        },
                                    }
                                }
                            } else if 0xDC00 <= hi <= 0xDFFF {
                                None
                            } else {
                                sp_prepend(spec_utf8(hi), sp_string_tail(s, k + 6))
                            },
                        }
                    }
                } else {
                    None
                }
            }
        } else if b < 0x20 {
            None
        } else {
            sp_prepend(seq![b], sp_string_tail(s, k + 1))
        }
    }
}

/// What reading a JSON string token at `i` yields: the decoded bytes and
/// the position just past the closing quote, or nothing.
pub open spec fn sp_string(s: Seq<u8>, i: int) -> Option<(Seq<u8>, int)> {
    if 0 <= i < s.len() && s[i] == 0x22 {
        sp_string_tail(s, i + 1)
    } else {
        None
    }
}

/// The value of an ASCII hex digit.
fn hex_val(b: u8) -> (r: Option<u8>)
    ensures
        r == sp_hex(b),
{
    if 0x30 <= b && b <= 0x39 {
        Some(b - 0x30)
    } else if 0x41 <= b && b <= 0x46 {
        Some(b - 0x41 + 10)
    } else if 0x61 <= b && b <= 0x66 {
        Some(b - 0x61 + 10)
    } else {
        None
    }
}

/// Append the UTF-8 encoding of the code point `cp`.
fn push_utf8(out: &mut Vec<u8>, cp: u32)
    requires
        cp <= 0x10FFFF,
    ensures
        final(out)@ == old(out)@ + spec_utf8(cp),
{
    if cp < 0x80 {
        out.push(cp as u8);
    } else if cp < 0x800 {
        out.push((0xC0 + cp / 0x40) as u8);
        out.push((0x80 + cp % 0x40) as u8);
    } else if cp < 0x10000 {
        out.push((0xE0 + cp / 0x1000) as u8);
        out.push((0x80 + (cp / 0x40) % 0x40) as u8);
        out.push((0x80 + cp % 0x40) as u8);
    } else {
        out.push((0xF0 + cp / 0x40000) as u8);
        out.push((0x80 + (cp / 0x1000) % 0x40) as u8);
        out.push((0x80 + (cp / 0x40) % 0x40) as u8);
        out.push((0x80 + cp % 0x40) as u8);
    }
    proof {
        assert(out@ =~= old(out)@ + spec_utf8(cp));
    }
}

/// Read the four hex digits of a `\u` escape at position `k`.
fn read_hex4(s: &[u8], k: usize) -> (r: Option<u32>)
    requires
        k + 4 <= s.len(),
    ensures
        r == sp_hex4(s@, k as int),
        match r {
            Some(v) => v <= 0xFFFF,
            None => true,
        },
{
    let a = match hex_val(s[k]) {
        Some(v) => v,
        None => {
            return None;
        },
    };
    let b = match hex_val(s[k + 1]) {
        Some(v) => v,
        None => {
            return None;
        },
    };
    let c = match hex_val(s[k + 2]) {
        Some(v) => v,
        None => {
            return None;
        },
    };
    let d = match hex_val(s[k + 3]) {
        Some(v) => v,
        None => {
            return None;
        },
    };
    Some((a as u32) * 0x1000 + (b as u32) * 0x100 + (c as u32) * 0x10 + d as u32)
}

/// Scan one JSON string starting at the opening quote, decoding its escapes
/// (including surrogate pairs). An unescaped control byte, a bad escape or a
/// lone surrogate rejects the string.
///
/// The result is exactly what the string grammar assigns to these bytes: the
/// decoded contents and the end position on success, nothing otherwise; a
/// string without escapes decodes to exactly the bytes between its quotes.
pub fn parse_json_string(s: &[u8], i: usize) -> (r: Option<(Vec<u8>, usize)>)
    requires
        i <= s.len(),
    ensures
        match r {
            Some((v, j)) => {
                &&& sp_string(s@, i as int) == Some((v@, j as int))
                &&& i + 2 <= j <= s.len()
                &&& s@[i as int] == 0x22
                &&& s@[j - 1] == 0x22
                &&& (no_byte(s@.subrange(i + 1, j - 1), 0x5c) ==> v@ == s@.subrange(i + 1, j - 1))
            },
            None => sp_string(s@, i as int) is None,
        },
{
    if i == s.len() || s[i] != 0x22 {
        return None;
    }
    let mut out: Vec<u8> = Vec::new();
    let mut k = i + 1;
    let ghost mut saw_esc = false;
    let ghost mut esc_pos: int = 0;
    proof {
        match sp_string_tail(s@, k as int) {
            Some((t, _e)) => {
                assert(Seq::<u8>::empty() + t =~= t);
            },
            None => {},
        }
    }
    while k < s.len()
        invariant
            i + 1 <= k <= s.len(),
            s@[i as int] == 0x22,
            i < s@.len(),
            !saw_esc ==> out@ == s@.subrange(i + 1, k as int),
            saw_esc ==> i + 1 <= esc_pos < k && s@[esc_pos] == 0x5c,
            match sp_string_tail(s@, k as int) {
                Some((t, e)) => sp_string(s@, i as int) == Some((out@ + t, e)),
                None => sp_string(s@, i as int) is None,
            },
        decreases s.len() - k,
    {
        let b = s[k];
        if b == 0x22 {
            proof {
                if !saw_esc {
                    assert(s@.subrange(i + 1, (k + 1) - 1) =~= s@.subrange(i + 1, k as int));
                } else {
                    assert(s@.subrange(i + 1, (k + 1) - 1)[esc_pos - i - 1] == s@[esc_pos]);
                    assert(!no_byte(s@.subrange(i + 1, (k + 1) - 1), 0x5c));
                }
                assert(out@ + Seq::<u8>::empty() =~= out@);
            }
            return Some((out, k + 1));
        }
        if b == 0x5c {
            proof {
                saw_esc = true;
                esc_pos = k as int;
            }
            if k + 1 >= s.len() {
                return None;
            }
            let e = s[k + 1];
            let ghost o = out@;
            if e == 0x22 || e == 0x5c || e == 0x2f {
                out.push(e);
                proof {
                    assert(out@ =~= o + seq![e]);
                    lemma_tail_step(s@, i as int, k as int, o, out@, seq![e], k + 2);
                }
                k = k + 2;
            } else if e == 0x62 {
                out.push(0x08);
                proof {
                    assert(out@ =~= o + seq![0x08u8]);
                    lemma_tail_step(s@, i as int, k as int, o, out@, seq![0x08u8], k + 2);
                }
                k = k + 2;
            } else if e == 0x66 {
                out.push(0x0c);
                proof {
                    assert(out@ =~= o + seq![0x0cu8]);
                    lemma_tail_step(s@, i as int, k as int, o, out@, seq![0x0cu8], k + 2);
                }
                k = k + 2;
            } else if e == 0x6e {
                out.push(0x0a);
                proof {
                    assert(out@ =~= o + seq![0x0au8]);
                    lemma_tail_step(s@, i as int, k as int, o, out@, seq![0x0au8], k + 2);
                }
                k = k + 2;
            } else if e == 0x72 {
                out.push(0x0d);
                proof {
                    assert(out@ =~= o + seq![0x0du8]);
                    lemma_tail_step(s@, i as int, k as int, o, out@, seq![0x0du8], k + 2);
                }
                k = k + 2;
            } else if e == 0x74 {
                out.push(0x09);
                proof {
                    assert(out@ =~= o + seq![0x09u8]);
                    lemma_tail_step(s@, i as int, k as int, o, out@, seq![0x09u8], k + 2);
                }
                k = k + 2;
            } else if e == 0x75 {
                if s.len() - k < 6 {
                    return None;
                }
                let hi = match read_hex4(s, k + 2) {
                    Some(v) => v,
                    None => {
                        return None;
                    },
                };
                if 0xD800 <= hi && hi <= 0xDBFF {
                    // A high surrogate must pair with a following low one.
                    if s.len() - k < 12 {
                        return None;
                    }
                    if s[k + 6] != 0x5c || s[k + 7] != 0x75 {
                        return None;
                    }
                    let lo = match read_hex4(s, k + 8) {
                        Some(v) => v,
                        None => {
                            return None;
                        },
                    };
                    if !(0xDC00 <= lo && lo <= 0xDFFF) {
                        return None;
                    }
                    let cp = 0x10000 + (hi - 0xD800) * 0x400 + (lo - 0xDC00);
                    push_utf8(&mut out, cp);
                    proof {
                        lemma_tail_step(s@, i as int, k as int, o, out@, spec_utf8(cp), k + 12);
                    }
                    k = k + 12;
                } else if 0xDC00 <= hi && hi <= 0xDFFF {
                    return None;
                } else {
                    push_utf8(&mut out, hi);
                    proof {
                        lemma_tail_step(s@, i as int, k as int, o, out@, spec_utf8(hi), k + 6);
                    }
                    k = k + 6;
                }
            } else {
                return None;
            }
        } else if b < 0x20 {
            return None;
        } else {
            let ghost o = out@;
            out.push(b);
            proof {
                if !saw_esc {
                    assert(out@ =~= s@.subrange(i + 1, k + 1));
                }
                assert(out@ =~= o + seq![b]);
                lemma_tail_step(s@, i as int, k as int, o, out@, seq![b], k + 1);
            }
            k = k + 1;
        }
    }
    None
}

/// One step of the string scan: if the grammar reads the bytes `bs` at `k`
/// and continues at `k2`, an output extended by `bs` keeps the running
/// relation between the whole string's reading and the remaining tail.
proof fn lemma_tail_step(
    s: Seq<u8>,
    i: int,
    k: int,
    o: Seq<u8>,
    o2: Seq<u8>,
    bs: Seq<u8>,
    k2: int,
)
    requires
        sp_string_tail(s, k) == sp_prepend(bs, sp_string_tail(s, k2)),
        o2 == o + bs,
        match sp_string_tail(s, k) {
            Some((t, e)) => sp_string(s, i) == Some((o + t, e)),
            None => sp_string(s, i) is None,
        },
    ensures
        match sp_string_tail(s, k2) {
            Some((t, e)) => sp_string(s, i) == Some((o2 + t, e)),
            None => sp_string(s, i) is None,
        },
{
    match sp_string_tail(s, k2) {
        Some((t2, _e2)) => {
            assert(o + (bs + t2) =~= (o + bs) + t2);
        },
        None => {},
    }
}

/// What stepping past one whole JSON value at `i` yields: the position just
/// after it, or nothing where the grammar is broken.
pub open spec fn sp_skip(s: Seq<u8>, i: int) -> Option<int>
    decreases s.len() - i, 0int,
{
    if !(0 <= i < s.len()) {
        None
    } else {
        let b = s[i];
        if b == 0x22 {
            match sp_string(s, i) {
                Some((_t, j)) => Some(j),
                None => None,
            }
        } else if b == 0x2d || is_digit(b) {
            match sp_number(s, i) {
                Some((_n, j)) => Some(j),
                None => None,
            }
        } else if b == 0x74 {
            if i + 4 <= s.len() && s[i + 1] == 0x72 && s[i + 2] == 0x75 && s[i + 3] == 0x65 {
                Some(i + 4)
            } else {
                None
            }
        } else if b == 0x66 {
            if i + 5 <= s.len() && s[i + 1] == 0x61 && s[i + 2] == 0x6c && s[i + 3] == 0x73 && s[i
                + 4] == 0x65 {
                Some(i + 5)
            } else {
                None
            }
        } else if b == 0x6e {
            if i + 4 <= s.len() && s[i + 1] == 0x75 && s[i + 2] == 0x6c && s[i + 3] == 0x6c {
                Some(i + 4)
            } else {
                None
            }
        } else if b == 0x7b {
            let p = ws_end(s, i + 1);
            if p < s.len() && s[p] == 0x7d {
                Some(p + 1)
            } else if i < p <= s.len() {
                sp_obj_tail(s, p)
            } else {
                None
            }
        } else if b == 0x5b {
            let p = ws_end(s, i + 1);
            if p < s.len() && s[p] == 0x5d {
                Some(p + 1)
            } else if i < p <= s.len() {
                sp_arr_tail(s, p)
            } else {
                None
            }
        } else {
            None
        }
    }
}

/// What reading an object's members from the start of a member at `p`
/// yields: the position just past the closing brace, or nothing.
pub open spec fn sp_obj_tail(s: Seq<u8>, p: int) -> Option<int>
    decreases s.len() - p, 1int,
{
    match sp_string(s, p) {
        None => None,
        Some((_k, kj)) => {
            let q = ws_end(s, kj);
            if !(q < s.len() && s[q] == 0x3a) {
                None
            } else {
                let v = ws_end(s, q + 1);
                if !(p < v <= s.len()) {
                    None
                } else {
                    match sp_skip(s, v) {
                        None => None,
                        Some(e) => {
                            let w = ws_end(s, e);
                            if !(p < w <= s.len()) {
                                None
                            } else if w < s.len() && s[w] == 0x7d {
                                Some(w + 1)
                            } else if w < s.len() && s[w] == 0x2c {
                                let nx = ws_end(s, w + 1);
                                if p < nx <= s.len() {
                                    sp_obj_tail(s, nx)
                                } else {
                                    None
                                }
                            } else {
                                None
                            }
                        },
                    }
                }
            }
        },
    }
}

/// What reading an array's items from the start of an item at `p` yields:
/// the position just past the closing bracket, or nothing.
pub open spec fn sp_arr_tail(s: Seq<u8>, p: int) -> Option<int>
    decreases s.len() - p, 1int,
{
    if !(0 <= p <= s.len()) {
        None
    } else {
        match sp_skip(s, p) {
            None => None,
            Some(e) => {
                let w = ws_end(s, e);
                if !(p < w <= s.len()) {
                    None
                } else if w < s.len() && s[w] == 0x5d {
                    Some(w + 1)
                } else if w < s.len() && s[w] == 0x2c {
                    let nx = ws_end(s, w + 1);
                    if p < nx <= s.len() {
                        sp_arr_tail(s, nx)
                    } else {
                        None
                    }
                } else {
                    None
                }
            },
        }
    }
}

/// Step past one whole JSON value of any kind, validating it: `j` is the
/// position just after the value, exactly as the grammar reads it.
pub fn skip_json_value(s: &[u8], i: usize) -> (r: Option<usize>)
    requires
        i <= s.len(),
    ensures
        match r {
            Some(j) => sp_skip(s@, i as int) == Some(j as int) && i < j <= s.len(),
            None => sp_skip(s@, i as int) is None,
        },
    decreases s.len() - i,
{
    if i == s.len() {
        return None;
    }
    let b = s[i];
    if b == 0x22 {
        match parse_json_string(s, i) {
            Some((_v, j)) => Some(j),
            None => None,
        }
    } else if b == 0x2d || (0x30 <= b && b <= 0x39) {
        match parse_json_number(s, i) {
            Some((_n, j)) => Some(j),
            None => None,
        }
    } else if b == 0x74 {
        if s.len() - i >= 4 && s[i + 1] == 0x72 && s[i + 2] == 0x75 && s[i + 3] == 0x65 {
            Some(i + 4)
        } else {
            None
        }
    } else if b == 0x66 {
        if s.len() - i >= 5 && s[i + 1] == 0x61 && s[i + 2] == 0x6c && s[i + 3] == 0x73 && s[i + 4]
            == 0x65 {
            Some(i + 5)
        } else {
            None
        }
    } else if b == 0x6e {
        if s.len() - i >= 4 && s[i + 1] == 0x75 && s[i + 2] == 0x6c && s[i + 3] == 0x6c {
            Some(i + 4)
        } else {
            None
        }
    } else if b == 0x7b {
        let mut p = crate::bytes_util::skip_ws(s, i + 1);
        if p < s.len() && s[p] == 0x7d {
            return Some(p + 1);
        }
        loop
            invariant
                i < p <= s.len(),
                i < s@.len(),
                sp_skip(s@, i as int) == sp_obj_tail(s@, p as int),
            decreases s.len() - p,
        {
            let ghost m0 = p as int;
            let kj = match parse_json_string(s, p) {
                Some((_k, j)) => j,
                None => {
                    return None;
                },
            };
            p = crate::bytes_util::skip_ws(s, kj);
            if p == s.len() || s[p] != 0x3a {
                return None;
            }
            p = crate::bytes_util::skip_ws(s, p + 1);
            p = match skip_json_value(s, p) {
                Some(j) => j,
                None => {
                    return None;
                },
            };
            p = crate::bytes_util::skip_ws(s, p);
            if p == s.len() {
                return None;
            }
            if s[p] == 0x7d {
                return Some(p + 1);
            }
            if s[p] != 0x2c {
                return None;
            }
            p = crate::bytes_util::skip_ws(s, p + 1);
        }
    } else if b == 0x5b {
        let mut p = crate::bytes_util::skip_ws(s, i + 1);
        if p < s.len() && s[p] == 0x5d {
            return Some(p + 1);
        }
        loop
            invariant
                i < p <= s.len(),
                i < s@.len(),
                sp_skip(s@, i as int) == sp_arr_tail(s@, p as int),
            decreases s.len() - p,
        {
            p = match skip_json_value(s, p) {
                Some(j) => j,
                None => {
                    return None;
                },
            };
            p = crate::bytes_util::skip_ws(s, p);
            if p == s.len() {
                return None;
            }
            if s[p] == 0x5d {
                return Some(p + 1);
            }
            if s[p] != 0x2c {
                return None;
            }
            p = crate::bytes_util::skip_ws(s, p + 1);
        }
    } else {
        None
    }
}


} // verus!
