//! Decimal rendering and reading of counters.
//!
//! The stats file stores every counter as a plain base-ten numeral. The
//! rendering is canonical (no leading zero except for zero itself), and the
//! reader accepts exactly the digit runs whose value fits a `u64`, so that
//! writing and reading back are proven inverse.

use vstd::prelude::*;

verus! {

/// Whether `b` is an ASCII decimal digit.
pub open spec fn is_digit(b: u8) -> bool {
    0x30 <= b <= 0x39
}

/// The canonical base-ten numeral of `n`.
pub open spec fn u64_dec_bytes(n: nat) -> Seq<u8>
    decreases n,
{
    if n < 10 {
        seq![(0x30 + n) as u8]
    } else {
        u64_dec_bytes(n / 10) + seq![(0x30 + n % 10) as u8]
    }
}

/// The value of a run of digit bytes, most significant first.
pub open spec fn dec_val(s: Seq<u8>) -> nat
    decreases s.len(),
{
    if s.len() == 0 {
        0
    } else {
        dec_val(s.drop_last()) * 10 + (s.last() - 0x30) as nat
    }
}

/// Where the run of digits starting at `i` ends.
pub open spec fn digit_run_end(s: Seq<u8>, i: int) -> int
    decreases s.len() - i,
{
    if i < s.len() && is_digit(s[i]) {
        digit_run_end(s, i + 1)
    } else {
        i
    }
}

/// The digit run starting at `i` runs to its end, within bounds, and every
/// byte in it is a digit while the byte after it (if any) is not.
pub proof fn lemma_digit_run_end(s: Seq<u8>, i: int)
    requires
        0 <= i <= s.len(),
    ensures
        i <= digit_run_end(s, i) <= s.len(),
        forall|k: int| i <= k < digit_run_end(s, i) ==> is_digit(#[trigger] s[k]),
        digit_run_end(s, i) < s.len() ==> !is_digit(s[digit_run_end(s, i)]),
    decreases s.len() - i,
{
    if i < s.len() && is_digit(s[i]) {
        lemma_digit_run_end(s, i + 1);
    }
}

/// The canonical numeral is all digits, never empty, and has no leading zero
/// unless it is `0` itself; its value is the number it renders.
pub proof fn lemma_u64_dec_bytes(n: nat)
    ensures
        u64_dec_bytes(n).len() >= 1,
        forall|k: int| 0 <= k < u64_dec_bytes(n).len() ==> is_digit(#[trigger] u64_dec_bytes(n)[k]),
        dec_val(u64_dec_bytes(n)) == n,
        n > 0 ==> u64_dec_bytes(n)[0] != 0x30,
    decreases n,
{
    if n < 10 {
        assert(u64_dec_bytes(n) =~= seq![(0x30 + n) as u8]);
        assert(dec_val(u64_dec_bytes(n)) == dec_val(
            u64_dec_bytes(n).drop_last(),
        ) * 10 + (u64_dec_bytes(n).last() - 0x30) as nat);
        assert(u64_dec_bytes(n).drop_last() =~= Seq::<u8>::empty());
    } else {
        lemma_u64_dec_bytes(n / 10);
        let w = u64_dec_bytes(n / 10);
        let full = u64_dec_bytes(n);
        assert(full =~= w + seq![(0x30 + n % 10) as u8]);
        assert(full.drop_last() =~= w);
        assert(dec_val(full) == dec_val(w) * 10 + n % 10);
    }
}

/// Extending a run of digits never shrinks its value: the value of a prefix
/// is at most the value of the whole run.
pub proof fn lemma_dec_val_prefix(s: Seq<u8>, m: int)
    requires
        0 <= m <= s.len(),
        forall|k: int| 0 <= k < s.len() ==> is_digit(#[trigger] s[k]),
    ensures
        dec_val(s.subrange(0, m)) <= dec_val(s),
    decreases s.len() - m,
{
    if m < s.len() {
        lemma_dec_val_prefix(s, m + 1);
        let p = s.subrange(0, m);
        let q = s.subrange(0, m + 1);
        assert(q.drop_last() =~= p);
        assert(dec_val(q) == dec_val(p) * 10 + (s[m] - 0x30) as nat);
    } else {
        assert(s.subrange(0, m) =~= s);
    }
}

/// Render `n` as its canonical decimal numeral.
pub fn encode_u64(n: u64) -> (r: Vec<u8>)
    ensures
        r@ == u64_dec_bytes(n as nat),
    decreases n,
{
    if n < 10 {
        let mut v: Vec<u8> = Vec::new();
        v.push(0x30 + n as u8);
        proof {
            assert(v@ =~= u64_dec_bytes(n as nat));
        }
        v
    } else {
        let mut v = encode_u64(n / 10);
        v.push(0x30 + (n % 10) as u8);
        proof {
            assert(v@ =~= u64_dec_bytes(n as nat));
        }
        v
    }
}

/// Read the run of digits starting at `i`. Succeeds with the run's value and
/// the position just past it exactly when there is at least one digit and the
/// value fits a `u64`.
pub fn parse_u64_at(s: &[u8], i: usize) -> (r: Option<(u64, usize)>)
    requires
        i <= s.len(),
    ensures
        match r {
            Some((n, j)) => {
                &&& j == digit_run_end(s@, i as int)
                &&& i < j <= s.len()
                &&& n == dec_val(s@.subrange(i as int, j as int))
            },
            None => {
                let e = digit_run_end(s@, i as int);
                e == i || dec_val(s@.subrange(i as int, e)) > u64::MAX
            },
        },
{
    proof {
        lemma_digit_run_end(s@, i as int);
    }
    let ghost e = digit_run_end(s@, i as int);
    if i == s.len() || !(0x30 <= s[i] && s[i] <= 0x39) {
        return None;
    }
    let mut j: usize = i;
    let mut acc: u64 = 0;
    while j < s.len() && 0x30 <= s[j] && s[j] <= 0x39
        invariant
            i <= j <= s.len(),
            j <= e,
            e == digit_run_end(s@, i as int),
            i <= e <= s@.len(),
            forall|k: int| i <= k < e ==> is_digit(#[trigger] s@[k]),
            e < s@.len() ==> !is_digit(s@[e]),
            acc == dec_val(s@.subrange(i as int, j as int)),
        decreases s.len() - j,
    {
        let d: u64 = (s[j] - 0x30) as u64;
        proof {
            assert(s@.subrange(i as int, j + 1).drop_last() =~= s@.subrange(i as int, j as int));
        }
        if acc > (u64::MAX - d) / 10 {
            proof {
                let run = s@.subrange(i as int, e);
                assert(s@.subrange(i as int, j + 1) =~= run.subrange(0, j + 1 - i));
                lemma_dec_val_prefix(run, j + 1 - i);
                assert(dec_val(s@.subrange(i as int, j + 1)) == acc * 10 + d);
                assert(acc * 10 + d > u64::MAX) by {
                    assert(acc >= (u64::MAX - d) / 10 + 1);
                };
            }
            return None;
        }
        acc = acc * 10 + d;
        j += 1;
    }
    proof {
        assert(j == e);
    }
    Some((acc, j))
}

/// Reading back a rendered numeral yields the number itself, and consumes
/// exactly the numeral: the byte after it may be anything but a digit.
pub proof fn lemma_u64_round_trip(s: Seq<u8>, i: int, n: u64)
    requires
        0 <= i,
        i + u64_dec_bytes(n as nat).len() <= s.len(),
        s.subrange(i, i + u64_dec_bytes(n as nat).len() as int) == u64_dec_bytes(n as nat),
        i + u64_dec_bytes(n as nat).len() < s.len() ==> !is_digit(
            s[i + u64_dec_bytes(n as nat).len()],
        ),
    ensures
        digit_run_end(s, i) == i + u64_dec_bytes(n as nat).len(),
        dec_val(s.subrange(i, i + u64_dec_bytes(n as nat).len() as int)) == n,
{
    let w = u64_dec_bytes(n as nat);
    lemma_u64_dec_bytes(n as nat);
    let j = i + w.len() as int;
    lemma_digit_run_end(s, i);
    let e = digit_run_end(s, i);
    assert(forall|k: int| i <= k < j ==> is_digit(#[trigger] s[k])) by {
        assert(forall|k: int| i <= k < j ==> s[k] == w[k - i]);
    }
    lemma_digit_run_full(s, i, j);
}

/// If every byte in `[i, j)` is a digit and the byte at `j` (if any) is not,
/// the digit run starting at `i` ends exactly at `j`.
pub proof fn lemma_digit_run_full(s: Seq<u8>, i: int, j: int)
    requires
        0 <= i <= j <= s.len(),
        forall|k: int| i <= k < j ==> is_digit(#[trigger] s[k]),
        j < s.len() ==> !is_digit(s[j]),
    ensures
        digit_run_end(s, i) == j,
    decreases j - i,
{
    if i < j {
        lemma_digit_run_full(s, i + 1, j);
    }
}

} // verus!
