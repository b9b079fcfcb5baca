//! Calendar dates for the daily rollover of the usage statistics.
//!
//! A date is held as plain year, month and day numbers; the only thing the
//! outside world supplies is which date it is right now, through a thin
//! wrapper over `chrono`. Everything else — validity, the `YYYY-MM-DD`
//! rendering used in the stats file, and its parse — is verified here.

use vstd::prelude::*;
use chrono::Datelike;

verus! {

/// A local calendar date, as stored in the usage-stats file.
#[derive(Clone, Copy, Debug, PartialEq, Eq, Structural)]
pub struct Date {
    pub year: u32,
    pub month: u8,
    pub day: u8,
}

impl Date {
    /// A date the library will store: four-digit year, month and day in the
    /// ranges a calendar allows.
    pub open spec fn valid(self) -> bool {
        self.year <= 9999 && 1 <= self.month <= 12 && 1 <= self.day <= 31
    }
}

/// Relies on `chrono::Local::now` and the `Datelike` accessors of the
/// resulting date: `month()` returns a number in 1..=12 and `day()` a number
/// in 1..=31, as their documentation states. Nothing is assumed of the year.
#[verifier::external_body]
fn local_now_ymd() -> (r: (i32, u8, u8))
    ensures
        1 <= r.1 <= 12,
        1 <= r.2 <= 31,
{
    let d = chrono::Local::now().date_naive();
    (d.year(), d.month() as u8, d.day() as u8)
}

/// The current local calendar date. Years outside 0..=9999 (which `chrono`
/// can report, though not for many millennia) are clamped so that the result
/// always fits the stored four-digit form.
pub fn today_date() -> (d: Date)
    ensures
        d.valid(),
{
    let (y, m, dd) = local_now_ymd();
    let year: u32 = if y < 0 {
        0
    } else if y > 9999 {
        9999
    } else {
        y as u32
    };
    Date { year, month: m, day: dd }
}

/// The current local date in its stored `YYYY-MM-DD` form.
pub fn current_date_string() -> (r: Vec<u8>)
    ensures
        exists|d: Date| d.valid() && r@ == spec_date_bytes(d),
{
    let d = today_date();
    let r = encode_date(d);
    proof {
        assert(d.valid() && r@ == spec_date_bytes(d));
    }
    r
}

/// The byte a decimal digit is written as.
pub open spec fn digit_byte(n: int) -> u8 {
    (0x30 + n) as u8
}

/// The ten bytes `YYYY-MM-DD` that a date is stored as.
pub open spec fn spec_date_bytes(d: Date) -> Seq<u8> {
    seq![
        digit_byte(d.year as int / 1000 % 10),
        digit_byte(d.year as int / 100 % 10),
        digit_byte(d.year as int / 10 % 10),
        digit_byte(d.year as int % 10),
        0x2d,
        digit_byte(d.month as int / 10 % 10),
        digit_byte(d.month as int % 10),
        0x2d,
        digit_byte(d.day as int / 10 % 10),
        digit_byte(d.day as int % 10),
    ]
}

/// Render a date as the ten bytes `YYYY-MM-DD`.
pub fn encode_date(d: Date) -> (r: Vec<u8>)
    requires
        d.valid(),
    ensures
        r@ == spec_date_bytes(d),
{
    let mut out: Vec<u8> = Vec::new();
    out.push(0x30 + (d.year / 1000 % 10) as u8);
    out.push(0x30 + (d.year / 100 % 10) as u8);
    out.push(0x30 + (d.year / 10 % 10) as u8);
    out.push(0x30 + (d.year % 10) as u8);
    out.push(0x2d);
    out.push(0x30 + d.month / 10 % 10);
    out.push(0x30 + d.month % 10);
    out.push(0x2d);
    out.push(0x30 + d.day / 10 % 10);
    out.push(0x30 + d.day % 10);
    proof {
        assert(out@ =~= spec_date_bytes(d));
    }
    out
}

/// Whether the ten bytes starting at `i` spell a date that `parse_date`
/// accepts: digits in the `YYYY-MM-DD` positions, dashes between, and month
/// and day in calendar range.
pub open spec fn date_bytes_at(s: Seq<u8>, i: int) -> bool {
    &&& i + 10 <= s.len()
    &&& (forall|k: int| 0 <= k < 10 && k != 4 && k != 7 ==> 0x30 <= #[trigger] s[i + k] <= 0x39)
    &&& s[i + 4] == 0x2d
    &&& s[i + 7] == 0x2d
    &&& {
        let m = (s[i + 5] - 0x30) * 10 + (s[i + 6] - 0x30);
        let d = (s[i + 8] - 0x30) * 10 + (s[i + 9] - 0x30);
        1 <= m <= 12 && 1 <= d <= 31
    }
}

/// The date spelled at `i`, given `date_bytes_at(s, i)`.
pub open spec fn date_at(s: Seq<u8>, i: int) -> Date {
    Date {
        year: ((s[i] - 0x30) * 1000 + (s[i + 1] - 0x30) * 100 + (s[i + 2] - 0x30) * 10 + (s[i + 3]
            - 0x30)) as u32,
        month: ((s[i + 5] - 0x30) * 10 + (s[i + 6] - 0x30)) as u8,
        day: ((s[i + 8] - 0x30) * 10 + (s[i + 9] - 0x30)) as u8,
    }
}

/// Read a `YYYY-MM-DD` date at position `i`. Returns the date and the
/// position just past it exactly when the bytes there spell a valid date.
pub fn parse_date(s: &[u8], i: usize) -> (r: Option<(Date, usize)>)
    requires
        i <= s.len(),
    ensures
        match r {
            Some((d, j)) => {
                &&& date_bytes_at(s@, i as int)
                &&& d == date_at(s@, i as int)
                &&& d.valid()
                &&& j == i + 10
            },
            None => !date_bytes_at(s@, i as int),
        },
{
    if s.len() - i < 10 {
        return None;
    }
    let mut k: usize = 0;
    while k < 10
        invariant
            k <= 10,
            i + 10 <= s.len(),
            forall|t: int| 0 <= t < k && t != 4 && t != 7 ==> 0x30 <= #[trigger] s@[i + t] <= 0x39,
            forall|t: int| 0 <= t < k && (t == 4 || t == 7) ==> #[trigger] s@[i + t] == 0x2d,
        decreases 10 - k,
    {
        let b = s[i + k];
        if k == 4 || k == 7 {
            if b != 0x2d {
                return None;
            }
        } else {
            if !(0x30 <= b && b <= 0x39) {
                return None;
            }
        }
        k += 1;
    }
    proof {
        let gi = i as int;
        assert(0x30 <= s@[gi + 0] <= 0x39);
        assert(0x30 <= s@[gi + 1] <= 0x39);
        assert(0x30 <= s@[gi + 2] <= 0x39);
        assert(0x30 <= s@[gi + 3] <= 0x39);
        assert(s@[gi + 4] == 0x2d);
        assert(0x30 <= s@[gi + 5] <= 0x39);
        assert(0x30 <= s@[gi + 6] <= 0x39);
        assert(s@[gi + 7] == 0x2d);
        assert(0x30 <= s@[gi + 8] <= 0x39);
        assert(0x30 <= s@[gi + 9] <= 0x39);
    }
    let year: u32 = (s[i] - 0x30) as u32 * 1000 + (s[i + 1] - 0x30) as u32 * 100 + (s[i + 2]
        - 0x30) as u32 * 10 + (s[i + 3] - 0x30) as u32;
    let month: u8 = (s[i + 5] - 0x30) * 10 + (s[i + 6] - 0x30);
    let day: u8 = (s[i + 8] - 0x30) * 10 + (s[i + 9] - 0x30);
    if !(1 <= month && month <= 12 && 1 <= day && day <= 31) {
        return None;
    }
    Some((Date { year, month, day }, i + 10))
}

/// Rendering a valid date and reading it back yields the same date: the
/// stored form loses nothing.
#[verifier::rlimit(50)]
pub proof fn lemma_date_round_trip(d: Date)
    requires
        d.valid(),
    ensures
        date_bytes_at(spec_date_bytes(d), 0),
        date_at(spec_date_bytes(d), 0) == d,
{
    let s = spec_date_bytes(d);
    assert forall|k: int| 0 <= k < 10 && k != 4 && k != 7 implies 0x30 <= #[trigger] s[k]
        <= 0x39 by {
        assert(s[k] == digit_byte(
            if k == 0 {
                d.year as int / 1000 % 10
            } else if k == 1 {
                d.year as int / 100 % 10
            } else if k == 2 {
                d.year as int / 10 % 10
            } else if k == 3 {
                d.year as int % 10
            } else if k == 5 {
                d.month as int / 10 % 10
            } else if k == 6 {
                d.month as int % 10
            } else if k == 8 {
                d.day as int / 10 % 10
            } else {
                d.day as int % 10
            },
        ));
    }
    assert(d.year as int == d.year as int / 1000 % 10 * 1000 + d.year as int / 100 % 10 * 100
        + d.year as int / 10 % 10 * 10 + d.year as int % 10);
    assert(d.month as int == d.month as int / 10 % 10 * 10 + d.month as int % 10);
    assert(d.day as int == d.day as int / 10 % 10 * 10 + d.day as int % 10);
}

} // verus!
