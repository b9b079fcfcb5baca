//! Reading one line of the worker's event stream.
//!
//! A line is one JSON value. A blank line is skipped silently; a line that
//! breaks the grammar is skipped (and logged outside); any other line is an
//! event and is forwarded to subscribers whole. When the value is an object,
//! the fields the dispatcher recognizes — the event name, the recording
//! flag, a transcription's duration, text and corrections — are picked out
//! here, the later of two same-named fields winning as a map built from the
//! object would have it.

use vstd::prelude::*;
use crate::bytes_util::{ws_end, skip_ws};
use crate::decimal::is_digit;
use crate::json::{JsonNum, parse_json_string, parse_json_number, skip_json_value, sp_string, sp_number, sp_skip};

verus! {

/// The bytes of the `recording_state` event name.
pub open spec fn ev_recording_state() -> Seq<u8> {
    seq![0x72u8, 0x65u8, 0x63u8, 0x6fu8, 0x72u8, 0x64u8, 0x69u8, 0x6eu8, 0x67u8, 0x5fu8, 0x73u8,
        0x74u8, 0x61u8, 0x74u8, 0x65u8]
}

/// The bytes of the `transcription_result` event name.
pub open spec fn ev_transcription_result() -> Seq<u8> {
    seq![0x74u8, 0x72u8, 0x61u8, 0x6eu8, 0x73u8, 0x63u8, 0x72u8, 0x69u8, 0x70u8, 0x74u8, 0x69u8,
        0x6fu8, 0x6eu8, 0x5fu8, 0x72u8, 0x65u8, 0x73u8, 0x75u8, 0x6cu8, 0x74u8]
}

/// The bytes of the `event` key.
pub open spec fn key_event() -> Seq<u8> {
    seq![0x65u8, 0x76u8, 0x65u8, 0x6eu8, 0x74u8]
}

/// The bytes of the `is_recording` key.
pub open spec fn key_is_recording() -> Seq<u8> {
    seq![0x69u8, 0x73u8, 0x5fu8, 0x72u8, 0x65u8, 0x63u8, 0x6fu8, 0x72u8, 0x64u8, 0x69u8, 0x6eu8,
        0x67u8]
}

/// The bytes of the `duration` key.
pub open spec fn key_duration() -> Seq<u8> {
    seq![0x64u8, 0x75u8, 0x72u8, 0x61u8, 0x74u8, 0x69u8, 0x6fu8, 0x6eu8]
}

/// The bytes of the `text` key.
pub open spec fn key_text() -> Seq<u8> {
    seq![0x74u8, 0x65u8, 0x78u8, 0x74u8]
}

/// The bytes of the `corrections` key.
pub open spec fn key_corrections() -> Seq<u8> {
    seq![0x63u8, 0x6fu8, 0x72u8, 0x72u8, 0x65u8, 0x63u8, 0x74u8, 0x69u8, 0x6fu8, 0x6eu8, 0x73u8]
}

/// The scalar reading of one member value, at the specification level.
pub struct MemberValueView {
    pub str_val: Option<Seq<u8>>,
    pub bool_val: Option<bool>,
    pub num_val: Option<JsonNum>,
}

/// The recognized fields of a line, at the specification level.
pub struct EventFieldsView {
    pub name: Option<Seq<u8>>,
    pub is_recording: Option<bool>,
    pub duration: Option<JsonNum>,
    pub text: Option<Seq<u8>>,
    pub corrections: Option<i64>,
}

/// No field seen yet.
pub open spec fn empty_fields_view() -> EventFieldsView {
    EventFieldsView { name: None, is_recording: None, duration: None, text: None, corrections: None }
}

/// What reading one member value at `i` yields: a string's decoded bytes, a
/// boolean, a number, or none of these for a composite or null — and the
/// position just past the value.
pub open spec fn sp_member_value(s: Seq<u8>, i: int) -> Option<(MemberValueView, int)> {
    if !(0 <= i < s.len()) {
        None
    } else {
        let b = s[i];
        if b == 0x22 {
            match sp_string(s, i) {
                Some((t, j)) => Some(
                    (MemberValueView { str_val: Some(t), bool_val: None, num_val: None }, j),
                ),
                None => None,
            }
        } else if b == 0x2d || is_digit(b) {
            match sp_number(s, i) {
                Some((n, j)) => Some(
                    (MemberValueView { str_val: None, bool_val: None, num_val: Some(n) }, j),
                ),
                None => None,
            }
        } else if b == 0x74 {
            if i + 4 <= s.len() && s[i + 1] == 0x72 && s[i + 2] == 0x75 && s[i + 3] == 0x65 {
                Some((MemberValueView { str_val: None, bool_val: Some(true), num_val: None }, i + 4))
            } else {
                None
            }
        } else if b == 0x66 {
            if i + 5 <= s.len() && s[i + 1] == 0x61 && s[i + 2] == 0x6c && s[i + 3] == 0x73 && s[i
                + 4] == 0x65 {
                Some(
                    (MemberValueView { str_val: None, bool_val: Some(false), num_val: None }, i + 5),
                )
            } else {
                None
            }
        } else {
            match sp_skip(s, i) {
                Some(j) => Some(
                    (MemberValueView { str_val: None, bool_val: None, num_val: None }, j),
                ),
                None => None,
            }
        }
    }
}

/// What one member does to the recognized fields: a recognized key takes the
/// value's reading of its type (so a later duplicate overwrites an earlier
/// one), any other key changes nothing.
pub open spec fn sp_apply_member(acc: EventFieldsView, key: Seq<u8>, val: MemberValueView) -> EventFieldsView {
    if key == key_event() {
        EventFieldsView { name: val.str_val, ..acc }
    } else if key == key_is_recording() {
        EventFieldsView { is_recording: val.bool_val, ..acc }
    } else if key == key_duration() {
        EventFieldsView { duration: val.num_val, ..acc }
    } else if key == key_text() {
        EventFieldsView { text: val.str_val, ..acc }
    } else if key == key_corrections() {
        EventFieldsView {
            corrections: match val.num_val {
                Some(n) => n.as_i64,
                None => None,
            },
            ..acc
        }
    } else {
        acc
    }
}

/// What reading the object's members from the start of a member at `p`
/// yields: the recognized fields after the closing brace and the trailing
/// whitespace, or nothing where the line is not one whole object.
pub open spec fn sp_members(s: Seq<u8>, p: int, acc: EventFieldsView) -> Option<EventFieldsView>
    decreases s.len() - p,
{
    match sp_string(s, p) {
        None => None,
        Some((key, kj)) => {
            let q = ws_end(s, kj);
            if !(q < s.len() && s[q] == 0x3a) {
                None
            } else {
                let v = ws_end(s, q + 1);
                if !(p < v <= s.len()) {
                    None
                } else {
                    match sp_member_value(s, v) {
                        None => None,
                        Some((mv, vj)) => {
                            let acc2 = sp_apply_member(acc, key, mv);
                            let w = ws_end(s, vj);
                            if !(p < w <= s.len()) {
                                None
                            } else if w < s.len() && s[w] == 0x7d {
                                if ws_end(s, w + 1) == s.len() {
                                    Some(acc2)
                                } else {
                                    None
                                }
                            } else if w < s.len() && s[w] == 0x2c {
                                let nx = ws_end(s, w + 1);
                                if p < nx <= s.len() {
                                    sp_members(s, nx, acc2)
                                } else {
                                    None
                                }
                            } else {
                                None
                            }
                        },
                    }
                }
            }
        },
    }
}

/// What one line of the event stream reads as: nothing where it is not one
/// whole JSON value (a blank line included); otherwise the recognized fields
/// of a top-level object, or no fields at all for any other value.
pub open spec fn sp_event_line(line: Seq<u8>) -> Option<EventFieldsView> {
    let start = ws_end(line, 0);
    if !(0 <= start < line.len()) {
        None
    } else if line[start] != 0x7b {
        match sp_skip(line, start) {
            Some(j) => if 0 <= j <= line.len() && ws_end(line, j) == line.len() {
                Some(empty_fields_view())
            } else {
                None
            },
            None => None,
        }
    } else {
        let p = ws_end(line, start + 1);
        if p < line.len() && line[p] == 0x7d {
            if ws_end(line, p + 1) == line.len() {
                Some(empty_fields_view())
            } else {
                None
            }
        } else if start < p <= line.len() {
            sp_members(line, p, empty_fields_view())
        } else {
            None
        }
    }
}

/// The recognized fields of a parsed event line. A slot is filled only when
/// the field is present with the type the dispatcher reads; any other value
/// under the same key leaves the slot empty, as a lenient field access would.
#[derive(Debug)]
pub struct EventFields {
    /// The `event` field, when it is a string.
    pub name: Option<Vec<u8>>,
    /// The `is_recording` field, when it is a boolean.
    pub is_recording: Option<bool>,
    /// The `duration` field, when it is a number.
    pub duration: Option<JsonNum>,
    /// The `text` field, when it is a string (decoded).
    pub text: Option<Vec<u8>>,
    /// The `corrections` field, when it is an integer fitting an `i64`.
    pub corrections: Option<i64>,
}

/// The specification-level reading of extracted fields.
pub open spec fn fields_view(f: EventFields) -> EventFieldsView {
    EventFieldsView {
        name: match f.name {
            Some(v) => Some(v@),
            None => None,
        },
        is_recording: f.is_recording,
        duration: f.duration,
        text: match f.text {
            Some(v) => Some(v@),
            None => None,
        },
        corrections: f.corrections,
    }
}

/// What one line of the event stream is.
#[derive(Debug)]
pub enum LineOutcome {
    /// Only whitespace: skipped without a word.
    Blank,
    /// Not one JSON value: logged and skipped, the stream going on.
    Invalid,
    /// One JSON value: forwarded whole, with the recognized fields picked
    /// out when it is an object.
    Parsed(EventFields),
}

/// Whether the two byte strings are equal.
pub fn bytes_eq(a: &[u8], b: &[u8]) -> (r: bool)
    ensures
        r == (a@ == b@),
{
    if a.len() != b.len() {
        proof {
            assert(a@ != b@);
        }
        return false;
    }
    let mut k: usize = 0;
    while k < a.len()
        invariant
            k <= a.len(),
            a@.len() == b@.len(),
            forall|t: int| 0 <= t < k ==> a@[t] == #[trigger] b@[t],
        decreases a.len() - k,
    {
        if a[k] != b[k] {
            proof {
                assert(a@[k as int] != b@[k as int]);
            }
            return false;
        }
        k += 1;
    }
    proof {
        assert(a@ =~= b@);
    }
    true
}

/// The scalar reading of one member value: a string's decoded bytes, a
/// boolean, or a number; an object, array or null reads as none of these.
struct MemberValue {
    str_val: Option<Vec<u8>>,
    bool_val: Option<bool>,
    num_val: Option<JsonNum>,
}

/// The specification-level reading of a summarized member value.
spec fn member_view(v: MemberValue) -> MemberValueView {
    MemberValueView {
        str_val: match v.str_val {
            Some(x) => Some(x@),
            None => None,
        },
        bool_val: v.bool_val,
        num_val: v.num_val,
    }
}

/// Scan one member value starting at `i` and summarize it, exactly as the
/// grammar reads it.
fn parse_member_value(s: &[u8], i: usize) -> (r: Option<(MemberValue, usize)>)
    requires
        i <= s.len(),
    ensures
        match r {
            Some((v, j)) => sp_member_value(s@, i as int) == Some((member_view(v), j as int)) && i
                < j <= s.len(),
            None => sp_member_value(s@, i as int) is None,
        },
{
    if i == s.len() {
        return None;
    }
    let b = s[i];
    if b == 0x22 {
        match parse_json_string(s, i) {
            Some((v, j)) => Some(
                (MemberValue { str_val: Some(v), bool_val: None, num_val: None }, j),
            ),
            None => None,
        }
    } else if b == 0x2d || (0x30 <= b && b <= 0x39) {
        match parse_json_number(s, i) {
            Some((n, j)) => Some(
                (MemberValue { str_val: None, bool_val: None, num_val: Some(n) }, j),
            ),
            None => None,
        }
    } else if b == 0x74 {
        if s.len() - i >= 4 && s[i + 1] == 0x72 && s[i + 2] == 0x75 && s[i + 3] == 0x65 {
            Some((MemberValue { str_val: None, bool_val: Some(true), num_val: None }, i + 4))
        } else {
            None
        }
    } else if b == 0x66 {
        if s.len() - i >= 5 && s[i + 1] == 0x61 && s[i + 2] == 0x6c && s[i + 3] == 0x73 && s[i + 4]
            == 0x65 {
            Some((MemberValue { str_val: None, bool_val: Some(false), num_val: None }, i + 5))
        } else {
            None
        }
    } else {
        match skip_json_value(s, i) {
            Some(j) => Some((MemberValue { str_val: None, bool_val: None, num_val: None }, j)),
            None => None,
        }
    }
}

/// Read one line of the event stream: blank, invalid, or one JSON value
/// with the recognized fields of a top-level object picked out.
///
/// The outcome is exactly what the line grammar assigns to the bytes: blank
/// for whitespace alone; the fields' reading where the line is one whole
/// JSON value; invalid otherwise.
#[verifier::loop_isolation(false)]
pub fn parse_event_line(line: &[u8]) -> (r: LineOutcome)
    ensures
        (r is Blank) <==> ws_end(line@, 0) == line@.len(),
        match r {
            LineOutcome::Blank => true,
            LineOutcome::Invalid => sp_event_line(line@) is None,
            LineOutcome::Parsed(f) => sp_event_line(line@) == Some(fields_view(f)),
        },
{
    let start = skip_ws(line, 0);
    if start == line.len() {
        return LineOutcome::Blank;
    }
    let k_event: [u8; 5] = [0x65, 0x76, 0x65, 0x6e, 0x74];
    let k_is_recording: [u8; 12] = [0x69, 0x73, 0x5f, 0x72, 0x65, 0x63, 0x6f, 0x72, 0x64, 0x69,
        0x6e, 0x67];
    let k_duration: [u8; 8] = [0x64, 0x75, 0x72, 0x61, 0x74, 0x69, 0x6f, 0x6e];
    let k_text: [u8; 4] = [0x74, 0x65, 0x78, 0x74];
    let k_corrections: [u8; 11] = [0x63, 0x6f, 0x72, 0x72, 0x65, 0x63, 0x74, 0x69, 0x6f, 0x6e,
        0x73];
    proof {
        assert(k_event@ =~= key_event());
        assert(k_is_recording@ =~= key_is_recording());
        assert(k_duration@ =~= key_duration());
        assert(k_text@ =~= key_text());
        assert(k_corrections@ =~= key_corrections());
    }
    let mut fields = EventFields {
        name: None,
        is_recording: None,
        duration: None,
        text: None,
        corrections: None,
    };
    proof {
        assert(fields_view(fields) == empty_fields_view());
    }
    if line[start] != 0x7b {
        // Any other JSON value passes through with no recognized fields.
        let after = match skip_json_value(line, start) {
            Some(j) => j,
            None => {
                return LineOutcome::Invalid;
            },
        };
        let e = skip_ws(line, after);
        if e != line.len() {
            return LineOutcome::Invalid;
        }
        return LineOutcome::Parsed(fields);
    }
    let mut p = skip_ws(line, start + 1);
    if p < line.len() && line[p] == 0x7d {
        let e = skip_ws(line, p + 1);
        if e != line.len() {
            return LineOutcome::Invalid;
        }
        return LineOutcome::Parsed(fields);
    }
    loop
        invariant
            start < p <= line.len(),
            sp_event_line(line@) == sp_members(line@, p as int, fields_view(fields)),
        decreases line.len() - p,
    {
        let ghost m0 = p as int;
        let ghost acc0 = fields_view(fields);
        let (key, kj) = match parse_json_string(line, p) {
            Some(v) => v,
            None => {
                return LineOutcome::Invalid;
            },
        };
        p = skip_ws(line, kj);
        if p == line.len() || line[p] != 0x3a {
            return LineOutcome::Invalid;
        }
        p = skip_ws(line, p + 1);
        let (val, vj) = match parse_member_value(line, p) {
            Some(v) => v,
            None => {
                return LineOutcome::Invalid;
            },
        };
        p = vj;
        let ghost mv = member_view(val);
        if bytes_eq(key.as_slice(), k_event.as_slice()) {
            fields.name = val.str_val;
        } else if bytes_eq(key.as_slice(), k_is_recording.as_slice()) {
            fields.is_recording = val.bool_val;
        } else if bytes_eq(key.as_slice(), k_duration.as_slice()) {
            fields.duration = val.num_val;
        } else if bytes_eq(key.as_slice(), k_text.as_slice()) {
            fields.text = val.str_val;
        } else if bytes_eq(key.as_slice(), k_corrections.as_slice()) {
            fields.corrections = match val.num_val {
                Some(n) => n.as_i64,
                None => None,
            };
        }
        proof {
            assert(fields_view(fields) == sp_apply_member(acc0, key@, mv));
        }
        p = skip_ws(line, p);
        if p == line.len() {
            return LineOutcome::Invalid;
        }
        if line[p] == 0x7d {
            let e = skip_ws(line, p + 1);
            if e != line.len() {
                return LineOutcome::Invalid;
            }
            return LineOutcome::Parsed(fields);
        }
        if line[p] != 0x2c {
            return LineOutcome::Invalid;
        }
        p = skip_ws(line, p + 1);
    }
}

} // verus!
