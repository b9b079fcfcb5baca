//! UI-facing settings: the recording hotkey, its stored form, and the fixed
//! configuration paths under the project root.
//!
//! The paths are built from a project root that the surrounding program
//! resolves (it probes the file system; the joining is plain string work and
//! lives here). The hotkey is kept as the UTF-8 bytes of its string form.

use vstd::prelude::*;
use crate::bytes_util::{ws_end, skip_ws, push_seg};
use crate::json::{parse_json_string, skip_json_value, sp_string, sp_string_tail, sp_prepend, sp_skip};
use crate::events::bytes_eq;

verus! {

/// The hotkey used until the user picks another.
pub fn default_recording_hotkey() -> (r: String)
    ensures
        r@ == "F2"@,
{
    String::from_str("F2")
}

/// The bytes of the default hotkey's string form.
pub open spec fn default_hotkey_bytes() -> Seq<u8> {
    seq![0x46u8, 0x32u8]
}

/// Replacement dictionaries match case-insensitively unless configured
/// otherwise.
pub fn default_case_insensitive() -> (r: bool)
    ensures
        r == true,
{
    true
}

/// The path of a configuration file under the project root.
pub fn resolve_tauri_config_path(root: &str, file_name: &str) -> (r: String)
    ensures
        r@ == root@ + "/speak-keyboard-tauri/config/"@ + file_name@,
{
    let base = String::from_str(root).concat("/speak-keyboard-tauri/config/");
    base.concat(file_name)
}

/// The path of the UI settings file under the project root.
pub fn resolve_ui_settings_path(root: &str) -> (r: String)
    ensures
        r@ == root@ + "/speak-keyboard-tauri/config/"@ + "ui_settings.json"@,
{
    resolve_tauri_config_path(root, "ui_settings.json")
}

/// The path of the text-replacement configuration under the project root.
pub fn resolve_postprocess_path(root: &str) -> (r: String)
    ensures
        r@ == root@ + "/config/postprocess.json"@,
{
    String::from_str(root).concat("/config/postprocess.json")
}

/// The path of the usage statistics file under the project root.
pub fn resolve_usage_stats_path(root: &str) -> (r: String)
    ensures
        r@ == root@ + "/speak-keyboard-tauri/config/"@ + "usage_stats.json"@,
{
    resolve_tauri_config_path(root, "usage_stats.json")
}

/// The stored UI settings: the recording hotkey, as the UTF-8 bytes of its
/// string form.
#[derive(Debug)]
pub struct UiSettings {
    pub recording_hotkey: Vec<u8>,
}

/// The settings used when none are stored: the default hotkey.
pub fn default_ui_settings() -> (r: UiSettings)
    ensures
        r.recording_hotkey@ == default_hotkey_bytes(),
{
    let mut h: Vec<u8> = Vec::new();
    h.push(0x46);
    h.push(0x32);
    proof {
        assert(h@ =~= default_hotkey_bytes());
    }
    UiSettings { recording_hotkey: h }
}

/// Whether `b` is an ASCII whitespace byte, as trimming sees it.
pub open spec fn is_trim_ws(b: u8) -> bool {
    b == 0x20 || (0x09 <= b <= 0x0d)
}

/// Where the leading whitespace of `s` ends.
pub open spec fn trim_begin(s: Seq<u8>, i: int) -> int
    decreases s.len() - i,
{
    if i < s.len() && is_trim_ws(s[i]) {
        trim_begin(s, i + 1)
    } else {
        i
    }
}

/// Where the trailing whitespace of `s` begins, at or after `b`.
pub open spec fn trim_end(s: Seq<u8>, e: int) -> int
    decreases e,
{
    if e > 0 && is_trim_ws(s[e - 1]) {
        trim_end(s, e - 1)
    } else {
        e
    }
}

/// `s` without its leading and trailing ASCII whitespace.
pub open spec fn spec_trim(s: Seq<u8>) -> Seq<u8> {
    let b = trim_begin(s, 0);
    let e = trim_end(s, s.len() as int);
    if b <= e {
        s.subrange(b, e)
    } else {
        Seq::empty()
    }
}

/// Trim ASCII whitespace from both ends.
pub fn trim_bytes(s: &[u8]) -> (r: Vec<u8>)
    ensures
        r@ == spec_trim(s@),
{
    proof {
        lemma_trim_begin(s@, 0);
        lemma_trim_end(s@, s@.len() as int);
    }
    let mut b: usize = 0;
    while b < s.len() && (s[b] == 0x20 || (0x09 <= s[b] && s[b] <= 0x0d))
        invariant
            b <= s.len(),
            trim_begin(s@, 0) == trim_begin(s@, b as int),
        decreases s.len() - b,
    {
        b += 1;
    }
    let mut e: usize = s.len();
    while e > b && (s[e - 1] == 0x20 || (0x09 <= s[e - 1] && s[e - 1] <= 0x0d))
        invariant
            b <= e <= s.len(),
            b == trim_begin(s@, 0),
            trim_end(s@, s@.len() as int) == trim_end(s@, e as int),
        decreases e,
    {
        e -= 1;
    }
    proof {
        if e > b {
            assert(trim_end(s@, e as int) == e);
        } else {
            lemma_trim_end(s@, e as int);
        }
    }
    let mut out: Vec<u8> = Vec::new();
    let mut k = b;
    while k < e
        invariant
            b <= k <= e <= s.len(),
            out@ == s@.subrange(b as int, k as int),
        decreases e - k,
    {
        out.push(s[k]);
        proof {
            assert(out@ =~= s@.subrange(b as int, k + 1));
        }
        k += 1;
    }
    proof {
        if b <= trim_end(s@, s@.len() as int) {
        } else {
            assert(out@ =~= Seq::<u8>::empty());
        }
    }
    out
}

/// The leading-whitespace scan stays in bounds.
pub proof fn lemma_trim_begin(s: Seq<u8>, i: int)
    requires
        0 <= i <= s.len(),
    ensures
        i <= trim_begin(s, i) <= s.len(),
    decreases s.len() - i,
{
    if i < s.len() && is_trim_ws(s[i]) {
        lemma_trim_begin(s, i + 1);
    }
}

/// The trailing-whitespace scan stays in bounds.
pub proof fn lemma_trim_end(s: Seq<u8>, e: int)
    requires
        0 <= e <= s.len(),
    ensures
        0 <= trim_end(s, e) <= e,
    decreases e,
{
    if e > 0 && is_trim_ws(s[e - 1]) {
        lemma_trim_end(s, e - 1);
    }
}


/// Why a proposed hotkey is refused.
#[derive(Clone, Copy, Debug, PartialEq, Eq, Structural)]
pub enum HotkeyError {
    /// Nothing but whitespace.
    Empty,
    /// A bare modifier key: a hotkey needs a concrete key.
    OnlyModifier,
}

/// The ASCII upper-case image of a byte.
pub open spec fn ascii_upper(b: u8) -> u8 {
    if 0x61 <= b <= 0x7a {
        (b - 0x20) as u8
    } else {
        b
    }
}

/// The ASCII upper-case image of a byte string.
pub open spec fn upper_bytes(s: Seq<u8>) -> Seq<u8> {
    Seq::new(s.len(), |i: int| ascii_upper(s[i]))
}

/// Whether the trimmed hotkey names nothing but a modifier key.
pub open spec fn only_modifier(t: Seq<u8>) -> bool {
    let u = upper_bytes(t);
    ||| u == seq![0x43u8, 0x54u8, 0x52u8, 0x4cu8]
    ||| u == seq![0x53u8, 0x48u8, 0x49u8, 0x46u8, 0x54u8]
    ||| u == seq![0x41u8, 0x4cu8, 0x54u8]
    ||| u == seq![0x4du8, 0x45u8, 0x54u8, 0x41u8]
    ||| u == seq![0x43u8, 0x4fu8, 0x4du8, 0x4du8, 0x41u8, 0x4eu8, 0x44u8]
    ||| u == seq![0x43u8, 0x4fu8, 0x4eu8, 0x54u8, 0x52u8, 0x4fu8, 0x4cu8]
}

/// The ASCII upper-case image of a byte string.
fn to_ascii_upper(s: &[u8]) -> (r: Vec<u8>)
    ensures
        r@ == upper_bytes(s@),
{
    let mut out: Vec<u8> = Vec::new();
    let mut k: usize = 0;
    while k < s.len()
        invariant
            k <= s.len(),
            out@.len() == k,
            forall|t: int| 0 <= t < k ==> out@[t] == ascii_upper(#[trigger] s@[t]),
        decreases s.len() - k,
    {
        let b = s[k];
        if 0x61 <= b && b <= 0x7a {
            out.push(b - 0x20);
        } else {
            out.push(b);
        }
        k += 1;
    }
    proof {
        assert(out@ =~= upper_bytes(s@));
    }
    out
}

/// Judge a proposed hotkey: trimmed of whitespace it must be non-empty and
/// name more than a bare modifier; what passes is returned trimmed.
pub fn validate_hotkey_choice(s: &[u8]) -> (r: Result<Vec<u8>, HotkeyError>)
    ensures
        match r {
            Ok(t) => t@ == spec_trim(s@) && t@.len() > 0 && !only_modifier(t@),
            Err(e) => (e == HotkeyError::Empty && spec_trim(s@).len() == 0) || (e
                == HotkeyError::OnlyModifier && spec_trim(s@).len() > 0 && only_modifier(
                spec_trim(s@),
            )),
        },
{
    let t = trim_bytes(s);
    if t.len() == 0 {
        return Err(HotkeyError::Empty);
    }
    let u = to_ascii_upper(t.as_slice());
    let m_ctrl: [u8; 4] = [0x43, 0x54, 0x52, 0x4c];
    let m_shift: [u8; 5] = [0x53, 0x48, 0x49, 0x46, 0x54];
    let m_alt: [u8; 3] = [0x41, 0x4c, 0x54];
    let m_meta: [u8; 4] = [0x4d, 0x45, 0x54, 0x41];
    let m_command: [u8; 7] = [0x43, 0x4f, 0x4d, 0x4d, 0x41, 0x4e, 0x44];
    let m_control: [u8; 7] = [0x43, 0x4f, 0x4e, 0x54, 0x52, 0x4f, 0x4c];
    proof {
        assert(m_ctrl@ =~= seq![0x43u8, 0x54u8, 0x52u8, 0x4cu8]);
        assert(m_shift@ =~= seq![0x53u8, 0x48u8, 0x49u8, 0x46u8, 0x54u8]);
        assert(m_alt@ =~= seq![0x41u8, 0x4cu8, 0x54u8]);
        assert(m_meta@ =~= seq![0x4du8, 0x45u8, 0x54u8, 0x41u8]);
        assert(m_command@ =~= seq![0x43u8, 0x4fu8, 0x4du8, 0x4du8, 0x41u8, 0x4eu8, 0x44u8]);
        assert(m_control@ =~= seq![0x43u8, 0x4fu8, 0x4eu8, 0x54u8, 0x52u8, 0x4fu8, 0x4cu8]);
    }
    let bare = bytes_eq(u.as_slice(), m_ctrl.as_slice()) || bytes_eq(
        u.as_slice(),
        m_shift.as_slice(),
    ) || bytes_eq(u.as_slice(), m_alt.as_slice()) || bytes_eq(u.as_slice(), m_meta.as_slice())
        || bytes_eq(u.as_slice(), m_command.as_slice()) || bytes_eq(
        u.as_slice(),
        m_control.as_slice(),
    );
    if bare {
        Err(HotkeyError::OnlyModifier)
    } else {
        Ok(t)
    }
}

/// The hotkey to register: the configured one, or the default where nothing
/// usable is configured.
pub fn effective_hotkey(configured: &Vec<u8>) -> (r: Vec<u8>)
    ensures
        r@ == (if spec_trim(configured@).len() == 0 {
            default_hotkey_bytes()
        } else {
            configured@
        }),
{
    let t = trim_bytes(configured.as_slice());
    if t.len() == 0 {
        let d = default_ui_settings();
        d.recording_hotkey
    } else {
        let mut out: Vec<u8> = Vec::new();
        let mut k: usize = 0;
        while k < configured.len()
            invariant
                k <= configured@.len(),
                out@ == configured@.subrange(0, k as int),
            decreases configured@.len() - k,
        {
            out.push(configured[k]);
            proof {
                assert(out@ =~= configured@.subrange(0, k + 1));
            }
            k += 1;
        }
        proof {
            assert(out@ =~= configured@);
        }
        out
    }
}

/// Whether a byte must be written escaped inside a JSON string.
pub open spec fn needs_escape(b: u8) -> bool {
    b == 0x22 || b == 0x5c || b < 0x20
}

/// Render the bytes as a JSON string token, quotes included, escaping what
/// the grammar demands. Bytes that need no escape pass through unchanged.
pub fn encode_json_string_bytes(v: &[u8]) -> (r: Vec<u8>)
    ensures
        (forall|k: int| 0 <= k < v@.len() ==> !needs_escape(#[trigger] v@[k])) ==> r@ == seq![
            0x22u8,
        ] + v@ + seq![0x22u8],
{
    let mut out: Vec<u8> = Vec::new();
    out.push(0x22);
    let mut k: usize = 0;
    let ghost mut clean = true;
    let ghost mut dirty_at: int = 0;
    while k < v.len()
        invariant
            k <= v.len(),
            clean ==> out@ == seq![0x22u8] + v@.subrange(0, k as int),
            !clean ==> 0 <= dirty_at < k && needs_escape(v@[dirty_at]),
        decreases v.len() - k,
    {
        let b = v[k];
        if b == 0x22 || b == 0x5c {
            out.push(0x5c);
            out.push(b);
            proof {
                clean = false;
                dirty_at = k as int;
            }
        } else if b < 0x20 {
            proof {
                clean = false;
                dirty_at = k as int;
            }
            if b == 0x08 {
                out.push(0x5c);
                out.push(0x62);
            } else if b == 0x09 {
                out.push(0x5c);
                out.push(0x74);
            } else if b == 0x0a {
                out.push(0x5c);
                out.push(0x6e);
            } else if b == 0x0c {
                out.push(0x5c);
                out.push(0x66);
            } else if b == 0x0d {
                out.push(0x5c);
                out.push(0x72);
            } else {
                // \u00XX with two hex digits for the rarer controls.
                out.push(0x5c);
                out.push(0x75);
                out.push(0x30);
                out.push(0x30);
                let hi = b / 16;
                let lo = b % 16;
                out.push(if hi < 10 { 0x30 + hi } else { 0x61 + (hi - 10) });
                out.push(if lo < 10 { 0x30 + lo } else { 0x61 + (lo - 10) });
            }
        } else {
            out.push(b);
            proof {
                if clean {
                    assert(out@ =~= seq![0x22u8] + v@.subrange(0, k + 1));
                }
            }
        }
        k += 1;
    }
    out.push(0x22);
    proof {
        if clean {
            assert(v@.subrange(0, v@.len() as int) =~= v@);
            assert(out@ =~= seq![0x22u8] + v@ + seq![0x22u8]);
        } else {
            assert(needs_escape(v@[dirty_at]));
        }
    }
    out
}

/// The canonical head of the stored settings document: `{"recording_hotkey":`.
pub open spec fn kc_recording_hotkey() -> Seq<u8> {
    seq![0x7bu8, 0x22u8, 0x72u8, 0x65u8, 0x63u8, 0x6fu8, 0x72u8, 0x64u8, 0x69u8, 0x6eu8, 0x67u8,
        0x5fu8, 0x68u8, 0x6fu8, 0x74u8, 0x6bu8, 0x65u8, 0x79u8, 0x22u8, 0x3au8]
}

/// Render the settings as their stored document.
pub fn encode_ui_settings(settings: &UiSettings) -> (r: Vec<u8>)
    ensures
        (forall|k: int|
            0 <= k < settings.recording_hotkey@.len() ==> !needs_escape(
                #[trigger] settings.recording_hotkey@[k],
            )) ==> r@ == kc_recording_hotkey() + seq![0x22u8] + settings.recording_hotkey@ + seq![
            0x22u8,
            0x7du8,
        ],
{
    let head: [u8; 20] = [0x7b, 0x22, 0x72, 0x65, 0x63, 0x6f, 0x72, 0x64, 0x69, 0x6e, 0x67, 0x5f,
        0x68, 0x6f, 0x74, 0x6b, 0x65, 0x79, 0x22, 0x3a];
    proof {
        assert(head@ =~= kc_recording_hotkey());
    }
    let mut out: Vec<u8> = Vec::new();
    push_seg(&mut out, head.as_slice());
    let mut sv = encode_json_string_bytes(settings.recording_hotkey.as_slice());
    out.append(&mut sv);
    out.push(0x7d);
    proof {
        if forall|k: int|
            0 <= k < settings.recording_hotkey@.len() ==> !needs_escape(
                #[trigger] settings.recording_hotkey@[k],
            ) {
            assert(out@ =~= kc_recording_hotkey() + seq![0x22u8] + settings.recording_hotkey@
                + seq![0x22u8, 0x7du8]);
        }
    }
    out
}

/// The bytes of the `recording_hotkey` key.
pub open spec fn key_recording_hotkey() -> Seq<u8> {
    seq![0x72u8, 0x65u8, 0x63u8, 0x6fu8, 0x72u8, 0x64u8, 0x69u8, 0x6eu8, 0x67u8, 0x5fu8, 0x68u8,
        0x6fu8, 0x74u8, 0x6bu8, 0x65u8, 0x79u8]
}

/// What reading the settings document's members from the start of a member
/// at `p` yields, `hk` being the hotkey read so far: the hotkey after the
/// closing brace and trailing whitespace, or nothing where the document is
/// broken (a non-string hotkey value included, as its type demands).
pub open spec fn sp_ui_members(s: Seq<u8>, p: int, hk: Seq<u8>) -> Option<Seq<u8>>
    decreases s.len() - p,
{
    match sp_string(s, p) {
        None => None,
        Some((key, kj)) => {
            let q = ws_end(s, kj);
            if !(q < s.len() && s[q] == 0x3a) {
                None
            } else {
                let v = ws_end(s, q + 1);
                if !(p < v <= s.len()) {
                    None
                } else {
                    let step = if key == key_recording_hotkey() {
                        sp_string(s, v)
                    } else {
                        match sp_skip(s, v) {
                            Some(j) => Some((hk, j)),
                            None => None,
                        }
                    };
                    match step {
                        None => None,
                        Some((hk2, vj)) => {
                            let w = ws_end(s, vj);
                            if !(p < w <= s.len()) {
                                None
                            } else if w < s.len() && s[w] == 0x7d {
                                if ws_end(s, w + 1) == s.len() {
                                    Some(hk2)
                                } else {
                                    None
                                }
                            } else if w < s.len() && s[w] == 0x2c {
                                let nx = ws_end(s, w + 1);
                                if p < nx <= s.len() {
                                    sp_ui_members(s, nx, hk2)
                                } else {
                                    None
                                }
                            } else {
                                None
                            }
                        },
                    }
                }
            }
        },
    }
}

/// What a stored settings document reads as: the hotkey it stores (the
/// default where the document holds none), or nothing where the bytes are
/// not a settings document.
pub open spec fn sp_ui_settings(s: Seq<u8>) -> Option<Seq<u8>> {
    let start = ws_end(s, 0);
    if !(0 <= start < s.len() && s[start] == 0x7b) {
        None
    } else {
        let p = ws_end(s, start + 1);
        if p < s.len() && s[p] == 0x7d {
            if ws_end(s, p + 1) == s.len() {
                Some(default_hotkey_bytes())
            } else {
                None
            }
        } else if start < p <= s.len() {
            sp_ui_members(s, p, default_hotkey_bytes())
        } else {
            None
        }
    }
}

/// Walk a stored settings document, exactly as the document grammar reads
/// it.
#[verifier::loop_isolation(false)]
fn parse_ui_settings(s: &[u8]) -> (r: Option<UiSettings>)
    ensures
        match r {
            Some(settings) => sp_ui_settings(s@) == Some(settings.recording_hotkey@),
            None => sp_ui_settings(s@) is None,
        },
{
    let k_hotkey: [u8; 16] = [0x72, 0x65, 0x63, 0x6f, 0x72, 0x64, 0x69, 0x6e, 0x67, 0x5f, 0x68,
        0x6f, 0x74, 0x6b, 0x65, 0x79];
    proof {
        assert(k_hotkey@ =~= key_recording_hotkey());
    }
    let mut settings = default_ui_settings();
    let start = skip_ws(s, 0);
    if start == s.len() || s[start] != 0x7b {
        return None;
    }
    let mut p = skip_ws(s, start + 1);
    if p < s.len() && s[p] == 0x7d {
        let e = skip_ws(s, p + 1);
        if e != s.len() {
            return None;
        }
        return Some(settings);
    }
    loop
        invariant
            start < p <= s@.len(),
            sp_ui_settings(s@) == sp_ui_members(s@, p as int, settings.recording_hotkey@),
        decreases s@.len() - p,
    {
        let ghost m0 = p as int;
        let ghost hk0 = settings.recording_hotkey@;
        let (key, kj) = match parse_json_string(s, p) {
            Some(v) => v,
            None => {
                return None;
            },
        };
        p = skip_ws(s, kj);
        if p == s.len() || s[p] != 0x3a {
            return None;
        }
        p = skip_ws(s, p + 1);
        if bytes_eq(key.as_slice(), k_hotkey.as_slice()) {
            // The hotkey field must be a string, as its type demands.
            let (v, vj) = match parse_json_string(s, p) {
                Some(v) => v,
                None => {
                    return None;
                },
            };
            settings.recording_hotkey = v;
            p = vj;
        } else {
            p = match skip_json_value(s, p) {
                Some(j) => j,
                None => {
                    return None;
                },
            };
        }
        p = skip_ws(s, p);
        if p == s.len() {
            return None;
        }
        if s[p] == 0x7d {
            let e = skip_ws(s, p + 1);
            if e != s.len() {
                return None;
            }
            return Some(settings);
        }
        if s[p] != 0x2c {
            return None;
        }
        p = skip_ws(s, p + 1);
    }
}

/// Load the stored settings: exactly what a stored document reads as, and
/// the defaults where nothing is stored or the bytes are not a settings
/// document.
pub fn load_ui_settings(content: Option<&Vec<u8>>) -> (r: UiSettings)
    ensures
        r.recording_hotkey@ == (match content {
            None => default_hotkey_bytes(),
            Some(c) => match sp_ui_settings(c@) {
                Some(h) => h,
                None => default_hotkey_bytes(),
            },
        }),
{
    match content {
        None => default_ui_settings(),
        Some(c) => match parse_ui_settings(c.as_slice()) {
            Some(settings) => settings,
            None => default_ui_settings(),
        },
    }
}

/// Reading a string token whose content needs no escapes yields exactly the
/// bytes between its quotes, consuming the token whole.
pub proof fn lemma_sp_string_exact(s: Seq<u8>, i: int, t: Seq<u8>, rest: Seq<u8>)
    requires
        0 <= i <= s.len(),
        s.subrange(i, s.len() as int) == seq![0x22u8] + t + seq![0x22u8] + rest,
        forall|k: int| 0 <= k < t.len() ==> !needs_escape(#[trigger] t[k]),
    ensures
        sp_string(s, i) == Some((t, i + t.len() + 2)),
        s.subrange(i + t.len() + 2, s.len() as int) == rest,
{
    let suf = s.subrange(i, s.len() as int);
    assert(suf.len() == s.len() - i);
    assert(suf.len() == t.len() + 2 + rest.len());
    assert(s[i] == suf[0]);
    assert(suf[0] == 0x22);
    assert forall|m: int| 0 <= m < s.len() - (i + 1) implies s.subrange(i + 1, s.len() as int)[m]
        == (t + seq![0x22u8] + rest)[m] by {
        assert(s.subrange(i + 1, s.len() as int)[m] == s[i + 1 + m]);
        assert(suf[1 + m] == s[i + 1 + m]);
    }
    assert(s.subrange(i + 1, s.len() as int) =~= t + seq![0x22u8] + rest);
    lemma_sp_string_tail_exact(s, i + 1, t, rest);
    assert forall|m: int| 0 <= m < rest.len() implies s.subrange(
        i + t.len() + 2,
        s.len() as int,
    )[m] == rest[m] by {
        assert(s.subrange(i + t.len() + 2, s.len() as int)[m] == s[i + t.len() + 2 + m]);
        assert(suf[t.len() + 2 + m] == s[i + t.len() + 2 + m]);
    }
    assert(s.subrange(i + t.len() + 2, s.len() as int) =~= rest);
}

/// The content half of the statement above, from just inside the quotes.
proof fn lemma_sp_string_tail_exact(s: Seq<u8>, k: int, t: Seq<u8>, rest: Seq<u8>)
    requires
        0 <= k <= s.len(),
        s.subrange(k, s.len() as int) == t + seq![0x22u8] + rest,
        forall|m: int| 0 <= m < t.len() ==> !needs_escape(#[trigger] t[m]),
    ensures
        sp_string_tail(s, k) == Some((t, k + t.len() + 1)),
    decreases t.len(),
{
    let suf = s.subrange(k, s.len() as int);
    assert(suf.len() == s.len() - k);
    assert(suf.len() == t.len() + 1 + rest.len());
    if t.len() == 0 {
        assert(s[k] == suf[0]);
        assert(suf[0] == 0x22);
        assert(t =~= Seq::<u8>::empty());
    } else {
        assert(s[k] == suf[0]);
        assert(suf[0] == t[0]);
        assert(!needs_escape(t[0]));
        let t2 = t.subrange(1, t.len() as int);
        assert forall|m: int| 0 <= m < t2.len() implies !needs_escape(#[trigger] t2[m]) by {
            assert(t2[m] == t[m + 1]);
        }
        assert forall|m: int| 0 <= m < s.len() - (k + 1) implies s.subrange(
            k + 1,
            s.len() as int,
        )[m] == (t2 + seq![0x22u8] + rest)[m] by {
            assert(s.subrange(k + 1, s.len() as int)[m] == s[k + 1 + m]);
            assert(suf[1 + m] == s[k + 1 + m]);
            if m < t2.len() {
                assert(t2[m] == t[m + 1]);
            }
        }
        assert(s.subrange(k + 1, s.len() as int) =~= t2 + seq![0x22u8] + rest);
        lemma_sp_string_tail_exact(s, k + 1, t2, rest);
        assert(sp_string_tail(s, k) == sp_prepend(seq![t[0]], sp_string_tail(s, k + 1)));
        assert(seq![t[0]] + t2 =~= t);
    }
}

/// Writing the settings and reading the document back yields the same
/// hotkey, for a hotkey whose bytes need no escapes: persistence loses
/// nothing.
pub proof fn lemma_ui_settings_round_trip(hk: Seq<u8>)
    requires
        forall|k: int| 0 <= k < hk.len() ==> !needs_escape(#[trigger] hk[k]),
    ensures
        sp_ui_settings(kc_recording_hotkey() + seq![0x22u8] + hk + seq![0x22u8, 0x7du8]) == Some(
            hk,
        ),
{
    let s = kc_recording_hotkey() + seq![0x22u8] + hk + seq![0x22u8, 0x7du8];
    assert(s.len() == 20 + 1 + hk.len() + 2);
    assert(s[0] == 0x7b);
    assert(ws_end(s, 0) == 0);
    assert(s[1] == 0x22);
    assert(ws_end(s, 1) == 1);
    // The key token with everything after it.
    let rest1 = seq![0x3au8] + (seq![0x22u8] + hk + seq![0x22u8, 0x7du8]);
    assert(s.subrange(1, s.len() as int) =~= seq![0x22u8] + key_recording_hotkey() + seq![0x22u8]
        + rest1);
    assert forall|k: int| 0 <= k < key_recording_hotkey().len() implies !needs_escape(
        #[trigger] key_recording_hotkey()[k],
    ) by {}
    lemma_sp_string_exact(s, 1, key_recording_hotkey(), rest1);
    assert(sp_string(s, 1) == Some((key_recording_hotkey(), 19int)));
    assert(s.subrange(19, s.len() as int) == rest1);
    assert(s[19] == s.subrange(19, s.len() as int)[0]);
    assert(s[19] == 0x3a);
    assert(ws_end(s, 19) == 19);
    assert(s[20] == s.subrange(19, s.len() as int)[1]);
    assert(s[20] == 0x22);
    assert(ws_end(s, 20) == 20);
    // The value token with the closing brace after it.
    assert forall|m: int| 0 <= m < s.len() - 20 implies s.subrange(20, s.len() as int)[m] == (
    seq![0x22u8] + hk + seq![0x22u8] + seq![0x7du8])[m] by {
        assert(s.subrange(20, s.len() as int)[m] == s[20 + m]);
        assert(s.subrange(19, s.len() as int)[1 + m] == s[20 + m]);
    }
    assert(s.subrange(20, s.len() as int) =~= seq![0x22u8] + hk + seq![0x22u8] + seq![0x7du8]);
    lemma_sp_string_exact(s, 20, hk, seq![0x7du8]);
    let vj: int = 20 + hk.len() as int + 2;
    assert(sp_string(s, 20) == Some((hk, vj as int)));
    assert(s.subrange(vj as int, s.len() as int) == seq![0x7du8]);
    assert(s[vj as int] == s.subrange(vj as int, s.len() as int)[0]);
    assert(s[vj as int] == 0x7d);
    assert(ws_end(s, vj as int) == vj);
    assert(vj + 1 == s.len());
    assert(ws_end(s, vj + 1int) == s.len());
    assert(sp_ui_members(s, 1, default_hotkey_bytes()) == Some(hk));
    assert(sp_ui_settings(s) == Some(hk));
}

} // verus!
