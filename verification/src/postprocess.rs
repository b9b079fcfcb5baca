//! Cleaning of the text-replacement dictionary.
//!
//! The replacement dictionary maps spoken phrases to what should be typed.
//! A saved dictionary is cleaned before it is stored: keys and values are
//! trimmed, empty entries dropped, entries longer than sixteen characters
//! refused, duplicate keys collapsed (case-insensitively when so configured,
//! with the later entry winning and moving to the end), and the whole capped
//! at two hundred entries. Keys and values are the UTF-8 bytes of their
//! string forms; insertion order is kept.

use vstd::prelude::*;
use crate::bytes_util::{ws_end, skip_ws, push_seg};
use crate::events::bytes_eq;
use crate::json::{parse_json_string, skip_json_value, sp_string, sp_skip};
use crate::settings::{spec_trim, trim_bytes, needs_escape, encode_json_string_bytes, lemma_sp_string_exact};
use crate::text_metrics::{char_count, count_chars};

verus! {

/// The largest number of characters a key or value may have.
pub const MAX_ENTRY_CHARS: u64 = 16;

/// The largest number of entries the dictionary may hold.
pub const MAX_ENTRIES: usize = 200;

/// The cleaned text-replacement configuration: the match policy and the
/// replacement pairs in insertion order.
#[derive(Debug)]
pub struct PostprocessConfig {
    pub case_insensitive: bool,
    pub replace_map: Vec<(Vec<u8>, Vec<u8>)>,
}

/// Why a saved dictionary is refused.
#[derive(Clone, Copy, Debug, PartialEq, Eq, Structural)]
pub enum PayloadError {
    /// Some key or value is longer than sixteen characters after trimming.
    EntryTooLong,
    /// More than two hundred entries survive cleaning.
    TooManyEntries,
}

/// What `str::to_lowercase` makes of this text, as bytes: a function of the
/// bytes alone.
pub uninterp spec fn lower_of(s: Seq<u8>) -> Seq<u8>;

/// Relies on `str::to_lowercase` (after the standard lossy UTF-8 read of the
/// bytes, and back to bytes): the result depends on the input bytes alone.
#[verifier::external_body]
fn lowercase_bytes(s: &[u8]) -> (r: Vec<u8>)
    ensures
        r@ == lower_of(s@),
{
    String::from_utf8_lossy(s).to_lowercase().into_bytes()
}

/// The form under which keys are compared: folded to lower case when the
/// dictionary matches case-insensitively, the key itself otherwise.
pub open spec fn spec_key_norm(case_insensitive: bool, k: Seq<u8>) -> Seq<u8> {
    if case_insensitive {
        lower_of(k)
    } else {
        k
    }
}

/// Whether this input pair must be refused: both sides survive trimming but
/// one of them exceeds sixteen characters.
pub open spec fn pair_oversize(k: Seq<u8>, v: Seq<u8>) -> bool {
    let kt = spec_trim(k);
    let vt = spec_trim(v);
    kt.len() > 0 && vt.len() > 0 && (char_count(kt) > MAX_ENTRY_CHARS || char_count(vt)
        > MAX_ENTRY_CHARS)
}

/// The byte views of a dictionary's pairs.
pub open spec fn pair_views(m: Seq<(Vec<u8>, Vec<u8>)>) -> Seq<(Seq<u8>, Seq<u8>)> {
    m.map_values(|e: (Vec<u8>, Vec<u8>)| (e.0@, e.1@))
}

/// The first position in `m` (from `i` on) whose key compares equal to
/// `kt` under the case policy, or `m.len()` where none does.
pub open spec fn find_norm_from(m: Seq<(Seq<u8>, Seq<u8>)>, ci: bool, kt: Seq<u8>, i: int) -> int
    decreases m.len() - i,
{
    if !(0 <= i < m.len()) {
        m.len() as int
    } else if spec_key_norm(ci, m[i].0) == spec_key_norm(ci, kt) {
        i
    } else {
        find_norm_from(m, ci, kt, i + 1)
    }
}

/// One cleaned entry joining the dictionary: the one earlier entry whose key
/// compares equal (if any) leaves, and the new entry stands at the end with
/// its own casing.
pub open spec fn spec_insert_entry(
    m: Seq<(Seq<u8>, Seq<u8>)>,
    ci: bool,
    kt: Seq<u8>,
    vt: Seq<u8>,
) -> Seq<(Seq<u8>, Seq<u8>)> {
    let ix = find_norm_from(m, ci, kt, 0);
    (if ix < m.len() {
        m.remove(ix)
    } else {
        m
    }).push((kt, vt))
}

/// The dictionary after cleaning the input pairs in order: keys and values
/// trimmed, blank entries dropped, oversize entries dropped (they refuse the
/// whole payload separately), a later duplicate key replacing the earlier
/// entry and moving to the end.
pub open spec fn spec_clean(ps: Seq<(Seq<u8>, Seq<u8>)>, ci: bool) -> Seq<(Seq<u8>, Seq<u8>)>
    decreases ps.len(),
{
    if ps.len() == 0 {
        Seq::empty()
    } else {
        let prev = spec_clean(ps.drop_last(), ci);
        let kt = spec_trim(ps.last().0);
        let vt = spec_trim(ps.last().1);
        if kt.len() == 0 || vt.len() == 0 || char_count(kt) > MAX_ENTRY_CHARS || char_count(vt)
            > MAX_ENTRY_CHARS {
            prev
        } else {
            spec_insert_entry(prev, ci, kt, vt)
        }
    }
}

/// Searching from the front finds exactly the position known to match, when
/// nothing before it matches.
proof fn lemma_find_norm(m: Seq<(Seq<u8>, Seq<u8>)>, ci: bool, kt: Seq<u8>, ix: int, i: int)
    requires
        0 <= i <= ix <= m.len(),
        forall|t: int| i <= t < ix ==> spec_key_norm(ci, #[trigger] m[t].0) != spec_key_norm(ci, kt),
        ix < m.len() ==> spec_key_norm(ci, m[ix].0) == spec_key_norm(ci, kt),
    ensures
        find_norm_from(m, ci, kt, i) == ix,
    decreases ix - i,
{
    if i < ix {
        lemma_find_norm(m, ci, kt, ix, i + 1);
    }
}

/// Clean a saved replacement dictionary.
///
/// Entries are trimmed; an entry whose key or value trims to nothing is
/// dropped; one that exceeds the character limit refuses the whole payload.
/// A later entry whose key collides (under the configured case policy)
/// replaces the earlier one and moves to the end. The result never holds two
/// keys that compare equal, and never more than the entry cap.
pub fn validate_and_clean_payload(pairs: &Vec<(Vec<u8>, Vec<u8>)>, case_insensitive: Option<bool>) -> (r: Result<
    PostprocessConfig,
    PayloadError,
>)
    ensures
        match r {
            Ok(cfg) => {
                &&& cfg.case_insensitive == (match case_insensitive {
                    Some(b) => b,
                    None => true,
                })
                &&& cfg.replace_map@.len() <= MAX_ENTRIES
                &&& (forall|i: int|
                    0 <= i < cfg.replace_map@.len() ==> {
                        let e = #[trigger] cfg.replace_map@[i];
                        &&& e.0@.len() > 0
                        &&& e.1@.len() > 0
                        &&& char_count(e.0@) <= MAX_ENTRY_CHARS
                        &&& char_count(e.1@) <= MAX_ENTRY_CHARS
                    })
                &&& (forall|i: int, j: int|
                    0 <= i < j < cfg.replace_map@.len() ==> spec_key_norm(
                        cfg.case_insensitive,
                        #[trigger] cfg.replace_map@[i].0@,
                    ) != spec_key_norm(cfg.case_insensitive, #[trigger] cfg.replace_map@[j].0@))
                &&& (forall|i: int|
                    0 <= i < pairs@.len() ==> !pair_oversize(
                        #[trigger] pairs@[i].0@,
                        pairs@[i].1@,
                    ))
                &&& pair_views(cfg.replace_map@) == spec_clean(
                    pair_views(pairs@),
                    cfg.case_insensitive,
                )
            },
            Err(e) => e == PayloadError::EntryTooLong || e == PayloadError::TooManyEntries,
        },
        (r == Err::<PostprocessConfig, PayloadError>(PayloadError::EntryTooLong)) <==> (exists|
            i: int,
        | 0 <= i < pairs@.len() && pair_oversize(#[trigger] pairs@[i].0@, pairs@[i].1@)),
        (r == Err::<PostprocessConfig, PayloadError>(PayloadError::TooManyEntries)) <==> ((forall|
            i: int,
        |
            0 <= i < pairs@.len() ==> !pair_oversize(#[trigger] pairs@[i].0@, pairs@[i].1@))
            && spec_clean(
            pair_views(pairs@),
            match case_insensitive {
                Some(b) => b,
                None => true,
            },
        ).len() > MAX_ENTRIES),
{
    let ci = match case_insensitive {
        Some(b) => b,
        None => true,
    };
    let mut cleaned: Vec<(Vec<u8>, Vec<u8>)> = Vec::new();
    let mut norms: Vec<Vec<u8>> = Vec::new();
    let mut oversize = false;
    let mut n: usize = 0;
    while n < pairs.len()
        invariant
            n <= pairs@.len(),
            norms@.len() == cleaned@.len(),
            forall|i: int|
                0 <= i < cleaned@.len() ==> {
                    let e = #[trigger] cleaned@[i];
                    &&& e.0@.len() > 0
                    &&& e.1@.len() > 0
                    &&& char_count(e.0@) <= MAX_ENTRY_CHARS
                    &&& char_count(e.1@) <= MAX_ENTRY_CHARS
                },
            forall|i: int|
                0 <= i < cleaned@.len() ==> #[trigger] norms@[i]@ == spec_key_norm(
                    ci,
                    cleaned@[i].0@,
                ),
            forall|i: int, j: int|
                0 <= i < j < norms@.len() ==> #[trigger] norms@[i]@ != #[trigger] norms@[j]@,
            oversize == (exists|i: int|
                0 <= i < n && pair_oversize(#[trigger] pairs@[i].0@, pairs@[i].1@)),
            pair_views(cleaned@) == spec_clean(pair_views(pairs@).subrange(0, n as int), ci),
        decreases pairs@.len() - n,
    {
        proof {
            let pv = pair_views(pairs@);
            assert(pv.subrange(0, n + 1).drop_last() =~= pv.subrange(0, n as int));
            assert(pv.subrange(0, n + 1).last() == pv[n as int]);
            assert(pv[n as int] == (pairs@[n as int].0@, pairs@[n as int].1@));
        }
        let key_t = trim_bytes(pairs[n].0.as_slice());
        let val_t = trim_bytes(pairs[n].1.as_slice());
        if key_t.len() == 0 || val_t.len() == 0 {
            proof {
                assert(!pair_oversize(pairs@[n as int].0@, pairs@[n as int].1@));
                assert(spec_clean(pair_views(pairs@).subrange(0, n + 1), ci) == spec_clean(
                    pair_views(pairs@).subrange(0, n as int),
                    ci,
                ));
            }
            n += 1;
            continue ;
        }
        if count_chars(key_t.as_slice()) > MAX_ENTRY_CHARS || count_chars(val_t.as_slice())
            > MAX_ENTRY_CHARS {
            proof {
                assert(pair_oversize(pairs@[n as int].0@, pairs@[n as int].1@));
                assert(spec_clean(pair_views(pairs@).subrange(0, n + 1), ci) == spec_clean(
                    pair_views(pairs@).subrange(0, n as int),
                    ci,
                ));
            }
            oversize = true;
            n += 1;
            continue ;
        }
        proof {
            assert(!pair_oversize(pairs@[n as int].0@, pairs@[n as int].1@));
        }
        let norm = if ci {
            lowercase_bytes(key_t.as_slice())
        } else {
            let mut c: Vec<u8> = Vec::new();
            let mut k: usize = 0;
            while k < key_t.len()
                invariant
                    k <= key_t@.len(),
                    c@ == key_t@.subrange(0, k as int),
                decreases key_t@.len() - k,
            {
                c.push(key_t[k]);
                proof {
                    assert(c@ =~= key_t@.subrange(0, k + 1));
                }
                k += 1;
            }
            proof {
                assert(c@ =~= key_t@);
            }
            c
        };
        // Drop the one earlier entry whose key compares equal, if any.
        let mut idx: usize = 0;
        let mut found = false;
        while idx < norms.len() && !found
            invariant
                idx <= norms@.len(),
                !found ==> forall|t: int| 0 <= t < idx ==> #[trigger] norms@[t]@ != norm@,
                found ==> idx < norms@.len() && norms@[idx as int]@ == norm@,
            decreases norms@.len() - idx, (if found {
                0int
            } else {
                1int
            }),
        {
            if bytes_eq(norms[idx].as_slice(), norm.as_slice()) {
                found = true;
            } else {
                idx += 1;
            }
        }
        let ghost pre_norms = norms@;
        let ghost pre_cleaned = cleaned@;
        proof {
            let pre_views = pair_views(pre_cleaned);
            if found {
                assert forall|t: int|
                    0 <= t < idx implies spec_key_norm(ci, #[trigger] pre_views[t].0)
                    != spec_key_norm(ci, key_t@) by {
                    assert(pre_norms[t]@ == spec_key_norm(ci, pre_cleaned[t].0@));
                    assert(pre_views[t].0 == pre_cleaned[t].0@);
                }
                assert(pre_views[idx as int].0 == pre_cleaned[idx as int].0@);
                assert(spec_key_norm(ci, pre_views[idx as int].0) == spec_key_norm(ci, key_t@));
                lemma_find_norm(pre_views, ci, key_t@, idx as int, 0);
            } else {
                assert(idx == norms@.len());
                assert forall|t: int|
                    0 <= t < pre_views.len() implies spec_key_norm(ci, #[trigger] pre_views[t].0)
                    != spec_key_norm(ci, key_t@) by {
                    assert(pre_norms[t]@ == spec_key_norm(ci, pre_cleaned[t].0@));
                    assert(pre_views[t].0 == pre_cleaned[t].0@);
                }
                lemma_find_norm(pre_views, ci, key_t@, pre_views.len() as int, 0);
            }
        }
        if found {
            let _old_entry = cleaned.remove(idx);
            let _old_norm = norms.remove(idx);
            proof {
                assert forall|t: int| 0 <= t < norms@.len() implies #[trigger] norms@[t]@
                    != norm@ by {
                    if t < idx {
                        assert(norms@[t] == pre_norms[t]);
                    } else {
                        assert(norms@[t] == pre_norms[t + 1]);
                        assert(pre_norms[idx as int]@ == norm@);
                    }
                }
                assert forall|i: int, j: int|
                    0 <= i < j < norms@.len() implies #[trigger] norms@[i]@
                    != #[trigger] norms@[j]@ by {
                    let pi = if i < idx { i } else { i + 1 };
                    let pj = if j < idx { j } else { j + 1 };
                    assert(norms@[i] == pre_norms[pi]);
                    assert(norms@[j] == pre_norms[pj]);
                }
                assert forall|i: int|
                    0 <= i < cleaned@.len() implies #[trigger] norms@[i]@ == spec_key_norm(
                    ci,
                    cleaned@[i].0@,
                ) by {
                    if i < idx {
                        assert(norms@[i] == pre_norms[i]);
                        assert(cleaned@[i] == pre_cleaned[i]);
                    } else {
                        assert(norms@[i] == pre_norms[i + 1]);
                        assert(cleaned@[i] == pre_cleaned[i + 1]);
                    }
                }
                assert forall|i: int|
                    0 <= i < cleaned@.len() implies {
                    let e = #[trigger] cleaned@[i];
                    &&& e.0@.len() > 0
                    &&& e.1@.len() > 0
                    &&& char_count(e.0@) <= MAX_ENTRY_CHARS
                    &&& char_count(e.1@) <= MAX_ENTRY_CHARS
                } by {
                    if i < idx {
                        assert(cleaned@[i] == pre_cleaned[i]);
                    } else {
                        assert(cleaned@[i] == pre_cleaned[i + 1]);
                    }
                }
            }
        }
        proof {
            if !found {
                assert(idx == norms@.len());
            }
            assert(forall|t: int| 0 <= t < norms@.len() ==> #[trigger] norms@[t]@ != norm@);
        }
        let ghost mid_norms = norms@;
        let ghost mid_cleaned = cleaned@;
        let ghost norm_snap = norm@;
        let ghost key_snap = key_t@;
        let ghost val_snap = val_t@;
        cleaned.push((key_t, val_t));
        norms.push(norm);
        proof {
            assert forall|i: int|
                0 <= i < cleaned@.len() implies #[trigger] pair_views(cleaned@)[i] == pair_views(
                mid_cleaned,
            ).push((key_snap, val_snap))[i] by {
                if i < cleaned@.len() - 1 {
                    assert(cleaned@[i] == mid_cleaned[i]);
                } else {
                    assert(cleaned@[i].0@ == key_snap);
                    assert(cleaned@[i].1@ == val_snap);
                }
            }
            assert(pair_views(cleaned@) =~= pair_views(mid_cleaned).push((key_snap, val_snap)));
            assert(pair_views(cleaned@) == spec_clean(
                pair_views(pairs@).subrange(0, n + 1),
                ci,
            ));
        }
        proof {
            let last = norms@.len() - 1;
            assert(norms@[last]@ == norm_snap);
            assert(cleaned@[last].0@ == key_snap);
            assert(cleaned@[last].1@ == val_snap);
            assert forall|i: int, j: int|
                0 <= i < j < norms@.len() implies #[trigger] norms@[i]@
                != #[trigger] norms@[j]@ by {
                if j == last {
                    assert(norms@[i] == mid_norms[i]);
                } else {
                    assert(norms@[i] == mid_norms[i]);
                    assert(norms@[j] == mid_norms[j]);
                }
            }
            assert forall|i: int|
                0 <= i < cleaned@.len() implies #[trigger] norms@[i]@ == spec_key_norm(
                ci,
                cleaned@[i].0@,
            ) by {
                if i < last {
                    assert(norms@[i] == mid_norms[i]);
                    assert(cleaned@[i] == mid_cleaned[i]);
                }
            }
            assert forall|i: int|
                0 <= i < cleaned@.len() implies {
                let e = #[trigger] cleaned@[i];
                &&& e.0@.len() > 0
                &&& e.1@.len() > 0
                &&& char_count(e.0@) <= MAX_ENTRY_CHARS
                &&& char_count(e.1@) <= MAX_ENTRY_CHARS
            } by {
                if i < last {
                    assert(cleaned@[i] == mid_cleaned[i]);
                }
            }
        }
        n += 1;
    }
    proof {
        assert(pair_views(pairs@).subrange(0, pairs@.len() as int) =~= pair_views(pairs@));
        assert(cleaned@.len() == pair_views(cleaned@).len());
    }
    if oversize {
        return Err(PayloadError::EntryTooLong);
    }
    if cleaned.len() > MAX_ENTRIES {
        return Err(PayloadError::TooManyEntries);
    }
    proof {
        assert forall|i: int, j: int|
            0 <= i < j < cleaned@.len() implies spec_key_norm(ci, #[trigger] cleaned@[i].0@)
            != spec_key_norm(ci, #[trigger] cleaned@[j].0@) by {
            assert(norms@[i]@ == spec_key_norm(ci, cleaned@[i].0@));
            assert(norms@[j]@ == spec_key_norm(ci, cleaned@[j].0@));
            assert(norms@[i]@ != norms@[j]@);
        }
    }
    Ok(PostprocessConfig { case_insensitive: ci, replace_map: cleaned })
}

/// `{"case_insensitive":`
pub open spec fn kc_case_insensitive() -> Seq<u8> {
    seq![0x7bu8, 0x22u8, 0x63u8, 0x61u8, 0x73u8, 0x65u8, 0x5fu8, 0x69u8, 0x6eu8, 0x73u8, 0x65u8,
        0x6eu8, 0x73u8, 0x69u8, 0x74u8, 0x69u8, 0x76u8, 0x65u8, 0x22u8, 0x3au8]
}

/// `,"replace_map":{`
pub open spec fn kc_replace_map() -> Seq<u8> {
    seq![0x2cu8, 0x22u8, 0x72u8, 0x65u8, 0x70u8, 0x6cu8, 0x61u8, 0x63u8, 0x65u8, 0x5fu8, 0x6du8,
        0x61u8, 0x70u8, 0x22u8, 0x3au8, 0x7bu8]
}

/// `true` or `false`.
pub open spec fn bool_bytes(b: bool) -> Seq<u8> {
    if b {
        seq![0x74u8, 0x72u8, 0x75u8, 0x65u8]
    } else {
        seq![0x66u8, 0x61u8, 0x6cu8, 0x73u8, 0x65u8]
    }
}

/// Whether no byte of the entry needs an escape inside a JSON string.
pub open spec fn entry_clean(e: (Vec<u8>, Vec<u8>)) -> bool {
    &&& (forall|k: int| 0 <= k < e.0@.len() ==> !needs_escape(#[trigger] e.0@[k]))
    &&& (forall|k: int| 0 <= k < e.1@.len() ==> !needs_escape(#[trigger] e.1@[k]))
}

/// The canonical bytes of the dictionary's entries, comma-separated, for a
/// dictionary whose entries need no escapes.
#[verifier::opaque]
pub open spec fn entries_bytes(m: Seq<(Vec<u8>, Vec<u8>)>) -> Seq<u8>
    decreases m.len(),
{
    if m.len() == 0 {
        Seq::empty()
    } else {
        let e = m.last();
        let one = seq![0x22u8] + e.0@ + seq![0x22u8, 0x3au8, 0x22u8] + e.1@ + seq![0x22u8];
        if m.len() == 1 {
            one
        } else {
            entries_bytes(m.drop_last()) + seq![0x2cu8] + one
        }
    }
}

/// The canonical bytes of the whole stored dictionary document, for clean
/// entries.
pub open spec fn spec_postprocess_bytes(ci: bool, m: Seq<(Vec<u8>, Vec<u8>)>) -> Seq<u8> {
    kc_case_insensitive() + bool_bytes(ci) + kc_replace_map() + entries_bytes(m) + seq![
        0x7du8,
        0x7du8,
    ]
}

/// Render the dictionary as its stored document. Entries that need no
/// escapes are written exactly in the canonical form; others are escaped as
/// a JSON string demands.
pub fn encode_postprocess_config(cfg: &PostprocessConfig) -> (r: Vec<u8>)
    ensures
        (forall|i: int| 0 <= i < cfg.replace_map@.len() ==> entry_clean(#[trigger] cfg.replace_map@[i]))
            ==> r@ == spec_postprocess_bytes(cfg.case_insensitive, cfg.replace_map@),
{
    let head: [u8; 20] = [0x7b, 0x22, 0x63, 0x61, 0x73, 0x65, 0x5f, 0x69, 0x6e, 0x73, 0x65, 0x6e,
        0x73, 0x69, 0x74, 0x69, 0x76, 0x65, 0x22, 0x3a];
    let mid: [u8; 16] = [0x2c, 0x22, 0x72, 0x65, 0x70, 0x6c, 0x61, 0x63, 0x65, 0x5f, 0x6d, 0x61,
        0x70, 0x22, 0x3a, 0x7b];
    let t_true: [u8; 4] = [0x74, 0x72, 0x75, 0x65];
    let t_false: [u8; 5] = [0x66, 0x61, 0x6c, 0x73, 0x65];
    proof {
        assert(head@ =~= kc_case_insensitive());
        assert(mid@ =~= kc_replace_map());
        assert(t_true@ =~= bool_bytes(true));
        assert(t_false@ =~= bool_bytes(false));
    }
    let ghost all_clean = forall|i: int|
        0 <= i < cfg.replace_map@.len() ==> entry_clean(#[trigger] cfg.replace_map@[i]);
    let mut out: Vec<u8> = Vec::new();
    push_seg(&mut out, head.as_slice());
    if cfg.case_insensitive {
        push_seg(&mut out, t_true.as_slice());
    } else {
        push_seg(&mut out, t_false.as_slice());
    }
    push_seg(&mut out, mid.as_slice());
    proof {
        reveal(entries_bytes);
    }
    let mut n: usize = 0;
    while n < cfg.replace_map.len()
        invariant
            n <= cfg.replace_map@.len(),
            all_clean == (forall|i: int|
                0 <= i < cfg.replace_map@.len() ==> entry_clean(#[trigger] cfg.replace_map@[i])),
            all_clean ==> out@ == kc_case_insensitive() + bool_bytes(cfg.case_insensitive)
                + kc_replace_map() + entries_bytes(cfg.replace_map@.subrange(0, n as int)),
        decreases cfg.replace_map@.len() - n,
    {
        if n > 0 {
            out.push(0x2c);
        }
        let mut kb = encode_json_string_bytes(cfg.replace_map[n].0.as_slice());
        let ghost kb_v = kb@;
        out.append(&mut kb);
        out.push(0x3a);
        let mut vb = encode_json_string_bytes(cfg.replace_map[n].1.as_slice());
        let ghost vb_v = vb@;
        out.append(&mut vb);
        proof {
            if all_clean {
                reveal(entries_bytes);
                let pre = cfg.replace_map@.subrange(0, n as int);
                let cur = cfg.replace_map@.subrange(0, n + 1);
                assert(cur.drop_last() =~= pre);
                assert(cur.last() == cfg.replace_map@[n as int]);
                assert(entry_clean(cfg.replace_map@[n as int]));
                assert forall|k2: int|
                    0 <= k2 < cfg.replace_map@[n as int].0@.len() implies !needs_escape(
                    #[trigger] cfg.replace_map@[n as int].0@[k2],
                ) by {}
                assert forall|k2: int|
                    0 <= k2 < cfg.replace_map@[n as int].1@.len() implies !needs_escape(
                    #[trigger] cfg.replace_map@[n as int].1@[k2],
                ) by {}
                assert(kb_v == seq![0x22u8] + cfg.replace_map@[n as int].0@ + seq![0x22u8]);
                assert(vb_v == seq![0x22u8] + cfg.replace_map@[n as int].1@ + seq![0x22u8]);
                assert(out@ =~= kc_case_insensitive() + bool_bytes(cfg.case_insensitive)
                    + kc_replace_map() + entries_bytes(cur));
            }
        }
        n += 1;
    }
    out.push(0x7d);
    out.push(0x7d);
    proof {
        reveal(entries_bytes);
        if all_clean {
            assert(cfg.replace_map@.subrange(0, cfg.replace_map@.len() as int) =~= cfg.replace_map@);
            assert(out@ =~= spec_postprocess_bytes(cfg.case_insensitive, cfg.replace_map@));
        }
    }
    out
}

/// The first position in `m` (from `i` on) whose key equals `k` byte for
/// byte, or `m.len()` where none does.
pub open spec fn find_key_from(m: Seq<(Seq<u8>, Seq<u8>)>, k: Seq<u8>, i: int) -> int
    decreases m.len() - i,
{
    if !(0 <= i < m.len()) {
        m.len() as int
    } else if m[i].0 == k {
        i
    } else {
        find_key_from(m, k, i + 1)
    }
}

/// One read entry joining the dictionary: a later duplicate key replaces the
/// earlier entry and moves to the end.
pub open spec fn rm_insert(m: Seq<(Seq<u8>, Seq<u8>)>, k: Seq<u8>, v: Seq<u8>) -> Seq<(
    Seq<u8>,
    Seq<u8>,
)> {
    let ix = find_key_from(m, k, 0);
    (if ix < m.len() {
        m.remove(ix)
    } else {
        m
    }).push((k, v))
}

/// What reading the `replace_map` object's entries from the start of an
/// entry at `p` yields: a string value decoded, any other value kept as its
/// raw text trimmed.
pub open spec fn sp_rm_members(s: Seq<u8>, p: int, acc: Seq<(Seq<u8>, Seq<u8>)>) -> Option<(
    Seq<(Seq<u8>, Seq<u8>)>,
    int,
)>
    decreases s.len() - p,
{
    match sp_string(s, p) {
        None => None,
        Some((key, kj)) => {
            let q = ws_end(s, kj);
            if !(q < s.len() && s[q] == 0x3a) {
                None
            } else {
                let v = ws_end(s, q + 1);
                if !(p < v <= s.len()) {
                    None
                } else {
                    let step = if v < s.len() && s[v] == 0x22 {
                        sp_string(s, v)
                    } else {
                        match sp_skip(s, v) {
                            Some(j) => if v <= j <= s.len() {
                                Some((spec_trim(s.subrange(v, j)), j))
                            } else {
                                None
                            },
                            None => None,
                        }
                    };
                    match step {
                        None => None,
                        Some((val, vj)) => {
                            let acc2 = rm_insert(acc, key, val);
                            let w = ws_end(s, vj);
                            if !(p < w <= s.len()) {
                                None
                            } else if w < s.len() && s[w] == 0x7d {
                                Some((acc2, w + 1))
                            } else if w < s.len() && s[w] == 0x2c {
                                let nx = ws_end(s, w + 1);
                                if p < nx <= s.len() {
                                    sp_rm_members(s, nx, acc2)
                                } else {
                                    None
                                }
                            } else {
                                None
                            }
                        },
                    }
                }
            }
        },
    }
}

/// What reading a `replace_map` object at `i` yields: its entries and the
/// position just past its closing brace.
pub open spec fn sp_replace_map(s: Seq<u8>, i: int) -> Option<(Seq<(Seq<u8>, Seq<u8>)>, int)> {
    if !(0 <= i < s.len() && s[i] == 0x7b) {
        None
    } else {
        let p = ws_end(s, i + 1);
        if p < s.len() && s[p] == 0x7d {
            Some((Seq::empty(), p + 1))
        } else if i < p <= s.len() {
            sp_rm_members(s, p, Seq::empty())
        } else {
            None
        }
    }
}

/// The bytes of the `case_insensitive` key.
pub open spec fn key_case_insensitive() -> Seq<u8> {
    seq![0x63u8, 0x61u8, 0x73u8, 0x65u8, 0x5fu8, 0x69u8, 0x6eu8, 0x73u8, 0x65u8, 0x6eu8, 0x73u8,
        0x69u8, 0x74u8, 0x69u8, 0x76u8, 0x65u8]
}

/// The bytes of the `replace_map` key.
pub open spec fn key_replace_map() -> Seq<u8> {
    seq![0x72u8, 0x65u8, 0x70u8, 0x6cu8, 0x61u8, 0x63u8, 0x65u8, 0x5fu8, 0x6du8, 0x61u8, 0x70u8]
}

/// What one member does to the two slots being read: a boolean
/// `case_insensitive` is taken and anything else under that key reads as the
/// default `true`; a `replace_map` object is read entry by entry and
/// anything else under that key reads as empty; any other member is skipped
/// whole. The member's end position comes with the new slots.
pub open spec fn sp_pp_member(s: Seq<u8>, v: int, key: Seq<u8>, ci: bool, rm: Seq<(Seq<u8>, Seq<u8>)>) -> Option<
    ((bool, Seq<(Seq<u8>, Seq<u8>)>), int),
> {
    if key == key_case_insensitive() {
        if v + 4 <= s.len() && s[v] == 0x74 && s[v + 1] == 0x72 && s[v + 2] == 0x75 && s[v + 3]
            == 0x65 {
            Some(((true, rm), v + 4))
        } else if v + 5 <= s.len() && s[v] == 0x66 && s[v + 1] == 0x61 && s[v + 2] == 0x6c && s[v
            + 3] == 0x73 && s[v + 4] == 0x65 {
            Some(((false, rm), v + 5))
        } else {
            match sp_skip(s, v) {
                Some(j) => Some(((true, rm), j)),
                None => None,
            }
        }
    } else if key == key_replace_map() {
        if 0 <= v < s.len() && s[v] == 0x7b {
            match sp_replace_map(s, v) {
                Some((m, j)) => Some(((ci, m), j)),
                None => None,
            }
        } else {
            match sp_skip(s, v) {
                Some(j) => Some(((ci, Seq::empty()), j)),
                None => None,
            }
        }
    } else {
        match sp_skip(s, v) {
            Some(j) => Some(((ci, rm), j)),
            None => None,
        }
    }
}

/// What reading the document's members from the start of a member at `p`
/// yields.
pub open spec fn sp_pp_members(s: Seq<u8>, p: int, ci: bool, rm: Seq<(Seq<u8>, Seq<u8>)>) -> Option<
    (bool, Seq<(Seq<u8>, Seq<u8>)>),
>
    decreases s.len() - p,
{
    match sp_string(s, p) {
        None => None,
        Some((key, kj)) => {
            let q = ws_end(s, kj);
            if !(q < s.len() && s[q] == 0x3a) {
                None
            } else {
                let v = ws_end(s, q + 1);
                if !(p < v <= s.len()) {
                    None
                } else {
                    match sp_pp_member(s, v, key, ci, rm) {
                        None => None,
                        Some(((ci2, rm2), vj)) => {
                            let w = ws_end(s, vj);
                            if !(p < w <= s.len()) {
                                None
                            } else if w < s.len() && s[w] == 0x7d {
                                if ws_end(s, w + 1) == s.len() {
                                    Some((ci2, rm2))
                                } else {
                                    None
                                }
                            } else if w < s.len() && s[w] == 0x2c {
                                let nx = ws_end(s, w + 1);
                                if p < nx <= s.len() {
                                    sp_pp_members(s, nx, ci2, rm2)
                                } else {
                                    None
                                }
                            } else {
                                None
                            }
                        },
                    }
                }
            }
        },
    }
}

/// What a stored dictionary document reads as: the match policy (`true`
/// where missing or not a boolean) and the entries (empty where missing or
/// not an object), or nothing where the bytes are not one JSON object.
pub open spec fn sp_postprocess(s: Seq<u8>) -> Option<(bool, Seq<(Seq<u8>, Seq<u8>)>)> {
    let start = ws_end(s, 0);
    if !(0 <= start < s.len() && s[start] == 0x7b) {
        None
    } else {
        let p = ws_end(s, start + 1);
        if p < s.len() && s[p] == 0x7d {
            if ws_end(s, p + 1) == s.len() {
                Some((true, Seq::empty()))
            } else {
                None
            }
        } else if start < p <= s.len() {
            sp_pp_members(s, p, true, Seq::empty())
        } else {
            None
        }
    }
}

/// Searching from the front finds exactly the position known to match, when
/// nothing before it matches.
proof fn lemma_find_key(m: Seq<(Seq<u8>, Seq<u8>)>, k: Seq<u8>, ix: int, i: int)
    requires
        0 <= i <= ix <= m.len(),
        forall|t: int| i <= t < ix ==> #[trigger] m[t].0 != k,
        ix < m.len() ==> m[ix].0 == k,
    ensures
        find_key_from(m, k, i) == ix,
    decreases ix - i,
{
    if i < ix {
        lemma_find_key(m, k, ix, i + 1);
    }
}

/// Read a stored dictionary document, leniently: a missing or non-boolean
/// `case_insensitive` reads as `true`; a missing or non-object `replace_map`
/// reads as empty; a non-string replacement keeps the raw text of its value;
/// a later duplicate key wins and moves to the end. Bytes that are not one
/// JSON object yield nothing. The keys of what is read never collide.
#[verifier::loop_isolation(false)]
#[verifier::rlimit(100)]
pub fn parse_postprocess_config(s: &[u8]) -> (r: Option<PostprocessConfig>)
    ensures
        match r {
            Some(cfg) => {
                &&& sp_postprocess(s@) == Some(
                    (cfg.case_insensitive, pair_views(cfg.replace_map@)),
                )
                &&& (forall|i: int, j: int|
                    0 <= i < j < cfg.replace_map@.len() ==> #[trigger] cfg.replace_map@[i].0@
                        != #[trigger] cfg.replace_map@[j].0@)
            },
            None => sp_postprocess(s@) is None,
        },
{
    let k_ci: [u8; 16] = [0x63, 0x61, 0x73, 0x65, 0x5f, 0x69, 0x6e, 0x73, 0x65, 0x6e, 0x73, 0x69,
        0x74, 0x69, 0x76, 0x65];
    let k_rm: [u8; 11] = [0x72, 0x65, 0x70, 0x6c, 0x61, 0x63, 0x65, 0x5f, 0x6d, 0x61, 0x70];
    proof {
        assert(k_ci@ =~= key_case_insensitive());
        assert(k_rm@ =~= key_replace_map());
    }
    let mut ci = true;
    let mut entries: Vec<(Vec<u8>, Vec<u8>)> = Vec::new();
    proof {
        assert(pair_views(entries@) =~= Seq::<(Seq<u8>, Seq<u8>)>::empty());
    }
    let start = skip_ws(s, 0);
    if start == s.len() || s[start] != 0x7b {
        return None;
    }
    let mut p = skip_ws(s, start + 1);
    if p < s.len() && s[p] == 0x7d {
        let e = skip_ws(s, p + 1);
        if e != s.len() {
            return None;
        }
        return Some(PostprocessConfig { case_insensitive: ci, replace_map: entries });
    }
    loop
        invariant
            start < p <= s@.len(),
            forall|i: int, j: int|
                0 <= i < j < entries@.len() ==> #[trigger] entries@[i].0@ != #[trigger] entries@[
                    j
                ].0@,
            sp_postprocess(s@) == sp_pp_members(s@, p as int, ci, pair_views(entries@)),
        decreases s@.len() - p,
    {
        let ghost m0 = p as int;
        let ghost ci0 = ci;
        let ghost acc0 = pair_views(entries@);
        let (key, kj) = match parse_json_string(s, p) {
            Some(v) => v,
            None => {
                return None;
            },
        };
        p = skip_ws(s, kj);
        if p == s.len() || s[p] != 0x3a {
            return None;
        }
        p = skip_ws(s, p + 1);
        if bytes_eq(key.as_slice(), k_ci.as_slice()) {
            // A boolean is taken; anything else reads as the default.
            if p < s.len() && s[p] == 0x74 && s.len() - p >= 4 && s[p + 1] == 0x72 && s[p + 2]
                == 0x75 && s[p + 3] == 0x65 {
                ci = true;
                p = p + 4;
            } else if p < s.len() && s[p] == 0x66 && s.len() - p >= 5 && s[p + 1] == 0x61 && s[p
                + 2] == 0x6c && s[p + 3] == 0x73 && s[p + 4] == 0x65 {
                ci = false;
                p = p + 5;
            } else {
                ci = true;
                p = match skip_json_value(s, p) {
                    Some(j) => j,
                    None => {
                        return None;
                    },
                };
            }
        } else if bytes_eq(key.as_slice(), k_rm.as_slice()) {
            if p < s.len() && s[p] == 0x7b {
                p = match scan_replace_map(s, p, &mut entries) {
                    Some(j) => j,
                    None => {
                        return None;
                    },
                };
            } else {
                // Not an object: the dictionary reads as empty.
                entries = Vec::new();
                p = match skip_json_value(s, p) {
                    Some(j) => j,
                    None => {
                        return None;
                    },
                };
            }
        } else {
            p = match skip_json_value(s, p) {
                Some(j) => j,
                None => {
                    return None;
                },
            };
        }
        p = skip_ws(s, p);
        if p == s.len() {
            return None;
        }
        if s[p] == 0x7d {
            let e = skip_ws(s, p + 1);
            if e != s.len() {
                return None;
            }
            return Some(PostprocessConfig { case_insensitive: ci, replace_map: entries });
        }
        if s[p] != 0x2c {
            return None;
        }
        p = skip_ws(s, p + 1);
    }
}

/// Put one read entry into the dictionary: the one earlier entry whose key
/// equals it byte for byte (if any) leaves, and the new entry stands at the
/// end. Keys that never collided still never collide.
#[verifier::loop_isolation(false)]
#[verifier::rlimit(100)]
fn rm_insert_entry(entries: &mut Vec<(Vec<u8>, Vec<u8>)>, ek: Vec<u8>, ev: Vec<u8>)
    requires
        forall|a: int, b: int|
            0 <= a < b < old(entries)@.len() ==> #[trigger] old(entries)@[a].0@
                != #[trigger] old(entries)@[b].0@,
    ensures
        pair_views(final(entries)@) == rm_insert(pair_views(old(entries)@), ek@, ev@),
        forall|a: int, b: int|
            0 <= a < b < final(entries)@.len() ==> #[trigger] final(entries)@[a].0@
                != #[trigger] final(entries)@[b].0@,
{
    let ghost ek_snap = ek@;
    let ghost ev_snap = ev@;
    // A later duplicate key replaces the earlier entry.
    let mut idx: usize = 0;
    let mut found = false;
    while idx < entries.len() && !found
        invariant
            idx <= entries@.len(),
            entries@ == old(entries)@,
            !found ==> forall|t: int| 0 <= t < idx ==> #[trigger] entries@[t].0@ != ek_snap,
            found ==> idx < entries@.len() && entries@[idx as int].0@ == ek_snap,
        decreases entries@.len() - idx, (if found {
            0int
        } else {
            1int
        }),
    {
        if crate::events::bytes_eq(entries[idx].0.as_slice(), ek.as_slice()) {
            found = true;
        } else {
            idx += 1;
        }
    }
    let ghost pre = entries@;
    proof {
        let pre_views = pair_views(pre);
        if found {
            assert forall|t: int| 0 <= t < idx implies #[trigger] pre_views[t].0 != ek_snap by {
                assert(pre_views[t].0 == pre[t].0@);
            }
            assert(pre_views[idx as int].0 == pre[idx as int].0@);
            lemma_find_key(pre_views, ek_snap, idx as int, 0);
        } else {
            assert(idx == entries@.len());
            assert forall|t: int|
                0 <= t < pre_views.len() implies #[trigger] pre_views[t].0 != ek_snap by {
                assert(pre_views[t].0 == pre[t].0@);
            }
            lemma_find_key(pre_views, ek_snap, pre_views.len() as int, 0);
        }
    }
    if found {
        let _old = entries.remove(idx);
        proof {
            assert forall|t: int| 0 <= t < entries@.len() implies #[trigger] entries@[t].0@
                != ek_snap by {
                if t < idx {
                    assert(entries@[t] == pre[t]);
                } else {
                    assert(entries@[t] == pre[t + 1]);
                    assert(pre[idx as int].0@ == ek_snap);
                }
            }
            assert forall|a: int, b: int|
                0 <= a < b < entries@.len() implies #[trigger] entries@[a].0@
                != #[trigger] entries@[b].0@ by {
                let pa = if a < idx { a } else { a + 1 };
                let pb = if b < idx { b } else { b + 1 };
                assert(entries@[a] == pre[pa]);
                assert(entries@[b] == pre[pb]);
            }
            assert forall|t: int|
                0 <= t < entries@.len() implies #[trigger] pair_views(entries@)[t] == pair_views(
                pre,
            ).remove(idx as int)[t] by {
                if t < idx {
                    assert(entries@[t] == pre[t]);
                } else {
                    assert(entries@[t] == pre[t + 1]);
                }
            }
            assert(pair_views(entries@) =~= pair_views(pre).remove(idx as int));
        }
    }
    proof {
        if !found {
            assert(idx == entries@.len());
        }
        assert(forall|t: int| 0 <= t < entries@.len() ==> #[trigger] entries@[t].0@ != ek_snap);
    }
    let ghost mid = entries@;
    entries.push((ek, ev));
    proof {
        let last = entries@.len() - 1;
        assert(entries@[last].0@ == ek_snap);
        assert forall|a: int, b: int|
            0 <= a < b < entries@.len() implies #[trigger] entries@[a].0@ != #[trigger] entries@[
            b
        ].0@ by {
            if b == last {
                assert(entries@[a] == mid[a]);
            } else {
                assert(entries@[a] == mid[a]);
                assert(entries@[b] == mid[b]);
            }
        }
        assert forall|t: int|
            0 <= t < entries@.len() implies #[trigger] pair_views(entries@)[t] == pair_views(
            mid,
        ).push((ek_snap, ev_snap))[t] by {
            if t < entries@.len() - 1 {
                assert(entries@[t] == mid[t]);
            } else {
                assert(entries@[t].0@ == ek_snap);
                assert(entries@[t].1@ == ev_snap);
            }
        }
        assert(pair_views(entries@) =~= pair_views(mid).push((ek_snap, ev_snap)));
    }
}

/// Walk the `replace_map` object starting at its opening brace, filling
/// `entries`, exactly as the document grammar reads it: a string value is
/// decoded, any other value keeps its raw text trimmed, and a later
/// duplicate key replaces the earlier entry at the end.
#[verifier::loop_isolation(false)]
#[verifier::rlimit(100)]
fn scan_replace_map(s: &[u8], i: usize, entries: &mut Vec<(Vec<u8>, Vec<u8>)>) -> (r: Option<
    usize,
>)
    requires
        i < s.len(),
        s@[i as int] == 0x7b,
    ensures
        match r {
            Some(j) => sp_replace_map(s@, i as int) == Some(
                (pair_views(final(entries)@), j as int),
            ) && i < j <= s.len(),
            None => sp_replace_map(s@, i as int) is None,
        },
        forall|a: int, b: int|
            0 <= a < b < final(entries)@.len() ==> #[trigger] final(entries)@[a].0@
                != #[trigger] final(entries)@[b].0@,
{
    entries.clear();
    let mut p = skip_ws(s, i + 1);
    proof {
        assert(pair_views(entries@) =~= Seq::<(Seq<u8>, Seq<u8>)>::empty());
    }
    if p < s.len() && s[p] == 0x7d {
        return Some(p + 1);
    }
    loop
        invariant
            i < p <= s@.len(),
            forall|a: int, b: int|
                0 <= a < b < entries@.len() ==> #[trigger] entries@[a].0@ != #[trigger] entries@[
                    b
                ].0@,
            sp_replace_map(s@, i as int) == sp_rm_members(s@, p as int, pair_views(entries@)),
        decreases s@.len() - p,
    {
        let ghost m0 = p as int;
        let ghost acc0 = pair_views(entries@);
        let (ek, kj) = match parse_json_string(s, p) {
            Some(v) => v,
            None => {
                return None;
            },
        };
        p = skip_ws(s, kj);
        if p == s.len() || s[p] != 0x3a {
            return None;
        }
        p = skip_ws(s, p + 1);
        let ev: Vec<u8>;
        if p < s.len() && s[p] == 0x22 {
            let (v, vj) = match parse_json_string(s, p) {
                Some(v) => v,
                None => {
                    return None;
                },
            };
            ev = v;
            p = vj;
        } else {
            // Keep the raw text of a non-string value, trimmed.
            let vstart = p;
            p = match skip_json_value(s, p) {
                Some(j) => j,
                None => {
                    return None;
                },
            };
            let mut raw: Vec<u8> = Vec::new();
            let mut t = vstart;
            while t < p
                invariant
                    vstart <= t <= p <= s@.len(),
                    raw@ == s@.subrange(vstart as int, t as int),
                decreases p - t,
            {
                raw.push(s[t]);
                proof {
                    assert(raw@ =~= s@.subrange(vstart as int, t + 1));
                }
                t += 1;
            }
            ev = trim_bytes(raw.as_slice());
        }
        rm_insert_entry(entries, ek, ev);
        p = skip_ws(s, p);
        if p == s.len() {
            return None;
        }
        if s[p] == 0x7d {
            return Some(p + 1);
        }
        if s[p] != 0x2c {
            return None;
        }
        p = skip_ws(s, p + 1);
    }
}

/// The canonical bytes of one dictionary entry.
pub open spec fn one_entry_bytes(e: (Vec<u8>, Vec<u8>)) -> Seq<u8> {
    seq![0x22u8] + e.0@ + seq![0x22u8, 0x3au8, 0x22u8] + e.1@ + seq![0x22u8]
}

/// The canonical bytes of the entries from position `a` on, comma-joined:
/// the same bytes as `entries_bytes`, read off from the left.
pub open spec fn entries_bytes_from(m: Seq<(Vec<u8>, Vec<u8>)>, a: int) -> Seq<u8>
    decreases m.len() - a,
{
    if !(0 <= a < m.len()) {
        Seq::empty()
    } else if a == m.len() - 1 {
        one_entry_bytes(m[a])
    } else {
        one_entry_bytes(m[a]) + seq![0x2cu8] + entries_bytes_from(m, a + 1)
    }
}

/// Appending one more entry on the right agrees with the left-to-right
/// reading.
proof fn lemma_ebf_snoc(m: Seq<(Vec<u8>, Vec<u8>)>, a: int)
    requires
        m.len() >= 2,
        0 <= a <= m.len() - 2,
    ensures
        entries_bytes_from(m, a) == entries_bytes_from(m.drop_last(), a) + seq![0x2cu8]
            + one_entry_bytes(m.last()),
    decreases m.len() - a,
{
    assert(m.drop_last()[a] == m[a]);
    if a == m.len() - 2 {
        assert(entries_bytes_from(m.drop_last(), a) == one_entry_bytes(m[a]));
        assert(entries_bytes_from(m, a + 1) == one_entry_bytes(m[a + 1]));
        assert(entries_bytes_from(m, a) == one_entry_bytes(m[a]) + seq![0x2cu8] + one_entry_bytes(
            m[m.len() - 1],
        ));
    } else {
        lemma_ebf_snoc(m, a + 1);
        assert((one_entry_bytes(m[a]) + seq![0x2cu8] + entries_bytes_from(m.drop_last(), a + 1))
            + seq![0x2cu8] + one_entry_bytes(m.last()) =~= one_entry_bytes(m[a]) + seq![0x2cu8] + (
        entries_bytes_from(m.drop_last(), a + 1) + seq![0x2cu8] + one_entry_bytes(m.last())));
    }
}

/// The two readings of the entries' bytes agree.
proof fn lemma_entries_bytes_from(m: Seq<(Vec<u8>, Vec<u8>)>)
    ensures
        entries_bytes(m) == entries_bytes_from(m, 0),
    decreases m.len(),
{
    reveal(entries_bytes);
    if m.len() == 0 {
    } else if m.len() == 1 {
        assert(entries_bytes_from(m, 0) == one_entry_bytes(m[0]));
    } else {
        lemma_entries_bytes_from(m.drop_last());
        lemma_ebf_snoc(m, 0);
    }
}

/// Reading the rendered entries from the start of the entry at `a`, with
/// `acc` already read and colliding with none of what remains, yields `acc`
/// followed by the remaining entries in order, stopping past the closing
/// brace.
#[verifier::rlimit(100)]
proof fn lemma_rm_entries_exact(
    s: Seq<u8>,
    p: int,
    acc: Seq<(Seq<u8>, Seq<u8>)>,
    m: Seq<(Vec<u8>, Vec<u8>)>,
    a: int,
)
    requires
        0 <= a < m.len(),
        0 <= p <= s.len(),
        s.subrange(p, s.len() as int) == entries_bytes_from(m, a) + seq![0x7du8, 0x7du8],
        forall|u: int| 0 <= u < m.len() ==> entry_clean(#[trigger] m[u]),
        forall|u: int, w: int| 0 <= u < w < m.len() ==> #[trigger] m[u].0@ != #[trigger] m[w].0@,
        forall|t: int, u: int|
            0 <= t < acc.len() && a <= u < m.len() ==> #[trigger] acc[t].0 != #[trigger] m[u].0@,
    ensures
        sp_rm_members(s, p, acc) == Some(
            (
                acc + pair_views(m.subrange(a, m.len() as int)),
                p + entries_bytes_from(m, a).len() + 1,
            ),
        ),
    decreases m.len() - a,
{
    let e = m[a];
    let oe = one_entry_bytes(e);
    let last = a == m.len() - 1;
    let tail2: Seq<u8> = if last {
        seq![0x7du8, 0x7du8]
    } else {
        seq![0x2cu8] + entries_bytes_from(m, a + 1) + seq![0x7du8, 0x7du8]
    };
    let rest_k = seq![0x3au8] + seq![0x22u8] + e.1@ + seq![0x22u8] + tail2;
    assert(s.subrange(p, s.len() as int) =~= seq![0x22u8] + e.0@ + seq![0x22u8] + rest_k);
    assert forall|k: int| 0 <= k < e.0@.len() implies !needs_escape(#[trigger] e.0@[k]) by {
        assert(entry_clean(m[a]));
    }
    assert forall|k: int| 0 <= k < e.1@.len() implies !needs_escape(#[trigger] e.1@[k]) by {
        assert(entry_clean(m[a]));
    }
    lemma_sp_string_exact(s, p, e.0@, rest_k);
    let kq_end = p + e.0@.len() as int + 2;
    assert(s[kq_end] == s.subrange(kq_end, s.len() as int)[0]);
    assert(s[kq_end] == 0x3a);
    assert(ws_end(s, kq_end) == kq_end);
    let v = kq_end + 1;
    assert forall|t: int|
        0 <= t < s.len() - v implies s.subrange(v, s.len() as int)[t] == (seq![0x22u8] + e.1@
        + seq![0x22u8] + tail2)[t] by {
        assert(s.subrange(v, s.len() as int)[t] == s[v + t]);
        assert(s.subrange(kq_end, s.len() as int)[1 + t] == s[v + t]);
    }
    assert(s.subrange(v, s.len() as int) =~= seq![0x22u8] + e.1@ + seq![0x22u8] + tail2);
    assert(s[v] == s.subrange(v, s.len() as int)[0]);
    assert(s[v] == 0x22);
    assert(ws_end(s, v) == v);
    lemma_sp_string_exact(s, v, e.1@, tail2);
    let vend = v + e.1@.len() as int + 2;
    assert(s.subrange(vend, s.len() as int) == tail2);
    // The new entry collides with nothing already read.
    assert forall|t: int| 0 <= t < acc.len() implies #[trigger] acc[t].0 != e.0@ by {}
    lemma_find_key(acc, e.0@, acc.len() as int, 0);
    let acc2 = acc.push((e.0@, e.1@));
    assert(rm_insert(acc, e.0@, e.1@) == acc2);
    assert(s[vend] == s.subrange(vend, s.len() as int)[0]);
    assert(ws_end(s, vend) == vend);
    if last {
        assert(s[vend] == 0x7d);
        assert(sp_rm_members(s, p, acc) == Some((acc2, vend + 1)));
        assert(pair_views(m.subrange(a, m.len() as int)) =~= seq![(e.0@, e.1@)]);
        assert(acc + seq![(e.0@, e.1@)] =~= acc2);
        assert(vend + 1 == p + entries_bytes_from(m, a).len() + 1);
    } else {
        assert(s[vend] == 0x2c);
        let nx = vend + 1;
        assert forall|t: int|
            0 <= t < s.len() - nx implies s.subrange(nx, s.len() as int)[t] == (
        entries_bytes_from(m, a + 1) + seq![0x7du8, 0x7du8])[t] by {
            assert(s.subrange(nx, s.len() as int)[t] == s[nx + t]);
            assert(s.subrange(vend, s.len() as int)[1 + t] == s[nx + t]);
        }
        assert(s.subrange(nx, s.len() as int) =~= entries_bytes_from(m, a + 1) + seq![
            0x7du8,
            0x7du8,
        ]);
        assert(entries_bytes_from(m, a + 1).len() > 0);
        assert(s[nx] == s.subrange(nx, s.len() as int)[0]);
        assert(one_entry_bytes(m[a + 1])[0] == 0x22);
        assert(s[nx] == 0x22);
        assert(ws_end(s, nx) == nx);
        assert forall|t: int, u: int|
            0 <= t < acc2.len() && a + 1 <= u < m.len() implies #[trigger] acc2[t].0
            != #[trigger] m[u].0@ by {
            if t < acc.len() {
                assert(acc2[t] == acc[t]);
            } else {
                assert(acc2[t].0 == e.0@);
            }
        }
        lemma_rm_entries_exact(s, nx, acc2, m, a + 1);
        assert(acc2 + pair_views(m.subrange(a + 1, m.len() as int)) =~= acc + pair_views(
            m.subrange(a, m.len() as int),
        ));
        assert(nx + entries_bytes_from(m, a + 1).len() + 1 == p + entries_bytes_from(
            m,
            a,
        ).len() + 1);
    }
}

/// The `replace_map` object's part of the reading walk: from its opening
/// brace through its closing one.
#[verifier::rlimit(100)]
proof fn lemma_pp_replace_map(s: Seq<u8>, ob: int, m: Seq<(Vec<u8>, Vec<u8>)>)
    requires
        0 <= ob <= s.len(),
        s.subrange(ob, s.len() as int) == seq![0x7bu8] + entries_bytes(m) + seq![0x7du8, 0x7du8],
        forall|u: int| 0 <= u < m.len() ==> entry_clean(#[trigger] m[u]),
        forall|u: int, w: int| 0 <= u < w < m.len() ==> #[trigger] m[u].0@ != #[trigger] m[w].0@,
    ensures
        sp_replace_map(s, ob) == Some((pair_views(m), s.len() - 1)),
        s.len() - 1 == ob + 1 + entries_bytes(m).len() + 1,
{
    let suf = s.subrange(ob, s.len() as int);
    assert(suf.len() == s.len() - ob);
    assert(suf.len() == 1 + entries_bytes(m).len() + 2);
    assert(s[ob] == suf[0]);
    assert(s[ob] == 0x7b);
    assert forall|t: int|
        0 <= t < s.len() - (ob + 1) implies s.subrange(ob + 1, s.len() as int)[t] == (
    entries_bytes(m) + seq![0x7du8, 0x7du8])[t] by {
        assert(s.subrange(ob + 1, s.len() as int)[t] == s[ob + 1 + t]);
        assert(suf[1 + t] == s[ob + 1 + t]);
    }
    assert(s.subrange(ob + 1, s.len() as int) =~= entries_bytes(m) + seq![0x7du8, 0x7du8]);
    lemma_entries_bytes_from(m);
    if m.len() == 0 {
        assert(s[ob + 1] == s.subrange(ob + 1, s.len() as int)[0]);
        assert(s[ob + 1] == 0x7d);
        assert(ws_end(s, ob + 1) == ob + 1);
        assert(sp_replace_map(s, ob) == Some((Seq::<(Seq<u8>, Seq<u8>)>::empty(), ob + 2)));
        assert(pair_views(m) =~= Seq::<(Seq<u8>, Seq<u8>)>::empty());
    } else {
        assert(entries_bytes_from(m, 0).len() > 0);
        assert(s[ob + 1] == s.subrange(ob + 1, s.len() as int)[0]);
        assert(one_entry_bytes(m[0])[0] == 0x22);
        assert(s[ob + 1] == 0x22);
        assert(ws_end(s, ob + 1) == ob + 1);
        lemma_rm_entries_exact(s, ob + 1, Seq::<(Seq<u8>, Seq<u8>)>::empty(), m, 0);
        assert(m.subrange(0, m.len() as int) =~= m);
        assert(Seq::<(Seq<u8>, Seq<u8>)>::empty() + pair_views(m) =~= pair_views(m));
        assert(sp_replace_map(s, ob) == Some(
            (pair_views(m), ob + 1 + entries_bytes_from(m, 0).len() + 1),
        ));
    }
}

/// The value half of the dictionary member: from the colon before the
/// object through the closing braces.
#[verifier::rlimit(100)]
proof fn lemma_pp_after_key(s: Seq<u8>, ci: bool, m: Seq<(Vec<u8>, Vec<u8>)>, c_end: int)
    requires
        0 <= c_end <= s.len(),
        s.subrange(c_end, s.len() as int) == seq![0x3au8, 0x7bu8] + entries_bytes(m) + seq![
            0x7du8,
            0x7du8,
        ],
        forall|u: int| 0 <= u < m.len() ==> entry_clean(#[trigger] m[u]),
        forall|u: int, w: int| 0 <= u < w < m.len() ==> #[trigger] m[u].0@ != #[trigger] m[w].0@,
    ensures
        s.len() - 1 == c_end + 2 + entries_bytes(m).len() + 1,
        s[c_end] == 0x3a,
        ws_end(s, c_end) == c_end,
        sp_pp_member(s, c_end + 1, key_replace_map(), ci, Seq::<(Seq<u8>, Seq<u8>)>::empty())
            == Some(((ci, pair_views(m)), s.len() - 1)),
        s[s.len() - 1] == 0x7d,
        ws_end(s, s.len() - 1) == s.len() - 1,
        ws_end(s, s.len() as int) == s.len(),
{
    let suf = s.subrange(c_end, s.len() as int);
    assert(suf.len() == s.len() - c_end);
    assert(suf.len() == 2 + entries_bytes(m).len() + 2);
    assert(s[c_end] == suf[0]);
    assert(s[c_end] == 0x3a);
    let ob = c_end + 1;
    assert(s[ob] == suf[1]);
    assert(s[ob] == 0x7b);
    assert(ws_end(s, ob) == ob);
    assert forall|t: int|
        0 <= t < s.len() - ob implies s.subrange(ob, s.len() as int)[t] == (seq![0x7bu8]
        + entries_bytes(m) + seq![0x7du8, 0x7du8])[t] by {
        assert(s.subrange(ob, s.len() as int)[t] == s[ob + t]);
        assert(suf[1 + t] == s[ob + t]);
    }
    assert(s.subrange(ob, s.len() as int) =~= seq![0x7bu8] + entries_bytes(m) + seq![
        0x7du8,
        0x7du8,
    ]);
    lemma_pp_replace_map(s, ob, m);
    let rm_end = s.len() - 1;
    assert(key_replace_map() != key_case_insensitive()) by {
        assert(key_replace_map().len() == 11);
        assert(key_case_insensitive().len() == 16);
    }
    assert(sp_pp_member(s, ob, key_replace_map(), ci, Seq::<(Seq<u8>, Seq<u8>)>::empty()) == Some(
        ((ci, pair_views(m)), rm_end as int),
    ));
    assert(s[rm_end as int] == suf[suf.len() - 1]);
    assert(s[rm_end as int] == 0x7d);
    assert(ws_end(s, rm_end as int) == rm_end);
    assert(ws_end(s, rm_end + 1) == s.len());
}

/// The dictionary member's half of the reading walk: from the `replace_map`
/// key through the closing braces.
#[verifier::rlimit(100)]
proof fn lemma_pp_walk_tail(s: Seq<u8>, ci: bool, m: Seq<(Vec<u8>, Vec<u8>)>, b_end: int)
    requires
        1 <= b_end <= s.len(),
        s.subrange(b_end, s.len() as int) == kc_replace_map() + entries_bytes(m) + seq![
            0x7du8,
            0x7du8,
        ],
        forall|u: int| 0 <= u < m.len() ==> entry_clean(#[trigger] m[u]),
        forall|u: int, w: int| 0 <= u < w < m.len() ==> #[trigger] m[u].0@ != #[trigger] m[w].0@,
    ensures
        sp_pp_members(s, b_end + 1, ci, Seq::<(Seq<u8>, Seq<u8>)>::empty()) == Some(
            (ci, pair_views(m)),
        ),
{
    let suf = s.subrange(b_end, s.len() as int);
    assert(suf.len() == s.len() - b_end);
    assert(suf.len() == 16 + entries_bytes(m).len() + 2);
    let rest2 = seq![0x3au8, 0x7bu8] + entries_bytes(m) + seq![0x7du8, 0x7du8];
    assert forall|t: int|
        0 <= t < s.len() - (b_end + 1) implies s.subrange(b_end + 1, s.len() as int)[t] == (seq![
        0x22u8,
    ] + key_replace_map() + seq![0x22u8] + rest2)[t] by {
        assert(s.subrange(b_end + 1, s.len() as int)[t] == s[b_end + 1 + t]);
        assert(suf[1 + t] == s[b_end + 1 + t]);
    }
    assert(s.subrange(b_end + 1, s.len() as int) =~= seq![0x22u8] + key_replace_map() + seq![
        0x22u8,
    ] + rest2);
    assert(s[b_end + 1] == s.subrange(b_end + 1, s.len() as int)[0]);
    assert(s[b_end + 1] == 0x22);
    assert(ws_end(s, b_end + 1) == b_end + 1);
    assert forall|k: int| 0 <= k < key_replace_map().len() implies !needs_escape(
        #[trigger] key_replace_map()[k],
    ) by {}
    lemma_sp_string_exact(s, b_end + 1, key_replace_map(), rest2);
    let c_end = b_end + 14;
    assert(s.subrange(c_end, s.len() as int) == rest2);
    lemma_pp_after_key(s, ci, m, c_end);
    assert(sp_pp_members(s, b_end + 1, ci, Seq::<(Seq<u8>, Seq<u8>)>::empty()) == Some(
        (ci, pair_views(m)),
    ));
}

/// The opening of the document: the brace and the policy member's key.
#[verifier::rlimit(100)]
proof fn lemma_pp_open(s: Seq<u8>, ci: bool, m: Seq<(Vec<u8>, Vec<u8>)>)
    requires
        s == spec_postprocess_bytes(ci, m),
    ensures
        s.len() == 20 + bool_bytes(ci).len() + 16 + entries_bytes(m).len() + 2,
        s[0] == 0x7b && ws_end(s, 0) == 0,
        s[1] == 0x22 && ws_end(s, 1) == 1,
        sp_string(s, 1) == Some((key_case_insensitive(), 19int)),
        s[19] == 0x3a && ws_end(s, 19) == 19,
        s.subrange(20, s.len() as int) == bool_bytes(ci) + kc_replace_map() + entries_bytes(m)
            + seq![0x7du8, 0x7du8],
{
    assert(s.len() == 20 + bool_bytes(ci).len() + 16 + entries_bytes(m).len() + 2);
    assert(s[0] == 0x7b);
    assert(ws_end(s, 0) == 0);
    assert(s[1] == 0x22);
    assert(ws_end(s, 1) == 1);
    let rest1 = seq![0x3au8] + bool_bytes(ci) + kc_replace_map() + entries_bytes(m) + seq![
        0x7du8,
        0x7du8,
    ];
    assert(s.subrange(1, s.len() as int) =~= seq![0x22u8] + key_case_insensitive() + seq![0x22u8]
        + rest1);
    assert forall|k: int| 0 <= k < key_case_insensitive().len() implies !needs_escape(
        #[trigger] key_case_insensitive()[k],
    ) by {}
    lemma_sp_string_exact(s, 1, key_case_insensitive(), rest1);
    assert(s.subrange(19, s.len() as int) == rest1);
    assert(s[19] == s.subrange(19, s.len() as int)[0]);
    assert(s[19] == 0x3a);
    assert(ws_end(s, 19) == 19);
    assert forall|t: int|
        0 <= t < s.len() - 20 implies s.subrange(20, s.len() as int)[t] == (bool_bytes(ci)
        + kc_replace_map() + entries_bytes(m) + seq![0x7du8, 0x7du8])[t] by {
        assert(s.subrange(20, s.len() as int)[t] == s[20 + t]);
        assert(s.subrange(19, s.len() as int)[1 + t] == s[20 + t]);
    }
    assert(s.subrange(20, s.len() as int) =~= bool_bytes(ci) + kc_replace_map() + entries_bytes(m)
        + seq![0x7du8, 0x7du8]);
}

/// The policy member's value and the comma after it.
#[verifier::rlimit(100)]
proof fn lemma_pp_policy(s: Seq<u8>, ci: bool, m: Seq<(Vec<u8>, Vec<u8>)>)
    requires
        s.len() == 20 + bool_bytes(ci).len() + 16 + entries_bytes(m).len() + 2,
        s.subrange(20, s.len() as int) == bool_bytes(ci) + kc_replace_map() + entries_bytes(m)
            + seq![0x7du8, 0x7du8],
    ensures
        ws_end(s, 20) == 20,
        sp_pp_member(s, 20, key_case_insensitive(), true, Seq::<(Seq<u8>, Seq<u8>)>::empty())
            == Some(
            ((ci, Seq::<(Seq<u8>, Seq<u8>)>::empty()), 20 + bool_bytes(ci).len() as int),
        ),
        s.subrange(20 + bool_bytes(ci).len() as int, s.len() as int) == kc_replace_map()
            + entries_bytes(m) + seq![0x7du8, 0x7du8],
        s[20 + bool_bytes(ci).len() as int] == 0x2c,
        ws_end(s, 20 + bool_bytes(ci).len() as int) == 20 + bool_bytes(ci).len(),
{
    let bl: int = bool_bytes(ci).len() as int;
    let v1 = 20int;
    assert(s[v1] == s.subrange(v1, s.len() as int)[0]);
    assert(s[v1] == bool_bytes(ci)[0]);
    assert(ws_end(s, v1) == v1);
    // The boolean token reads as the policy itself.
    if ci {
        assert(s[v1] == 0x74);
        assert(s[v1 + 1] == s.subrange(v1, s.len() as int)[1]);
        assert(s[v1 + 2] == s.subrange(v1, s.len() as int)[2]);
        assert(s[v1 + 3] == s.subrange(v1, s.len() as int)[3]);
    } else {
        assert(s[v1] == 0x66);
        assert(s[v1 + 1] == s.subrange(v1, s.len() as int)[1]);
        assert(s[v1 + 2] == s.subrange(v1, s.len() as int)[2]);
        assert(s[v1 + 3] == s.subrange(v1, s.len() as int)[3]);
        assert(s[v1 + 4] == s.subrange(v1, s.len() as int)[4]);
    }
    let b_end = v1 + bl;
    assert(sp_pp_member(s, v1, key_case_insensitive(), true, Seq::<(Seq<u8>, Seq<u8>)>::empty())
        == Some(((ci, Seq::<(Seq<u8>, Seq<u8>)>::empty()), b_end)));
    assert forall|t: int|
        0 <= t < s.len() - b_end implies s.subrange(b_end, s.len() as int)[t] == (
    kc_replace_map() + entries_bytes(m) + seq![0x7du8, 0x7du8])[t] by {
        assert(s.subrange(b_end, s.len() as int)[t] == s[b_end + t]);
        assert(s.subrange(v1, s.len() as int)[bl + t] == s[b_end + t]);
    }
    assert(s.subrange(b_end, s.len() as int) =~= kc_replace_map() + entries_bytes(m) + seq![
        0x7du8,
        0x7du8,
    ]);
    assert(s[b_end] == s.subrange(b_end, s.len() as int)[0]);
    assert(s[b_end] == 0x2c);
    assert(ws_end(s, b_end) == b_end);
}

/// The policy member's half of the reading walk: from the opening brace
/// through the boolean and the comma after it.
#[verifier::rlimit(100)]
proof fn lemma_pp_walk_head(s: Seq<u8>, ci: bool, m: Seq<(Vec<u8>, Vec<u8>)>)
    requires
        s == spec_postprocess_bytes(ci, m),
    ensures
        s.subrange(20 + bool_bytes(ci).len() as int, s.len() as int) == kc_replace_map()
            + entries_bytes(m) + seq![0x7du8, 0x7du8],
        sp_postprocess(s) == sp_pp_members(s, 1, true, Seq::<(Seq<u8>, Seq<u8>)>::empty()),
        sp_pp_members(s, 1, true, Seq::<(Seq<u8>, Seq<u8>)>::empty()) == sp_pp_members(
            s,
            20 + bool_bytes(ci).len() as int + 1,
            ci,
            Seq::<(Seq<u8>, Seq<u8>)>::empty(),
        ),
{
    lemma_pp_open(s, ci, m);
    lemma_pp_policy(s, ci, m);
}

/// Writing the dictionary and reading the document back yields the same
/// policy and the same entries, in order — for entries that need no escapes
/// and whose keys never collide: persistence loses nothing.
#[verifier::rlimit(100)]
pub proof fn lemma_postprocess_round_trip(ci: bool, m: Seq<(Vec<u8>, Vec<u8>)>)
    requires
        forall|u: int| 0 <= u < m.len() ==> entry_clean(#[trigger] m[u]),
        forall|u: int, w: int| 0 <= u < w < m.len() ==> #[trigger] m[u].0@ != #[trigger] m[w].0@,
    ensures
        sp_postprocess(spec_postprocess_bytes(ci, m)) == Some((ci, pair_views(m))),
{
    let s = spec_postprocess_bytes(ci, m);
    let b_end = 20 + bool_bytes(ci).len() as int;
    lemma_pp_walk_head(s, ci, m);
    lemma_pp_walk_tail(s, ci, m, b_end);
}

} // verus!
