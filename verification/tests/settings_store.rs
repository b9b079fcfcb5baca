use speak_bridge::postprocess::{encode_postprocess_config, parse_postprocess_config, validate_and_clean_payload, PayloadError, PostprocessConfig};
use speak_bridge::settings::{
    default_case_insensitive, default_recording_hotkey, default_ui_settings, effective_hotkey,
    encode_ui_settings, load_ui_settings, resolve_postprocess_path, resolve_tauri_config_path,
    resolve_ui_settings_path, resolve_usage_stats_path, trim_bytes, validate_hotkey_choice,
    HotkeyError, UiSettings,
};

#[test]
fn the_defaults_are_fixed() {
    assert_eq!(default_recording_hotkey(), "F2");
    assert!(default_case_insensitive());
    assert_eq!(default_ui_settings().recording_hotkey, b"F2".to_vec());
}

#[test]
fn config_paths_join_under_the_root() {
    assert_eq!(
        resolve_tauri_config_path("/home/u/proj", "x.json"),
        "/home/u/proj/speak-keyboard-tauri/config/x.json",
    );
    assert_eq!(
        resolve_ui_settings_path("/r"),
        "/r/speak-keyboard-tauri/config/ui_settings.json",
    );
    assert_eq!(resolve_postprocess_path("/r"), "/r/config/postprocess.json");
    assert_eq!(
        resolve_usage_stats_path("/r"),
        "/r/speak-keyboard-tauri/config/usage_stats.json",
    );
}

#[test]
fn trimming_strips_both_ends() {
    assert_eq!(trim_bytes(b"  a b \t"), b"a b".to_vec());
    assert_eq!(trim_bytes(b"   "), Vec::<u8>::new());
    assert_eq!(trim_bytes(b""), Vec::<u8>::new());
    assert_eq!(trim_bytes(b"x"), b"x".to_vec());
}

#[test]
fn an_empty_hotkey_is_refused() {
    assert_eq!(validate_hotkey_choice(b"   "), Err(HotkeyError::Empty));
    assert_eq!(validate_hotkey_choice(b""), Err(HotkeyError::Empty));
}

#[test]
fn a_bare_modifier_is_refused() {
    for bare in ["ctrl", "CTRL", "Shift", "alt", "meta", "Command", "control", " ctrl "] {
        assert_eq!(
            validate_hotkey_choice(bare.as_bytes()),
            Err(HotkeyError::OnlyModifier),
            "{bare} should be refused",
        );
    }
}

#[test]
fn a_real_hotkey_passes_trimmed() {
    assert_eq!(validate_hotkey_choice(b" F2 "), Ok(b"F2".to_vec()));
    assert_eq!(
        validate_hotkey_choice(b"Ctrl+Shift+K"),
        Ok(b"Ctrl+Shift+K".to_vec()),
    );
}

#[test]
fn the_effective_hotkey_falls_back_to_the_default() {
    assert_eq!(effective_hotkey(&b"  ".to_vec()), b"F2".to_vec());
    assert_eq!(effective_hotkey(&b"Alt+R".to_vec()), b"Alt+R".to_vec());
}

#[test]
fn ui_settings_round_trip() {
    let s = UiSettings { recording_hotkey: b"Ctrl+Shift+K".to_vec() };
    let bytes = encode_ui_settings(&s);
    assert_eq!(bytes, b"{\"recording_hotkey\":\"Ctrl+Shift+K\"}".to_vec());
    let back = load_ui_settings(Some(&bytes));
    assert_eq!(back.recording_hotkey, b"Ctrl+Shift+K".to_vec());
}

#[test]
fn ui_settings_document_is_plain_json() {
    let s = UiSettings { recording_hotkey: b"F13".to_vec() };
    let v: serde_json::Value = serde_json::from_slice(&encode_ui_settings(&s)).unwrap();
    assert_eq!(v["recording_hotkey"].as_str(), Some("F13"));
}

#[test]
fn missing_or_corrupt_settings_read_as_default() {
    assert_eq!(load_ui_settings(None).recording_hotkey, b"F2".to_vec());
    let junk = b"not json at all".to_vec();
    assert_eq!(load_ui_settings(Some(&junk)).recording_hotkey, b"F2".to_vec());
    let wrong_type = b"{\"recording_hotkey\": 5}".to_vec();
    assert_eq!(load_ui_settings(Some(&wrong_type)).recording_hotkey, b"F2".to_vec());
    let empty_obj = b"{}".to_vec();
    assert_eq!(load_ui_settings(Some(&empty_obj)).recording_hotkey, b"F2".to_vec());
    let extra = b"{\"other\": [1,2], \"recording_hotkey\": \"F5\"}".to_vec();
    assert_eq!(load_ui_settings(Some(&extra)).recording_hotkey, b"F5".to_vec());
}

fn pairs(raw: &[(&str, &str)]) -> Vec<(Vec<u8>, Vec<u8>)> {
    raw.iter().map(|(k, v)| (k.as_bytes().to_vec(), v.as_bytes().to_vec())).collect()
}

#[test]
fn duplicate_keys_collapse_case_insensitively() {
    let p = pairs(&[("Hello", "a"), ("world", "w"), ("HELLO", "b")]);
    let cfg = validate_and_clean_payload(&p, None).unwrap();
    assert!(cfg.case_insensitive);
    assert_eq!(cfg.replace_map.len(), 2);
    // The later entry wins and moves to the end, keeping its own case.
    assert_eq!(cfg.replace_map[0].0, b"world".to_vec());
    assert_eq!(cfg.replace_map[1].0, b"HELLO".to_vec());
    assert_eq!(cfg.replace_map[1].1, b"b".to_vec());
}

#[test]
fn case_sensitive_keys_stay_apart() {
    let p = pairs(&[("Hello", "a"), ("HELLO", "b")]);
    let cfg = validate_and_clean_payload(&p, Some(false)).unwrap();
    assert!(!cfg.case_insensitive);
    assert_eq!(cfg.replace_map.len(), 2);
}

#[test]
fn blank_entries_are_dropped() {
    let p = pairs(&[("  ", "x"), ("k", "   "), (" key ", " value ")]);
    let cfg = validate_and_clean_payload(&p, None).unwrap();
    assert_eq!(cfg.replace_map.len(), 1);
    assert_eq!(cfg.replace_map[0].0, b"key".to_vec());
    assert_eq!(cfg.replace_map[0].1, b"value".to_vec());
}

#[test]
fn oversized_entries_refuse_the_payload() {
    let p = pairs(&[("k", "aaaaaaaaaaaaaaaaa")]);
    assert_eq!(validate_and_clean_payload(&p, None).unwrap_err(), PayloadError::EntryTooLong);
    let p = pairs(&[("aaaaaaaaaaaaaaaaa", "v")]);
    assert_eq!(validate_and_clean_payload(&p, None).unwrap_err(), PayloadError::EntryTooLong);
    // Sixteen characters exactly still pass.
    let p = pairs(&[("aaaaaaaaaaaaaaaa", "bbbbbbbbbbbbbbbb")]);
    assert!(validate_and_clean_payload(&p, None).is_ok());
}

#[test]
fn entry_length_counts_characters_not_bytes() {
    // Sixteen three-byte characters pass; seventeen are refused.
    let sixteen: String = "\u{4f60}".repeat(16);
    let seventeen: String = "\u{4f60}".repeat(17);
    let p = vec![(sixteen.as_bytes().to_vec(), b"v".to_vec())];
    assert!(validate_and_clean_payload(&p, None).is_ok());
    let p = vec![(seventeen.as_bytes().to_vec(), b"v".to_vec())];
    assert_eq!(validate_and_clean_payload(&p, None).unwrap_err(), PayloadError::EntryTooLong);
}

#[test]
fn the_dictionary_is_capped_at_two_hundred() {
    let mut raw: Vec<(Vec<u8>, Vec<u8>)> = Vec::new();
    for i in 0..201u32 {
        raw.push((format!("key{i}").into_bytes(), b"v".to_vec()));
    }
    assert_eq!(validate_and_clean_payload(&raw, None).unwrap_err(), PayloadError::TooManyEntries);
    raw.truncate(200);
    let cfg = validate_and_clean_payload(&raw, None).unwrap();
    assert_eq!(cfg.replace_map.len(), 200);
}

#[test]
fn postprocess_document_is_exact_and_round_trips() {
    let cfg = PostprocessConfig {
        case_insensitive: true,
        replace_map: vec![
            (b"hello".to_vec(), b"world".to_vec()),
            (b"foo".to_vec(), b"bar".to_vec()),
        ],
    };
    let bytes = encode_postprocess_config(&cfg);
    assert_eq!(
        bytes,
        b"{\"case_insensitive\":true,\"replace_map\":{\"hello\":\"world\",\"foo\":\"bar\"}}".to_vec(),
    );
    let v: serde_json::Value = serde_json::from_slice(&bytes).unwrap();
    assert_eq!(v["replace_map"]["hello"].as_str(), Some("world"));
    let back = parse_postprocess_config(&bytes).unwrap();
    assert!(back.case_insensitive);
    assert_eq!(back.replace_map, cfg.replace_map);
}

#[test]
fn postprocess_reads_leniently() {
    // A non-boolean policy reads as the default; a numeric replacement
    // keeps its raw text.
    let doc = b"{\"case_insensitive\": \"yes\", \"replace_map\": {\"x\": 5, \"y\": \"z\"}}";
    let cfg = parse_postprocess_config(doc).unwrap();
    assert!(cfg.case_insensitive);
    assert_eq!(cfg.replace_map[0], (b"x".to_vec(), b"5".to_vec()));
    assert_eq!(cfg.replace_map[1], (b"y".to_vec(), b"z".to_vec()));
}

#[test]
fn postprocess_duplicate_keys_keep_the_later_value() {
    let doc = b"{\"replace_map\":{\"k\":\"a\",\"k\":\"b\"}}";
    let cfg = parse_postprocess_config(doc).unwrap();
    assert_eq!(cfg.replace_map, vec![(b"k".to_vec(), b"b".to_vec())]);
}

#[test]
fn postprocess_refuses_what_is_not_an_object() {
    assert!(parse_postprocess_config(b"[]").is_none());
    assert!(parse_postprocess_config(b"nonsense").is_none());
    assert!(parse_postprocess_config(b"").is_none());
    // A non-object dictionary reads as empty.
    let cfg = parse_postprocess_config(b"{\"replace_map\": 7}").unwrap();
    assert!(cfg.replace_map.is_empty());
}
