use hl_blobox::preset::{
    collect_preset, config_item_names, count_applied, find_effect, wide_len, PRESET_VERSION,
};

#[test]
fn the_names_of_the_settings_are_in_order() {
    let names = config_item_names();
    assert_eq!(names.len(), 78);
    assert_eq!(names[0], "モード");
    assert_eq!(names[8], "ボックス有効");
    assert_eq!(names[77], "フォント");
    let text = names.iter().position(|&n| n == "テキスト内容").unwrap();
    assert_eq!(names[text + 1], "テキスト色");
    assert_eq!(names[text + 2], "テキスト表示基準");
    let mut unique = names.clone();
    unique.sort();
    unique.dedup();
    assert_eq!(unique.len(), names.len());
}

#[test]
fn presets_hold_the_values_that_were_read() {
    let names = config_item_names();
    let mut values: Vec<Option<String>> = names.iter().map(|_| None).collect();
    values[1] = Some("明るい部分".to_string());
    values[3] = Some("50".to_string());
    let preset = collect_preset(&values);
    assert_eq!(preset.version, PRESET_VERSION);
    assert_eq!(PRESET_VERSION, 1);
    assert_eq!(
        preset.values,
        [
            ("ターゲット".to_string(), "明るい部分".to_string()),
            ("しきい値".to_string(), "50".to_string()),
        ]
    );
}

#[test]
fn settings_that_were_set_are_counted() {
    assert_eq!(count_applied(&[true, false, true, true]), 3);
    assert_eq!(count_applied(&[]), 0);
}

#[test]
fn the_first_effect_with_the_name_is_found() {
    let name = |s: &str| Some(s.to_string());
    let effects = [name("Blur"), None, name("HL_Blobox"), name("HL_Blobox")];
    assert_eq!(find_effect(&effects), Some(2));
    assert_eq!(find_effect(&[name("HL_Blobox2"), name("hl_blobox"), None]), None);
}

#[test]
fn wide_texts_end_at_a_zero() {
    assert_eq!(wide_len(&[65, 66, 0, 67, 0]), 2);
    assert_eq!(wide_len(&[65, 66]), 2);
    assert_eq!(wide_len(&[0]), 0);
    assert_eq!(wide_len(&[]), 0);
}
