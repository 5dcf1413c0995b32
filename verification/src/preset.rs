//! Presets: the values of the settings, by the names under which they are
//! shown.
use crate::wildcard::chars::{chars_of, spells, string_of};
use vstd::prelude::*;

verus! {

/// The version of the preset format.
pub const PRESET_VERSION: u32 = 1;

/// The name of the effect.
pub const EFFECT_NAME: &'static str = "HL_Blobox";

/// The names of the settings that a preset holds, in the order of the settings.
pub open spec fn item_names() -> Seq<Seq<char>> {
    seq![
        "モード"@,
        "ターゲット"@,
        "カラーターゲット"@,
        "しきい値"@,
        "ブラー半径"@,
        "最小ボックスサイズ"@,
        "最大ボックスサイズ"@,
        "重なりボックス"@,
        "ボックス有効"@,
        "形"@,
        "角丸半径"@,
        "ストローク有効"@,
        "ストローク色"@,
        "ストローク位置"@,
        "ストローク太さ"@,
        "ストローク不透明度"@,
        "ストローク点線"@,
        "ストローク点線頻度"@,
        "ストローク点線比率"@,
        "ストローク点線オフセット"@,
        "角の種類"@,
        "角長さ"@,
        "塗り有効"@,
        "塗り不透明度"@,
        "塗りモード"@,
        "塗り色"@,
        "グラデーションタイプ"@,
        "グラデーション開始色"@,
        "グラデーション終了色"@,
        "グラデーション開始位置"@,
        "グラデーション終了位置"@,
        "グラデーション角度"@,
        "ハッチ頻度"@,
        "ハッチ比率"@,
        "ハッチ角度"@,
        "塗り二値化しきい値"@,
        "塗り二値化反転"@,
        "塗りランダムのみ"@,
        "塗りランダム確率"@,
        "マーカー有効"@,
        "マーカー種類"@,
        "マーカー色"@,
        "マーカーサイズ"@,
        "マーカー太さ"@,
        "マーカー角度"@,
        "マーカー透明度"@,
        "接続線有効"@,
        "接続線種類"@,
        "接続線順序"@,
        "接続数制限"@,
        "最大接続数"@,
        "接続線色"@,
        "接続線太さ"@,
        "接続線不透明度"@,
        "ベンディング"@,
        "カーブ"@,
        "線点線"@,
        "線点線頻度"@,
        "線点線比率"@,
        "線点線オフセット"@,
        "矢印有効"@,
        "矢印色"@,
        "矢印不透明度"@,
        "矢印サイズ"@,
        "矢印角度オフセット"@,
        "矢印位置オフセット"@,
        "テキスト有効"@,
        "テキスト内容"@,
        "テキスト色"@,
        "テキスト表示基準"@,
        "テキスト水平揃え"@,
        "テキスト垂直揃え"@,
        "テキスト水平位置"@,
        "テキスト垂直位置"@,
        "テキストXオフセット"@,
        "テキストYオフセット"@,
        "テキストサイズ"@,
        "フォント"@,
    ]
}

/// The names of the settings that a preset holds, in the order of the settings.
pub fn config_item_names() -> (names: Vec<&'static str>)
    ensures
        names@.map_values(|s: &'static str| s@) == item_names(),
{
    let names = vec![
        "モード",
        "ターゲット",
        "カラーターゲット",
        "しきい値",
        "ブラー半径",
        "最小ボックスサイズ",
        "最大ボックスサイズ",
        "重なりボックス",
        "ボックス有効",
        "形",
        "角丸半径",
        "ストローク有効",
        "ストローク色",
        "ストローク位置",
        "ストローク太さ",
        "ストローク不透明度",
        "ストローク点線",
        "ストローク点線頻度",
        "ストローク点線比率",
        "ストローク点線オフセット",
        "角の種類",
        "角長さ",
        "塗り有効",
        "塗り不透明度",
        "塗りモード",
        "塗り色",
        "グラデーションタイプ",
        "グラデーション開始色",
        "グラデーション終了色",
        "グラデーション開始位置",
        "グラデーション終了位置",
        "グラデーション角度",
        "ハッチ頻度",
        "ハッチ比率",
        "ハッチ角度",
        "塗り二値化しきい値",
        "塗り二値化反転",
        "塗りランダムのみ",
        "塗りランダム確率",
        "マーカー有効",
        "マーカー種類",
        "マーカー色",
        "マーカーサイズ",
        "マーカー太さ",
        "マーカー角度",
        "マーカー透明度",
        "接続線有効",
        "接続線種類",
        "接続線順序",
        "接続数制限",
        "最大接続数",
        "接続線色",
        "接続線太さ",
        "接続線不透明度",
        "ベンディング",
        "カーブ",
        "線点線",
        "線点線頻度",
        "線点線比率",
        "線点線オフセット",
        "矢印有効",
        "矢印色",
        "矢印不透明度",
        "矢印サイズ",
        "矢印角度オフセット",
        "矢印位置オフセット",
        "テキスト有効",
        "テキスト内容",
        "テキスト色",
        "テキスト表示基準",
        "テキスト水平揃え",
        "テキスト垂直揃え",
        "テキスト水平位置",
        "テキスト垂直位置",
        "テキストXオフセット",
        "テキストYオフセット",
        "テキストサイズ",
        "フォント",
    ];
    assert(names@.map_values(|s: &'static str| s@) =~= item_names());
    names
}

/// A preset: the values of settings by their names.
#[derive(Debug)]
pub struct PresetFile {
    pub version: u32,
    pub values: Vec<(String, String)>,
}

/// The entries of a preset.
pub open spec fn entries_of(values: Seq<(String, String)>) -> Seq<(Seq<char>, Seq<char>)> {
    values.map_values(|e: (String, String)| (e.0@, e.1@))
}

/// The entries for the first `k` settings: those whose value could be read.
pub open spec fn entries_read(values: Seq<Option<String>>, k: int) -> Seq<
    (Seq<char>, Seq<char>),
>
    decreases k,
{
    if k <= 0 {
        Seq::empty()
    } else {
        let before = entries_read(values, k - 1);
        match values[k - 1] {
            Some(v) => before.push((item_names()[k - 1], v@)),
            None => before,
        }
    }
}

/// The preset of the values that were read for the settings, in their order.
/// Settings that could not be read are left out.
pub fn collect_preset(values: &[Option<String>]) -> (preset: PresetFile)
    requires
        values@.len() == item_names().len(),
    ensures
        preset.version == PRESET_VERSION,
        entries_of(preset.values@) == entries_read(values@, values@.len() as int),
{
    let names = config_item_names();
    let mut out: Vec<(String, String)> = Vec::new();
    assert(entries_of(out@) =~= entries_read(values@, 0));
    let mut i: usize = 0;
    while i < values.len()
        invariant
            i <= values@.len(),
            values@.len() == item_names().len(),
            names@.map_values(|s: &'static str| s@) == item_names(),
            entries_of(out@) == entries_read(values@, i as int),
        decreases values@.len() - i,
    {
        assert(names@.map_values(|s: &'static str| s@)[i as int] == names@[i as int]@);
        if let Some(value) = &values[i] {
            let ghost before = out@;
            let name = string_of(&chars_of(names[i]));
            let value = string_of(&chars_of(value.as_str()));
            out.push((name, value));
            assert(entries_of(out@) =~= entries_of(before).push((name@, value@)));
        }
        i = i + 1;
    }
    PresetFile { version: PRESET_VERSION, values: out }
}

/// The value was read for the setting at `i`, which has the given name.
pub open spec fn was_read(
    values: Seq<Option<String>>,
    i: int,
    name: Seq<char>,
    value: Seq<char>,
) -> bool {
    item_names()[i] == name && match values[i] {
        Some(v) => v@ == value,
        None => false,
    }
}

/// A preset holds a value for a setting if and only if that value was read for
/// it.
pub proof fn law_preset_holds_what_was_read(
    values: Seq<Option<String>>,
    k: int,
    name: Seq<char>,
    value: Seq<char>,
)
    requires
        0 <= k <= values.len(),
    ensures
        entries_read(values, k).contains((name, value)) <==> exists|i: int|
            0 <= i < k && #[trigger] was_read(values, i, name, value),
    decreases k,
{
    if k > 0 {
        law_preset_holds_what_was_read(values, k - 1, name, value);
        let before = entries_read(values, k - 1);
        let all = entries_read(values, k);
        if all.contains((name, value)) {
            let j = choose|j: int| 0 <= j < all.len() && all[j] == (name, value);
            if j < before.len() {
                assert(before[j] == (name, value));
            } else {
                assert(was_read(values, k - 1, name, value));
            }
        }
        if exists|i: int| 0 <= i < k && #[trigger] was_read(values, i, name, value) {
            if before.contains((name, value)) {
                let j = choose|j: int| 0 <= j < before.len() && before[j] == (name, value);
                assert(all[j] == (name, value));
            } else {
                assert(was_read(values, k - 1, name, value));
                assert(all[all.len() - 1] == (name, value));
            }
        }
    }
}

/// How many of the first `k` settings could be set.
pub open spec fn count_set(results: Seq<bool>, k: int) -> nat
    decreases k,
{
    if k <= 0 {
        0
    } else {
        count_set(results, k - 1) + if results[k - 1] {
            1nat
        } else {
            0nat
        }
    }
}

/// How many settings could be set. `results` tells it for each.
pub fn count_applied(results: &[bool]) -> (n: usize)
    ensures
        n == count_set(results@, results@.len() as int),
{
    let mut n: usize = 0;
    let mut i: usize = 0;
    while i < results.len()
        invariant
            n <= i <= results@.len(),
            n == count_set(results@, i as int),
        decreases results@.len() - i,
    {
        if results[i] {
            n = n + 1;
        }
        i = i + 1;
    }
    n
}

/// The first of the effects that bears the name of this one. An effect whose
/// name cannot be read is passed over.
pub fn find_effect(names: &[Option<String>]) -> (index: Option<usize>)
    ensures
        match index {
            Some(i) => i < names@.len() && is_effect(names@[i as int]) && forall|k: int|
                0 <= k < i ==> !is_effect(#[trigger] names@[k]),
            None => forall|k: int| 0 <= k < names@.len() ==> !is_effect(#[trigger] names@[k]),
        },
{
    let mut i: usize = 0;
    while i < names.len()
        invariant
            i <= names@.len(),
            forall|k: int| 0 <= k < i ==> !is_effect(#[trigger] names@[k]),
        decreases names@.len() - i,
    {
        if let Some(name) = &names[i] {
            if spells(&chars_of(name.as_str()), EFFECT_NAME) {
                return Some(i);
            }
        }
        i = i + 1;
    }
    None
}

/// The name could be read and is the one of this effect.
pub open spec fn is_effect(name: Option<String>) -> bool {
    match name {
        Some(s) => s@ == EFFECT_NAME@,
        None => false,
    }
}

/// The length of a text that ends at the first 0, or with its buffer.
pub fn wide_len(buffer: &[u16]) -> (n: usize)
    ensures
        n <= buffer@.len(),
        forall|k: int| 0 <= k < n ==> #[trigger] buffer@[k] != 0,
        n < buffer@.len() ==> buffer@[n as int] == 0,
{
    let mut i: usize = 0;
    while i < buffer.len() && buffer[i] != 0
        invariant
            i <= buffer@.len(),
            forall|k: int| 0 <= k < i ==> #[trigger] buffer@[k] != 0,
        decreases buffer@.len() - i,
    {
        i = i + 1;
    }
    i
}

/// As many settings count as set as there are positions at which the answer was
/// yes.
pub proof fn law_count_is_that_of_the_settings_set(results: Seq<bool>, k: int)
    requires
        0 <= k <= results.len(),
    ensures
        Set::new(|i: int| 0 <= i < k && results[i]).finite(),
        count_set(results, k) == Set::new(|i: int| 0 <= i < k && results[i]).len(),
    decreases k,
{
    let set = Set::new(|i: int| 0 <= i < k && results[i]);
    if k == 0 {
        assert(set =~= Set::<int>::empty());
    } else {
        law_count_is_that_of_the_settings_set(results, k - 1);
        let before = Set::new(|i: int| 0 <= i < k - 1 && results[i]);
        if results[k - 1] {
            assert(set =~= before.insert(k - 1));
        } else {
            assert(set =~= before);
        }
    }
}

/// The entries of a preset come in the order of the settings.
pub proof fn law_entries_come_in_the_order_of_the_settings(
    values: Seq<Option<String>>,
    k: int,
    a: int,
    b: int,
)
    requires
        0 <= k <= values.len(),
        0 <= a < b < entries_read(values, k).len(),
    ensures
        exists|i: int, j: int|
            0 <= i < j < k && #[trigger] was_read(
                values,
                i,
                entries_read(values, k)[a].0,
                entries_read(values, k)[a].1,
            ) && #[trigger] was_read(
                values,
                j,
                entries_read(values, k)[b].0,
                entries_read(values, k)[b].1,
            ),
    decreases k,
{
    let all = entries_read(values, k);
    let before = entries_read(values, k - 1);
    if b < before.len() {
        law_entries_come_in_the_order_of_the_settings(values, k - 1, a, b);
        let (i, j) = choose|i: int, j: int|
            0 <= i < j < k - 1 && #[trigger] was_read(values, i, before[a].0, before[a].1)
                && #[trigger] was_read(values, j, before[b].0, before[b].1);
        assert(all[a] == before[a] && all[b] == before[b]);
        assert(was_read(values, i, all[a].0, all[a].1) && was_read(values, j, all[b].0, all[b].1));
    } else {
        law_preset_holds_what_was_read(values, k - 1, before[a].0, before[a].1);
        assert(before.contains((before[a].0, before[a].1)));
        let i = choose|i: int|
            0 <= i < k - 1 && #[trigger] was_read(values, i, before[a].0, before[a].1);
        assert(all[a] == before[a]);
        assert(was_read(values, i, all[a].0, all[a].1));
        assert(was_read(values, k - 1, all[b].0, all[b].1));
    }
}

/// The settings in their groups: keying, boxes, strokes, fills, markers, lines,
/// dashes, arrows and text.
pub proof fn law_settings_are_named_in_groups()
    ensures
        item_names().len() == 78,
        item_names().subrange(0, 8) == seq![
            "モード"@,
            "ターゲット"@,
            "カラーターゲット"@,
            "しきい値"@,
            "ブラー半径"@,
            "最小ボックスサイズ"@,
            "最大ボックスサイズ"@,
            "重なりボックス"@,
        ],
        item_names().subrange(8, 11) == seq![
            "ボックス有効"@,
            "形"@,
            "角丸半径"@,
        ],
        item_names().subrange(11, 22) == seq![
            "ストローク有効"@,
            "ストローク色"@,
            "ストローク位置"@,
            "ストローク太さ"@,
            "ストローク不透明度"@,
            "ストローク点線"@,
            "ストローク点線頻度"@,
            "ストローク点線比率"@,
            "ストローク点線オフセット"@,
            "角の種類"@,
            "角長さ"@,
        ],
        item_names().subrange(22, 39) == seq![
            "塗り有効"@,
            "塗り不透明度"@,
            "塗りモード"@,
            "塗り色"@,
            "グラデーションタイプ"@,
            "グラデーション開始色"@,
            "グラデーション終了色"@,
            "グラデーション開始位置"@,
            "グラデーション終了位置"@,
            "グラデーション角度"@,
            "ハッチ頻度"@,
            "ハッチ比率"@,
            "ハッチ角度"@,
            "塗り二値化しきい値"@,
            "塗り二値化反転"@,
            "塗りランダムのみ"@,
            "塗りランダム確率"@,
        ],
        item_names().subrange(39, 46) == seq![
            "マーカー有効"@,
            "マーカー種類"@,
            "マーカー色"@,
            "マーカーサイズ"@,
            "マーカー太さ"@,
            "マーカー角度"@,
            "マーカー透明度"@,
        ],
        item_names().subrange(46, 56) == seq![
            "接続線有効"@,
            "接続線種類"@,
            "接続線順序"@,
            "接続数制限"@,
            "最大接続数"@,
            "接続線色"@,
            "接続線太さ"@,
            "接続線不透明度"@,
            "ベンディング"@,
            "カーブ"@,
        ],
        item_names().subrange(56, 60) == seq![
            "線点線"@,
            "線点線頻度"@,
            "線点線比率"@,
            "線点線オフセット"@,
        ],
        item_names().subrange(60, 66) == seq![
            "矢印有効"@,
            "矢印色"@,
            "矢印不透明度"@,
            "矢印サイズ"@,
            "矢印角度オフセット"@,
            "矢印位置オフセット"@,
        ],
        item_names().subrange(66, 78) == seq![
            "テキスト有効"@,
            "テキスト内容"@,
            "テキスト色"@,
            "テキスト表示基準"@,
            "テキスト水平揃え"@,
            "テキスト垂直揃え"@,
            "テキスト水平位置"@,
            "テキスト垂直位置"@,
            "テキストXオフセット"@,
            "テキストYオフセット"@,
            "テキストサイズ"@,
            "フォント"@,
        ],
{
    assert(item_names().subrange(0, 8).len() == 8);
    assert(item_names().subrange(8, 11).len() == 3);
    assert(item_names().subrange(11, 22).len() == 11);
    assert(item_names().subrange(22, 39).len() == 17);
    assert(item_names().subrange(39, 46).len() == 7);
    assert(item_names().subrange(46, 56).len() == 10);
    assert(item_names().subrange(56, 60).len() == 4);
    assert(item_names().subrange(60, 66).len() == 6);
    assert(item_names().subrange(66, 78).len() == 12);
}

} // verus!
