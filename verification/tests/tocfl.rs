use tocfl::Entry;
use tocfl::TOCFLDictionary;
use tocfl::build_dictionary;
use tocfl::compile_common_chars;
use tocfl::get_comps;
use tocfl::normalize;
use tocfl::normalize_pinyin;
use tocfl::remove_digits;
use tocfl::remove_non_digits;
use tocfl::remove_whitespace;
use tocfl::written_sums_by_level;

fn entry(id: u64, text: &str, pinyin: &str, written: u64) -> Entry {
    Entry {
        id,
        text: text.to_string(),
        text_alt: vec![],
        category: "基礎".to_string(),
        tocfl_level: 1,
        situation: String::new(),
        written_per_million: written,
        spoken_per_million: written,
        components: String::new(),
        zhuyin: String::new(),
        zhuyin_alt: vec![],
        pinyin: pinyin.to_string(),
        pinyin_alt: vec![],
    }
}

fn word_dict() -> TOCFLDictionary<Entry> {
    let entries = vec![
        entry(1, "爸爸", "bà ba", 100),
        entry(2, "意識", "yì shì", 50),
        entry(3, "爸", "bà", 10),
        entry(4, "安靜", "ān jìng", 20),
        entry(5, "分", "fēn", 30),
        entry(6, "便宜", "pián yí", 40),
    ];
    build_dictionary(&entries)
}

#[test]
fn test_normalize() {
    assert_eq!(normalize_pinyin("yì shì"), "yìshì");
    assert_eq!(normalize_pinyin("yi4 shi4"), "yìshì");
}

#[test]
fn entry_test1() {
    word_dict().get_entry("爸爸", "bàba").unwrap();
}

#[test]
fn entry_test2() {
    word_dict().get_entry("爸爸", "bà ba").unwrap();
}

#[test]
fn entry_awareness() {
    word_dict().get_entry("意識", "yì shì").unwrap();
    word_dict().get_entry("意識", "yìshì").unwrap();
    word_dict().get_entry("意識", "yi4 shi4").unwrap();
}

#[test]
fn entry_test3() {
    word_dict().get_entry("爸", "bà").unwrap();
}

#[test]
fn entry_test4() {
    word_dict().get_entry("安靜", "ān jìng").unwrap();
}

#[test]
fn entry_test_fen1() {
    word_dict().get_entry("分", "fēn").unwrap();
    word_dict().get_entry("分", "fen1").unwrap();
}

#[test]
fn entry_test_pian_yi() {
    word_dict().get_entry_no_pinyin("便宜").unwrap();
}

#[test]
fn entry_test_fen2() {
    assert_eq!(word_dict().get_entry("分", "fèn"), None);
}

fn char_corpus() -> TOCFLDictionary<Entry> {
    // Every word is stored under its canonical key and its fallback key,
    // and the compiler attributes a word's frequency once per stored
    // pair, so each word below contributes twice its written count.
    let entries = vec![
        // 食 is recorded as a bare character without a pinyin of its own,
        // so its reading must come from the default conversion.
        entry(10, "食", "", 5),
        entry(11, "食物", "shí wù", 300),
        entry(12, "飲食", "yǐn shí", 56),
        // 繪 and 會 each carry exactly one attested reading.
        entry(20, "繪", "huì", 3),
        entry(21, "繪畫", "huì huà", 60),
        entry(30, "會", "huì", 7),
        entry(31, "會議", "huì yì", 1500),
        entry(32, "機會", "jī huì", 312),
    ];
    build_dictionary(&entries)
}

#[test]
fn entry_test_taberu() {
    let chars = compile_common_chars(&char_corpus());
    assert_eq!(chars.get_entry_no_pinyin("食"), Some(&712));
    assert_eq!(chars.get_entry("食", "shí"), Some(&712));
}

#[test]
fn entry_test_hui_painting() {
    let chars = compile_common_chars(&char_corpus());
    assert_eq!(chars.get_entry("繪", "hui4"), Some(&120));
    assert_eq!(chars.get_entry_no_pinyin("繪"), Some(&120));
}

#[test]
fn entry_test_hui_meeting() {
    let chars = compile_common_chars(&char_corpus());
    assert_eq!(chars.get_entry("會", "hui4"), Some(&3624));
    assert_eq!(chars.get_entry_no_pinyin("會"), Some(&3624));
}

#[test]
fn canonical_pair_resolves_to_one_entry() {
    let dict = word_dict();
    let spaced = dict.get_entry("爸爸", "bà ba").unwrap();
    let joined = dict.get_entry("爸爸", "bàba").unwrap();
    assert_eq!(spaced, joined);
    assert_eq!(spaced.id, 1);
}

#[test]
fn normalize_is_idempotent_on_examples() {
    for raw in ["yi4 shi4", "bà ba", "ni3 hao3", "ān jìng", ""] {
        let once = normalize_pinyin(raw);
        let twice = normalize_pinyin(&once);
        assert_eq!(twice, once);
    }
}

#[test]
fn homograph_entries_stay_apart() {
    let entries = vec![entry(1, "分", "fēn", 30), entry(2, "分", "fèn", 8)];
    let dict = build_dictionary(&entries);
    assert_eq!(dict.get_entry("分", "fēn").unwrap().id, 1);
    assert_eq!(dict.get_entry("分", "fèn").unwrap().id, 2);
}

#[test]
fn multiple_with_no_candidates_matches_no_pinyin() {
    let dict = word_dict();
    let from_multiple = dict.get_entry_multiple("便宜", &[]).map(|e| e.id);
    let from_no_pinyin = dict.get_entry_no_pinyin("便宜").map(|e| e.id);
    assert_eq!(from_multiple, from_no_pinyin);
    assert_eq!(dict.get_entry_multiple("口", &[]), None);
    assert_eq!(dict.get_entry_no_pinyin("口"), None);
}

#[test]
fn multiple_takes_first_hit_then_falls_back() {
    let entries = vec![entry(1, "分", "fēn", 30), entry(2, "分", "fèn", 8)];
    let dict = build_dictionary(&entries);
    assert_eq!(dict.get_entry_multiple("分", &["fèn", "fēn"]).unwrap().id, 2);
    assert_eq!(dict.get_entry_multiple("分", &["fēn", "fèn"]).unwrap().id, 1);
    // No candidate hits: the empty-pronunciation key holds the entry
    // inserted last for the form.
    assert_eq!(dict.get_entry_multiple("分", &["fen2"]).unwrap().id, 2);
}

#[test]
fn iterate_yields_one_value_per_stored_key() {
    let entries = vec![entry(1, "爸", "bà", 10)];
    let dict = build_dictionary(&entries);
    // One entry is reachable via its canonical key and via the fallback
    // key, so iteration reports it once per key.
    let values = dict.iter();
    assert_eq!(values.len(), 2);
    for v in values {
        assert_eq!(v.id, 1);
    }
}

#[test]
fn variant_expansion_zips_to_the_shorter_list() {
    let mut e = entry(1, "臺灣", "tái wān", 60);
    e.text_alt = vec!["台灣".to_string(), "台湾".to_string()];
    e.pinyin_alt = vec!["tái wān".to_string()];
    let dict = build_dictionary(&vec![e]);
    assert_eq!(dict.get_entry("臺灣", "tái wān").unwrap().id, 1);
    assert_eq!(dict.get_entry("台灣", "táiwān").unwrap().id, 1);
    // The second orthographic variant has no pronunciation partner and
    // produces no key.
    assert_eq!(dict.get_entry("台湾", "tái wān"), None);
    assert_eq!(dict.get_entry_no_pinyin("台湾"), None);
}

#[test]
fn get_comps_splits_and_trims() {
    let comps = get_comps("愛/愛心 / 愛護");
    assert_eq!(comps, vec!["愛", "愛心", "愛護"]);
    assert_eq!(get_comps("單獨"), vec!["單獨"]);
    assert_eq!(get_comps("a/"), vec!["a", ""]);
}

#[test]
fn remove_digits_strips_and_reports() {
    assert_eq!(remove_digits("著1"), ("著".to_string(), true));
    assert_eq!(remove_digits("著"), ("著".to_string(), false));
    assert_eq!(remove_digits("a1b2"), ("ab".to_string(), true));
}

#[test]
fn remove_non_digits_reads_the_digits() {
    assert_eq!(remove_non_digits("第1級"), Some(1));
    assert_eq!(remove_non_digits("第17級"), Some(17));
    assert_eq!(remove_non_digits("abc"), None);
    assert_eq!(remove_non_digits(""), None);
    assert_eq!(remove_non_digits("99999999999999999999"), None);
}

#[test]
fn remove_whitespace_drops_every_kind() {
    assert_eq!(remove_whitespace("a b\tc\nd"), "abcd");
    assert_eq!(remove_whitespace("  "), "");
}

#[test]
fn normalize_rows_repairs_numbered_entries() {
    let mut rows = vec![entry(1, "著1", "zhù", 4017), entry(2, "愛", "ài", 535)];
    rows[0].tocfl_level = 6;
    let mut averages = vec![0u64; 8];
    averages[6] = 1234;
    normalize(&mut rows, &averages);
    assert_eq!(rows[0].text, "著");
    assert_eq!(rows[0].written_per_million, 1234);
    assert_eq!(rows[0].spoken_per_million, 1234);
    assert_eq!(rows[1].text, "愛");
    assert_eq!(rows[1].written_per_million, 535);
}

#[test]
fn written_sums_by_level_tally() {
    let mut rows = vec![
        entry(1, "愛", "ài", 535),
        entry(2, "人", "rén", 700),
        entry(3, "貓", "māo", 65),
    ];
    rows[1].tocfl_level = 2;
    let (sums, counts) = written_sums_by_level(&rows);
    assert_eq!(sums[1], 600);
    assert_eq!(counts[1], 2);
    assert_eq!(sums[2], 700);
    assert_eq!(counts[2], 1);
    assert_eq!(sums[3], 0);
    assert_eq!(counts[0], 0);
}

#[test]
fn compiled_counts_skip_ambiguous_specific_keys() {
    // 分 carries two attested readings, so a word containing it feeds
    // only the fallback key for 分.
    let entries = vec![
        entry(1, "分", "fēn", 30),
        entry(2, "分", "fèn", 8),
        entry(3, "分開", "fēn kāi", 45),
    ];
    let chars = compile_common_chars(&build_dictionary(&entries));
    assert_eq!(chars.get_entry_no_pinyin("分"), Some(&90));
    assert_eq!(chars.get_entry("分", "fēn"), None);
    assert_eq!(chars.get_entry("分", "fèn"), None);
}

#[test]
fn compiled_counts_add_per_occurrence() {
    let entries = vec![entry(1, "爸", "bà", 10), entry(2, "爸爸", "bà ba", 50)];
    let chars = compile_common_chars(&build_dictionary(&entries));
    // 爸 occurs twice in 爸爸 and the word is stored under two keys, so
    // its count is attributed four times.
    assert_eq!(chars.get_entry("爸", "bà"), Some(&200));
    assert_eq!(chars.get_entry_no_pinyin("爸"), Some(&200));
}
