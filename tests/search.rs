use search_corpus::{
    build_fst, candidate, compile_pairs, compile_query, dictionary_entries, find_processed_file, is_valid_string,
    parse_line, rank_results, search_combinations, search_fst_plan, search_text_plan, text_list,
    validate_absent_letters, validate_pattern, PatternMode, SearchError, WordFrequency,
};

const WORDS: &[(&str, u64)] = &[
    ("the", 5_000_000),
    ("and", 3_000_000),
    ("for", 2_500_000),
    ("is", 2_000_000),
    ("it", 1_900_000),
    ("this", 1_500_000),
    ("that", 1_400_000),
    ("time", 800_000),
    ("will", 700_000),
    ("what", 600_000),
    ("such", 400_000),
    ("take", 300_000),
    ("them", 1_300_000),
    ("then", 1_200_000),
    ("they", 1_100_000),
    ("told", 250_000),
    ("with", 2_100_000),
    ("were", 1_000_000),
    ("would", 900_000),
    ("which", 850_000),
    ("about", 820_000),
    ("their", 810_000),
    ("great", 780_000),
    ("world", 760_000),
    ("small", 740_000),
    ("never", 720_000),
    ("said", 710_000),
    ("skin", 190_000),
    ("coin", 180_000),
    ("rain", 170_000),
    ("void", 160_000),
    ("tie", 200_000),
    ("toe", 150_000),
    ("tree", 120_000),
    ("tee", 100_000),
    ("don't", 95_000),
    ("can't", 90_000),
    ("cart", 40_000),
    ("non-ledger", 12_000),
    ("bad", 164_493),
    ("dad", 33_921),
    ("bat", 13_047),
    ("dat", 10_000),
    ("rare", 9_999),
];

struct Dictionary {
    text: String,
    map: fst::Map<Vec<u8>>,
}

fn dictionary() -> Dictionary {
    let mut freq = WordFrequency::new();
    for (w, n) in WORDS {
        parse_line(&format!("{}\t1999,{},7", w, n), &mut freq).unwrap();
    }
    let entries = dictionary_entries(&freq);
    Dictionary { text: text_list(&entries), map: build_fst(&entries).unwrap() }
}

fn run(d: &Dictionary, query: &str) -> Result<Vec<(String, u64)>, SearchError> {
    let q = compile_query(query)?;
    let by_fst = search_fst_plan(&q, &d.map);
    let by_scan = search_text_plan(&q, &d.text)?;
    assert_eq!(by_fst, by_scan);
    Ok(by_fst)
}

fn words(r: &[(String, u64)]) -> Vec<&str> {
    r.iter().map(|e| e.0.as_str()).collect()
}

#[test]
fn wheel_single_letter_missing() {
    let r = run(&dictionary(), "mode=WheelOfFortune&pattern=t?e&absent_letters=").unwrap();
    assert_eq!(words(&r), vec!["the", "tie", "toe"]);
}

#[test]
fn wheel_single_letter_missing_not_the() {
    let d = dictionary();
    for absent in ["h", "ht", "htht", "H"] {
        let r = run(&d, &format!("mode=WheelOfFortune&pattern=t?e&absent_letters={}", absent)).unwrap();
        assert_eq!(r[0].0, "tie");
        assert!(!words(&r).contains(&"the"));
        assert_ne!(r.len(), 1);
    }
}

#[test]
fn wheel_no_letters_missing() {
    let d = dictionary();
    for absent in ["", "abc"] {
        let r = run(&d, &format!("mode=WheelOfFortune&pattern=is&absent_letters={}", absent)).unwrap();
        assert_eq!(r, vec![("is".to_string(), 2_000_000)]);
    }
}

#[test]
fn wheel_results_right_length_and_descending() {
    let r = run(&dictionary(), "mode=WheelOfFortune&pattern=t???&absent_letters=h").unwrap();
    assert!(r.len() > 3);
    let mut last = u64::MAX;
    for (w, f) in &r {
        assert_eq!(w.len(), 4);
        assert!(w.starts_with('t'));
        assert_ne!(w, "this");
        assert!(last >= *f);
        last = *f;
    }
}

#[test]
fn wheel_results_right_length_with_missing_first_letter() {
    let r = run(&dictionary(), "mode=WheelOfFortune&pattern=??i?&absent_letters=h").unwrap();
    assert!(r.len() > 3);
    for (w, _) in &r {
        assert_eq!(w.len(), 4);
        assert_eq!(w.chars().nth(2), Some('i'));
        assert_ne!(w, "this");
    }
}

#[test]
fn wheel_giant_set_of_results_descending() {
    let r = run(&dictionary(), "mode=WheelOfFortune&pattern=?????&absent_letters=hx").unwrap();
    assert!(r.len() > 3);
    let mut last = u64::MAX;
    for (w, f) in &r {
        assert_eq!(w.len(), 5);
        assert!(last >= *f);
        last = *f;
    }
}

#[test]
fn combinations_ignore_case() {
    let d = dictionary();
    let upper = vec![vec!['B', 'D'], vec!['A'], vec!['T', 'D']];
    let lower = vec![vec!['b', 'd'], vec!['a'], vec!['t', 'd']];
    assert_eq!(search_combinations(&upper, &d.map), search_combinations(&lower, &d.map));
}

#[test]
fn absent_letters_fold_case_and_repeats() {
    let d = dictionary();
    let a = run(&d, "mode=WheelOfFortune&pattern=t?e&absent_letters=ht").unwrap();
    let b = run(&d, "mode=WheelOfFortune&pattern=t?e&absent_letters=HtHt").unwrap();
    assert_eq!(a, b);
}

#[test]
fn wheel_does_not_reuse_pattern_letters() {
    let r = run(&dictionary(), "mode=WheelOfFortune&pattern=t?e?&absent_letters=").unwrap();
    assert!(!words(&r).contains(&"tree"));
}

#[test]
fn crossword_reuses_pattern_letters() {
    let r = run(&dictionary(), "mode=Crossword&pattern=t?e?&absent_letters=").unwrap();
    assert!(words(&r).contains(&"tree"));
}

#[test]
fn apostrophe_and_dash() {
    let d = dictionary();
    assert!(words(&run(&d, "mode=WheelOfFortune&pattern=c??'t&absent_letters=").unwrap()).contains(&"can't"));
    assert!(words(&run(&d, "mode=Crossword&pattern=c??'t&absent_letters=").unwrap()).contains(&"can't"));
    assert!(!words(&run(&d, "mode=WheelOfFortune&pattern=d???t&absent_letters=h").unwrap()).contains(&"don't"));
    let r = run(&d, "mode=WheelOfFortune&pattern=n?n-?e??er&absent_letters=t").unwrap();
    assert_eq!(words(&r), vec!["non-ledger"]);
    let r = run(&d, "mode=WheelOfFortune&pattern=n?n??e??er&absent_letters=t").unwrap();
    assert!(r.is_empty());
}

#[test]
fn wide_pattern_uses_the_scan_and_agrees() {
    let d = dictionary();
    let q = compile_query("mode=WheelOfFortune&pattern=??????????&absent_letters=").unwrap();
    assert!(!q.uses_fst());
    let r = run(&d, "mode=WheelOfFortune&pattern=??????????&absent_letters=").unwrap();
    assert!(r.is_empty());
    let q = compile_query("mode=Crossword&pattern=?????&absent_letters=").unwrap();
    assert!(q.uses_fst());
    let q = compile_query("mode=Crossword&pattern=??????&absent_letters=").unwrap();
    assert!(!q.uses_fst());
    let r = run(&d, "mode=Crossword&pattern=???&absent_letters=").unwrap();
    assert_eq!(words(&r), vec!["the", "and", "for", "tie", "bad", "toe", "tee", "dad", "bat", "dat"]);
}

#[test]
fn cryptogram_scenarios() {
    let d = dictionary();
    let first = |p: &str, a: &str| {
        run(&d, &format!("mode=Cryptogram&pattern={}&absent_letters={}", p, a)).unwrap()[0].0.clone()
    };
    assert_eq!(first("ABC", ""), "the");
    assert_eq!(first("TBC", ""), "and");
    assert_eq!(first("ABCC", ""), "will");
    assert_eq!(first("XBch", ""), "such");
    assert_eq!(first("XBCt", ""), "what");
    assert_eq!(first("ABC", "ea"), "for");
}

#[test]
fn cryptogram_same_variable_same_letter() {
    let d = dictionary();
    let r = run(&d, "mode=Cryptogram&pattern=ABCA&absent_letters=").unwrap();
    assert_eq!(words(&r), vec!["that"]);
    let r = run(&d, "mode=Cryptogram&pattern=ABBA&absent_letters=").unwrap();
    assert!(r.is_empty());
}

#[test]
fn post_filter() {
    assert!(is_valid_string("that", "ABCA", &PatternMode::Cryptogram));
    assert!(!is_valid_string("this", "ABCA", &PatternMode::Cryptogram));
    assert!(is_valid_string("this", "ABCA", &PatternMode::WheelOfFortune));
    assert!(!is_valid_string("ab", "ABC", &PatternMode::Cryptogram));
    assert!(is_valid_string("abc", "", &PatternMode::Cryptogram));
}

#[test]
fn rejected_queries() {
    let too_long = ".".repeat(21);
    assert_eq!(
        compile_query(&format!("mode=WheelOfFortune&pattern={}&absent_letters=h", too_long)).err(),
        Some(SearchError::DisallowedPatternChars)
    );
    assert_eq!(
        compile_query(&format!("mode=WheelOfFortune&pattern={}", "?".repeat(21))).err(),
        Some(SearchError::PatternTooLong)
    );
    assert!(compile_query(&format!("mode=WheelOfFortune&pattern={}", "?".repeat(20))).is_ok());
    assert_eq!(
        compile_query("mode=NotARealMode&pattern=t??&absent_letters=h").err(),
        Some(SearchError::InvalidMode)
    );
    assert_eq!(compile_query("pattern=t??&absent_letters=h").err(), Some(SearchError::MissingMode));
    assert_eq!(compile_query("mode=Crossword").err(), Some(SearchError::MissingPattern));
    assert_eq!(
        compile_query("mode=Cryptogram&pattern=A?C").err(),
        Some(SearchError::DisallowedPatternChars)
    );
    assert_eq!(
        compile_query("mode=Crossword&pattern=a?c&absent_letters=x1").err(),
        Some(SearchError::DisallowedAbsentLetters)
    );
}

#[test]
fn query_decoding() {
    let q = compile_query("mode=Crossword&pattern=t%3Fe&mode=WheelOfFortune&junk=1").unwrap();
    assert_eq!(q.pattern, "t?e");
    assert_eq!(q.mode, PatternMode::WheelOfFortune);
    assert_eq!(q.absent_letters, "");
    let pairs = vec![
        ("mode".to_string(), "Cryptogram".to_string()),
        ("pattern".to_string(), "ABc".to_string()),
        ("absent_letters".to_string(), "Qz".to_string()),
    ];
    let q = compile_pairs(&pairs).unwrap();
    assert_eq!(q.mode, PatternMode::Cryptogram);
    assert_eq!(q.absent_letters, "Qz");
    assert_eq!(q.template.len(), 3);
}

#[test]
fn validation_messages() {
    assert_eq!(validate_pattern("ab?", &PatternMode::Crossword), Ok(()));
    assert_eq!(validate_pattern("ab?", &PatternMode::Cryptogram), Err(SearchError::DisallowedPatternChars));
    assert_eq!(validate_absent_letters("abZ"), Ok(()));
    assert_eq!(SearchError::PatternTooLong.message(), "Pattern too long");
    assert_eq!(SearchError::MissingMode.message(), "Internal error - no mode specified!");
    assert_eq!(PatternMode::try_from("Crossword"), Ok(PatternMode::Crossword));
    assert_eq!(PatternMode::try_from("crossword"), Err(()));
}

#[test]
fn slot_without_letters_matches_nothing() {
    let d = dictionary();
    let q = compile_query("mode=WheelOfFortune&pattern=?&absent_letters=abcdefghijklmnopqrstuvwxyz").unwrap();
    assert_eq!(search_fst_plan(&q, &d.map), vec![]);
    assert_eq!(search_text_plan(&q, &d.text), Ok(vec![]));
    let q = compile_query("mode=Cryptogram&pattern=A&absent_letters=bcdefghijklmnopqrstuvwxyz").unwrap();
    assert_eq!(search_fst_plan(&q, &d.map), vec![]);
    assert_eq!(search_combinations(&vec![vec!['b'], vec![]], &d.map), Ok(vec![]));
}

#[test]
fn malformed_text_list() {
    let q = compile_query("mode=WheelOfFortune&pattern=t?e").unwrap();
    assert_eq!(search_text_plan(&q, "the\n").err(), Some(SearchError::Dictionary));
    assert_eq!(search_text_plan(&q, "the x\n").err(), Some(SearchError::Dictionary));
    assert_eq!(search_text_plan(&q, "the 5\n  \n").err(), Some(SearchError::Dictionary));
    assert_eq!(search_text_plan(&q, "tie 7\nabc\n").unwrap(), vec![("tie".to_string(), 7)]);
    assert_eq!(search_text_plan(&q, "tie 7\r\nthe 9").unwrap(), vec![("the".to_string(), 9), ("tie".to_string(), 7)]);
    assert_eq!(search_text_plan(&q, "").unwrap(), vec![]);
}

#[test]
fn combinations() {
    let d = dictionary();
    let parts = vec![vec!['B', 'D'], vec!['A'], vec!['T', 'D']];
    assert_eq!(
        search_combinations(&parts, &d.map).unwrap(),
        vec![
            ("bad".to_string(), 164_493),
            ("dad".to_string(), 33_921),
            ("bat".to_string(), 13_047),
            ("dat".to_string(), 10_000)
        ]
    );
    assert_eq!(
        search_combinations(&vec![vec!['b', '1']], &d.map).err(),
        Some(SearchError::DisallowedCombinationChars)
    );
}

#[test]
fn ranking_breaks_ties_by_word() {
    let v = vec![
        ("b".to_string(), 5),
        ("a".to_string(), 5),
        ("c".to_string(), 9),
        ("ab".to_string(), 5),
        ("a".to_string(), 1),
    ];
    assert_eq!(
        rank_results(v),
        vec![
            ("c".to_string(), 9),
            ("a".to_string(), 5),
            ("ab".to_string(), 5),
            ("b".to_string(), 5),
            ("a".to_string(), 1)
        ]
    );
}

#[test]
fn file_discovery() {
    assert_eq!(candidate("x.fst", 0), "data/processed/x.fst");
    assert_eq!(candidate("x.fst", 2), "../../data/processed/x.fst");
    assert_eq!(find_processed_file("x.fst", &vec![false, false, true, true]), Some("../../data/processed/x.fst".to_string()));
    assert_eq!(find_processed_file("x.fst", &vec![false; 5]), None);
    assert_eq!(find_processed_file("x.fst", &vec![false, false, false, false, false, true]), None);
    assert_eq!(find_processed_file("x.fst", &vec![]), None);
}
