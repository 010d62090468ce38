use search_corpus::corpus::normalize_word;
use search_corpus::{
    build_fst, dictionary_entries, parse_line, render_text_list, text_list, trim_part_of_speech, LineError,
    WordFrequency, FREQUENCY_CUTOFF,
};

#[test]
fn parse_line_invalid_char() -> Result<(), LineError> {
    let mut freq = WordFrequency::new();
    parse_line("a.b\t1960,1,1", &mut freq)?;
    assert_eq!(freq.len(), 0);
    Ok(())
}

#[test]
fn test_trim_part_of_speech_no_part_of_speech() {
    assert_eq!("hello", trim_part_of_speech("hello"));
}

#[test]
fn test_trim_part_of_speech_wrong_part_of_speech() {
    assert_eq!("hello_NOTREAL", trim_part_of_speech("hello_NOTREAL"));
}

#[test]
fn test_trim_part_of_speech_noun() {
    assert_eq!("hello", trim_part_of_speech("hello_NOUN"));
}

#[test]
fn test_trim_part_of_speech_prt() {
    assert_eq!("hello", trim_part_of_speech("hello_PRT"));
}

#[test]
fn test_trim_part_of_speech_noun_but_not_at_end() {
    assert_eq!("hello_NOUN_B", trim_part_of_speech("hello_NOUN_B"));
}

#[test]
fn trim_every_suffix() {
    for s in ["_NOUN", "_VERB", "_ADJ", "_ADV", "_ADP", "_PRON", "_DET", "_CONJ", "_PRT"] {
        assert_eq!("word", trim_part_of_speech(&format!("word{}", s)));
    }
    assert_eq!("word_NUM", trim_part_of_speech("word_NUM"));
}

#[test]
fn parse_line_sums_counts_and_lowercases() {
    let mut freq = WordFrequency::new();
    parse_line("Hello_NOUN\t1960,3,1\t1961,4,2 1962,+5,1\n", &mut freq).unwrap();
    assert_eq!(freq.get("hello"), Some(12));
    parse_line("hello 2000,8,1", &mut freq).unwrap();
    assert_eq!(freq.get("hello"), Some(20));
    assert_eq!(freq.len(), 1);
}

#[test]
fn parse_line_drops_records() {
    let mut freq = WordFrequency::new();
    parse_line("", &mut freq).unwrap();
    parse_line("   \t ", &mut freq).unwrap();
    parse_line("hello_NOUN_B 1960,1,1", &mut freq).unwrap();
    parse_line("hello_NOTREAL 1960,1,1", &mut freq).unwrap();
    parse_line("1984_NUM 1960,1,1", &mut freq).unwrap();
    parse_line("naïve 1960,1,1", &mut freq).unwrap();
    parse_line("_NOUN 1960,5,1", &mut freq).unwrap();
    parse_line("_PRT\t1960,5,1", &mut freq).unwrap();
    assert_eq!(freq.len(), 0);
}

#[test]
fn parse_line_keeps_apostrophes_and_hyphens() {
    let mut freq = WordFrequency::new();
    parse_line("Can't 1960,2,1", &mut freq).unwrap();
    parse_line("non-ledger_ADJ 1960,3,1", &mut freq).unwrap();
    assert_eq!(freq.get("can't"), Some(2));
    assert_eq!(freq.get("non-ledger"), Some(3));
    assert_eq!(freq.get("Can't"), None);
}

#[test]
fn parse_line_errors() {
    let mut freq = WordFrequency::new();
    assert_eq!(parse_line("word 1960", &mut freq), Err(LineError::MissingCount));
    assert_eq!(parse_line("word 1960,x,1", &mut freq), Err(LineError::BadCount));
    assert_eq!(parse_line("word 1960,,1", &mut freq), Err(LineError::BadCount));
    assert_eq!(parse_line("word 1960,-1,1", &mut freq), Err(LineError::BadCount));
    assert_eq!(
        parse_line("word 1960,18446744073709551616,1", &mut freq),
        Err(LineError::BadCount)
    );
    assert_eq!(
        parse_line("word 1960,18446744073709551615,1 1961,1,1", &mut freq),
        Err(LineError::CountOverflow)
    );
    assert_eq!(freq.len(), 0);
    parse_line("word 1960,18446744073709551615,1", &mut freq).unwrap();
    assert_eq!(parse_line("word 1961,1,1", &mut freq), Err(LineError::CountOverflow));
    assert_eq!(freq.get("word"), Some(u64::MAX));
}

#[test]
fn parse_line_record_without_entries_counts_zero() {
    let mut freq = WordFrequency::new();
    parse_line("lonely", &mut freq).unwrap();
    assert_eq!(freq.get("lonely"), Some(0));
}

#[test]
fn normalize_word_cases() {
    let n = |s: &str| normalize_word(&s.chars().collect::<Vec<char>>()).map(|v| v.into_iter().collect::<String>());
    assert_eq!(n("ABC_VERB"), Some("abc".to_string()));
    assert_eq!(n("a_b"), None);
    assert_eq!(n("a.b"), None);
    assert_eq!(n("O'Neil-Smith"), Some("o'neil-smith".to_string()));
}

#[test]
fn entries_are_sorted_and_cut_off() {
    let mut freq = WordFrequency::new();
    parse_line("zebra 1960,20000,1", &mut freq).unwrap();
    parse_line("apple 1960,9999,1", &mut freq).unwrap();
    parse_line("mango 1960,10000,1", &mut freq).unwrap();
    parse_line("banana 1960,50000,1", &mut freq).unwrap();
    let all = freq.entries();
    let words: Vec<&str> = all.iter().map(|e| e.0.as_str()).collect();
    assert_eq!(words, vec!["apple", "banana", "mango", "zebra"]);
    let kept = dictionary_entries(&freq);
    assert_eq!(
        kept,
        vec![
            ("banana".to_string(), 50000),
            ("mango".to_string(), 10000),
            ("zebra".to_string(), 20000)
        ]
    );
    assert!(kept.iter().all(|e| e.1 >= FREQUENCY_CUTOFF));
}

#[test]
fn text_list_is_ranked_lines() {
    let entries = vec![
        ("banana".to_string(), 50000),
        ("mango".to_string(), 10000),
        ("zebra".to_string(), 50000),
    ];
    assert_eq!(text_list(&entries), "banana 50000\nzebra 50000\nmango 10000\n");
    assert_eq!(render_text_list(&entries), "banana 50000\nmango 10000\nzebra 50000\n");
    assert_eq!(text_list(&vec![]), "");
}

#[test]
fn fst_holds_the_entries() {
    let entries = vec![
        ("banana".to_string(), 50000),
        ("can't".to_string(), 12345),
        ("mango".to_string(), 10000),
    ];
    let map = build_fst(&entries).unwrap();
    assert_eq!(map.len(), 3);
    assert_eq!(map.get("can't"), Some(12345));
    assert_eq!(map.get("banana"), Some(50000));
    assert_eq!(map.get("apple"), None);
}

#[test]
fn fst_refuses_unsorted_entries() {
    let entries = vec![("mango".to_string(), 10000), ("banana".to_string(), 50000)];
    assert!(build_fst(&entries).is_err());
}

#[test]
fn text_list_and_fst_hold_the_same_entries() {
    let mut freq = WordFrequency::new();
    for (w, n) in [("the", 50000u64), ("tie", 20000), ("a", 30000), ("rare", 10), ("tee", 20000)] {
        parse_line(&format!("{} 1990,{},1", w, n), &mut freq).unwrap();
    }
    let entries = dictionary_entries(&freq);
    let text = text_list(&entries);
    let mut from_text: Vec<(String, u64)> = text
        .lines()
        .map(|l| {
            let mut parts = l.split_ascii_whitespace();
            (parts.next().unwrap().to_string(), parts.next().unwrap().parse::<u64>().unwrap())
        })
        .collect();
    let map = build_fst(&entries).unwrap();
    let from_fst = map.stream().into_str_vec().unwrap();
    assert_eq!(text, "the 50000\na 30000\ntee 20000\ntie 20000\n");
    from_text.sort();
    assert_eq!(from_text, from_fst);
    assert!(from_fst.iter().all(|e| e.1 >= FREQUENCY_CUTOFF));
}
