use nepali_ime::ImeEngine;
use nepali_ime::KeyAction;

#[test]
fn empty_prefix_gives_no_suggestions() {
    let engine = ImeEngine::new();
    assert!(engine.get_suggestions("", 5).is_empty());
}

#[test]
fn zero_count_gives_no_suggestions() {
    let engine = ImeEngine::new();
    assert!(engine.get_suggestions("ka", 0).is_empty());
}

#[test]
fn suggestions_are_bounded_and_sorted() {
    let mut engine = ImeEngine::new();
    engine.user_confirms("nepal", "नेपाल");
    engine.user_confirms("ma", "म");
    engine.user_confirms("ma", "म");
    let r = engine.get_suggestions("ma", 2);
    assert!(r.len() <= 2);
    for i in 1..r.len() {
        assert!(r[i - 1].1 >= r[i].1);
    }
}

#[test]
fn empty_confirmation_is_ignored() {
    let mut engine = ImeEngine::new();
    engine.user_confirms("", "नेपाल");
    engine.user_confirms("nepal", "");
    assert!(engine.trie_builder.find_word_id_by_devanagari("नेपाल").is_none());
}

#[test]
fn learned_word_appears_for_its_prefix() {
    let mut engine = ImeEngine::new();
    engine.user_confirms("nepal", "नेपाल");
    let r = engine.get_suggestions("ne", 3);
    assert!(r.contains(&("नेपाल".to_string(), 1)));
    // The primary transliteration of the prefix itself is also offered.
    assert!(r.iter().any(|(s, _)| s == "ने"));
}

#[test]
fn learned_word_ranks_first_once_frequent_enough() {
    let mut engine = ImeEngine::new();
    engine.user_confirms("nepal", "नेपाल");
    engine.user_confirms("nepal", "नेपाल");
    let r = engine.get_suggestions("ne", 3);
    assert_eq!(r[0].0, "नेपाल");
    assert_eq!(r[0].1, 2);
}

#[test]
fn confirmed_word_beats_rule_candidates_at_higher_frequency() {
    let mut engine = ImeEngine::new();
    engine.user_confirms("ma", "म");
    engine.user_confirms("ma", "म");
    engine.user_confirms("ma", "म");
    engine.user_confirms("malai", "मलाई");
    let r = engine.get_suggestions("ma", 5);
    assert_eq!(r[0], ("म".to_string(), 3));
    assert!(r.contains(&("मलाई".to_string(), 1)));
}

#[test]
fn frequency_counts_confirmations() {
    let mut engine = ImeEngine::new();
    engine.user_confirms("ma", "म");
    engine.user_confirms("ma", "म");
    engine.user_confirms("ma", "म");
    let id = engine.trie_builder.find_word_id_by_devanagari("म").unwrap();
    let meta = engine.trie_builder.metadata(id).unwrap();
    assert_eq!(meta.frequency, 3);
    assert_eq!(meta.variants.len(), 1);
}

#[test]
fn subtree_maxima_stay_consistent() {
    let mut engine = ImeEngine::new();
    engine.user_confirms("nepal", "नेपाल");
    engine.user_confirms("nepali", "नेपाली");
    engine.user_confirms("nepal", "नेपाल");
    engine.user_confirms("ma", "म");
    assert!(engine.trie_builder.check_max_consistency());
}

#[test]
fn bigram_boost_after_repeated_pair() {
    let mut engine = ImeEngine::new();
    engine.user_confirms("ram", "राम");
    engine.user_confirms("sita", "सीता");
    engine.user_confirms("ram", "राम");
    // One occurrence of the pair so far: log2(1) gives no boost.
    let r = engine.get_suggestions("si", 5);
    assert!(r.contains(&("सीता".to_string(), 1)));
    engine.user_confirms("sita", "सीता");
    engine.user_confirms("ram", "राम");
    // The pair was seen twice: floor(10 * log2(2)) adds ten.
    let r2 = engine.get_suggestions("si", 5);
    assert!(r2.contains(&("सीता".to_string(), 12)));
    assert_eq!(r2[0].0, "सीता");
}

#[test]
fn typo_reaches_the_word_through_the_fuzzy_index() {
    let mut engine = ImeEngine::new();
    engine.user_confirms("namaste", "नमस्ते");
    // One deletion away from the learned spelling.
    let r = engine.get_suggestions("nmaste", 5);
    assert!(r.contains(&("नमस्ते".to_string(), 0)));
}

#[test]
fn suggestion_keys_are_distinct() {
    let mut engine = ImeEngine::new();
    engine.user_confirms("ma", "म");
    let r = engine.get_suggestions("ma", 10);
    for i in 0..r.len() {
        for j in i + 1..r.len() {
            assert_ne!(r[i].0, r[j].0);
        }
    }
}

#[test]
fn key_events_drive_the_preedit() {
    let mut engine = ImeEngine::new();
    let mut preedit = String::new();
    // Type `n`, `e`.
    assert!(matches!(engine.process_key('n' as u32, &mut preedit), KeyAction::Refresh));
    assert!(matches!(engine.process_key('E' as u32, &mut preedit), KeyAction::Refresh));
    assert_eq!(preedit, "ne");
    // Backspace removes the last character.
    assert!(matches!(engine.process_key(65288, &mut preedit), KeyAction::Refresh));
    assert_eq!(preedit, "n");
    // Escape clears.
    assert!(matches!(engine.process_key(65307, &mut preedit), KeyAction::Refresh));
    assert_eq!(preedit, "");
    // Space on an empty preedit commits a space.
    assert!(matches!(engine.process_key(32, &mut preedit), KeyAction::CommitSpace));
}

#[test]
fn enter_commits_and_learns() {
    let mut engine = ImeEngine::new();
    let mut preedit = String::from("ka");
    match engine.process_key(65293, &mut preedit) {
        KeyAction::CommitText(text) => {
            assert_eq!(text, "क");
        },
        _ => panic!("expected a commit"),
    }
    assert_eq!(preedit, "");
    assert!(engine.trie_builder.find_word_id_by_devanagari("क").is_some());
}
