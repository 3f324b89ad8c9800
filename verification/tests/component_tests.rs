use nepali_ime::ContextModel;
use nepali_ime::LearningEngine;
use nepali_ime::SymSpell;
use nepali_ime::Trie;
use nepali_ime::WordConfirmation;

#[test]
fn fuzzy_lookup_finds_words_within_two_deletions() {
    let mut ss = SymSpell::new(2);
    ss.add_word("namaste", 0);
    assert!(ss.lookup("namaste").contains(&0));
    assert!(ss.lookup("nmaste").contains(&0));
    assert!(ss.lookup("nmste").contains(&0));
    assert!(!ss.lookup("nm").contains(&0));
}

#[test]
fn adding_words_never_shrinks_a_lookup() {
    let mut ss = SymSpell::new(2);
    ss.add_word("nepal", 0);
    let before = ss.lookup("nepal");
    ss.add_word("nepali", 1);
    ss.add_word("nepal", 2);
    let after = ss.lookup("nepal");
    for id in &before {
        assert!(after.contains(id));
    }
    assert!(after.contains(&1));
    assert!(after.contains(&2));
}

#[test]
fn lookup_results_have_no_duplicates() {
    let mut ss = SymSpell::new(2);
    ss.add_word("ma", 0);
    ss.add_word("maa", 0);
    let r = ss.lookup("ma");
    for i in 0..r.len() {
        for j in i + 1..r.len() {
            assert_ne!(r[i], r[j]);
        }
    }
}

#[test]
fn context_window_is_bounded_and_boosts() {
    let mut ctx = ContextModel::new(3);
    ctx.add_word(1);
    ctx.add_word(2);
    ctx.add_word(1);
    ctx.add_word(2);
    // The pair (1, 2) was seen twice; with word 1 most recent, word 2
    // gains floor(10 * log2(2)) points.
    let mut suggestions = vec![(2usize, 5u64), (3usize, 6u64)];
    ctx.add_word(1);
    ctx.rerank_suggestions(&mut suggestions);
    assert_eq!(suggestions[0], (2, 15));
    assert_eq!(suggestions[1], (3, 6));
}

#[test]
fn rerank_without_history_changes_nothing() {
    let ctx = ContextModel::new(3);
    let mut suggestions = vec![(1usize, 1u64), (2usize, 9u64)];
    ctx.rerank_suggestions(&mut suggestions);
    assert_eq!(suggestions, vec![(1, 1), (2, 9)]);
}

#[test]
fn trie_top_k_orders_by_frequency() {
    let mut trie = Trie::new();
    let a = trie.get_or_create_metadata("क");
    let b = trie.get_or_create_metadata("ख");
    trie.increment_frequency(a);
    trie.increment_frequency(b);
    trie.increment_frequency(b);
    trie.insert("ka", a, 1);
    trie.insert("kha", b, 2);
    let r = trie.get_top_k_suggestions("k", 5);
    assert_eq!(r, vec![(b, 2), (a, 1)]);
    assert!(trie.get_top_k_suggestions("z", 5).is_empty());
    assert!(trie.check_max_consistency());
}

#[test]
fn trie_top_k_respects_the_bound() {
    let mut trie = Trie::new();
    let a = trie.get_or_create_metadata("क");
    let b = trie.get_or_create_metadata("ख");
    let c = trie.get_or_create_metadata("ग");
    trie.increment_frequency(a);
    trie.increment_frequency(b);
    trie.increment_frequency(c);
    trie.insert("ka", a, 1);
    trie.insert("kha", b, 1);
    trie.insert("ga", c, 1);
    assert!(trie.get_top_k_suggestions("", 2).len() <= 2);
}

#[test]
fn words_get_one_identifier_each() {
    let mut trie = Trie::new();
    let a = trie.get_or_create_metadata("क");
    let again = trie.get_or_create_metadata("क");
    let b = trie.get_or_create_metadata("ख");
    assert_eq!(a, again);
    assert_ne!(a, b);
    assert_eq!(trie.find_word_id_by_devanagari("क"), Some(a));
    assert_eq!(trie.find_word_id_by_devanagari("घ"), None);
}

#[test]
fn variants_are_recorded_once() {
    let mut trie = Trie::new();
    let a = trie.get_or_create_metadata("क");
    assert!(trie.add_variant(a, "ka"));
    assert!(!trie.add_variant(a, "ka"));
    assert!(trie.add_variant(a, "qa"));
    assert_eq!(trie.metadata(a).unwrap().variants.len(), 2);
}

#[test]
fn bigram_boost_is_exact_for_small_counts() {
    // floor(10 * log2(c)) for c = 1, 2, 3.
    for (cycles, expected) in [(1u32, 0u64), (2, 10), (3, 15)] {
        let mut ctx = ContextModel::new(3);
        ctx.add_word(1);
        for _ in 0..cycles {
            ctx.add_word(2);
            ctx.add_word(1);
        }
        assert_eq!(ctx.current_boost(2), expected);
    }
}

#[test]
fn bigram_boost_is_exact_for_large_counts() {
    // floor(10 * log2(4096)) = 120 and floor(10 * log2(8192)) = 130:
    // the formula keeps growing past the twelfth power of two.
    let mut ctx = ContextModel::new(3);
    ctx.add_word(1);
    for cycle in 0..8192u32 {
        ctx.add_word(2);
        ctx.add_word(1);
        if cycle == 4095 {
            assert_eq!(ctx.current_boost(2), 120);
        }
    }
    assert_eq!(ctx.current_boost(2), 130);
}

#[test]
fn learning_ignores_empty_confirmations() {
    let engine = LearningEngine::new();
    let mut trie = Trie::new();
    let mut ctx = ContextModel::new(3);
    let mut ss = SymSpell::new(2);
    let empty_roman = WordConfirmation { roman: String::new(), devanagari: "नमस्ते".to_string() };
    engine.learn(&mut trie, &mut ctx, &mut ss, &empty_roman);
    let empty_dev = WordConfirmation { roman: "namaste".to_string(), devanagari: String::new() };
    engine.learn(&mut trie, &mut ctx, &mut ss, &empty_dev);
    assert_eq!(trie.metadata_len(), 0);
    assert!(ss.lookup("namaste").is_empty());
    let full = WordConfirmation { roman: "namaste".to_string(), devanagari: "नमस्ते".to_string() };
    engine.learn(&mut trie, &mut ctx, &mut ss, &full);
    assert_eq!(trie.metadata_len(), 1);
    assert_eq!(trie.metadata(0).unwrap().frequency, 1);
}

#[test]
fn reinserting_a_key_never_splits_the_path() {
    let mut trie = Trie::new();
    let id = trie.get_or_create_metadata("क");
    trie.increment_frequency(id);
    trie.insert("ka", id, 1);
    let nodes_after_first = trie.nodes.len();
    trie.increment_frequency(id);
    trie.insert("ka", id, 2);
    assert_eq!(trie.nodes.len(), nodes_after_first);
}

#[test]
fn top_k_keeps_the_most_frequent_words() {
    let mut trie = Trie::new();
    for (word, roman, times) in [("क", "ka", 3u32), ("खा", "kha", 2), ("ग", "kg", 1)] {
        let id = trie.get_or_create_metadata(word);
        for _ in 0..times {
            trie.increment_frequency(id);
            trie.insert(roman, id, 0);
        }
    }
    let top = trie.get_top_k_suggestions("k", 2);
    assert_eq!(top.len(), 2);
    assert_eq!(top[0].1, 3);
    assert_eq!(top[1].1, 2);
}
