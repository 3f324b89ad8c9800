use nepali_ime::RomanizationEngine;

#[test]
fn empty_input_gives_empty_output() {
    let engine = RomanizationEngine::new();
    assert_eq!(engine.transliterate_primary(""), "");
    assert!(engine.generate_candidates("").is_empty());
}

#[test]
fn single_vowels() {
    let engine = RomanizationEngine::new();
    assert_eq!(engine.transliterate_primary("a"), "अ");
    assert_eq!(engine.transliterate_primary("aa"), "आ");
    assert_eq!(engine.transliterate_primary("i"), "इ");
    assert_eq!(engine.transliterate_primary("u"), "उ");
}

#[test]
fn consonant_with_inherent_vowel() {
    let engine = RomanizationEngine::new();
    assert_eq!(engine.transliterate_primary("ka"), "क");
    assert_eq!(engine.transliterate_primary("ki"), "कि");
    assert_eq!(engine.transliterate_primary("ku"), "कु");
}

#[test]
fn conjunct_with_rakar() {
    let engine = RomanizationEngine::new();
    assert_eq!(engine.transliterate_primary("kra"), "क्र");
}

#[test]
fn final_schwa_deleted() {
    let engine = RomanizationEngine::new();
    // The trailing consonant loses its virama.
    assert_eq!(engine.transliterate_primary("k"), "क");
    assert_eq!(engine.transliterate_primary("nepal"), "नेपल");
}

#[test]
fn inherent_vowel_stays_inherent_before_a_final_consonant() {
    let engine = RomanizationEngine::new();
    // `a` after a consonant is the inherent vowel with an empty matra,
    // never a diacritic alias, so `ram` is the two bare consonants with
    // schwa deletion; the long spelling `raam` carries the aa matra.
    assert_eq!(engine.transliterate_primary("ram"), "रम");
    assert_eq!(engine.transliterate_primary("raam"), "राम");
    assert_eq!(engine.transliterate_primary("namaste"), "नमस्ते");
}

#[test]
fn long_words() {
    let engine = RomanizationEngine::new();
    assert_eq!(engine.transliterate_primary("malaaii"), "मलाई");
    assert_eq!(engine.transliterate_primary("aamaa"), "आमा");
}

#[test]
fn om_symbol() {
    let engine = RomanizationEngine::new();
    assert_eq!(engine.transliterate_primary("OM"), "ॐ");
}

#[test]
fn unknown_single_byte_passes_through() {
    let engine = RomanizationEngine::new();
    assert_eq!(engine.transliterate_primary("&"), "&");
    assert_eq!(engine.transliterate_primary("%"), "%");
}

#[test]
fn danda_is_the_only_candidate_for_a_period() {
    let engine = RomanizationEngine::new();
    assert_eq!(engine.generate_candidates("."), vec!["।".to_string()]);
}

#[test]
fn candidates_start_with_the_primary() {
    let engine = RomanizationEngine::new();
    let cands = engine.generate_candidates("malai");
    assert_eq!(cands[0], engine.transliterate_primary("malai"));
    assert_eq!(cands[0], "मलै");
    // Splitting the final `ai` gives the long-vowel alternative.
    assert!(cands.contains(&"मलाइ".to_string()));
    // No candidate appears twice.
    for i in 0..cands.len() {
        for j in i + 1..cands.len() {
            assert_ne!(cands[i], cands[j]);
        }
    }
}

#[test]
fn final_a_keeps_its_vowel_in_a_variant() {
    let engine = RomanizationEngine::new();
    let cands = engine.generate_candidates("ma");
    assert_eq!(cands[0], "म");
    // Doubling the medial `a` gives the long-vowel variant.
    assert!(cands.contains(&"मा".to_string()));
}

#[test]
fn digits_map_to_devanagari_digits() {
    let engine = RomanizationEngine::new();
    assert_eq!(engine.transliterate_primary("0"), "०");
    assert_eq!(engine.transliterate_primary("9"), "९");
}

#[test]
fn explicit_virama_symbol_survives_at_the_end() {
    let engine = RomanizationEngine::new();
    // The `_` symbol emits a bare virama and leaves the symbol state, so
    // schwa deletion does not touch it; only a final consonant's own
    // pending virama is dropped.
    assert_eq!(engine.transliterate_primary("k_"), "क\u{094d}");
    assert_eq!(engine.transliterate_primary("k"), "क");
}

#[test]
fn conjuncts_keep_every_inner_virama() {
    let engine = RomanizationEngine::new();
    // Each consonant of a cluster emits its own virama; only the last
    // one is dropped by schwa deletion.
    assert_eq!(engine.transliterate_primary("gyk"), "ग\u{094d}य\u{094d}क");
    assert_eq!(engine.transliterate_primary("kra"), "क्र");
}
