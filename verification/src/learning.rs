use vstd::prelude::*;

use crate::context::bump;
use crate::context::ContextModel;
use crate::symspell::del_set;
use crate::symspell::SymSpell;
use crate::trie::first_dev;
use crate::trie::lemma_first_dev_at;
use crate::trie::lemma_first_dev_inv;
use crate::trie::max_ok_at;
use crate::trie::single_parent;
use crate::trie::terminal_freq;
use crate::trie::Trie;
use crate::types::WordId;
use vstd::utf8::encode_utf8;

verus! {

/// One user confirmation: the Roman spelling typed and the Devanagari
/// word committed.
pub struct WordConfirmation {
    pub roman: String,
    pub devanagari: String,
}

/// Identifier that a confirmation of `dev` resolves to in trie `t0`:
/// the existing entry's index, or the index one past the end for a new
/// word.
pub open spec fn confirmed_id(t0: Trie, dev: Seq<char>) -> int {
    first_dev(t0.metas(), dev)
}

/// Whether `rom` is a spelling of the confirmed word that `t0` has not
/// seen before.
pub open spec fn new_variant(t0: Trie, rom: Seq<char>, dev: Seq<char>) -> bool {
    let id = confirmed_id(t0, dev);
    !(id < t0.metas().len() && exists|j: int|
        0 <= j < t0.metas()[id].variants@.len() && t0.metas()[id].variants@[j]@ == rom)
}

/// Whether the confirmed word had no recorded spelling at all.
pub open spec fn first_spelling(t0: Trie, dev: Seq<char>) -> bool {
    let id = confirmed_id(t0, dev);
    id >= t0.metas().len() || t0.metas()[id].variants@.len() == 0
}

/// What one confirmation of `(rom, dev)` does to the trie and the
/// metadata store: the word's entry is created or updated, its
/// frequency counts one more confirmation, `rom` joins its spellings if
/// new, every other entry is untouched, and the trie maps `rom` to the
/// word.
pub open spec fn learn_post_trie(t0: Trie, t1: Trie, rom: Seq<char>, dev: Seq<char>) -> bool {
    let id = confirmed_id(t0, dev);
    let existing = id < t0.metas().len();
    let old_freq = if existing {
        t0.metas()[id].frequency
    } else {
        0u64
    };
    let old_variants = if existing {
        t0.metas()[id].variants@
    } else {
        Seq::<String>::empty()
    };
    &&& t1.wf()
    &&& t1.metas().len() == if existing {
        t0.metas().len()
    } else {
        t0.metas().len() + 1
    }
    &&& 0 <= id < t1.metas().len()
    &&& t1.metas()[id].devanagari@ == dev
    &&& t1.metas()[id].frequency == bump(old_freq)
    &&& forall|j: int|
        0 <= j < t0.metas().len() && j != id ==> t1.metas()[j] == t0.metas()[j]
    &&& if new_variant(t0, rom, dev) {
        &&& t1.metas()[id].variants@.len() == old_variants.len() + 1
        &&& forall|j: int|
            0 <= j < old_variants.len() ==> t1.metas()[id].variants@[j] == old_variants[j]
        &&& t1.metas()[id].variants@.last()@ == rom
    } else {
        t1.metas()[id].variants@ == old_variants
    }
    &&& t1.lookup_id(encode_utf8(rom)) == Some(id as WordId)
}

/// What one confirmation does to the context model: the confirmed word
/// is appended to the window, evicting the oldest entry over capacity,
/// and the bigram with the previously confirmed word counts once more.
pub open spec fn learn_post_context(
    t0: Trie,
    c0: ContextModel,
    c1: ContextModel,
    dev: Seq<char>,
) -> bool {
    let id = confirmed_id(t0, dev) as WordId;
    &&& c1.wf()
    &&& c1.capacity() == c0.capacity()
    &&& c1.history() == if c0.history().push(id).len() > c0.capacity() {
        c0.history().push(id).skip(1)
    } else {
        c0.history().push(id)
    }
    &&& c1.bigrams() == if c0.history().len() > 0 {
        c0.bigrams().insert(
            (c0.history().last(), id),
            bump(
                if c0.bigrams().dom().contains((c0.history().last(), id)) {
                    c0.bigrams()[(c0.history().last(), id)]
                } else {
                    0u64
                },
            ),
        )
    } else {
        c0.bigrams()
    }
}

/// What one confirmation does to the fuzzy index: a newly seen spelling
/// is indexed under its delete set, a first-ever spelling additionally
/// indexes the Devanagari form, and every other bucket is untouched.
pub open spec fn learn_post_symspell(
    t0: Trie,
    s0: SymSpell,
    s1: SymSpell,
    rom: Seq<char>,
    dev: Seq<char>,
) -> bool {
    let id = confirmed_id(t0, dev) as WordId;
    let d = s0.max_distance() as nat;
    &&& s1.wf()
    &&& s1.max_distance() == s0.max_distance()
    &&& forall|t: Seq<u8>|
        s1.bucket(t) == if new_variant(t0, rom, dev) && (del_set(encode_utf8(rom), d).contains(t)
            || (first_spelling(t0, dev) && del_set(encode_utf8(dev), d).contains(t))) {
            s0.bucket(t).insert(id)
        } else {
            s0.bucket(t)
        }
}

/// When one confirmation keeps the subtree-maximum equation intact
/// everywhere: it held before, every node has one parent, and the
/// confirmed word is either new or terminal nowhere outside the typed
/// spelling's own path. A second spelling of an existing word falls
/// outside this condition: the refresh walks only the new spelling's
/// path and can leave the old path's stored maximum behind.
pub open spec fn learn_keeps_max_ok(t0: Trie, rom: Seq<char>, dev: Seq<char>) -> bool {
    let id = confirmed_id(t0, dev);
    &&& t0.max_ok()
    &&& single_parent(t0.nodes@)
    &&& (id == t0.metas().len() || t0.only_terminal_at(id as WordId, encode_utf8(rom)))
}

/// Applies one confirmation to the learned state, atomically with
/// respect to the single-owner engine.
pub struct LearningEngine {
    pub frequency_increment: u64,
}

impl LearningEngine {
    pub fn new() -> (r: Self)
        ensures
            r.frequency_increment == 1,
    {
        Self { frequency_increment: 1 }
    }

    /// Records one confirmation: creates or bumps the word's metadata,
    /// registers the Roman spelling as a variant, indexes new spellings
    /// in the fuzzy index, inserts the spelling into the trie, and
    /// appends the word to the context window.
    #[verifier::rlimit(100)]
    pub fn learn(
        &self,
        trie: &mut Trie,
        context_model: &mut ContextModel,
        symspell: &mut SymSpell,
        confirmation: &WordConfirmation,
    )
        requires
            old(trie).wf(),
            old(context_model).wf(),
            old(symspell).wf(),
        ensures
            confirmation.roman@.len() == 0 || confirmation.devanagari@.len() == 0 ==> {
                &&& *final(trie) == *old(trie)
                &&& *final(context_model) == *old(context_model)
                &&& *final(symspell) == *old(symspell)
            },
            confirmation.roman@.len() > 0 && confirmation.devanagari@.len() > 0 ==> {
                &&& learn_post_trie(
                    *old(trie),
                    *final(trie),
                    confirmation.roman@,
                    confirmation.devanagari@,
                )
                &&& learn_post_context(
                    *old(trie),
                    *old(context_model),
                    *final(context_model),
                    confirmation.devanagari@,
                )
                &&& learn_post_symspell(
                    *old(trie),
                    *old(symspell),
                    *final(symspell),
                    confirmation.roman@,
                    confirmation.devanagari@,
                )
            },
            learn_keeps_max_ok(*old(trie), confirmation.roman@, confirmation.devanagari@)
                ==> final(trie).max_ok(),
            single_parent(old(trie).nodes@) ==> single_parent(final(trie).nodes@),
            single_parent(old(trie).nodes@) ==> forall|k: Seq<u8>|
                k != encode_utf8(confirmation.roman@) ==> final(trie).lookup_id(k) == old(
                    trie,
                ).lookup_id(k),
    {
        if confirmation.roman.as_str().unicode_len() == 0 || confirmation.devanagari.as_str().unicode_len() == 0 {
            return ;
        }
        let ghost rom = confirmation.roman@;
        let ghost dev = confirmation.devanagari@;
        let ghost t0 = *trie;
        let ghost s0 = *symspell;
        let word_id = trie.get_or_create_metadata(confirmation.devanagari.as_str());
        trie.increment_frequency(word_id);
        let is_new = trie.add_variant(word_id, confirmation.roman.as_str());
        if is_new {
            symspell.add_word(confirmation.roman.as_str(), word_id);
            let first_ever = match trie.metadata(word_id) {
                Some(m) => m.variants.len() == 1,
                None => false,
            };
            if first_ever {
                symspell.add_word(confirmation.devanagari.as_str(), word_id);
                proof {
                    let d = s0.max_distance() as nat;
                    assert forall|t: Seq<u8>| #[trigger]
                        symspell.bucket(t) == if del_set(encode_utf8(rom), d).contains(t) || (
                        del_set(encode_utf8(dev), d).contains(t)) {
                            s0.bucket(t).insert(word_id)
                        } else {
                            s0.bucket(t)
                        } by {
                        if del_set(encode_utf8(rom), d).contains(t) && del_set(
                            encode_utf8(dev),
                            d,
                        ).contains(t) {
                            assert(s0.bucket(t).insert(word_id).insert(word_id) =~= s0.bucket(
                                t,
                            ).insert(word_id));
                        }
                    }
                }
            }
        }
        let updated_freq = match trie.metadata(word_id) {
            Some(m) => m.frequency,
            None => 0,
        };
        proof {
            if learn_keeps_max_ok(t0, rom, dev) {
                assert(trie.nodes@ == t0.nodes@);
                assert(single_parent(trie.nodes@));
                assert(trie.max_ok_except(word_id)) by {
                    assert forall|n: int|
                        0 <= n < trie.nodes@.len() && (#[trigger] trie.nodes@[n]).word_id
                            != Some(word_id) implies max_ok_at(trie.nodes@, trie.metas(), n) by {
                        assert(max_ok_at(t0.nodes@, t0.metas(), n));
                        match trie.nodes@[n].word_id {
                            Some(w) => {
                                assert(t0.nodes@[n].word_id == Some(w));
                                assert(w < t0.metas().len());
                                assert(trie.metas()[w as int].frequency == t0.metas()[
                                    w as int
                                ].frequency);
                            },
                            None => {},
                        }
                        assert(terminal_freq(trie.nodes@, trie.metas(), n) == terminal_freq(
                            t0.nodes@,
                            t0.metas(),
                            n,
                        ));
                    }
                }
                assert(trie.only_terminal_at(word_id, encode_utf8(rom))) by {
                    if word_id == t0.metas().len() {
                        assert forall|n: int| 0 <= n < trie.nodes@.len() implies (
                        #[trigger] trie.nodes@[n]).word_id != Some(word_id) by {
                            if trie.nodes@[n].word_id == Some(word_id) {
                                assert(t0.nodes@[n].word_id == Some(word_id));
                                assert(word_id < t0.metas().len());
                            }
                        }
                    }
                }
            }
        }
        trie.insert(confirmation.roman.as_str(), word_id, updated_freq);
        context_model.add_word(word_id);
        proof {
            assert(word_id == first_dev(t0.metas(), dev));
            let id = confirmed_id(t0, dev);
            assert(is_new == new_variant(t0, rom, dev));
            assert(learn_post_trie(t0, *trie, rom, dev));
            assert(learn_post_context(t0, *old(context_model), *context_model, dev));
            assert(learn_post_symspell(t0, s0, *symspell, rom, dev));
        }
    }
}

/// A word confirmed `k` times in a row, starting from a store that has
/// never seen it, ends with frequency exactly `k`: each confirmation of
/// a chain of states linked by `learn_post_trie` under the same
/// Devanagari form counts one more, whatever Roman spellings were used.
pub proof fn lemma_frequency_counts_confirmations(
    ts: Seq<Trie>,
    roms: Seq<Seq<char>>,
    dev: Seq<char>,
)
    requires
        ts.len() == roms.len() + 1,
        roms.len() <= u64::MAX,
        first_dev(ts[0].metas(), dev) == ts[0].metas().len(),
        forall|i: int|
            0 <= i < roms.len() ==> learn_post_trie(#[trigger] ts[i], ts[i + 1], roms[i], dev),
    ensures
        roms.len() > 0 ==> {
            let id = confirmed_id(ts[0], dev);
            &&& id < ts.last().metas().len()
            &&& first_dev(ts.last().metas(), dev) == id
            &&& ts.last().metas()[id].frequency == roms.len()
        },
    decreases roms.len(),
{
    if roms.len() > 0 {
        let id = confirmed_id(ts[0], dev);
        let prefix_ts = ts.drop_last();
        let prefix_roms = roms.drop_last();
        let k = roms.len() - 1;
        assert forall|i: int|
            0 <= i < prefix_roms.len() implies learn_post_trie(
            #[trigger] prefix_ts[i],
            prefix_ts[i + 1],
            prefix_roms[i],
            dev,
        ) by {
            assert(prefix_ts[i] == ts[i]);
            assert(prefix_ts[i + 1] == ts[i + 1]);
            assert(prefix_roms[i] == roms[i]);
        }
        assert(prefix_ts[0] == ts[0]);
        lemma_frequency_counts_confirmations(prefix_ts, prefix_roms, dev);
        let before = ts[k];
        let after = ts[k + 1];
        assert(before == prefix_ts.last());
        assert(after == ts.last());
        assert(learn_post_trie(before, after, roms[k], dev));
        if k == 0 {
            // The first confirmation creates the entry with one count.
            assert(confirmed_id(before, dev) == id);
            assert(after.metas()[id].frequency == bump(0));
            lemma_first_dev_inv(before.metas(), dev);
            assert forall|j: int| 0 <= j < id implies after.metas()[j].devanagari@ != dev by {
                assert(after.metas()[j] == before.metas()[j]);
            }
            lemma_first_dev_at(after.metas(), dev, id);
        } else {
            // Each later confirmation adds one to the same entry.
            assert(confirmed_id(before, dev) == id);
            assert(before.metas()[id].frequency == k);
            assert(after.metas()[id].frequency == bump(k as u64));
            lemma_first_dev_inv(before.metas(), dev);
            assert forall|j: int| 0 <= j < id implies after.metas()[j].devanagari@ != dev by {
                assert(after.metas()[j] == before.metas()[j]);
            }
            lemma_first_dev_at(after.metas(), dev, id);
        }
    }
}

} // verus!
