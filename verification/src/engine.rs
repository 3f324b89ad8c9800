use vstd::prelude::*;

use crate::context::boost_spec;
use crate::context::sat_add;
use crate::context::ContextModel;
use crate::trie::first_dev;
use crate::trie::lemma_first_dev_at;
use crate::trie::max64;
use crate::converter::spec_candidates;
use crate::converter::spec_primary;
use crate::converter::RomanizationEngine;
use crate::learning::learn_keeps_max_ok;
use crate::learning::learn_post_context;
use crate::learning::learn_post_symspell;
use crate::learning::learn_post_trie;
use crate::learning::LearningEngine;
use crate::learning::WordConfirmation;
use crate::symspell::SymSpell;
use crate::trie::Trie;
use crate::types::WordId;
use vstd::string::StrSliceExecFns;
use vstd::string::StringSliceAdditionalSpecFns;

verus! {

/// Words the context model remembers.
pub const CONTEXT_WINDOW_SIZE: usize = 3;

/// Maximum edit distance of the fuzzy index.
pub const MAX_EDIT_DISTANCE: usize = 2;

/// Score of a heuristic transliteration variant.
pub const LITERAL_BASE_SCORE: u64 = 1;

/// Score of the primary transliteration; above the other variants so it
/// ranks first among rule-based candidates.
pub const PRIMARY_LITERAL_SCORE: u64 = 2;

/// Origin of a suggestion; later variants are higher quality, and on a
/// collision the higher-quality source wins outright.
pub enum SuggestionSource {
    /// A heuristic transliteration variant.
    Literal,
    /// The deterministic primary transliteration.
    PrimaryLiteral,
    /// A fuzzy-index match.
    Fuzzy,
    /// A direct prefix match in the learned dictionary.
    Trie,
}

/// Quality rank of a source; a strictly larger rank always wins.
pub open spec fn spec_src_rank(s: SuggestionSource) -> u8 {
    match s {
        SuggestionSource::Literal => 0,
        SuggestionSource::PrimaryLiteral => 1,
        SuggestionSource::Fuzzy => 2,
        SuggestionSource::Trie => 3,
    }
}

/// Executable form of `spec_src_rank`.
fn src_rank(s: &SuggestionSource) -> (r: u8)
    ensures
        r == spec_src_rank(*s),
{
    match s {
        SuggestionSource::Literal => 0,
        SuggestionSource::PrimaryLiteral => 1,
        SuggestionSource::Fuzzy => 2,
        SuggestionSource::Trie => 3,
    }
}

/// Whether `dev` can appear among the suggestions for `prefix` given the
/// metadata store: it is a learned word's Devanagari form, the primary
/// transliteration, or a heuristic variant.
pub open spec fn suggestion_source_ok(
    dev: Seq<char>,
    metas: Seq<crate::types::WordMetadata>,
    prefix: Seq<char>,
) -> bool {
    ||| exists|id: int| 0 <= id < metas.len() && metas[id].devanagari@ == dev
    ||| dev == spec_primary(prefix)
    ||| spec_candidates(prefix).contains(dev)
}

/// Scores never increase from one suggestion to the next.
pub open spec fn sorted_desc_str(s: Seq<(String, u64)>) -> bool {
    forall|i: int, j: int| 0 <= i < j < s.len() ==> s[i].1 >= s[j].1
}

/// `dev` is among the returned strings, scoring at least `s`.
pub open spec fn appears_with(r: Seq<(String, u64)>, dev: Seq<char>, s: u64) -> bool {
    exists|j: int| 0 <= j < r.len() && r[j].0@ == dev && r[j].1 >= s
}

/// Every returned score is at least `s`.
pub open spec fn all_at_least(r: Seq<(String, u64)>, s: u64) -> bool {
    forall|j: int| 0 <= j < r.len() ==> (#[trigger] r[j]).1 >= s
}

/// Score that a fuzzy-index hit contributes: one below the word's
/// frequency, never negative.
pub open spec fn fuzzy_penalized(f: u64) -> u64 {
    if f >= 1 {
        (f - 1) as u64
    } else {
        0
    }
}

/// `dev` is held by a candidate scoring at least `s`, from a source of
/// at least the given rank.
pub open spec fn cand_at_least(
    cands: Seq<(String, u64, SuggestionSource)>,
    dev: Seq<char>,
    s: u64,
    rank: u8,
) -> bool {
    exists|j: int|
        0 <= j < cands.len() && cands[j].0@ == dev && cands[j].1 >= s && spec_src_rank(
            cands[j].2,
        ) >= rank
}

/// Every trie-ranked candidate scores at least its word's current
/// frequency.
pub open spec fn trie_entries_scored(
    cands: Seq<(String, u64, SuggestionSource)>,
    metas: Seq<crate::types::WordMetadata>,
) -> bool {
    forall|j: int|
        0 <= j < cands.len() && spec_src_rank((#[trigger] cands[j]).2) == 3 ==> exists|id: int|
            0 <= id < metas.len() && metas[id].devanagari@ == cands[j].0@ && cands[j].1
                >= metas[id].frequency
}

/// The highest base score any source can install for string `d` when
/// suggesting for `prefix`: its frequency as a learned word under the
/// prefix, its penalized frequency as a fuzzy hit, the fixed primary
/// score, and the fixed variant score.
pub open spec fn base_cap(e: ImeEngine, prefix: Seq<char>, pfxb: Seq<u8>, d: Seq<char>) -> u64 {
    let metas = e.trie_builder.metas();
    let id = first_dev(metas, d);
    max64(
        max64(
            if id < metas.len() && metas[id].frequency > 0 && e.trie_builder.reachable_under(
                pfxb,
                id as WordId,
            ) {
                metas[id].frequency
            } else {
                0
            },
            if id < metas.len() && e.symspell.lookup_spec(pfxb).contains(id as WordId) {
                fuzzy_penalized(metas[id].frequency)
            } else {
                0
            },
        ),
        max64(
            if d == spec_primary(prefix) {
                PRIMARY_LITERAL_SCORE
            } else {
                0
            },
            if spec_candidates(prefix).contains(d) {
                LITERAL_BASE_SCORE
            } else {
                0
            },
        ),
    )
}

/// The context boost owed to string `d`: the boost of the bigram its
/// word forms with the most recently confirmed word; zero when `d` is
/// not a learned word or there is no bigram evidence.
pub open spec fn boost_cap(e: ImeEngine, d: Seq<char>) -> u64 {
    let metas = e.trie_builder.metas();
    let id = first_dev(metas, d);
    if id < metas.len() && e.context_model.history().len() > 0
        && e.context_model.bigrams().dom().contains(
        (e.context_model.history().last(), id as WordId),
    ) {
        boost_spec(e.context_model.bigrams()[(e.context_model.history().last(), id as WordId)])
    } else {
        0
    }
}

/// No source can put string `d` above its merged, boosted value.
pub open spec fn score_cap(e: ImeEngine, prefix: Seq<char>, pfxb: Seq<u8>, d: Seq<char>) -> u64 {
    sat_add(base_cap(e, prefix, pfxb, d), boost_cap(e, d))
}

/// In a store with pairwise distinct Devanagari forms, a word's entry
/// is the first with its form.
proof fn lemma_first_dev_of_entry(metas: Seq<crate::types::WordMetadata>, id: int)
    requires
        0 <= id < metas.len(),
        forall|i: int, j: int|
            0 <= i < j < metas.len() ==> metas[i].devanagari@ != metas[j].devanagari@,
    ensures
        first_dev(metas, metas[id].devanagari@) == id,
{
    assert forall|j: int| 0 <= j < id implies metas[j].devanagari@ != metas[
        id
    ].devanagari@ by {}
    lemma_first_dev_at(metas, metas[id].devanagari@, id);
}

/// When `m` candidates with pairwise different strings each score at
/// least `f`, a descending order keeps a score of at least `f` at each
/// of its first `m` positions.
proof fn lemma_sorted_prefix_floor(s: Seq<(String, u64)>, devs: Seq<Seq<char>>, f: u64)
    requires
        sorted_desc_str(s),
        forall|a: int, b: int| 0 <= a < b < devs.len() ==> devs[a] != devs[b],
        forall|d: int|
            0 <= d < devs.len() ==> exists|p: int|
                0 <= p < s.len() && (#[trigger] s[p]).0@ == #[trigger] devs[d] && s[p].1 >= f,
    ensures
        s.len() >= devs.len(),
        forall|j: int| 0 <= j < devs.len() ==> (#[trigger] s[j]).1 >= f,
{
    broadcast use vstd::set::group_set_axioms;

    let m = devs.len() as int;
    let ps = Seq::new(
        devs.len(),
        |d: int|
            choose|p: int| 0 <= p < s.len() && (#[trigger] s[p]).0@ == devs[d] && s[p].1 >= f,
    );
    assert forall|d: int| 0 <= d < m implies 0 <= ps[d] < s.len() && s[ps[d]].0@ == devs[d] && s[
        ps[d]
    ].1 >= f by {
        let p = choose|p: int|
            0 <= p < s.len() && (#[trigger] s[p]).0@ == devs[d] && s[p].1 >= f;
        assert(ps[d] == p);
    }
    assert(ps.no_duplicates()) by {
        assert forall|a: int, b: int| 0 <= a < b < m implies ps[a] != ps[b] by {
            if ps[a] == ps[b] {
                assert(devs[a] == s[ps[a]].0@);
                assert(devs[b] == s[ps[b]].0@);
            }
        }
    }
    ps.unique_seq_to_set();
    vstd::set_lib::lemma_int_range(0, s.len() as int);
    assert(ps.to_set().subset_of(vstd::set_lib::set_int_range(0, s.len() as int))) by {
        assert forall|x: int| ps.to_set().contains(x) implies vstd::set_lib::set_int_range(
            0,
            s.len() as int,
        ).contains(x) by {
            let d = choose|d: int| 0 <= d < ps.len() && ps[d] == x;
        }
    }
    vstd::set_lib::lemma_len_subset(
        ps.to_set(),
        vstd::set_lib::set_int_range(0, s.len() as int),
    );
    assert forall|j: int| 0 <= j < m implies (#[trigger] s[j]).1 >= f by {
        if s[j].1 < f {
            assert forall|d: int| 0 <= d < m implies 0 <= #[trigger] ps[d] < j by {
                if ps[d] >= j {
                    assert(s[ps[d]].1 <= s[j].1);
                }
            }
            vstd::set_lib::lemma_int_range(0, j);
            assert(ps.to_set().subset_of(vstd::set_lib::set_int_range(0, j))) by {
                assert forall|x: int| ps.to_set().contains(x) implies vstd::set_lib::set_int_range(
                    0,
                    j,
                ).contains(x) by {
                    let d = choose|d: int| 0 <= d < ps.len() && ps[d] == x;
                }
            }
            vstd::set_lib::lemma_len_subset(ps.to_set(), vstd::set_lib::set_int_range(0, j));
            assert(false);
        }
    }
}

/// The in-process core of the input method: orchestrates the suggestion
/// pipeline over the trie, the fuzzy index, the transducer and the
/// context model, and applies user confirmations to all of them.
pub struct ImeEngine {
    pub trie_builder: Trie,
    pub context_model: ContextModel,
    pub romanizer: RomanizationEngine,
    pub symspell: SymSpell,
    pub learning_engine: LearningEngine,
    pub dictionary_path: Option<String>,
}

impl ImeEngine {
    pub open spec fn wf(&self) -> bool {
        &&& self.trie_builder.wf()
        &&& self.context_model.wf()
        &&& self.symspell.wf()
    }

    pub fn new() -> (r: Self)
        ensures
            r.wf(),
            r.trie_builder.metas() == Seq::<crate::types::WordMetadata>::empty(),
            forall|k: Seq<u8>| r.trie_builder.lookup_id(k) == Option::<WordId>::None,
            r.trie_builder.max_ok(),
            crate::trie::single_parent(r.trie_builder.nodes@),
            r.context_model.history() == Seq::<WordId>::empty(),
            r.context_model.capacity() == CONTEXT_WINDOW_SIZE,
            r.context_model.bigrams() == Map::<(WordId, WordId), u64>::empty(),
            r.symspell.max_distance() == MAX_EDIT_DISTANCE,
            forall|t: Seq<u8>| r.symspell.bucket(t) == Set::<WordId>::empty(),
            r.dictionary_path matches None,
    {
        ImeEngine {
            trie_builder: Trie::new(),
            context_model: ContextModel::new(CONTEXT_WINDOW_SIZE),
            romanizer: RomanizationEngine::new(),
            symspell: SymSpell::new(MAX_EDIT_DISTANCE),
            learning_engine: LearningEngine::new(),
            dictionary_path: None,
        }
    }

    /// Ranked suggestions for a Roman prefix: at most `count` pairs of
    /// Devanagari string and score, scores descending, Devanagari keys
    /// distinct; empty exactly when the prefix is empty or `count` is
    /// zero, and every entry comes from a learned word, the primary
    /// transliteration or a heuristic variant. The primary
    /// transliteration is dropped only by the `count` cut; every learned
    /// word under the prefix is returned with at least its frequency
    /// (under the subtree-maximum equation), and every fuzzy hit with at
    /// least its penalized frequency, unless the result is already full
    /// of scores at least that high; no score exceeds its merged,
    /// boosted value.
    #[verifier::rlimit(100)]
    pub fn get_suggestions(&self, prefix: &str, count: usize) -> (r: Vec<(String, u64)>)
        requires
            self.wf(),
        ensures
            r@.len() <= count,
            sorted_desc_str(r@),
            forall|a: int, b: int|
                0 <= a < b < r@.len() ==> (#[trigger] r@[a]).0@ != (#[trigger] r@[b]).0@,
            prefix@.len() == 0 ==> r@.len() == 0,
            prefix@.len() > 0 && count > 0 ==> r@.len() > 0,
            forall|j: int|
                0 <= j < r@.len() ==> suggestion_source_ok(
                    #[trigger] r@[j].0@,
                    self.trie_builder.metas(),
                    prefix@,
                ),
            prefix@.len() > 0 && r@.len() < count ==> appears_with(r@, spec_primary(prefix@), 0),
            prefix@.len() > 0 && count > 0 && self.trie_builder.metas().len() == 0 ==> r@.len()
                > 0 && r@[0].0@ == spec_primary(prefix@) && r@[0].1 == PRIMARY_LITERAL_SCORE,
            prefix@.len() > 0 && self.trie_builder.max_ok() ==> forall|id: WordId|
                id < self.trie_builder.metas().len() && self.trie_builder.metas()[
                    id as int
                ].frequency > 0 && #[trigger] self.trie_builder.reachable_under(
                    prefix.spec_bytes(),
                    id,
                ) ==> appears_with(
                    r@,
                    self.trie_builder.metas()[id as int].devanagari@,
                    self.trie_builder.metas()[id as int].frequency,
                ) || (r@.len() == count && all_at_least(
                    r@,
                    self.trie_builder.metas()[id as int].frequency,
                )),
            prefix@.len() > 0 ==> forall|id: WordId|
                #[trigger] self.symspell.lookup_spec(prefix.spec_bytes()).contains(id) && id
                    < self.trie_builder.metas().len() ==> appears_with(
                    r@,
                    self.trie_builder.metas()[id as int].devanagari@,
                    fuzzy_penalized(self.trie_builder.metas()[id as int].frequency),
                ) || (r@.len() == count && all_at_least(
                    r@,
                    fuzzy_penalized(self.trie_builder.metas()[id as int].frequency),
                )),
            prefix@.len() > 0 ==> forall|j: int|
                0 <= j < r@.len() ==> (#[trigger] r@[j]).1 <= score_cap(
                    *self,
                    prefix@,
                    prefix.spec_bytes(),
                    r@[j].0@,
                ),
    {
        if prefix.is_empty() {
            return Vec::new();
        }
        let ghost metas = self.trie_builder.metas();
        let ghost p = prefix@;
        let mut cands: Vec<(String, u64, SuggestionSource)> = Vec::new();

        // Trie prefix matches: the highest-quality source.
        let trie_suggestions = self.trie_builder.get_top_k_suggestions(prefix, count);
        let ghost ts = trie_suggestions@;
        let mut i: usize = 0;
        while i < trie_suggestions.len()
            invariant
                self.wf(),
                metas == self.trie_builder.metas(),
                ts == trie_suggestions@,
                i <= ts.len(),
                forall|jj: int|
                    0 <= jj < ts.len() ==> (#[trigger] ts[jj]).0 < metas.len() && ts[jj].1
                        == metas[ts[jj].0 as int].frequency && ts[jj].1 > 0
                        && self.trie_builder.reachable_under(prefix.spec_bytes(), ts[jj].0),
                cands_ok(cands@, metas, p),
                trie_entries_scored(cands@, metas),
                metas.len() == 0 ==> cands@.len() == 0,
                forall|j: int|
                    0 <= j < cands@.len() ==> (#[trigger] cands@[j]).1 <= base_cap(
                        *self,
                        p,
                        prefix.spec_bytes(),
                        cands@[j].0@,
                    ),
                forall|jj: int|
                    0 <= jj < i ==> cand_at_least(
                        cands@,
                        metas[(#[trigger] ts[jj]).0 as int].devanagari@,
                        ts[jj].1,
                        3,
                    ),
            decreases ts.len() - i,
        {
            let (id, score) = trie_suggestions[i];
            let ghost pre = cands@;
            match self.trie_builder.metadata(id) {
                Some(m) => {
                    let dev = m.devanagari.clone();
                    add_candidate(&mut cands, dev, score, SuggestionSource::Trie, Ghost(metas),
                        Ghost(p));
                    proof {
                        let d = metas[id as int].devanagari@;
                        lemma_first_dev_of_entry(metas, id as int);
                        assert(score <= base_cap(*self, p, prefix.spec_bytes(), d));
                        assert forall|j2: int|
                            0 <= j2 < cands@.len() implies (#[trigger] cands@[j2]).1
                            <= base_cap(*self, p, prefix.spec_bytes(), cands@[j2].0@) by {
                            if j2 < pre.len() {
                                if pre[j2].0@ != d {
                                    assert(cands@[j2] == pre[j2]);
                                } else {
                                    assert(cands@[j2].0@ == pre[j2].0@);
                                }
                            } else {
                                assert(cands@[j2].0@ == d && cands@[j2].1 == score);
                            }
                        }
                        assert(cand_at_least(cands@, d, score, 3)) by {
                            if exists|j: int| 0 <= j < pre.len() && (#[trigger] pre[j]).0@ == d {
                                let j = choose|j: int|
                                    0 <= j < pre.len() && (#[trigger] pre[j]).0@ == d;
                                if spec_src_rank(SuggestionSource::Trie) > spec_src_rank(
                                    pre[j].2,
                                ) {
                                    assert(cands@[j].1 == score);
                                    assert(spec_src_rank(cands@[j].2) == 3);
                                } else {
                                    assert(spec_src_rank(pre[j].2) == 3);
                                    assert(cands@[j].1 >= score);
                                    assert(spec_src_rank(cands@[j].2) == 3);
                                }
                            } else {
                                assert(cands@.last().0@ == d && cands@.last().1 == score
                                    && spec_src_rank(cands@.last().2) == 3);
                            }
                        }
                        assert forall|jj: int| 0 <= jj < i + 1 implies cand_at_least(
                            cands@,
                            metas[(#[trigger] ts[jj]).0 as int].devanagari@,
                            ts[jj].1,
                            3,
                        ) by {
                            if jj < i {
                                let d2 = metas[ts[jj].0 as int].devanagari@;
                                let j2 = choose|j2: int|
                                    0 <= j2 < pre.len() && pre[j2].0@ == d2 && pre[j2].1
                                        >= ts[jj].1 && spec_src_rank(pre[j2].2) >= 3;
                                if pre[j2].0@ != d {
                                    assert(cands@[j2] == pre[j2]);
                                } else {
                                    assert(spec_src_rank(pre[j2].2) == 3);
                                    assert(cands@[j2].1 >= pre[j2].1);
                                    assert(spec_src_rank(cands@[j2].2) == 3);
                                }
                            }
                        }
                        assert(trie_entries_scored(cands@, metas)) by {
                            assert forall|j: int|
                                0 <= j < cands@.len() && spec_src_rank(
                                    (#[trigger] cands@[j]).2,
                                ) == 3 implies exists|id2: int|
                                0 <= id2 < metas.len() && metas[id2].devanagari@ == cands@[j].0@
                                    && cands@[j].1 >= metas[id2].frequency by {
                                if j < pre.len() {
                                    if pre[j].0@ != d {
                                        assert(cands@[j] == pre[j]);
                                    } else {
                                        assert(metas[id as int].devanagari@ == cands@[j].0@
                                            && cands@[j].1 >= metas[id as int].frequency);
                                    }
                                } else {
                                    assert(cands@[j].0@ == d && cands@[j].1 == score);
                                }
                            }
                        }
                    }
                },
                None => {
                    proof {
                        assert(false);
                    }
                },
            }
            i += 1;
        }

        // Fuzzy matches, penalized one point below exact prefix matches.
        let fuzzy = self.symspell.lookup(prefix);
        let ghost fz = fuzzy@;
        let mut i: usize = 0;
        while i < fuzzy.len()
            invariant
                self.wf(),
                metas == self.trie_builder.metas(),
                ts == trie_suggestions@,
                fz == fuzzy@,
                i <= fz.len(),
                crate::symspell::ids_set(fz) == self.symspell.lookup_spec(prefix.spec_bytes()),
                cands_ok(cands@, metas, p),
                trie_entries_scored(cands@, metas),
                metas.len() == 0 ==> cands@.len() == 0,
                forall|j: int|
                    0 <= j < cands@.len() ==> (#[trigger] cands@[j]).1 <= base_cap(
                        *self,
                        p,
                        prefix.spec_bytes(),
                        cands@[j].0@,
                    ),
                forall|jj: int|
                    0 <= jj < ts.len() ==> cand_at_least(
                        cands@,
                        metas[(#[trigger] ts[jj]).0 as int].devanagari@,
                        ts[jj].1,
                        3,
                    ),
                forall|jj: int|
                    0 <= jj < i && (#[trigger] fz[jj]) < metas.len() ==> cand_at_least(
                        cands@,
                        metas[fz[jj] as int].devanagari@,
                        fuzzy_penalized(metas[fz[jj] as int].frequency),
                        2,
                    ),
            decreases fz.len() - i,
        {
            let id = fuzzy[i];
            let ghost pre = cands@;
            match self.trie_builder.metadata(id) {
                Some(m) => {
                    let score = if m.frequency >= 1 {
                        m.frequency - 1
                    } else {
                        0
                    };
                    let dev = m.devanagari.clone();
                    add_candidate(&mut cands, dev, score, SuggestionSource::Fuzzy, Ghost(metas),
                        Ghost(p));
                    proof {
                        let d = metas[id as int].devanagari@;
                        assert(score == fuzzy_penalized(metas[id as int].frequency));
                        lemma_first_dev_of_entry(metas, id as int);
                        assert(fz[i as int] == id);
                        assert(fz.contains(id));
                        assert(crate::symspell::ids_set(fz).contains(id));
                        assert(score <= base_cap(*self, p, prefix.spec_bytes(), d));
                        assert forall|j2: int|
                            0 <= j2 < cands@.len() implies (#[trigger] cands@[j2]).1
                            <= base_cap(*self, p, prefix.spec_bytes(), cands@[j2].0@) by {
                            if j2 < pre.len() {
                                if pre[j2].0@ != d {
                                    assert(cands@[j2] == pre[j2]);
                                } else {
                                    assert(cands@[j2].0@ == pre[j2].0@);
                                }
                            } else {
                                assert(cands@[j2].0@ == d && cands@[j2].1 == score);
                            }
                        }
                        assert(cand_at_least(cands@, d, score, 2)) by {
                            if exists|j: int| 0 <= j < pre.len() && (#[trigger] pre[j]).0@ == d {
                                let j = choose|j: int|
                                    0 <= j < pre.len() && (#[trigger] pre[j]).0@ == d;
                                if spec_src_rank(pre[j].2) == 3 {
                                    // A trie entry for the same word
                                    // already scores its frequency.
                                    assert(cands@[j] == pre[j]);
                                    let id2 = choose|id2: int|
                                        0 <= id2 < metas.len() && metas[id2].devanagari@
                                            == pre[j].0@ && pre[j].1 >= metas[id2].frequency;
                                    assert(metas[id2].devanagari@ == metas[
                                        id as int
                                    ].devanagari@);
                                    assert(id2 == id) by {
                                        if id2 != id {
                                            assert(self.trie_builder.wf());
                                        }
                                    }
                                    assert(cands@[j].1 >= metas[id as int].frequency >= score);
                                } else if spec_src_rank(pre[j].2) == 2 {
                                    assert(cands@[j].1 >= score);
                                    assert(spec_src_rank(cands@[j].2) == 2);
                                } else {
                                    assert(cands@[j].1 == score);
                                    assert(spec_src_rank(cands@[j].2) == 2);
                                }
                            } else {
                                assert(cands@.last().0@ == d && cands@.last().1 == score
                                    && spec_src_rank(cands@.last().2) == 2);
                            }
                        }
                        assert forall|jj: int| 0 <= jj < ts.len() implies cand_at_least(
                            cands@,
                            metas[(#[trigger] ts[jj]).0 as int].devanagari@,
                            ts[jj].1,
                            3,
                        ) by {
                            let d2 = metas[ts[jj].0 as int].devanagari@;
                            let j2 = choose|j2: int|
                                0 <= j2 < pre.len() && pre[j2].0@ == d2 && pre[j2].1 >= ts[jj].1
                                    && spec_src_rank(pre[j2].2) >= 3;
                            if pre[j2].0@ != d {
                                assert(cands@[j2] == pre[j2]);
                            } else {
                                assert(cands@[j2] == pre[j2]);
                            }
                        }
                        assert forall|jj: int|
                            0 <= jj < i + 1 && (#[trigger] fz[jj]) < metas.len() implies cand_at_least(
                            cands@,
                            metas[fz[jj] as int].devanagari@,
                            fuzzy_penalized(metas[fz[jj] as int].frequency),
                            2,
                        ) by {
                            if jj < i {
                                let d2 = metas[fz[jj] as int].devanagari@;
                                let j2 = choose|j2: int|
                                    0 <= j2 < pre.len() && pre[j2].0@ == d2 && pre[j2].1
                                        >= fuzzy_penalized(metas[fz[jj] as int].frequency)
                                        && spec_src_rank(pre[j2].2) >= 2;
                                if pre[j2].0@ != d {
                                    assert(cands@[j2] == pre[j2]);
                                } else {
                                    if spec_src_rank(pre[j2].2) > 2 {
                                        assert(cands@[j2] == pre[j2]);
                                    } else {
                                        assert(cands@[j2].1 >= pre[j2].1);
                                        assert(spec_src_rank(cands@[j2].2) >= 2);
                                    }
                                }
                            }
                        }
                        assert(trie_entries_scored(cands@, metas)) by {
                            assert forall|j: int|
                                0 <= j < cands@.len() && spec_src_rank(
                                    (#[trigger] cands@[j]).2,
                                ) == 3 implies exists|id2: int|
                                0 <= id2 < metas.len() && metas[id2].devanagari@ == cands@[j].0@
                                    && cands@[j].1 >= metas[id2].frequency by {
                                if j < pre.len() {
                                    if pre[j].0@ != d {
                                        assert(cands@[j] == pre[j]);
                                    } else {
                                        assert(spec_src_rank(pre[j].2) == 3);
                                        assert(cands@[j] == pre[j]);
                                    }
                                }
                            }
                        }
                    }
                },
                None => {},
            }
            i += 1;
        }

        // The primary transliteration is always a candidate.
        let primary = self.romanizer.transliterate_primary(prefix);
        let ghost pd = primary@;
        let ghost pre_p = cands@;
        add_candidate(
            &mut cands,
            primary,
            PRIMARY_LITERAL_SCORE,
            SuggestionSource::PrimaryLiteral,
            Ghost(metas),
            Ghost(p),
        );
        proof {
            assert(cands@.len() >= 1);
            assert(exists|j: int|
                0 <= j < cands@.len() && (#[trigger] cands@[j]).0@ == spec_primary(p));
            assert(pd == spec_primary(p));
            assert(PRIMARY_LITERAL_SCORE <= base_cap(*self, p, prefix.spec_bytes(), pd));
            assert forall|j2: int|
                0 <= j2 < cands@.len() implies (#[trigger] cands@[j2]).1 <= base_cap(
                *self,
                p,
                prefix.spec_bytes(),
                cands@[j2].0@,
            ) by {
                if j2 < pre_p.len() {
                    if pre_p[j2].0@ != pd {
                        assert(cands@[j2] == pre_p[j2]);
                    } else {
                        assert(cands@[j2].0@ == pre_p[j2].0@);
                    }
                } else {
                    assert(cands@[j2].0@ == pd && cands@[j2].1 == PRIMARY_LITERAL_SCORE);
                }
            }
            if metas.len() == 0 {
                assert(pre_p.len() == 0);
                assert(cands@ == pre_p.push(
                    (cands@.last().0, PRIMARY_LITERAL_SCORE, SuggestionSource::PrimaryLiteral),
                ));
                assert(cands@.len() == 1);
                assert(cands@[0].0@ == spec_primary(p));
                assert(cands@[0].1 == PRIMARY_LITERAL_SCORE);
            }
            assert forall|jj: int| 0 <= jj < ts.len() implies cand_at_least(
                cands@,
                metas[(#[trigger] ts[jj]).0 as int].devanagari@,
                ts[jj].1,
                3,
            ) by {
                let d2 = metas[ts[jj].0 as int].devanagari@;
                let j2 = choose|j2: int|
                    0 <= j2 < pre_p.len() && pre_p[j2].0@ == d2 && pre_p[j2].1 >= ts[jj].1
                        && spec_src_rank(pre_p[j2].2) >= 3;
                assert(cands@[j2] == pre_p[j2]);
            }
            assert forall|jj: int|
                0 <= jj < fz.len() && (#[trigger] fz[jj]) < metas.len() implies cand_at_least(
                cands@,
                metas[fz[jj] as int].devanagari@,
                fuzzy_penalized(metas[fz[jj] as int].frequency),
                2,
            ) by {
                let d2 = metas[fz[jj] as int].devanagari@;
                let j2 = choose|j2: int|
                    0 <= j2 < pre_p.len() && pre_p[j2].0@ == d2 && pre_p[j2].1
                        >= fuzzy_penalized(metas[fz[jj] as int].frequency) && spec_src_rank(
                        pre_p[j2].2,
                    ) >= 2;
                assert(cands@[j2] == pre_p[j2]);
            }
        }

        // Heuristic transliteration variants.
        let lits = self.romanizer.generate_candidates(prefix);
        let mut i: usize = 0;
        while i < lits.len()
            invariant
                self.wf(),
                metas == self.trie_builder.metas(),
                ts == trie_suggestions@,
                fz == fuzzy@,
                i <= lits@.len(),
                lits.deep_view() == spec_candidates(p),
                cands@.len() >= 1,
                cands_ok(cands@, metas, p),
                forall|j: int|
                    0 <= j < cands@.len() ==> (#[trigger] cands@[j]).1 <= base_cap(
                        *self,
                        p,
                        prefix.spec_bytes(),
                        cands@[j].0@,
                    ),
                forall|jj: int|
                    0 <= jj < ts.len() ==> cand_at_least(
                        cands@,
                        metas[(#[trigger] ts[jj]).0 as int].devanagari@,
                        ts[jj].1,
                        3,
                    ),
                forall|jj: int|
                    0 <= jj < fz.len() && (#[trigger] fz[jj]) < metas.len() ==> cand_at_least(
                        cands@,
                        metas[fz[jj] as int].devanagari@,
                        fuzzy_penalized(metas[fz[jj] as int].frequency),
                        2,
                    ),
                exists|j: int|
                    0 <= j < cands@.len() && (#[trigger] cands@[j]).0@ == spec_primary(p),
                metas.len() == 0 ==> forall|j: int|
                    0 <= j < cands@.len() && (#[trigger] cands@[j]).0@ == spec_primary(p)
                        ==> cands@[j].1 == PRIMARY_LITERAL_SCORE,
                metas.len() == 0 ==> forall|j: int|
                    0 <= j < cands@.len() && (#[trigger] cands@[j]).0@ != spec_primary(p)
                        ==> cands@[j].1 <= LITERAL_BASE_SCORE,
            decreases lits@.len() - i,
        {
            let dev = lits[i].clone();
            proof {
                assert(lits.deep_view()[i as int] == lits@[i as int]@);
                assert(spec_candidates(p).contains(lits@[i as int]@));
            }
            let ghost ld = lits@[i as int]@;
            let ghost pre = cands@;
            add_candidate(&mut cands, dev, LITERAL_BASE_SCORE, SuggestionSource::Literal,
                Ghost(metas), Ghost(p));
            proof {
                assert(LITERAL_BASE_SCORE <= base_cap(*self, p, prefix.spec_bytes(), ld));
                assert forall|j2: int|
                    0 <= j2 < cands@.len() implies (#[trigger] cands@[j2]).1 <= base_cap(
                    *self,
                    p,
                    prefix.spec_bytes(),
                    cands@[j2].0@,
                ) by {
                    if j2 < pre.len() {
                        if pre[j2].0@ != ld {
                            assert(cands@[j2] == pre[j2]);
                        } else {
                            assert(cands@[j2].0@ == pre[j2].0@);
                        }
                    } else {
                        assert(cands@[j2].0@ == ld && cands@[j2].1 == LITERAL_BASE_SCORE);
                    }
                }
                assert forall|jj: int| 0 <= jj < ts.len() implies cand_at_least(
                    cands@,
                    metas[(#[trigger] ts[jj]).0 as int].devanagari@,
                    ts[jj].1,
                    3,
                ) by {
                    let d2 = metas[ts[jj].0 as int].devanagari@;
                    let j2 = choose|j2: int|
                        0 <= j2 < pre.len() && pre[j2].0@ == d2 && pre[j2].1 >= ts[jj].1
                            && spec_src_rank(pre[j2].2) >= 3;
                    assert(cands@[j2] == pre[j2]);
                }
                assert forall|jj: int|
                    0 <= jj < fz.len() && (#[trigger] fz[jj]) < metas.len() implies cand_at_least(
                    cands@,
                    metas[fz[jj] as int].devanagari@,
                    fuzzy_penalized(metas[fz[jj] as int].frequency),
                    2,
                ) by {
                    let d2 = metas[fz[jj] as int].devanagari@;
                    let j2 = choose|j2: int|
                        0 <= j2 < pre.len() && pre[j2].0@ == d2 && pre[j2].1
                            >= fuzzy_penalized(metas[fz[jj] as int].frequency)
                            && spec_src_rank(pre[j2].2) >= 2;
                    assert(cands@[j2] == pre[j2]);
                }
                assert(exists|j: int|
                    0 <= j < cands@.len() && (#[trigger] cands@[j]).0@ == spec_primary(p)) by {
                    let j = choose|j: int|
                        0 <= j < pre.len() && (#[trigger] pre[j]).0@ == spec_primary(p);
                    assert(cands@[j].0@ == pre[j].0@);
                }
            }
            i += 1;
        }

        // Context boost for candidates that are learned words; scores
        // only grow, keys and sources stay.
        let ghost pre_boost = cands@;
        let mut i: usize = 0;
        while i < cands.len()
            invariant
                self.wf(),
                metas == self.trie_builder.metas(),
                i <= cands@.len(),
                cands@.len() == pre_boost.len(),
                forall|j: int|
                    0 <= j < cands@.len() ==> (#[trigger] cands@[j]).0 == pre_boost[j].0
                        && cands@[j].2 == pre_boost[j].2 && cands@[j].1 >= pre_boost[j].1,
                metas.len() == 0 ==> cands@ == pre_boost,
                forall|j: int|
                    0 <= j < i && j < cands@.len() ==> (#[trigger] cands@[j]).1 <= score_cap(
                        *self,
                        p,
                        prefix.spec_bytes(),
                        cands@[j].0@,
                    ),
                forall|j: int|
                    i <= j < cands@.len() ==> (#[trigger] cands@[j]).1 <= base_cap(
                        *self,
                        p,
                        prefix.spec_bytes(),
                        cands@[j].0@,
                    ),
            decreases cands@.len() - i,
        {
            match self.trie_builder.find_word_id_by_devanagari(cands[i].0.as_str()) {
                Some(id) => {
                    let b = self.context_model.current_boost(id);
                    let s = cands[i].1;
                    let ns = if s <= u64::MAX - b {
                        s + b
                    } else {
                        u64::MAX
                    };
                    let ghost prev = cands@;
                    let e = &mut cands[i];
                    e.1 = ns;
                    proof {
                        assert forall|j: int|
                            0 <= j < cands@.len() implies (#[trigger] cands@[j]).0
                            == pre_boost[j].0 && cands@[j].2 == pre_boost[j].2 && cands@[j].1
                            >= pre_boost[j].1 by {
                            if j != i {
                                assert(cands@[j] == prev[j]);
                            }
                        }
                        // The boost read is exactly the form's boost cap,
                        // so the raised score stays under the score cap.
                        let d0 = prev[i as int].0@;
                        lemma_first_dev_at(metas, d0, id as int);
                        assert(b == boost_cap(*self, d0));
                        assert(s <= base_cap(*self, p, prefix.spec_bytes(), d0));
                        assert(ns <= score_cap(*self, p, prefix.spec_bytes(), d0));
                        assert(cands@[i as int].0@ == d0 && cands@[i as int].1 == ns);
                        assert forall|j: int|
                            0 <= j < i + 1 && j < cands@.len() implies (
                        #[trigger] cands@[j]).1 <= score_cap(
                            *self,
                            p,
                            prefix.spec_bytes(),
                            cands@[j].0@,
                        ) by {
                            if j < i {
                                assert(cands@[j] == prev[j]);
                            }
                        }
                    }
                },
                None => {
                    proof {
                        // No learned word has this form, so its boost
                        // cap is zero and the score cap is the base cap.
                        let d0 = cands@[i as int].0@;
                        lemma_first_dev_at(metas, d0, metas.len() as int);
                        assert(boost_cap(*self, d0) == 0);
                        assert(cands@[i as int].1 <= base_cap(
                            *self,
                            p,
                            prefix.spec_bytes(),
                            d0,
                        ));
                        assert(cands@[i as int].1 <= score_cap(
                            *self,
                            p,
                            prefix.spec_bytes(),
                            d0,
                        ));
                    }
                },
            }
            i += 1;
        }
        proof {
            assert(cands_ok(cands@, metas, p)) by {
                assert forall|a: int, b: int|
                    0 <= a < b < cands@.len() implies cands@[a].0@ != cands@[b].0@ by {
                    assert(cands@[a].0 == pre_boost[a].0);
                    assert(cands@[b].0 == pre_boost[b].0);
                }
                assert forall|j: int|
                    0 <= j < cands@.len() implies suggestion_source_ok(
                    #[trigger] cands@[j].0@,
                    metas,
                    p,
                ) by {
                    assert(cands@[j].0 == pre_boost[j].0);
                }
            }
            assert forall|jj: int| 0 <= jj < ts.len() implies cand_at_least(
                cands@,
                metas[(#[trigger] ts[jj]).0 as int].devanagari@,
                ts[jj].1,
                3,
            ) by {
                let d2 = metas[ts[jj].0 as int].devanagari@;
                let j2 = choose|j2: int|
                    0 <= j2 < pre_boost.len() && pre_boost[j2].0@ == d2 && pre_boost[j2].1
                        >= ts[jj].1 && spec_src_rank(pre_boost[j2].2) >= 3;
                assert(cands@[j2].0 == pre_boost[j2].0 && cands@[j2].1 >= pre_boost[j2].1
                    && cands@[j2].2 == pre_boost[j2].2);
            }
            assert forall|jj: int|
                0 <= jj < fz.len() && (#[trigger] fz[jj]) < metas.len() implies cand_at_least(
                cands@,
                metas[fz[jj] as int].devanagari@,
                fuzzy_penalized(metas[fz[jj] as int].frequency),
                2,
            ) by {
                let d2 = metas[fz[jj] as int].devanagari@;
                let j2 = choose|j2: int|
                    0 <= j2 < pre_boost.len() && pre_boost[j2].0@ == d2 && pre_boost[j2].1
                        >= fuzzy_penalized(metas[fz[jj] as int].frequency) && spec_src_rank(
                        pre_boost[j2].2,
                    ) >= 2;
                assert(cands@[j2].0 == pre_boost[j2].0 && cands@[j2].1 >= pre_boost[j2].1
                    && cands@[j2].2 == pre_boost[j2].2);
            }
            assert(exists|j: int|
                0 <= j < cands@.len() && (#[trigger] cands@[j]).0@ == spec_primary(p)) by {
                let j = choose|j: int|
                    0 <= j < pre_boost.len() && (#[trigger] pre_boost[j]).0@ == spec_primary(p);
                assert(cands@[j].0 == pre_boost[j].0);
            }
        }

        // Final projection, descending sort and truncation.
        let mut r: Vec<(String, u64)> = Vec::new();
        let mut i: usize = 0;
        while i < cands.len()
            invariant
                i <= cands@.len(),
                r@.len() == i,
                forall|j: int|
                    0 <= j < i ==> (#[trigger] r@[j]).0@ == cands@[j].0@ && r@[j].1
                        == cands@[j].1,
            decreases cands@.len() - i,
        {
            let s = cands[i].0.clone();
            let sc = cands[i].1;
            r.push((s, sc));
            i += 1;
        }
        let ghost flat = r@;
        proof {
            assert(flat.len() == cands@.len());
            assert(flat.len() >= 1);
            assert forall|a: int, b: int| 0 <= a < b < flat.len() implies (
            #[trigger] flat[a]).0@ != (#[trigger] flat[b]).0@ by {
                assert(flat[a].0@ == cands@[a].0@);
                assert(flat[b].0@ == cands@[b].0@);
            }
        }
        let ghost pre_sort = r@;
        sort_str_pairs_desc(&mut r);
        let ghost sorted = r@;
        proof {
            broadcast use vstd::seq_lib::group_to_multiset_ensures;

            assert(sorted.len() == sorted.to_multiset().len());
            assert(pre_sort.len() == pre_sort.to_multiset().len());
            assert forall|j: int|
                0 <= j < sorted.len() implies suggestion_source_ok(
                #[trigger] sorted[j].0@,
                metas,
                p,
            ) by {
                assert(sorted.contains(sorted[j]));
                assert(sorted.to_multiset().count(sorted[j]) > 0);
                assert(pre_sort.to_multiset().count(sorted[j]) > 0);
                assert(pre_sort.contains(sorted[j]));
                let jj = choose|jj: int| 0 <= jj < pre_sort.len() && pre_sort[jj] == sorted[j];
                assert(pre_sort[jj].0@ == cands@[jj].0@);
            }
            // Distinct keys survive the permutation.
            pre_sort.lemma_multiset_has_no_duplicates();
            sorted.lemma_multiset_has_no_duplicates_conv();
            assert forall|a: int, b: int| 0 <= a < b < sorted.len() implies (
            #[trigger] sorted[a]).0@ != (#[trigger] sorted[b]).0@ by {
                if sorted[a].0@ == sorted[b].0@ {
                    assert(sorted[a] != sorted[b]);
                    assert(pre_sort.contains(sorted[a])) by {
                        assert(sorted.contains(sorted[a]));
                        assert(sorted.to_multiset().count(sorted[a]) > 0);
                        assert(pre_sort.to_multiset().count(sorted[a]) > 0);
                    }
                    assert(pre_sort.contains(sorted[b])) by {
                        assert(sorted.contains(sorted[b]));
                        assert(sorted.to_multiset().count(sorted[b]) > 0);
                        assert(pre_sort.to_multiset().count(sorted[b]) > 0);
                    }
                    let ja = choose|ja: int|
                        0 <= ja < pre_sort.len() && pre_sort[ja] == sorted[a];
                    let jb = choose|jb: int|
                        0 <= jb < pre_sort.len() && pre_sort[jb] == sorted[b];
                    assert(ja != jb);
                    assert(pre_sort[ja].0@ != pre_sort[jb].0@);
                    assert(false);
                }
            }
            // Score caps survive the permutation: each sorted pair is
            // one of the projected pairs.
            assert forall|j: int|
                0 <= j < sorted.len() implies (#[trigger] sorted[j]).1 <= score_cap(
                *self,
                p,
                prefix.spec_bytes(),
                sorted[j].0@,
            ) by {
                assert(sorted.contains(sorted[j]));
                assert(sorted.to_multiset().count(sorted[j]) > 0);
                assert(pre_sort.to_multiset().count(sorted[j]) > 0);
                assert(pre_sort.contains(sorted[j]));
                let jj = choose|jj: int| 0 <= jj < pre_sort.len() && pre_sort[jj] == sorted[j];
                assert(pre_sort[jj].0@ == cands@[jj].0@ && pre_sort[jj].1 == cands@[jj].1);
            }
            // Tracked entries survive the permutation.
            assert forall|d: Seq<char>, s: u64|
                #[trigger] appears_with(pre_sort, d, s) implies appears_with(sorted, d, s) by {
                let j = choose|j: int|
                    0 <= j < pre_sort.len() && pre_sort[j].0@ == d && pre_sort[j].1 >= s;
                assert(pre_sort.contains(pre_sort[j]));
                assert(pre_sort.to_multiset().count(pre_sort[j]) > 0);
                assert(sorted.to_multiset().count(pre_sort[j]) > 0);
                assert(sorted.contains(pre_sort[j]));
                let j2 = choose|j2: int| 0 <= j2 < sorted.len() && sorted[j2] == pre_sort[j];
            }
        }
        r.truncate(count);
        proof {
            assert(sorted_desc_str(r@));
            assert forall|j: int|
                0 <= j < r@.len() implies (#[trigger] r@[j]).1 <= score_cap(
                *self,
                prefix@,
                prefix.spec_bytes(),
                r@[j].0@,
            ) by {
                assert(r@[j] == sorted[j]);
                assert(p == prefix@);
            }
            assert(r@ == if count <= sorted.len() {
                sorted.take(count as int)
            } else {
                sorted
            });
            // The primary transliteration is dropped only by the cut.
            if r@.len() < count {
                assert(r@ == sorted);
                assert(appears_with(pre_sort, spec_primary(p), 0)) by {
                    let j = choose|j: int|
                        0 <= j < cands@.len() && (#[trigger] cands@[j]).0@ == spec_primary(p);
                    assert(flat[j].0@ == spec_primary(p));
                }
                assert(appears_with(r@, spec_primary(p), 0));
            }
            // A fresh store leaves the primary transliteration alone at
            // the top, at its fixed score.
            if metas.len() == 0 && count > 0 {
                let j = choose|j: int|
                    0 <= j < cands@.len() && (#[trigger] cands@[j]).0@ == spec_primary(p);
                assert(cands@[j].1 == PRIMARY_LITERAL_SCORE);
                assert(flat[j].0@ == spec_primary(p) && flat[j].1 == PRIMARY_LITERAL_SCORE);
                assert(appears_with(pre_sort, spec_primary(p), PRIMARY_LITERAL_SCORE));
                assert(appears_with(sorted, spec_primary(p), PRIMARY_LITERAL_SCORE));
                let pos = choose|pos: int|
                    0 <= pos < sorted.len() && sorted[pos].0@ == spec_primary(p)
                        && sorted[pos].1 >= PRIMARY_LITERAL_SCORE;
                assert(sorted[0].1 >= sorted[pos].1);
                assert(sorted.contains(sorted[0]));
                assert(sorted.to_multiset().count(sorted[0]) > 0);
                assert(pre_sort.to_multiset().count(sorted[0]) > 0);
                assert(pre_sort.contains(sorted[0]));
                let jj0 = choose|jj0: int|
                    0 <= jj0 < pre_sort.len() && pre_sort[jj0] == sorted[0];
                assert(pre_sort[jj0].0@ == cands@[jj0].0@ && pre_sort[jj0].1 == cands@[jj0].1);
                if cands@[jj0].0@ != spec_primary(p) {
                    assert(cands@[jj0].1 <= LITERAL_BASE_SCORE);
                    assert(false);
                }
                assert(sorted[0].0@ == spec_primary(p));
                assert(sorted[0].1 == PRIMARY_LITERAL_SCORE);
                assert(r@.len() > 0);
                assert(r@[0] == sorted[0]);
            }
            // Completeness for learned words under the prefix.
            if self.trie_builder.max_ok() {
                assert forall|id: WordId|
                    id < metas.len() && metas[id as int].frequency > 0
                        && #[trigger] self.trie_builder.reachable_under(
                        prefix.spec_bytes(),
                        id,
                    ) implies appears_with(
                    r@,
                    metas[id as int].devanagari@,
                    metas[id as int].frequency,
                ) || (r@.len() == count && all_at_least(r@, metas[id as int].frequency)) by {
                    let f = metas[id as int].frequency;
                    let d = metas[id as int].devanagari@;
                    assert(self.trie_builder.covered(ts, count as int, id));
                    if crate::trie::in_pairs(ts, id) {
                        let jj = choose|jj: int| 0 <= jj < ts.len() && ts[jj].0 == id;
                        assert(cand_at_least(cands@, d, ts[jj].1, 3));
                        assert(appears_with(pre_sort, d, f)) by {
                            let j2 = choose|j2: int|
                                0 <= j2 < cands@.len() && cands@[j2].0@ == d && cands@[j2].1
                                    >= ts[jj].1 && spec_src_rank(cands@[j2].2) >= 3;
                            assert(flat[j2].0@ == d && flat[j2].1 >= f);
                        }
                        assert(appears_with(sorted, d, f));
                        let pos = choose|pos: int|
                            0 <= pos < sorted.len() && sorted[pos].0@ == d && sorted[pos].1
                                >= f;
                        if pos < count {
                            assert(r@[pos] == sorted[pos]);
                            assert(appears_with(r@, d, f));
                        } else {
                            assert(r@.len() == count);
                            assert forall|j3: int| 0 <= j3 < r@.len() implies (
                            #[trigger] r@[j3]).1 >= f by {
                                assert(r@[j3] == sorted[j3]);
                                assert(sorted[j3].1 >= sorted[pos].1);
                            }
                        }
                    } else {
                        // The word was cut by the top-k search: the
                        // returned words all score at least as much, and
                        // they fill the result.
                        assert(ts.len() == count);
                        assert(crate::trie::below_all(f, ts));
                        let devs = Seq::new(ts.len(), |jj: int| metas[ts[jj].0 as int].devanagari@);
                        assert forall|a: int, b: int|
                            0 <= a < b < devs.len() implies devs[a] != devs[b] by {
                            assert(ts[a].0 != ts[b].0);
                            assert(ts[a].0 < metas.len() && ts[b].0 < metas.len());
                        }
                        assert forall|dd: int| 0 <= dd < devs.len() implies exists|pos: int|
                            0 <= pos < sorted.len() && (#[trigger] sorted[pos]).0@
                                == #[trigger] devs[dd] && sorted[pos].1 >= f by {
                            assert(cand_at_least(cands@, devs[dd], ts[dd].1, 3));
                            assert(ts[dd].1 >= f);
                            assert(appears_with(pre_sort, devs[dd], f)) by {
                                let j2 = choose|j2: int|
                                    0 <= j2 < cands@.len() && cands@[j2].0@ == devs[dd]
                                        && cands@[j2].1 >= ts[dd].1 && spec_src_rank(
                                        cands@[j2].2,
                                    ) >= 3;
                                assert(flat[j2].0@ == devs[dd] && flat[j2].1 >= f);
                            }
                            assert(appears_with(sorted, devs[dd], f));
                            let pos = choose|pos: int|
                                0 <= pos < sorted.len() && sorted[pos].0@ == devs[dd]
                                    && sorted[pos].1 >= f;
                            assert(0 <= pos < sorted.len() && sorted[pos].0@ == devs[dd]
                                && sorted[pos].1 >= f);
                        }
                        lemma_sorted_prefix_floor(sorted, devs, f);
                        assert(sorted.len() >= count);
                        assert(r@.len() == count);
                        assert forall|j3: int| 0 <= j3 < r@.len() implies (
                        #[trigger] r@[j3]).1 >= f by {
                            assert(r@[j3] == sorted[j3]);
                        }
                    }
                }
            }
            // Completeness for fuzzy hits.
            assert forall|id: WordId|
                #[trigger] self.symspell.lookup_spec(prefix.spec_bytes()).contains(id) && id
                    < metas.len() implies appears_with(
                r@,
                metas[id as int].devanagari@,
                fuzzy_penalized(metas[id as int].frequency),
            ) || (r@.len() == count && all_at_least(
                r@,
                fuzzy_penalized(metas[id as int].frequency),
            )) by {
                let f = fuzzy_penalized(metas[id as int].frequency);
                let d = metas[id as int].devanagari@;
                assert(crate::symspell::ids_set(fz).contains(id));
                let jj = choose|jj: int| 0 <= jj < fz.len() && fz[jj] == id;
                assert(cand_at_least(cands@, d, f, 2));
                assert(appears_with(pre_sort, d, f)) by {
                    let j2 = choose|j2: int|
                        0 <= j2 < cands@.len() && cands@[j2].0@ == d && cands@[j2].1 >= f
                            && spec_src_rank(cands@[j2].2) >= 2;
                    assert(flat[j2].0@ == d && flat[j2].1 >= f);
                }
                assert(appears_with(sorted, d, f));
                let pos = choose|pos: int|
                    0 <= pos < sorted.len() && sorted[pos].0@ == d && sorted[pos].1 >= f;
                if pos < count {
                    assert(r@[pos] == sorted[pos]);
                    assert(appears_with(r@, d, f));
                } else {
                    assert(r@.len() == count);
                    assert forall|j3: int| 0 <= j3 < r@.len() implies (#[trigger] r@[j3]).1
                        >= f by {
                        assert(r@[j3] == sorted[j3]);
                        assert(sorted[j3].1 >= sorted[pos].1);
                    }
                }
            }
        }
        r
    }

    /// Applies one confirmation to the learned state; empty arguments
    /// are ignored and leave the engine unchanged.
    pub fn user_confirms(&mut self, roman: &str, devanagari: &str)
        requires
            old(self).wf(),
        ensures
            final(self).wf(),
            final(self).dictionary_path == old(self).dictionary_path,
            roman@.len() == 0 || devanagari@.len() == 0 ==> *final(self) == *old(self),
            roman@.len() > 0 && devanagari@.len() > 0 ==> {
                &&& learn_post_trie(
                    old(self).trie_builder,
                    final(self).trie_builder,
                    roman@,
                    devanagari@,
                )
                &&& learn_post_context(
                    old(self).trie_builder,
                    old(self).context_model,
                    final(self).context_model,
                    devanagari@,
                )
                &&& learn_post_symspell(
                    old(self).trie_builder,
                    old(self).symspell,
                    final(self).symspell,
                    roman@,
                    devanagari@,
                )
                &&& (learn_keeps_max_ok(old(self).trie_builder, roman@, devanagari@)
                    ==> final(self).trie_builder.max_ok())
                &&& (crate::trie::single_parent(old(self).trie_builder.nodes@)
                    ==> crate::trie::single_parent(final(self).trie_builder.nodes@))
                &&& (crate::trie::single_parent(old(self).trie_builder.nodes@)
                    ==> forall|k: Seq<u8>|
                    k != vstd::utf8::encode_utf8(roman@) ==> final(self).trie_builder.lookup_id(
                        k,
                    ) == old(self).trie_builder.lookup_id(k))
            },
    {
        if roman.is_empty() || devanagari.is_empty() {
            return ;
        }
        let confirmation = WordConfirmation {
            roman: roman.to_owned(),
            devanagari: devanagari.to_owned(),
        };
        self.learning_engine.learn(
            &mut self.trie_builder,
            &mut self.context_model,
            &mut self.symspell,
            &confirmation,
        );
    }
}

/// The candidate keys are distinct and each comes from an allowed
/// source.
pub open spec fn cands_ok(
    cands: Seq<(String, u64, SuggestionSource)>,
    metas: Seq<crate::types::WordMetadata>,
    prefix: Seq<char>,
) -> bool {
    &&& forall|a: int, b: int| 0 <= a < b < cands.len() ==> cands[a].0@ != cands[b].0@
    &&& forall|j: int|
        0 <= j < cands.len() ==> suggestion_source_ok(#[trigger] cands[j].0@, metas, prefix)
}

/// Merges one candidate: a new key is appended; on a collision a
/// higher-quality source replaces score and source outright, within
/// the same source a larger score wins, and a lower-quality source
/// changes nothing.
fn add_candidate(
    cands: &mut Vec<(String, u64, SuggestionSource)>,
    dev: String,
    score: u64,
    src: SuggestionSource,
    Ghost(metas): Ghost<Seq<crate::types::WordMetadata>>,
    Ghost(prefix): Ghost<Seq<char>>,
)
    requires
        cands_ok(old(cands)@, metas, prefix),
        suggestion_source_ok(dev@, metas, prefix),
    ensures
        cands_ok(final(cands)@, metas, prefix),
        old(cands)@.len() <= final(cands)@.len() <= old(cands)@.len() + 1,
        final(cands)@.len() >= 1,
        exists|j: int| 0 <= j < final(cands)@.len() && (#[trigger] final(cands)@[j].0)@ == dev@,
        forall|j: int|
            0 <= j < old(cands)@.len() ==> (#[trigger] final(cands)@[j]).0@ == old(cands)@[j].0@,
        forall|j: int|
            0 <= j < old(cands)@.len() && (#[trigger] old(cands)@[j]).0@ != dev@
                ==> final(cands)@[j] == old(cands)@[j],
        forall|j: int|
            0 <= j < old(cands)@.len() && (#[trigger] old(cands)@[j]).0@ == dev@ ==> {
                &&& final(cands)@.len() == old(cands)@.len()
                &&& final(cands)@[j].0 == old(cands)@[j].0
                &&& if spec_src_rank(src) > spec_src_rank(old(cands)@[j].2) {
                    final(cands)@[j].1 == score && final(cands)@[j].2 == src
                } else if spec_src_rank(src) == spec_src_rank(old(cands)@[j].2) {
                    final(cands)@[j].1 == crate::trie::max64(old(cands)@[j].1, score)
                        && final(cands)@[j].2 == old(cands)@[j].2
                } else {
                    final(cands)@[j] == old(cands)@[j]
                }
            },
        (forall|j: int| 0 <= j < old(cands)@.len() ==> (#[trigger] old(cands)@[j]).0@ != dev@)
            ==> final(cands)@ == old(cands)@.push((dev, score, src)),
{
    match find_candidate(cands, &dev) {
        Some(i) => {
            let ghost pre = cands@;
            let new_rank = src_rank(&src);
            let old_rank = src_rank(&cands[i].2);
            if new_rank > old_rank {
                let e = &mut cands[i];
                e.1 = score;
                e.2 = src;
            } else if new_rank == old_rank {
                if score > cands[i].1 {
                    let e = &mut cands[i];
                    e.1 = score;
                }
            }
            proof {
                assert(cands@.len() == pre.len());
                assert(forall|j: int| 0 <= j < cands@.len() ==> cands@[j].0 == pre[j].0);
                assert(cands@[i as int].0@ == dev@);
                assert forall|j: int|
                    0 <= j < pre.len() && (#[trigger] pre[j]).0@ == dev@ implies j == i by {
                    if j != i {
                        assert(pre[i as int].0@ == dev@);
                    }
                }
                assert forall|a: int, b: int|
                    0 <= a < b < cands@.len() implies cands@[a].0@ != cands@[b].0@ by {
                    assert(cands@[a].0 == pre[a].0);
                    assert(cands@[b].0 == pre[b].0);
                }
                assert forall|j: int|
                    0 <= j < cands@.len() implies suggestion_source_ok(
                    #[trigger] cands@[j].0@,
                    metas,
                    prefix,
                ) by {
                    assert(cands@[j].0 == pre[j].0);
                }
            }
        },
        None => {
            let ghost pre = cands@;
            cands.push((dev, score, src));
            proof {
                assert(cands@ =~= pre.push((dev, score, src)));
                assert(cands@.last().0@ == dev@);
                assert forall|a: int, b: int|
                    0 <= a < b < cands@.len() implies cands@[a].0@ != cands@[b].0@ by {
                    if b < pre.len() {
                        assert(cands@[a] == pre[a]);
                        assert(cands@[b] == pre[b]);
                    } else {
                        assert(cands@[a] == pre[a]);
                        assert(pre[a].0@ != dev@);
                    }
                }
            }
        },
    }
}

/// Index of the candidate whose Devanagari equals `dev`, if any.
fn find_candidate(cands: &Vec<(String, u64, SuggestionSource)>, dev: &String) -> (r: Option<
    usize,
>)
    ensures
        match r {
            Some(i) => i < cands@.len() && cands@[i as int].0@ == dev@,
            None => forall|j: int| 0 <= j < cands@.len() ==> cands@[j].0@ != dev@,
        },
{
    let mut i: usize = 0;
    while i < cands.len()
        invariant
            i <= cands@.len(),
            forall|j: int| 0 <= j < i ==> cands@[j].0@ != dev@,
        decreases cands@.len() - i,
    {
        if cands[i].0.eq(dev) {
            return Some(i);
        }
        i += 1;
    }
    None
}

/// Orders the suggestions by descending score; keeps exactly the same
/// pairs.
fn sort_str_pairs_desc(v: &mut Vec<(String, u64)>)
    ensures
        sorted_desc_str(final(v)@),
        final(v)@.to_multiset() == old(v)@.to_multiset(),
        final(v)@.len() == old(v)@.len(),
{
    broadcast use vstd::seq_lib::group_to_multiset_ensures;

    let ghost orig = v@;
    let mut out: Vec<(String, u64)> = Vec::new();
    while v.len() > 0
        invariant
            sorted_desc_str(out@),
            out@.to_multiset().add(v@.to_multiset()) == orig.to_multiset(),
            forall|i: int, j: int|
                0 <= i < out@.len() && 0 <= j < v@.len() ==> out@[i].1 >= v@[j].1,
        decreases v@.len(),
    {
        let mut best: usize = 0;
        let mut k: usize = 1;
        while k < v.len()
            invariant
                best < k <= v@.len(),
                v@.len() > 0,
                forall|j: int| 0 <= j < k ==> v@[best as int].1 >= v@[j].1,
            decreases v@.len() - k,
        {
            if v[k].1 > v[best].1 {
                best = k;
            }
            k += 1;
        }
        let ghost v_before = v@;
        let picked = v.remove(best);
        let ghost out_before = out@;
        out.push(picked);
        proof {
            broadcast use vstd::multiset::group_multiset_axioms;

            assert(v@ == v_before.remove(best as int));
            vstd::seq_lib::to_multiset_remove(v_before, best as int);
            assert(out@ == out_before.push(picked));
            vstd::seq_lib::to_multiset_build(out_before, picked);
            vstd::seq_lib::to_multiset_contains(v_before, picked);
            assert(v_before.contains(picked));
            assert(v_before.to_multiset().count(picked) >= 1);
            assert(out@.to_multiset().add(v@.to_multiset()) =~= out_before.to_multiset().add(
                v_before.to_multiset(),
            ));
        }
    }
    proof {
        assert(v@.to_multiset() =~= vstd::multiset::Multiset::<(String, u64)>::empty());
        assert(out@.to_multiset() =~= orig.to_multiset());
        assert(out@.len() == out@.to_multiset().len());
        assert(orig.len() == orig.to_multiset().len());
    }
    *v = out;
}


/// What the host should do after a key event; the library decides, the
/// host performs the action.
pub enum KeyAction {
    /// Deliver this text to the application and refresh the display.
    CommitText(String),
    /// Deliver a single space to the application.
    CommitSpace,
    /// The preedit changed; refresh the display.
    Refresh,
    /// Nothing to do.
    Ignore,
}

/// The character a printable key inserts: ASCII letters lowercased,
/// everything else verbatim.
pub open spec fn lower_key_char(key_val: u32) -> char {
    if 65 <= key_val <= 90 {
        ((key_val + 32) as u8) as char
    } else {
        (key_val as u8) as char
    }
}

/// Every learnable component equals a fresh engine's: nothing learned,
/// nothing indexed, nothing remembered.
pub open spec fn fresh_components(r: ImeEngine) -> bool {
    &&& r.trie_builder.metas() == Seq::<crate::types::WordMetadata>::empty()
    &&& forall|k: Seq<u8>| r.trie_builder.lookup_id(k) == Option::<WordId>::None
    &&& r.context_model.history() == Seq::<WordId>::empty()
    &&& r.context_model.capacity() == CONTEXT_WINDOW_SIZE
    &&& r.context_model.bigrams() == Map::<(WordId, WordId), u64>::empty()
    &&& r.symspell.max_distance() == MAX_EDIT_DISTANCE
    &&& forall|t: Seq<u8>| r.symspell.bucket(t) == Set::<WordId>::empty()
}

impl ImeEngine {
    /// Rebuilds an engine from an optional snapshot, remembering `path`
    /// for later saves; an absent or rejected snapshot falls back to a
    /// fresh engine.
    pub fn from_snapshot_or_new(data: Option<&Vec<u8>>, path: &str) -> (r: Self)
        ensures
            r.wf(),
            r.dictionary_path matches Some(p) && p@ == path@,
            match data {
                Some(bytes) => match crate::codec::spec_decode_state(bytes@) {
                    Some(v) => crate::codec::state_v(r) == v,
                    None => fresh_components(r),
                },
                None => fresh_components(r),
            },
    {
        let mut e = match data {
            Some(bytes) => match crate::codec::decode_state(bytes) {
                Ok(e) => e,
                Err(_) => ImeEngine::new(),
            },
            None => ImeEngine::new(),
        };
        e.dictionary_path = Some(path.to_owned());
        e
    }

    /// The learned state as snapshot bytes, ready to be written to the
    /// dictionary file; a pure function of the state, so saving twice
    /// yields identical bytes.
    pub fn snapshot_bytes(&self) -> (r: Vec<u8>)
        ensures
            r@ == crate::codec::spec_encode_state(crate::codec::state_v(*self)),
    {
        crate::codec::encode_state(self)
    }

    /// Classifies one key event against the preedit buffer and returns
    /// the action the host must perform. Space, enter and tab with a
    /// non-empty preedit commit the top suggestion (or the first
    /// rule-based candidate), learn from it and clear the preedit; with
    /// an empty preedit a literal space is committed. Backspace drops
    /// the last preedit character, escape clears the preedit, printable
    /// ASCII extends it with letters lowercased, and anything else is
    /// ignored.
    pub fn process_key(&mut self, key_val: u32, preedit: &mut String) -> (r: KeyAction)
        requires
            old(self).wf(),
        ensures
            final(self).wf(),
            final(self).dictionary_path == old(self).dictionary_path,
            key_val == 65307 ==> final(preedit)@ == Seq::<char>::empty() && *final(self)
                == *old(self) && r is Refresh,
            key_val == 65288 ==> *final(self) == *old(self) && r is Refresh && final(preedit)@
                == if old(preedit)@.len() > 0 {
                old(preedit)@.drop_last()
            } else {
                old(preedit)@
            },
            33 <= key_val <= 126 ==> *final(self) == *old(self) && r is Refresh
                && final(preedit)@ == old(preedit)@.push(lower_key_char(key_val)),
            (key_val == 32 || key_val == 65293 || key_val == 65289) && old(preedit)@.len() == 0
                ==> r is CommitSpace && *final(self) == *old(self) && final(preedit)@ == old(
                preedit,
            )@,
            (key_val == 32 || key_val == 65293 || key_val == 65289) && old(preedit)@.len() > 0
                ==> final(preedit)@ == Seq::<char>::empty() && match r {
                KeyAction::CommitText(t) => {
                    &&& t@.len() > 0
                    &&& suggestion_source_ok(t@, old(self).trie_builder.metas(), old(preedit)@)
                    &&& learn_post_trie(
                        old(self).trie_builder,
                        final(self).trie_builder,
                        old(preedit)@,
                        t@,
                    )
                    &&& learn_post_context(
                        old(self).trie_builder,
                        old(self).context_model,
                        final(self).context_model,
                        t@,
                    )
                    &&& learn_post_symspell(
                        old(self).trie_builder,
                        old(self).symspell,
                        final(self).symspell,
                        old(preedit)@,
                        t@,
                    )
                },
                KeyAction::Refresh => *final(self) == *old(self),
                _ => false,
            },
            !(key_val == 32 || key_val == 65293 || key_val == 65289 || key_val == 65288
                || key_val == 65307 || (33 <= key_val && key_val <= 126)) ==> r is Ignore
                && *final(self) == *old(self) && final(preedit)@ == old(preedit)@,
    {
        if key_val == 32 || key_val == 65293 || key_val == 65289 {
            // Space, enter, tab.
            if preedit.as_str().unicode_len() > 0 {
                let suggestions = self.get_suggestions(preedit.as_str(), 1);
                let to_commit: String;
                if suggestions.len() > 0 {
                    to_commit = suggestions[0].0.clone();
                    proof {
                        assert(suggestion_source_ok(
                            to_commit@,
                            self.trie_builder.metas(),
                            preedit@,
                        ));
                    }
                } else {
                    let cands = self.romanizer.generate_candidates(preedit.as_str());
                    if cands.len() > 0 {
                        to_commit = cands[0].clone();
                        proof {
                            assert(cands.deep_view()[0] == cands@[0]@);
                            assert(spec_candidates(preedit@).contains(to_commit@));
                        }
                    } else {
                        to_commit = String::new();
                    }
                }
                if to_commit.as_str().unicode_len() > 0 {
                    let roman = preedit.clone();
                    self.user_confirms(roman.as_str(), to_commit.as_str());
                    *preedit = String::new();
                    proof {
                        assert(preedit@ =~= Seq::<char>::empty());
                    }
                    return KeyAction::CommitText(to_commit);
                }
                *preedit = String::new();
                proof {
                    assert(preedit@ =~= Seq::<char>::empty());
                }
                return KeyAction::Refresh;
            }
            return KeyAction::CommitSpace;
        }
        if key_val == 65288 {
            // Backspace: drop the last character.
            let chars = crate::converter::str_to_chars(preedit.as_str());
            let n = chars.len();
            let mut shorter: Vec<char> = Vec::new();
            proof {
                assert(shorter@ =~= chars@.take(0));
            }
            if n > 0 {
                let keep = n - 1;
                let mut i: usize = 0;
                while i < keep
                    invariant
                        keep < n == chars@.len(),
                        i <= keep,
                        shorter@ == chars@.take(i as int),
                    decreases keep - i,
                {
                    let c = chars[i];
                    shorter.push(c);
                    proof {
                        assert(shorter@ =~= chars@.take(i + 1));
                    }
                    i += 1;
                }
                proof {
                    assert(chars@.take(n - 1) =~= chars@.drop_last());
                }
            } else {
                proof {
                    assert(chars@.take(0) =~= chars@);
                }
            }
            *preedit = crate::converter::chars_to_string(&shorter);
            return KeyAction::Refresh;
        }
        if key_val == 65307 {
            // Escape: clear the preedit.
            *preedit = String::new();
            proof {
                assert(preedit@ =~= Seq::<char>::empty());
            }
            return KeyAction::Refresh;
        }
        if 33 <= key_val && key_val <= 126 {
            // Printable ASCII extends the preedit, alphabetics lowercased.
            let b = key_val as u8;
            let lower: u8 = if 65 <= b && b <= 90 {
                b + 32
            } else {
                b
            };
            let c = lower as char;
            proof {
                assert(c == lower_key_char(key_val));
            }
            let chars = crate::converter::str_to_chars(preedit.as_str());
            let mut extended = chars;
            extended.push(c);
            *preedit = crate::converter::chars_to_string(&extended);
            return KeyAction::Refresh;
        }
        KeyAction::Ignore
    }
}

} // verus!
