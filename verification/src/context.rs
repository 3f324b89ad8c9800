use vstd::prelude::*;

use crate::types::WordId;
use vstd::arithmetic::logarithm::log;
use vstd::arithmetic::power::pow;
use vstd::arithmetic::power2::lemma2_to64;
use vstd::arithmetic::power2::lemma_pow2;
use vstd::arithmetic::power2::lemma_pow2_adds;
use vstd::arithmetic::power2::lemma_pow2_pos;
use vstd::arithmetic::power2::lemma_pow2_strictly_increases;
use vstd::arithmetic::power2::pow2;
use vstd::multiset::Multiset;

verus! {

/// Score boost for a bigram seen `c` times: `floor(10 * log2(c))`,
/// which is the integer logarithm of the tenth power; zero for a pair
/// never seen.
pub open spec fn boost_spec(c: u64) -> u64 {
    if c == 0 {
        0
    } else {
        log(2, pow(c as int, 10)) as u64
    }
}

/// Addition that stops at the largest representable score.
pub open spec fn sat_add(a: u64, b: u64) -> u64 {
    if a + b <= u64::MAX {
        (a + b) as u64
    } else {
        u64::MAX
    }
}

/// Bigram count increment; stops at the largest representable count.
pub open spec fn bump(c: u64) -> u64 {
    sat_add(c, 1)
}

/// The mapping that an association list of `(previous, current, count)`
/// entries represents.
pub open spec fn bigrams_map_of(s: Seq<(WordId, WordId, u64)>) -> Map<(WordId, WordId), u64>
    decreases s.len(),
{
    if s.len() == 0 {
        Map::empty()
    } else {
        bigrams_map_of(s.drop_last()).insert((s.last().0, s.last().1), s.last().2)
    }
}

/// Every `(previous, current)` pair appears at most once.
pub open spec fn bigram_keys_distinct(s: Seq<(WordId, WordId, u64)>) -> bool {
    forall|i: int, j: int|
        0 <= i < j < s.len() ==> !(s[i].0 == s[j].0 && s[i].1 == s[j].1)
}

/// Scores after the context boost: each suggestion whose word forms a
/// recorded bigram with `prev` gains `boost_spec` of that bigram's count.
pub open spec fn boosted_seq(
    s: Seq<(WordId, u64)>,
    bigrams: Map<(WordId, WordId), u64>,
    prev: WordId,
) -> Seq<(WordId, u64)> {
    s.map_values(
        |p: (WordId, u64)|
            if bigrams.dom().contains((prev, p.0)) {
                (p.0, sat_add(p.1, boost_spec(bigrams[(prev, p.0)])))
            } else {
                p
            },
    )
}

/// Scores never increase from one entry to the next.
pub open spec fn sorted_desc(s: Seq<(WordId, u64)>) -> bool {
    forall|i: int, j: int| 0 <= i < j < s.len() ==> s[i].1 >= s[j].1
}

/// Rolling window of recently confirmed words plus bigram counts,
/// used to re-rank suggestions by the previously confirmed word.
pub struct ContextModel {
    pub(crate) window_size: usize,
    pub(crate) history: Vec<WordId>,
    pub(crate) bigrams: Vec<(WordId, WordId, u64)>,
}

impl ContextModel {
    /// Recent confirmations, oldest first.
    pub closed spec fn history(&self) -> Seq<WordId> {
        self.history@
    }

    /// Bound on the history length.
    pub closed spec fn capacity(&self) -> usize {
        self.window_size
    }

    /// Count for each `(previous, current)` pair of consecutive confirmations.
    pub closed spec fn bigrams(&self) -> Map<(WordId, WordId), u64> {
        bigrams_map_of(self.bigrams@)
    }

    pub closed spec fn wf(&self) -> bool {
        &&& self.history@.len() <= self.window_size
        &&& bigram_keys_distinct(self.bigrams@)
        &&& forall|j: int| 0 <= j < self.bigrams@.len() ==> self.bigrams@[j].2 >= 1
    }

    /// What well-formedness says of the fields.
    pub(crate) proof fn lemma_wf_fields(&self)
        ensures
            self.wf() <==> {
                &&& self.history@.len() <= self.window_size
                &&& bigram_keys_distinct(self.bigrams@)
                &&& forall|j: int| 0 <= j < self.bigrams@.len() ==> self.bigrams@[j].2 >= 1
            },
    {
    }

    /// A well-formed model never remembers more words than its
    /// capacity, so `add_word` evicts exactly when the window was full.
    pub proof fn lemma_window_bounded(&self)
        requires
            self.wf(),
        ensures
            self.history().len() <= self.capacity(),
    {
    }

    pub fn new(window_size: usize) -> (r: Self)
        ensures
            r.wf(),
            r.capacity() == window_size,
            r.history() == Seq::<WordId>::empty(),
            r.bigrams() == Map::<(WordId, WordId), u64>::empty(),
    {
        Self { window_size, history: Vec::new(), bigrams: Vec::new() }
    }

    /// Records a confirmed word: counts the bigram it forms with the most
    /// recent history entry, appends it, and evicts the oldest entry once
    /// the window is over capacity.
    pub fn add_word(&mut self, word_id: WordId)
        requires
            old(self).wf(),
        ensures
            final(self).wf(),
            final(self).capacity() == old(self).capacity(),
            final(self).history() == if old(self).history().push(word_id).len() > old(
                self,
            ).capacity() {
                old(self).history().push(word_id).skip(1)
            } else {
                old(self).history().push(word_id)
            },
            final(self).bigrams() == if old(self).history().len() > 0 {
                old(self).bigrams().insert(
                    (old(self).history().last(), word_id),
                    bump(
                        if old(self).bigrams().dom().contains(
                            (old(self).history().last(), word_id),
                        ) {
                            old(self).bigrams()[(old(self).history().last(), word_id)]
                        } else {
                            0
                        },
                    ),
                )
            } else {
                old(self).bigrams()
            },
    {
        if self.history.len() > 0 {
            let prev: WordId = self.history[self.history.len() - 1];
            match find_bigram_index(&self.bigrams, prev, word_id) {
                Some(i) => {
                    let c = self.bigrams[i].2;
                    let c2 = if c < u64::MAX {
                        c + 1
                    } else {
                        c
                    };
                    proof {
                        lemma_bmap_get(self.bigrams@, i as int);
                    }
                    let ghost before = self.bigrams@;
                    self.bigrams.set(i, (prev, word_id, c2));
                    proof {
                        lemma_bmap_update(before, i as int, c2);
                    }
                },
                None => {
                    proof {
                        lemma_bmap_absent(self.bigrams@, prev, word_id);
                    }
                    let ghost before = self.bigrams@;
                    self.bigrams.push((prev, word_id, 1));
                    proof {
                        assert(before.push((prev, word_id, 1u64)).drop_last() =~= before);
                        assert(bigram_keys_distinct(self.bigrams@));
                    }
                },
            }
        }
        self.history.push(word_id);
        if self.history.len() > self.window_size {
            self.history.remove(0);
            proof {
                assert(self.history@ =~= old(self).history().push(word_id).skip(1));
            }
        }
    }

    /// Boosts each suggestion that forms a recorded bigram with the most
    /// recently confirmed word, then orders by descending score. Does
    /// nothing when no word has been confirmed yet.
    pub fn rerank_suggestions(&self, suggestions: &mut Vec<(WordId, u64)>)
        requires
            self.wf(),
        ensures
            self.history().len() > 0 ==> {
                &&& sorted_desc(final(suggestions)@)
                &&& final(suggestions)@.to_multiset() == boosted_seq(
                    old(suggestions)@,
                    self.bigrams(),
                    self.history().last(),
                ).to_multiset()
            },
            self.history().len() == 0 ==> final(suggestions)@ == old(suggestions)@,
    {
        if self.history.len() == 0 {
            return ;
        }
        let prev: WordId = self.history[self.history.len() - 1];
        let ghost orig = suggestions@;
        let mut i: usize = 0;
        while i < suggestions.len()
            invariant
                self.wf(),
                self.history().len() > 0,
                prev == self.history().last(),
                i <= suggestions@.len(),
                suggestions@.len() == orig.len(),
                forall|j: int| 0 <= j < i ==> suggestions@[j] == boosted_seq(
                    orig,
                    self.bigrams(),
                    prev,
                )[j],
                forall|j: int| i <= j < orig.len() ==> suggestions@[j] == orig[j],
            decreases suggestions@.len() - i,
        {
            let (id, score) = suggestions[i];
            let b = self.bigram_boost(prev, id);
            let new_score = if score <= u64::MAX - b {
                score + b
            } else {
                u64::MAX
            };
            suggestions.set(i, (id, new_score));
            i += 1;
        }
        proof {
            assert(suggestions@ =~= boosted_seq(orig, self.bigrams(), prev));
        }
        sort_pairs_desc(suggestions);
    }

    /// Boost owed to `cur` right now: `boost_spec` of the count of the
    /// bigram it forms with the most recently confirmed word; zero when
    /// nothing was confirmed yet or the pair was never seen.
    pub fn current_boost(&self, cur: WordId) -> (r: u64)
        requires
            self.wf(),
        ensures
            r == if self.history().len() > 0 && self.bigrams().dom().contains(
                (self.history().last(), cur),
            ) {
                boost_spec(self.bigrams()[(self.history().last(), cur)])
            } else {
                0
            },
    {
        if self.history.len() == 0 {
            return 0;
        }
        let prev: WordId = self.history[self.history.len() - 1];
        self.bigram_boost(prev, cur)
    }

    /// Boost owed to `cur` after `prev`: `boost_spec` of the recorded
    /// bigram count, zero when the pair was never seen.
    fn bigram_boost(&self, prev: WordId, cur: WordId) -> (r: u64)
        requires
            self.wf(),
        ensures
            r == if self.bigrams().dom().contains((prev, cur)) {
                boost_spec(self.bigrams()[(prev, cur)])
            } else {
                0
            },
    {
        match find_bigram_index(&self.bigrams, prev, cur) {
            Some(i) => {
                proof {
                    lemma_bmap_get(self.bigrams@, i as int);
                }
                assert(self.bigrams@[i as int].2 >= 1);
                boost_of_count(self.bigrams[i].2)
            },
            None => {
                proof {
                    lemma_bmap_absent(self.bigrams@, prev, cur);
                }
                0
            },
        }
    }
}

/// Index of the entry holding the `(prev, cur)` pair, if any.
fn find_bigram_index(bigrams: &Vec<(WordId, WordId, u64)>, prev: WordId, cur: WordId) -> (r:
    Option<usize>)
    ensures
        match r {
            Some(i) => i < bigrams@.len() && bigrams@[i as int].0 == prev && bigrams@[i as int].1
                == cur,
            None => forall|j: int|
                0 <= j < bigrams@.len() ==> !(bigrams@[j].0 == prev && bigrams@[j].1 == cur),
        },
{
    let mut i: usize = 0;
    while i < bigrams.len()
        invariant
            i <= bigrams@.len(),
            forall|j: int| 0 <= j < i ==> !(bigrams@[j].0 == prev && bigrams@[j].1 == cur),
        decreases bigrams@.len() - i,
    {
        if bigrams[i].0 == prev && bigrams[i].1 == cur {
            return Some(i);
        }
        i += 1;
    }
    None
}

/// Orders the pairs by descending score; keeps exactly the same pairs.
pub fn sort_pairs_desc(v: &mut Vec<(WordId, u64)>)
    ensures
        sorted_desc(final(v)@),
        final(v)@.to_multiset() == old(v)@.to_multiset(),
{
    broadcast use vstd::seq_lib::group_to_multiset_ensures;

    let ghost orig = v@;
    let mut out: Vec<(WordId, u64)> = Vec::new();
    while v.len() > 0
        invariant
            sorted_desc(out@),
            out@.to_multiset().add(v@.to_multiset()) == orig.to_multiset(),
            forall|i: int, j: int|
                0 <= i < out@.len() && 0 <= j < v@.len() ==> out@[i].1 >= v@[j].1,
        decreases v@.len(),
    {
        let mut best: usize = 0;
        let mut k: usize = 1;
        while k < v.len()
            invariant
                best < k <= v@.len(),
                v@.len() > 0,
                forall|j: int| 0 <= j < k ==> v@[best as int].1 >= v@[j].1,
            decreases v@.len() - k,
        {
            if v[k].1 > v[best].1 {
                best = k;
            }
            k += 1;
        }
        let ghost v_before = v@;
        let picked = v.remove(best);
        let ghost out_before = out@;
        out.push(picked);
        proof {
            broadcast use vstd::multiset::group_multiset_axioms;

            assert(v@ == v_before.remove(best as int));
            vstd::seq_lib::to_multiset_remove(v_before, best as int);
            assert(out@ == out_before.push(picked));
            vstd::seq_lib::to_multiset_build(out_before, picked);
            vstd::seq_lib::to_multiset_contains(v_before, picked);
            assert(v_before.contains(picked));
            assert(v_before.to_multiset().count(picked) >= 1);
            assert(out@.to_multiset().add(v@.to_multiset()) =~= out_before.to_multiset().add(
                v_before.to_multiset(),
            ));
        }
    }
    proof {
        assert(v@.to_multiset() =~= Multiset::<(WordId, u64)>::empty());
        assert(out@.to_multiset() =~= orig.to_multiset());
    }
    *v = out;
}

/// Value of a little-endian sequence of 64-bit limbs.
pub open spec fn limbs_val(s: Seq<u64>) -> int
    decreases s.len(),
{
    if s.len() == 0 {
        0
    } else {
        s[0] + pow2(64) * limbs_val(s.skip(1))
    }
}

/// Limb values are never negative.
proof fn lemma_limbs_val_nonneg(s: Seq<u64>)
    ensures
        limbs_val(s) >= 0,
    decreases s.len(),
{
    if s.len() > 0 {
        lemma_limbs_val_nonneg(s.skip(1));
        lemma_pow2_pos(64);
        assert(pow2(64) * limbs_val(s.skip(1)) >= 0) by (nonlinear_arith)
            requires
                limbs_val(s.skip(1)) >= 0,
                pow2(64) > 0,
        {
        }
    }
}

/// Appending a limb adds its value at the next limb position.
proof fn lemma_limbs_val_push(s: Seq<u64>, x: u64)
    ensures
        limbs_val(s.push(x)) == limbs_val(s) + x * pow2((64 * s.len()) as nat),
    decreases s.len(),
{
    if s.len() == 0 {
        assert(s.push(x)[0] == x);
        assert(s.push(x).skip(1) =~= Seq::<u64>::empty());
        lemma2_to64();
        assert(limbs_val(s.push(x)) == x + pow2(64) * limbs_val(s.push(x).skip(1)));
        assert(limbs_val(s.push(x)) == x);
        assert(x * pow2(0) == x);
    } else {
        assert(s.push(x)[0] == s[0]);
        assert(s.push(x).skip(1) =~= s.skip(1).push(x));
        lemma_limbs_val_push(s.skip(1), x);
        lemma_pow2_adds(64, (64 * (s.len() - 1)) as nat);
        assert(limbs_val(s.push(x)) == s[0] + pow2(64) * (limbs_val(s.skip(1)) + x * pow2(
            (64 * (s.len() - 1)) as nat,
        )));
        assert(pow2(64) * (limbs_val(s.skip(1)) + x * pow2((64 * (s.len() - 1)) as nat))
            == pow2(64) * limbs_val(s.skip(1)) + x * (pow2(64) * pow2(
            (64 * (s.len() - 1)) as nat,
        ))) by (nonlinear_arith);
        assert(limbs_val(s.push(x)) == limbs_val(s) + x * pow2((64 * s.len()) as nat));
    }
}

/// The value stays below one limb position past the end.
proof fn lemma_limbs_val_upper(s: Seq<u64>)
    ensures
        limbs_val(s) < pow2((64 * s.len()) as nat),
    decreases s.len(),
{
    if s.len() == 0 {
        lemma_pow2_pos(0);
    } else {
        lemma_limbs_val_upper(s.skip(1));
        lemma_limbs_val_nonneg(s.skip(1));
        lemma_pow2_adds(64, (64 * (s.len() - 1)) as nat);
        lemma2_to64();
        assert(s[0] + pow2(64) * limbs_val(s.skip(1)) < pow2(64) * pow2(
            (64 * (s.len() - 1)) as nat,
        )) by (nonlinear_arith)
            requires
                s[0] < pow2(64),
                0 <= limbs_val(s.skip(1)) <= pow2((64 * (s.len() - 1)) as nat) - 1,
                pow2(64) > 0,
        {
        }
    }
}

/// A non-empty limb sequence is pinned between two multiples of its top
/// limb position.
proof fn lemma_limbs_val_top(s: Seq<u64>)
    requires
        s.len() > 0,
    ensures
        s.last() * pow2((64 * (s.len() - 1)) as nat) <= limbs_val(s),
        limbs_val(s) < (s.last() + 1) * pow2((64 * (s.len() - 1)) as nat),
{
    let t = s.drop_last();
    assert(t.push(s.last()) =~= s);
    lemma_limbs_val_push(t, s.last());
    lemma_limbs_val_nonneg(t);
    lemma_limbs_val_upper(t);
    assert((s.last() + 1) * pow2((64 * (s.len() - 1)) as nat) == s.last() * pow2(
        (64 * (s.len() - 1)) as nat,
    ) + pow2((64 * (s.len() - 1)) as nat)) by (nonlinear_arith);
}

/// Multiplies the limb value in place by `m`, carrying into a new top
/// limb when needed.
fn limbs_mul_small(limbs: &mut Vec<u64>, m: u64)
    requires
        m >= 1,
        old(limbs)@.len() >= 1,
        old(limbs)@.last() != 0,
    ensures
        final(limbs)@.len() >= 1,
        final(limbs)@.last() != 0,
        limbs_val(final(limbs)@) == limbs_val(old(limbs)@) * m,
{
    let n = limbs.len();
    let mut carry: u64 = 0;
    let mut i: usize = 0;
    proof {
        assert(limbs@.take(0) =~= Seq::<u64>::empty());
        assert(old(limbs)@.take(0) =~= Seq::<u64>::empty());
        lemma2_to64();
    }
    while i < n
        invariant
            m >= 1,
            n == limbs@.len(),
            n == old(limbs)@.len(),
            i <= n,
            forall|j: int| i <= j < n ==> limbs@[j] == old(limbs)@[j],
            limbs_val(limbs@.take(i as int)) + carry * pow2((64 * i) as nat) == limbs_val(
                old(limbs)@.take(i as int),
            ) * m,
        decreases n - i,
    {
        let a = limbs[i];
        proof {
            lemma2_to64();
            assert((a as u128) * (m as u128) + (carry as u128) < 0x1_0000_0000_0000_0000u128
                * 0x1_0000_0000_0000_0000u128) by (nonlinear_arith)
                requires
                    a <= 0xffff_ffff_ffff_ffffu64,
                    m <= 0xffff_ffff_ffff_ffffu64,
                    carry <= 0xffff_ffff_ffff_ffffu64,
            {
            }
        }
        let p: u128 = (a as u128) * (m as u128) + (carry as u128);
        let lo: u64 = (p % 0x1_0000_0000_0000_0000u128) as u64;
        proof {
            assert(p / 0x1_0000_0000_0000_0000u128 < 0x1_0000_0000_0000_0000u128)
                by (nonlinear_arith)
                requires
                    p < 0x1_0000_0000_0000_0000u128 * 0x1_0000_0000_0000_0000u128,
            {
            }
        }
        let hi: u64 = (p / 0x1_0000_0000_0000_0000u128) as u64;
        let ghost pre = limbs@;
        let ghost old_carry = carry;
        limbs.set(i, lo);
        carry = hi;
        proof {
            vstd::arithmetic::div_mod::lemma_fundamental_div_mod(
                p as int,
                0x1_0000_0000_0000_0000,
            );
            lemma2_to64();
            assert(lo + hi * pow2(64) == a * m + old_carry);
            assert(limbs@.take(i + 1) =~= pre.take(i as int).push(lo));
            assert(limbs@.take(i as int) =~= pre.take(i as int));
            assert(old(limbs)@.take(i + 1) =~= old(limbs)@.take(i as int).push(a));
            lemma_limbs_val_push(pre.take(i as int), lo);
            lemma_limbs_val_push(old(limbs)@.take(i as int), a);
            lemma_pow2_adds((64 * i) as nat, 64);
            let nt1 = limbs_val(limbs@.take(i + 1));
            let nt0 = limbs_val(pre.take(i as int));
            let ot1 = limbs_val(old(limbs)@.take(i + 1));
            let ot0 = limbs_val(old(limbs)@.take(i as int));
            assert(nt1 + carry * pow2((64 * (i + 1)) as nat) == ot1 * m) by (nonlinear_arith)
                requires
                    nt1 == nt0 + lo * pow2((64 * i) as nat),
                    ot1 == ot0 + a * pow2((64 * i) as nat),
                    nt0 + old_carry * pow2((64 * i) as nat) == ot0 * m,
                    lo + carry * pow2(64) == a * m + old_carry,
                    pow2((64 * (i + 1)) as nat) == pow2((64 * i) as nat) * pow2(64),
            {
            }
        }
        i += 1;
    }
    proof {
        assert(limbs@.take(n as int) =~= limbs@);
        assert(old(limbs)@.take(n as int) =~= old(limbs)@);
    }
    if carry > 0 {
        let ghost pre = limbs@;
        limbs.push(carry);
        proof {
            lemma_limbs_val_push(pre, carry);
        }
    } else {
        proof {
            if limbs@.last() == 0 {
                lemma_limbs_val_top(limbs@);
                lemma_limbs_val_top(old(limbs)@);
                lemma_pow2_pos((64 * (n - 1)) as nat);
                let nv = limbs_val(limbs@);
                let ov = limbs_val(old(limbs)@);
                let tl = old(limbs)@.last();
                assert(false) by (nonlinear_arith)
                    requires
                        nv == ov * m,
                        ov >= tl * pow2((64 * (n - 1)) as nat),
                        tl >= 1,
                        m >= 1,
                        pow2((64 * (n - 1)) as nat) >= 1,
                        nv < pow2((64 * (n - 1)) as nat),
                {
                }
            }
        }
    }
}

/// Position of the highest set bit: the largest `e` with `2^e <= t`.
fn bit_floor64(t: u64) -> (e: u64)
    requires
        t >= 1,
    ensures
        pow2(e as nat) <= t < pow2((e + 1) as nat),
        e <= 63,
{
    let mut q: u64 = t;
    let mut e: u64 = 0;
    proof {
        lemma2_to64();
    }
    while q >= 2
        invariant
            q >= 1,
            e <= 63,
            q * pow2(e as nat) <= t,
            t < (q + 1) * pow2(e as nat),
        decreases q,
    {
        proof {
            lemma_pow2_adds(e as nat, 1);
            lemma2_to64();
            lemma_pow2_pos(e as nat);
            vstd::arithmetic::div_mod::lemma_fundamental_div_mod(q as int, 2);
            let h = q as int / 2;
            let b = q as int % 2;
            assert((q / 2) * pow2((e + 1) as nat) <= t && t < (q / 2 + 1) * pow2(
                (e + 1) as nat,
            )) by (nonlinear_arith)
                requires
                    q as int == 2 * h + b,
                    0 <= b < 2,
                    h == q as int / 2,
                    q >= 2,
                    q * pow2(e as nat) <= t,
                    t < (q + 1) * pow2(e as nat),
                    pow2((e + 1) as nat) == pow2(e as nat) * 2,
                    pow2(e as nat) >= 1,
            {
            }
            if e >= 63 {
                lemma_pow2_adds(63, 1);
                assert(2 * pow2(63) <= q * pow2(63)) by (nonlinear_arith)
                    requires
                        q >= 2,
                        pow2(63) >= 1,
                {
                }
                assert(false);
            }
        }
        q = q / 2;
        e = e + 1;
    }
    proof {
        assert(q == 1);
        lemma_pow2_adds(e as nat, 1);
        lemma2_to64();
        assert(pow2((e + 1) as nat) == pow2(e as nat) * pow2(1));
        assert(pow2(1) == 2);
        assert(pow2(e as nat) <= t);
        assert(t < (q + 1) * pow2(e as nat));
        assert((q + 1) * pow2(e as nat) == 2 * pow2(e as nat)) by (nonlinear_arith)
            requires
                q == 1,
        {
        }
    }
    e
}

/// An integer squeezed between consecutive powers of two has that
/// power's exponent as its integer logarithm.
proof fn lemma_log2_unique(v: int, r: nat)
    requires
        pow2(r) <= v < pow2(r + 1),
    ensures
        log(2, v) == r,
    decreases r,
{
    lemma_pow2(r);
    lemma_pow2(r + 1);
    if r == 0 {
        lemma2_to64();
        vstd::arithmetic::logarithm::lemma_log0(2, v);
    } else {
        lemma_pow2((r - 1) as nat);
        lemma_pow2_adds((r - 1) as nat, 1);
        lemma_pow2_adds(r, 1);
        lemma_pow2_pos((r - 1) as nat);
        lemma2_to64();
        assert(pow2(r) == pow2((r - 1) as nat) * 2);
        assert(pow2(r + 1) == pow2(r) * 2);
        assert(v >= 2);
        vstd::arithmetic::logarithm::lemma_log_s(2, v);
        vstd::arithmetic::div_mod::lemma_fundamental_div_mod(v, 2);
        assert(v == 2 * (v / 2) + v % 2);
        assert(pow2((r - 1) as nat) <= v / 2 < pow2(r));
        lemma_log2_unique(v / 2, (r - 1) as nat);
        assert(log(2, v) == 1 + log(2, v / 2));
    }
}

/// A base below another gives a strictly smaller positive power.
proof fn lemma_pow_base_strict(a: nat, b: nat, e: nat)
    requires
        a < b,
        e >= 1,
    ensures
        pow(a as int, e) < pow(b as int, e),
    decreases e,
{
    reveal(vstd::arithmetic::power::pow);
    vstd::arithmetic::power::lemma_pow_positive(b as int, e);
    if e == 1 {
        vstd::arithmetic::power::lemma_pow1(a as int);
        vstd::arithmetic::power::lemma_pow1(b as int);
    } else {
        lemma_pow_base_strict(a, b, (e - 1) as nat);
        vstd::arithmetic::power::lemma_pow_positive(b as int, (e - 1) as nat);
        if a == 0 {
            vstd::arithmetic::power::lemma0_pow(e);
        } else {
            vstd::arithmetic::power::lemma_pow_positive(a as int, (e - 1) as nat);
            assert(pow(a as int, e) == (a as int) * pow(a as int, (e - 1) as nat));
            assert(pow(b as int, e) == (b as int) * pow(b as int, (e - 1) as nat));
            assert((a as int) * pow(a as int, (e - 1) as nat) < (b as int) * pow(
                b as int,
                (e - 1) as nat,
            )) by (nonlinear_arith)
                requires
                    0 < a < b,
                    0 < pow(a as int, (e - 1) as nat) < pow(b as int, (e - 1) as nat),
            {
            }
        }
    }
}

/// The tenth power of any count fits below the tenth limb position.
proof fn lemma_tenth_power_bound(c: u64)
    requires
        c >= 1,
    ensures
        1 <= pow(c as int, 10) < pow2(640),
{
    lemma2_to64();
    vstd::arithmetic::power::lemma_pow_positive(c as int, 10);
    lemma_pow_base_strict(c as nat, pow2(64), 10);
    lemma_pow2(64);
    lemma_pow2(640);
    vstd::arithmetic::power::lemma_pow_multiplies(2, 64, 10);
}

/// Computes `boost_spec(c)` for a positive count: the bit position of
/// the tenth power's highest set bit, with the power held in limbs.
fn boost_of_count(c: u64) -> (r: u64)
    requires
        c >= 1,
    ensures
        r == boost_spec(c),
{
    let mut limbs: Vec<u64> = Vec::new();
    limbs.push(c);
    proof {
        assert(limbs@.skip(1) =~= Seq::<u64>::empty());
        assert(limbs_val(limbs@) == c + pow2(64) * limbs_val(limbs@.skip(1)));
        assert(limbs_val(limbs@) == c);
        vstd::arithmetic::power::lemma_pow1(c as int);
    }
    let mut i: u64 = 1;
    while i < 10
        invariant
            c >= 1,
            1 <= i <= 10,
            limbs@.len() >= 1,
            limbs@.last() != 0,
            limbs_val(limbs@) == pow(c as int, i as nat),
        decreases 10 - i,
    {
        limbs_mul_small(&mut limbs, c);
        proof {
            vstd::arithmetic::power::lemma_pow1(c as int);
            vstd::arithmetic::power::lemma_pow_adds(c as int, i as nat, 1);
        }
        i += 1;
    }
    let j = limbs.len() - 1;
    let top = limbs[j];
    let e = bit_floor64(top);
    proof {
        lemma_limbs_val_top(limbs@);
        lemma_tenth_power_bound(c);
        lemma_pow2_pos((64 * j) as nat);
        assert(pow2((64 * j) as nat) <= top * pow2((64 * j) as nat)) by (nonlinear_arith)
            requires
                top >= 1,
                pow2((64 * j) as nat) >= 1,
        {
        }
        if 64 * j + e >= 640 {
            if 64 * j + e > 640 {
                lemma_pow2_strictly_increases(640, (64 * j + e) as nat);
            }
            lemma_pow2_adds((64 * j) as nat, e as nat);
            assert(pow2(e as nat) * pow2((64 * j) as nat) <= top * pow2((64 * j) as nat))
                by (nonlinear_arith)
                requires
                    pow2(e as nat) <= top,
                    pow2((64 * j) as nat) >= 1,
            {
            }
            assert(false);
        }
        lemma_pow2_adds((64 * j) as nat, e as nat);
        lemma_pow2_adds((64 * j) as nat, (e + 1) as nat);
        assert(pow2(e as nat) * pow2((64 * j) as nat) <= top * pow2((64 * j) as nat) && (top
            + 1) * pow2((64 * j) as nat) <= pow2((e + 1) as nat) * pow2((64 * j) as nat))
            by (nonlinear_arith)
            requires
                pow2(e as nat) <= top,
                top < pow2((e + 1) as nat),
                pow2((64 * j) as nat) >= 1,
        {
        }
        lemma_log2_unique(limbs_val(limbs@), (64 * j + e) as nat);
    }
    64 * (j as u64) + e
}


/// With distinct keys, the entry at `i` is what the represented map holds
/// for its key.
proof fn lemma_bmap_get(s: Seq<(WordId, WordId, u64)>, i: int)
    requires
        bigram_keys_distinct(s),
        0 <= i < s.len(),
    ensures
        bigrams_map_of(s).dom().contains((s[i].0, s[i].1)),
        bigrams_map_of(s)[(s[i].0, s[i].1)] == s[i].2,
    decreases s.len(),
{
    if i < s.len() - 1 {
        assert(bigram_keys_distinct(s.drop_last()));
        lemma_bmap_get(s.drop_last(), i);
    }
}

/// A pair that appears in no entry is outside the represented map's domain.
proof fn lemma_bmap_absent(s: Seq<(WordId, WordId, u64)>, a: WordId, b: WordId)
    requires
        forall|j: int| 0 <= j < s.len() ==> !(s[j].0 == a && s[j].1 == b),
    ensures
        !bigrams_map_of(s).dom().contains((a, b)),
    decreases s.len(),
{
    if s.len() > 0 {
        lemma_bmap_absent(s.drop_last(), a, b);
    }
}

/// Updating the count stored at `i` updates exactly that key in the
/// represented map.
proof fn lemma_bmap_update(s: Seq<(WordId, WordId, u64)>, i: int, c: u64)
    requires
        bigram_keys_distinct(s),
        0 <= i < s.len(),
    ensures
        bigrams_map_of(s.update(i, (s[i].0, s[i].1, c))) == bigrams_map_of(s).insert(
            (s[i].0, s[i].1),
            c,
        ),
        bigram_keys_distinct(s.update(i, (s[i].0, s[i].1, c))),
    decreases s.len(),
{
    let t = s.update(i, (s[i].0, s[i].1, c));
    if i == s.len() - 1 {
        assert(t.drop_last() =~= s.drop_last());
        assert(bigrams_map_of(t) =~= bigrams_map_of(s).insert((s[i].0, s[i].1), c));
    } else {
        assert(bigram_keys_distinct(s.drop_last()));
        lemma_bmap_update(s.drop_last(), i, c);
        assert(t.drop_last() =~= s.drop_last().update(i, (s[i].0, s[i].1, c)));
        lemma_bmap_get(s, i);
        assert(bigrams_map_of(t) =~= bigrams_map_of(s).insert((s[i].0, s[i].1), c));
    }
}

} // verus!
