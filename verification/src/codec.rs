use vstd::prelude::*;

use crate::context::bigram_keys_distinct;
use crate::context::ContextModel;
use crate::engine::ImeEngine;
use crate::symspell::SymSpell;
use crate::trie::Node;
use crate::trie::Trie;
use crate::types::WordId;
use crate::types::WordMetadata;
use vstd::bytes::spec_u64_from_le_bytes;
use vstd::std_specs::vec::spec_vec_len;
use vstd::bytes::spec_u64_to_le_bytes;

verus! {

/// First word of every snapshot.
pub const SNAPSHOT_MAGIC: u64 = 0x454d_4958_4e50_4c31;

/// Format version this library reads and writes.
pub const SNAPSHOT_VERSION: u64 = 1;

/// View of one word's metadata: Devanagari form, frequency, variants.
pub type MetaV = (Seq<char>, u64, Seq<Seq<char>>);

/// View of one trie node: child bytes, child indices, terminal word,
/// stored subtree maximum.
pub type NodeV = (Seq<u8>, Seq<usize>, Option<WordId>, u64);

/// View of the context model: capacity, history, bigram entries.
pub type CtxV = (usize, Seq<WordId>, Seq<(WordId, WordId, u64)>);

/// View of one fuzzy-index entry: delete variant and its identifiers.
pub type SsEntryV = (Seq<u8>, Seq<WordId>);

/// View of the whole persisted state.
pub type StateV = (Seq<MetaV>, Seq<NodeV>, CtxV, (usize, Seq<SsEntryV>));

/// Why a snapshot was rejected.
pub enum DecodeError {
    /// The byte length is not a whole number of words.
    BadLength,
    /// The snapshot does not start with the expected magic word.
    BadMagic,
    /// The snapshot's format version is not supported.
    UnsupportedVersion,
    /// The snapshot's structure or invariants do not hold.
    Malformed,
}

/// View of a metadata entry.
pub open spec fn meta_v(m: WordMetadata) -> MetaV {
    (m.devanagari@, m.frequency, m.variants@.map_values(|s: String| s@))
}

/// View of a trie node.
pub open spec fn node_v(n: Node) -> NodeV {
    (
        n.children@.map_values(|c: (u8, usize)| c.0),
        n.children@.map_values(|c: (u8, usize)| c.1),
        n.word_id,
        n.max_freq_in_subtree,
    )
}

/// Views of the metadata store.
pub open spec fn metas_v(t: Trie) -> Seq<MetaV> {
    t.metadata_store@.map_values(|m: WordMetadata| meta_v(m))
}

/// Views of the trie nodes.
pub open spec fn nodes_v(t: Trie) -> Seq<NodeV> {
    t.nodes@.map_values(|n: Node| node_v(n))
}

/// View of the context model.
pub closed spec fn ctx_v(c: ContextModel) -> CtxV {
    (c.window_size, c.history@, c.bigrams@)
}

/// View of the fuzzy index.
pub closed spec fn ss_v(s: SymSpell) -> (usize, Seq<SsEntryV>) {
    (s.max_edit_distance, s.deletes@.map_values(|e: (Vec<u8>, Vec<WordId>)| (e.0@, e.1@)))
}

/// View of the whole engine state that a snapshot captures.
pub open spec fn state_v(e: ImeEngine) -> StateV {
    (metas_v(e.trie_builder), nodes_v(e.trie_builder), ctx_v(e.context_model), ss_v(e.symspell))
}

// ---------------------------------------------------------------------
// Word-stream primitives.
// ---------------------------------------------------------------------
/// Reads one word.
pub open spec fn dec_u64(ws: Seq<u64>) -> Option<(u64, Seq<u64>)> {
    if ws.len() >= 1 {
        Some((ws[0], ws.skip(1)))
    } else {
        None
    }
}

/// A length-prefixed run of words.
pub open spec fn enc_list(s: Seq<u64>) -> Seq<u64> {
    seq![s.len() as u64] + s
}

/// Reads a length-prefixed run of words.
pub open spec fn dec_list(ws: Seq<u64>) -> Option<(Seq<u64>, Seq<u64>)> {
    match dec_u64(ws) {
        Some((n, r)) => if n <= r.len() {
            Some((r.take(n as int), r.skip(n as int)))
        } else {
            None
        },
        None => None,
    }
}

/// Reading a written run gives it back and leaves the rest.
pub proof fn lemma_list_rt(s: Seq<u64>, rest: Seq<u64>)
    requires
        s.len() <= u64::MAX,
    ensures
        dec_list(enc_list(s) + rest) == Some((s, rest)),
{
    let ws = enc_list(s) + rest;
    assert(ws[0] == s.len() as u64);
    assert(ws.skip(1) =~= s + rest);
    assert((s + rest).take(s.len() as int) =~= s);
    assert((s + rest).skip(s.len() as int) =~= rest);
}

// ---------------------------------------------------------------------
// Element conversions between words and characters, bytes, identifiers.
// ---------------------------------------------------------------------
/// Whether `v` is a Unicode scalar value, the values `char` can hold.
pub open spec fn valid_scalar(v: u64) -> bool {
    v < 0xD800 || (0xE000 <= v && v <= 0x10FFFF)
}

/// The character whose scalar value is `v`; meaningful when `v` is a
/// valid scalar value.
pub open spec fn char_of(v: u64) -> char {
    choose|c: char| (#[trigger] (c as u64)) == v
}

pub open spec fn words_of_chars(cs: Seq<char>) -> Seq<u64> {
    cs.map_values(|c: char| c as u64)
}

pub open spec fn chars_of(ws: Seq<u64>) -> Option<Seq<char>> {
    if forall|i: int| 0 <= i < ws.len() ==> valid_scalar(#[trigger] ws[i]) {
        Some(ws.map_values(|v: u64| char_of(v)))
    } else {
        None
    }
}

/// Every character is a valid scalar value, and the character with its
/// scalar value is itself.
pub proof fn lemma_char_scalar(c: char)
    ensures
        valid_scalar(c as u64),
        char_of(c as u64) == c,
{
    assert(exists|c2: char| (#[trigger] (c2 as u64)) == c as u64) by {
        assert((c as u64) == c as u64);
    }
    let c2 = char_of(c as u64);
    assert(c2 as u64 == c as u64);
    lemma_char_injective(c, c2);
}

/// Characters with equal scalar values are equal.
proof fn lemma_char_injective(c1: char, c2: char)
    requires
        c1 as u64 == c2 as u64,
    ensures
        c1 == c2,
{
}

/// Characters written as scalar words read back unchanged.
pub proof fn lemma_chars_conv(cs: Seq<char>)
    ensures
        chars_of(words_of_chars(cs)) == Some(cs),
{
    let ws = words_of_chars(cs);
    assert forall|i: int| 0 <= i < ws.len() implies valid_scalar(#[trigger] ws[i]) by {
        assert(ws[i] == cs[i] as u64);
        lemma_char_scalar(cs[i]);
    }
    assert forall|i: int| 0 <= i < ws.len() implies ws.map_values(|v: u64| char_of(v))[i]
        == cs[i] by {
        assert(ws[i] == cs[i] as u64);
        lemma_char_scalar(cs[i]);
    }
    assert(ws.map_values(|v: u64| char_of(v)) =~= cs);
}

pub open spec fn words_of_bytes8(bs: Seq<u8>) -> Seq<u64> {
    bs.map_values(|b: u8| b as u64)
}

pub open spec fn bytes8_of(ws: Seq<u64>) -> Option<Seq<u8>> {
    if forall|i: int| 0 <= i < ws.len() ==> #[trigger] ws[i] <= 255 {
        Some(ws.map_values(|v: u64| v as u8))
    } else {
        None
    }
}

/// Bytes written as words read back unchanged.
pub proof fn lemma_bytes8_conv(bs: Seq<u8>)
    ensures
        bytes8_of(words_of_bytes8(bs)) == Some(bs),
{
    let ws = words_of_bytes8(bs);
    assert forall|i: int| 0 <= i < ws.len() implies #[trigger] ws[i] <= 255 by {
        assert(ws[i] == bs[i] as u64);
    }
    assert(ws.map_values(|v: u64| v as u8) =~= bs);
}

pub open spec fn words_of_ids(ids: Seq<usize>) -> Seq<u64> {
    ids.map_values(|id: usize| id as u64)
}

pub open spec fn ids_of(ws: Seq<u64>) -> Option<Seq<usize>> {
    if forall|i: int| 0 <= i < ws.len() ==> #[trigger] ws[i] <= usize::MAX as u64 {
        Some(ws.map_values(|v: u64| v as usize))
    } else {
        None
    }
}

/// Identifiers written as words read back unchanged.
pub proof fn lemma_ids_conv(ids: Seq<usize>)
    ensures
        ids_of(words_of_ids(ids)) == Some(ids),
{
    let ws = words_of_ids(ids);
    assert forall|i: int| 0 <= i < ws.len() implies #[trigger] ws[i] <= usize::MAX as u64 by {
        assert(ws[i] == ids[i] as u64);
    }
    assert(ws.map_values(|v: u64| v as usize) =~= ids);
}

// ---------------------------------------------------------------------
// Character strings.
// ---------------------------------------------------------------------
pub open spec fn enc_chars(cs: Seq<char>) -> Seq<u64> {
    enc_list(words_of_chars(cs))
}

pub open spec fn dec_chars(ws: Seq<u64>) -> Option<(Seq<char>, Seq<u64>)> {
    match dec_list(ws) {
        Some((l, r)) => match chars_of(l) {
            Some(cs) => Some((cs, r)),
            None => None,
        },
        None => None,
    }
}

pub proof fn lemma_chars_rt(cs: Seq<char>, rest: Seq<u64>)
    requires
        cs.len() <= u64::MAX,
    ensures
        dec_chars(enc_chars(cs) + rest) == Some((cs, rest)),
{
    lemma_list_rt(words_of_chars(cs), rest);
    lemma_chars_conv(cs);
}

/// A run of character strings, each length-prefixed, written in order.
pub open spec fn enc_chars_seq(vs: Seq<Seq<char>>) -> Seq<u64>
    decreases vs.len(),
{
    if vs.len() == 0 {
        Seq::<u64>::empty()
    } else {
        enc_chars(vs.first()) + enc_chars_seq(vs.drop_first())
    }
}

pub open spec fn dec_chars_n(ws: Seq<u64>, n: nat) -> Option<(Seq<Seq<char>>, Seq<u64>)>
    decreases n,
{
    if n == 0 {
        Some((Seq::<Seq<char>>::empty(), ws))
    } else {
        match dec_chars(ws) {
            Some((c, r)) => match dec_chars_n(r, (n - 1) as nat) {
                Some((vs, r2)) => Some((seq![c] + vs, r2)),
                None => None,
            },
            None => None,
        }
    }
}

pub proof fn lemma_chars_seq_rt(vs: Seq<Seq<char>>, rest: Seq<u64>)
    requires
        forall|i: int| 0 <= i < vs.len() ==> (#[trigger] vs[i]).len() <= u64::MAX,
    ensures
        dec_chars_n(enc_chars_seq(vs) + rest, vs.len()) == Some((vs, rest)),
    decreases vs.len(),
{
    if vs.len() == 0 {
        assert(enc_chars_seq(vs) + rest =~= rest);
    } else {
        let hd = vs.first();
        let tl = vs.drop_first();
        assert(vs[0] == hd);
        assert forall|i: int| 0 <= i < tl.len() implies (#[trigger] tl[i]).len() <= u64::MAX by {
            assert(tl[i] == vs[i + 1]);
        }
        lemma_chars_seq_rt(tl, rest);
        assert(enc_chars_seq(vs) + rest =~= enc_chars(hd) + (enc_chars_seq(tl) + rest));
        lemma_chars_rt(hd, enc_chars_seq(tl) + rest);
        assert(seq![hd] + tl =~= vs);
    }
}

// ---------------------------------------------------------------------
// Metadata entries.
// ---------------------------------------------------------------------
pub open spec fn enc_meta(m: MetaV) -> Seq<u64> {
    enc_chars(m.0) + seq![m.1, m.2.len() as u64] + enc_chars_seq(m.2)
}

pub open spec fn dec_meta(ws: Seq<u64>) -> Option<(MetaV, Seq<u64>)> {
    match dec_chars(ws) {
        Some((dev, r)) => match dec_u64(r) {
            Some((freq, r2)) => match dec_u64(r2) {
                Some((nv, r3)) => match dec_chars_n(r3, nv as nat) {
                    Some((vars, r4)) => Some(((dev, freq, vars), r4)),
                    None => None,
                },
                None => None,
            },
            None => None,
        },
        None => None,
    }
}

pub open spec fn meta_bounds(m: MetaV) -> bool {
    &&& m.0.len() <= u64::MAX
    &&& m.2.len() <= u64::MAX
    &&& forall|i: int| 0 <= i < m.2.len() ==> (#[trigger] m.2[i]).len() <= u64::MAX
}

pub proof fn lemma_meta_rt(m: MetaV, rest: Seq<u64>)
    requires
        meta_bounds(m),
    ensures
        dec_meta(enc_meta(m) + rest) == Some((m, rest)),
{
    let mid = seq![m.1, m.2.len() as u64] + (enc_chars_seq(m.2) + rest);
    assert(enc_meta(m) + rest =~= enc_chars(m.0) + mid);
    lemma_chars_rt(m.0, mid);
    assert(mid[0] == m.1);
    let mid2 = mid.skip(1);
    assert(mid2 =~= seq![m.2.len() as u64] + (enc_chars_seq(m.2) + rest));
    assert(mid2[0] == m.2.len() as u64);
    assert(mid2.skip(1) =~= enc_chars_seq(m.2) + rest);
    lemma_chars_seq_rt(m.2, rest);
}

pub open spec fn enc_metas_seq(ms: Seq<MetaV>) -> Seq<u64>
    decreases ms.len(),
{
    if ms.len() == 0 {
        Seq::<u64>::empty()
    } else {
        enc_meta(ms.first()) + enc_metas_seq(ms.drop_first())
    }
}

pub open spec fn dec_metas_n(ws: Seq<u64>, n: nat) -> Option<(Seq<MetaV>, Seq<u64>)>
    decreases n,
{
    if n == 0 {
        Some((Seq::<MetaV>::empty(), ws))
    } else {
        match dec_meta(ws) {
            Some((m, r)) => match dec_metas_n(r, (n - 1) as nat) {
                Some((ms, r2)) => Some((seq![m] + ms, r2)),
                None => None,
            },
            None => None,
        }
    }
}

pub proof fn lemma_metas_seq_rt(ms: Seq<MetaV>, rest: Seq<u64>)
    requires
        forall|i: int| 0 <= i < ms.len() ==> meta_bounds(#[trigger] ms[i]),
    ensures
        dec_metas_n(enc_metas_seq(ms) + rest, ms.len()) == Some((ms, rest)),
    decreases ms.len(),
{
    if ms.len() == 0 {
        assert(enc_metas_seq(ms) + rest =~= rest);
    } else {
        let hd = ms.first();
        let tl = ms.drop_first();
        assert(ms[0] == hd);
        assert forall|i: int| 0 <= i < tl.len() implies meta_bounds(#[trigger] tl[i]) by {
            assert(tl[i] == ms[i + 1]);
        }
        lemma_metas_seq_rt(tl, rest);
        assert(enc_metas_seq(ms) + rest =~= enc_meta(hd) + (enc_metas_seq(tl) + rest));
        lemma_meta_rt(hd, enc_metas_seq(tl) + rest);
        assert(seq![hd] + tl =~= ms);
    }
}

// ---------------------------------------------------------------------
// Trie nodes.
// ---------------------------------------------------------------------
pub open spec fn enc_node(nv: NodeV) -> Seq<u64> {
    enc_list(words_of_bytes8(nv.0)) + enc_list(words_of_ids(nv.1)) + seq![
        match nv.2 {
            Some(_) => 1u64,
            None => 0u64,
        },
        match nv.2 {
            Some(id) => id as u64,
            None => 0u64,
        },
        nv.3,
    ]
}

pub open spec fn dec_node(ws: Seq<u64>) -> Option<(NodeV, Seq<u64>)> {
    match dec_list(ws) {
        Some((bw, r)) => match bytes8_of(bw) {
            Some(bytes) => match dec_list(r) {
                Some((iw, r2)) => match ids_of(iw) {
                    Some(idxs) => if bytes.len() == idxs.len() && r2.len() >= 3 {
                        if r2[0] == 0 {
                            Some(((bytes, idxs, None, r2[2]), r2.skip(3)))
                        } else if r2[0] == 1 && r2[1] <= usize::MAX as u64 {
                            Some(((bytes, idxs, Some(r2[1] as usize), r2[2]), r2.skip(3)))
                        } else {
                            None
                        }
                    } else {
                        None
                    },
                    None => None,
                },
                None => None,
            },
            None => None,
        },
        None => None,
    }
}

pub open spec fn node_bounds(nv: NodeV) -> bool {
    &&& nv.0.len() <= u64::MAX
    &&& nv.1.len() <= u64::MAX
    &&& nv.0.len() == nv.1.len()
}

pub proof fn lemma_node_rt(nv: NodeV, rest: Seq<u64>)
    requires
        node_bounds(nv),
    ensures
        dec_node(enc_node(nv) + rest) == Some((nv, rest)),
{
    let tail = seq![
        match nv.2 {
            Some(_) => 1u64,
            None => 0u64,
        },
        match nv.2 {
            Some(id) => id as u64,
            None => 0u64,
        },
        nv.3,
    ] + rest;
    assert(enc_node(nv) + rest =~= enc_list(words_of_bytes8(nv.0)) + (enc_list(
        words_of_ids(nv.1),
    ) + tail));
    lemma_list_rt(words_of_bytes8(nv.0), enc_list(words_of_ids(nv.1)) + tail);
    lemma_bytes8_conv(nv.0);
    lemma_list_rt(words_of_ids(nv.1), tail);
    lemma_ids_conv(nv.1);
    assert(tail.len() >= 3);
    assert(tail[0] == match nv.2 {
        Some(_) => 1u64,
        None => 0u64,
    });
    assert(tail[1] == match nv.2 {
        Some(id) => id as u64,
        None => 0u64,
    });
    assert(tail[2] == nv.3);
    assert(tail.skip(3) =~= rest);
}

pub open spec fn enc_nodes_seq(ns: Seq<NodeV>) -> Seq<u64>
    decreases ns.len(),
{
    if ns.len() == 0 {
        Seq::<u64>::empty()
    } else {
        enc_node(ns.first()) + enc_nodes_seq(ns.drop_first())
    }
}

pub open spec fn dec_nodes_n(ws: Seq<u64>, n: nat) -> Option<(Seq<NodeV>, Seq<u64>)>
    decreases n,
{
    if n == 0 {
        Some((Seq::<NodeV>::empty(), ws))
    } else {
        match dec_node(ws) {
            Some((nv, r)) => match dec_nodes_n(r, (n - 1) as nat) {
                Some((ns, r2)) => Some((seq![nv] + ns, r2)),
                None => None,
            },
            None => None,
        }
    }
}

pub proof fn lemma_nodes_seq_rt(ns: Seq<NodeV>, rest: Seq<u64>)
    requires
        forall|i: int| 0 <= i < ns.len() ==> node_bounds(#[trigger] ns[i]),
    ensures
        dec_nodes_n(enc_nodes_seq(ns) + rest, ns.len()) == Some((ns, rest)),
    decreases ns.len(),
{
    if ns.len() == 0 {
        assert(enc_nodes_seq(ns) + rest =~= rest);
    } else {
        let hd = ns.first();
        let tl = ns.drop_first();
        assert(ns[0] == hd);
        assert forall|i: int| 0 <= i < tl.len() implies node_bounds(#[trigger] tl[i]) by {
            assert(tl[i] == ns[i + 1]);
        }
        lemma_nodes_seq_rt(tl, rest);
        assert(enc_nodes_seq(ns) + rest =~= enc_node(hd) + (enc_nodes_seq(tl) + rest));
        lemma_node_rt(hd, enc_nodes_seq(tl) + rest);
        assert(seq![hd] + tl =~= ns);
    }
}

// ---------------------------------------------------------------------
// Fuzzy-index entries.
// ---------------------------------------------------------------------
pub open spec fn enc_ss_entry(e: SsEntryV) -> Seq<u64> {
    enc_list(words_of_bytes8(e.0)) + enc_list(words_of_ids(e.1))
}

pub open spec fn dec_ss_entry(ws: Seq<u64>) -> Option<(SsEntryV, Seq<u64>)> {
    match dec_list(ws) {
        Some((kw, r)) => match bytes8_of(kw) {
            Some(key) => match dec_list(r) {
                Some((iw, r2)) => match ids_of(iw) {
                    Some(ids) => Some(((key, ids), r2)),
                    None => None,
                },
                None => None,
            },
            None => None,
        },
        None => None,
    }
}

pub open spec fn ss_entry_bounds(e: SsEntryV) -> bool {
    &&& e.0.len() <= u64::MAX
    &&& e.1.len() <= u64::MAX
}

pub proof fn lemma_ss_entry_rt(e: SsEntryV, rest: Seq<u64>)
    requires
        ss_entry_bounds(e),
    ensures
        dec_ss_entry(enc_ss_entry(e) + rest) == Some((e, rest)),
{
    assert(enc_ss_entry(e) + rest =~= enc_list(words_of_bytes8(e.0)) + (enc_list(
        words_of_ids(e.1),
    ) + rest));
    lemma_list_rt(words_of_bytes8(e.0), enc_list(words_of_ids(e.1)) + rest);
    lemma_bytes8_conv(e.0);
    lemma_list_rt(words_of_ids(e.1), rest);
    lemma_ids_conv(e.1);
}

pub open spec fn enc_ss_seq(es: Seq<SsEntryV>) -> Seq<u64>
    decreases es.len(),
{
    if es.len() == 0 {
        Seq::<u64>::empty()
    } else {
        enc_ss_entry(es.first()) + enc_ss_seq(es.drop_first())
    }
}

pub open spec fn dec_ss_n(ws: Seq<u64>, n: nat) -> Option<(Seq<SsEntryV>, Seq<u64>)>
    decreases n,
{
    if n == 0 {
        Some((Seq::<SsEntryV>::empty(), ws))
    } else {
        match dec_ss_entry(ws) {
            Some((e, r)) => match dec_ss_n(r, (n - 1) as nat) {
                Some((es, r2)) => Some((seq![e] + es, r2)),
                None => None,
            },
            None => None,
        }
    }
}

pub proof fn lemma_ss_seq_rt(es: Seq<SsEntryV>, rest: Seq<u64>)
    requires
        forall|i: int| 0 <= i < es.len() ==> ss_entry_bounds(#[trigger] es[i]),
    ensures
        dec_ss_n(enc_ss_seq(es) + rest, es.len()) == Some((es, rest)),
    decreases es.len(),
{
    if es.len() == 0 {
        assert(enc_ss_seq(es) + rest =~= rest);
    } else {
        let hd = es.first();
        let tl = es.drop_first();
        assert(es[0] == hd);
        assert forall|i: int| 0 <= i < tl.len() implies ss_entry_bounds(#[trigger] tl[i]) by {
            assert(tl[i] == es[i + 1]);
        }
        lemma_ss_seq_rt(tl, rest);
        assert(enc_ss_seq(es) + rest =~= enc_ss_entry(hd) + (enc_ss_seq(tl) + rest));
        lemma_ss_entry_rt(hd, enc_ss_seq(tl) + rest);
        assert(seq![hd] + tl =~= es);
    }
}

// ---------------------------------------------------------------------
// Components and whole-state words.
// ---------------------------------------------------------------------
/// Validity of decoded metadata views: each entry's variants distinct,
/// Devanagari forms distinct across entries.
pub open spec fn metas_v_wf(ms: Seq<MetaV>) -> bool {
    &&& forall|i: int, a: int, b: int|
        0 <= i < ms.len() && 0 <= a < b < ms[i].2.len() ==> #[trigger] ms[i].2[a]
            != #[trigger] ms[i].2[b]
    &&& forall|i: int, j: int|
        0 <= i < j < ms.len() ==> (#[trigger] ms[i]).0 != (#[trigger] ms[j]).0
}

/// Validity of decoded node views against a metadata count: the root
/// exists, child links point strictly forward and in range, child bytes
/// are unique, and terminal words are in range.
pub open spec fn nodes_v_wf(ns: Seq<NodeV>, meta_count: int) -> bool {
    &&& ns.len() >= 1
    &&& forall|n: int, j: int|
        0 <= n < ns.len() && 0 <= j < (#[trigger] ns[n]).1.len() ==> n < #[trigger] ns[n].1[j]
            < ns.len()
    &&& forall|n: int, a: int, b: int|
        0 <= n < ns.len() && 0 <= a < b < ns[n].0.len() ==> #[trigger] ns[n].0[a]
            != #[trigger] ns[n].0[b]
    &&& forall|n: int|
        0 <= n < ns.len() ==> ((#[trigger] ns[n]).2 matches Some(id) ==> id < meta_count)
}

/// Validity of a decoded context view: history within capacity, bigram
/// keys distinct, counts positive.
pub open spec fn ctx_v_wf(c: CtxV) -> bool {
    &&& c.1.len() <= c.0
    &&& bigram_keys_distinct(c.2)
    &&& forall|j: int| 0 <= j < c.2.len() ==> (#[trigger] c.2[j]).2 >= 1
}

/// Validity of decoded fuzzy-index entries: keys distinct.
pub open spec fn ss_v_wf(es: Seq<SsEntryV>) -> bool {
    forall|i: int, j: int| 0 <= i < j < es.len() ==> (#[trigger] es[i]).0 != (#[trigger] es[j]).0
}

pub open spec fn enc_ctx(c: CtxV) -> Seq<u64> {
    seq![c.0 as u64] + enc_list(words_of_ids(c.1)) + enc_list(
        words_of_ids(c.2.map_values(|e: (WordId, WordId, u64)| e.0)),
    ) + enc_list(words_of_ids(c.2.map_values(|e: (WordId, WordId, u64)| e.1))) + enc_list(
        c.2.map_values(|e: (WordId, WordId, u64)| e.2),
    )
}

pub open spec fn dec_ctx(ws: Seq<u64>) -> Option<(CtxV, Seq<u64>)> {
    match dec_u64(ws) {
        Some((cap, r)) => if cap <= usize::MAX as u64 {
            match dec_list(r) {
                Some((hw, r2)) => match ids_of(hw) {
                    Some(hist) => match dec_list(r2) {
                        Some((pw, r3)) => match ids_of(pw) {
                            Some(prevs) => match dec_list(r3) {
                                Some((cw, r4)) => match ids_of(cw) {
                                    Some(curs) => match dec_list(r4) {
                                        Some((counts, r5)) => if prevs.len() == curs.len()
                                            && curs.len() == counts.len() {
                                            let entries = Seq::new(
                                                prevs.len(),
                                                |i: int| (prevs[i], curs[i], counts[i]),
                                            );
                                            if ctx_v_wf((cap as usize, hist, entries)) {
                                                Some(((cap as usize, hist, entries), r5))
                                            } else {
                                                None
                                            }
                                        } else {
                                            None
                                        },
                                        None => None,
                                    },
                                    None => None,
                                },
                                None => None,
                            },
                            None => None,
                        },
                        None => None,
                    },
                    None => None,
                },
                None => None,
            }
        } else {
            None
        },
        None => None,
    }
}

pub open spec fn ctx_bounds(c: CtxV) -> bool {
    &&& c.1.len() <= u64::MAX
    &&& c.2.len() <= u64::MAX
}

pub proof fn lemma_ctx_rt(c: CtxV, rest: Seq<u64>)
    requires
        ctx_bounds(c),
        ctx_v_wf(c),
    ensures
        dec_ctx(enc_ctx(c) + rest) == Some((c, rest)),
{
    let prevs = c.2.map_values(|e: (WordId, WordId, u64)| e.0);
    let curs = c.2.map_values(|e: (WordId, WordId, u64)| e.1);
    let counts = c.2.map_values(|e: (WordId, WordId, u64)| e.2);
    let t1 = enc_list(words_of_ids(c.1)) + (enc_list(words_of_ids(prevs)) + (enc_list(
        words_of_ids(curs),
    ) + (enc_list(counts) + rest)));
    assert(enc_ctx(c) + rest =~= seq![c.0 as u64] + t1);
    assert((seq![c.0 as u64] + t1)[0] == c.0 as u64);
    assert((seq![c.0 as u64] + t1).skip(1) =~= t1);
    lemma_list_rt(
        words_of_ids(c.1),
        enc_list(words_of_ids(prevs)) + (enc_list(words_of_ids(curs)) + (enc_list(counts)
            + rest)),
    );
    lemma_ids_conv(c.1);
    lemma_list_rt(words_of_ids(prevs), enc_list(words_of_ids(curs)) + (enc_list(counts) + rest));
    lemma_ids_conv(prevs);
    lemma_list_rt(words_of_ids(curs), enc_list(counts) + rest);
    lemma_ids_conv(curs);
    lemma_list_rt(counts, rest);
    let entries = Seq::new(prevs.len(), |i: int| (prevs[i], curs[i], counts[i]));
    assert(entries =~= c.2);
}

pub open spec fn enc_ss(s: (usize, Seq<SsEntryV>)) -> Seq<u64> {
    seq![s.0 as u64, s.1.len() as u64] + enc_ss_seq(s.1)
}

pub open spec fn dec_ss(ws: Seq<u64>) -> Option<((usize, Seq<SsEntryV>), Seq<u64>)> {
    match dec_u64(ws) {
        Some((d, r)) => if d <= usize::MAX as u64 {
            match dec_u64(r) {
                Some((n, r2)) => match dec_ss_n(r2, n as nat) {
                    Some((es, r3)) => if ss_v_wf(es) {
                        Some(((d as usize, es), r3))
                    } else {
                        None
                    },
                    None => None,
                },
                None => None,
            }
        } else {
            None
        },
        None => None,
    }
}

pub proof fn lemma_ss_rt(s: (usize, Seq<SsEntryV>), rest: Seq<u64>)
    requires
        s.1.len() <= u64::MAX,
        forall|i: int| 0 <= i < s.1.len() ==> ss_entry_bounds(#[trigger] s.1[i]),
        ss_v_wf(s.1),
    ensures
        dec_ss(enc_ss(s) + rest) == Some((s, rest)),
{
    let ws = enc_ss(s) + rest;
    assert(ws[0] == s.0 as u64);
    assert(ws.skip(1) =~= seq![s.1.len() as u64] + (enc_ss_seq(s.1) + rest));
    assert(ws.skip(1)[0] == s.1.len() as u64);
    assert(ws.skip(1).skip(1) =~= enc_ss_seq(s.1) + rest);
    lemma_ss_seq_rt(s.1, rest);
}

pub open spec fn enc_state_words(v: StateV) -> Seq<u64> {
    seq![SNAPSHOT_MAGIC, SNAPSHOT_VERSION, v.0.len() as u64] + enc_metas_seq(v.0) + seq![
        v.1.len() as u64,
    ] + enc_nodes_seq(v.1) + enc_ctx(v.2) + enc_ss(v.3)
}

/// Reads a count, then that many metadata entries.
pub open spec fn dec_metas_counted(ws: Seq<u64>) -> Option<(Seq<MetaV>, Seq<u64>)> {
    match dec_u64(ws) {
        Some((nm, r)) => dec_metas_n(r, nm as nat),
        None => None,
    }
}

/// Reads a count, then that many nodes.
pub open spec fn dec_nodes_counted(ws: Seq<u64>) -> Option<(Seq<NodeV>, Seq<u64>)> {
    match dec_u64(ws) {
        Some((nn, r)) => dec_nodes_n(r, nn as nat),
        None => None,
    }
}

pub open spec fn dec_state_words(ws: Seq<u64>) -> Option<StateV> {
    match dec_u64(ws) {
        Some((magic, r)) => if magic == SNAPSHOT_MAGIC {
            match dec_u64(r) {
                Some((version, r2)) => if version == SNAPSHOT_VERSION {
                    match dec_metas_counted(r2) {
                        Some((ms, r4)) => match dec_nodes_counted(r4) {
                            Some((ns, r6)) => match dec_ctx(r6) {
                                Some((cv, r7)) => match dec_ss(r7) {
                                    Some((sv, r8)) => if r8.len() == 0 && metas_v_wf(ms)
                                        && nodes_v_wf(ns, ms.len() as int) {
                                        Some((ms, ns, cv, sv))
                                    } else {
                                        None
                                    },
                                    None => None,
                                },
                                None => None,
                            },
                            None => None,
                        },
                        None => None,
                    }
                } else {
                    None
                },
                None => None,
            }
        } else {
            None
        },
        None => None,
    }
}

// ---------------------------------------------------------------------
// Words as bytes.
// ---------------------------------------------------------------------
pub open spec fn bytes_of_words(ws: Seq<u64>) -> Seq<u8>
    decreases ws.len(),
{
    if ws.len() == 0 {
        Seq::<u8>::empty()
    } else {
        spec_u64_to_le_bytes(ws.first()) + bytes_of_words(ws.drop_first())
    }
}

pub open spec fn words_of_bytes(bs: Seq<u8>) -> Seq<u64>
    decreases bs.len(),
{
    if bs.len() < 8 {
        Seq::<u64>::empty()
    } else {
        seq![spec_u64_from_le_bytes(bs.take(8))] + words_of_bytes(bs.skip(8))
    }
}

/// Words written as bytes read back unchanged, and the byte count is a
/// whole number of words.
pub proof fn lemma_words_bytes_rt(ws: Seq<u64>)
    ensures
        bytes_of_words(ws).len() == ws.len() * 8,
        words_of_bytes(bytes_of_words(ws)) == ws,
    decreases ws.len(),
{
    vstd::bytes::lemma_auto_spec_u64_to_from_le_bytes();
    if ws.len() == 0 {
    } else {
        let hd = ws.first();
        let tl = ws.drop_first();
        lemma_words_bytes_rt(tl);
        let bs = bytes_of_words(ws);
        assert(bs =~= spec_u64_to_le_bytes(hd) + bytes_of_words(tl));
        assert(spec_u64_to_le_bytes(hd).len() == 8);
        assert(ws.len() * 8 == 8 + tl.len() * 8) by (nonlinear_arith)
            requires
                ws.len() == tl.len() + 1,
        {
        }
        assert(bs.take(8) =~= spec_u64_to_le_bytes(hd));
        assert(bs.skip(8) =~= bytes_of_words(tl));
        assert(words_of_bytes(bs) =~= ws);
    }
}

/// The whole snapshot: the state's words written as little-endian bytes.
pub open spec fn spec_encode_state(v: StateV) -> Seq<u8> {
    bytes_of_words(enc_state_words(v))
}

/// Decoding a snapshot: bytes to words, then the state; only a snapshot
/// that carries the expected magic and version, parses completely and
/// satisfies every component invariant is accepted.
pub open spec fn spec_decode_state(bs: Seq<u8>) -> Option<StateV> {
    if bs.len() % 8 == 0 {
        dec_state_words(words_of_bytes(bs))
    } else {
        None
    }
}


// ---------------------------------------------------------------------
// Appending one record extends its run.
// ---------------------------------------------------------------------
pub proof fn lemma_enc_chars_seq_push(vs: Seq<Seq<char>>, x: Seq<char>)
    ensures
        enc_chars_seq(vs.push(x)) == enc_chars_seq(vs) + enc_chars(x),
    decreases vs.len(),
{
    if vs.len() == 0 {
        assert(vs.push(x).first() == x);
        assert(vs.push(x).drop_first() =~= Seq::<Seq<char>>::empty());
        assert(enc_chars_seq(vs.push(x)) == enc_chars(x) + enc_chars_seq(
            Seq::<Seq<char>>::empty(),
        ));
        assert(enc_chars_seq(vs.push(x)) =~= enc_chars_seq(vs) + enc_chars(x));
    } else {
        assert(vs.push(x).first() == vs.first());
        assert(vs.push(x).drop_first() =~= vs.drop_first().push(x));
        lemma_enc_chars_seq_push(vs.drop_first(), x);
        assert(enc_chars_seq(vs.push(x)) == enc_chars(vs.first()) + enc_chars_seq(
            vs.drop_first().push(x),
        ));
        assert(enc_chars_seq(vs.push(x)) =~= enc_chars_seq(vs) + enc_chars(x));
    }
}

pub proof fn lemma_enc_metas_seq_push(ms: Seq<MetaV>, x: MetaV)
    ensures
        enc_metas_seq(ms.push(x)) == enc_metas_seq(ms) + enc_meta(x),
    decreases ms.len(),
{
    if ms.len() == 0 {
        assert(ms.push(x).first() == x);
        assert(ms.push(x).drop_first() =~= Seq::<MetaV>::empty());
        assert(enc_metas_seq(ms.push(x)) == enc_meta(x) + enc_metas_seq(Seq::<MetaV>::empty()));
        assert(enc_metas_seq(ms.push(x)) =~= enc_metas_seq(ms) + enc_meta(x));
    } else {
        assert(ms.push(x).first() == ms.first());
        assert(ms.push(x).drop_first() =~= ms.drop_first().push(x));
        lemma_enc_metas_seq_push(ms.drop_first(), x);
        assert(enc_metas_seq(ms.push(x)) == enc_meta(ms.first()) + enc_metas_seq(
            ms.drop_first().push(x),
        ));
        assert(enc_metas_seq(ms.push(x)) =~= enc_metas_seq(ms) + enc_meta(x));
    }
}

pub proof fn lemma_enc_nodes_seq_push(ns: Seq<NodeV>, x: NodeV)
    ensures
        enc_nodes_seq(ns.push(x)) == enc_nodes_seq(ns) + enc_node(x),
    decreases ns.len(),
{
    if ns.len() == 0 {
        assert(ns.push(x).first() == x);
        assert(ns.push(x).drop_first() =~= Seq::<NodeV>::empty());
        assert(enc_nodes_seq(ns.push(x)) == enc_node(x) + enc_nodes_seq(Seq::<NodeV>::empty()));
        assert(enc_nodes_seq(ns.push(x)) =~= enc_nodes_seq(ns) + enc_node(x));
    } else {
        assert(ns.push(x).first() == ns.first());
        assert(ns.push(x).drop_first() =~= ns.drop_first().push(x));
        lemma_enc_nodes_seq_push(ns.drop_first(), x);
        assert(enc_nodes_seq(ns.push(x)) == enc_node(ns.first()) + enc_nodes_seq(
            ns.drop_first().push(x),
        ));
        assert(enc_nodes_seq(ns.push(x)) =~= enc_nodes_seq(ns) + enc_node(x));
    }
}

pub proof fn lemma_enc_ss_seq_push(es: Seq<SsEntryV>, x: SsEntryV)
    ensures
        enc_ss_seq(es.push(x)) == enc_ss_seq(es) + enc_ss_entry(x),
    decreases es.len(),
{
    if es.len() == 0 {
        assert(es.push(x).first() == x);
        assert(es.push(x).drop_first() =~= Seq::<SsEntryV>::empty());
        assert(enc_ss_seq(es.push(x)) == enc_ss_entry(x) + enc_ss_seq(Seq::<SsEntryV>::empty()));
        assert(enc_ss_seq(es.push(x)) =~= enc_ss_seq(es) + enc_ss_entry(x));
    } else {
        assert(es.push(x).first() == es.first());
        assert(es.push(x).drop_first() =~= es.drop_first().push(x));
        lemma_enc_ss_seq_push(es.drop_first(), x);
        assert(enc_ss_seq(es.push(x)) == enc_ss_entry(es.first()) + enc_ss_seq(
            es.drop_first().push(x),
        ));
        assert(enc_ss_seq(es.push(x)) =~= enc_ss_seq(es) + enc_ss_entry(x));
    }
}

// ---------------------------------------------------------------------
// The round trip.
// ---------------------------------------------------------------------
/// Character counts of the stored strings are machine-representable;
/// every state held in memory satisfies this.
pub open spec fn snapshot_bounds(e: ImeEngine) -> bool {
    forall|i: int|
        0 <= i < e.trie_builder.metadata_store@.len() ==> {
            &&& (#[trigger] e.trie_builder.metadata_store@[i]).devanagari@.len() <= u64::MAX
            &&& forall|j: int|
                0 <= j < e.trie_builder.metadata_store@[i].variants@.len() ==> (
                #[trigger] e.trie_builder.metadata_store@[i].variants@[j])@.len() <= u64::MAX
        }
}

/// Decoding an encoded snapshot of a well-formed engine gives back
/// exactly the state it captured: the metadata store, the trie nodes,
/// the context model and the fuzzy index, all structurally equal.
/// Bounds and view-level validity of a well-formed engine's state.
#[verifier::rlimit(100)]
proof fn lemma_state_valid(e: ImeEngine)
    requires
        e.wf(),
        snapshot_bounds(e),
    ensures
        forall|i: int| 0 <= i < state_v(e).0.len() ==> meta_bounds(#[trigger] state_v(e).0[i]),
        forall|i: int| 0 <= i < state_v(e).1.len() ==> node_bounds(#[trigger] state_v(e).1[i]),
        forall|i: int|
            0 <= i < state_v(e).3.1.len() ==> ss_entry_bounds(#[trigger] state_v(e).3.1[i]),
        state_v(e).0.len() <= u64::MAX,
        state_v(e).1.len() <= u64::MAX,
        state_v(e).3.1.len() <= u64::MAX,
        ctx_bounds(state_v(e).2),
        ctx_v_wf(state_v(e).2),
        metas_v_wf(state_v(e).0),
        nodes_v_wf(state_v(e).1, state_v(e).0.len() as int),
        ss_v_wf(state_v(e).3.1),
{
    broadcast use vstd::std_specs::vec::axiom_spec_len;

    let v = state_v(e);
    let ms = v.0;
    let ns = v.1;
    let cv = v.2;
    let sv = v.3;
    // Bounds on every run length.
    assert(spec_vec_len(&e.trie_builder.metadata_store) == ms.len());
    assert(spec_vec_len(&e.trie_builder.nodes) == ns.len());
    assert forall|i: int| 0 <= i < ms.len() implies meta_bounds(#[trigger] ms[i]) by {
        let m = e.trie_builder.metadata_store@[i];
        assert(ms[i] == meta_v(m));
        assert(spec_vec_len(&m.variants) == m.variants@.len());
        assert forall|j: int| 0 <= j < ms[i].2.len() implies (#[trigger] ms[i].2[j]).len()
            <= u64::MAX by {
            assert(ms[i].2[j] == m.variants@[j]@);
        }
    }
    assert forall|i: int| 0 <= i < ns.len() implies node_bounds(#[trigger] ns[i]) by {
        let n = e.trie_builder.nodes@[i];
        assert(ns[i] == node_v(n));
        assert(spec_vec_len(&n.children) == n.children@.len());
    }
    assert(spec_vec_len(&e.context_model.history) == cv.1.len());
    assert(spec_vec_len(&e.context_model.bigrams) == cv.2.len());
    assert(spec_vec_len(&e.symspell.deletes) == sv.1.len());
    assert forall|i: int| 0 <= i < sv.1.len() implies ss_entry_bounds(#[trigger] sv.1[i]) by {
        let d = e.symspell.deletes@[i];
        assert(sv.1[i] == (d.0@, d.1@));
        assert(spec_vec_len(&d.0) == d.0@.len());
        assert(spec_vec_len(&d.1) == d.1@.len());
    }
    // Validity of the views, from well-formedness.
    assert(metas_v_wf(ms)) by {
        assert forall|i: int, a: int, b: int|
            0 <= i < ms.len() && 0 <= a < b < ms[i].2.len() implies #[trigger] ms[i].2[a]
            != #[trigger] ms[i].2[b] by {
            let m = e.trie_builder.metadata_store@[i];
            assert(e.trie_builder.metas()[i].wf());
            assert(ms[i].2[a] == m.variants@[a]@);
            assert(ms[i].2[b] == m.variants@[b]@);
        }
        assert forall|i: int, j: int| 0 <= i < j < ms.len() implies (#[trigger] ms[i]).0 != (
        #[trigger] ms[j]).0 by {
            assert(ms[i].0 == e.trie_builder.metas()[i].devanagari@);
            assert(ms[j].0 == e.trie_builder.metas()[j].devanagari@);
        }
    }
    assert(nodes_v_wf(ns, ms.len() as int)) by {
        assert forall|n: int, j: int|
            0 <= n < ns.len() && 0 <= j < (#[trigger] ns[n]).1.len() implies n < #[trigger] ns[n].1[j] < ns.len() by {
            let nd = e.trie_builder.nodes@[n];
            assert(ns[n].1[j] == nd.children@[j].1);
        }
        assert forall|n: int, a: int, b: int|
            0 <= n < ns.len() && 0 <= a < b < ns[n].0.len() implies #[trigger] ns[n].0[a]
            != #[trigger] ns[n].0[b] by {
            let nd = e.trie_builder.nodes@[n];
            assert(ns[n].0[a] == nd.children@[a].0);
            assert(ns[n].0[b] == nd.children@[b].0);
        }
        assert forall|n: int| 0 <= n < ns.len() implies ((#[trigger] ns[n]).2 matches Some(id)
            ==> id < ms.len() as int) by {
            let nd = e.trie_builder.nodes@[n];
            assert(ns[n].2 == nd.word_id);
        }
    }
    e.context_model.lemma_wf_fields();
    assert(ctx_v_wf(cv));
    assert(ctx_bounds(cv));
    e.symspell.lemma_wf_fields();
    assert(ss_v_wf(sv.1)) by {
        assert forall|i: int, j: int| 0 <= i < j < sv.1.len() implies (#[trigger] sv.1[i]).0 != (
        #[trigger] sv.1[j]).0 by {
            assert(sv.1[i].0 == e.symspell.deletes@[i].0@);
            assert(sv.1[j].0 == e.symspell.deletes@[j].0@);
        }
    }
}

/// A valid state's words decode to exactly that state.
#[verifier::rlimit(100)]
proof fn lemma_words_round_trip(v: StateV)
    requires
        forall|i: int| 0 <= i < v.0.len() ==> meta_bounds(#[trigger] v.0[i]),
        forall|i: int| 0 <= i < v.1.len() ==> node_bounds(#[trigger] v.1[i]),
        forall|i: int| 0 <= i < v.3.1.len() ==> ss_entry_bounds(#[trigger] v.3.1[i]),
        v.0.len() <= u64::MAX,
        v.1.len() <= u64::MAX,
        v.3.1.len() <= u64::MAX,
        ctx_bounds(v.2),
        ctx_v_wf(v.2),
        metas_v_wf(v.0),
        nodes_v_wf(v.1, v.0.len() as int),
        ss_v_wf(v.3.1),
    ensures
        dec_state_words(enc_state_words(v)) == Some(v),
{
    let ms = v.0;
    let ns = v.1;
    let cv = v.2;
    let sv = v.3;
    let w_ss = enc_ss(sv);
    let w_ctx = enc_ctx(cv) + w_ss;
    let w_nodes = enc_nodes_seq(ns) + w_ctx;
    let w_nn = seq![ns.len() as u64] + w_nodes;
    let w_metas = enc_metas_seq(ms) + w_nn;
    let ws = enc_state_words(v);
    assert(ws =~= seq![SNAPSHOT_MAGIC, SNAPSHOT_VERSION, ms.len() as u64] + w_metas);
    assert(ws[0] == SNAPSHOT_MAGIC);
    assert(ws.skip(1) =~= seq![SNAPSHOT_VERSION, ms.len() as u64] + w_metas);
    assert(ws.skip(1)[0] == SNAPSHOT_VERSION);
    assert(ws.skip(1).skip(1) =~= seq![ms.len() as u64] + w_metas);
    assert(ws.skip(1).skip(1)[0] == ms.len() as u64);
    assert(ws.skip(1).skip(1).skip(1) =~= w_metas);
    lemma_metas_seq_rt(ms, w_nn);
    assert(w_nn[0] == ns.len() as u64);
    assert(w_nn.skip(1) =~= w_nodes);
    lemma_nodes_seq_rt(ns, w_ctx);
    lemma_ctx_rt(cv, w_ss);
    lemma_ss_rt(sv, Seq::<u64>::empty());
    assert(enc_ss(sv) + Seq::<u64>::empty() =~= w_ss);
    assert(dec_state_words(ws) == Some(v));
}

/// Decoding an encoded snapshot of a well-formed engine gives back
/// exactly the state it captured: the metadata store, the trie nodes,
/// the context model and the fuzzy index, all structurally equal.
pub proof fn lemma_snapshot_round_trip(e: ImeEngine)
    requires
        e.wf(),
        snapshot_bounds(e),
    ensures
        spec_decode_state(spec_encode_state(state_v(e))) == Some(state_v(e)),
{
    lemma_state_valid(e);
    lemma_words_round_trip(state_v(e));
    let ws = enc_state_words(state_v(e));
    lemma_words_bytes_rt(ws);
    assert(ws.len() * 8 % 8 == 0) by (nonlinear_arith);
}

// ---------------------------------------------------------------------
// Executable encoder.
// ---------------------------------------------------------------------
/// Appends the characters of `s` as a length-prefixed run of scalar
/// words.
fn write_chars(ws: &mut Vec<u64>, s: &String)
    ensures
        final(ws)@ == old(ws)@ + enc_chars(s@),
{
    let st = s.as_str();
    let n = st.unicode_len();
    ws.push(n as u64);
    let mut i: usize = 0;
    proof {
        assert(words_of_chars(s@.take(0)) =~= Seq::<u64>::empty());
        assert(ws@ =~= old(ws)@ + seq![s@.len() as u64] + words_of_chars(s@.take(0)));
    }
    while i < n
        invariant
            st@ == s@,
            n == s@.len(),
            i <= n,
            ws@ == old(ws)@ + seq![s@.len() as u64] + words_of_chars(s@.take(i as int)),
        decreases n - i,
    {
        let c = st.get_char(i);
        ws.push(c as u64);
        proof {
            assert(words_of_chars(s@.take(i + 1)) =~= words_of_chars(s@.take(i as int)).push(
                s@[i as int] as u64,
            ));
            assert(ws@ =~= old(ws)@ + seq![s@.len() as u64] + words_of_chars(s@.take(i + 1)));
        }
        i += 1;
    }
    proof {
        assert(s@.take(s@.len() as int) =~= s@);
        assert(old(ws)@ + seq![s@.len() as u64] + words_of_chars(s@) =~= old(ws)@ + enc_chars(
            s@,
        ));
    }
}

/// Appends identifiers as a length-prefixed run of words.
fn write_ids(ws: &mut Vec<u64>, v: &Vec<usize>)
    ensures
        final(ws)@ == old(ws)@ + enc_list(words_of_ids(v@)),
{
    let n = v.len();
    ws.push(n as u64);
    let mut i: usize = 0;
    proof {
        assert(words_of_ids(v@.take(0)) =~= Seq::<u64>::empty());
        assert(ws@ =~= old(ws)@ + seq![v@.len() as u64] + words_of_ids(v@.take(0)));
    }
    while i < n
        invariant
            n == v@.len(),
            i <= n,
            ws@ == old(ws)@ + seq![v@.len() as u64] + words_of_ids(v@.take(i as int)),
        decreases n - i,
    {
        let x = v[i];
        ws.push(x as u64);
        proof {
            assert(words_of_ids(v@.take(i + 1)) =~= words_of_ids(v@.take(i as int)).push(
                v@[i as int] as u64,
            ));
            assert(ws@ =~= old(ws)@ + seq![v@.len() as u64] + words_of_ids(v@.take(i + 1)));
        }
        i += 1;
    }
    proof {
        assert(v@.take(v@.len() as int) =~= v@);
        assert(old(ws)@ + seq![v@.len() as u64] + words_of_ids(v@) =~= old(ws)@ + enc_list(
            words_of_ids(v@),
        ));
    }
}

/// Appends bytes as a length-prefixed run of words.
fn write_bytes(ws: &mut Vec<u64>, v: &Vec<u8>)
    ensures
        final(ws)@ == old(ws)@ + enc_list(words_of_bytes8(v@)),
{
    let n = v.len();
    ws.push(n as u64);
    let mut i: usize = 0;
    proof {
        assert(words_of_bytes8(v@.take(0)) =~= Seq::<u64>::empty());
        assert(ws@ =~= old(ws)@ + seq![v@.len() as u64] + words_of_bytes8(v@.take(0)));
    }
    while i < n
        invariant
            n == v@.len(),
            i <= n,
            ws@ == old(ws)@ + seq![v@.len() as u64] + words_of_bytes8(v@.take(i as int)),
        decreases n - i,
    {
        let x = v[i];
        ws.push(x as u64);
        proof {
            assert(words_of_bytes8(v@.take(i + 1)) =~= words_of_bytes8(v@.take(i as int)).push(
                v@[i as int] as u64,
            ));
            assert(ws@ =~= old(ws)@ + seq![v@.len() as u64] + words_of_bytes8(v@.take(i + 1)));
        }
        i += 1;
    }
    proof {
        assert(v@.take(v@.len() as int) =~= v@);
        assert(old(ws)@ + seq![v@.len() as u64] + words_of_bytes8(v@) =~= old(ws)@ + enc_list(
            words_of_bytes8(v@),
        ));
    }
}

/// Appends one metadata entry.
fn write_meta(ws: &mut Vec<u64>, m: &WordMetadata)
    ensures
        final(ws)@ == old(ws)@ + enc_meta(meta_v(*m)),
{
    write_chars(ws, &m.devanagari);
    ws.push(m.frequency);
    ws.push(m.variants.len() as u64);
    let ghost base = ws@;
    let ghost vs = meta_v(*m).2;
    let n = m.variants.len();
    let mut j: usize = 0;
    proof {
        assert(vs.take(0) =~= Seq::<Seq<char>>::empty());
        assert(ws@ =~= base + enc_chars_seq(vs.take(0)));
    }
    while j < n
        invariant
            n == m.variants@.len(),
            vs == meta_v(*m).2,
            vs.len() == n,
            j <= n,
            ws@ == base + enc_chars_seq(vs.take(j as int)),
        decreases n - j,
    {
        write_chars(ws, &m.variants[j]);
        proof {
            assert(vs.take(j + 1) =~= vs.take(j as int).push(vs[j as int]));
            lemma_enc_chars_seq_push(vs.take(j as int), vs[j as int]);
            assert(vs[j as int] == m.variants@[j as int]@);
            assert(ws@ =~= base + enc_chars_seq(vs.take(j + 1)));
        }
        j += 1;
    }
    proof {
        assert(vs.take(vs.len() as int) =~= vs);
        assert(ws@ =~= old(ws)@ + enc_meta(meta_v(*m)));
    }
}

/// Appends one trie node.
fn write_node(ws: &mut Vec<u64>, n: &Node)
    ensures
        final(ws)@ == old(ws)@ + enc_node(node_v(*n)),
{
    let ghost nv = node_v(*n);
    let count = n.children.len();
    ws.push(count as u64);
    let mut j: usize = 0;
    proof {
        assert(nv.0.take(0) =~= Seq::<u8>::empty());
        assert(words_of_bytes8(nv.0.take(0)) =~= Seq::<u64>::empty());
        assert(ws@ =~= old(ws)@ + seq![nv.0.len() as u64] + words_of_bytes8(nv.0.take(0)));
    }
    while j < count
        invariant
            count == n.children@.len(),
            nv == node_v(*n),
            nv.0.len() == count,
            j <= count,
            ws@ == old(ws)@ + seq![nv.0.len() as u64] + words_of_bytes8(nv.0.take(j as int)),
        decreases count - j,
    {
        let b = n.children[j].0;
        ws.push(b as u64);
        proof {
            assert(nv.0[j as int] == n.children@[j as int].0);
            assert(words_of_bytes8(nv.0.take(j + 1)) =~= words_of_bytes8(
                nv.0.take(j as int),
            ).push(nv.0[j as int] as u64));
            assert(ws@ =~= old(ws)@ + seq![nv.0.len() as u64] + words_of_bytes8(
                nv.0.take(j + 1),
            ));
        }
        j += 1;
    }
    let ghost base2 = ws@;
    proof {
        assert(nv.0.take(count as int) =~= nv.0);
        assert(base2 =~= old(ws)@ + enc_list(words_of_bytes8(nv.0)));
    }
    ws.push(count as u64);
    let mut j: usize = 0;
    proof {
        assert(nv.1.take(0) =~= Seq::<usize>::empty());
        assert(words_of_ids(nv.1.take(0)) =~= Seq::<u64>::empty());
        assert(ws@ =~= base2 + seq![nv.1.len() as u64] + words_of_ids(nv.1.take(0)));
    }
    while j < count
        invariant
            count == n.children@.len(),
            nv == node_v(*n),
            nv.1.len() == count,
            j <= count,
            ws@ == base2 + seq![nv.1.len() as u64] + words_of_ids(nv.1.take(j as int)),
        decreases count - j,
    {
        let c = n.children[j].1;
        ws.push(c as u64);
        proof {
            assert(nv.1[j as int] == n.children@[j as int].1);
            assert(words_of_ids(nv.1.take(j + 1)) =~= words_of_ids(nv.1.take(j as int)).push(
                nv.1[j as int] as u64,
            ));
            assert(ws@ =~= base2 + seq![nv.1.len() as u64] + words_of_ids(nv.1.take(j + 1)));
        }
        j += 1;
    }
    proof {
        assert(nv.1.take(count as int) =~= nv.1);
    }
    match n.word_id {
        Some(id) => {
            ws.push(1);
            ws.push(id as u64);
        },
        None => {
            ws.push(0);
            ws.push(0);
        },
    }
    ws.push(n.max_freq_in_subtree);
    proof {
        assert(ws@ =~= old(ws)@ + enc_node(nv));
    }
}

/// Appends the metadata section: a count, then the entries.
fn write_metas_section(ws: &mut Vec<u64>, t: &Trie)
    ensures
        final(ws)@ == old(ws)@ + seq![metas_v(*t).len() as u64] + enc_metas_seq(metas_v(*t)),
{
    let ghost mv = metas_v(*t);
    ws.push(t.metadata_store.len() as u64);
    let ghost head = ws@;
    let nm = t.metadata_store.len();
    let mut i: usize = 0;
    proof {
        assert(mv.take(0) =~= Seq::<MetaV>::empty());
        assert(ws@ =~= head + enc_metas_seq(mv.take(0)));
    }
    while i < nm
        invariant
            mv == metas_v(*t),
            nm == t.metadata_store@.len(),
            mv.len() == nm,
            i <= nm,
            head == old(ws)@ + seq![mv.len() as u64],
            ws@ == head + enc_metas_seq(mv.take(i as int)),
        decreases nm - i,
    {
        write_meta(ws, &t.metadata_store[i]);
        proof {
            assert(mv[i as int] == meta_v(t.metadata_store@[i as int]));
            assert(mv.take(i + 1) =~= mv.take(i as int).push(mv[i as int]));
            lemma_enc_metas_seq_push(mv.take(i as int), mv[i as int]);
            assert(ws@ =~= head + enc_metas_seq(mv.take(i + 1)));
        }
        i += 1;
    }
    proof {
        assert(mv.take(nm as int) =~= mv);
        assert(ws@ =~= old(ws)@ + seq![mv.len() as u64] + enc_metas_seq(mv));
    }
}

/// Appends the node section: a count, then the nodes.
fn write_nodes_section(ws: &mut Vec<u64>, t: &Trie)
    ensures
        final(ws)@ == old(ws)@ + seq![nodes_v(*t).len() as u64] + enc_nodes_seq(nodes_v(*t)),
{
    let ghost nv = nodes_v(*t);
    ws.push(t.nodes.len() as u64);
    let ghost head = ws@;
    let nn = t.nodes.len();
    let mut i: usize = 0;
    proof {
        assert(nv.take(0) =~= Seq::<NodeV>::empty());
        assert(ws@ =~= head + enc_nodes_seq(nv.take(0)));
    }
    while i < nn
        invariant
            nv == nodes_v(*t),
            nn == t.nodes@.len(),
            nv.len() == nn,
            i <= nn,
            head == old(ws)@ + seq![nv.len() as u64],
            ws@ == head + enc_nodes_seq(nv.take(i as int)),
        decreases nn - i,
    {
        write_node(ws, &t.nodes[i]);
        proof {
            assert(nv[i as int] == node_v(t.nodes@[i as int]));
            assert(nv.take(i + 1) =~= nv.take(i as int).push(nv[i as int]));
            lemma_enc_nodes_seq_push(nv.take(i as int), nv[i as int]);
            assert(ws@ =~= head + enc_nodes_seq(nv.take(i + 1)));
        }
        i += 1;
    }
    proof {
        assert(nv.take(nn as int) =~= nv);
        assert(ws@ =~= old(ws)@ + seq![nv.len() as u64] + enc_nodes_seq(nv));
    }
}

/// Appends the context section.
#[verifier::rlimit(100)]
fn write_ctx_section(ws: &mut Vec<u64>, c: &ContextModel)
    ensures
        final(ws)@ == old(ws)@ + enc_ctx(ctx_v(*c)),
{
    let ghost v = ctx_v(*c);
    ws.push(c.window_size as u64);
    write_ids(ws, &c.history);
    let ghost head4 = ws@;
    let nb = c.bigrams.len();
    let ghost prevs = v.2.map_values(|en: (WordId, WordId, u64)| en.0);
    ws.push(nb as u64);
    let mut i: usize = 0;
    proof {
        assert(prevs.take(0) =~= Seq::<usize>::empty());
        assert(words_of_ids(prevs.take(0)) =~= Seq::<u64>::empty());
        assert(ws@ =~= head4 + seq![prevs.len() as u64] + words_of_ids(prevs.take(0)));
    }
    while i < nb
        invariant
            v == ctx_v(*c),
            nb == c.bigrams@.len(),
            prevs == v.2.map_values(|en: (WordId, WordId, u64)| en.0),
            prevs.len() == nb,
            i <= nb,
            ws@ == head4 + seq![prevs.len() as u64] + words_of_ids(prevs.take(i as int)),
        decreases nb - i,
    {
        let x = c.bigrams[i].0;
        ws.push(x as u64);
        proof {
            assert(prevs[i as int] == c.bigrams@[i as int].0);
            assert(words_of_ids(prevs.take(i + 1)) =~= words_of_ids(prevs.take(i as int)).push(
                prevs[i as int] as u64,
            ));
            assert(ws@ =~= head4 + seq![prevs.len() as u64] + words_of_ids(prevs.take(i + 1)));
        }
        i += 1;
    }
    let ghost head5 = ws@;
    let ghost curs = v.2.map_values(|en: (WordId, WordId, u64)| en.1);
    ws.push(nb as u64);
    let mut i: usize = 0;
    proof {
        assert(prevs.take(nb as int) =~= prevs);
        assert(curs.take(0) =~= Seq::<usize>::empty());
        assert(words_of_ids(curs.take(0)) =~= Seq::<u64>::empty());
        assert(ws@ =~= head5 + seq![curs.len() as u64] + words_of_ids(curs.take(0)));
    }
    while i < nb
        invariant
            v == ctx_v(*c),
            nb == c.bigrams@.len(),
            curs == v.2.map_values(|en: (WordId, WordId, u64)| en.1),
            curs.len() == nb,
            i <= nb,
            ws@ == head5 + seq![curs.len() as u64] + words_of_ids(curs.take(i as int)),
        decreases nb - i,
    {
        let x = c.bigrams[i].1;
        ws.push(x as u64);
        proof {
            assert(curs[i as int] == c.bigrams@[i as int].1);
            assert(words_of_ids(curs.take(i + 1)) =~= words_of_ids(curs.take(i as int)).push(
                curs[i as int] as u64,
            ));
            assert(ws@ =~= head5 + seq![curs.len() as u64] + words_of_ids(curs.take(i + 1)));
        }
        i += 1;
    }
    let ghost head6 = ws@;
    let ghost counts = v.2.map_values(|en: (WordId, WordId, u64)| en.2);
    ws.push(nb as u64);
    let mut i: usize = 0;
    proof {
        assert(curs.take(nb as int) =~= curs);
        assert(counts.take(0) =~= Seq::<u64>::empty());
        assert(ws@ =~= head6 + seq![counts.len() as u64] + counts.take(0));
    }
    while i < nb
        invariant
            v == ctx_v(*c),
            nb == c.bigrams@.len(),
            counts == v.2.map_values(|en: (WordId, WordId, u64)| en.2),
            counts.len() == nb,
            i <= nb,
            ws@ == head6 + seq![counts.len() as u64] + counts.take(i as int),
        decreases nb - i,
    {
        let x = c.bigrams[i].2;
        ws.push(x);
        proof {
            assert(counts[i as int] == c.bigrams@[i as int].2);
            assert(counts.take(i + 1) =~= counts.take(i as int).push(counts[i as int]));
            assert(ws@ =~= head6 + seq![counts.len() as u64] + counts.take(i + 1));
        }
        i += 1;
    }
    proof {
        assert(counts.take(nb as int) =~= counts);
        assert(ws@ =~= old(ws)@ + enc_ctx(v));
    }
}

/// Appends the fuzzy-index section.
fn write_ss_section(ws: &mut Vec<u64>, s: &SymSpell)
    ensures
        final(ws)@ == old(ws)@ + enc_ss(ss_v(*s)),
{
    let ghost v = ss_v(*s);
    ws.push(s.max_edit_distance as u64);
    ws.push(s.deletes.len() as u64);
    let ghost head8 = ws@;
    proof {
        assert(head8 =~= old(ws)@ + seq![v.0 as u64, v.1.len() as u64]);
    }
    let ne = s.deletes.len();
    let mut i: usize = 0;
    proof {
        assert(v.1.take(0) =~= Seq::<SsEntryV>::empty());
        assert(ws@ =~= head8 + enc_ss_seq(v.1.take(0)));
    }
    while i < ne
        invariant
            v == ss_v(*s),
            ne == s.deletes@.len(),
            v.1.len() == ne,
            i <= ne,
            head8 == old(ws)@ + seq![v.0 as u64, v.1.len() as u64],
            ws@ == head8 + enc_ss_seq(v.1.take(i as int)),
        decreases ne - i,
    {
        write_bytes(ws, &s.deletes[i].0);
        write_ids(ws, &s.deletes[i].1);
        proof {
            assert(v.1[i as int] == (s.deletes@[i as int].0@, s.deletes@[i as int].1@));
            assert(v.1.take(i + 1) =~= v.1.take(i as int).push(v.1[i as int]));
            lemma_enc_ss_seq_push(v.1.take(i as int), v.1[i as int]);
            assert(ws@ =~= head8 + enc_ss_seq(v.1.take(i + 1)));
        }
        i += 1;
    }
    proof {
        assert(v.1.take(ne as int) =~= v.1);
        assert(ws@ =~= old(ws)@ + enc_ss(v));
    }
}

/// Lays the words out as little-endian bytes.
fn words_to_bytes(ws: &Vec<u64>) -> (r: Vec<u8>)
    ensures
        r@ == bytes_of_words(ws@),
{
    let mut out: Vec<u8> = Vec::new();
    let n = ws.len();
    let mut i: usize = 0;
    proof {
        assert(ws@.take(0) =~= Seq::<u64>::empty());
        assert(out@ =~= bytes_of_words(ws@.take(0)));
    }
    while i < n
        invariant
            n == ws@.len(),
            i <= n,
            out@ == bytes_of_words(ws@.take(i as int)),
        decreases n - i,
    {
        let wb = vstd::bytes::u64_to_le_bytes(ws[i]);
        let mut j: usize = 0;
        while j < 8
            invariant
                j <= 8,
                wb@.len() == 8,
                wb@ == spec_u64_to_le_bytes(ws@[i as int]),
                i < ws@.len(),
                out@ == bytes_of_words(ws@.take(i as int)) + wb@.take(j as int),
            decreases 8 - j,
        {
            let b = wb[j];
            out.push(b);
            proof {
                assert(wb@.take(j + 1) =~= wb@.take(j as int).push(wb@[j as int]));
            }
            j += 1;
        }
        proof {
            assert(wb@.take(8) =~= wb@);
            lemma_bytes_of_words_push(ws@.take(i as int), ws@[i as int]);
            assert(ws@.take(i + 1) =~= ws@.take(i as int).push(ws@[i as int]));
            assert(out@ =~= bytes_of_words(ws@.take(i + 1)));
        }
        i += 1;
    }
    proof {
        assert(ws@.take(n as int) =~= ws@);
    }
    out
}

/// The snapshot of the engine's learned state, as bytes; a pure
/// function of that state, so saving twice writes identical bytes.
pub fn encode_state(e: &ImeEngine) -> (r: Vec<u8>)
    ensures
        r@ == spec_encode_state(state_v(*e)),
{
    let ghost v = state_v(*e);
    let mut ws: Vec<u64> = Vec::new();
    ws.push(SNAPSHOT_MAGIC);
    ws.push(SNAPSHOT_VERSION);
    proof {
        assert(ws@ =~= seq![SNAPSHOT_MAGIC, SNAPSHOT_VERSION]);
    }
    write_metas_section(&mut ws, &e.trie_builder);
    write_nodes_section(&mut ws, &e.trie_builder);
    write_ctx_section(&mut ws, &e.context_model);
    write_ss_section(&mut ws, &e.symspell);
    proof {
        assert(ws@ =~= enc_state_words(v));
    }
    words_to_bytes(&ws)
}

/// Appending a word appends its bytes.
proof fn lemma_bytes_of_words_push(ws: Seq<u64>, x: u64)
    ensures
        bytes_of_words(ws.push(x)) == bytes_of_words(ws) + spec_u64_to_le_bytes(x),
    decreases ws.len(),
{
    if ws.len() == 0 {
        assert(ws.push(x).first() == x);
        assert(ws.push(x).drop_first() =~= Seq::<u64>::empty());
        assert(bytes_of_words(ws.push(x)) == spec_u64_to_le_bytes(x) + bytes_of_words(
            Seq::<u64>::empty(),
        ));
        assert(bytes_of_words(ws.push(x)) =~= bytes_of_words(ws) + spec_u64_to_le_bytes(x));
    } else {
        assert(ws.push(x).first() == ws.first());
        assert(ws.push(x).drop_first() =~= ws.drop_first().push(x));
        lemma_bytes_of_words_push(ws.drop_first(), x);
        assert(bytes_of_words(ws.push(x)) == spec_u64_to_le_bytes(ws.first())
            + bytes_of_words(ws.drop_first().push(x)));
        assert(bytes_of_words(ws.push(x)) =~= bytes_of_words(ws) + spec_u64_to_le_bytes(x));
    }
}

// ---------------------------------------------------------------------
// Executable decoder.
// ---------------------------------------------------------------------
/// Relies on char::from_u32: yields the character with scalar value `v`
/// exactly when `v` is a valid Unicode scalar value, that is, not a
/// surrogate and at most the largest code point.
#[verifier::external_body]
fn char_from_u32(v: u32) -> (r: Option<char>)
    ensures
        match r {
            Some(c) => c as u32 == v,
            None => !(v < 0xD800 || (0xE000 <= v && v <= 0x10FFFF)),
        },
{
    char::from_u32(v)
}

/// Reads one word.
fn read_word(ws: &Vec<u64>, pos: usize) -> (r: Option<(u64, usize)>)
    requires
        pos <= ws@.len(),
    ensures
        match r {
            Some((w, p2)) => p2 == pos + 1 && p2 <= ws@.len() && dec_u64(ws@.skip(pos as int))
                == Some((w, ws@.skip(p2 as int))),
            None => dec_u64(ws@.skip(pos as int)) == Option::<(u64, Seq<u64>)>::None,
        },
{
    if pos < ws.len() {
        let w = ws[pos];
        proof {
            assert(ws@.skip(pos as int)[0] == w);
            assert(ws@.skip(pos as int).skip(1) =~= ws@.skip(pos + 1));
        }
        Some((w, pos + 1))
    } else {
        proof {
            assert(ws@.skip(pos as int).len() == 0);
        }
        None
    }
}

/// Reads a length-prefixed run of words.
fn read_list_words(ws: &Vec<u64>, pos: usize) -> (r: Option<(Vec<u64>, usize)>)
    requires
        pos <= ws@.len(),
    ensures
        match r {
            Some((v, p2)) => pos < p2 <= ws@.len() && dec_list(ws@.skip(pos as int)) == Some(
                (v@, ws@.skip(p2 as int)),
            ),
            None => dec_list(ws@.skip(pos as int)) == Option::<(Seq<u64>, Seq<u64>)>::None,
        },
{
    match read_word(ws, pos) {
        Some((n, p1)) => {
            let remaining = ws.len() - p1;
            if n > remaining as u64 {
                proof {
                    assert(ws@.skip(p1 as int).len() == remaining);
                }
                return None;
            }
            let cnt = n as usize;
            let total = ws.len();
            let mut v: Vec<u64> = Vec::new();
            let mut j: usize = 0;
            proof {
                assert(v@ =~= ws@.skip(p1 as int).take(0));
            }
            while j < cnt
                invariant
                    total == ws@.len(),
                    p1 + cnt <= total,
                    j <= cnt,
                    v@ == ws@.skip(p1 as int).take(j as int),
                decreases cnt - j,
            {
                let w = ws[p1 + j];
                v.push(w);
                proof {
                    assert(ws@.skip(p1 as int)[j as int] == ws@[p1 + j]);
                    assert(ws@.skip(p1 as int).take(j + 1) =~= ws@.skip(p1 as int).take(
                        j as int,
                    ).push(ws@.skip(p1 as int)[j as int]));
                }
                j += 1;
            }
            proof {
                assert(ws@.skip(p1 as int).skip(cnt as int) =~= ws@.skip(p1 + cnt));
            }
            Some((v, p1 + cnt))
        },
        None => None,
    }
}

/// Converts words to characters, failing on any invalid scalar value.
fn chars_from_words(v: &Vec<u64>) -> (r: Option<Vec<char>>)
    ensures
        match r {
            Some(cs) => chars_of(v@) == Some(cs@),
            None => chars_of(v@) == Option::<Seq<char>>::None,
        },
{
    let mut cs: Vec<char> = Vec::new();
    let mut i: usize = 0;
    while i < v.len()
        invariant
            i <= v@.len(),
            cs@.len() == i,
            forall|j: int| 0 <= j < i ==> valid_scalar(#[trigger] v@[j]),
            forall|j: int| 0 <= j < i ==> cs@[j] == char_of(v@[j]),
        decreases v@.len() - i,
    {
        let w = v[i];
        if w > 0x10FFFF {
            proof {
                assert(!valid_scalar(v@[i as int]));
            }
            return None;
        }
        match char_from_u32(w as u32) {
            Some(c) => {
                proof {
                    lemma_char_scalar(c);
                    assert((w as u32) as u64 == w);
                    assert(c as u32 == w as u32);
                    assert((c as u32) as u64 == c as u64);
                    assert(c as u64 == w);
                    assert(char_of(w) == c);
                }
                cs.push(c);
            },
            None => {
                proof {
                    assert(!valid_scalar(v@[i as int]));
                }
                return None;
            },
        }
        i += 1;
    }
    proof {
        assert(chars_of(v@) == Some(v@.map_values(|w: u64| char_of(w))));
        assert(cs@ =~= v@.map_values(|w: u64| char_of(w)));
    }
    Some(cs)
}

/// Converts words to identifiers, failing on any out-of-range value.
fn ids_from_words(v: &Vec<u64>) -> (r: Option<Vec<usize>>)
    ensures
        match r {
            Some(ids) => ids_of(v@) == Some(ids@),
            None => ids_of(v@) == Option::<Seq<usize>>::None,
        },
{
    let mut ids: Vec<usize> = Vec::new();
    let mut i: usize = 0;
    while i < v.len()
        invariant
            i <= v@.len(),
            ids@.len() == i,
            forall|j: int| 0 <= j < i ==> #[trigger] v@[j] <= usize::MAX as u64,
            forall|j: int| 0 <= j < i ==> ids@[j] == v@[j] as usize,
        decreases v@.len() - i,
    {
        let w = v[i];
        if w > usize::MAX as u64 {
            return None;
        }
        ids.push(w as usize);
        i += 1;
    }
    proof {
        assert(ids@ =~= v@.map_values(|w: u64| w as usize));
    }
    Some(ids)
}

/// Converts words to bytes, failing on any out-of-range value.
fn bytes_from_words(v: &Vec<u64>) -> (r: Option<Vec<u8>>)
    ensures
        match r {
            Some(bs) => bytes8_of(v@) == Some(bs@),
            None => bytes8_of(v@) == Option::<Seq<u8>>::None,
        },
{
    let mut bs: Vec<u8> = Vec::new();
    let mut i: usize = 0;
    while i < v.len()
        invariant
            i <= v@.len(),
            bs@.len() == i,
            forall|j: int| 0 <= j < i ==> #[trigger] v@[j] <= 255,
            forall|j: int| 0 <= j < i ==> bs@[j] == v@[j] as u8,
        decreases v@.len() - i,
    {
        let w = v[i];
        if w > 255 {
            return None;
        }
        bs.push(w as u8);
        i += 1;
    }
    proof {
        assert(bs@ =~= v@.map_values(|w: u64| w as u8));
    }
    Some(bs)
}

/// Reads one character string.
fn read_chars(ws: &Vec<u64>, pos: usize) -> (r: Option<(Vec<char>, usize)>)
    requires
        pos <= ws@.len(),
    ensures
        match r {
            Some((cs, p2)) => pos < p2 <= ws@.len() && dec_chars(ws@.skip(pos as int)) == Some(
                (cs@, ws@.skip(p2 as int)),
            ),
            None => dec_chars(ws@.skip(pos as int)) == Option::<(Seq<char>, Seq<u64>)>::None,
        },
{
    match read_list_words(ws, pos) {
        Some((l, p2)) => match chars_from_words(&l) {
            Some(cs) => Some((cs, p2)),
            None => None,
        },
        None => None,
    }
}

/// Reads one metadata entry.
fn read_meta(ws: &Vec<u64>, pos: usize) -> (r: Option<(WordMetadata, usize)>)
    requires
        pos <= ws@.len(),
    ensures
        match r {
            Some((m, p2)) => pos < p2 <= ws@.len() && dec_meta(ws@.skip(pos as int)) == Some(
                (meta_v(m), ws@.skip(p2 as int)),
            ),
            None => dec_meta(ws@.skip(pos as int)) == Option::<(MetaV, Seq<u64>)>::None,
        },
{
    let (dev_chars, p1) = match read_chars(ws, pos) {
        Some(x) => x,
        None => {
            return None;
        },
    };
    let (freq, p2) = match read_word(ws, p1) {
        Some(x) => x,
        None => {
            return None;
        },
    };
    let (nv, p3) = match read_word(ws, p2) {
        Some(x) => x,
        None => {
            return None;
        },
    };
    let mut variants: Vec<String> = Vec::new();
    let mut pos_cur = p3;
    let mut k: u64 = 0;
    let ghost full = dec_chars_n(ws@.skip(p3 as int), nv as nat);
    proof {
        assert(match full {
            Some((vs, rest)) => dec_meta(ws@.skip(pos as int)) == Some(
                ((dev_chars@, freq, vs), rest),
            ),
            None => dec_meta(ws@.skip(pos as int)) == Option::<(MetaV, Seq<u64>)>::None,
        });
    }
    while k < nv
        invariant
            pos < pos_cur <= ws@.len(),
            k <= nv,
            variants@.len() == k,
            match full {
                Some((vs, rest)) => dec_meta(ws@.skip(pos as int)) == Some(
                    ((dev_chars@, freq, vs), rest),
                ),
                None => dec_meta(ws@.skip(pos as int)) == Option::<(MetaV, Seq<u64>)>::None,
            },
            match dec_chars_n(ws@.skip(pos_cur as int), (nv - k) as nat) {
                Some((vs, rest)) => full == Some(
                    (variants@.map_values(|s: String| s@) + vs, rest),
                ),
                None => full == Option::<(Seq<Seq<char>>, Seq<u64>)>::None,
            },
        decreases nv - k,
    {
        let ghost pre_views = variants@.map_values(|s: String| s@);
        match read_chars(ws, pos_cur) {
            Some((cs, p4)) => {
                let st = crate::converter::chars_to_string(&cs);
                variants.push(st);
                proof {
                    assert(variants@.map_values(|s: String| s@) =~= pre_views.push(cs@));
                    assert(dec_chars_n(ws@.skip(pos_cur as int), (nv - k) as nat) matches Some(
                        (vs, _),
                    ) ==> vs == seq![cs@] + dec_chars_n(
                        ws@.skip(p4 as int),
                        (nv - k - 1) as nat,
                    )->Some_0.0);
                    match dec_chars_n(ws@.skip(p4 as int), (nv - k - 1) as nat) {
                        Some((vs2, rest2)) => {
                            assert(pre_views + (seq![cs@] + vs2) =~= pre_views.push(cs@) + vs2);
                        },
                        None => {},
                    }
                }
                pos_cur = p4;
            },
            None => {
                proof {
                    assert(dec_chars_n(ws@.skip(pos_cur as int), (nv - k) as nat)
                        matches None);
                }
                return None;
            },
        }
        k += 1;
    }
    proof {
        assert(dec_chars_n(ws@.skip(pos_cur as int), 0) == Some(
            (Seq::<Seq<char>>::empty(), ws@.skip(pos_cur as int)),
        ));
        assert(variants@.map_values(|s: String| s@) + Seq::<Seq<char>>::empty() =~= variants@.map_values(
            |s: String| s@,
        ));
    }
    let dev = crate::converter::chars_to_string(&dev_chars);
    let m = WordMetadata { devanagari: dev, frequency: freq, variants };
    proof {
        assert(meta_v(m).0 == dev_chars@);
        assert(meta_v(m).2 =~= m.variants@.map_values(|s: String| s@));
    }
    Some((m, pos_cur))
}

/// Reads the metadata section.
fn read_metas_counted(ws: &Vec<u64>, pos: usize) -> (r: Option<(Vec<WordMetadata>, usize)>)
    requires
        pos <= ws@.len(),
    ensures
        match r {
            Some((v, p2)) => pos < p2 <= ws@.len() && dec_metas_counted(ws@.skip(pos as int))
                == Some((v@.map_values(|m: WordMetadata| meta_v(m)), ws@.skip(p2 as int))),
            None => dec_metas_counted(ws@.skip(pos as int)) == Option::<
                (Seq<MetaV>, Seq<u64>),
            >::None,
        },
{
    let (nm, p1) = match read_word(ws, pos) {
        Some(x) => x,
        None => {
            return None;
        },
    };
    let mut out: Vec<WordMetadata> = Vec::new();
    let mut pos_cur = p1;
    let mut k: u64 = 0;
    let ghost full = dec_metas_n(ws@.skip(p1 as int), nm as nat);
    proof {
        assert(dec_metas_counted(ws@.skip(pos as int)) == full);
    }
    while k < nm
        invariant
            pos < pos_cur <= ws@.len(),
            k <= nm,
            out@.len() == k,
            dec_metas_counted(ws@.skip(pos as int)) == full,
            match dec_metas_n(ws@.skip(pos_cur as int), (nm - k) as nat) {
                Some((vs, rest)) => full == Some(
                    (out@.map_values(|m: WordMetadata| meta_v(m)) + vs, rest),
                ),
                None => full == Option::<(Seq<MetaV>, Seq<u64>)>::None,
            },
        decreases nm - k,
    {
        let ghost pre_views = out@.map_values(|m: WordMetadata| meta_v(m));
        match read_meta(ws, pos_cur) {
            Some((m, p2)) => {
                out.push(m);
                proof {
                    assert(out@.map_values(|m2: WordMetadata| meta_v(m2)) =~= pre_views.push(
                        meta_v(m),
                    ));
                    match dec_metas_n(ws@.skip(p2 as int), (nm - k - 1) as nat) {
                        Some((vs2, rest2)) => {
                            assert(pre_views + (seq![meta_v(m)] + vs2) =~= pre_views.push(
                                meta_v(m),
                            ) + vs2);
                        },
                        None => {},
                    }
                }
                pos_cur = p2;
            },
            None => {
                return None;
            },
        }
        k += 1;
    }
    proof {
        assert(dec_metas_n(ws@.skip(pos_cur as int), 0) == Some(
            (Seq::<MetaV>::empty(), ws@.skip(pos_cur as int)),
        ));
        assert(out@.map_values(|m: WordMetadata| meta_v(m)) + Seq::<MetaV>::empty()
            =~= out@.map_values(|m: WordMetadata| meta_v(m)));
    }
    Some((out, pos_cur))
}

/// Reads one trie node.
fn read_node(ws: &Vec<u64>, pos: usize) -> (r: Option<(Node, usize)>)
    requires
        pos <= ws@.len(),
    ensures
        match r {
            Some((n, p2)) => pos < p2 <= ws@.len() && dec_node(ws@.skip(pos as int)) == Some(
                (node_v(n), ws@.skip(p2 as int)),
            ),
            None => dec_node(ws@.skip(pos as int)) == Option::<(NodeV, Seq<u64>)>::None,
        },
{
    let (bw, p1) = match read_list_words(ws, pos) {
        Some(x) => x,
        None => {
            return None;
        },
    };
    let bytes = match bytes_from_words(&bw) {
        Some(x) => x,
        None => {
            return None;
        },
    };
    let (iw, p2) = match read_list_words(ws, p1) {
        Some(x) => x,
        None => {
            return None;
        },
    };
    let idxs = match ids_from_words(&iw) {
        Some(x) => x,
        None => {
            return None;
        },
    };
    if bytes.len() != idxs.len() {
        return None;
    }
    let (tag, p3) = match read_word(ws, p2) {
        Some(x) => x,
        None => {
            return None;
        },
    };
    let (val, p4) = match read_word(ws, p3) {
        Some(x) => x,
        None => {
            return None;
        },
    };
    let (mx, p5) = match read_word(ws, p4) {
        Some(x) => x,
        None => {
            return None;
        },
    };
    proof {
        let r2 = ws@.skip(p2 as int);
        assert(r2[0] == tag);
        assert(r2[1] == val) by {
            assert(ws@.skip(p3 as int)[0] == val);
            assert(ws@.skip(p3 as int) =~= r2.skip(1));
        }
        assert(r2[2] == mx) by {
            assert(ws@.skip(p4 as int)[0] == mx);
            assert(ws@.skip(p4 as int) =~= r2.skip(2));
        }
        assert(r2.skip(3) =~= ws@.skip(p5 as int));
        assert(r2.len() >= 3);
    }
    let word_id: Option<WordId>;
    if tag == 0 {
        word_id = None;
    } else if tag == 1 && val <= usize::MAX as u64 {
        word_id = Some(val as usize);
    } else {
        return None;
    }
    let mut children: Vec<(u8, usize)> = Vec::new();
    let n = bytes.len();
    let mut j: usize = 0;
    while j < n
        invariant
            n == bytes@.len(),
            n == idxs@.len(),
            j <= n,
            children@.len() == j,
            forall|i: int| 0 <= i < j ==> #[trigger] children@[i] == (bytes@[i], idxs@[i]),
        decreases n - j,
    {
        let b = bytes[j];
        let c = idxs[j];
        children.push((b, c));
        j += 1;
    }
    let node = Node { children, word_id, max_freq_in_subtree: mx };
    proof {
        assert(node_v(node).0 =~= bytes@);
        assert(node_v(node).1 =~= idxs@);
    }
    Some((node, p5))
}

/// Reads the node section.
fn read_nodes_counted(ws: &Vec<u64>, pos: usize) -> (r: Option<(Vec<Node>, usize)>)
    requires
        pos <= ws@.len(),
    ensures
        match r {
            Some((v, p2)) => pos < p2 <= ws@.len() && dec_nodes_counted(ws@.skip(pos as int))
                == Some((v@.map_values(|n: Node| node_v(n)), ws@.skip(p2 as int))),
            None => dec_nodes_counted(ws@.skip(pos as int)) == Option::<
                (Seq<NodeV>, Seq<u64>),
            >::None,
        },
{
    let (nn, p1) = match read_word(ws, pos) {
        Some(x) => x,
        None => {
            return None;
        },
    };
    let mut out: Vec<Node> = Vec::new();
    let mut pos_cur = p1;
    let mut k: u64 = 0;
    let ghost full = dec_nodes_n(ws@.skip(p1 as int), nn as nat);
    proof {
        assert(dec_nodes_counted(ws@.skip(pos as int)) == full);
    }
    while k < nn
        invariant
            pos < pos_cur <= ws@.len(),
            k <= nn,
            out@.len() == k,
            dec_nodes_counted(ws@.skip(pos as int)) == full,
            match dec_nodes_n(ws@.skip(pos_cur as int), (nn - k) as nat) {
                Some((vs, rest)) => full == Some(
                    (out@.map_values(|n: Node| node_v(n)) + vs, rest),
                ),
                None => full == Option::<(Seq<NodeV>, Seq<u64>)>::None,
            },
        decreases nn - k,
    {
        let ghost pre_views = out@.map_values(|n: Node| node_v(n));
        match read_node(ws, pos_cur) {
            Some((n, p2)) => {
                out.push(n);
                proof {
                    assert(out@.map_values(|n2: Node| node_v(n2)) =~= pre_views.push(node_v(n)));
                    match dec_nodes_n(ws@.skip(p2 as int), (nn - k - 1) as nat) {
                        Some((vs2, rest2)) => {
                            assert(pre_views + (seq![node_v(n)] + vs2) =~= pre_views.push(
                                node_v(n),
                            ) + vs2);
                        },
                        None => {},
                    }
                }
                pos_cur = p2;
            },
            None => {
                return None;
            },
        }
        k += 1;
    }
    proof {
        assert(dec_nodes_n(ws@.skip(pos_cur as int), 0) == Some(
            (Seq::<NodeV>::empty(), ws@.skip(pos_cur as int)),
        ));
        assert(out@.map_values(|n: Node| node_v(n)) + Seq::<NodeV>::empty() =~= out@.map_values(
            |n: Node| node_v(n),
        ));
    }
    Some((out, pos_cur))
}

/// Reads the context section and rebuilds the context model.
#[verifier::rlimit(100)]
fn read_ctx(ws: &Vec<u64>, pos: usize) -> (r: Option<(ContextModel, usize)>)
    requires
        pos <= ws@.len(),
    ensures
        match r {
            Some((c, p2)) => pos < p2 <= ws@.len() && dec_ctx(ws@.skip(pos as int)) == Some(
                (ctx_v(c), ws@.skip(p2 as int)),
            ) && c.wf(),
            None => dec_ctx(ws@.skip(pos as int)) == Option::<(CtxV, Seq<u64>)>::None,
        },
{
    let (cap, p1) = match read_word(ws, pos) {
        Some(x) => x,
        None => {
            return None;
        },
    };
    if cap > usize::MAX as u64 {
        return None;
    }
    let (hw, p2) = match read_list_words(ws, p1) {
        Some(x) => x,
        None => {
            return None;
        },
    };
    let hist = match ids_from_words(&hw) {
        Some(x) => x,
        None => {
            return None;
        },
    };
    let (pw, p3) = match read_list_words(ws, p2) {
        Some(x) => x,
        None => {
            return None;
        },
    };
    let prevs = match ids_from_words(&pw) {
        Some(x) => x,
        None => {
            return None;
        },
    };
    let (cw, p4) = match read_list_words(ws, p3) {
        Some(x) => x,
        None => {
            return None;
        },
    };
    let curs = match ids_from_words(&cw) {
        Some(x) => x,
        None => {
            return None;
        },
    };
    let (counts, p5) = match read_list_words(ws, p4) {
        Some(x) => x,
        None => {
            return None;
        },
    };
    if !(prevs.len() == curs.len() && curs.len() == counts.len()) {
        return None;
    }
    let mut entries: Vec<(WordId, WordId, u64)> = Vec::new();
    let n = prevs.len();
    let mut j: usize = 0;
    while j < n
        invariant
            n == prevs@.len(),
            n == curs@.len(),
            n == counts@.len(),
            j <= n,
            entries@.len() == j,
            forall|i: int|
                0 <= i < j ==> #[trigger] entries@[i] == (prevs@[i], curs@[i], counts@[i]),
        decreases n - j,
    {
        let a = prevs[j];
        let b = curs[j];
        let c = counts[j];
        entries.push((a, b, c));
        j += 1;
    }
    let ghost entries_spec = Seq::new(prevs@.len(), |i: int| (prevs@[i], curs@[i], counts@[i]));
    proof {
        assert(entries@ =~= entries_spec);
    }
    if hist.len() > cap as usize {
        proof {
            assert(!ctx_v_wf((cap as usize, hist@, entries_spec)));
        }
        return None;
    }
    if !check_bigrams_distinct(&entries) {
        proof {
            assert(!ctx_v_wf((cap as usize, hist@, entries_spec)));
        }
        return None;
    }
    if !check_counts_positive(&entries) {
        proof {
            assert(!ctx_v_wf((cap as usize, hist@, entries_spec)));
        }
        return None;
    }
    let c = ContextModel { window_size: cap as usize, history: hist, bigrams: entries };
    proof {
        c.lemma_wf_fields();
        assert(ctx_v(c) == (cap as usize, c.history@, c.bigrams@));
        assert(ctx_v_wf(ctx_v(c)));
    }
    Some((c, p5))
}

/// Whether every bigram key appears at most once.
fn check_bigrams_distinct(entries: &Vec<(WordId, WordId, u64)>) -> (r: bool)
    ensures
        r == bigram_keys_distinct(entries@),
{
    let n = entries.len();
    let mut i: usize = 0;
    while i < n
        invariant
            n == entries@.len(),
            i <= n,
            forall|a: int, b: int|
                0 <= a < b < entries@.len() && a < i ==> !(entries@[a].0 == entries@[b].0
                    && entries@[a].1 == entries@[b].1),
        decreases n - i,
    {
        let mut j: usize = i + 1;
        while j < n
            invariant
                n == entries@.len(),
                i < n,
                i < j <= n,
                forall|b: int|
                    i < b < j ==> !(entries@[i as int].0 == entries@[b].0 && entries@[
                        i as int
                    ].1 == entries@[b].1),
            decreases n - j,
        {
            if entries[i].0 == entries[j].0 && entries[i].1 == entries[j].1 {
                return false;
            }
            j += 1;
        }
        i += 1;
    }
    true
}

/// Whether every bigram count is positive.
fn check_counts_positive(entries: &Vec<(WordId, WordId, u64)>) -> (r: bool)
    ensures
        r == forall|j: int| 0 <= j < entries@.len() ==> (#[trigger] entries@[j]).2 >= 1,
{
    let n = entries.len();
    let mut i: usize = 0;
    while i < n
        invariant
            n == entries@.len(),
            i <= n,
            forall|j: int| 0 <= j < i ==> (#[trigger] entries@[j]).2 >= 1,
        decreases n - i,
    {
        if entries[i].2 == 0 {
            return false;
        }
        i += 1;
    }
    true
}

/// Reads the fuzzy-index section and rebuilds the index.
fn read_ss(ws: &Vec<u64>, pos: usize) -> (r: Option<(SymSpell, usize)>)
    requires
        pos <= ws@.len(),
    ensures
        match r {
            Some((s, p2)) => pos < p2 <= ws@.len() && dec_ss(ws@.skip(pos as int)) == Some(
                (ss_v(s), ws@.skip(p2 as int)),
            ) && s.wf(),
            None => dec_ss(ws@.skip(pos as int)) == Option::<
                ((usize, Seq<SsEntryV>), Seq<u64>),
            >::None,
        },
{
    let (d, p1) = match read_word(ws, pos) {
        Some(x) => x,
        None => {
            return None;
        },
    };
    if d > usize::MAX as u64 {
        return None;
    }
    let (ne, p2) = match read_word(ws, p1) {
        Some(x) => x,
        None => {
            return None;
        },
    };
    let mut out: Vec<(Vec<u8>, Vec<WordId>)> = Vec::new();
    let mut pos_cur = p2;
    let mut k: u64 = 0;
    let ghost full = dec_ss_n(ws@.skip(p2 as int), ne as nat);
    proof {
        assert(dec_ss_n(ws@.skip(pos_cur as int), (ne - k) as nat) == full);
        assert(dec_ss(ws@.skip(pos as int)) == (match full {
            Some((es, rest)) => if ss_v_wf(es) {
                Some(((d as usize, es), rest))
            } else {
                Option::<((usize, Seq<SsEntryV>), Seq<u64>)>::None
            },
            None => None,
        }));
    }
    while k < ne
        invariant
            pos < pos_cur <= ws@.len(),
            k <= ne,
            out@.len() == k,
            dec_ss(ws@.skip(pos as int)) == (match full {
                Some((es, rest)) => if ss_v_wf(es) {
                    Some(((d as usize, es), rest))
                } else {
                    Option::<((usize, Seq<SsEntryV>), Seq<u64>)>::None
                },
                None => None,
            }),
            match dec_ss_n(ws@.skip(pos_cur as int), (ne - k) as nat) {
                Some((vs, rest)) => full == Some(
                    (
                        out@.map_values(|e: (Vec<u8>, Vec<WordId>)| (e.0@, e.1@)) + vs,
                        rest,
                    ),
                ),
                None => full == Option::<(Seq<SsEntryV>, Seq<u64>)>::None,
            },
        decreases ne - k,
    {
        let ghost pre_views = out@.map_values(|e: (Vec<u8>, Vec<WordId>)| (e.0@, e.1@));
        let (kw, q1) = match read_list_words(ws, pos_cur) {
            Some(x) => x,
            None => {
                return None;
            },
        };
        let key = match bytes_from_words(&kw) {
            Some(x) => x,
            None => {
                return None;
            },
        };
        let (iw, q2) = match read_list_words(ws, q1) {
            Some(x) => x,
            None => {
                return None;
            },
        };
        let ids = match ids_from_words(&iw) {
            Some(x) => x,
            None => {
                return None;
            },
        };
        proof {
            assert(dec_ss_entry(ws@.skip(pos_cur as int)) == Some(
                ((key@, ids@), ws@.skip(q2 as int)),
            ));
        }
        out.push((key, ids));
        proof {
            assert(out@.map_values(|e: (Vec<u8>, Vec<WordId>)| (e.0@, e.1@)) =~= pre_views.push(
                (out@.last().0@, out@.last().1@),
            ));
            match dec_ss_n(ws@.skip(q2 as int), (ne - k - 1) as nat) {
                Some((vs2, rest2)) => {
                    assert(pre_views + (seq![(out@.last().0@, out@.last().1@)] + vs2)
                        =~= pre_views.push((out@.last().0@, out@.last().1@)) + vs2);
                },
                None => {},
            }
        }
        pos_cur = q2;
        k += 1;
    }
    proof {
        assert(dec_ss_n(ws@.skip(pos_cur as int), 0) == Some(
            (Seq::<SsEntryV>::empty(), ws@.skip(pos_cur as int)),
        ));
        assert(out@.map_values(|e: (Vec<u8>, Vec<WordId>)| (e.0@, e.1@))
            + Seq::<SsEntryV>::empty() =~= out@.map_values(
            |e: (Vec<u8>, Vec<WordId>)| (e.0@, e.1@),
        ));
    }
    if !check_keys_distinct(&out) {
        proof {
            let views = out@.map_values(|e: (Vec<u8>, Vec<WordId>)| (e.0@, e.1@));
            let (i, j): (int, int) = choose|i: int, j: int|
                0 <= i < j < out@.len() && out@[i].0@ == out@[j].0@;
            assert(views[i].0 == views[j].0);
            assert(!ss_v_wf(views));
        }
        return None;
    }
    let s = SymSpell { deletes: out, max_edit_distance: d as usize };
    proof {
        s.lemma_wf_fields();
        let views = s.deletes@.map_values(|e: (Vec<u8>, Vec<WordId>)| (e.0@, e.1@));
        assert forall|i: int, j: int|
            0 <= i < j < s.deletes@.len() implies (#[trigger] views[i]).0 != (
        #[trigger] views[j]).0 by {
            assert(views[i].0 == s.deletes@[i].0@);
            assert(views[j].0 == s.deletes@[j].0@);
        }
        assert(ss_v_wf(views));
        assert(ss_v(s) == (d as usize, views));
    }
    Some((s, pos_cur))
}

/// Whether every delete-variant key appears at most once.
fn check_keys_distinct(entries: &Vec<(Vec<u8>, Vec<WordId>)>) -> (r: bool)
    ensures
        r == crate::symspell::ss_keys_distinct(entries@),
{
    let n = entries.len();
    let mut i: usize = 0;
    while i < n
        invariant
            n == entries@.len(),
            i <= n,
            forall|a: int, b: int| 0 <= a < b < entries@.len() && a < i ==> entries@[a].0@
                != entries@[b].0@,
        decreases n - i,
    {
        let mut j: usize = i + 1;
        while j < n
            invariant
                n == entries@.len(),
                i < n,
                i < j <= n,
                forall|b: int| i < b < j ==> entries@[i as int].0@ != entries@[b].0@,
            decreases n - j,
        {
            if crate::symspell::eq_bytes(&entries[i].0, &entries[j].0) {
                return false;
            }
            j += 1;
        }
        i += 1;
    }
    true
}

/// Whether the decoded metadata satisfies its invariants.
fn check_metas(metas: &Vec<WordMetadata>) -> (r: bool)
    ensures
        r == metas_v_wf(metas@.map_values(|m: WordMetadata| meta_v(m))),
{
    let ghost views = metas@.map_values(|m: WordMetadata| meta_v(m));
    let n = metas.len();
    let mut i: usize = 0;
    while i < n
        invariant
            views == metas@.map_values(|m: WordMetadata| meta_v(m)),
            n == metas@.len(),
            i <= n,
            forall|x: int, a: int, b: int|
                0 <= x < i && 0 <= a < b < views[x].2.len() ==> #[trigger] views[x].2[a]
                    != #[trigger] views[x].2[b],
            forall|x: int, y: int|
                0 <= x < y < n && x < i ==> (#[trigger] views[x]).0 != (#[trigger] views[y]).0,
        decreases n - i,
    {
        // Variants of entry `i` pairwise distinct.
        let nv = metas[i].variants.len();
        let mut a: usize = 0;
        while a < nv
            invariant
                views == metas@.map_values(|m: WordMetadata| meta_v(m)),
                n == metas@.len(),
                i < n,
                nv == metas@[i as int].variants@.len(),
                a <= nv,
                forall|x: int, y: int|
                    0 <= x < y < nv && x < a ==> #[trigger] views[i as int].2[x]
                        != #[trigger] views[i as int].2[y],
            decreases nv - a,
        {
            let mut b: usize = a + 1;
            while b < nv
                invariant
                    views == metas@.map_values(|m: WordMetadata| meta_v(m)),
                    n == metas@.len(),
                    i < n,
                    nv == metas@[i as int].variants@.len(),
                    a < nv,
                    a < b <= nv,
                    forall|y: int|
                        a < y < b ==> #[trigger] views[i as int].2[a as int] != views[
                            i as int
                        ].2[y],
                decreases nv - b,
            {
                if metas[i].variants[a].eq(&metas[i].variants[b]) {
                    proof {
                        assert(views[i as int].2[a as int] == metas@[i as int].variants@[
                            a as int
                        ]@);
                        assert(views[i as int].2[b as int] == metas@[i as int].variants@[
                            b as int
                        ]@);
                        assert(!metas_v_wf(views));
                    }
                    return false;
                }
                proof {
                    assert(views[i as int].2[a as int] == metas@[i as int].variants@[a as int]@);
                    assert(views[i as int].2[b as int] == metas@[i as int].variants@[b as int]@);
                }
                b += 1;
            }
            a += 1;
        }
        // Devanagari of entry `i` distinct from the later entries.
        let mut y: usize = i + 1;
        while y < n
            invariant
                views == metas@.map_values(|m: WordMetadata| meta_v(m)),
                n == metas@.len(),
                i < n,
                i < y <= n,
                forall|z: int| i < z < y ==> (#[trigger] views[z]).0 != views[i as int].0,
            decreases n - y,
        {
            if metas[i].devanagari.eq(&metas[y].devanagari) {
                proof {
                    assert(views[i as int].0 == metas@[i as int].devanagari@);
                    assert(views[y as int].0 == metas@[y as int].devanagari@);
                    assert(!metas_v_wf(views));
                }
                return false;
            }
            proof {
                assert(views[i as int].0 == metas@[i as int].devanagari@);
                assert(views[y as int].0 == metas@[y as int].devanagari@);
            }
            y += 1;
        }
        i += 1;
    }
    proof {
        assert(metas_v_wf(views));
    }
    true
}

/// Whether the decoded nodes satisfy the trie invariants against the
/// metadata count.
fn check_nodes(nodes: &Vec<Node>, meta_count: usize) -> (r: bool)
    ensures
        r == nodes_v_wf(nodes@.map_values(|n: Node| node_v(n)), meta_count as int),
{
    let ghost views = nodes@.map_values(|n: Node| node_v(n));
    let total = nodes.len();
    if total == 0 {
        proof {
            assert(!nodes_v_wf(views, meta_count as int));
        }
        return false;
    }
    let mut i: usize = 0;
    while i < total
        invariant
            views == nodes@.map_values(|n: Node| node_v(n)),
            total == nodes@.len(),
            i <= total,
            forall|x: int, j: int|
                0 <= x < i && 0 <= j < (#[trigger] views[x]).1.len() ==> x < #[trigger] views[x].1[j] < total,
            forall|x: int, a: int, b: int|
                0 <= x < i && 0 <= a < b < views[x].0.len() ==> #[trigger] views[x].0[a]
                    != #[trigger] views[x].0[b],
            forall|x: int|
                0 <= x < i ==> ((#[trigger] views[x]).2 matches Some(id) ==> id < meta_count),
        decreases total - i,
    {
        let nch = nodes[i].children.len();
        let mut j: usize = 0;
        while j < nch
            invariant
                views == nodes@.map_values(|n: Node| node_v(n)),
                total == nodes@.len(),
                i < total,
                nch == nodes@[i as int].children@.len(),
                j <= nch,
                forall|z: int|
                    0 <= z < j ==> i < #[trigger] views[i as int].1[z] < total,
            decreases nch - j,
        {
            let c = nodes[i].children[j].1;
            if !(i < c && c < total) {
                proof {
                    assert(views[i as int].1[j as int] == nodes@[i as int].children@[j as int].1);
                    assert(!nodes_v_wf(views, meta_count as int));
                }
                return false;
            }
            proof {
                assert(views[i as int].1[j as int] == nodes@[i as int].children@[j as int].1);
            }
            j += 1;
        }
        let mut a: usize = 0;
        while a < nch
            invariant
                views == nodes@.map_values(|n: Node| node_v(n)),
                total == nodes@.len(),
                i < total,
                nch == nodes@[i as int].children@.len(),
                a <= nch,
                forall|x: int, y: int|
                    0 <= x < y < nch && x < a ==> #[trigger] views[i as int].0[x]
                        != #[trigger] views[i as int].0[y],
            decreases nch - a,
        {
            let mut b: usize = a + 1;
            while b < nch
                invariant
                    views == nodes@.map_values(|n: Node| node_v(n)),
                    total == nodes@.len(),
                    i < total,
                    nch == nodes@[i as int].children@.len(),
                    a < nch,
                    a < b <= nch,
                    forall|y: int|
                        a < y < b ==> #[trigger] views[i as int].0[a as int] != views[
                            i as int
                        ].0[y],
                decreases nch - b,
            {
                if nodes[i].children[a].0 == nodes[i].children[b].0 {
                    proof {
                        assert(views[i as int].0[a as int] == nodes@[i as int].children@[
                            a as int
                        ].0);
                        assert(views[i as int].0[b as int] == nodes@[i as int].children@[
                            b as int
                        ].0);
                        assert(!nodes_v_wf(views, meta_count as int));
                    }
                    return false;
                }
                proof {
                    assert(views[i as int].0[a as int] == nodes@[i as int].children@[a as int].0);
                    assert(views[i as int].0[b as int] == nodes@[i as int].children@[b as int].0);
                }
                b += 1;
            }
            a += 1;
        }
        match nodes[i].word_id {
            Some(id) => {
                if id >= meta_count {
                    proof {
                        assert(views[i as int].2 == nodes@[i as int].word_id);
                        assert(!nodes_v_wf(views, meta_count as int));
                    }
                    return false;
                }
                proof {
                    assert(views[i as int].2 == nodes@[i as int].word_id);
                }
            },
            None => {
                proof {
                    assert(views[i as int].2 == nodes@[i as int].word_id);
                }
            },
        }
        i += 1;
    }
    proof {
        assert(nodes_v_wf(views, meta_count as int));
    }
    true
}

/// Splits the snapshot bytes into words; fails unless the length is a
/// whole number of words.
fn bytes_to_words(bytes: &Vec<u8>) -> (r: Option<Vec<u64>>)
    ensures
        match r {
            Some(ws) => bytes@.len() % 8 == 0 && ws@ == words_of_bytes(bytes@),
            None => bytes@.len() % 8 != 0,
        },
{
    let n = bytes.len();
    if n % 8 != 0 {
        return None;
    }
    let cnt = n / 8;
    let mut ws: Vec<u64> = Vec::new();
    let mut i: usize = 0;
    proof {
        lemma_words_of_bytes_len(bytes@);
        assert(ws@ =~= words_of_bytes(bytes@).take(0));
    }
    while i < cnt
        invariant
            n == bytes@.len(),
            n % 8 == 0,
            cnt == n / 8,
            i <= cnt,
            words_of_bytes(bytes@).len() == cnt,
            ws@ == words_of_bytes(bytes@).take(i as int),
        decreases cnt - i,
    {
        let chunk = vstd::slice::slice_subrange(bytes.as_slice(), 8 * i, 8 * i + 8);
        let w = vstd::bytes::u64_from_le_bytes(chunk);
        proof {
            lemma_words_of_bytes_index(bytes@, i as int);
            assert(chunk@ =~= bytes@.subrange(8 * i as int, 8 * i + 8));
            assert(w == words_of_bytes(bytes@)[i as int]);
            assert(words_of_bytes(bytes@).take(i + 1) =~= words_of_bytes(bytes@).take(
                i as int,
            ).push(words_of_bytes(bytes@)[i as int]));
        }
        ws.push(w);
        i += 1;
    }
    proof {
        assert(words_of_bytes(bytes@).take(cnt as int) =~= words_of_bytes(bytes@));
    }
    Some(ws)
}

/// A byte string a whole number of words long splits into that many
/// words.
proof fn lemma_words_of_bytes_len(bs: Seq<u8>)
    requires
        bs.len() % 8 == 0,
    ensures
        words_of_bytes(bs).len() == bs.len() / 8,
    decreases bs.len(),
{
    if bs.len() >= 8 {
        assert(bs.skip(8).len() % 8 == 0);
        lemma_words_of_bytes_len(bs.skip(8));
    }
}

/// Each split word reads its own eight bytes.
proof fn lemma_words_of_bytes_index(bs: Seq<u8>, i: int)
    requires
        bs.len() % 8 == 0,
        0 <= i < bs.len() / 8,
    ensures
        words_of_bytes(bs)[i] == spec_u64_from_le_bytes(bs.subrange(8 * i, 8 * i + 8)),
    decreases i,
{
    lemma_words_of_bytes_len(bs);
    if i == 0 {
        assert(bs.take(8) =~= bs.subrange(0, 8));
    } else {
        assert(bs.skip(8).len() % 8 == 0);
        lemma_words_of_bytes_index(bs.skip(8), i - 1);
        assert(bs.skip(8).subrange(8 * (i - 1), 8 * (i - 1) + 8) =~= bs.subrange(
            8 * i,
            8 * i + 8,
        ));
        assert(words_of_bytes(bs)[i] == words_of_bytes(bs.skip(8))[i - 1]);
    }
}

/// Rebuilds an engine from a snapshot. Accepts exactly the snapshots
/// the snapshot grammar accepts: the expected magic word and version, a
/// complete parse, and every component invariant intact; the rebuilt
/// engine is well-formed, starts with no dictionary path, and captures
/// exactly the decoded state.
#[verifier::rlimit(100)]
pub fn decode_state(bytes: &Vec<u8>) -> (r: Result<ImeEngine, DecodeError>)
    ensures
        match r {
            Ok(e) => spec_decode_state(bytes@) == Some(state_v(e)) && e.wf()
                && e.dictionary_path matches None,
            Err(_) => spec_decode_state(bytes@) == Option::<StateV>::None,
        },
{
    let ws = match bytes_to_words(bytes) {
        Some(x) => x,
        None => {
            return Err(DecodeError::BadLength);
        },
    };
    proof {
        assert(ws@.skip(0) =~= ws@);
    }
    let (magic, p1) = match read_word(&ws, 0) {
        Some(x) => x,
        None => {
            return Err(DecodeError::Malformed);
        },
    };
    if magic != SNAPSHOT_MAGIC {
        return Err(DecodeError::BadMagic);
    }
    let (version, p2) = match read_word(&ws, p1) {
        Some(x) => x,
        None => {
            return Err(DecodeError::Malformed);
        },
    };
    if version != SNAPSHOT_VERSION {
        return Err(DecodeError::UnsupportedVersion);
    }
    let (metas, p3) = match read_metas_counted(&ws, p2) {
        Some(x) => x,
        None => {
            return Err(DecodeError::Malformed);
        },
    };
    let (nodes, p4) = match read_nodes_counted(&ws, p3) {
        Some(x) => x,
        None => {
            return Err(DecodeError::Malformed);
        },
    };
    let (ctx, p5) = match read_ctx(&ws, p4) {
        Some(x) => x,
        None => {
            return Err(DecodeError::Malformed);
        },
    };
    let (ss, p6) = match read_ss(&ws, p5) {
        Some(x) => x,
        None => {
            return Err(DecodeError::Malformed);
        },
    };
    if p6 != ws.len() {
        proof {
            assert(ws@.skip(p6 as int).len() > 0);
        }
        return Err(DecodeError::Malformed);
    }
    if !check_metas(&metas) {
        return Err(DecodeError::Malformed);
    }
    if !check_nodes(&nodes, metas.len()) {
        return Err(DecodeError::Malformed);
    }
    proof {
        assert(ws@.skip(p6 as int).len() == 0);
    }
    let trie = Trie { nodes, metadata_store: metas };
    proof {
        let nvs = trie.nodes@.map_values(|n: Node| node_v(n));
        let mvs = trie.metadata_store@.map_values(|m: WordMetadata| meta_v(m));
        assert(trie.wf()) by {
            assert(crate::trie::nodes_wf(trie.nodes@)) by {
                assert forall|n: int, j: int|
                    0 <= n < trie.nodes@.len() && 0 <= j < trie.nodes@[n].children@.len()
                    implies n < (#[trigger] trie.nodes@[n].children@[j]).1
                    < trie.nodes@.len() by {
                    assert(nvs[n].1[j] == trie.nodes@[n].children@[j].1);
                }
                assert forall|n: int, a: int, b: int|
                    0 <= n < trie.nodes@.len() && 0 <= a < b
                        < trie.nodes@[n].children@.len() implies (
                #[trigger] trie.nodes@[n].children@[a]).0 != (#[trigger] trie.nodes@[n].children@[b]).0 by {
                    assert(nvs[n].0[a] == trie.nodes@[n].children@[a].0);
                    assert(nvs[n].0[b] == trie.nodes@[n].children@[b].0);
                }
            }
            assert forall|n: int| 0 <= n < trie.nodes@.len() implies (
            #[trigger] trie.nodes@[n].word_id matches Some(id) ==> id
                < trie.metas().len()) by {
                assert(nvs[n].2 == trie.nodes@[n].word_id);
            }
            assert forall|i: int| 0 <= i < trie.metas().len() implies (
            #[trigger] trie.metas()[i]).wf() by {
                let m = trie.metadata_store@[i];
                assert forall|a: int, b: int|
                    0 <= a < b < m.variants@.len() implies m.variants@[a]@ != m.variants@[b]@ by {
                    assert(mvs[i].2[a] == m.variants@[a]@);
                    assert(mvs[i].2[b] == m.variants@[b]@);
                }
            }
            assert forall|i: int, j: int|
                0 <= i < j < trie.metas().len() implies trie.metas()[i].devanagari@
                != trie.metas()[j].devanagari@ by {
                assert(mvs[i].0 == trie.metadata_store@[i].devanagari@);
                assert(mvs[j].0 == trie.metadata_store@[j].devanagari@);
            }
        }
    }
    let e = ImeEngine {
        trie_builder: trie,
        context_model: ctx,
        romanizer: crate::converter::RomanizationEngine::new(),
        symspell: ss,
        learning_engine: crate::learning::LearningEngine::new(),
        dictionary_path: None,
    };
    proof {
        assert(state_v(e).0 == metas_v(e.trie_builder));
        assert(state_v(e).1 == nodes_v(e.trie_builder));
        assert(spec_decode_state(bytes@) == Some(state_v(e)));
    }
    Ok(e)
}

} // verus!
