use vstd::prelude::*;

use crate::types::WordId;
use vstd::string::StrSliceExecFns;
use vstd::string::StringSliceAdditionalSpecFns;

verus! {

/// Byte strings reachable from `s` by exactly `k` single-byte deletions.
pub open spec fn del_level(s: Seq<u8>, k: nat) -> Set<Seq<u8>>
    decreases k,
{
    if k == 0 {
        Set::new(|t: Seq<u8>| t == s)
    } else {
        Set::new(
            |t: Seq<u8>|
                exists|u: Seq<u8>, i: int|
                    del_level(s, (k - 1) as nat).contains(u) && 0 <= i < u.len() && t == u.remove(
                        i,
                    ),
        )
    }
}

/// Byte strings reachable from `s` by at most `d` single-byte deletions:
/// the delete set of the symmetric-delete scheme.
pub open spec fn del_set(s: Seq<u8>, d: nat) -> Set<Seq<u8>>
    decreases d,
{
    if d == 0 {
        del_level(s, 0)
    } else {
        del_set(s, (d - 1) as nat).union(del_level(s, d))
    }
}

/// The set of word identifiers a sequence holds.
pub open spec fn ids_set(s: Seq<WordId>) -> Set<WordId> {
    Set::new(|id: WordId| s.contains(id))
}

/// The set of byte strings a list of byte vectors holds.
pub open spec fn view_set(v: Seq<Vec<u8>>) -> Set<Seq<u8>> {
    Set::new(|t: Seq<u8>| exists|j: int| 0 <= j < v.len() && v[j]@ == t)
}

/// Bucket stored for delete variant `t`: empty when `t` was never indexed.
pub open spec fn bucket_of(entries: Seq<(Vec<u8>, Vec<WordId>)>, t: Seq<u8>) -> Set<WordId>
    decreases entries.len(),
{
    if entries.len() == 0 {
        Set::empty()
    } else if entries.last().0@ == t {
        ids_set(entries.last().1@)
    } else {
        bucket_of(entries.drop_last(), t)
    }
}

/// Each delete variant is stored at most once.
pub open spec fn ss_keys_distinct(entries: Seq<(Vec<u8>, Vec<WordId>)>) -> bool {
    forall|i: int, j: int| 0 <= i < j < entries.len() ==> entries[i].0@ != entries[j].0@
}

/// Symmetric-delete fuzzy index: maps each delete variant of an indexed
/// word to the set of word identifiers it may have come from.
pub struct SymSpell {
    pub(crate) deletes: Vec<(Vec<u8>, Vec<WordId>)>,
    pub(crate) max_edit_distance: usize,
}

impl SymSpell {
    /// Configured maximum edit distance.
    pub closed spec fn max_distance(&self) -> usize {
        self.max_edit_distance
    }

    /// Word identifiers indexed under delete variant `t`.
    pub closed spec fn bucket(&self, t: Seq<u8>) -> Set<WordId> {
        bucket_of(self.deletes@, t)
    }

    pub closed spec fn wf(&self) -> bool {
        ss_keys_distinct(self.deletes@)
    }

    /// What well-formedness says of the fields.
    pub(crate) proof fn lemma_wf_fields(&self)
        ensures
            self.wf() <==> ss_keys_distinct(self.deletes@),
            self.max_distance() == self.max_edit_distance,
    {
    }

    /// Candidate identifiers for `input`: everything indexed under any
    /// delete variant of `input`.
    pub open spec fn lookup_spec(&self, input: Seq<u8>) -> Set<WordId> {
        Set::new(
            |id: WordId|
                exists|t: Seq<u8>|
                    del_set(input, self.max_distance() as nat).contains(t) && self.bucket(
                        t,
                    ).contains(id),
        )
    }

    pub fn new(max_edit_distance: usize) -> (r: Self)
        ensures
            r.wf(),
            r.max_distance() == max_edit_distance,
            forall|t: Seq<u8>| r.bucket(t) == Set::<WordId>::empty(),
    {
        Self { deletes: Vec::new(), max_edit_distance }
    }

    /// Indexes `word` under every variant of its delete set: each such
    /// bucket gains `word_id`, every other bucket is untouched.
    pub fn add_word(&mut self, word: &str, word_id: WordId)
        requires
            old(self).wf(),
        ensures
            final(self).wf(),
            final(self).max_distance() == old(self).max_distance(),
            forall|t: Seq<u8>|
                final(self).bucket(t) == if del_set(
                    word.spec_bytes(),
                    old(self).max_distance() as nat,
                ).contains(t) {
                    old(self).bucket(t).insert(word_id)
                } else {
                    old(self).bucket(t)
                },
    {
        let bytes = word.as_bytes_vec();
        let edits = generate_edits(&bytes, self.max_edit_distance);
        let ghost w = word.spec_bytes();
        let ghost d = self.max_edit_distance as nat;
        let mut ei: usize = 0;
        proof {
            assert(edits@.take(0) =~= Seq::<Vec<u8>>::empty());
            lemma_view_set_empty();
        }
        while ei < edits.len()
            invariant
                self.wf(),
                self.max_edit_distance == old(self).max_distance(),
                view_set(edits@) == del_set(w, d),
                ei <= edits@.len(),
                d == old(self).max_distance() as nat,
                forall|t: Seq<u8>| #[trigger]
                    self.bucket(t) == if view_set(edits@.take(ei as int)).contains(t) {
                        old(self).bucket(t).insert(word_id)
                    } else {
                        old(self).bucket(t)
                    },
            decreases edits@.len() - ei,
        {
            let e = &edits[ei];
            self.add_to_bucket(e, word_id);
            proof {
                assert(edits@.take(ei + 1) =~= edits@.take(ei as int).push(edits@[ei as int]));
                lemma_view_set_push(edits@.take(ei as int), edits@[ei as int]);
                assert forall|t: Seq<u8>| #[trigger]
                    self.bucket(t) == if view_set(edits@.take(ei + 1)).contains(t) {
                        old(self).bucket(t).insert(word_id)
                    } else {
                        old(self).bucket(t)
                    } by {
                    if t == e@ && view_set(edits@.take(ei as int)).contains(t) {
                        assert(old(self).bucket(t).insert(word_id).insert(word_id) =~= old(
                            self,
                        ).bucket(t).insert(word_id));
                    }
                }
            }
            ei += 1;
        }
        proof {
            assert(edits@.take(edits@.len() as int) =~= edits@);
        }
    }

    /// Inserts `word_id` into the bucket for `key`, creating the bucket if
    /// it is new; every other bucket is untouched.
    fn add_to_bucket(&mut self, key: &Vec<u8>, word_id: WordId)
        requires
            old(self).wf(),
        ensures
            final(self).wf(),
            final(self).max_edit_distance == old(self).max_edit_distance,
            forall|t: Seq<u8>| #[trigger]
                final(self).bucket(t) == if t == key@ {
                    old(self).bucket(t).insert(word_id)
                } else {
                    old(self).bucket(t)
                },
    {
        let ghost pre = self.deletes@;
        match find_key_index(&self.deletes, key) {
            Some(bi) => {
                proof {
                    lemma_bucket_get(self.deletes@, bi as int);
                }
                if !contains_id(&self.deletes[bi].1, word_id) {
                    let mut pair = self.deletes.remove(bi);
                    let ghost old_ids = pair.1@;
                    pair.1.push(word_id);
                    self.deletes.insert(bi, pair);
                    proof {
                        assert(self.deletes@ =~= pre.update(
                            bi as int,
                            (pre[bi as int].0, self.deletes@[bi as int].1),
                        ));
                        lemma_bucket_update(pre, bi as int, self.deletes@[bi as int].1, key@);
                        lemma_ids_set_push(old_ids, word_id);
                        assert forall|t: Seq<u8>| #[trigger]
                            self.bucket(t) == if t == key@ {
                                bucket_of(pre, t).insert(word_id)
                            } else {
                                bucket_of(pre, t)
                            } by {}
                    }
                } else {
                    proof {
                        assert forall|t: Seq<u8>| #[trigger]
                            self.bucket(t) == if t == key@ {
                                bucket_of(pre, t).insert(word_id)
                            } else {
                                bucket_of(pre, t)
                            } by {
                            if t == key@ {
                                assert(ids_set(pre[bi as int].1@).contains(word_id));
                                assert(ids_set(pre[bi as int].1@) =~= ids_set(
                                    pre[bi as int].1@,
                                ).insert(word_id));
                            }
                        }
                    }
                }
            },
            None => {
                let mut ids: Vec<WordId> = Vec::new();
                ids.push(word_id);
                let k = clone_bytes(key);
                self.deletes.push((k, ids));
                proof {
                    assert(self.deletes@.drop_last() =~= pre);
                    lemma_ids_set_push(Seq::<WordId>::empty(), word_id);
                    lemma_ids_set_empty();
                    assert forall|t: Seq<u8>| #[trigger]
                        self.bucket(t) == if t == key@ {
                            bucket_of(pre, t).insert(word_id)
                        } else {
                            bucket_of(pre, t)
                        } by {
                        if t == key@ {
                            lemma_bucket_absent(pre, t);
                            assert(self.deletes@.last().1@ =~= Seq::<WordId>::empty().push(
                                word_id,
                            ));
                        }
                    }
                }
            },
        }
    }

    /// Collects, without duplicates, every identifier indexed under any
    /// delete variant of `input`.
    pub fn lookup(&self, input: &str) -> (r: Vec<WordId>)
        requires
            self.wf(),
        ensures
            forall|i: int, j: int| 0 <= i < j < r@.len() ==> r@[i] != r@[j],
            ids_set(r@) == self.lookup_spec(input.spec_bytes()),
    {
        let bytes = input.as_bytes_vec();
        let edits = generate_edits(&bytes, self.max_edit_distance);
        let ghost w = input.spec_bytes();
        let ghost d = self.max_edit_distance as nat;
        let mut r: Vec<WordId> = Vec::new();
        let mut ei: usize = 0;
        proof {
            lemma_ids_set_empty();
        }
        while ei < edits.len()
            invariant
                self.wf(),
                d == self.max_distance() as nat,
                view_set(edits@) == del_set(w, d),
                ei <= edits@.len(),
                forall|i: int, j: int| 0 <= i < j < r@.len() ==> r@[i] != r@[j],
                forall|id: WordId| #[trigger]
                    ids_set(r@).contains(id) ==> self.lookup_spec(w).contains(id),
                forall|j: int, id: WordId|
                    0 <= j < ei && #[trigger] self.bucket(edits@[j]@).contains(id) ==> ids_set(
                        r@,
                    ).contains(id),
            decreases edits@.len() - ei,
        {
            let e = &edits[ei];
            proof {
                assert(view_set(edits@).contains(edits@[ei as int]@));
                assert(del_set(w, d).contains(edits@[ei as int]@));
            }
            match find_key_index(&self.deletes, e) {
                Some(bi) => {
                    proof {
                        lemma_bucket_get(self.deletes@, bi as int);
                    }
                    let ghost rpre = r@;
                    let mut ii: usize = 0;
                    while ii < self.deletes[bi].1.len()
                        invariant
                            self.wf(),
                            d == self.max_distance() as nat,
                            bi < self.deletes@.len(),
                            ei < edits@.len(),
                            self.deletes@[bi as int].0@ == edits@[ei as int]@,
                            del_set(w, d).contains(edits@[ei as int]@),
                            self.bucket(edits@[ei as int]@) == ids_set(
                                self.deletes@[bi as int].1@,
                            ),
                            ii <= self.deletes@[bi as int].1@.len(),
                            forall|i: int, j: int| 0 <= i < j < r@.len() ==> r@[i] != r@[j],
                            forall|id: WordId| #[trigger]
                                ids_set(r@).contains(id) ==> self.lookup_spec(w).contains(id),
                            forall|id: WordId| #[trigger]
                                ids_set(rpre).contains(id) ==> ids_set(r@).contains(id),
                            forall|j: int|
                                0 <= j < ii ==> ids_set(r@).contains(
                                    #[trigger] self.deletes@[bi as int].1@[j],
                                ),
                        decreases self.deletes@[bi as int].1@.len() - ii,
                    {
                        let id = self.deletes[bi].1[ii];
                        if !contains_id(&r, id) {
                            let ghost rb = r@;
                            r.push(id);
                            proof {
                                lemma_ids_set_push(rb, id);
                                assert(self.deletes@[bi as int].1@.contains(
                                    self.deletes@[bi as int].1@[ii as int],
                                ));
                                assert(ids_set(self.deletes@[bi as int].1@).contains(id));
                                assert(self.bucket(edits@[ei as int]@).contains(id));
                                assert(self.lookup_spec(w).contains(id));
                            }
                        } else {
                            proof {
                                assert(ids_set(r@).contains(id));
                            }
                        }
                        ii += 1;
                    }
                    proof {
                        assert forall|id: WordId| #[trigger]
                            self.bucket(edits@[ei as int]@).contains(id) implies ids_set(
                            r@,
                        ).contains(id) by {
                            let j = choose|j: int|
                                0 <= j < self.deletes@[bi as int].1@.len()
                                    && self.deletes@[bi as int].1@[j] == id;
                        }
                    }
                },
                None => {
                    proof {
                        lemma_bucket_absent(self.deletes@, e@);
                    }
                },
            }
            ei += 1;
        }
        proof {
            assert forall|id: WordId| self.lookup_spec(w).contains(id) implies ids_set(
                r@,
            ).contains(id) by {
                let t = choose|t: Seq<u8>|
                    del_set(w, d).contains(t) && self.bucket(t).contains(id);
                assert(view_set(edits@).contains(t));
                let j = choose|j: int| 0 <= j < edits@.len() && edits@[j]@ == t;
                assert(self.bucket(edits@[j]@).contains(id));
            }
            assert(ids_set(r@) =~= self.lookup_spec(w));
        }
        r
    }
}

/// Adding a word to the index never removes an identifier from any
/// lookup: every bucket only grows, so every lookup result only grows.
pub proof fn lemma_lookup_monotone(
    pre: SymSpell,
    post: SymSpell,
    word: Seq<u8>,
    word_id: WordId,
    input: Seq<u8>,
)
    requires
        pre.max_distance() == post.max_distance(),
        forall|t: Seq<u8>|
            post.bucket(t) == if del_set(word, pre.max_distance() as nat).contains(t) {
                pre.bucket(t).insert(word_id)
            } else {
                pre.bucket(t)
            },
    ensures
        pre.lookup_spec(input).subset_of(post.lookup_spec(input)),
{
    assert forall|id: WordId| pre.lookup_spec(input).contains(id) implies post.lookup_spec(
        input,
    ).contains(id) by {
        let t = choose|t: Seq<u8>|
            del_set(input, pre.max_distance() as nat).contains(t) && pre.bucket(t).contains(id);
        assert(post.bucket(t).contains(id));
    }
}

/// The empty list holds no identifiers.
proof fn lemma_ids_set_empty()
    ensures
        ids_set(Seq::<WordId>::empty()) == Set::<WordId>::empty(),
{
    assert(ids_set(Seq::<WordId>::empty()) =~= Set::<WordId>::empty());
}

/// Appending an identifier adds exactly it to the represented set.
proof fn lemma_ids_set_push(s: Seq<WordId>, id: WordId)
    ensures
        ids_set(s.push(id)) == ids_set(s).insert(id),
{
    assert forall|x: WordId|
        ids_set(s.push(id)).contains(x) == ids_set(s).insert(id).contains(x) by {
        if ids_set(s.push(id)).contains(x) {
            let j = choose|j: int| 0 <= j < s.push(id).len() && s.push(id)[j] == x;
            if j < s.len() {
                assert(s[j] == x);
            }
        }
        if ids_set(s).insert(id).contains(x) {
            if x == id {
                assert(s.push(id)[s.len() as int] == x);
            } else {
                let j = choose|j: int| 0 <= j < s.len() && s[j] == x;
                assert(s.push(id)[j] == x);
            }
        }
    }
    assert(ids_set(s.push(id)) =~= ids_set(s).insert(id));
}

/// The empty list holds no byte strings.
proof fn lemma_view_set_empty()
    ensures
        view_set(Seq::<Vec<u8>>::empty()) == Set::<Seq<u8>>::empty(),
{
    assert(view_set(Seq::<Vec<u8>>::empty()) =~= Set::<Seq<u8>>::empty());
}

/// Appending a byte vector adds exactly its view to the represented set.
proof fn lemma_view_set_push(v: Seq<Vec<u8>>, x: Vec<u8>)
    ensures
        view_set(v.push(x)) == view_set(v).insert(x@),
{
    assert forall|t: Seq<u8>|
        view_set(v.push(x)).contains(t) == view_set(v).insert(x@).contains(t) by {
        if view_set(v.push(x)).contains(t) {
            let j = choose|j: int| 0 <= j < v.push(x).len() && v.push(x)[j]@ == t;
            if j < v.len() {
                assert(v[j]@ == t);
            }
        }
        if view_set(v).insert(x@).contains(t) {
            if t == x@ {
                assert(v.push(x)[v.len() as int]@ == t);
            } else {
                let j = choose|j: int| 0 <= j < v.len() && v[j]@ == t;
                assert(v.push(x)[j]@ == t);
            }
        }
    }
    assert(view_set(v.push(x)) =~= view_set(v).insert(x@));
}

/// Compares two byte vectors element by element.
pub(crate) fn eq_bytes(a: &Vec<u8>, b: &Vec<u8>) -> (r: bool)
    ensures
        r <==> a@ == b@,
{
    if a.len() != b.len() {
        proof {
            assert(a@ != b@);
        }
        return false;
    }
    let mut i: usize = 0;
    while i < a.len()
        invariant
            a@.len() == b@.len(),
            i <= a@.len(),
            forall|j: int| 0 <= j < i ==> a@[j] == b@[j],
        decreases a@.len() - i,
    {
        if a[i] != b[i] {
            return false;
        }
        i += 1;
    }
    proof {
        assert(a@ =~= b@);
    }
    true
}

/// Copies a byte vector.
pub fn clone_bytes(a: &Vec<u8>) -> (r: Vec<u8>)
    ensures
        r@ == a@,
{
    let mut r: Vec<u8> = Vec::new();
    let mut i: usize = 0;
    while i < a.len()
        invariant
            i <= a@.len(),
            r@ == a@.take(i as int),
        decreases a@.len() - i,
    {
        let b = a[i];
        r.push(b);
        proof {
            assert(a@.take(i as int).push(a@[i as int]) =~= a@.take(i + 1));
        }
        i += 1;
    }
    proof {
        assert(a@.take(a@.len() as int) =~= a@);
    }
    r
}

/// Index of the entry whose key equals `key`, if any.
fn find_key_index(entries: &Vec<(Vec<u8>, Vec<WordId>)>, key: &Vec<u8>) -> (r: Option<usize>)
    ensures
        match r {
            Some(i) => i < entries@.len() && entries@[i as int].0@ == key@,
            None => forall|j: int| 0 <= j < entries@.len() ==> entries@[j].0@ != key@,
        },
{
    let mut i: usize = 0;
    while i < entries.len()
        invariant
            i <= entries@.len(),
            forall|j: int| 0 <= j < i ==> entries@[j].0@ != key@,
        decreases entries@.len() - i,
    {
        if eq_bytes(&entries[i].0, key) {
            return Some(i);
        }
        i += 1;
    }
    None
}

/// Whether `v` holds `id`.
fn contains_id(v: &Vec<WordId>, id: WordId) -> (r: bool)
    ensures
        r <==> v@.contains(id),
{
    let mut i: usize = 0;
    while i < v.len()
        invariant
            i <= v@.len(),
            forall|j: int| 0 <= j < i ==> v@[j] != id,
        decreases v@.len() - i,
    {
        if v[i] == id {
            return true;
        }
        i += 1;
    }
    false
}

/// Whether some element of `v` has byte view `x`.
fn contains_bytes(v: &Vec<Vec<u8>>, x: &Vec<u8>) -> (r: bool)
    ensures
        r <==> view_set(v@).contains(x@),
{
    let mut i: usize = 0;
    while i < v.len()
        invariant
            i <= v@.len(),
            forall|j: int| 0 <= j < i ==> v@[j]@ != x@,
        decreases v@.len() - i,
    {
        if eq_bytes(&v[i], x) {
            proof {
                assert(view_set(v@).contains(x@));
            }
            return true;
        }
        i += 1;
    }
    false
}

/// Produces the whole delete set of `word` for distance `d`: the views of
/// the returned vectors are exactly the byte strings reachable by at most
/// `d` single-byte deletions.
fn generate_edits(word: &Vec<u8>, d: usize) -> (r: Vec<Vec<u8>>)
    ensures
        view_set(r@) == del_set(word@, d as nat),
{
    let mut edits: Vec<Vec<u8>> = Vec::new();
    edits.push(clone_bytes(word));
    let mut current: Vec<Vec<u8>> = Vec::new();
    current.push(clone_bytes(word));
    let mut k: usize = 0;
    proof {
        lemma_view_set_empty();
        assert(edits@ =~= Seq::<Vec<u8>>::empty().push(edits@[0]));
        lemma_view_set_push(Seq::<Vec<u8>>::empty(), edits@[0]);
        assert(current@ =~= Seq::<Vec<u8>>::empty().push(current@[0]));
        lemma_view_set_push(Seq::<Vec<u8>>::empty(), current@[0]);
        assert(del_level(word@, 0).contains(word@));
        assert(view_set(edits@) =~= del_set(word@, 0));
        assert(view_set(current@) =~= del_level(word@, 0));
    }
    while k < d
        invariant
            k <= d,
            view_set(edits@) == del_set(word@, k as nat),
            view_set(current@) == del_level(word@, k as nat),
        decreases d - k,
    {
        let ghost kn = k as nat;
        let mut next: Vec<Vec<u8>> = Vec::new();
        let mut ci: usize = 0;
        proof {
            lemma_view_set_empty();
        }
        while ci < current.len()
            invariant
                ci <= current@.len(),
                view_set(current@) == del_level(word@, kn),
                forall|t: Seq<u8>| #[trigger]
                    view_set(next@).contains(t) ==> del_level(word@, kn + 1).contains(t),
                forall|j: int, i: int|
                    0 <= j < ci && 0 <= i < current@[j]@.len() ==> view_set(next@).contains(
                        #[trigger] current@[j]@.remove(i),
                    ),
            decreases current@.len() - ci,
        {
            let e = &current[ci];
            let mut bi: usize = 0;
            while bi < e.len()
                invariant
                    ci < current@.len(),
                    e@ == current@[ci as int]@,
                    bi <= e@.len(),
                    view_set(current@) == del_level(word@, kn),
                    forall|t: Seq<u8>| #[trigger]
                        view_set(next@).contains(t) ==> del_level(word@, kn + 1).contains(t),
                    forall|j: int, i: int|
                        0 <= j < ci && 0 <= i < current@[j]@.len() ==> view_set(next@).contains(
                            #[trigger] current@[j]@.remove(i),
                        ),
                    forall|i: int|
                        0 <= i < bi ==> view_set(next@).contains(#[trigger] e@.remove(i)),
                decreases e@.len() - bi,
            {
                let mut variant = clone_bytes(e);
                variant.remove(bi);
                proof {
                    assert(view_set(current@).contains(current@[ci as int]@));
                    assert(del_level(word@, kn).contains(e@));
                    assert(del_level(word@, kn + 1).contains(variant@));
                }
                if !contains_bytes(&next, &variant) {
                    let ghost nb = next@;
                    let ghost vv = variant@;
                    next.push(variant);
                    proof {
                        assert(next@ =~= nb.push(next@.last()));
                        lemma_view_set_push(nb, next@.last());
                        assert(view_set(next@) == view_set(nb).insert(vv));
                    }
                }
                bi += 1;
            }
            ci += 1;
        }
        let mut ni: usize = 0;
        while ni < next.len()
            invariant
                ni <= next@.len(),
                view_set(current@) == del_level(word@, kn),
                forall|t: Seq<u8>| #[trigger]
                    view_set(next@).contains(t) ==> del_level(word@, kn + 1).contains(t),
                forall|j: int, i: int|
                    0 <= j < current@.len() && 0 <= i < current@[j]@.len() ==> view_set(
                        next@,
                    ).contains(#[trigger] current@[j]@.remove(i)),
                forall|t: Seq<u8>| #[trigger]
                    view_set(edits@).contains(t) ==> del_set(word@, kn + 1).contains(t),
                forall|t: Seq<u8>| #[trigger]
                    del_set(word@, kn).contains(t) ==> view_set(edits@).contains(t),
                forall|i: int| 0 <= i < ni ==> view_set(edits@).contains(#[trigger] next@[i]@),
            decreases next@.len() - ni,
        {
            proof {
                lemma_del_set_widen(word@, kn);
                assert(view_set(next@).contains(next@[ni as int]@));
            }
            if !contains_bytes(&edits, &next[ni]) {
                let c = clone_bytes(&next[ni]);
                let ghost eb = edits@;
                edits.push(c);
                proof {
                    assert(edits@ =~= eb.push(edits@.last()));
                    lemma_view_set_push(eb, edits@.last());
                }
            }
            ni += 1;
        }
        proof {
            lemma_del_set_widen(word@, kn);
            assert forall|t: Seq<u8>| #[trigger]
                del_set(word@, kn + 1).contains(t) implies view_set(edits@).contains(t) by {
                if !del_set(word@, kn).contains(t) {
                    assert(del_level(word@, kn + 1).contains(t));
                    let (u, i): (Seq<u8>, int) = choose|u: Seq<u8>, i: int|
                        del_level(word@, kn).contains(u) && 0 <= i < u.len() && t == u.remove(i);
                    assert(view_set(current@).contains(u));
                    let j = choose|j: int| 0 <= j < current@.len() && current@[j]@ == u;
                    assert(view_set(next@).contains(current@[j]@.remove(i)));
                    let jj = choose|jj: int| 0 <= jj < next@.len() && next@[jj]@ == t;
                    assert(view_set(edits@).contains(next@[jj]@));
                }
            }
            assert(view_set(edits@) =~= del_set(word@, kn + 1));
            assert forall|t: Seq<u8>| #[trigger]
                del_level(word@, kn + 1).contains(t) implies view_set(next@).contains(t) by {
                let (u, i): (Seq<u8>, int) = choose|u: Seq<u8>, i: int|
                    del_level(word@, kn).contains(u) && 0 <= i < u.len() && t == u.remove(i);
                assert(view_set(current@).contains(u));
                let j = choose|j: int| 0 <= j < current@.len() && current@[j]@ == u;
                assert(view_set(next@).contains(current@[j]@.remove(i)));
            }
            assert(view_set(next@) =~= del_level(word@, kn + 1));
        }
        current = next;
        k += 1;
    }
    edits
}

/// A delete set contains every delete set of smaller distance, and the
/// level just past it.
proof fn lemma_del_set_widen(s: Seq<u8>, k: nat)
    ensures
        forall|t: Seq<u8>| #[trigger] del_set(s, k).contains(t) ==> del_set(s, k + 1).contains(t),
        forall|t: Seq<u8>| #[trigger]
            del_level(s, k + 1).contains(t) ==> del_set(s, k + 1).contains(t),
{
}

/// With distinct keys, the bucket for the key at `i` is that entry's
/// identifier set.
proof fn lemma_bucket_get(entries: Seq<(Vec<u8>, Vec<WordId>)>, i: int)
    requires
        ss_keys_distinct(entries),
        0 <= i < entries.len(),
    ensures
        bucket_of(entries, entries[i].0@) == ids_set(entries[i].1@),
    decreases entries.len(),
{
    if i < entries.len() - 1 {
        assert(ss_keys_distinct(entries.drop_last()));
        lemma_bucket_get(entries.drop_last(), i);
    }
}

/// A key held by no entry has an empty bucket.
proof fn lemma_bucket_absent(entries: Seq<(Vec<u8>, Vec<WordId>)>, t: Seq<u8>)
    requires
        forall|j: int| 0 <= j < entries.len() ==> entries[j].0@ != t,
    ensures
        bucket_of(entries, t) == Set::<WordId>::empty(),
    decreases entries.len(),
{
    if entries.len() > 0 {
        lemma_bucket_absent(entries.drop_last(), t);
    }
}

/// Replacing the identifier list at `i` changes exactly that key's bucket.
proof fn lemma_bucket_update(
    entries: Seq<(Vec<u8>, Vec<WordId>)>,
    i: int,
    ids: Vec<WordId>,
    key: Seq<u8>,
)
    requires
        ss_keys_distinct(entries),
        0 <= i < entries.len(),
        entries[i].0@ == key,
    ensures
        ss_keys_distinct(entries.update(i, (entries[i].0, ids))),
        forall|t: Seq<u8>|
            bucket_of(entries.update(i, (entries[i].0, ids)), t) == if t == key {
                ids_set(ids@)
            } else {
                bucket_of(entries, t)
            },
    decreases entries.len(),
{
    let u = entries.update(i, (entries[i].0, ids));
    if i == entries.len() - 1 {
        assert(u.drop_last() =~= entries.drop_last());
        assert(u.last() == (entries[i].0, ids));
        assert forall|t: Seq<u8>|
            bucket_of(u, t) == if t == key {
                ids_set(ids@)
            } else {
                bucket_of(entries, t)
            } by {
            if t != key {
                assert(bucket_of(u, t) == bucket_of(u.drop_last(), t));
            }
        }
    } else {
        assert(ss_keys_distinct(entries.drop_last()));
        lemma_bucket_update(entries.drop_last(), i, ids, key);
        assert(u.drop_last() =~= entries.drop_last().update(i, (entries[i].0, ids)));
        assert(u.last() == entries.last());
        assert(entries.last().0@ != key);
        assert forall|t: Seq<u8>|
            bucket_of(u, t) == if t == key {
                ids_set(ids@)
            } else {
                bucket_of(entries, t)
            } by {
            if u.last().0@ == t {
                assert(bucket_of(u, t) == ids_set(u.last().1@));
            } else {
                assert(bucket_of(u, t) == bucket_of(u.drop_last(), t));
            }
        }
    }
}

} // verus!
