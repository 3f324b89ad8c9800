use vstd::prelude::*;

use crate::tables::consonant_of;
use crate::tables::spec_consonant;
use crate::tables::spec_symbol;
use crate::tables::spec_vowel;
use crate::tables::symbol_of;
use crate::tables::v1;
use crate::tables::vowel_of;
use crate::tables::VIRAMA;
use vstd::string::StrSliceExecFns;

verus! {

/// State of the syllable being built by the transducer.
#[derive(Clone, Copy)]
pub enum FstState {
    /// Beginning of a word, or just after a vowel or symbol.
    Start,
    /// A consonant plus virama was emitted; a vowel or a conjunct
    /// continuation is awaited.
    Halanta,
    /// A complete syllable was just emitted.
    Syllable,
}

/// Longest token length: no Roman token has more than four characters.
pub const MAX_TOKEN_LEN: usize = 4;

/// Whether `s` is a Roman token of any kind.
pub open spec fn is_tok(s: Seq<char>) -> bool {
    spec_symbol(s).is_some() || spec_consonant(s).is_some() || spec_vowel(s).is_some()
}

/// Length of the longest token starting the remaining input, searched
/// from four characters down to one; zero when nothing matches.
pub open spec fn match_len(rem: Seq<char>) -> int {
    if rem.len() >= 4 && is_tok(rem.take(4)) {
        4
    } else if rem.len() >= 3 && is_tok(rem.take(3)) {
        3
    } else if rem.len() >= 2 && is_tok(rem.take(2)) {
        2
    } else if rem.len() >= 1 && is_tok(rem.take(1)) {
        1
    } else {
        0
    }
}

/// Removes a trailing virama, if one is present.
pub open spec fn drop_virama(acc: Seq<char>) -> Seq<char> {
    if acc.len() > 0 && acc.last() == VIRAMA {
        acc.drop_last()
    } else {
        acc
    }
}

/// One transducer transition: output after consuming token `tok` in
/// state `st`, and the next state. Symbols win over consonants, which
/// win over vowels. A consonant always emits itself plus a virama; in
/// `Halanta` a vowel replaces the pending virama by its matra, and a
/// symbol drops the pending virama.
pub open spec fn apply_tok(acc: Seq<char>, st: FstState, tok: Seq<char>) -> (Seq<char>, FstState) {
    match spec_symbol(tok) {
        Some(sv) => (
            match st {
                FstState::Halanta => drop_virama(acc) + sv,
                _ => acc + sv,
            },
            FstState::Start,
        ),
        None => match spec_consonant(tok) {
            Some(cv) => ((acc + cv).push(VIRAMA), FstState::Halanta),
            None => match spec_vowel(tok) {
                Some((fv, mv)) => (
                    match st {
                        FstState::Halanta => drop_virama(acc) + mv,
                        _ => acc + fv,
                    },
                    FstState::Syllable,
                ),
                None => (acc, st),
            },
        },
    }
}

/// The transducer run over the remaining input: consumes the longest
/// token each step, passes unknown characters through verbatim after
/// dropping a pending virama, and, when `schwa` is set and the run ends
/// awaiting a conjunct, drops the final consonant's pending virama.
pub open spec fn spec_translit(rem: Seq<char>, st: FstState, acc: Seq<char>, schwa: bool) -> Seq<
    char,
>
    decreases rem.len(),
{
    if rem.len() == 0 {
        if schwa && st is Halanta {
            drop_virama(acc)
        } else {
            acc
        }
    } else {
        let l = match_len(rem);
        if l == 0 {
            spec_translit(rem.skip(1), FstState::Start, drop_virama(acc).push(rem[0]), schwa)
        } else {
            let step = apply_tok(acc, st, rem.take(l));
            spec_translit(rem.skip(l), step.1, step.0, schwa)
        }
    }
}

/// The deterministic primary transliteration: the transducer from the
/// start state with final schwa deletion.
pub open spec fn spec_primary(s: Seq<char>) -> Seq<char> {
    spec_translit(s, FstState::Start, Seq::<char>::empty(), true)
}

/// Appends a candidate unless it is already present.
pub open spec fn app_if_new(s: Seq<Seq<char>>, v: Seq<char>) -> Seq<Seq<char>> {
    if s.contains(v) {
        s
    } else {
        s.push(v)
    }
}

/// Scans for the first consonant token followed by a single `a` (not
/// `aa`) and, if found, yields the input with that `a` doubled.
pub open spec fn promote_from(rem: Seq<char>, prefix: Seq<char>) -> Option<Seq<char>>
    decreases rem.len(),
{
    if rem.len() == 0 {
        None
    } else {
        let l = match_len(rem);
        if l == 0 {
            promote_from(rem.skip(1), prefix.push(rem[0]))
        } else {
            let tok = rem.take(l);
            let rest = rem.skip(l);
            if spec_symbol(tok).is_none() && spec_consonant(tok).is_some() && rest.len() >= 1
                && rest[0] == 'a' && !(rest.len() >= 2 && rest[1] == 'a') {
                Some(prefix + tok + seq!['a'] + rest)
            } else {
                promote_from(rest, prefix + tok)
            }
        }
    }
}

/// Largest split point `i` of `s`, at least 1, whose suffix is a vowel
/// token.
pub open spec fn lvb_from(s: Seq<char>, i: int) -> Option<int>
    decreases i,
{
    if i < 1 {
        None
    } else if spec_vowel(s.skip(i)).is_some() {
        Some(i)
    } else {
        lvb_from(s, i - 1)
    }
}

/// The candidate list: empty input gives nothing; an input that is
/// itself a symbol token gives exactly that symbol; otherwise the
/// primary transliteration first, followed by the phonetic variants of
/// the heuristics below, de-duplicated in order: keeping a final single
/// `a`, doubling a medial `a` after a consonant, splitting a final `ai`
/// or `au` as a long `aa` plus independent vowel, an initial `aa`
/// before a vowel token, and splitting at the last vowel boundary.
pub open spec fn spec_candidates(s: Seq<char>) -> Seq<Seq<char>> {
    if s.len() == 0 {
        Seq::<Seq<char>>::empty()
    } else {
        match spec_symbol(s) {
            Some(v) => seq![v],
            None => {
                let n = s.len() as int;
                let p = spec_primary(s);
                let c0 = seq![p];
                let c1 = if s[n - 1] == 'a' && !(n >= 2 && s[n - 2] == 'a') {
                    app_if_new(c0, spec_translit(s, FstState::Start, Seq::<char>::empty(), false))
                } else {
                    c0
                };
                let c2 = match promote_from(s, Seq::<char>::empty()) {
                    Some(pr) => app_if_new(c1, spec_primary(pr)),
                    None => c1,
                };
                let c3 = if n > 2 && s[n - 2] == 'a' && s[n - 1] == 'i' {
                    app_if_new(c2, spec_primary(s.take(n - 2) + seq!['a', 'a']).push('\u{0907}'))
                } else {
                    c2
                };
                let c4 = if n > 2 && s[n - 2] == 'a' && s[n - 1] == 'u' {
                    app_if_new(c3, spec_primary(s.take(n - 2) + seq!['a', 'a']).push('\u{0909}'))
                } else {
                    c3
                };
                let c5 = if n > 2 && s[0] == 'a' && s[1] == 'a' && spec_vowel(s.skip(2)).is_some() {
                    app_if_new(c4, seq!['\u{0906}'] + spec_vowel(s.skip(2)).unwrap().0)
                } else {
                    c4
                };
                let c6 = match lvb_from(s, n - 1) {
                    Some(b) => app_if_new(c5, spec_primary(s.take(b)) + spec_vowel(
                        s.skip(b),
                    ).unwrap().0),
                    None => c5,
                };
                c6
            },
        }
    }
}

/// Syllable-aware Roman-to-Devanagari transducer. The token tables are
/// fixed; the transducer itself carries no state between calls, so both
/// transliteration entry points are pure functions of their input.
pub struct RomanizationEngine {}

impl RomanizationEngine {
    pub fn new() -> (r: Self) {
        RomanizationEngine {  }
    }

    /// The single most likely transliteration, with final schwa
    /// deletion; a pure function of `roman` alone, and empty exactly on
    /// empty input.
    pub fn transliterate_primary(&self, roman: &str) -> (r: String)
        ensures
            r@ == spec_primary(roman@),
            roman@.len() == 0 ==> r@ == Seq::<char>::empty(),
    {
        let chars = str_to_chars(roman);
        let out = translit_chars(&chars, true);
        chars_to_string(&out)
    }

    /// The candidate list of `spec_candidates`: the primary
    /// transliteration first, then de-duplicated phonetic variants; a
    /// lone symbol token maps to exactly its symbol.
    #[verifier::rlimit(100)]
    pub fn generate_candidates(&self, roman: &str) -> (r: Vec<String>)
        ensures
            r.deep_view() == spec_candidates(roman@),
    {
        let chars = str_to_chars(roman);
        let n = chars.len();
        if n == 0 {
            let r: Vec<String> = Vec::new();
            proof {
                assert(r.deep_view() =~= spec_candidates(roman@));
            }
            return r;
        }
        match symbol_of(&chars) {
            Some(sv) => {
                let mut r: Vec<String> = Vec::new();
                r.push(chars_to_string(&sv));
                proof {
                    assert(r@[0]@ == sv@);
                    assert(r.deep_view() =~= seq![sv@]);
                }
                r
            },
            None => {
                let primary = translit_chars(&chars, true);
                let mut cands: Vec<Vec<char>> = Vec::new();
                cands.push(primary);
                proof {
                    assert(views_of(cands@) =~= seq![spec_primary(roman@)]);
                }
                // Keep a final single `a` un-deleted.
                if chars[n - 1] == 'a' && !(n >= 2 && chars[n - 2] == 'a') {
                    let v = translit_chars(&chars, false);
                    push_if_new(&mut cands, v);
                }
                // Double the first medial `a` that follows a consonant.
                match promote(&chars) {
                    Some(pr) => {
                        let v = translit_chars(&pr, true);
                        push_if_new(&mut cands, v);
                    },
                    None => {},
                }
                // Split a final `ai` as `aa` plus independent `i`.
                if n > 2 && chars[n - 2] == 'a' && chars[n - 1] == 'i' {
                    let mut stem = tok_at(&chars, 0, n - 2);
                    stem.push('a');
                    stem.push('a');
                    proof {
                        assert(stem@ =~= roman@.take(n - 2) + seq!['a', 'a']);
                    }
                    let mut v = translit_chars(&stem, true);
                    v.push('\u{0907}');
                    push_if_new(&mut cands, v);
                }
                // Split a final `au` as `aa` plus independent `u`.
                if n > 2 && chars[n - 2] == 'a' && chars[n - 1] == 'u' {
                    let mut stem = tok_at(&chars, 0, n - 2);
                    stem.push('a');
                    stem.push('a');
                    proof {
                        assert(stem@ =~= roman@.take(n - 2) + seq!['a', 'a']);
                    }
                    let mut v = translit_chars(&stem, true);
                    v.push('\u{0909}');
                    push_if_new(&mut cands, v);
                }
                // An initial `aa` followed by a vowel token.
                if n > 2 && chars[0] == 'a' && chars[1] == 'a' {
                    let rest = tok_at(&chars, 2, n - 2);
                    proof {
                        assert(rest@ =~= roman@.skip(2));
                    }
                    match vowel_of(&rest) {
                        Some((fv, _)) => {
                            let mut v = v1('\u{0906}');
                            push_all(&mut v, &fv);
                            push_if_new(&mut cands, v);
                        },
                        None => {},
                    }
                }
                // Split at the last vowel boundary.
                match last_vowel_boundary(&chars) {
                    Some(b) => {
                        let stem = tok_at(&chars, 0, b);
                        proof {
                            assert(stem@ =~= roman@.take(b as int));
                        }
                        let suffix = tok_at(&chars, b, n - b);
                        proof {
                            assert(suffix@ =~= roman@.skip(b as int));
                        }
                        match vowel_of(&suffix) {
                            Some((fv, _)) => {
                                let mut v = translit_chars(&stem, true);
                                push_all(&mut v, &fv);
                                push_if_new(&mut cands, v);
                            },
                            None => {
                                proof {
                                    assert(false);
                                }
                            },
                        }
                    },
                    None => {},
                }
                let mut r: Vec<String> = Vec::new();
                let mut i: usize = 0;
                while i < cands.len()
                    invariant
                        i <= cands@.len(),
                        r@.len() == i,
                        forall|j: int| 0 <= j < i ==> r@[j]@ == views_of(cands@)[j],
                    decreases cands@.len() - i,
                {
                    r.push(chars_to_string(&cands[i]));
                    i += 1;
                }
                proof {
                    assert(r.deep_view() =~= views_of(cands@));
                }
                r
            },
        }
    }
}

/// The character views held by a list of character vectors, in order.
pub open spec fn views_of(v: Seq<Vec<char>>) -> Seq<Seq<char>> {
    v.map_values(|x: Vec<char>| x@)
}

/// Appends `v` unless an equal candidate is already present.
fn push_if_new(cands: &mut Vec<Vec<char>>, v: Vec<char>)
    ensures
        views_of(final(cands)@) == app_if_new(views_of(old(cands)@), v@),
{
    let mut i: usize = 0;
    while i < cands.len()
        invariant
            i <= cands@.len(),
            forall|j: int| 0 <= j < i ==> cands@[j]@ != v@,
        decreases cands@.len() - i,
    {
        if eq_chars(&cands[i], &v) {
            proof {
                assert(views_of(cands@)[i as int] == v@);
                assert(views_of(cands@).contains(v@));
            }
            return ;
        }
        i += 1;
    }
    proof {
        assert forall|j: int| 0 <= j < views_of(cands@).len() implies views_of(cands@)[j]
            != v@ by {}
        assert(!views_of(cands@).contains(v@));
    }
    let ghost pre = cands@;
    cands.push(v);
    proof {
        assert(views_of(cands@) =~= views_of(pre).push(cands@.last()@));
    }
}

/// Compares two character vectors element by element.
fn eq_chars(a: &Vec<char>, b: &Vec<char>) -> (r: bool)
    ensures
        r <==> a@ == b@,
{
    if a.len() != b.len() {
        proof {
            assert(a@ != b@);
        }
        return false;
    }
    let mut i: usize = 0;
    while i < a.len()
        invariant
            a@.len() == b@.len(),
            i <= a@.len(),
            forall|j: int| 0 <= j < i ==> a@[j] == b@[j],
        decreases a@.len() - i,
    {
        if a[i] != b[i] {
            return false;
        }
        i += 1;
    }
    proof {
        assert(a@ =~= b@);
    }
    true
}

/// The characters of `s`, in order.
pub fn str_to_chars(s: &str) -> (r: Vec<char>)
    ensures
        r@ == s@,
{
    let n = s.unicode_len();
    let mut r: Vec<char> = Vec::new();
    let mut i: usize = 0;
    while i < n
        invariant
            n == s@.len(),
            i <= n,
            r@ == s@.take(i as int),
        decreases n - i,
    {
        let c = s.get_char(i);
        r.push(c);
        proof {
            assert(s@.take(i as int).push(s@[i as int]) =~= s@.take(i + 1));
        }
        i += 1;
    }
    proof {
        assert(s@.take(s@.len() as int) =~= s@);
    }
    r
}

/// Relies on `String::push`: appends exactly one character to the string.
#[verifier::external_body]
fn push_char(s: &mut String, c: char)
    ensures
        final(s)@ == old(s)@.push(c),
{
    s.push(c);
}

/// A string holding exactly the characters of `v`.
pub fn chars_to_string(v: &Vec<char>) -> (r: String)
    ensures
        r@ == v@,
{
    let mut r = String::new();
    let mut i: usize = 0;
    while i < v.len()
        invariant
            i <= v@.len(),
            r@ == v@.take(i as int),
        decreases v@.len() - i,
    {
        push_char(&mut r, v[i]);
        proof {
            assert(v@.take(i as int).push(v@[i as int]) =~= v@.take(i + 1));
        }
        i += 1;
    }
    proof {
        assert(v@.take(v@.len() as int) =~= v@);
    }
    r
}

/// Appends every character of `v`.
fn push_all(out: &mut Vec<char>, v: &Vec<char>)
    ensures
        final(out)@ == old(out)@ + v@,
{
    let mut i: usize = 0;
    while i < v.len()
        invariant
            i <= v@.len(),
            out@ == old(out)@ + v@.take(i as int),
        decreases v@.len() - i,
    {
        let c = v[i];
        out.push(c);
        proof {
            assert((old(out)@ + v@.take(i as int)).push(v@[i as int]) =~= old(out)@ + v@.take(
                i + 1,
            ));
        }
        i += 1;
    }
    proof {
        assert(old(out)@ + v@.take(v@.len() as int) =~= old(out)@ + v@);
    }
}

/// Removes a trailing virama, if one is present.
fn pop_virama(out: &mut Vec<char>)
    ensures
        final(out)@ == drop_virama(old(out)@),
{
    if out.len() > 0 {
        if out[out.len() - 1] == VIRAMA {
            let _ = out.pop();
        }
    }
}

/// The `l` characters of `chars` starting at `i`.
fn tok_at(chars: &Vec<char>, i: usize, l: usize) -> (r: Vec<char>)
    requires
        i + l <= chars@.len(),
    ensures
        r@ == chars@.subrange(i as int, i + l),
{
    let n = chars.len();
    let mut r: Vec<char> = Vec::new();
    let mut j: usize = 0;
    while j < l
        invariant
            n == chars@.len(),
            i + l <= n,
            j <= l,
            r@ == chars@.subrange(i as int, i + j),
        decreases l - j,
    {
        let c = chars[i + j];
        r.push(c);
        proof {
            assert(chars@.subrange(i as int, i + j).push(chars@[i + j]) =~= chars@.subrange(
                i as int,
                i + j + 1,
            ));
        }
        j += 1;
    }
    r
}

/// Whether the token held by `t` is a Roman token of any kind.
fn is_tok_exec(t: &Vec<char>) -> (r: bool)
    ensures
        r == is_tok(t@),
{
    if symbol_of(t).is_some() {
        return true;
    }
    if consonant_of(t).is_some() {
        return true;
    }
    vowel_of(t).is_some()
}

/// Longest token length at position `i`, zero when nothing matches.
fn match_len_at(chars: &Vec<char>, i: usize) -> (l: usize)
    requires
        i < chars@.len(),
    ensures
        l == match_len(chars@.skip(i as int)),
        i + l <= chars@.len(),
        l <= MAX_TOKEN_LEN,
    {
    let n = chars.len();
    let rem = n - i;
    let ghost r = chars@.skip(i as int);
    if rem >= 4 {
        let t = tok_at(chars, i, 4);
        proof {
            assert(t@ =~= r.take(4));
        }
        if is_tok_exec(&t) {
            return 4;
        }
    }
    if rem >= 3 {
        let t = tok_at(chars, i, 3);
        proof {
            assert(t@ =~= r.take(3));
        }
        if is_tok_exec(&t) {
            return 3;
        }
    }
    if rem >= 2 {
        let t = tok_at(chars, i, 2);
        proof {
            assert(t@ =~= r.take(2));
        }
        if is_tok_exec(&t) {
            return 2;
        }
    }
    let t = tok_at(chars, i, 1);
    proof {
        assert(t@ =~= r.take(1));
    }
    if is_tok_exec(&t) {
        return 1;
    }
    0
}

/// One transducer transition on the output buffer; returns the next
/// state.
fn apply_token(out: &mut Vec<char>, st: FstState, tok: &Vec<char>) -> (r: FstState)
    requires
        is_tok(tok@),
    ensures
        final(out)@ == apply_tok(old(out)@, st, tok@).0,
        r == apply_tok(old(out)@, st, tok@).1,
{
    match symbol_of(tok) {
        Some(sv) => {
            match st {
                FstState::Halanta => {
                    pop_virama(out);
                },
                _ => {},
            }
            push_all(out, &sv);
            FstState::Start
        },
        None => {
            match consonant_of(tok) {
                Some(cv) => {
                    push_all(out, &cv);
                    out.push(VIRAMA);
                    FstState::Halanta
                },
                None => {
                    match vowel_of(tok) {
                        Some((fv, mv)) => {
                            match st {
                                FstState::Halanta => {
                                    pop_virama(out);
                                    push_all(out, &mv);
                                },
                                _ => {
                                    push_all(out, &fv);
                                },
                            }
                            FstState::Syllable
                        },
                        None => {
                            proof {
                                assert(spec_symbol(tok@).is_none());
                                assert(spec_consonant(tok@).is_none());
                                assert(spec_vowel(tok@).is_none());
                                assert(false);
                            }
                            FstState::Start
                        },
                    }
                },
            }
        },
    }
}

/// Runs the transducer over `chars` from the start state.
pub fn translit_chars(chars: &Vec<char>, schwa: bool) -> (r: Vec<char>)
    ensures
        r@ == spec_translit(chars@, FstState::Start, Seq::<char>::empty(), schwa),
{
    let ghost goal = spec_translit(chars@, FstState::Start, Seq::<char>::empty(), schwa);
    let mut out: Vec<char> = Vec::new();
    let mut st = FstState::Start;
    let mut i: usize = 0;
    proof {
        assert(chars@.skip(0) =~= chars@);
        assert(out@ =~= Seq::<char>::empty());
    }
    while i < chars.len()
        invariant
            i <= chars@.len(),
            spec_translit(chars@.skip(i as int), st, out@, schwa) == goal,
        decreases chars@.len() - i,
    {
        let ghost rem = chars@.skip(i as int);
        let l = match_len_at(chars, i);
        if l == 0 {
            pop_virama(&mut out);
            let c = chars[i];
            out.push(c);
            st = FstState::Start;
            proof {
                assert(rem[0] == chars@[i as int]);
                assert(rem.skip(1) =~= chars@.skip(i + 1));
            }
            i += 1;
        } else {
            let tok = tok_at(chars, i, l);
            proof {
                assert(tok@ =~= rem.take(l as int));
            }
            st = apply_token(&mut out, st, &tok);
            proof {
                assert(rem.skip(l as int) =~= chars@.skip(i + l));
            }
            i += l;
        }
    }
    proof {
        assert(chars@.skip(chars@.len() as int) =~= Seq::<char>::empty());
    }
    if schwa {
        match st {
            FstState::Halanta => {
                pop_virama(&mut out);
            },
            _ => {},
        }
    }
    out
}

/// The doubled-`a` variant input, if the promotion heuristic applies.
fn promote(chars: &Vec<char>) -> (r: Option<Vec<char>>)
    ensures
        match r {
            Some(v) => promote_from(chars@, Seq::<char>::empty()) == Some(v@),
            None => promote_from(chars@, Seq::<char>::empty()) == Option::<Seq<char>>::None,
        },
{
    let mut prefix: Vec<char> = Vec::new();
    let mut i: usize = 0;
    proof {
        assert(chars@.skip(0) =~= chars@);
        assert(prefix@ =~= Seq::<char>::empty());
    }
    while i < chars.len()
        invariant
            i <= chars@.len(),
            promote_from(chars@.skip(i as int), prefix@) == promote_from(
                chars@,
                Seq::<char>::empty(),
            ),
        decreases chars@.len() - i,
    {
        let ghost rem = chars@.skip(i as int);
        let l = match_len_at(chars, i);
        if l == 0 {
            let c = chars[i];
            prefix.push(c);
            proof {
                assert(rem[0] == chars@[i as int]);
                assert(rem.skip(1) =~= chars@.skip(i + 1));
            }
            i += 1;
        } else {
            let tok = tok_at(chars, i, l);
            proof {
                assert(tok@ =~= rem.take(l as int));
            }
            let n = chars.len();
            let rest_start = i + l;
            let is_cons = symbol_of(&tok).is_none() && consonant_of(&tok).is_some();
            let hit = is_cons && rest_start < n && chars[rest_start] == 'a' && !(rest_start + 1
                < n && chars[rest_start + 1] == 'a');
            proof {
                assert(rem.skip(l as int) =~= chars@.skip(i + l));
            }
            if hit {
                let mut v = clone_chars(&prefix);
                push_all(&mut v, &tok);
                v.push('a');
                let rest = tok_at(chars, rest_start, n - rest_start);
                push_all(&mut v, &rest);
                proof {
                    assert(rest@ =~= rem.skip(l as int));
                    assert(v@ =~= prefix@ + tok@ + seq!['a'] + rem.skip(l as int));
                }
                return Some(v);
            }
            push_all(&mut prefix, &tok);
            i += l;
        }
    }
    proof {
        assert(chars@.skip(chars@.len() as int) =~= Seq::<char>::empty());
    }
    None
}

/// Copies a character vector.
fn clone_chars(a: &Vec<char>) -> (r: Vec<char>)
    ensures
        r@ == a@,
{
    let mut r: Vec<char> = Vec::new();
    let mut i: usize = 0;
    while i < a.len()
        invariant
            i <= a@.len(),
            r@ == a@.take(i as int),
        decreases a@.len() - i,
    {
        let c = a[i];
        r.push(c);
        proof {
            assert(a@.take(i as int).push(a@[i as int]) =~= a@.take(i + 1));
        }
        i += 1;
    }
    proof {
        assert(a@.take(a@.len() as int) =~= a@);
    }
    r
}

/// Largest split point whose suffix is a vowel token, if any.
fn last_vowel_boundary(chars: &Vec<char>) -> (r: Option<usize>)
    requires
        chars@.len() >= 1,
    ensures
        match r {
            Some(b) => 1 <= b < chars@.len() && lvb_from(chars@, chars@.len() - 1) == Some(
                b as int,
            ) && spec_vowel(chars@.skip(b as int)).is_some(),
            None => lvb_from(chars@, chars@.len() - 1) == Option::<int>::None,
        },
{
    let n = chars.len();
    let mut i: usize = n - 1;
    while i >= 1
        invariant
            n == chars@.len(),
            i <= n - 1,
            lvb_from(chars@, n - 1) == lvb_from(chars@, i as int),
        decreases i,
    {
        let suffix = tok_at(chars, i, n - i);
        proof {
            assert(suffix@ =~= chars@.skip(i as int));
        }
        if vowel_of(&suffix).is_some() {
            return Some(i);
        }
        i -= 1;
    }
    None
}

/// An unrecognized single character that is not itself the virama comes
/// back unchanged from the primary transliteration.
pub proof fn lemma_unknown_char_passthrough(c: char)
    requires
        !is_tok(seq![c]),
        c != VIRAMA,
    ensures
        spec_primary(seq![c]) == seq![c],
{
    let s = seq![c];
    assert(s.take(1) =~= s);
    assert(match_len(s) == 0);
    assert(drop_virama(Seq::<char>::empty()).push(c) =~= seq![c]);
    assert(s.skip(1) =~= Seq::<char>::empty());
    assert(spec_translit(Seq::<char>::empty(), FstState::Start, seq![c], true) == drop_virama(
        seq![c],
    ));
    assert(drop_virama(seq![c]) =~= seq![c]);
}

/// The primary transliteration of the empty input is empty.
pub proof fn lemma_empty_input()
    ensures
        spec_primary(Seq::<char>::empty()) == Seq::<char>::empty(),
{
    assert(drop_virama(Seq::<char>::empty()) =~= Seq::<char>::empty());
}

} // verus!
