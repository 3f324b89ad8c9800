use vstd::prelude::*;

verus! {

/// The virama (halanta) diacritic that suppresses a consonant's
/// inherent vowel.
pub const VIRAMA: char = '\u{094d}';

/// View of an optional character vector.
pub open spec fn ov(r: Option<Vec<char>>) -> Option<Seq<char>> {
    match r {
        Some(v) => Some(v@),
        None => None,
    }
}

/// View of an optional pair of character vectors.
pub open spec fn ovp(r: Option<(Vec<char>, Vec<char>)>) -> Option<(Seq<char>, Seq<char>)> {
    match r {
        Some(v) => Some((v.0@, v.1@)),
        None => None,
    }
}

/// An empty character vector.
pub fn v0() -> (r: Vec<char>)
    ensures
        r@ == Seq::<char>::empty(),
{
    let r: Vec<char> = Vec::new();
    proof {
        assert(r@ =~= Seq::<char>::empty());
    }
    r
}

/// A one-character vector.
pub fn v1(a: char) -> (r: Vec<char>)
    ensures
        r@ == seq![a],
{
    let mut r: Vec<char> = Vec::new();
    r.push(a);
    proof {
        assert(r@ =~= seq![a]);
    }
    r
}

/// A two-character vector.
pub fn v2(a: char, b: char) -> (r: Vec<char>)
    ensures
        r@ == seq![a, b],
{
    let mut r: Vec<char> = Vec::new();
    r.push(a);
    r.push(b);
    proof {
        assert(r@ =~= seq![a, b]);
    }
    r
}

/// A three-character vector.
pub fn v3(a: char, b: char, c: char) -> (r: Vec<char>)
    ensures
        r@ == seq![a, b, c],
{
    let mut r: Vec<char> = Vec::new();
    r.push(a);
    r.push(b);
    r.push(c);
    proof {
        assert(r@ =~= seq![a, b, c]);
    }
    r
}


/// One-character symbol tokens: punctuation, digits, avagraha.
pub open spec fn sym1(c0: char) -> Option<Seq<char>> {
    if c0 == '.' {
        Some(seq!['\u{0964}'])
    } else if c0 == '?' {
        Some(seq!['?'])
    } else if c0 == '!' {
        Some(seq!['!'])
    } else if c0 == ',' {
        Some(seq![','])
    } else if c0 == ';' {
        Some(seq![';'])
    } else if c0 == ':' {
        Some(seq![':'])
    } else if c0 == '\'' {
        Some(seq!['\u{093d}'])
    } else if c0 == '@' {
        Some(seq!['\u{0950}'])
    } else if c0 == '0' {
        Some(seq!['\u{0966}'])
    } else if c0 == '1' {
        Some(seq!['\u{0967}'])
    } else if c0 == '2' {
        Some(seq!['\u{0968}'])
    } else if c0 == '3' {
        Some(seq!['\u{0969}'])
    } else if c0 == '4' {
        Some(seq!['\u{096a}'])
    } else if c0 == '5' {
        Some(seq!['\u{096b}'])
    } else if c0 == '6' {
        Some(seq!['\u{096c}'])
    } else if c0 == '7' {
        Some(seq!['\u{096d}'])
    } else if c0 == '8' {
        Some(seq!['\u{096e}'])
    } else if c0 == '9' {
        Some(seq!['\u{096f}'])
    } else if c0 == '|' {
        Some(seq!['\u{0964}'])
    } else if c0 == '_' {
        Some(seq!['\u{094d}'])
    } else {
        None
    }
}

/// Two-character symbol tokens.
pub open spec fn sym2(c0: char, c1: char) -> Option<Seq<char>> {
    if c0 == '.' && c1 == '.' {
        Some(seq!['\u{0964}', '\u{0964}'])
    } else if c0 == 'O' && c1 == 'M' {
        Some(seq!['\u{0950}'])
    } else if c0 == 'O' && c1 == 'm' {
        Some(seq!['\u{0950}'])
    } else if c0 == '|' && c1 == '|' {
        Some(seq!['\u{0964}', '\u{0964}'])
    } else {
        None
    }
}

/// Three-character symbol tokens.
pub open spec fn sym3(c0: char, c1: char, c2: char) -> Option<Seq<char>> {
    if c0 == '.' && c1 == '.' && c2 == '.' {
        Some(seq!['.', '.', '.'])
    } else if c0 == 'A' && c1 == 'U' && c2 == 'M' {
        Some(seq!['\u{0950}'])
    } else {
        None
    }
}

/// One-character consonant tokens.
pub open spec fn cons1(c0: char) -> Option<Seq<char>> {
    if c0 == 'k' {
        Some(seq!['क'])
    } else if c0 == 'g' {
        Some(seq!['ग'])
    } else if c0 == 'c' {
        Some(seq!['च'])
    } else if c0 == 'x' {
        Some(seq!['छ'])
    } else if c0 == 'j' {
        Some(seq!['ज'])
    } else if c0 == 'T' {
        Some(seq!['ट'])
    } else if c0 == 'D' {
        Some(seq!['ड'])
    } else if c0 == 'N' {
        Some(seq!['ण'])
    } else if c0 == 't' {
        Some(seq!['त'])
    } else if c0 == 'd' {
        Some(seq!['द'])
    } else if c0 == 'n' {
        Some(seq!['न'])
    } else if c0 == 'p' {
        Some(seq!['प'])
    } else if c0 == 'b' {
        Some(seq!['ब'])
    } else if c0 == 'm' {
        Some(seq!['म'])
    } else if c0 == 'y' {
        Some(seq!['य'])
    } else if c0 == 'r' {
        Some(seq!['र'])
    } else if c0 == 'l' {
        Some(seq!['ल'])
    } else if c0 == 'w' {
        Some(seq!['व'])
    } else if c0 == 'v' {
        Some(seq!['व'])
    } else if c0 == 'S' {
        Some(seq!['ष'])
    } else if c0 == 's' {
        Some(seq!['स'])
    } else if c0 == 'h' {
        Some(seq!['ह'])
    } else if c0 == 'q' {
        Some(seq!['\u{0958}'])
    } else if c0 == 'K' {
        Some(seq!['\u{0959}'])
    } else if c0 == 'G' {
        Some(seq!['\u{095a}'])
    } else if c0 == 'z' {
        Some(seq!['\u{095b}'])
    } else if c0 == 'Z' {
        Some(seq!['झ', '\u{093c}'])
    } else if c0 == 'f' {
        Some(seq!['\u{095e}'])
    } else if c0 == 'L' {
        Some(seq!['ळ'])
    } else {
        None
    }
}

/// Two-character consonant tokens: aspirates, ligature aliases, joiner controls.
pub open spec fn cons2(c0: char, c1: char) -> Option<Seq<char>> {
    if c0 == 'k' && c1 == 'h' {
        Some(seq!['ख'])
    } else if c0 == 'g' && c1 == 'h' {
        Some(seq!['घ'])
    } else if c0 == 'n' && c1 == 'g' {
        Some(seq!['ङ'])
    } else if c0 == 'c' && c1 == 'h' {
        Some(seq!['च'])
    } else if c0 == 'j' && c1 == 'h' {
        Some(seq!['झ'])
    } else if c0 == 'n' && c1 == 'y' {
        Some(seq!['ञ'])
    } else if c0 == 'T' && c1 == 'h' {
        Some(seq!['ठ'])
    } else if c0 == 'D' && c1 == 'h' {
        Some(seq!['ढ'])
    } else if c0 == 't' && c1 == 'h' {
        Some(seq!['थ'])
    } else if c0 == 'd' && c1 == 'h' {
        Some(seq!['ध'])
    } else if c0 == 'p' && c1 == 'h' {
        Some(seq!['फ'])
    } else if c0 == 'b' && c1 == 'h' {
        Some(seq!['भ'])
    } else if c0 == 's' && c1 == 'h' {
        Some(seq!['श'])
    } else if c0 == 't' && c1 == 'R' {
        Some(seq!['त', '\u{094d}', 'र'])
    } else if c0 == 'G' && c1 == 'Y' {
        Some(seq!['ज', '\u{094d}', 'ञ'])
    } else if c0 == 'R' && c1 == 'h' {
        Some(seq!['\u{095d}'])
    } else if c0 == 'R' && c1 == 'f' {
        Some(seq!['\u{095c}'])
    } else if c0 == 'n' && c1 == 'N' {
        Some(seq!['\u{0929}'])
    } else if c0 == 'r' && c1 == 'R' {
        Some(seq!['\u{0931}'])
    } else if c0 == 'l' && c1 == 'L' {
        Some(seq!['\u{0934}'])
    } else if c0 == '^' && c1 == '^' {
        Some(seq!['\u{200c}'])
    } else if c0 == '^' && c1 == '_' {
        Some(seq!['\u{200d}'])
    } else {
        None
    }
}

/// Three-character consonant tokens.
pub open spec fn cons3(c0: char, c1: char, c2: char) -> Option<Seq<char>> {
    if c0 == 'c' && c1 == 'h' && c2 == 'h' {
        Some(seq!['छ'])
    } else if c0 == 'j' && c1 == 'n' && c2 == 'y' {
        Some(seq!['ज', '\u{094d}', 'ञ'])
    } else if c0 == 'k' && c1 == 's' && c2 == 'h' {
        Some(seq!['क', '\u{094d}', 'ष'])
    } else if c0 == 'k' && c1 == 'S' && c2 == 'h' {
        Some(seq!['क', '\u{094d}', 'ष'])
    } else if c0 == 't' && c1 == 'r' && c2 == 'a' {
        Some(seq!['त', '\u{094d}', 'र'])
    } else {
        None
    }
}

/// Four-character consonant tokens.
pub open spec fn cons4(c0: char, c1: char, c2: char, c3: char) -> Option<Seq<char>> {
    if c0 == 'j' && c1 == 'n' && c2 == 'y' && c3 == 'a' {
        Some(seq!['ज', '\u{094d}', 'ञ'])
    } else {
        None
    }
}

/// One-character vowel tokens: (independent form, dependent matra).
pub open spec fn vow1(c0: char) -> Option<(Seq<char>, Seq<char>)> {
    if c0 == 'a' {
        Some((seq!['अ'], Seq::<char>::empty()))
    } else if c0 == 'A' {
        Some((seq!['आ'], seq!['\u{093e}']))
    } else if c0 == 'i' {
        Some((seq!['इ'], seq!['\u{093f}']))
    } else if c0 == 'I' {
        Some((seq!['ई'], seq!['\u{0940}']))
    } else if c0 == 'u' {
        Some((seq!['उ'], seq!['\u{0941}']))
    } else if c0 == 'U' {
        Some((seq!['ऊ'], seq!['\u{0942}']))
    } else if c0 == 'e' {
        Some((seq!['ए'], seq!['\u{0947}']))
    } else if c0 == 'o' {
        Some((seq!['ओ'], seq!['\u{094b}']))
    } else if c0 == 'R' {
        Some((seq!['\u{090b}'], seq!['\u{0943}']))
    } else if c0 == 'E' {
        Some((seq!['\u{090d}'], seq!['\u{0945}']))
    } else if c0 == 'O' {
        Some((seq!['\u{0911}'], seq!['\u{0949}']))
    } else if c0 == 'M' {
        Some((seq!['अ', '\u{0902}'], seq!['\u{0902}']))
    } else if c0 == 'H' {
        Some((seq!['अ', '\u{0903}'], seq!['\u{0903}']))
    } else if c0 == '~' {
        Some((seq!['अ', '\u{0901}'], seq!['\u{0901}']))
    } else {
        None
    }
}

/// Two-character vowel tokens.
pub open spec fn vow2(c0: char, c1: char) -> Option<(Seq<char>, Seq<char>)> {
    if c0 == 'a' && c1 == 'a' {
        Some((seq!['आ'], seq!['\u{093e}']))
    } else if c0 == 'i' && c1 == 'i' {
        Some((seq!['ई'], seq!['\u{0940}']))
    } else if c0 == 'e' && c1 == 'e' {
        Some((seq!['ई'], seq!['\u{0940}']))
    } else if c0 == 'u' && c1 == 'u' {
        Some((seq!['ऊ'], seq!['\u{0942}']))
    } else if c0 == 'o' && c1 == 'o' {
        Some((seq!['ऊ'], seq!['\u{0942}']))
    } else if c0 == 'a' && c1 == 'i' {
        Some((seq!['ऐ'], seq!['\u{0948}']))
    } else if c0 == 'a' && c1 == 'e' {
        Some((seq!['ऐ'], seq!['\u{0948}']))
    } else if c0 == 'a' && c1 == 'u' {
        Some((seq!['औ'], seq!['\u{094c}']))
    } else if c0 == 'a' && c1 == 'o' {
        Some((seq!['औ'], seq!['\u{094c}']))
    } else if c0 == 'r' && c1 == 'i' {
        Some((seq!['\u{090b}'], seq!['\u{0943}']))
    } else if c0 == 'R' && c1 == 'R' {
        Some((seq!['\u{0960}'], seq!['\u{0944}']))
    } else if c0 == 'r' && c1 == 'I' {
        Some((seq!['\u{0960}'], seq!['\u{0944}']))
    } else if c0 == 'l' && c1 == 'i' {
        Some((seq!['\u{090c}'], seq!['\u{0962}']))
    } else if c0 == 'L' && c1 == '^' {
        Some((seq!['\u{090c}'], seq!['\u{0962}']))
    } else if c0 == 'L' && c1 == 'L' {
        Some((seq!['\u{0961}'], seq!['\u{0963}']))
    } else if c0 == 'l' && c1 == 'I' {
        Some((seq!['\u{0961}'], seq!['\u{0963}']))
    } else if c0 == 'e' && c1 == 'N' {
        Some((seq!['\u{090d}'], seq!['\u{0945}']))
    } else if c0 == 'o' && c1 == 'N' {
        Some((seq!['\u{0911}'], seq!['\u{0949}']))
    } else if c0 == 'e' && c1 == '~' {
        Some((seq!['\u{090e}'], seq!['\u{0946}']))
    } else if c0 == 'o' && c1 == '~' {
        Some((seq!['\u{0912}'], seq!['\u{094a}']))
    } else if c0 == 'a' && c1 == 'W' {
        Some((seq!['\u{094f}'], seq!['\u{094f}']))
    } else if c0 == 'u' && c1 == 'e' {
        Some((seq!['उ', '\u{0947}'], seq!['\u{0956}']))
    } else if c0 == 'N' && c1 == '~' {
        Some((seq!['अ', '\u{0901}'], seq!['\u{0901}']))
    } else if c0 == '~' && c1 == '^' {
        Some((seq!['\u{0900}'], seq!['\u{0900}']))
    } else if c0 == 'e' && c1 == '^' {
        Some((seq!['ए'], seq!['\u{0955}']))
    } else {
        None
    }
}

/// Three-character vowel tokens.
pub open spec fn vow3(c0: char, c1: char, c2: char) -> Option<(Seq<char>, Seq<char>)> {
    if c0 == 'r' && c1 == 'i' && c2 == 'i' {
        Some((seq!['\u{0960}'], seq!['\u{0944}']))
    } else if c0 == 'l' && c1 == 'i' && c2 == 'i' {
        Some((seq!['\u{0961}'], seq!['\u{0963}']))
    } else if c0 == 'u' && c1 == 'u' && c2 == 'e' {
        Some((seq!['उ', '\u{0946}'], seq!['\u{0957}']))
    } else {
        None
    }
}

/// Devanagari symbol for a Roman token, if the token is a symbol.
pub open spec fn spec_symbol(s: Seq<char>) -> Option<Seq<char>> {
    if s.len() == 1 {
        sym1(s[0])
    } else if s.len() == 2 {
        sym2(s[0], s[1])
    } else if s.len() == 3 {
        sym3(s[0], s[1], s[2])
    } else {
        None
    }
}

/// Devanagari consonant for a Roman token, if the token is a consonant.
pub open spec fn spec_consonant(s: Seq<char>) -> Option<Seq<char>> {
    if s.len() == 1 {
        cons1(s[0])
    } else if s.len() == 2 {
        cons2(s[0], s[1])
    } else if s.len() == 3 {
        cons3(s[0], s[1], s[2])
    } else if s.len() == 4 {
        cons4(s[0], s[1], s[2], s[3])
    } else {
        None
    }
}

/// Independent form and matra for a Roman token, if the token is a vowel.
pub open spec fn spec_vowel(s: Seq<char>) -> Option<(Seq<char>, Seq<char>)> {
    if s.len() == 1 {
        vow1(s[0])
    } else if s.len() == 2 {
        vow2(s[0], s[1])
    } else if s.len() == 3 {
        vow3(s[0], s[1], s[2])
    } else {
        None
    }
}


/// Executable form of `sym1`.
pub fn sym1x(c0: char) -> (r: Option<Vec<char>>)
    ensures
        ov(r) == sym1(c0),
{
    if c0 == '.' {
        Some(v1('\u{0964}'))
    } else if c0 == '?' {
        Some(v1('?'))
    } else if c0 == '!' {
        Some(v1('!'))
    } else if c0 == ',' {
        Some(v1(','))
    } else if c0 == ';' {
        Some(v1(';'))
    } else if c0 == ':' {
        Some(v1(':'))
    } else if c0 == '\'' {
        Some(v1('\u{093d}'))
    } else if c0 == '@' {
        Some(v1('\u{0950}'))
    } else if c0 == '0' {
        Some(v1('\u{0966}'))
    } else if c0 == '1' {
        Some(v1('\u{0967}'))
    } else if c0 == '2' {
        Some(v1('\u{0968}'))
    } else if c0 == '3' {
        Some(v1('\u{0969}'))
    } else if c0 == '4' {
        Some(v1('\u{096a}'))
    } else if c0 == '5' {
        Some(v1('\u{096b}'))
    } else if c0 == '6' {
        Some(v1('\u{096c}'))
    } else if c0 == '7' {
        Some(v1('\u{096d}'))
    } else if c0 == '8' {
        Some(v1('\u{096e}'))
    } else if c0 == '9' {
        Some(v1('\u{096f}'))
    } else if c0 == '|' {
        Some(v1('\u{0964}'))
    } else if c0 == '_' {
        Some(v1('\u{094d}'))
    } else {
        None
    }
}

/// Executable form of `sym2`.
pub fn sym2x(c0: char, c1: char) -> (r: Option<Vec<char>>)
    ensures
        ov(r) == sym2(c0, c1),
{
    if c0 == '.' && c1 == '.' {
        Some(v2('\u{0964}', '\u{0964}'))
    } else if c0 == 'O' && c1 == 'M' {
        Some(v1('\u{0950}'))
    } else if c0 == 'O' && c1 == 'm' {
        Some(v1('\u{0950}'))
    } else if c0 == '|' && c1 == '|' {
        Some(v2('\u{0964}', '\u{0964}'))
    } else {
        None
    }
}

/// Executable form of `sym3`.
pub fn sym3x(c0: char, c1: char, c2: char) -> (r: Option<Vec<char>>)
    ensures
        ov(r) == sym3(c0, c1, c2),
{
    if c0 == '.' && c1 == '.' && c2 == '.' {
        Some(v3('.', '.', '.'))
    } else if c0 == 'A' && c1 == 'U' && c2 == 'M' {
        Some(v1('\u{0950}'))
    } else {
        None
    }
}

/// Executable form of `cons1`.
pub fn cons1x(c0: char) -> (r: Option<Vec<char>>)
    ensures
        ov(r) == cons1(c0),
{
    if c0 == 'k' {
        Some(v1('क'))
    } else if c0 == 'g' {
        Some(v1('ग'))
    } else if c0 == 'c' {
        Some(v1('च'))
    } else if c0 == 'x' {
        Some(v1('छ'))
    } else if c0 == 'j' {
        Some(v1('ज'))
    } else if c0 == 'T' {
        Some(v1('ट'))
    } else if c0 == 'D' {
        Some(v1('ड'))
    } else if c0 == 'N' {
        Some(v1('ण'))
    } else if c0 == 't' {
        Some(v1('त'))
    } else if c0 == 'd' {
        Some(v1('द'))
    } else if c0 == 'n' {
        Some(v1('न'))
    } else if c0 == 'p' {
        Some(v1('प'))
    } else if c0 == 'b' {
        Some(v1('ब'))
    } else if c0 == 'm' {
        Some(v1('म'))
    } else if c0 == 'y' {
        Some(v1('य'))
    } else if c0 == 'r' {
        Some(v1('र'))
    } else if c0 == 'l' {
        Some(v1('ल'))
    } else if c0 == 'w' {
        Some(v1('व'))
    } else if c0 == 'v' {
        Some(v1('व'))
    } else if c0 == 'S' {
        Some(v1('ष'))
    } else if c0 == 's' {
        Some(v1('स'))
    } else if c0 == 'h' {
        Some(v1('ह'))
    } else if c0 == 'q' {
        Some(v1('\u{0958}'))
    } else if c0 == 'K' {
        Some(v1('\u{0959}'))
    } else if c0 == 'G' {
        Some(v1('\u{095a}'))
    } else if c0 == 'z' {
        Some(v1('\u{095b}'))
    } else if c0 == 'Z' {
        Some(v2('झ', '\u{093c}'))
    } else if c0 == 'f' {
        Some(v1('\u{095e}'))
    } else if c0 == 'L' {
        Some(v1('ळ'))
    } else {
        None
    }
}

/// Executable form of `cons2`.
pub fn cons2x(c0: char, c1: char) -> (r: Option<Vec<char>>)
    ensures
        ov(r) == cons2(c0, c1),
{
    if c0 == 'k' && c1 == 'h' {
        Some(v1('ख'))
    } else if c0 == 'g' && c1 == 'h' {
        Some(v1('घ'))
    } else if c0 == 'n' && c1 == 'g' {
        Some(v1('ङ'))
    } else if c0 == 'c' && c1 == 'h' {
        Some(v1('च'))
    } else if c0 == 'j' && c1 == 'h' {
        Some(v1('झ'))
    } else if c0 == 'n' && c1 == 'y' {
        Some(v1('ञ'))
    } else if c0 == 'T' && c1 == 'h' {
        Some(v1('ठ'))
    } else if c0 == 'D' && c1 == 'h' {
        Some(v1('ढ'))
    } else if c0 == 't' && c1 == 'h' {
        Some(v1('थ'))
    } else if c0 == 'd' && c1 == 'h' {
        Some(v1('ध'))
    } else if c0 == 'p' && c1 == 'h' {
        Some(v1('फ'))
    } else if c0 == 'b' && c1 == 'h' {
        Some(v1('भ'))
    } else if c0 == 's' && c1 == 'h' {
        Some(v1('श'))
    } else if c0 == 't' && c1 == 'R' {
        Some(v3('त', '\u{094d}', 'र'))
    } else if c0 == 'G' && c1 == 'Y' {
        Some(v3('ज', '\u{094d}', 'ञ'))
    } else if c0 == 'R' && c1 == 'h' {
        Some(v1('\u{095d}'))
    } else if c0 == 'R' && c1 == 'f' {
        Some(v1('\u{095c}'))
    } else if c0 == 'n' && c1 == 'N' {
        Some(v1('\u{0929}'))
    } else if c0 == 'r' && c1 == 'R' {
        Some(v1('\u{0931}'))
    } else if c0 == 'l' && c1 == 'L' {
        Some(v1('\u{0934}'))
    } else if c0 == '^' && c1 == '^' {
        Some(v1('\u{200c}'))
    } else if c0 == '^' && c1 == '_' {
        Some(v1('\u{200d}'))
    } else {
        None
    }
}

/// Executable form of `cons3`.
pub fn cons3x(c0: char, c1: char, c2: char) -> (r: Option<Vec<char>>)
    ensures
        ov(r) == cons3(c0, c1, c2),
{
    if c0 == 'c' && c1 == 'h' && c2 == 'h' {
        Some(v1('छ'))
    } else if c0 == 'j' && c1 == 'n' && c2 == 'y' {
        Some(v3('ज', '\u{094d}', 'ञ'))
    } else if c0 == 'k' && c1 == 's' && c2 == 'h' {
        Some(v3('क', '\u{094d}', 'ष'))
    } else if c0 == 'k' && c1 == 'S' && c2 == 'h' {
        Some(v3('क', '\u{094d}', 'ष'))
    } else if c0 == 't' && c1 == 'r' && c2 == 'a' {
        Some(v3('त', '\u{094d}', 'र'))
    } else {
        None
    }
}

/// Executable form of `cons4`.
pub fn cons4x(c0: char, c1: char, c2: char, c3: char) -> (r: Option<Vec<char>>)
    ensures
        ov(r) == cons4(c0, c1, c2, c3),
{
    if c0 == 'j' && c1 == 'n' && c2 == 'y' && c3 == 'a' {
        Some(v3('ज', '\u{094d}', 'ञ'))
    } else {
        None
    }
}

/// Executable form of `vow1`.
pub fn vow1x(c0: char) -> (r: Option<(Vec<char>, Vec<char>)>)
    ensures
        ovp(r) == vow1(c0),
{
    if c0 == 'a' {
        Some((v1('अ'), v0()))
    } else if c0 == 'A' {
        Some((v1('आ'), v1('\u{093e}')))
    } else if c0 == 'i' {
        Some((v1('इ'), v1('\u{093f}')))
    } else if c0 == 'I' {
        Some((v1('ई'), v1('\u{0940}')))
    } else if c0 == 'u' {
        Some((v1('उ'), v1('\u{0941}')))
    } else if c0 == 'U' {
        Some((v1('ऊ'), v1('\u{0942}')))
    } else if c0 == 'e' {
        Some((v1('ए'), v1('\u{0947}')))
    } else if c0 == 'o' {
        Some((v1('ओ'), v1('\u{094b}')))
    } else if c0 == 'R' {
        Some((v1('\u{090b}'), v1('\u{0943}')))
    } else if c0 == 'E' {
        Some((v1('\u{090d}'), v1('\u{0945}')))
    } else if c0 == 'O' {
        Some((v1('\u{0911}'), v1('\u{0949}')))
    } else if c0 == 'M' {
        Some((v2('अ', '\u{0902}'), v1('\u{0902}')))
    } else if c0 == 'H' {
        Some((v2('अ', '\u{0903}'), v1('\u{0903}')))
    } else if c0 == '~' {
        Some((v2('अ', '\u{0901}'), v1('\u{0901}')))
    } else {
        None
    }
}

/// Executable form of `vow2`.
pub fn vow2x(c0: char, c1: char) -> (r: Option<(Vec<char>, Vec<char>)>)
    ensures
        ovp(r) == vow2(c0, c1),
{
    if c0 == 'a' && c1 == 'a' {
        Some((v1('आ'), v1('\u{093e}')))
    } else if c0 == 'i' && c1 == 'i' {
        Some((v1('ई'), v1('\u{0940}')))
    } else if c0 == 'e' && c1 == 'e' {
        Some((v1('ई'), v1('\u{0940}')))
    } else if c0 == 'u' && c1 == 'u' {
        Some((v1('ऊ'), v1('\u{0942}')))
    } else if c0 == 'o' && c1 == 'o' {
        Some((v1('ऊ'), v1('\u{0942}')))
    } else if c0 == 'a' && c1 == 'i' {
        Some((v1('ऐ'), v1('\u{0948}')))
    } else if c0 == 'a' && c1 == 'e' {
        Some((v1('ऐ'), v1('\u{0948}')))
    } else if c0 == 'a' && c1 == 'u' {
        Some((v1('औ'), v1('\u{094c}')))
    } else if c0 == 'a' && c1 == 'o' {
        Some((v1('औ'), v1('\u{094c}')))
    } else if c0 == 'r' && c1 == 'i' {
        Some((v1('\u{090b}'), v1('\u{0943}')))
    } else if c0 == 'R' && c1 == 'R' {
        Some((v1('\u{0960}'), v1('\u{0944}')))
    } else if c0 == 'r' && c1 == 'I' {
        Some((v1('\u{0960}'), v1('\u{0944}')))
    } else if c0 == 'l' && c1 == 'i' {
        Some((v1('\u{090c}'), v1('\u{0962}')))
    } else if c0 == 'L' && c1 == '^' {
        Some((v1('\u{090c}'), v1('\u{0962}')))
    } else if c0 == 'L' && c1 == 'L' {
        Some((v1('\u{0961}'), v1('\u{0963}')))
    } else if c0 == 'l' && c1 == 'I' {
        Some((v1('\u{0961}'), v1('\u{0963}')))
    } else if c0 == 'e' && c1 == 'N' {
        Some((v1('\u{090d}'), v1('\u{0945}')))
    } else if c0 == 'o' && c1 == 'N' {
        Some((v1('\u{0911}'), v1('\u{0949}')))
    } else if c0 == 'e' && c1 == '~' {
        Some((v1('\u{090e}'), v1('\u{0946}')))
    } else if c0 == 'o' && c1 == '~' {
        Some((v1('\u{0912}'), v1('\u{094a}')))
    } else if c0 == 'a' && c1 == 'W' {
        Some((v1('\u{094f}'), v1('\u{094f}')))
    } else if c0 == 'u' && c1 == 'e' {
        Some((v2('उ', '\u{0947}'), v1('\u{0956}')))
    } else if c0 == 'N' && c1 == '~' {
        Some((v2('अ', '\u{0901}'), v1('\u{0901}')))
    } else if c0 == '~' && c1 == '^' {
        Some((v1('\u{0900}'), v1('\u{0900}')))
    } else if c0 == 'e' && c1 == '^' {
        Some((v1('ए'), v1('\u{0955}')))
    } else {
        None
    }
}

/// Executable form of `vow3`.
pub fn vow3x(c0: char, c1: char, c2: char) -> (r: Option<(Vec<char>, Vec<char>)>)
    ensures
        ovp(r) == vow3(c0, c1, c2),
{
    if c0 == 'r' && c1 == 'i' && c2 == 'i' {
        Some((v1('\u{0960}'), v1('\u{0944}')))
    } else if c0 == 'l' && c1 == 'i' && c2 == 'i' {
        Some((v1('\u{0961}'), v1('\u{0963}')))
    } else if c0 == 'u' && c1 == 'u' && c2 == 'e' {
        Some((v2('उ', '\u{0946}'), v1('\u{0957}')))
    } else {
        None
    }
}

/// Devanagari symbol for the token held by `t`.
pub fn symbol_of(t: &Vec<char>) -> (r: Option<Vec<char>>)
    ensures
        ov(r) == spec_symbol(t@),
{
    if t.len() == 1 {
        sym1x(t[0])
    } else if t.len() == 2 {
        sym2x(t[0], t[1])
    } else if t.len() == 3 {
        sym3x(t[0], t[1], t[2])
    } else {
        None
    }
}

/// Devanagari consonant for the token held by `t`.
pub fn consonant_of(t: &Vec<char>) -> (r: Option<Vec<char>>)
    ensures
        ov(r) == spec_consonant(t@),
{
    if t.len() == 1 {
        cons1x(t[0])
    } else if t.len() == 2 {
        cons2x(t[0], t[1])
    } else if t.len() == 3 {
        cons3x(t[0], t[1], t[2])
    } else if t.len() == 4 {
        cons4x(t[0], t[1], t[2], t[3])
    } else {
        None
    }
}

/// Independent form and matra for the token held by `t`.
pub fn vowel_of(t: &Vec<char>) -> (r: Option<(Vec<char>, Vec<char>)>)
    ensures
        ovp(r) == spec_vowel(t@),
{
    if t.len() == 1 {
        vow1x(t[0])
    } else if t.len() == 2 {
        vow2x(t[0], t[1])
    } else if t.len() == 3 {
        vow3x(t[0], t[1], t[2])
    } else {
        None
    }
}

} // verus!
