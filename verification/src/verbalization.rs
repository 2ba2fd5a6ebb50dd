//! Verbalizations: normalised, stemmed forms of the words that name a
//! symbol, stored as nibble sequences so that a radix trie can index them.
use vstd::prelude::*;
use vstd::string::StrSliceExecFns;
use vstd::utf8::{encode_scalar, encode_utf8};
use crate::text::{chars_of, trim, trim_bounds};

verus! {

/// The languages of verbalizations.
#[derive(Clone, Copy, Debug, PartialEq, Eq, Structural)]
pub enum Language {
    Arabic,
    English,
    Finnish,
    French,
    German,
    Romanian,
    Russian,
    Turkish,
    Slovenian,
    Bulgarian,
}

/// The Snowball stemming algorithms used for verbalizations.
#[derive(Clone, Copy, Debug, PartialEq, Eq, Structural)]
pub enum StemAlgorithm {
    Arabic,
    English,
    Finnish,
    French,
    German,
    Romanian,
    Russian,
    Turkish,
}

/// The stemming algorithm for `lang`, if there is one.
pub open spec fn spec_stemmer(lang: Language) -> Option<StemAlgorithm> {
    match lang {
        Language::Arabic => Some(StemAlgorithm::Arabic),
        Language::English => Some(StemAlgorithm::English),
        Language::Finnish => Some(StemAlgorithm::Finnish),
        Language::French => Some(StemAlgorithm::French),
        Language::German => Some(StemAlgorithm::German),
        Language::Romanian => Some(StemAlgorithm::Romanian),
        Language::Russian => Some(StemAlgorithm::Russian),
        Language::Turkish => Some(StemAlgorithm::Turkish),
        Language::Slovenian | Language::Bulgarian => None,
    }
}

/// The stemming algorithm for `lang`, if there is one.
pub fn stemmer(lang: Language) -> (r: Option<StemAlgorithm>)
    ensures
        r == spec_stemmer(lang),
{
    match lang {
        Language::Arabic => Some(StemAlgorithm::Arabic),
        Language::English => Some(StemAlgorithm::English),
        Language::Finnish => Some(StemAlgorithm::Finnish),
        Language::French => Some(StemAlgorithm::French),
        Language::German => Some(StemAlgorithm::German),
        Language::Romanian => Some(StemAlgorithm::Romanian),
        Language::Russian => Some(StemAlgorithm::Russian),
        Language::Turkish => Some(StemAlgorithm::Turkish),
        Language::Slovenian | Language::Bulgarian => None,
    }
}

/// The stem `waken_snowball` computes for `word` with algorithm `alg`.
pub uninterp spec fn stemmed(alg: StemAlgorithm, word: Seq<char>) -> Seq<char>;

/// Calls `waken_snowball::Stemmer::stem` with the Snowball algorithm `alg`.
/// Claimed: the stem depends on the algorithm and the word alone; what it
/// is, `stemmed` names without saying.
#[verifier::external_body]
fn stem_word(alg: StemAlgorithm, word: &str) -> (r: String)
    ensures
        r@ == stemmed(alg, word@),
{
    let a = match alg {
        StemAlgorithm::Arabic => waken_snowball::Algorithm::Arabic,
        StemAlgorithm::English => waken_snowball::Algorithm::English,
        StemAlgorithm::Finnish => waken_snowball::Algorithm::Finnish,
        StemAlgorithm::French => waken_snowball::Algorithm::French,
        StemAlgorithm::German => waken_snowball::Algorithm::German,
        StemAlgorithm::Romanian => waken_snowball::Algorithm::Romanian,
        StemAlgorithm::Russian => waken_snowball::Algorithm::Russian,
        StemAlgorithm::Turkish => waken_snowball::Algorithm::Turkish,
    };
    a.stemmer().stem(word).into_owned()
}

/// A sequence of 4-bit values, held in a `radix_trie::NibbleVec`.
#[verifier::external_body]
pub struct Nibble {
    inner: radix_trie::NibbleVec<[u8; 64]>,
}

/// The values a nibble vector holds.
pub uninterp spec fn nibbles(n: Nibble) -> Seq<u8>;

/// Calls `radix_trie::NibbleVec::new`: an empty nibble vector.
#[verifier::external_body]
fn nibble_new() -> (r: Nibble)
    ensures
        nibbles(r) == Seq::<u8>::empty(),
{
    Nibble { inner: radix_trie::NibbleVec::new() }
}

/// Calls `radix_trie::NibbleVec::push`, which appends the four low bits of
/// `v`.
#[verifier::external_body]
fn nibble_push(n: &mut Nibble, v: u8)
    ensures
        nibbles(*final(n)) == nibbles(*old(n)).push(v % 16),
{
    n.inner.push(v);
}

/// Calls `radix_trie::NibbleVec::clone`, which copies the nibbles.
#[verifier::external_body]
fn nibble_clone(n: &Nibble) -> (r: Nibble)
    ensures
        nibbles(r) == nibbles(*n),
{
    Nibble { inner: n.inner.clone() }
}

/// Calls `radix_trie::NibbleVec::is_empty`, which tells whether it holds
/// no value.
#[verifier::external_body]
fn nibble_is_empty(n: &Nibble) -> (r: bool)
    ensures
        r == (nibbles(*n).len() == 0),
{
    n.inner.is_empty()
}

/// The bytes nibbles pack into: two to a byte, the first in the high half;
/// an odd last nibble fills a high half alone.
pub open spec fn pack(s: Seq<u8>) -> Seq<u8> {
    Seq::new(
        ((s.len() + 1) / 2) as nat,
        |i: int|
            if 2 * i + 1 < s.len() {
                (s[2 * i] * 16 + s[2 * i + 1]) as u8
            } else {
                (s[2 * i] * 16) as u8
            },
    )
}

/// Calls `radix_trie::NibbleVec::as_bytes`, which gives the bytes the
/// nibbles are stored in, two to a byte.
#[verifier::external_body]
fn nibble_bytes(n: &Nibble) -> (r: Vec<u8>)
    ensures
        r@ == pack(nibbles(*n)),
{
    n.inner.as_bytes().to_vec()
}

/// `b` with an ASCII upper-case letter turned to lower case.
pub open spec fn lower_byte(b: u8) -> u8 {
    if 0x41 <= b <= 0x5A {
        (b + 32) as u8
    } else {
        b
    }
}

/// The nibbles of the lower-cased bytes `bs`: the high half of each byte,
/// then the low half.
pub open spec fn nibble_pairs(bs: Seq<u8>) -> Seq<u8> {
    Seq::new(
        2 * bs.len(),
        |i: int|
            if i % 2 == 0 {
                (lower_byte(bs[i / 2]) / 16) as u8
            } else {
                (lower_byte(bs[i / 2]) % 16) as u8
            },
    )
}

/// The nibbles of a concatenation are the nibbles of its parts.
proof fn lemma_pairs_concat(a: Seq<u8>, b: Seq<u8>)
    ensures
        nibble_pairs(a + b) =~= nibble_pairs(a) + nibble_pairs(b),
{
    let l = nibble_pairs(a + b);
    let r = nibble_pairs(a) + nibble_pairs(b);
    assert forall|i: int| 0 <= i < l.len() implies l[i] == r[i] by {
        if i < 2 * a.len() {
            assert((a + b)[i / 2] == a[i / 2]);
        } else {
            assert((i - 2 * a.len()) / 2 == i / 2 - a.len());
            assert((i - 2 * a.len()) % 2 == i % 2);
            assert((a + b)[i / 2] == b[i / 2 - a.len()]);
        }
    }
}

/// Appends the lower-cased byte `b` as two nibbles.
fn push_byte(n: &mut Nibble, b: u8)
    ensures
        nibbles(*final(n)) == nibbles(*old(n)) + nibble_pairs(seq![b]),
{
    let c = if 0x41 <= b && b <= 0x5A {
        b + 32
    } else {
        b
    };
    assert((c >> 4u8) % 16 == c / 16) by (bit_vector);
    nibble_push(n, c >> 4);
    nibble_push(n, c);
    assert(nibbles(*n) =~= nibbles(*old(n)) + nibble_pairs(seq![b]));
}

/// ASCII white space, as `char::is_ascii_whitespace` documents it.
pub open spec fn is_ascii_ws(c: char) -> bool {
    c == ' ' || c == '\t' || c == '\n' || c == '\x0C' || c == '\r'
}

/// The index of the first ASCII white space of `s`, or its length.
pub open spec fn first_ws(s: Seq<char>) -> int
    decreases s.len(),
{
    if s.len() == 0 || is_ascii_ws(s[0]) {
        0
    } else {
        1 + first_ws(s.drop_first())
    }
}

/// `first_ws` is the first white space, or the end.
pub proof fn lemma_first_ws(s: Seq<char>, k: int)
    requires
        0 <= k <= s.len(),
        k < s.len() ==> is_ascii_ws(s[k]),
        forall|j: int| 0 <= j < k ==> !is_ascii_ws(#[trigger] s[j]),
    ensures
        first_ws(s) == k,
    decreases s.len(),
{
    if s.len() > 0 && !is_ascii_ws(s[0]) {
        assert forall|j: int| 0 <= j < k - 1 implies !is_ascii_ws(#[trigger] s.drop_first()[j]) by {
            assert(s.drop_first()[j] == s[j + 1]);
        }
        lemma_first_ws(s.drop_first(), k - 1);
    }
}

/// `first_ws` lies within `s`.
pub proof fn lemma_first_ws_range(s: Seq<char>)
    ensures
        0 <= first_ws(s) <= s.len(),
    decreases s.len(),
{
    if s.len() > 0 && !is_ascii_ws(s[0]) {
        lemma_first_ws_range(s.drop_first());
    }
}

/// The pieces of `s` between ASCII white space, empty ones included.
pub open spec fn pieces(s: Seq<char>) -> Seq<Seq<char>>
    decreases s.len(),
{
    let i = first_ws(s);
    if i >= s.len() {
        seq![s]
    } else {
        proof {
            lemma_first_ws_range(s);
        }
        seq![s.take(i)] + pieces(s.skip(i + 1))
    }
}

/// The bytes a word contributes: its stem, or the word itself when there
/// is no stemmer.
pub open spec fn word_bytes(alg: Option<StemAlgorithm>, w: Seq<char>) -> Seq<u8> {
    match alg {
        Some(a) => encode_utf8(stemmed(a, w)),
        None => encode_utf8(w),
    }
}

/// The bytes after the words `ws` were added to `acc`: empty words are
/// skipped, and a space goes before a word once `acc` holds something.
pub open spec fn joined(alg: Option<StemAlgorithm>, ws: Seq<Seq<char>>, acc: Seq<u8>) -> Seq<u8>
    decreases ws.len(),
{
    if ws.len() == 0 {
        acc
    } else {
        let w = ws[0];
        let next = if w.len() == 0 {
            acc
        } else {
            (if acc.len() > 0 {
                acc.push(0x20u8)
            } else {
                acc
            }) + word_bytes(alg, w)
        };
        joined(alg, ws.drop_first(), next)
    }
}

/// The bytes of the verbalization of `txt` in `lang`, before lower-casing.
pub open spec fn verbal_bytes(txt: Seq<char>, lang: Language) -> Seq<u8> {
    joined(spec_stemmer(lang), pieces(trim(txt)), Seq::empty())
}

/// The bytes that stand between two merged verbalizations: a separator
/// that is not ASCII white space, else a space.
pub open spec fn sep_bytes(sep: Option<char>) -> Seq<u8> {
    match sep {
        Some(c) => if is_ascii_ws(c) {
            seq![0x20u8]
        } else {
            encode_scalar(c as u32)
        },
        None => seq![0x20u8],
    }
}

/// A normalised, stemmed form of a text naming a symbol.
pub struct Verbalization {
    pub lang: Language,
    pub inner: Nibble,
}

/// Appends the bytes `src` to `n`, lower-cased, two nibbles each.
fn push_bytes(n: &mut Nibble, src: &[u8])
    ensures
        nibbles(*final(n)) == nibbles(*old(n)) + nibble_pairs(src@),
{
    let mut i: usize = 0;
    while i < src.len()
        invariant
            i <= src@.len(),
            nibbles(*n) == nibbles(*old(n)) + nibble_pairs(src@.take(i as int)),
        decreases src@.len() - i,
    {
        proof {
            assert(src@.take(i + 1) =~= src@.take(i as int) + seq![src@[i as int]]);
            lemma_pairs_concat(src@.take(i as int), seq![src@[i as int]]);
        }
        push_byte(n, src[i]);
        i = i + 1;
    }
    assert(src@.take(i as int) =~= src@);
}

/// The UTF-8 bytes of `c`.
fn char_bytes(c: char) -> (r: Vec<u8>)
    ensures
        r@ == encode_scalar(c as u32),
{
    let v = c as u32;
    let mut r: Vec<u8> = Vec::new();
    if v <= 0x7F {
        r.push((v & 0x7F) as u8);
    } else if v <= 0x7FF {
        r.push(0xC0 | ((v >> 6) & 0x1F) as u8);
        r.push(0x80 | (v & 0x3F) as u8);
    } else if v <= 0xFFFF {
        r.push(0xE0 | ((v >> 12) & 0x0F) as u8);
        r.push(0x80 | ((v >> 6) & 0x3F) as u8);
        r.push(0x80 | (v & 0x3F) as u8);
    } else {
        r.push(0xF0 | ((v >> 18) & 0x7) as u8);
        r.push(0x80 | ((v >> 12) & 0x3F) as u8);
        r.push(0x80 | ((v >> 6) & 0x3F) as u8);
        r.push(0x80 | (v & 0x3F) as u8);
    }
    proof {
        vstd::utf8::char_is_scalar(c);
    }
    assert(r@ =~= encode_scalar(v));
    r
}

impl Clone for Verbalization {
    /// A copy with the same language and nibbles.
    fn clone(&self) -> (r: Self)
        ensures
            r.lang == self.lang,
            nibbles(r.inner) == nibbles(self.inner),
    {
        Verbalization { lang: self.lang, inner: nibble_clone(&self.inner) }
    }
}

impl Verbalization {
    /// The verbalization of `txt` in `lang`: the text is trimmed and split
    /// at ASCII white space, each word stemmed where the language has a
    /// stemmer, the words joined with single spaces and lower-cased.
    pub fn new(txt: &str, lang: Language) -> (r: Self)
        ensures
            r.lang == lang,
            nibbles(r.inner) == nibble_pairs(verbal_bytes(txt@, lang)),
    {
        let v = chars_of(txt);
        assert(v@.subrange(0, v@.len() as int) =~= v@);
        let (lo, hi) = trim_bounds(&v, 0, v.len());
        let alg = stemmer(lang);
        let mut ret = nibble_new();
        let ghost mut acc: Seq<u8> = Seq::empty();
        let mut start = lo;
        loop
            invariant
                v@ == txt@,
                lo <= start <= hi <= v@.len(),
                alg == spec_stemmer(lang),
                nibbles(ret) == nibble_pairs(acc),
                verbal_bytes(txt@, lang) == joined(alg, pieces(v@.subrange(start as int, hi as int)), acc),
            decreases hi - start,
        {
            let mut i = start;
            while i < hi && !(v[i] == ' ' || v[i] == '\t' || v[i] == '\n' || v[i] == '\x0C' || v[i] == '\r')
                invariant
                    start <= i <= hi <= v@.len(),
                    forall|j: int| start <= j < i ==> !is_ascii_ws(#[trigger] v@[j]),
                decreases hi - i,
            {
                i = i + 1;
            }
            let ghost s = v@.subrange(start as int, hi as int);
            proof {
                assert forall|j: int| 0 <= j < i - start implies !is_ascii_ws(#[trigger] s[j]) by {
                    assert(s[j] == v@[start + j]);
                }
                lemma_first_ws(s, i - start);
                assert(s.take(i - start) =~= v@.subrange(start as int, i as int));
            }
            let ghost w = v@.subrange(start as int, i as int);
            let ghost acc0 = acc;
            if i > start {
                if !nibble_is_empty(&ret) {
                    push_byte(&mut ret, 0x20);
                    proof {
                        lemma_pairs_concat(acc, seq![0x20u8]);
                        assert(acc + seq![0x20u8] =~= acc.push(0x20u8));
                        acc = acc.push(0x20u8);
                    }
                }
                let word = txt.substring_char(start, i);
                match alg {
                    Some(a) => {
                        let st = stem_word(a, word);
                        push_bytes(&mut ret, st.as_str().as_bytes());
                    },
                    None => {
                        push_bytes(&mut ret, word.as_bytes());
                    },
                }
                proof {
                    lemma_pairs_concat(acc, word_bytes(alg, w));
                    acc = acc + word_bytes(alg, w);
                }
            }
            if i == hi {
                proof {
                    assert(pieces(s) == seq![s]);
                    assert(s == w);
                    assert(seq![s].drop_first() =~= Seq::<Seq<char>>::empty());
                    assert(joined(alg, seq![s], acc0) == joined(alg, Seq::<Seq<char>>::empty(), acc));
                    assert(joined(alg, Seq::<Seq<char>>::empty(), acc) == acc);
                }
                return Verbalization { lang, inner: ret };
            }
            proof {
                assert(s.skip(i - start + 1) =~= v@.subrange(i + 1, hi as int));
                let ps = pieces(s);
                assert(ps[0] == w);
                assert(ps.drop_first() =~= pieces(v@.subrange(i + 1, hi as int)));
            }
            start = i + 1;
        }
    }

    /// The bytes of the verbalization.
    pub fn bytes(&self) -> (r: Vec<u8>)
        ensures
            r@ == pack(nibbles(self.inner)),
    {
        nibble_bytes(&self.inner)
    }

    /// Joins `other` to this verbalization: a separator that is not ASCII
    /// white space is kept, else a space stands between them.
    pub fn merge(self, other: &Self, sep: Option<char>) -> (r: Self)
        ensures
            r.lang == self.lang,
            nibbles(r.inner) == nibbles(self.inner) + nibble_pairs(sep_bytes(sep) + pack(nibbles(other.inner))),
    {
        let Verbalization { lang, inner } = self;
        let mut n = inner;
        let ghost start = nibbles(n);
        let ghost sep_bytes = match sep {
            Some(c) => if is_ascii_ws(c) {
                seq![0x20u8]
            } else {
                encode_scalar(c as u32)
            },
            None => seq![0x20u8],
        };
        match sep {
            Some(c) if !(c == ' ' || c == '\t' || c == '\n' || c == '\x0C' || c == '\r') => {
                let bs = char_bytes(c);
                push_bytes(&mut n, bs.as_slice());
            },
            _ => {
                push_byte(&mut n, 0x20);
            },
        }
        let ob = nibble_bytes(&other.inner);
        push_bytes(&mut n, ob.as_slice());
        proof {
            lemma_pairs_concat(sep_bytes, ob@);
        }
        Verbalization { lang, inner: n }
    }
}

} // verus!
