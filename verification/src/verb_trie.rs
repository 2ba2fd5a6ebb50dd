//! The verbalization trie: symbols indexed by the verbalizations that name
//! them, and the search for those names in a text.
use vstd::prelude::*;
use vstd::string::StrSliceExecFns;
use radix_trie::TrieCommon;
use crate::text::{chars_of, is_whitespace, is_ws};
use crate::verbalization::{nibble_pairs, nibbles, pack, sep_bytes, verbal_bytes, Language, Verbalization};

verus! {

/// Symbol URIs keyed by the bytes of the verbalizations that name them, in
/// a `radix_trie::Trie`.
#[verifier::external_body]
pub struct VerbTrie {
    trie: radix_trie::Trie<Vec<u8>, Vec<String>>,
}

/// The keys and values the trie holds, the values as texts.
pub uninterp spec fn trie_map(t: VerbTrie) -> Map<Seq<u8>, Seq<Seq<char>>>;

/// The keys at which the trie has a node: byte paths that `subtrie` finds.
pub uninterp spec fn trie_nodes(t: VerbTrie) -> Set<Seq<u8>>;

/// The views of a list of texts.
pub open spec fn texts(v: Seq<String>) -> Seq<Seq<char>> {
    v.map_values(|s: String| s@)
}

/// The map without keys.
pub open spec fn no_keys() -> Map<Seq<u8>, Seq<Seq<char>>> {
    Map::empty()
}

/// Whether some key of `m` starts with `k`.
pub open spec fn has_key_under(m: Map<Seq<u8>, Seq<Seq<char>>>, k: Seq<u8>) -> bool {
    exists|q: Seq<u8>| m.dom().contains(q) && k.is_prefix_of(q)
}

/// Whether some key of `m` strictly extends `k`.
pub open spec fn has_key_below(m: Map<Seq<u8>, Seq<Seq<char>>>, k: Seq<u8>) -> bool {
    exists|q: Seq<u8>| m.dom().contains(q) && k.is_prefix_of(q) && q.len() > k.len()
}

/// Calls `radix_trie::Trie::new`: an empty trie.
#[verifier::external_body]
fn trie_new() -> (r: VerbTrie)
    ensures
        trie_map(r) == no_keys(),
{
    VerbTrie { trie: radix_trie::Trie::new() }
}

/// Calls `radix_trie::Trie::get` and copies the value found under `k`.
#[verifier::external_body]
fn trie_get(t: &VerbTrie, k: &Vec<u8>) -> (r: Option<Vec<String>>)
    ensures
        r is Some <==> trie_map(*t).dom().contains(k@),
        r matches Some(v) ==> texts(v@) == trie_map(*t)[k@],
{
    t.trie.get(k).cloned()
}

/// Calls `radix_trie::Trie::insert`, which binds `k` to `v`, replacing a
/// value there. The node of `k` exists afterwards and the nodes there were
/// stay; which branching nodes are added is left open.
#[verifier::external_body]
fn trie_insert(t: &mut VerbTrie, k: Vec<u8>, v: Vec<String>)
    ensures
        trie_map(*final(t)) == trie_map(*old(t)).insert(k@, texts(v@)),
        trie_nodes(*final(t)).contains(k@),
        trie_nodes(*old(t)).subset_of(trie_nodes(*final(t))),
{
    t.trie.insert(k, v);
}

/// Calls `radix_trie::Trie::subtrie` for `k`, which finds the node whose
/// path is exactly `k`, and then `is_empty` (no key under it) and `is_leaf`
/// (no child node, so no key strictly below it) on that subtrie.
#[verifier::external_body]
fn trie_probe(t: &VerbTrie, k: &Vec<u8>) -> (r: Option<(bool, bool)>)
    ensures
        r is Some <==> trie_nodes(*t).contains(k@),
        r matches Some((empty, leaf)) ==> empty == !has_key_under(trie_map(*t), k@) && leaf == !has_key_below(
            trie_map(*t),
            k@,
        ),
{
    t.trie.subtrie(k).map(|s| (s.is_empty(), s.is_leaf()))
}

/// Calls `radix_trie::Trie::subtrie` for `k` and then `SubTrie::get` for
/// `q`, which fails unless `q` starts with `k` and else gives the value
/// under `q`.
#[verifier::external_body]
fn trie_sub_get(t: &VerbTrie, k: &Vec<u8>, q: &Vec<u8>) -> (r: Result<Option<Vec<String>>, ()>)
    requires
        trie_nodes(*t).contains(k@),
    ensures
        r is Ok <==> k@.is_prefix_of(q@),
        r matches Ok(o) ==> (o is Some <==> trie_map(*t).dom().contains(q@)),
        r matches Ok(Some(v)) ==> texts(v@) == trie_map(*t)[q@],
{
    match t.trie.subtrie(k) {
        Some(s) => s.get(q).map(|o| o.cloned()),
        None => Err(()),
    }
}

/// Whether `uri` is among `v`.
fn contains_text(v: &Vec<String>, uri: &String) -> (r: bool)
    ensures
        r == texts(v@).contains(uri@),
{
    let mut i: usize = 0;
    while i < v.len()
        invariant
            i <= v@.len(),
            forall|j: int| 0 <= j < i ==> v@[j]@ != uri@,
        decreases v@.len() - i,
    {
        if v[i] == *uri {
            assert(texts(v@)[i as int] == uri@);
            return true;
        }
        i = i + 1;
    }
    proof {
        if texts(v@).contains(uri@) {
            let j = choose|j: int| 0 <= j < texts(v@).len() && texts(v@)[j] == uri@;
            assert(v@[j]@ == uri@);
        }
    }
    false
}

/// The key of a verbalization: the bytes its nibbles pack into.
pub open spec fn key_of(n: Seq<u8>) -> Seq<u8> {
    pack(n)
}

/// The nibbles of the verbalization of `w` in `lang`.
pub open spec fn verb_nibbles(w: Seq<char>, lang: Language) -> Seq<u8> {
    nibble_pairs(verbal_bytes(w, lang))
}

/// The nibbles of `a` merged with `b` across the separator `sep`.
pub open spec fn merge_nibbles(a: Seq<u8>, b: Seq<u8>, sep: Option<char>) -> Seq<u8> {
    a + nibble_pairs(sep_bytes(sep) + pack(b))
}

/// The map `m` once `uri` is recorded under the key `k`: a new key gets
/// `uri` alone; a known one gets `uri` appended unless it has it already.
pub open spec fn with_symbol(m: Map<Seq<u8>, Seq<Seq<char>>>, k: Seq<u8>, uri: Seq<char>) -> Map<Seq<u8>, Seq<Seq<char>>> {
    if !m.dom().contains(k) {
        m.insert(k, seq![uri])
    } else if m[k].contains(uri) {
        m
    } else {
        m.insert(k, m[k].push(uri))
    }
}

/// Recording a symbol under a key a second time changes nothing, and
/// afterwards the key has the symbol.
pub proof fn law_record_once(m: Map<Seq<u8>, Seq<Seq<char>>>, k: Seq<u8>, uri: Seq<char>)
    ensures
        with_symbol(with_symbol(m, k, uri), k, uri) == with_symbol(m, k, uri),
        with_symbol(m, k, uri).dom().contains(k),
        with_symbol(m, k, uri)[k].contains(uri),
{
    let m1 = with_symbol(m, k, uri);
    if !m.dom().contains(k) {
        assert(m1[k] == seq![uri]);
        assert(m1[k][0] == uri);
    } else if m[k].contains(uri) {
    } else {
        assert(m1[k] == m[k].push(uri));
        assert(m1[k][m[k].len() as int] == uri);
    }
}

impl VerbTrie {
    /// An empty trie.
    pub fn new() -> (r: Self)
        ensures
            trie_map(r) == no_keys(),
    {
        trie_new()
    }

    /// Records that `text` in `language` names the symbol `uri`: it joins
    /// the symbols under the verbalization's key, once.
    pub fn insert(&mut self, language: Language, text: &str, uri: &String)
        ensures
            trie_map(*final(self)) == with_symbol(trie_map(*old(self)), key_of(verb_nibbles(text@, language)), uri@),
    {
        let key = Verbalization::new(text, language).bytes();
        match trie_get(self, &key) {
            Some(mut v) => {
                if !contains_text(&v, uri) {
                    let ghost before = texts(v@);
                    v.push(uri.clone());
                    assert(texts(v@) =~= before.push(uri@));
                    trie_insert(self, key, v);
                } else {
                    proof {
                        assert(trie_map(*self).insert(key@, trie_map(*self)[key@]) =~= trie_map(*self));
                    }
                }
            },
            None => {
                let mut v: Vec<String> = Vec::new();
                v.push(uri.clone());
                assert(texts(v@) =~= seq![uri@]);
                trie_insert(self, key, v);
            },
        }
    }
}


/// The characters that end a word of a text searched for verbalizations.
pub open spec fn word_break(c: char) -> bool {
    c == ' ' || c == '\t' || c == '\r' || c == '\n' || c == '.' || c == ',' || c == ';' || c == '!' || c == ':'
        || c == '-' || c == '(' || c == ')' || c == '[' || c == ']' || c == '{' || c == '}' || c == '$'
}

/// The first index from `i` on that is not white space, or the length.
pub open spec fn skip_ws(s: Seq<char>, i: int) -> int
    decreases s.len() - i,
{
    if 0 <= i < s.len() && is_ws(s[i]) {
        skip_ws(s, i + 1)
    } else {
        i
    }
}

/// The first index from `i` on that ends a word, or the length.
pub open spec fn word_end(s: Seq<char>, i: int) -> int
    decreases s.len() - i,
{
    if 0 <= i < s.len() && !word_break(s[i]) {
        word_end(s, i + 1)
    } else {
        i
    }
}

/// `skip_ws` stays between `i` and the length.
pub proof fn lemma_skip_ws(s: Seq<char>, i: int)
    requires
        0 <= i <= s.len(),
    ensures
        i <= skip_ws(s, i) <= s.len(),
    decreases s.len() - i,
{
    if i < s.len() && is_ws(s[i]) {
        lemma_skip_ws(s, i + 1);
    }
}

/// `word_end` stays between `i` and the length.
pub proof fn lemma_word_end(s: Seq<char>, i: int)
    requires
        0 <= i <= s.len(),
    ensures
        i <= word_end(s, i) <= s.len(),
    decreases s.len() - i,
{
    if i < s.len() && !word_break(s[i]) {
        lemma_word_end(s, i + 1);
    }
}

/// `word_end` runs over characters that are not breaks.
proof fn lemma_word_end_over(s: Seq<char>, i: int, j: int)
    requires
        0 <= i <= j <= s.len(),
        forall|k: int| i <= k < j ==> !word_break(#[trigger] s[k]),
        j == s.len() || word_break(s[j]),
    ensures
        word_end(s, i) == j,
    decreases j - i,
{
    if i < j {
        lemma_word_end_over(s, i + 1, j);
    }
}

/// A word read from a text ends at the first of the break characters:
/// white space (space, tab, carriage return, line feed), `.`, `,`, `;`,
/// `!`, `:`, `-`, round and square brackets, braces and `$`. A word `w`
/// free of them, followed by any one of them, is read as `w`.
pub proof fn law_words_end_at_breaks(w: Seq<char>, c: char, rest: Seq<char>)
    requires
        forall|i: int|
            0 <= i < w.len() ==> !seq![
                ' ',
                '\t',
                '\r',
                '\n',
                '.',
                ',',
                ';',
                '!',
                ':',
                '-',
                '(',
                ')',
                '[',
                ']',
                '{',
                '}',
                '$',
            ].contains(#[trigger] w[i]),
        seq![' ', '\t', '\r', '\n', '.', ',', ';', '!', ':', '-', '(', ')', '[', ']', '{', '}', '$'].contains(c),
    ensures
        word_end(w + seq![c] + rest, 0) == w.len(),
{
    let b = seq![' ', '\t', '\r', '\n', '.', ',', ';', '!', ':', '-', '(', ')', '[', ']', '{', '}', '$'];
    let s = w + seq![c] + rest;
    assert forall|k: int| 0 <= k < w.len() implies !word_break(#[trigger] s[k]) by {
        assert(s[k] == w[k]);
        if word_break(w[k]) {
            let x = w[k];
            if x == ' ' { assert(b[0] == x); } else if x == '\t' { assert(b[1] == x); } else if x == '\r' { assert(b[2] == x); }
            else if x == '\n' { assert(b[3] == x); } else if x == '.' { assert(b[4] == x); } else if x == ',' { assert(b[5] == x); }
            else if x == ';' { assert(b[6] == x); } else if x == '!' { assert(b[7] == x); } else if x == ':' { assert(b[8] == x); }
            else if x == '-' { assert(b[9] == x); } else if x == '(' { assert(b[10] == x); } else if x == ')' { assert(b[11] == x); }
            else if x == '[' { assert(b[12] == x); } else if x == ']' { assert(b[13] == x); } else if x == '{' { assert(b[14] == x); }
            else if x == '}' { assert(b[15] == x); } else { assert(b[16] == x); }
        }
    }
    assert(s[w.len() as int] == c);
    let j = choose|j: int| 0 <= j < b.len() && b[j] == c;
    assert(word_break(c));
    lemma_word_end_over(s, 0, w.len() as int);
}

/// A text made of one word followed by a break character names the symbols
/// of that word's key at the word's range, when that key is the only key of
/// the trie and the word starts with no white space.
pub proof fn law_single_word_found(
    m: Map<Seq<u8>, Seq<Seq<char>>>,
    nodes: Set<Seq<u8>>,
    lang: Language,
    w: Seq<char>,
    c: char,
)
    requires
        w.len() > 0,
        !is_ws(w[0]),
        forall|i: int|
            0 <= i < w.len() ==> !seq![
                ' ',
                '\t',
                '\r',
                '\n',
                '.',
                ',',
                ';',
                '!',
                ':',
                '-',
                '(',
                ')',
                '[',
                ']',
                '{',
                '}',
                '$',
            ].contains(#[trigger] w[i]),
        seq![' ', '\t', '\r', '\n', '.', ',', ';', '!', ':', '-', '(', ')', '[', ']', '{', '}', '$'].contains(c),
        m.dom() == set![key_of(verb_nibbles(w, lang))],
        nodes.contains(key_of(verb_nibbles(w, lang))),
    ensures
        found_in(m, nodes, lang, w + seq![c]) == seq![((0int, w.len() as int), m[key_of(verb_nibbles(w, lang))])],
{
    let s = w + seq![c];
    let key = key_of(verb_nibbles(w, lang));
    law_words_end_at_breaks(w, c, Seq::empty());
    assert(w + seq![c] + Seq::<char>::empty() =~= s);
    assert(s[0] == w[0]);
    assert(skip_ws(s, 0) == 0);
    assert(s.subrange(0, w.len() as int) =~= w);
    let me = word_at(s, 0, lang, m);
    assert(me.verb == verb_nibbles(w, lang));
    assert(me.start == 0 && me.end == w.len());
    assert(has_key_under(m, key)) by {
        assert(m.dom().contains(key) && key.is_prefix_of(key));
    }
    assert(!has_key_below(m, key)) by {
        if has_key_below(m, key) {
            let q = choose|q: Seq<u8>| m.dom().contains(q) && key.is_prefix_of(q) && q.len() > key.len();
            assert(q == key);
        }
    }
    let st = step(m, nodes, Seq::empty(), Seq::empty(), me);
    assert(st.0 == Seq::<PendingView>::empty());
    assert(st.1 == seq![((0int, w.len() as int), m[key])]);
    assert(next_pos(s, 0) == s.len());
    assert(run(m, nodes, lang, s, s.len() as int, st.0, st.1) == st.1);
}

/// A word waiting on the stack of the search: its nibbles and range, the
/// character after it, whether it names symbols alone, and what it merged
/// into with the words before it, with whether that names symbols.
pub struct PendingView {
    pub verb: Seq<u8>,
    pub start: int,
    pub end: int,
    pub sep: Option<char>,
    pub single: bool,
    pub merged: Option<(Seq<u8>, bool)>,
}

/// What the stack gives back when it is cleared, from its top down: a
/// merge that names symbols ends it, spanning from `start`; a word that
/// names symbols alone gives its own range.
pub open spec fn collect(st: Seq<PendingView>, start: int, m: Map<Seq<u8>, Seq<Seq<char>>>) -> Seq<((int, int), Seq<Seq<char>>)>
    decreases st.len(),
{
    if st.len() == 0 {
        Seq::empty()
    } else {
        let e = st.last();
        match e.merged {
            Some((mm, true)) => seq![((start, e.end), m[key_of(mm)])],
            _ => (if e.single {
                seq![((e.start, e.end), m[key_of(e.verb)])]
            } else {
                Seq::empty()
            }) + collect(st.drop_last(), start, m),
        }
    }
}

/// The stack cleared into the results: what `collect` gives, in text
/// order.
pub open spec fn clear(st: Seq<PendingView>, ret: Seq<((int, int), Seq<Seq<char>>)>, m: Map<Seq<u8>, Seq<Seq<char>>>) -> (Seq<PendingView>, Seq<((int, int), Seq<Seq<char>>)>) {
    if st.len() == 0 {
        (st, ret)
    } else {
        (Seq::empty(), ret + collect(st, st[0].start, m).reverse())
    }
}

/// The second half of a step: a word whose key has a node with keys under
/// it is found when no key lies below it, else it waits.
pub open spec fn step_alone(
    m: Map<Seq<u8>, Seq<Seq<char>>>,
    nodes: Set<Seq<u8>>,
    st: Seq<PendingView>,
    ret: Seq<((int, int), Seq<Seq<char>>)>,
    me: PendingView,
) -> (Seq<PendingView>, Seq<((int, int), Seq<Seq<char>>)>) {
    let key = key_of(me.verb);
    if nodes.contains(key) && has_key_under(m, key) {
        if !has_key_below(m, key) {
            if m.dom().contains(key) {
                (st, ret.push(((me.start, me.end), m[key])))
            } else {
                (st, ret)
            }
        } else {
            (st.push(me), ret)
        }
    } else {
        (st, ret)
    }
}

/// One step of the search with the word `me`: with words waiting, it is
/// merged with the last of them; where its key has a node with keys under
/// it, a leaf ends the run when the merge names symbols, and otherwise the
/// word waits with the merge; where it has none, the stack is cleared. Then
/// the word is looked at alone.
pub open spec fn step(
    m: Map<Seq<u8>, Seq<Seq<char>>>,
    nodes: Set<Seq<u8>>,
    st: Seq<PendingView>,
    ret: Seq<((int, int), Seq<Seq<char>>)>,
    me: PendingView,
) -> (Seq<PendingView>, Seq<((int, int), Seq<Seq<char>>)>) {
    let key = key_of(me.verb);
    if st.len() > 0 {
        let last = st.last();
        let merger = match last.merged {
            Some((mm, _)) => mm,
            None => last.verb,
        };
        let merged = merge_nibbles(merger, me.verb, last.sep);
        if nodes.contains(key) && has_key_under(m, key) {
            if !has_key_below(m, key) {
                if key.is_prefix_of(key_of(merged)) && m.dom().contains(key_of(merged)) {
                    (Seq::empty(), ret.push(((st[0].start, me.end), m[key_of(merged)])))
                } else {
                    step_alone(m, nodes, st, ret, me)
                }
            } else {
                (
                    st.push(
                        PendingView { merged: Some((merged, m.dom().contains(key_of(merged)))), ..me },
                    ),
                    ret,
                )
            }
        } else {
            let (st2, ret2) = clear(st, ret, m);
            step_alone(m, nodes, st2, ret2, me)
        }
    } else {
        step_alone(m, nodes, st, ret, me)
    }
}

/// The word of `s` that the search reads from `pos`: white space is
/// skipped, the word runs to the next break character, which is consumed.
pub open spec fn word_at(s: Seq<char>, pos: int, lang: Language, m: Map<Seq<u8>, Seq<Seq<char>>>) -> PendingView {
    let start = skip_ws(s, pos);
    let end = word_end(s, start);
    let verb = verb_nibbles(s.subrange(start, end), lang);
    PendingView {
        verb,
        start,
        end,
        sep: if end < s.len() {
            Some(s[end])
        } else {
            None
        },
        single: m.dom().contains(key_of(verb)),
        merged: None,
    }
}

/// Where the search goes on after the word read from `pos`.
pub open spec fn next_pos(s: Seq<char>, pos: int) -> int {
    let end = word_end(s, skip_ws(s, pos));
    if end < s.len() {
        end + 1
    } else {
        end
    }
}

/// The search from `pos` on with the stack `st` and the results `ret`;
/// at the end the stack is cleared.
pub open spec fn run(
    m: Map<Seq<u8>, Seq<Seq<char>>>,
    nodes: Set<Seq<u8>>,
    lang: Language,
    s: Seq<char>,
    pos: int,
    st: Seq<PendingView>,
    ret: Seq<((int, int), Seq<Seq<char>>)>,
) -> Seq<((int, int), Seq<Seq<char>>)>
    decreases s.len() - pos,
{
    if pos < 0 || pos >= s.len() {
        clear(st, ret, m).1
    } else {
        proof {
            lemma_skip_ws(s, pos);
            lemma_word_end(s, skip_ws(s, pos));
        }
        let (st2, ret2) = step(m, nodes, st, ret, word_at(s, pos, lang, m));
        run(m, nodes, lang, s, next_pos(s, pos), st2, ret2)
    }
}

/// The ranges of `s` (character indices) that name symbols of the trie,
/// with those symbols, in `lang`.
pub open spec fn found_in(m: Map<Seq<u8>, Seq<Seq<char>>>, nodes: Set<Seq<u8>>, lang: Language, s: Seq<char>) -> Seq<((int, int), Seq<Seq<char>>)> {
    run(m, nodes, lang, s, 0, Seq::empty(), Seq::empty())
}


/// A found range lies in a text of length `len`, starts no later than it
/// ends, and names the symbols of some key of `m`.
spec fn found_ok(m: Map<Seq<u8>, Seq<Seq<char>>>, len: int, x: ((int, int), Seq<Seq<char>>)) -> bool {
    &&& 0 <= x.0.0 <= x.0.1 <= len
    &&& exists|k: Seq<u8>| m.dom().contains(k) && m[k] == x.1
}

/// A waiting word lies between `lo` and `pos`, and its flags name keys of
/// `m`.
spec fn pend_ok(m: Map<Seq<u8>, Seq<Seq<char>>>, lo: int, pos: int, p: PendingView) -> bool {
    &&& 0 <= lo <= p.start <= p.end <= pos
    &&& p.single ==> m.dom().contains(key_of(p.verb))
    &&& p.merged matches Some((mm, true)) ==> m.dom().contains(key_of(mm))
}

/// The state of the search before reading from `pos`.
spec fn search_ok(m: Map<Seq<u8>, Seq<Seq<char>>>, len: int, pos: int, st: Seq<PendingView>, ret: Seq<((int, int), Seq<Seq<char>>)>) -> bool {
    &&& 0 <= pos <= len
    &&& forall|i: int| 0 <= i < st.len() ==> pend_ok(m, st[0].start, pos, #[trigger] st[i])
    &&& forall|i: int| 0 <= i < ret.len() ==> found_ok(m, len, #[trigger] ret[i])
}

/// What clearing a stack gives back lies in the text and names symbols.
proof fn lemma_collect_ok(m: Map<Seq<u8>, Seq<Seq<char>>>, len: int, pos: int, st: Seq<PendingView>, start: int)
    requires
        pos <= len,
        forall|i: int| 0 <= i < st.len() ==> pend_ok(m, start, pos, #[trigger] st[i]),
    ensures
        forall|i: int| 0 <= i < collect(st, start, m).len() ==> found_ok(m, len, #[trigger] collect(st, start, m)[i]),
    decreases st.len(),
{
    if st.len() > 0 {
        let e = st.last();
        assert(pend_ok(m, start, pos, st[st.len() - 1]));
        let c = collect(st, start, m);
        match e.merged {
            Some((mm, true)) => {
                assert(c == seq![((start, e.end), m[key_of(mm)])]);
                assert(found_ok(m, len, c[0]));
            },
            _ => {
                let d = st.drop_last();
                assert forall|i: int| 0 <= i < d.len() implies pend_ok(m, start, pos, #[trigger] d[i]) by {
                    assert(d[i] == st[i]);
                }
                lemma_collect_ok(m, len, pos, d, start);
                let head: Seq<((int, int), Seq<Seq<char>>)> = if e.single {
                    seq![((e.start, e.end), m[key_of(e.verb)])]
                } else {
                    Seq::empty()
                };
                assert(c == head + collect(d, start, m));
                assert forall|i: int| 0 <= i < c.len() implies found_ok(m, len, #[trigger] c[i]) by {
                    if i < head.len() {
                        assert(found_ok(m, len, head[0]));
                    } else {
                        assert(c[i] == collect(d, start, m)[i - head.len()]);
                    }
                }
            },
        }
    }
}

/// Clearing the stack keeps the results in the text, naming symbols.
proof fn lemma_clear_ok(m: Map<Seq<u8>, Seq<Seq<char>>>, len: int, pos: int, st: Seq<PendingView>, ret: Seq<((int, int), Seq<Seq<char>>)>)
    requires
        search_ok(m, len, pos, st, ret),
    ensures
        clear(st, ret, m).0.len() == 0,
        forall|i: int| 0 <= i < clear(st, ret, m).1.len() ==> found_ok(m, len, #[trigger] clear(st, ret, m).1[i]),
{
    if st.len() > 0 {
        lemma_collect_ok(m, len, pos, st, st[0].start);
        let c = collect(st, st[0].start, m);
        let r = ret + c.reverse();
        assert forall|i: int| 0 <= i < r.len() implies found_ok(m, len, #[trigger] r[i]) by {
            if i >= ret.len() {
                assert(r[i] == c[c.len() - 1 - (i - ret.len())]);
            }
        }
    }
}

/// The second half of a step keeps the state of the search sound.
proof fn lemma_step_alone_ok(
    m: Map<Seq<u8>, Seq<Seq<char>>>,
    nodes: Set<Seq<u8>>,
    len: int,
    pos: int,
    npos: int,
    st: Seq<PendingView>,
    ret: Seq<((int, int), Seq<Seq<char>>)>,
    me: PendingView,
)
    requires
        search_ok(m, len, pos, st, ret),
        pos <= me.start <= me.end <= npos <= len,
        me.single ==> m.dom().contains(key_of(me.verb)),
        me.merged is None,
    ensures
        search_ok(m, len, npos, step_alone(m, nodes, st, ret, me).0, step_alone(m, nodes, st, ret, me).1),
{
    let r = step_alone(m, nodes, st, ret, me);
    let key = key_of(me.verb);
    assert forall|i: int| 0 <= i < st.len() implies pend_ok(m, st[0].start, npos, #[trigger] st[i]) by {
        assert(pend_ok(m, st[0].start, pos, st[i]));
    }
    if r.0.len() > st.len() {
        let s2 = st.push(me);
        assert(r.0 == s2);
        assert forall|i: int| 0 <= i < s2.len() implies pend_ok(m, s2[0].start, npos, #[trigger] s2[i]) by {
            if st.len() > 0 {
                assert(s2[0] == st[0]);
                assert(pend_ok(m, st[0].start, pos, st[0]));
                if i < st.len() {
                    assert(s2[i] == st[i]);
                }
            }
        }
    }
    if r.1.len() > ret.len() {
        assert(r.1 == ret.push(((me.start, me.end), m[key])));
        assert(found_ok(m, len, r.1[ret.len() as int]));
        assert forall|i: int| 0 <= i < r.1.len() implies found_ok(m, len, #[trigger] r.1[i]) by {
            if i < ret.len() {
                assert(r.1[i] == ret[i]);
            }
        }
    }
}

/// A step keeps the state of the search sound.
proof fn lemma_step_ok(
    m: Map<Seq<u8>, Seq<Seq<char>>>,
    nodes: Set<Seq<u8>>,
    lang: Language,
    s: Seq<char>,
    pos: int,
    st: Seq<PendingView>,
    ret: Seq<((int, int), Seq<Seq<char>>)>,
)
    requires
        search_ok(m, s.len() as int, pos, st, ret),
        pos < s.len(),
    ensures
        ({
            let r = step(m, nodes, st, ret, word_at(s, pos, lang, m));
            search_ok(m, s.len() as int, next_pos(s, pos), r.0, r.1)
        }),
{
    let len = s.len() as int;
    lemma_skip_ws(s, pos);
    lemma_word_end(s, skip_ws(s, pos));
    let me = word_at(s, pos, lang, m);
    let npos = next_pos(s, pos);
    let key = key_of(me.verb);
    assert(pos <= me.start <= me.end <= npos <= len);
    if st.len() > 0 {
        let last = st.last();
        let merger = match last.merged {
            Some((mm, _)) => mm,
            None => last.verb,
        };
        let merged = merge_nibbles(merger, me.verb, last.sep);
        assert(pend_ok(m, st[0].start, pos, st[0]));
        if nodes.contains(key) && has_key_under(m, key) {
            if !has_key_below(m, key) {
                if key.is_prefix_of(key_of(merged)) && m.dom().contains(key_of(merged)) {
                    let r1 = ret.push(((st[0].start, me.end), m[key_of(merged)]));
                    assert(found_ok(m, len, r1[ret.len() as int]));
                    assert forall|i: int| 0 <= i < r1.len() implies found_ok(m, len, #[trigger] r1[i]) by {
                        if i < ret.len() {
                            assert(r1[i] == ret[i]);
                        }
                    }
                } else {
                    lemma_step_alone_ok(m, nodes, len, pos, npos, st, ret, me);
                }
            } else {
                let p = PendingView { merged: Some((merged, m.dom().contains(key_of(merged)))), ..me };
                let s2 = st.push(p);
                assert forall|i: int| 0 <= i < s2.len() implies pend_ok(m, s2[0].start, npos, #[trigger] s2[i]) by {
                    assert(s2[0] == st[0]);
                    if i < st.len() {
                        assert(s2[i] == st[i]);
                        assert(pend_ok(m, st[0].start, pos, st[i]));
                    }
                }
            }
        } else {
            lemma_clear_ok(m, len, pos, st, ret);
            let c = clear(st, ret, m);
            assert(c.0 =~= Seq::<PendingView>::empty());
            lemma_step_alone_ok(m, nodes, len, pos, npos, c.0, c.1, me);
        }
    } else {
        lemma_step_alone_ok(m, nodes, len, pos, npos, st, ret, me);
    }
}

/// The search from `pos` on keeps its results in the text, naming symbols.
proof fn lemma_run_ok(
    m: Map<Seq<u8>, Seq<Seq<char>>>,
    nodes: Set<Seq<u8>>,
    lang: Language,
    s: Seq<char>,
    pos: int,
    st: Seq<PendingView>,
    ret: Seq<((int, int), Seq<Seq<char>>)>,
)
    requires
        search_ok(m, s.len() as int, pos, st, ret),
    ensures
        forall|i: int| 0 <= i < run(m, nodes, lang, s, pos, st, ret).len() ==> found_ok(
            m,
            s.len() as int,
            #[trigger] run(m, nodes, lang, s, pos, st, ret)[i],
        ),
    decreases s.len() - pos,
{
    if pos >= s.len() {
        lemma_clear_ok(m, s.len() as int, pos, st, ret);
        assert(run(m, nodes, lang, s, pos, st, ret) == clear(st, ret, m).1);
    } else {
        lemma_skip_ws(s, pos);
        lemma_word_end(s, skip_ws(s, pos));
        lemma_step_ok(m, nodes, lang, s, pos, st, ret);
        let r = step(m, nodes, st, ret, word_at(s, pos, lang, m));
        lemma_run_ok(m, nodes, lang, s, next_pos(s, pos), r.0, r.1);
        assert(run(m, nodes, lang, s, pos, st, ret) == run(m, nodes, lang, s, next_pos(s, pos), r.0, r.1));
    }
}

/// Every range that the search finds lies within the text and starts no
/// later than it ends, and what it names are the symbols of some key of
/// the trie.
pub proof fn law_found_ranges_name_symbols(m: Map<Seq<u8>, Seq<Seq<char>>>, nodes: Set<Seq<u8>>, lang: Language, s: Seq<char>)
    ensures
        forall|i: int|
            0 <= i < found_in(m, nodes, lang, s).len() ==> {
                let f = #[trigger] found_in(m, nodes, lang, s)[i];
                &&& 0 <= f.0.0 <= f.0.1 <= s.len()
                &&& exists|k: Seq<u8>| m.dom().contains(k) && m[k] == f.1
            },
{
    lemma_run_ok(m, nodes, lang, s, 0, Seq::empty(), Seq::empty());
    assert forall|i: int| 0 <= i < found_in(m, nodes, lang, s).len() implies {
        let f = #[trigger] found_in(m, nodes, lang, s)[i];
        &&& 0 <= f.0.0 <= f.0.1 <= s.len()
        &&& exists|k: Seq<u8>| m.dom().contains(k) && m[k] == f.1
    } by {
        assert(found_ok(m, s.len() as int, run(m, nodes, lang, s, 0, Seq::empty(), Seq::empty())[i]));
    }
}

/// A word waiting on the stack of the search.
pub struct Pending {
    pub verb: Verbalization,
    pub start: usize,
    pub end: usize,
    pub sep: Option<char>,
    pub single: bool,
    pub merged: Option<(Verbalization, bool)>,
}

/// The view of a waiting word.
pub open spec fn pending_view(p: Pending) -> PendingView {
    PendingView {
        verb: nibbles(p.verb.inner),
        start: p.start as int,
        end: p.end as int,
        sep: p.sep,
        single: p.single,
        merged: match p.merged {
            Some((v, b)) => Some((nibbles(v.inner), b)),
            None => None,
        },
    }
}

/// The view of a stack of waiting words.
pub open spec fn stack_view(s: Seq<Pending>) -> Seq<PendingView> {
    s.map_values(|p: Pending| pending_view(p))
}

/// The view of found ranges with their symbols.
pub open spec fn found_views(v: Seq<((usize, usize), Vec<String>)>) -> Seq<((int, int), Seq<Seq<char>>)> {
    v.map_values(|f: ((usize, usize), Vec<String>)| ((f.0.0 as int, f.0.1 as int), texts(f.1@)))
}

/// A waiting word whose flags say that a key names symbols has that key in
/// `m`.
pub open spec fn pending_ok(p: PendingView, m: Map<Seq<u8>, Seq<Seq<char>>>) -> bool {
    &&& p.single ==> m.dom().contains(key_of(p.verb))
    &&& p.merged matches Some((mm, true)) ==> m.dom().contains(key_of(mm))
}

/// Whether `c` ends a word.
fn is_word_break(c: char) -> (r: bool)
    ensures
        r == word_break(c),
{
    c == ' ' || c == '\t' || c == '\r' || c == '\n' || c == '.' || c == ',' || c == ';' || c == '!' || c == ':'
        || c == '-' || c == '(' || c == ')' || c == '[' || c == ']' || c == '{' || c == '}' || c == '$'
}

/// Clears the stack into the results, as `clear` says.
fn clear_stack(t: &VerbTrie, stack: &mut Vec<Pending>, ret: &mut Vec<((usize, usize), Vec<String>)>)
    requires
        forall|i: int| 0 <= i < old(stack)@.len() ==> pending_ok(#[trigger] stack_view(old(stack)@)[i], trie_map(*t)),
    ensures
        (stack_view(final(stack)@), found_views(final(ret)@)) == clear(
            stack_view(old(stack)@),
            found_views(old(ret)@),
            trie_map(*t),
        ),
{
    if stack.len() == 0 {
        return;
    }
    let ghost m = trie_map(*t);
    let ghost st = stack_view(stack@);
    let start = stack[0].start;
    let mut readd: Vec<((usize, usize), Vec<String>)> = Vec::new();
    let mut i = stack.len();
    let mut done = false;
    assert(st.take(i as int) =~= st);
    while i > 0 && !done
        invariant
            i <= stack@.len(),
            stack@ == old(stack)@,
            st == stack_view(stack@),
            m == trie_map(*t),
            start as int == st[0].start,
            stack@.len() > 0,
            forall|j: int| 0 <= j < stack@.len() ==> pending_ok(#[trigger] st[j], m),
            done ==> found_views(readd@) == collect(st, start as int, m),
            !done ==> found_views(readd@) + collect(st.take(i as int), start as int, m) == collect(st, start as int, m),
        decreases i,
    {
        i = i - 1;
        let ghost before = found_views(readd@);
        let ghost pre = st.take(i as int + 1);
        proof {
            assert(pre.drop_last() =~= st.take(i as int));
            assert(pre.last() == st[i as int]);
        }
        let e = &stack[i];
        assert(st[i as int] == pending_view(*e));
        assert(pending_ok(st[i as int], m));
        match &e.merged {
            Some((mm, true)) => {
                let k = mm.bytes();
                match trie_get(t, &k) {
                    Some(v) => {
                        readd.push(((start, e.end), v));
                        assert(found_views(readd@) =~= before.push(((start as int, e.end as int), texts(v@))));
                    },
                    None => {},
                }
                done = true;
            },
            _ => {
                if e.single {
                    let k = e.verb.bytes();
                    match trie_get(t, &k) {
                        Some(v) => {
                            readd.push(((e.start, e.end), v));
                            assert(found_views(readd@) =~= before.push(((e.start as int, e.end as int), texts(v@))));
                        },
                        None => {},
                    }
                }
                proof {
                    let item: Seq<((int, int), Seq<Seq<char>>)> = if st[i as int].single {
                        seq![((st[i as int].start, st[i as int].end), m[key_of(st[i as int].verb)])]
                    } else {
                        Seq::empty()
                    };
                    assert(found_views(readd@) =~= before + item);
                    assert(collect(pre, start as int, m) == item + collect(st.take(i as int), start as int, m));
                    assert(before + item + collect(st.take(i as int), start as int, m) =~= before + (item + collect(
                        st.take(i as int),
                        start as int,
                        m,
                    )));
                }
            },
        }
    }
    proof {
        if !done {
            assert(st.take(0) =~= Seq::<PendingView>::empty());
            assert(found_views(readd@) =~= found_views(readd@) + collect(st.take(0), start as int, m));
        }
    }
    let ghost all = found_views(readd@);
    let ghost ret0 = found_views(ret@);
    assert(all.take(all.len() as int) =~= all);
    assert(all.skip(all.len() as int).reverse() =~= Seq::<((int, int), Seq<Seq<char>>)>::empty());
    assert(found_views(ret@) =~= ret0 + all.skip(all.len() as int).reverse());
    while readd.len() > 0
        invariant
            all.len() >= readd@.len(),
            found_views(readd@) == all.take(readd@.len() as int),
            found_views(ret@) == ret0 + all.skip(readd@.len() as int).reverse(),
        decreases readd@.len(),
    {
        let ghost l = readd@.len() as int;
        let ghost rv = readd@;
        let ghost before_ret = found_views(ret@);
        let x = readd.pop();
        match x {
            Some(x) => {
                proof {
                    assert(rv =~= readd@.push(x));
                    assert(found_views(rv)[l - 1] == all.take(l)[l - 1]);
                    assert(all.take(l)[l - 1] == all[l - 1]);
                    assert(found_views(rv)[l - 1] == ((x.0.0 as int, x.0.1 as int), texts(x.1@)));
                }
                ret.push(x);
                proof {
                    assert(found_views(ret@) =~= before_ret.push(((x.0.0 as int, x.0.1 as int), texts(x.1@))));
                    assert(all.skip(l - 1).reverse() =~= all.skip(l).reverse().push(all[l - 1]));
                    assert(found_views(readd@) =~= all.take(l - 1)) by {
                        assert forall|j: int| 0 <= j < l - 1 implies found_views(readd@)[j] == all.take(l - 1)[j] by {
                            assert(readd@[j] == rv[j]);
                            assert(found_views(rv)[j] == all.take(l)[j]);
                        }
                    }
                    assert(found_views(ret@) =~= ret0 + all.skip(l - 1).reverse());
                }
            },
            None => {},
        }
    }
    assert(all.skip(0) =~= all);
    stack.clear();
    assert(stack_view(stack@) =~= Seq::<PendingView>::empty());
}


/// The second half of a step, as `step_alone` says.
fn step_alone_exec(
    t: &VerbTrie,
    stack: &mut Vec<Pending>,
    ret: &mut Vec<((usize, usize), Vec<String>)>,
    me: Pending,
    key: &Vec<u8>,
    probe: Option<(bool, bool)>,
)
    requires
        key@ == key_of(pending_view(me).verb),
        probe is Some <==> trie_nodes(*t).contains(key@),
        probe matches Some((e, l)) ==> e == !has_key_under(trie_map(*t), key@) && l == !has_key_below(trie_map(*t), key@),
        pending_ok(pending_view(me), trie_map(*t)),
        forall|i: int| 0 <= i < old(stack)@.len() ==> pending_ok(#[trigger] stack_view(old(stack)@)[i], trie_map(*t)),
    ensures
        (stack_view(final(stack)@), found_views(final(ret)@)) == step_alone(
            trie_map(*t),
            trie_nodes(*t),
            stack_view(old(stack)@),
            found_views(old(ret)@),
            pending_view(me),
        ),
        forall|i: int| 0 <= i < final(stack)@.len() ==> pending_ok(#[trigger] stack_view(final(stack)@)[i], trie_map(*t)),
{
    match probe {
        Some((empty, leaf)) => {
            if !empty {
                if leaf {
                    match trie_sub_get(t, key, key) {
                        Ok(Some(v)) => {
                            let ghost r0 = found_views(ret@);
                            ret.push(((me.start, me.end), v));
                            assert(found_views(ret@) =~= r0.push(((me.start as int, me.end as int), texts(v@))));
                        },
                        _ => {},
                    }
                } else {
                    let ghost s0 = stack_view(stack@);
                    stack.push(me);
                    assert(stack_view(stack@) =~= s0.push(pending_view(me)));
                }
            }
        },
        None => {},
    }
}

/// One step of the search, as `step` says.
fn step_exec(
    t: &VerbTrie,
    stack: &mut Vec<Pending>,
    ret: &mut Vec<((usize, usize), Vec<String>)>,
    me: Pending,
    key: &Vec<u8>,
    probe: Option<(bool, bool)>,
)
    requires
        key@ == key_of(pending_view(me).verb),
        probe is Some <==> trie_nodes(*t).contains(key@),
        probe matches Some((e, l)) ==> e == !has_key_under(trie_map(*t), key@) && l == !has_key_below(trie_map(*t), key@),
        pending_ok(pending_view(me), trie_map(*t)),
        forall|i: int| 0 <= i < old(stack)@.len() ==> pending_ok(#[trigger] stack_view(old(stack)@)[i], trie_map(*t)),
    ensures
        (stack_view(final(stack)@), found_views(final(ret)@)) == step(
            trie_map(*t),
            trie_nodes(*t),
            stack_view(old(stack)@),
            found_views(old(ret)@),
            pending_view(me),
        ),
        forall|i: int| 0 <= i < final(stack)@.len() ==> pending_ok(#[trigger] stack_view(final(stack)@)[i], trie_map(*t)),
{
    if stack.len() == 0 {
        step_alone_exec(t, stack, ret, me, key, probe);
        return;
    }
    let ghost m = trie_map(*t);
    let ghost s0 = stack_view(stack@);
    let li = stack.len() - 1;
    assert(s0.last() == pending_view(stack@[li as int]));
    let lsep = stack[li].sep;
    let merger = match &stack[li].merged {
        Some((mm, _)) => mm.clone(),
        None => stack[li].verb.clone(),
    };
    let merged = merger.merge(&me.verb, lsep);
    let has_keys = match probe {
        Some((empty, _)) => !empty,
        None => false,
    };
    if has_keys {
        let leaf = match probe {
            Some((_, l)) => l,
            None => false,
        };
        let mk = merged.bytes();
        if leaf {
            match trie_sub_get(t, key, &mk) {
                Ok(Some(v)) => {
                    let first = stack[0].start;
                    assert(s0[0].start == first as int);
                    let ghost r0 = found_views(ret@);
                    ret.push(((first, me.end), v));
                    assert(found_views(ret@) =~= r0.push(((first as int, me.end as int), texts(v@))));
                    stack.clear();
                    assert(stack_view(stack@) =~= Seq::<PendingView>::empty());
                },
                _ => {
                    step_alone_exec(t, stack, ret, me, key, probe);
                },
            }
        } else {
            let can = trie_get(t, &mk).is_some();
            let Pending { verb, start, end, sep, single, merged: _ } = me;
            let p = Pending { verb, start, end, sep, single, merged: Some((merged, can)) };
            assert(pending_view(p) == PendingView { merged: Some((nibbles(merged.inner), can)), ..pending_view(me) });
            stack.push(p);
            assert(stack_view(stack@) =~= s0.push(pending_view(p)));
        }
    } else {
        clear_stack(t, stack, ret);
        assert(stack@.len() == 0) by {
            assert(stack_view(stack@).len() == stack@.len());
        }
        step_alone_exec(t, stack, ret, me, key, probe);
    }
}

impl VerbTrie {
    /// The ranges of `text`, in character indices, that name symbols of the
    /// trie, with those symbols: words are read one by one up to a break
    /// character, and runs of words whose verbalizations continue into
    /// longer keys are merged while the trie has keys beyond them.
    pub fn find_all_in(&self, language: Language, text: &str) -> (r: Vec<((usize, usize), Vec<String>)>)
        ensures
            found_views(r@) == found_in(trie_map(*self), trie_nodes(*self), language, text@),
    {
        let chars = chars_of(text);
        let n = chars.len();
        let ghost m = trie_map(*self);
        let ghost nodes = trie_nodes(*self);
        let ghost s = text@;
        let mut stack: Vec<Pending> = Vec::new();
        let mut ret: Vec<((usize, usize), Vec<String>)> = Vec::new();
        let mut pos: usize = 0;
        assert(stack_view(stack@) =~= Seq::<PendingView>::empty());
        assert(found_views(ret@) =~= Seq::<((int, int), Seq<Seq<char>>)>::empty());
        while pos < n
            invariant
                chars@ == s,
                s == text@,
                n == chars@.len(),
                pos <= n,
                m == trie_map(*self),
                nodes == trie_nodes(*self),
                forall|i: int| 0 <= i < stack@.len() ==> pending_ok(#[trigger] stack_view(stack@)[i], m),
                run(m, nodes, language, s, pos as int, stack_view(stack@), found_views(ret@)) == found_in(
                    m,
                    nodes,
                    language,
                    s,
                ),
            decreases n - pos,
        {
            let mut start = pos;
            while start < n && is_whitespace(chars[start])
                invariant
                    pos <= start <= n,
                    n == chars@.len(),
                    chars@ == s,
                    skip_ws(s, start as int) == skip_ws(s, pos as int),
                decreases n - start,
            {
                start = start + 1;
            }
            let mut end = start;
            while end < n && !is_word_break(chars[end])
                invariant
                    start <= end <= n,
                    n == chars@.len(),
                    chars@ == s,
                    word_end(s, end as int) == word_end(s, start as int),
                decreases n - end,
            {
                end = end + 1;
            }
            assert(skip_ws(s, pos as int) == start as int);
            assert(word_end(s, start as int) == end as int);
            let sep: Option<char> = if end < n {
                Some(chars[end])
            } else {
                None
            };
            let verb = Verbalization::new(text.substring_char(start, end), language);
            let key = verb.bytes();
            let single = trie_get(self, &key).is_some();
            let probe = trie_probe(self, &key);
            let me = Pending { verb, start, end, sep, single, merged: None };
            assert(pending_view(me) == word_at(s, pos as int, language, m));
            let ghost st0 = stack_view(stack@);
            let ghost ret0 = found_views(ret@);
            step_exec(self, &mut stack, &mut ret, me, &key, probe);
            let next = if end < n {
                end + 1
            } else {
                end
            };
            assert(next as int == next_pos(s, pos as int));
            pos = next;
        }
        clear_stack(self, &mut stack, &mut ret);
        ret
    }
}

} // verus!
