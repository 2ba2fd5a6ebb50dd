//! The inventory of a remote archive: its learning objects become
//! documents, its definienda are listed under the ids of the documents that
//! define them, and the symbols of the archive are gathered into modules.
//!
//! Documents are identified by their path relative to the archive, without
//! the `.html` suffix; modules by their URI.
use vstd::prelude::*;
use vstd::string::StrSliceExecFns;
use crate::text::chars_of;
use vstd::string::StringExecFns;

verus! {

/// A learning object of the inventory: the URL of its page.
pub struct InvLO {
    pub url: String,
}

/// A symbol: its archive, its module and its name.
#[derive(Debug)]
pub struct SymbolRef {
    pub archive: String,
    pub module: String,
    pub name: String,
}

/// A definiendum of the inventory: a symbol and the URL where it is
/// defined, possibly with a fragment id after `#`.
pub struct Def {
    pub symbol: SymbolRef,
    pub url: String,
}

/// A document of the inventory: its path, the modules it lists, and the
/// symbols defined under each id.
pub struct InvDocument {
    pub path: String,
    pub modules: Vec<String>,
    pub ids: Vec<(String, Vec<SymbolRef>)>,
}

/// A module of the archive and its symbols.
pub struct InvModule {
    pub uri: String,
    pub symbols: Vec<SymbolRef>,
}

/// `.html`
pub open spec fn html_suffix() -> Seq<char> {
    ".html"@
}

/// `s` without a trailing `.html`.
pub open spec fn strip_html(s: Seq<char>) -> Seq<char> {
    if s.len() >= 5 && s.skip(s.len() - 5) == html_suffix() {
        s.take(s.len() - 5)
    } else {
        s
    }
}

/// The index of the last `#` in `s`, or -1.
pub open spec fn last_hash(s: Seq<char>) -> int {
    crate::extractor::rfind(s, |c: char| c == '#')
}

/// The part of a URL before its last `#` (all of it without one).
pub open spec fn url_part(s: Seq<char>) -> Seq<char> {
    let k = last_hash(s);
    if k >= 0 {
        s.take(k)
    } else {
        s
    }
}

/// The part of a URL after its last `#` (empty without one).
pub open spec fn id_part(s: Seq<char>) -> Seq<char> {
    let k = last_hash(s);
    if k >= 0 {
        s.skip(k + 1)
    } else {
        Seq::empty()
    }
}

/// The view of a document: its path and, for each id, its symbols.
pub open spec fn doc_view(d: InvDocument) -> (Seq<char>, Seq<(Seq<char>, Seq<SymbolRef>)>) {
    (d.path@, d.ids@.map_values(|e: (String, Vec<SymbolRef>)| (e.0@, e.1@)))
}

/// The index of the first document with path `p`, or -1.
pub open spec fn doc_index(docs: Seq<(Seq<char>, Seq<(Seq<char>, Seq<SymbolRef>)>)>, p: Seq<char>) -> int {
    crate::extractor::lfind(docs, |d: (Seq<char>, Seq<(Seq<char>, Seq<SymbolRef>)>)| d.0 == p)
}

/// The ids of a document with `sym` added under `id`.
pub open spec fn ids_with(ids: Seq<(Seq<char>, Seq<SymbolRef>)>, id: Seq<char>, sym: SymbolRef) -> Seq<(Seq<char>, Seq<SymbolRef>)> {
    let j = crate::extractor::lfind(ids, |e: (Seq<char>, Seq<SymbolRef>)| e.0 == id);
    if j >= 0 {
        ids.update(j, (ids[j].0, ids[j].1.push(sym)))
    } else {
        ids.push((id, seq![sym]))
    }
}

/// The documents after the definiendum `d` was recorded: under its id in
/// the document it points to, if that document is known.
pub open spec fn docs_with(docs: Seq<(Seq<char>, Seq<(Seq<char>, Seq<SymbolRef>)>)>, d: Def) -> Seq<(Seq<char>, Seq<(Seq<char>, Seq<SymbolRef>)>)> {
    let k = doc_index(docs, strip_html(url_part(d.url@)));
    if k >= 0 {
        docs.update(k, (docs[k].0, ids_with(docs[k].1, id_part(d.url@), d.symbol)))
    } else {
        docs
    }
}

/// The documents after all of `defs` were recorded.
pub open spec fn docs_after(docs: Seq<(Seq<char>, Seq<(Seq<char>, Seq<SymbolRef>)>)>, defs: Seq<Def>) -> Seq<(Seq<char>, Seq<(Seq<char>, Seq<SymbolRef>)>)>
    decreases defs.len(),
{
    if defs.len() == 0 {
        docs
    } else {
        docs_with(docs_after(docs, defs.drop_last()), defs.last())
    }
}

/// The view of a module: its URI and its symbols.
pub open spec fn module_view(m: InvModule) -> (Seq<char>, Seq<SymbolRef>) {
    (m.uri@, m.symbols@)
}

/// The modules after the symbol `s` was recorded, if it is of `archive`:
/// added to its module, which is created when new.
pub open spec fn modules_with(mods: Seq<(Seq<char>, Seq<SymbolRef>)>, s: SymbolRef, archive: Seq<char>) -> Seq<(Seq<char>, Seq<SymbolRef>)> {
    if s.archive@ == archive {
        let j = crate::extractor::lfind(mods, |m: (Seq<char>, Seq<SymbolRef>)| m.0 == s.module@);
        if j >= 0 {
            mods.update(j, (mods[j].0, mods[j].1.push(s)))
        } else {
            mods.push((s.module@, seq![s]))
        }
    } else {
        mods
    }
}

/// The modules after all of `defs` were recorded.
pub open spec fn modules_after(defs: Seq<Def>, archive: Seq<char>) -> Seq<(Seq<char>, Seq<SymbolRef>)>
    decreases defs.len(),
{
    if defs.len() == 0 {
        Seq::empty()
    } else {
        modules_with(modules_after(defs.drop_last(), archive), defs.last().symbol, archive)
    }
}

/// Whether `v` ends with `.html`.
fn ends_with_html(v: &Vec<char>, lo: usize, hi: usize) -> (r: bool)
    requires
        lo <= hi <= v@.len(),
    ensures
        r == (hi - lo >= 5 && v@.subrange(lo as int, hi as int).skip(hi - lo - 5) == html_suffix()),
{
    proof {
        reveal_strlit(".html");
    }
    let ghost s = v@.subrange(lo as int, hi as int);
    if hi - lo < 5 {
        return false;
    }
    let r = v[hi - 5] == '.' && v[hi - 4] == 'h' && v[hi - 3] == 't' && v[hi - 2] == 'm' && v[hi - 1] == 'l';
    if r {
        assert(s.skip(hi - lo - 5) =~= html_suffix());
    } else {
        assert(s.skip(hi - lo - 5) != html_suffix()) by {
            if s.skip(hi - lo - 5) == html_suffix() {
                assert(s.skip(hi - lo - 5)[0] == v@[hi - 5]);
                assert(s.skip(hi - lo - 5)[1] == v@[hi - 4]);
                assert(s.skip(hi - lo - 5)[2] == v@[hi - 3]);
                assert(s.skip(hi - lo - 5)[3] == v@[hi - 2]);
                assert(s.skip(hi - lo - 5)[4] == v@[hi - 1]);
            }
        }
    }
    r
}

/// The path a URL names: without a trailing `.html`.
pub fn doc_path(url: &str) -> (r: String)
    ensures
        r@ == strip_html(url@),
{
    let v = chars_of(url);
    assert(v@.subrange(0, v@.len() as int) =~= v@);
    if ends_with_html(&v, 0, v.len()) {
        url.substring_char(0, v.len() - 5).to_owned()
    } else {
        url.to_owned()
    }
}

/// The URL part and the id part of a definiendum's URL.
pub fn split_url(url: &str) -> (r: (String, String))
    ensures
        r.0@ == url_part(url@),
        r.1@ == id_part(url@),
{
    let v = chars_of(url);
    let ghost p = |c: char| c == '#';
    let mut i = v.len();
    while i > 0
        invariant
            v@ == url@,
            p == (|c: char| c == '#'),
            i <= v@.len(),
            forall|j: int| i <= j < v@.len() ==> !p(#[trigger] v@[j]),
        decreases i,
    {
        i = i - 1;
        if v[i] == '#' {
            proof {
                assert(p(v@[i as int]));
                crate::extractor::lemma_rfind(v@, p, i as int);
            }
            return (url.substring_char(0, i).to_owned(), url.substring_char(i + 1, v.len()).to_owned());
        }
    }
    proof {
        crate::extractor::lemma_rfind(v@, p, -1);
    }
    (url.to_owned(), String::new())
}

/// A copy of a symbol.
pub fn clone_symbol(s: &SymbolRef) -> (r: SymbolRef)
    ensures
        r == *s,
{
    SymbolRef { archive: s.archive.clone(), module: s.module.clone(), name: s.name.clone() }
}

/// The views of a list of documents.
pub open spec fn docs_view(docs: Seq<InvDocument>) -> Seq<(Seq<char>, Seq<(Seq<char>, Seq<SymbolRef>)>)> {
    docs.map_values(|d: InvDocument| doc_view(d))
}

/// The views of a list of modules.
pub open spec fn modules_view(mods: Seq<InvModule>) -> Seq<(Seq<char>, Seq<SymbolRef>)> {
    mods.map_values(|m: InvModule| module_view(m))
}

/// The documents of the learning objects, before any definiendum.
pub open spec fn initial_docs(los: Seq<InvLO>) -> Seq<(Seq<char>, Seq<(Seq<char>, Seq<SymbolRef>)>)> {
    los.map_values(|lo: InvLO| (strip_html(lo.url@), Seq::<(Seq<char>, Seq<SymbolRef>)>::empty()))
}

/// The documents in the end: an `index` document is added if there is
/// none.
pub open spec fn final_docs(los: Seq<InvLO>, defs: Seq<Def>) -> Seq<(Seq<char>, Seq<(Seq<char>, Seq<SymbolRef>)>)> {
    let d = docs_after(initial_docs(los), defs);
    if doc_index(d, "index"@) >= 0 {
        d
    } else {
        d.push(("index"@, Seq::empty()))
    }
}

/// Finds the first document with path `p`.
fn find_doc(docs: &Vec<InvDocument>, p: &String) -> (r: Option<usize>)
    ensures
        match r {
            Some(k) => k == doc_index(docs_view(docs@), p@) && k < docs@.len(),
            None => doc_index(docs_view(docs@), p@) == -1,
        },
{
    let ghost pr = |d: (Seq<char>, Seq<(Seq<char>, Seq<SymbolRef>)>)| d.0 == p@;
    let ghost dv = docs_view(docs@);
    let mut i: usize = 0;
    while i < docs.len()
        invariant
            pr == (|d: (Seq<char>, Seq<(Seq<char>, Seq<SymbolRef>)>)| d.0 == p@),
            dv == docs_view(docs@),
            i <= docs@.len(),
            forall|j: int| 0 <= j < i ==> !pr(#[trigger] dv[j]),
        decreases docs@.len() - i,
    {
        assert(dv[i as int] == doc_view(docs@[i as int]));
        if docs[i].path == *p {
            proof {
                crate::extractor::lemma_lfind(dv, pr, i as int);
            }
            return Some(i);
        }
        i = i + 1;
    }
    proof {
        crate::extractor::lemma_lfind(dv, pr, -1);
    }
    None
}

/// Adds `sym` under `id` to a document.
fn add_to_doc(doc: &mut InvDocument, id: String, sym: SymbolRef)
    ensures
        doc_view(*final(doc)) == (doc_view(*old(doc)).0, ids_with(doc_view(*old(doc)).1, id@, sym)),
        final(doc).modules == old(doc).modules,
{
    let ghost iv = doc_view(*doc).1;
    let ghost pr = |e: (Seq<char>, Seq<SymbolRef>)| e.0 == id@;
    let mut j: usize = 0;
    while j < doc.ids.len()
        invariant
            pr == (|e: (Seq<char>, Seq<SymbolRef>)| e.0 == id@),
            iv == doc_view(*doc).1,
            *doc == *old(doc),
            j <= doc.ids@.len(),
            forall|m: int| 0 <= m < j ==> !pr(#[trigger] iv[m]),
        decreases doc.ids@.len() - j,
    {
        assert(iv[j as int] == (doc.ids@[j as int].0@, doc.ids@[j as int].1@));
        if doc.ids[j].0 == id {
            proof {
                crate::extractor::lemma_lfind(iv, pr, j as int);
            }
            let (k, mut syms) = doc.ids.remove(j);
            syms.push(sym);
            doc.ids.insert(j, (k, syms));
            proof {
                assert(doc_view(*doc).1 =~= ids_with(iv, id@, sym));
            }
            return;
        }
        j = j + 1;
    }
    proof {
        crate::extractor::lemma_lfind(iv, pr, -1);
    }
    let mut syms = Vec::new();
    syms.push(sym);
    doc.ids.push((id, syms));
    proof {
        assert(doc_view(*doc).1 =~= ids_with(iv, id@, sym));
    }
}

/// Records the symbol `sym` in its module, if it is of `archive`.
fn add_to_modules(mods: &mut Vec<InvModule>, sym: SymbolRef, archive: &String)
    ensures
        modules_view(final(mods)@) == modules_with(modules_view(old(mods)@), sym, archive@),
{
    if sym.archive != *archive {
        return;
    }
    let ghost mv = modules_view(mods@);
    let ghost pr = |m: (Seq<char>, Seq<SymbolRef>)| m.0 == sym.module@;
    let mut j: usize = 0;
    while j < mods.len()
        invariant
            pr == (|m: (Seq<char>, Seq<SymbolRef>)| m.0 == sym.module@),
            sym.archive@ == archive@,
            mv == modules_view(mods@),
            mods@ == old(mods)@,
            j <= mods@.len(),
            forall|m: int| 0 <= m < j ==> !pr(#[trigger] mv[m]),
        decreases mods@.len() - j,
    {
        assert(mv[j as int] == module_view(mods@[j as int]));
        if mods[j].uri == sym.module {
            proof {
                crate::extractor::lemma_lfind(mv, pr, j as int);
            }
            let mut m = mods.remove(j);
            m.symbols.push(sym);
            mods.insert(j, m);
            proof {
                assert(mods@ =~= old(mods)@.update(j as int, mods@[j as int]));
                assert(module_view(mods@[j as int]) == (mv[j as int].0, mv[j as int].1.push(sym)));
                assert(modules_view(mods@) =~= modules_with(mv, sym, archive@));
            }
            return;
        }
        j = j + 1;
    }
    proof {
        crate::extractor::lemma_lfind(mv, pr, -1);
    }
    let mut syms = Vec::new();
    let uri = sym.module.clone();
    syms.push(sym);
    assert(syms@ =~= seq![sym]);
    mods.push(InvModule { uri, symbols: syms });
    proof {
        assert(module_view(mods@.last()) == (sym.module@, seq![sym]));
        assert(modules_view(mods@) =~= modules_with(mv, sym, archive@));
    }
}

/// The URIs of modules.
pub open spec fn module_uris(mods: Seq<(Seq<char>, Seq<SymbolRef>)>) -> Seq<Seq<char>> {
    mods.map_values(|m: (Seq<char>, Seq<SymbolRef>)| m.0)
}

/// The document paths an inventory names, in the order in which they are
/// checked: those of the learning objects, those of the definienda, and
/// `index`.
pub open spec fn checked_paths(los: Seq<InvLO>, defs: Seq<Def>) -> Seq<Seq<char>> {
    los.map_values(|lo: InvLO| strip_html(lo.url@)) + defs.map_values(|d: Def| strip_html(url_part(d.url@))) + seq![
        "index"@,
    ]
}

/// Whether the check `f` answered `b` for the path `p`.
pub open spec fn answers<F: Fn(String) -> bool>(f: F, p: Seq<char>, b: bool) -> bool {
    exists|x: String| x@ == p && #[trigger] call_ensures(f, (x,), b)
}

/// The source files registered for the first `n` learning objects: their
/// URLs.
pub open spec fn lo_urls(los: Seq<InvLO>, n: int) -> Seq<Seq<char>> {
    los.take(n).map_values(|lo: InvLO| lo.url@)
}

/// The texts of a list of strings.
pub open spec fn strs(v: Seq<String>) -> Seq<Seq<char>> {
    v.map_values(|s: String| s@)
}

/// Asks `valid` about the path `p`.
fn check_path<F: Fn(String) -> bool>(valid: &F, p: &String) -> (r: bool)
    requires
        forall|x: String| call_requires(*valid, (x,)),
    ensures
        answers(*valid, p@, r),
{
    let x = p.clone();
    let r = valid(x);
    assert(call_ensures(*valid, (x,), r));
    r
}

/// The documents and modules of an inventory of the archive `archive`:
/// one document per learning object, whose source file is registered in
/// `sources`, the definienda under the ids of their documents, the symbols
/// of the archive in their modules, and an `index` document that lists the
/// modules. Each document path is first put to `valid`, which says whether
/// it makes a document URI of the archive; the first path it refuses is
/// the error, and the learning objects before it stay registered.
pub fn do_los<F: Fn(String) -> bool>(
    los: Vec<InvLO>,
    defs: Vec<Def>,
    archive: &String,
    sources: &mut Vec<String>,
    valid: F,
) -> (r: Result<(Vec<InvDocument>, Vec<InvModule>), String>)
    requires
        forall|x: String| call_requires(valid, (x,)),
    ensures
        match r {
            Ok((docs, mods)) => {
                &&& forall|j: int|
                    0 <= j < checked_paths(los@, defs@).len() ==> answers(
                        valid,
                        #[trigger] checked_paths(los@, defs@)[j],
                        true,
                    )
                &&& strs(final(sources)@) == strs(old(sources)@) + lo_urls(los@, los@.len() as int)
                &&& docs_view(docs@) == final_docs(los@, defs@)
                &&& modules_view(mods@) == modules_after(defs@, archive@)
                &&& forall|i: int|
                    0 <= i < docs@.len() ==> (#[trigger] docs@[i]).modules@.map_values(|s: String| s@) == if i
                        == doc_index(final_docs(los@, defs@), "index"@) {
                        module_uris(modules_after(defs@, archive@))
                    } else {
                        Seq::empty()
                    }
            },
            Err(p) => exists|k: int|
                {
                    &&& 0 <= k < checked_paths(los@, defs@).len()
                    &&& p@ == #[trigger] checked_paths(los@, defs@)[k]
                    &&& answers(valid, p@, false)
                    &&& forall|j: int| 0 <= j < k ==> answers(valid, #[trigger] checked_paths(los@, defs@)[j], true)
                    &&& strs(final(sources)@) == strs(old(sources)@) + lo_urls(
                        los@,
                        if k < los@.len() {
                            k
                        } else {
                            los@.len() as int
                        },
                    )
                },
        },
{
    let ghost paths = checked_paths(los@, defs@);
    let ghost n = los@.len() as int;
    let ghost src0 = strs(sources@);
    assert(paths.len() == los@.len() + defs@.len() + 1);
    let mut docs: Vec<InvDocument> = Vec::new();
    let mut i: usize = 0;
    assert(lo_urls(los@, 0) =~= Seq::<Seq<char>>::empty());
    assert(strs(sources@) =~= src0 + lo_urls(los@, 0));
    while i < los.len()
        invariant
            i <= los@.len(),
            n == los@.len(),
            paths == checked_paths(los@, defs@),
            paths.len() == los@.len() + defs@.len() + 1,
            forall|x: String| call_requires(valid, (x,)),
            src0 == strs(old(sources)@),
            docs_view(docs@) == initial_docs(los@.take(i as int)),
            forall|m: int| 0 <= m < docs@.len() ==> (#[trigger] docs@[m]).modules@.len() == 0,
            strs(sources@) == src0 + lo_urls(los@, i as int),
            forall|j: int| 0 <= j < i ==> answers(valid, #[trigger] paths[j], true),
        decreases los@.len() - i,
    {
        let p = doc_path(los[i].url.as_str());
        assert(paths[i as int] == strip_html(los@[i as int].url@));
        if !check_path(&valid, &p) {
            assert(checked_paths(los@, defs@)[i as int] == p@);
            return Err(p);
        }
        let ghost prev = docs@;
        docs.push(InvDocument { path: p, modules: Vec::new(), ids: Vec::new() });
        let ghost sprev = strs(sources@);
        sources.push(los[i].url.clone());
        proof {
            let last = docs@.last();
            assert(last.ids@.map_values(|e: (String, Vec<SymbolRef>)| (e.0@, e.1@)) =~= Seq::<(Seq<char>, Seq<SymbolRef>)>::empty());
            assert(doc_view(last) == (strip_html(los@[i as int].url@), Seq::<(Seq<char>, Seq<SymbolRef>)>::empty()));
            assert(los@.take(i + 1) =~= los@.take(i as int).push(los@[i as int]));
            assert(docs_view(docs@) =~= docs_view(prev).push(doc_view(last)));
            assert(docs_view(docs@) =~= initial_docs(los@.take(i + 1)));
            assert(strs(sources@) =~= sprev.push(los@[i as int].url@));
            assert(lo_urls(los@, i + 1) =~= lo_urls(los@, i as int).push(los@[i as int].url@));
        }
        i = i + 1;
    }
    assert(los@.take(i as int) =~= los@);
    let mut mods: Vec<InvModule> = Vec::new();
    let mut d: usize = 0;
    assert(defs@.take(0) =~= Seq::<Def>::empty());
    while d < defs.len()
        invariant
            d <= defs@.len(),
            n == los@.len(),
            paths == checked_paths(los@, defs@),
            paths.len() == los@.len() + defs@.len() + 1,
            forall|x: String| call_requires(valid, (x,)),
            src0 == strs(old(sources)@),
            strs(sources@) == src0 + lo_urls(los@, n),
            forall|j: int| 0 <= j < n + d ==> answers(valid, #[trigger] paths[j], true),
            docs_view(docs@) == docs_after(initial_docs(los@), defs@.take(d as int)),
            modules_view(mods@) == modules_after(defs@.take(d as int), archive@),
            forall|m: int| 0 <= m < docs@.len() ==> (#[trigger] docs@[m]).modules@.len() == 0,
        decreases defs@.len() - d,
    {
        proof {
            assert(defs@.take(d + 1).drop_last() =~= defs@.take(d as int));
            assert(defs@.take(d + 1).last() == defs@[d as int]);
        }
        let (u, id) = split_url(defs[d].url.as_str());
        let p = doc_path(u.as_str());
        assert(paths[n + d] == strip_html(url_part(defs@[d as int].url@)));
        if !check_path(&valid, &p) {
            assert(checked_paths(los@, defs@)[n + d] == p@);
            assert(!(n + d < n));
            return Err(p);
        }
        let ghost before = docs@;
        match find_doc(&docs, &p) {
            Some(k) => {
                let mut doc = docs.remove(k);
                add_to_doc(&mut doc, id, clone_symbol(&defs[d].symbol));
                docs.insert(k, doc);
                proof {
                    assert(docs_view(docs@) =~= docs_with(docs_view(before), defs@[d as int]));
                    assert forall|m: int| 0 <= m < docs@.len() implies (#[trigger] docs@[m]).modules@.len() == 0 by {
                        if m != k {
                            assert(docs@[m] == before[m]);
                        }
                    }
                }
            },
            None => {},
        }
        add_to_modules(&mut mods, clone_symbol(&defs[d].symbol), archive);
        d = d + 1;
    }
    assert(defs@.take(d as int) =~= defs@);
    let mut uris: Vec<String> = Vec::new();
    let mut m: usize = 0;
    while m < mods.len()
        invariant
            m <= mods@.len(),
            uris@.map_values(|s: String| s@) == module_uris(modules_view(mods@)).take(m as int),
        decreases mods@.len() - m,
    {
        let ghost prev = uris@;
        uris.push(mods[m].uri.clone());
        proof {
            assert(uris@.map_values(|s: String| s@) =~= prev.map_values(|s: String| s@).push(mods@[m as int].uri@));
            assert(modules_view(mods@)[m as int] == module_view(mods@[m as int]));
            assert(uris@.map_values(|s: String| s@) =~= module_uris(modules_view(mods@)).take(m + 1));
        }
        m = m + 1;
    }
    assert(module_uris(modules_view(mods@)).take(m as int) =~= module_uris(modules_view(mods@)));
    let index = String::from_str("index");
    proof {
        reveal_strlit("index");
    }
    assert(paths[n + defs@.len()] == "index"@);
    if !check_path(&valid, &index) {
        assert(checked_paths(los@, defs@)[n + defs@.len()] == index@);
        return Err(index);
    }
    let ghost before = docs@;
    match find_doc(&docs, &index) {
        Some(k) => {
            let mut doc = docs.remove(k);
            doc.modules = uris;
            docs.insert(k, doc);
            proof {
                assert(docs_view(docs@) =~= docs_view(before));
                assert forall|i: int| 0 <= i < docs@.len() && i != k implies (#[trigger] docs@[i]).modules@.len() == 0 by {
                    assert(docs@[i] == before[i]);
                }
            }
        },
        None => {
            docs.push(InvDocument { path: index, modules: uris, ids: Vec::new() });
            proof {
                let last = docs@.last();
                assert(last.ids@.map_values(|e: (String, Vec<SymbolRef>)| (e.0@, e.1@)) =~= Seq::<(Seq<char>, Seq<SymbolRef>)>::empty());
                assert(doc_view(last) == ("index"@, Seq::<(Seq<char>, Seq<SymbolRef>)>::empty()));
                assert(docs_view(docs@) =~= docs_view(before).push(("index"@, Seq::empty())));
                assert(doc_index(docs_view(docs@), "index"@) == before.len()) by {
                    let pr = |dd: (Seq<char>, Seq<(Seq<char>, Seq<SymbolRef>)>)| dd.0 == "index"@;
                    assert forall|j: int| 0 <= j < docs@.len() && j < before.len() implies !pr(#[trigger] docs_view(docs@)[j]) by {
                        crate::extractor::lemma_lfind_none_at(docs_view(before), pr, j);
                        assert(docs_view(docs@)[j] == docs_view(before)[j]);
                    }
                    crate::extractor::lemma_lfind(docs_view(docs@), pr, before.len() as int);
                }
            }
        },
    }
    Ok((docs, mods))
}

} // verus!
