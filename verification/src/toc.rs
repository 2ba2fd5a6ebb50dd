//! The table of contents of a document: its entries, their walk in document
//! order, and what the counters of an inputref'd document owe to it.
use vstd::prelude::*;
use crate::extractor::ParagraphKind;

verus! {

/// An entry in a table of contents: a section (its title is HTML), a
/// section that is not shown, an inputref of another document (the URI of
/// the inputref'd document), a paragraph with its styles and kind, or a
/// slide.
pub enum TOCElem {
    Section { title: Option<String>, uri: String, id: String, children: Vec<TOCElem> },
    SkippedSection { children: Vec<TOCElem> },
    Inputref { uri: String, title: Option<String>, id: String, children: Vec<TOCElem> },
    Paragraph { styles: Vec<String>, kind: ParagraphKind },
    Slide,
}

/// The entries of `s` in document order: each entry, then the entries
/// below it.
pub open spec fn preorder(s: Seq<TOCElem>) -> Seq<TOCElem>
    decreases s,
{
    if s.len() == 0 {
        Seq::empty()
    } else {
        let e = s[s.len() - 1];
        let below = match e {
            TOCElem::Section { children, .. } => preorder(children@),
            TOCElem::SkippedSection { children } => preorder(children@),
            TOCElem::Inputref { children, .. } => preorder(children@),
            _ => Seq::empty(),
        };
        preorder(s.drop_last()) + seq![e] + below
    }
}

/// Appends the entries of `elems` in document order to `out`.
fn push_preorder<'a>(elems: &'a Vec<TOCElem>, out: &mut Vec<&'a TOCElem>)
    ensures
        final(out)@.len() == old(out)@.len() + preorder(elems@).len(),
        forall|i: int| 0 <= i < old(out)@.len() ==> final(out)@[i] == old(out)@[i],
        forall|i: int|
            0 <= i < preorder(elems@).len() ==> *final(out)@[old(out)@.len() + i] == preorder(elems@)[i],
    decreases elems@,
{
    let mut i: usize = 0;
    while i < elems.len()
        invariant
            i <= elems@.len(),
            out@.len() == old(out)@.len() + preorder(elems@.take(i as int)).len(),
            forall|j: int| 0 <= j < old(out)@.len() ==> out@[j] == old(out)@[j],
            forall|j: int|
                0 <= j < preorder(elems@.take(i as int)).len() ==> *out@[old(out)@.len() + j]
                    == preorder(elems@.take(i as int))[j],
        decreases elems@.len() - i,
    {
        let ghost before = out@;
        let e = &elems[i];
        out.push(e);
        let ghost t = elems@.take(i as int + 1);
        proof {
            assert(t.drop_last() =~= elems@.take(i as int));
            assert(t[t.len() - 1] == elems@[i as int]);
        }
        match e {
            TOCElem::Section { children, .. } => {
                push_preorder(children, out);
            },
            TOCElem::SkippedSection { children } => {
                push_preorder(children, out);
            },
            TOCElem::Inputref { children, .. } => {
                push_preorder(children, out);
            },
            _ => {},
        }
        i = i + 1;
    }
    proof {
        assert(elems@.take(elems@.len() as int) =~= elems@);
    }
}

/// The entries of a table of contents in document order.
pub fn iter_elems(toc: &Vec<TOCElem>) -> (r: Vec<&TOCElem>)
    ensures
        r@.len() == preorder(toc@).len(),
        forall|i: int| 0 <= i < r@.len() ==> *r@[i] == preorder(toc@)[i],
{
    let mut out: Vec<&TOCElem> = Vec::new();
    push_preorder(toc, &mut out);
    out
}


/// `preorder` of a prefix is no longer than `preorder` of the whole.
pub proof fn lemma_preorder_prefix(s: Seq<TOCElem>, i: int)
    requires
        0 <= i <= s.len(),
    ensures
        preorder(s.take(i)).len() <= preorder(s).len(),
    decreases s.len() - i,
{
    if i < s.len() {
        assert(s.drop_last().take(i) =~= s.take(i));
        lemma_preorder_prefix(s.drop_last(), i);
        assert(s.drop_last().take(s.drop_last().len() as int) =~= s.drop_last());
    } else {
        assert(s.take(i) =~= s);
    }
}

/// The entries of two tables of contents in turn, in document order, are
/// those of the first followed by those of the second.
pub proof fn law_preorder_concat(a: Seq<TOCElem>, b: Seq<TOCElem>)
    ensures
        preorder(a + b) == preorder(a) + preorder(b),
    decreases b.len(),
{
    if b.len() == 0 {
        assert(a + b =~= a);
        assert(preorder(a) + preorder(b) =~= preorder(a));
    } else {
        law_preorder_concat(a, b.drop_last());
        assert((a + b).drop_last() =~= a + b.drop_last());
        assert((a + b)[(a + b).len() - 1] == b[b.len() - 1]);
        let e = b[b.len() - 1];
        let below = match e {
            TOCElem::Section { children, .. } => preorder(children@),
            TOCElem::SkippedSection { children } => preorder(children@),
            TOCElem::Inputref { children, .. } => preorder(children@),
            _ => Seq::empty(),
        };
        assert(preorder(a + b) == preorder(a + b.drop_last()) + seq![e] + below);
        assert(preorder(b) == preorder(b.drop_last()) + seq![e] + below);
        assert(preorder(a + b) =~= preorder(a) + preorder(b));
    }
}

/// Whether `e` is an inputref of the document `uri` with the id `id`.
pub open spec fn is_inputref_of(e: TOCElem, uri: Seq<char>, id: Seq<char>) -> bool {
    e matches TOCElem::Inputref { uri: u, id: i, .. } && u@ == uri && i@ == id
}

/// The entries below the first inputref of `uri` with the id `id`, in
/// document order, if there is one.
pub fn find_inputref<'a>(toc: &'a Vec<TOCElem>, uri: &String, id: &String) -> (r: Option<&'a Vec<TOCElem>>)
    ensures
        ({
            let k = crate::extractor::lfind(preorder(toc@), |e: TOCElem| is_inputref_of(e, uri@, id@));
            match r {
                Some(ch) => k >= 0 && (preorder(toc@)[k] matches TOCElem::Inputref { children, .. } && *ch == children),
                None => k == -1,
            }
        }),
{
    let elems = iter_elems(toc);
    let ghost p = |e: TOCElem| is_inputref_of(e, uri@, id@);
    let ghost pre = preorder(toc@);
    let mut i: usize = 0;
    while i < elems.len()
        invariant
            p == (|e: TOCElem| is_inputref_of(e, uri@, id@)),
            pre == preorder(toc@),
            elems@.len() == pre.len(),
            forall|j: int| 0 <= j < elems@.len() ==> *elems@[j] == pre[j],
            i <= elems@.len(),
            forall|j: int| 0 <= j < i ==> !p(#[trigger] pre[j]),
        decreases elems@.len() - i,
    {
        let e: &TOCElem = elems[i];
        if let TOCElem::Inputref { uri: u, id: d, children, .. } = e {
            if *u == *uri && *d == *id {
                proof {
                    assert(p(pre[i as int]));
                    crate::extractor::lemma_lfind(pre, p, i as int);
                }
                return Some(children);
            }
        }
        proof {
            assert(!p(pre[i as int]));
        }
        i = i + 1;
    }
    proof {
        crate::extractor::lemma_lfind(pre, p, -1);
    }
    None
}


/// The URIs and titles of the inputrefs that have a title, in document
/// order.
pub open spec fn titled_inputrefs(p: Seq<TOCElem>) -> Seq<(Seq<char>, Seq<char>)>
    decreases p.len(),
{
    if p.len() == 0 {
        Seq::empty()
    } else {
        let rest = titled_inputrefs(p.drop_last());
        match p.last() {
            TOCElem::Inputref { uri, title: Some(t), .. } => rest.push((uri@, t@)),
            _ => rest,
        }
    }
}

/// The URIs and titles of the titled inputrefs of a table of contents, in
/// document order: the titles a navigation shows for those documents.
pub fn inputref_titles(toc: &Vec<TOCElem>) -> (r: Vec<(String, String)>)
    ensures
        r@.len() == titled_inputrefs(preorder(toc@)).len(),
        forall|i: int|
            0 <= i < r@.len() ==> (#[trigger] r@[i]).0@ == titled_inputrefs(preorder(toc@))[i].0 && r@[i].1@
                == titled_inputrefs(preorder(toc@))[i].1,
{
    let elems = iter_elems(toc);
    let ghost pre = preorder(toc@);
    let mut r: Vec<(String, String)> = Vec::new();
    let mut i: usize = 0;
    while i < elems.len()
        invariant
            pre == preorder(toc@),
            elems@.len() == pre.len(),
            forall|j: int| 0 <= j < elems@.len() ==> *elems@[j] == pre[j],
            i <= elems@.len(),
            r@.len() == titled_inputrefs(pre.take(i as int)).len(),
            forall|j: int|
                0 <= j < r@.len() ==> (#[trigger] r@[j]).0@ == titled_inputrefs(pre.take(i as int))[j].0 && r@[j].1@
                    == titled_inputrefs(pre.take(i as int))[j].1,
        decreases elems@.len() - i,
    {
        let ghost t = pre.take(i as int + 1);
        proof {
            assert(t.drop_last() =~= pre.take(i as int));
            assert(t.last() == pre[i as int]);
        }
        let e: &TOCElem = elems[i];
        if let TOCElem::Inputref { uri, title: Some(title), .. } = e {
            r.push((uri.clone(), title.clone()));
        }
        i = i + 1;
    }
    proof {
        assert(pre.take(pre.len() as int) =~= pre);
    }
    r
}

/// A section that has been covered, at the given time (milliseconds since
/// the epoch), if known; a table of contents marks it.
pub struct Gotto {
    pub uri: String,
    pub timestamp: Option<u64>,
}

/// Whether some section among `p` has the URI `uri`.
pub open spec fn has_section(p: Seq<TOCElem>, uri: Seq<char>) -> bool {
    exists|j: int| 0 <= j < p.len() && (#[trigger] p[j] matches TOCElem::Section { uri: u, .. } && u@ == uri)
}

/// The gottos whose section is among the entries `p`, in their order.
pub open spec fn covered(p: Seq<TOCElem>, gs: Seq<Gotto>) -> Seq<Gotto>
    decreases gs.len(),
{
    if gs.len() == 0 {
        Seq::empty()
    } else {
        let rest = covered(p, gs.drop_last());
        if has_section(p, gs.last().uri@) {
            rest.push(gs.last())
        } else {
            rest
        }
    }
}

/// Whether some section of `elems` has the URI `uri`.
fn find_section(elems: &Vec<&TOCElem>, uri: &String) -> (r: bool)
    ensures
        r == exists|j: int|
            0 <= j < elems@.len() && (#[trigger] elems@[j] matches TOCElem::Section { uri: u, .. } && u@ == uri@),
{
    let mut j: usize = 0;
    while j < elems.len()
        invariant
            j <= elems@.len(),
            forall|k: int| 0 <= k < j ==> !(#[trigger] elems@[k] matches TOCElem::Section { uri: u, .. } && u@ == uri@),
        decreases elems@.len() - j,
    {
        let e: &TOCElem = elems[j];
        if let TOCElem::Section { uri: u, .. } = e {
            if *u == *uri {
                return true;
            }
        }
        j = j + 1;
    }
    false
}

/// Keeps the gottos whose section is in the table of contents.
pub fn covered_gottos(toc: &Vec<TOCElem>, gottos: Vec<Gotto>) -> (r: Vec<Gotto>)
    ensures
        r@ == covered(preorder(toc@), gottos@),
{
    let elems = iter_elems(toc);
    let ghost pre = preorder(toc@);
    let mut r: Vec<Gotto> = Vec::new();
    let mut gs = gottos;
    let ghost all = gs@;
    let mut i: usize = 0;
    proof {
        assert(all.take(0) =~= Seq::<Gotto>::empty());
    }
    while i < gs.len()
        invariant
            pre == preorder(toc@),
            all == gottos@,
            gs@ == all,
            elems@.len() == pre.len(),
            forall|j: int| 0 <= j < elems@.len() ==> *elems@[j] == pre[j],
            i <= gs@.len(),
            r@ == covered(pre, all.take(i as int)),
        decreases gs@.len() - i,
    {
        let ghost t = all.take(i as int + 1);
        proof {
            assert(t.drop_last() =~= all.take(i as int));
            assert(t.last() == all[i as int]);
        }
        let found = find_section(&elems, &gs[i].uri);
        proof {
            if found {
                let j = choose|j: int|
                    0 <= j < elems@.len() && (#[trigger] elems@[j] matches TOCElem::Section { uri: u, .. } && u@ == gs@[i as int].uri@);
                assert(pre[j] == *elems@[j]);
            } else {
                assert forall|j: int| 0 <= j < pre.len() implies !(#[trigger] pre[j] matches TOCElem::Section { uri: u, .. } && u@ == gs@[i as int].uri@) by {
                    assert(pre[j] == *elems@[j]);
                }
            }
        }
        if found {
            let g = Gotto { uri: gs[i].uri.clone(), timestamp: gs[i].timestamp };
            r.push(g);
        }
        i = i + 1;
    }
    proof {
        assert(all.take(all.len() as int) =~= all);
    }
    r
}


/// The gotto that a table of contents marks next, and those after it.
pub struct Gottos {
    pub current: Option<Gotto>,
    pub rest: Vec<Gotto>,
}

impl Gottos {
    /// Starts with the first of `gottos`.
    pub fn new(gottos: Vec<Gotto>) -> (r: Self)
        ensures
            gottos@.len() == 0 ==> r.current is None && r.rest@.len() == 0,
            gottos@.len() > 0 ==> r.current == Some(gottos@[0]) && r.rest@ == gottos@.drop_first(),
    {
        let mut rest = gottos;
        if rest.len() == 0 {
            Gottos { current: None, rest }
        } else {
            let first = rest.remove(0);
            Gottos { current: Some(first), rest }
        }
    }

    /// Passes the section `uri`: when it is the current gotto's section, the
    /// next gotto becomes current.
    pub fn next(&mut self, uri: &String)
        ensures
            match old(self).current {
                Some(c) if c.uri@ == uri@ => {
                    &&& old(self).rest@.len() == 0 ==> final(self).current is None && final(self).rest@.len() == 0
                    &&& old(self).rest@.len() > 0 ==> final(self).current == Some(old(self).rest@[0])
                        && final(self).rest@ == old(self).rest@.drop_first()
                },
                _ => *final(self) == *old(self),
            },
    {
        let hit = match &self.current {
            Some(c) => c.uri == *uri,
            None => false,
        };
        if hit {
            if self.rest.len() == 0 {
                self.current = None;
            } else {
                let n = self.rest.remove(0);
                self.current = Some(n);
            }
        }
    }
}

/// The state of the gottos after passing the entries `p` in order: each
/// section passed as `Gottos::next` says.
pub open spec fn pass(p: Seq<TOCElem>, cur: Option<Gotto>, rest: Seq<Gotto>) -> (Option<Gotto>, Seq<Gotto>)
    decreases p.len(),
{
    if p.len() == 0 {
        (cur, rest)
    } else {
        let (c, r) = pass(p.drop_last(), cur, rest);
        match p.last() {
            TOCElem::Section { uri, .. } => match c {
                Some(g) if g.uri@ == uri@ => if r.len() == 0 {
                    (None, r)
                } else {
                    (Some(r[0]), r.drop_first())
                },
                _ => (c, r),
            },
            _ => (c, r),
        }
    }
}

/// The mark of the `i`-th entry of `p`: `None` when no gotto is left when
/// it is reached, else the time of the current gotto then (covered).
pub open spec fn mark_at(p: Seq<TOCElem>, cur: Option<Gotto>, rest: Seq<Gotto>, i: int) -> Option<Option<u64>> {
    match pass(p.take(i), cur, rest).0 {
        Some(g) => Some(g.timestamp),
        None => None,
    }
}

/// The marks of the entries of a table of contents in document order, for
/// the gottos whose sections it holds: an entry is marked as covered while
/// a gotto is left, with that gotto's time; passing the section of the
/// current gotto moves on to the next.
pub fn toc_marks(toc: &Vec<TOCElem>, gottos: Vec<Gotto>) -> (r: Vec<Option<Option<u64>>>)
    ensures
        ({
            let p = preorder(toc@);
            let gs = covered(p, gottos@);
            &&& r@.len() == p.len()
            &&& forall|i: int| 0 <= i < p.len() ==> #[trigger] r@[i] == if gs.len() == 0 {
                None
            } else {
                mark_at(p, Some(gs[0]), gs.drop_first(), i)
            }
        }),
{
    let kept = covered_gottos(toc, gottos);
    let ghost gs = kept@;
    let mut state = Gottos::new(kept);
    let elems = iter_elems(toc);
    let ghost pre = preorder(toc@);
    let ghost c0 = state.current;
    let ghost r0 = state.rest@;
    let mut r: Vec<Option<Option<u64>>> = Vec::new();
    let mut i: usize = 0;
    proof {
        assert(pre.take(0) =~= Seq::<TOCElem>::empty());
    }
    while i < elems.len()
        invariant
            pre == preorder(toc@),
            elems@.len() == pre.len(),
            forall|j: int| 0 <= j < elems@.len() ==> *elems@[j] == pre[j],
            i <= elems@.len(),
            (state.current, state.rest@) == pass(pre.take(i as int), c0, r0),
            r@.len() == i,
            forall|j: int| 0 <= j < i ==> #[trigger] r@[j] == mark_at(pre, c0, r0, j),
        decreases elems@.len() - i,
    {
        let ghost t = pre.take(i as int + 1);
        proof {
            assert(t.drop_last() =~= pre.take(i as int));
            assert(t.last() == pre[i as int]);
        }
        let m = match &state.current {
            Some(g) => Some(g.timestamp),
            None => None,
        };
        r.push(m);
        let e: &TOCElem = elems[i];
        if let TOCElem::Section { uri, .. } = e {
            state.next(uri);
        }
        i = i + 1;
    }
    proof {
        if gs.len() == 0 {
            assert forall|j: int| 0 <= j < pre.len() implies pass(pre.take(j), c0, r0).0 is None by {
                lemma_pass_none(pre.take(j), r0);
            }
        }
    }
    r
}

/// With no gotto left, passing entries leaves none.
proof fn lemma_pass_none(p: Seq<TOCElem>, rest: Seq<Gotto>)
    requires
        rest.len() == 0,
    ensures
        pass(p, None, rest).0 is None,
    decreases p.len(),
{
    if p.len() > 0 {
        lemma_pass_none(p.drop_last(), rest);
    }
}

} // verus!
