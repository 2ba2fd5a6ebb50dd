//! The parsed document as a tree of nodes, with the byte ranges its
//! elements take in the serialized document, and the deletion of nodes that
//! keeps those ranges up to date.
use vstd::prelude::*;
use crate::closing::OpenFTMLElement;
use crate::extractor::OpNotation;
use crate::html_len::attributes_len;
use crate::html_len::{local_is, ElementData};
use crate::text::{byte_len, bytes_len, chars_of, trim, trim_bounds};
use vstd::string::StringExecFns;

verus! {

/// A node of the parsed document.
pub enum DomNode<T> {
    Document(Vec<DomNode<T>>),
    Doctype(String),
    Text(String),
    Comment(String),
    ProcessingInstruction(String, String),
    /// An element, the FTML elements it opened, and its children.
    Element(ElementData, Vec<OpenFTMLElement<T>>, Vec<DomNode<T>>),
}

/// The number of bytes a node takes in the serialized document: the
/// recorded range of an element, the text of a text node, nothing for a
/// comment, the markup of a doctype or processing instruction, and the sum
/// of the children of the document.
pub open spec fn node_len<T>(n: DomNode<T>) -> int
    decreases n,
{
    match n {
        DomNode::Document(cs) => children_len(cs@),
        DomNode::Doctype(name) => 11 + bytes_len(name@) as int,
        DomNode::Text(t) => bytes_len(t@) as int,
        DomNode::Comment(_) => 0,
        DomNode::ProcessingInstruction(t, d) => 4 + bytes_len(t@) as int + bytes_len(d@) as int,
        DomNode::Element(e, _, _) => e.end_offset - e.start_offset,
    }
}

/// The sum of the lengths of the nodes `s`.
pub open spec fn children_len<T>(s: Seq<DomNode<T>>) -> int
    decreases s,
{
    if s.len() == 0 {
        0
    } else {
        children_len(s.drop_last()) + node_len(s[s.len() - 1])
    }
}


/// Whether the length of `n` can be computed without underflow or
/// overflow: an element ends no earlier than it starts, markup lengths fit,
/// and the children of a document can be summed.
pub open spec fn len_ok<T>(n: DomNode<T>) -> bool
    decreases n,
{
    match n {
        DomNode::Document(cs) => children_ok(cs@),
        DomNode::Doctype(name) => 11 + bytes_len(name@) <= usize::MAX,
        DomNode::ProcessingInstruction(t, d) => 4 + bytes_len(t@) + bytes_len(d@) <= usize::MAX,
        DomNode::Element(e, _, _) => e.start_offset <= e.end_offset,
        _ => true,
    }
}

/// Whether the lengths of the nodes `s` can be computed and summed.
pub open spec fn children_ok<T>(s: Seq<DomNode<T>>) -> bool
    decreases s,
{
    if s.len() == 0 {
        true
    } else {
        children_ok(s.drop_last()) && len_ok(s[s.len() - 1]) && children_len(s) <= usize::MAX
    }
}

/// Lengths that can be computed are not negative.
pub proof fn lemma_len_nonneg<T>(n: DomNode<T>)
    requires
        len_ok(n),
    ensures
        node_len(n) >= 0,
    decreases n,
{
    if let DomNode::Document(cs) = n {
        lemma_children_len_nonneg(cs@);
    }
}

/// Sums of lengths that can be computed are not negative.
pub proof fn lemma_children_len_nonneg<T>(s: Seq<DomNode<T>>)
    requires
        children_ok(s),
    ensures
        children_len(s) >= 0,
    decreases s,
{
    if s.len() > 0 {
        lemma_children_len_nonneg(s.drop_last());
        lemma_len_nonneg(s[s.len() - 1]);
    }
}

impl<T> DomNode<T> {
    /// The number of bytes the node takes in the serialized document.
    pub fn len(&self) -> (r: usize)
        requires
            len_ok(*self),
        ensures
            r == node_len(*self),
        decreases *self,
    {
        match self {
            DomNode::Document(cs) => {
                let mut sum: usize = 0;
                let mut i: usize = 0;
                proof {
                    assert forall|j: int| 0 <= j <= cs@.len() implies children_ok(#[trigger] cs@.take(j)) by {
                        lemma_children_ok_prefix(cs@, j);
                    }
                }
                while i < cs.len()
                    invariant
                        *self == DomNode::<T>::Document(*cs),
                        i <= cs@.len(),
                        children_ok(cs@),
                        sum == children_len(cs@.take(i as int)),
                        forall|j: int| 0 <= j <= cs@.len() ==> children_ok(#[trigger] cs@.take(j)),
                    decreases cs@.len() - i,
                {
                    let ghost t = cs@.take(i as int + 1);
                    proof {
                        assert(t.drop_last() =~= cs@.take(i as int));
                        assert(t[t.len() - 1] == cs@[i as int]);
                        assert(children_ok(t));
                        assert(decreases_to!(*self => self->Document_0));
                        assert(self->Document_0 == *cs);
                        assert(decreases_to!(*cs => cs@));
                        assert(decreases_to!(cs@ => cs@[i as int]));
                    }
                    let l = cs[i].len();
                    sum = sum + l;
                    i = i + 1;
                }
                proof {
                    assert(cs@.take(cs@.len() as int) =~= cs@);
                }
                sum
            },
            DomNode::Doctype(name) => 11 + byte_len(name.as_str()),
            DomNode::Text(t) => byte_len(t.as_str()),
            DomNode::Comment(_) => 0,
            DomNode::ProcessingInstruction(t, d) => 4 + byte_len(t.as_str()) + byte_len(d.as_str()),
            DomNode::Element(e, _, _) => e.end_offset - e.start_offset,
        }
    }
}

/// Every prefix of nodes whose lengths can be summed can be summed too.
pub proof fn lemma_children_ok_prefix<T>(s: Seq<DomNode<T>>, j: int)
    requires
        children_ok(s),
        0 <= j <= s.len(),
    ensures
        children_ok(s.take(j)),
    decreases s.len() - j,
{
    if j < s.len() {
        assert(s.drop_last().take(j) =~= s.take(j));
        lemma_children_ok_prefix(s.drop_last(), j);
    } else {
        assert(s.take(j) =~= s);
    }
}


/// Whether `p` leads from `n` to one of its descendants: each step is the
/// index of a child.
pub open spec fn valid_path<T>(n: DomNode<T>, p: Seq<usize>) -> bool
    decreases p.len(),
{
    p.len() >= 1 && match n {
        DomNode::Document(cs) => p[0] < cs@.len() && (p.len() == 1 || valid_path(cs@[p[0] as int], p.drop_first())),
        DomNode::Element(_, _, cs) => p[0] < cs@.len() && (p.len() == 1 || valid_path(cs@[p[0] as int], p.drop_first())),
        _ => false,
    }
}

/// The children of a document or an element; none for other nodes.
pub open spec fn children_of<T>(n: DomNode<T>) -> Seq<DomNode<T>> {
    match n {
        DomNode::Document(cs) => cs@,
        DomNode::Element(_, _, cs) => cs@,
        _ => Seq::empty(),
    }
}

/// The node that `p` leads to from `n`.
pub open spec fn at_path<T>(n: DomNode<T>, p: Seq<usize>) -> DomNode<T>
    decreases p.len(),
{
    if p.len() <= 1 {
        children_of(n)[p[0] as int]
    } else {
        at_path(children_of(n)[p[0] as int], p.drop_first())
    }
}

/// Whether every element offset in `n` is at most `isize::MAX`, as byte
/// offsets into a document in memory are.
pub open spec fn offsets_fit<T>(n: DomNode<T>) -> bool
    decreases n,
{
    match n {
        DomNode::Document(cs) => forall|i: int| 0 <= i < cs@.len() ==> offsets_fit(#[trigger] cs@[i]),
        DomNode::Element(e, _, cs) => e.start_offset <= isize::MAX && e.end_offset <= isize::MAX && forall|i: int|
            0 <= i < cs@.len() ==> offsets_fit(#[trigger] cs@[i]),
        _ => true,
    }
}

/// The element data `e` with its range moved back by `l` bytes.
pub open spec fn moved_data(e: ElementData, l: usize) -> ElementData {
    ElementData { start_offset: e.start_offset.wrapping_sub(l), end_offset: e.end_offset.wrapping_sub(l), ..e }
}

/// The element data `e` with its end moved back by `l` bytes.
pub open spec fn shrunk_data(e: ElementData, l: usize) -> ElementData {
    ElementData { end_offset: e.end_offset.wrapping_sub(l), ..e }
}

/// The node `n` moved back by `l` bytes: the range of an element moves,
/// its descendants stay; other nodes have no range.
pub open spec fn moved<T>(n: DomNode<T>, l: usize) -> DomNode<T> {
    match n {
        DomNode::Element(e, f, cs) => DomNode::Element(moved_data(e, l), f, cs),
        _ => n,
    }
}

/// `n2` is `n` after deleting the node that `p` leads to, which takes `l`
/// bytes: every element on the way ends `l` bytes earlier, every element
/// after the way, among the siblings of the nodes on it, moves back by `l`
/// bytes, and the node leaves its parent.
pub open spec fn deleted<T>(n: DomNode<T>, n2: DomNode<T>, p: Seq<usize>, l: usize) -> bool
    decreases p.len(), 1int,
{
    match (n, n2) {
        (DomNode::Document(cs), DomNode::Document(cs2)) => children_deleted(cs@, cs2@, p, l),
        (DomNode::Element(e, f, cs), DomNode::Element(e2, f2, cs2)) => e2 == shrunk_data(e, l) && f2 == f
            && children_deleted(cs@, cs2@, p, l),
        _ => false,
    }
}

/// `cs2` are the children `cs` after deleting the node that `p` leads to
/// from their parent, which takes `l` bytes.
pub open spec fn children_deleted<T>(cs: Seq<DomNode<T>>, cs2: Seq<DomNode<T>>, p: Seq<usize>, l: usize) -> bool
    decreases p.len(), 0int,
{
    let i = p[0] as int;
    if p.len() <= 1 {
        &&& cs2.len() == cs.len() - 1
        &&& forall|j: int| 0 <= j < i ==> #[trigger] cs2[j] == cs[j]
        &&& forall|j: int| i <= j < cs2.len() ==> #[trigger] cs2[j] == moved(cs[j + 1], l)
    } else {
        &&& cs2.len() == cs.len()
        &&& forall|j: int| 0 <= j < i ==> #[trigger] cs2[j] == cs[j]
        &&& deleted(cs[i], cs2[i], p.drop_first(), l)
        &&& forall|j: int| i < j < cs2.len() ==> #[trigger] cs2[j] == moved(cs[j], l)
    }
}


/// Moves the range of an element back by `l` bytes.
fn move_back<T>(n: DomNode<T>, l: usize) -> (r: DomNode<T>)
    ensures
        r == moved(n, l),
{
    match n {
        DomNode::Element(mut e, f, cs) => {
            e.start_offset = e.start_offset.wrapping_sub(l);
            e.end_offset = e.end_offset.wrapping_sub(l);
            DomNode::Element(e, f, cs)
        },
        other => other,
    }
}

/// The node that `path[depth..]` leads to from `n`.
fn node_at<'a, T>(n: &'a DomNode<T>, path: &Vec<usize>, depth: usize) -> (r: &'a DomNode<T>)
    requires
        depth < path@.len(),
        valid_path(*n, path@.skip(depth as int)),
    ensures
        *r == at_path(*n, path@.skip(depth as int)),
    decreases path@.len() - depth,
{
    let ghost p = path@.skip(depth as int);
    let cs = match n {
        DomNode::Document(cs) => cs,
        DomNode::Element(_, _, cs) => cs,
        _ => {
            proof {
                assert(false);
            }
            return n;
        },
    };
    let i = path[depth];
    assert(p[0] == i);
    let n_steps = path.len();
    if depth + 1 == n_steps {
        &cs[i]
    } else {
        proof {
            assert(p.drop_first() =~= path@.skip(depth + 1));
        }
        node_at(&cs[i], path, depth + 1)
    }
}

/// Deletes the node that `path[depth..]` leads to from `n`, taking `l`
/// bytes, as `deleted` says.
fn delete_in<T>(n: &mut DomNode<T>, path: &Vec<usize>, depth: usize, l: usize)
    requires
        depth < path@.len(),
        valid_path(*old(n), path@.skip(depth as int)),
    ensures
        deleted(*old(n), *final(n), path@.skip(depth as int), l),
    decreases path@.len() - depth, 1int,
{
    let ghost p = path@.skip(depth as int);
    proof {
        assert(p[0] == path@[depth as int]);
        if depth + 1 < path@.len() {
            assert(p.drop_first() =~= path@.skip(depth + 1));
        }
    }
    match n {
        DomNode::Document(cs) => {
            delete_among(cs, path, depth, l);
        },
        DomNode::Element(e, _, cs) => {
            e.end_offset = e.end_offset.wrapping_sub(l);
            delete_among(cs, path, depth, l);
        },
        _ => {
            proof {
                assert(false);
            }
        },
    }
}

/// Deletes the node that `path[depth..]` leads to among the children `cs`,
/// taking `l` bytes, as `children_deleted` says.
fn delete_among<T>(cs: &mut Vec<DomNode<T>>, path: &Vec<usize>, depth: usize, l: usize)
    requires
        depth < path@.len(),
        path@[depth as int] < old(cs)@.len(),
        depth + 1 < path@.len() ==> valid_path(old(cs)@[path@[depth as int] as int], path@.skip(depth + 1)),
    ensures
        children_deleted(old(cs)@, final(cs)@, path@.skip(depth as int), l),
    decreases path@.len() - depth, 0int,
{
    let ghost p = path@.skip(depth as int);
    let ghost old_cs = cs@;
    let i = path[depth];
    assert(p[0] == i);
    let n_steps = path.len();
    let last = depth + 1 == n_steps;
    let mut j: usize;
    if last {
        cs.remove(i);
        j = i;
    } else {
        proof {
            assert(p.drop_first() =~= path@.skip(depth + 1));
        }
        let mut c = cs.remove(i);
        delete_in(&mut c, path, depth + 1, l);
        cs.insert(i, c);
        let len_now = cs.len();
        assert(i < len_now);
        j = i + 1;
    }
    let ghost mid = cs@;
    while j < cs.len()
        invariant
            i <= j <= cs@.len(),
            last ==> j >= i,
            !last ==> j >= i + 1,
            cs@.len() == mid.len(),
            forall|k: int| 0 <= k < (if last { i as int } else { i + 1 }) ==> #[trigger] cs@[k] == mid[k],
            forall|k: int| j <= k < cs@.len() ==> #[trigger] cs@[k] == mid[k],
            forall|k: int| (if last { i as int } else { i + 1 }) <= k < j ==> #[trigger] cs@[k] == moved(mid[k], l),
        decreases cs@.len() - j,
    {
        let c = cs.remove(j);
        cs.insert(j, move_back(c, l));
        j = j + 1;
    }
    proof {
        if last {
            assert forall|k: int| 0 <= k < i implies #[trigger] cs@[k] == old_cs[k] by {
                assert(mid[k] == old_cs[k]);
            }
            assert forall|k: int| i <= k < cs@.len() implies #[trigger] cs@[k] == moved(old_cs[k + 1], l) by {
                assert(mid[k] == old_cs[k + 1]);
            }
        }
    }
}

impl<T> DomNode<T> {
    /// Deletes the node that `path` leads to, as `deleted` says: the
    /// elements on the way end earlier by its length, the elements after
    /// it and after its ancestors move back by it, and it leaves its
    /// parent.
    pub fn delete(&mut self, path: &Vec<usize>)
        requires
            valid_path(*old(self), path@),
            len_ok(at_path(*old(self), path@)),
            node_len(at_path(*old(self), path@)) <= isize::MAX,
            offsets_fit(*old(self)),
        ensures
            deleted(*old(self), *final(self), path@, node_len(at_path(*old(self), path@)) as usize),
    {
        proof {
            assert(path@.skip(0) =~= path@);
        }
        let l = node_at(self, path, 0).len();
        delete_in(self, path, 0, l);
    }
}


/// Moving `n` back by `l` bytes does not wrap around.
pub open spec fn moves_safely<T>(n: DomNode<T>, l: usize) -> bool {
    n matches DomNode::Element(e, _, _) ==> e.start_offset >= l && e.end_offset >= l
}

/// No offset that deleting the node at `p` from `n`, taking `l` bytes,
/// moves back wraps around.
pub open spec fn shifts_safely<T>(n: DomNode<T>, p: Seq<usize>, l: usize) -> bool
    decreases p.len(), 1int,
{
    match n {
        DomNode::Document(cs) => children_shift_safely(cs@, p, l),
        DomNode::Element(e, _, cs) => e.end_offset >= l && children_shift_safely(cs@, p, l),
        _ => true,
    }
}

/// No offset among the children `cs` that deleting the node at `p` moves
/// back wraps around.
pub open spec fn children_shift_safely<T>(cs: Seq<DomNode<T>>, p: Seq<usize>, l: usize) -> bool
    decreases p.len(), 0int,
{
    &&& forall|j: int| p[0] < j < cs.len() ==> moves_safely(#[trigger] cs[j], l)
    &&& p.len() > 1 ==> shifts_safely(cs[p[0] as int], p.drop_first(), l)
}

/// The length of nodes is the length of a prefix plus that of the rest.
pub proof fn lemma_children_len_split<T>(s: Seq<DomNode<T>>, k: int)
    requires
        0 <= k <= s.len(),
    ensures
        children_len(s) == children_len(s.take(k)) + children_len(s.skip(k)),
    decreases s.len() - k,
{
    if k < s.len() {
        lemma_children_len_split(s, k + 1);
        assert(s.take(k + 1).drop_last() =~= s.take(k));
        assert(s.take(k + 1)[k] == s[k]);
        assert(s.skip(k).skip(1) =~= s.skip(k + 1));
        lemma_children_len_first(s.skip(k));
    } else {
        assert(s.take(k) =~= s);
        assert(s.skip(k).len() == 0);
    }
}

/// The length of nodes is that of the first plus that of the others.
pub proof fn lemma_children_len_first<T>(s: Seq<DomNode<T>>)
    requires
        s.len() > 0,
    ensures
        children_len(s) == node_len(s[0]) + children_len(s.skip(1)),
    decreases s.len(),
{
    if s.len() > 1 {
        lemma_children_len_first(s.drop_last());
        assert(s.drop_last()[0] == s[0]);
        assert(s.drop_last().skip(1) =~= s.skip(1).drop_last());
        assert(s.skip(1)[s.skip(1).len() - 1] == s[s.len() - 1]);
        assert(children_len(s.skip(1)) == children_len(s.skip(1).drop_last()) + node_len(s.skip(1)[s.skip(1).len() - 1]));
        assert(children_len(s) == children_len(s.drop_last()) + node_len(s[s.len() - 1]));
    } else {
        assert(s.drop_last().len() == 0);
        assert(children_len(s.drop_last()) == 0);
        assert(s.skip(1).len() == 0);
        assert(children_len(s.skip(1)) == 0);
        assert(children_len(s) == children_len(s.drop_last()) + node_len(s[s.len() - 1]));
    }
}

/// Nodes of the same lengths, one by one, have the same total length.
pub proof fn lemma_children_len_same<T>(a: Seq<DomNode<T>>, b: Seq<DomNode<T>>)
    requires
        a.len() == b.len(),
        forall|j: int| 0 <= j < a.len() ==> node_len(#[trigger] a[j]) == node_len(b[j]),
    ensures
        children_len(a) == children_len(b),
    decreases a.len(),
{
    if a.len() > 0 {
        lemma_children_len_same(a.drop_last(), b.drop_last());
    }
}

/// Deleting a node takes its length off the length of the tree it was in,
/// where no offset that the deletion moves wraps around.
pub proof fn law_delete_shortens<T>(n: DomNode<T>, n2: DomNode<T>, p: Seq<usize>, l: usize)
    requires
        valid_path(n, p),
        node_len(at_path(n, p)) == l,
        deleted(n, n2, p, l),
        shifts_safely(n, p, l),
    ensures
        node_len(n2) == node_len(n) - l,
    decreases p.len(),
{
    match (n, n2) {
        (DomNode::Document(cs), DomNode::Document(cs2)) => {
            let a = cs@;
            let b = cs2@;
            let i = p[0] as int;
            lemma_children_len_split(a, i);
            lemma_children_len_first(a.skip(i));
            assert(a.skip(i).skip(1) =~= a.skip(i + 1));
            if p.len() <= 1 {
                lemma_children_len_split(b, i);
                assert(b.take(i) =~= a.take(i));
                assert forall|j: int| 0 <= j < b.skip(i).len() implies node_len(#[trigger] b.skip(i)[j]) == node_len(
                    a.skip(i + 1)[j],
                ) by {
                    assert(b.skip(i)[j] == moved(a[i + 1 + j], l));
                    assert(moves_safely(a[i + 1 + j], l));
                }
                lemma_children_len_same(b.skip(i), a.skip(i + 1));
                assert(at_path(n, p) == a[i]);
            } else {
                lemma_children_len_split(b, i);
                lemma_children_len_first(b.skip(i));
                assert(b.skip(i).skip(1) =~= b.skip(i + 1));
                assert(b.take(i) =~= a.take(i));
                assert(at_path(n, p) == at_path(a[i], p.drop_first()));
                law_delete_shortens(a[i], b[i], p.drop_first(), l);
                assert forall|j: int| 0 <= j < b.skip(i + 1).len() implies node_len(#[trigger] b.skip(i + 1)[j])
                    == node_len(a.skip(i + 1)[j]) by {
                    assert(b.skip(i + 1)[j] == moved(a[i + 1 + j], l));
                    assert(moves_safely(a[i + 1 + j], l));
                }
                lemma_children_len_same(b.skip(i + 1), a.skip(i + 1));
            }
        },
        (DomNode::Element(e, _, _), DomNode::Element(e2, _, _)) => {
            assert(e2.end_offset == e.end_offset - l);
        },
        _ => {},
    }
}


/// Whether a child counts when a wrapper around a term is looked through:
/// an element, or a text that is not blank.
pub open spec fn counts_as_content<T>(c: DomNode<T>) -> bool {
    match c {
        DomNode::Element(..) => true,
        DomNode::Text(t) => trim(t@).len() > 0,
        _ => false,
    }
}

/// The number of children that count.
pub open spec fn content_count<T>(cs: Seq<DomNode<T>>) -> nat
    decreases cs.len(),
{
    if cs.len() == 0 {
        0
    } else {
        content_count(cs.drop_last()) + if counts_as_content(cs.last()) {
            1nat
        } else {
            0nat
        }
    }
}

/// The index of the first element among `cs`, or -1.
pub open spec fn first_element<T>(cs: Seq<DomNode<T>>) -> int {
    crate::extractor::lfind(cs, is_element())
}

/// The predicate "is an element".
pub open spec fn is_element<T>() -> spec_fn(DomNode<T>) -> bool {
    |c: DomNode<T>| c is Element
}

/// Whether an attribute keeps a `span` or `div` from being looked through:
/// a class other than `rustex_contents`, or a style.
pub open spec fn keeps_wrapper(a: (crate::html_len::QualName, String)) -> bool {
    (a.0.local@ == "class"@ && a.1@ != "rustex_contents"@) || a.0.local@ == "style"@
}

/// Whether the FTML elements of a node hold a finished term.
pub open spec fn has_closed_term<T>(f: Seq<OpenFTMLElement<T>>) -> bool {
    exists|i: int| 0 <= i < f.len() && #[trigger] f[i] is ClosedTerm
}

/// Whether the element `e` with children `cs` is a wrapper that a term is
/// looked up through: a `math` or `mrow` with one child that counts, or a
/// `span` or `div` with one such child and no attribute that keeps it.
pub open spec fn looks_through<T>(e: ElementData, cs: Seq<DomNode<T>>) -> bool {
    &&& content_count(cs) == 1
    &&& first_element(cs) >= 0
    &&& (e.name.local@ == "math"@ || e.name.local@ == "mrow"@ || ((e.name.local@ == "span"@ || e.name.local@
        == "div"@) && !exists|j: int|
        0 <= j < e.attributes.entries@.len() && keeps_wrapper(#[trigger] e.attributes.entries@[j])))
}

/// The node that denotes the term of `n`: `n` itself when it holds a
/// finished term or is no wrapper, else that of the element inside the
/// wrapper.
pub open spec fn term_node<T>(n: DomNode<T>) -> DomNode<T>
    decreases n,
{
    match n {
        DomNode::Element(e, f, cs) => if !has_closed_term(f@) && looks_through(e, cs@) {
            proof {
                crate::extractor::lemma_lfind_bounds(cs@, is_element());
            }
            term_node(cs@[first_element(cs@)])
        } else {
            n
        },
        _ => n,
    }
}


/// Whether a text is blank.
fn is_blank(t: &String) -> (r: bool)
    ensures
        r == (trim(t@).len() == 0),
{
    let v = chars_of(t.as_str());
    assert(v@.subrange(0, v@.len() as int) =~= v@);
    let (a, b) = trim_bounds(&v, 0, v.len());
    a == b
}

/// The number of children that count, as `content_count` says.
fn count_content<T>(cs: &Vec<DomNode<T>>) -> (r: usize)
    ensures
        r == content_count(cs@),
{
    let mut n: usize = 0;
    let mut i: usize = 0;
    while i < cs.len()
        invariant
            i <= cs@.len(),
            n == content_count(cs@.take(i as int)),
            n <= i,
        decreases cs@.len() - i,
    {
        let ghost t = cs@.take(i as int + 1);
        proof {
            assert(t.drop_last() =~= cs@.take(i as int));
            assert(t.last() == cs@[i as int]);
        }
        let counts = match &cs[i] {
            DomNode::Element(..) => true,
            DomNode::Text(t) => !is_blank(t),
            _ => false,
        };
        if counts {
            n = n + 1;
        }
        i = i + 1;
    }
    proof {
        assert(cs@.take(cs@.len() as int) =~= cs@);
    }
    n
}

/// The first element among the children, as `first_element` says.
fn find_element<T>(cs: &Vec<DomNode<T>>) -> (r: Option<usize>)
    ensures
        match r {
            Some(k) => k == first_element(cs@) && k < cs@.len(),
            None => first_element(cs@) == -1,
        },
{
    let ghost p = is_element::<T>();
    let mut i: usize = 0;
    while i < cs.len()
        invariant
            p == is_element::<T>(),
            i <= cs@.len(),
            forall|j: int| 0 <= j < i ==> !p(#[trigger] cs@[j]),
        decreases cs@.len() - i,
    {
        if let DomNode::Element(..) = &cs[i] {
            proof {
                assert(p(cs@[i as int]));
                crate::extractor::lemma_lfind(cs@, p, i as int);
            }
            return Some(i);
        }
        proof {
            assert(!p(cs@[i as int]));
        }
        i = i + 1;
    }
    proof {
        crate::extractor::lemma_lfind(cs@, p, -1);
    }
    None
}

/// Whether the FTML elements hold a finished term.
fn holds_closed_term<T>(f: &Vec<OpenFTMLElement<T>>) -> (r: bool)
    ensures
        r == has_closed_term(f@),
{
    let mut i: usize = 0;
    while i < f.len()
        invariant
            i <= f@.len(),
            forall|j: int| 0 <= j < i ==> !(#[trigger] f@[j] is ClosedTerm),
        decreases f@.len() - i,
    {
        if let OpenFTMLElement::ClosedTerm(_) = &f[i] {
            return true;
        }
        i = i + 1;
    }
    false
}

/// Whether some attribute keeps a `span` or `div` from being looked
/// through.
fn kept_by_attributes(attrs: &Vec<(crate::html_len::QualName, String)>) -> (r: bool)
    ensures
        r == exists|j: int| 0 <= j < attrs@.len() && keeps_wrapper(#[trigger] attrs@[j]),
{
    let class = String::from_str("class");
    let style = String::from_str("style");
    let plain = String::from_str("rustex_contents");
    let mut i: usize = 0;
    while i < attrs.len()
        invariant
            i <= attrs@.len(),
            class@ == "class"@,
            style@ == "style"@,
            plain@ == "rustex_contents"@,
            forall|j: int| 0 <= j < i ==> !keeps_wrapper(#[trigger] attrs@[j]),
        decreases attrs@.len() - i,
    {
        let (k, v) = &attrs[i];
        if (k.local == class && *v != plain) || k.local == style {
            assert(keeps_wrapper(attrs@[i as int]));
            return true;
        }
        i = i + 1;
    }
    false
}

/// The node that denotes the term of `node`, as `term_node` says: wrappers
/// (`math`, `mrow`, and `span` or `div` without a class of their own or a
/// style) around a single element are looked through.
pub fn filter_node_term<'a, T>(node: &'a DomNode<T>) -> (r: &'a DomNode<T>)
    ensures
        *r == term_node(*node),
    decreases *node,
{
    match node {
        DomNode::Element(e, f, cs) => {
            if holds_closed_term(f) {
                return node;
            }
            if count_content(cs) != 1 {
                return node;
            }
            let k = match find_element(cs) {
                Some(k) => k,
                None => {
                    return node;
                },
            };
            let local = &e.name.local;
            let through = if *local == String::from_str("math") || *local == String::from_str("mrow") {
                true
            } else if *local == String::from_str("span") || *local == String::from_str("div") {
                !kept_by_attributes(&e.attributes.entries)
            } else {
                false
            };
            if !through {
                return node;
            }
            proof {
                assert(decreases_to!(*node => node->Element_2));
                assert(node->Element_2 == *cs);
                assert(decreases_to!(*cs => cs@));
                assert(decreases_to!(cs@ => cs@[k as int]));
            }
            filter_node_term(&cs[k])
        },
        _ => node,
    }
}


/// The attributes `s` without the first attribute whose local name is
/// `key`, if there is one.
pub open spec fn without_key(s: Seq<(crate::html_len::QualName, String)>, key: Seq<char>) -> Seq<(crate::html_len::QualName, String)> {
    let k = crate::extractor::lfind(s, local_is(key));
    if k >= 0 {
        s.remove(k)
    } else {
        s
    }
}

/// The attributes `s` after removing, for each of `keys` in turn, the first
/// attribute of that local name.
pub open spec fn without_keys(s: Seq<(crate::html_len::QualName, String)>, keys: Seq<Seq<char>>) -> Seq<(crate::html_len::QualName, String)>
    decreases keys.len(),
{
    if keys.len() == 0 {
        s
    } else {
        without_key(without_keys(s, keys.drop_last()), keys.last())
    }
}

/// The number of children that are elements or texts.
pub open spec fn markup_count<T>(cs: Seq<DomNode<T>>) -> nat
    decreases cs.len(),
{
    if cs.len() == 0 {
        0
    } else {
        markup_count(cs.drop_last()) + if cs.last() is Element || cs.last() is Text {
            1nat
        } else {
            0nat
        }
    }
}

/// Whether a notation is looked up through the element `e` with children
/// `cs`, once the attributes `keys` are removed: a `math` with one child
/// that is an element or a text, or an `mrow`, `span` or `div` with one
/// such child and no attribute left; the child must be an element.
pub open spec fn notation_looks_through<T>(e: ElementData, cs: Seq<DomNode<T>>, keys: Seq<Seq<char>>) -> bool {
    &&& markup_count(cs) == 1
    &&& first_element(cs) >= 0
    &&& (e.name.local@ == "math"@ || ((e.name.local@ == "mrow"@ || e.name.local@ == "span"@ || e.name.local@
        == "div"@) && without_keys(e.attributes.entries@, keys).len() == 0))
}

/// The node whose markup gives the notation of `n`: the wrappers that
/// `notation_looks_through` lets through are passed.
pub open spec fn notation_node<T>(n: DomNode<T>, keys: Seq<Seq<char>>) -> DomNode<T>
    decreases n,
{
    match n {
        DomNode::Element(e, f, cs) => if notation_looks_through(e, cs@, keys) {
            proof {
                crate::extractor::lemma_lfind_bounds(cs@, is_element());
            }
            notation_node(cs@[first_element(cs@)], keys)
        } else {
            n
        },
        _ => n,
    }
}

/// The views of a list of strings.
pub open spec fn key_views(v: Seq<String>) -> Seq<Seq<char>> {
    v.map_values(|s: String| s@)
}

/// Removes, for each of `keys` in turn, the first attribute of that local
/// name.
fn strip_keys(attrs: &mut crate::html_len::Attributes, keys: &Vec<String>)
    ensures
        final(attrs).entries@ == without_keys(old(attrs).entries@, key_views(keys@)),
{
    let mut i: usize = 0;
    assert(key_views(keys@).take(0) =~= Seq::<Seq<char>>::empty());
    while i < keys.len()
        invariant
            i <= keys@.len(),
            attrs.entries@ == without_keys(old(attrs).entries@, key_views(keys@).take(i as int)),
        decreases keys@.len() - i,
    {
        let ghost before = attrs.entries@;
        let _ = attrs.take(keys[i].as_str());
        proof {
            let t = key_views(keys@).take(i as int + 1);
            assert(t.drop_last() =~= key_views(keys@).take(i as int));
            assert(t.last() == keys@[i as int]@);
        }
        i = i + 1;
    }
    assert(key_views(keys@).take(keys@.len() as int) =~= key_views(keys@));
}

/// The number of children that are elements or texts.
fn count_markup<T>(cs: &Vec<DomNode<T>>) -> (r: usize)
    ensures
        r == markup_count(cs@),
{
    let mut n: usize = 0;
    let mut i: usize = 0;
    while i < cs.len()
        invariant
            i <= cs@.len(),
            n == markup_count(cs@.take(i as int)),
            n <= i,
        decreases cs@.len() - i,
    {
        let ghost t = cs@.take(i as int + 1);
        proof {
            assert(t.drop_last() =~= cs@.take(i as int));
            assert(t.last() == cs@[i as int]);
        }
        let counts = match &cs[i] {
            DomNode::Element(..) | DomNode::Text(_) => true,
            _ => false,
        };
        if counts {
            n = n + 1;
        }
        i = i + 1;
    }
    proof {
        assert(cs@.take(cs@.len() as int) =~= cs@);
    }
    n
}

/// The node whose markup gives the notation of `node`, as `notation_node`
/// says, with the attributes `keys` (the notation markers) removed from it.
pub fn filter_node<T>(node: DomNode<T>, keys: &Vec<String>) -> (r: DomNode<T>)
    ensures
        match notation_node(node, key_views(keys@)) {
            DomNode::Element(e, f, cs) => r matches DomNode::Element(e2, f2, cs2) && e2.name == e.name
                && e2.attributes.entries@ == without_keys(e.attributes.entries@, key_views(keys@)) && e2.start_offset
                == e.start_offset && e2.end_offset == e.end_offset && e2.closed == e.closed && f2 == f && cs2 == cs,
            other => r == other,
        },
    decreases node,
{
    match node {
        DomNode::Element(mut e, f, mut cs) => {
            let ghost e0 = e;
            let ghost cs0 = cs;
            strip_keys(&mut e.attributes, keys);
            let local = &e.name.local;
            let through = if count_markup(&cs) == 1 {
                match find_element(&cs) {
                    Some(k) => {
                        if *local == String::from_str("math") {
                            Some(k)
                        } else if (*local == String::from_str("mrow") || *local == String::from_str("span") || *local
                            == String::from_str("div")) && e.attributes.entries.len() == 0 {
                            Some(k)
                        } else {
                            None
                        }
                    },
                    None => None,
                }
            } else {
                None
            };
            match through {
                Some(k) => {
                    let ghost whole = DomNode::Element(e0, f, cs0);
                    let child = cs.remove(k);
                    proof {
                        assert(child == cs0@[k as int]);
                        assert(decreases_to!(whole => whole->Element_2));
                        assert(decreases_to!(cs0 => cs0@));
                        assert(decreases_to!(cs0@ => cs0@[k as int]));
                    }
                    filter_node(child, keys)
                },
                None => DomNode::Element(e, f, cs),
            }
        },
        other => other,
    }
}


/// The operator notation an element gives: its serialization `html`,
/// whether it is a `span` or `div`, and the offsets past its tag name and
/// past its attributes, as `ElementData::is_text_and_offsets` computes
/// them.
pub fn do_op_notation(e: &ElementData, html: String) -> (r: OpNotation)
    requires
        attributes_len(e.attributes.entries@) <= usize::MAX,
        bytes_len(e.name.local@) % 256 != 255,
        (attributes_len(e.attributes.entries@) % 65536) + (bytes_len(e.name.local@) % 256) + 2 <= 65535,
    ensures
        r.text == html,
        r.is_text == (e.name.local@ == "span"@ || e.name.local@ == "div"@),
        r.attribute_index == (bytes_len(e.name.local@) % 256) + 1,
        r.inner_index == (attributes_len(e.attributes.entries@) % 65536) + r.attribute_index + 1,
{
    let (is_text, attribute_index, inner_index) = e.is_text_and_offsets();
    OpNotation { attribute_index, inner_index, is_text, text: html }
}

} // verus!
