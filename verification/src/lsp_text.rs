//! The text of an open LSP document: positions given as line and character
//! turned into byte offsets, and incremental edits.
//!
//! A line ends at `\n`, `\r` or `\r\n`.  A character column counts Unicode
//! scalar values and may run on past the end of its line.
use vstd::prelude::*;
use vstd::string::StrSliceExecFns;
use vstd::string::StringExecFns;
use crate::text::{bytes_len, char_len_utf8, chars_of, lemma_bytes_concat, lemma_bytes_len_encode, utf8_len};

verus! {

/// A position in a document: a line and a column, both counted from 0.
#[derive(Clone, Copy, Debug, PartialEq, Eq, Structural)]
pub struct Position {
    pub line: u32,
    pub character: u32,
}

/// A range between two positions.
#[derive(Clone, Copy, Debug, PartialEq, Eq, Structural)]
pub struct Range {
    pub start: Position,
    pub end: Position,
}

/// Whether `c` ends a line.
pub open spec fn is_break(c: char) -> bool {
    c == '\n' || c == '\r'
}

/// The index of the first line break in `s`, or its length.
pub open spec fn first_break(s: Seq<char>) -> int
    decreases s.len(),
{
    if s.len() == 0 || is_break(s[0]) {
        0
    } else {
        1 + first_break(s.drop_first())
    }
}

/// The number of characters of the line break at `i`: two for `\r\n`.
pub open spec fn break_width(s: Seq<char>, i: int) -> int {
    if s[i] == '\r' && i + 1 < s.len() && s[i + 1] == '\n' {
        2
    } else {
        1
    }
}

/// The index where line `n` of `s` starts, or -1 where `s` has fewer lines.
pub open spec fn line_start(s: Seq<char>, n: nat) -> int
    decreases n,
{
    if n == 0 {
        0
    } else {
        let i = first_break(s);
        if i < 0 || i >= s.len() {
            -1
        } else {
            let nx = i + break_width(s, i);
            let r = line_start(s.skip(nx), (n - 1) as nat);
            if r < 0 {
                -1
            } else {
                nx + r
            }
        }
    }
}

/// The smaller of two integers.
pub open spec fn min(a: int, b: int) -> int {
    if a <= b {
        a
    } else {
        b
    }
}

/// The character index of a position: past the end of the text when the
/// text has fewer lines, and never beyond its end.
pub open spec fn position_chars(s: Seq<char>, pos: Position) -> int {
    let k = line_start(s, pos.line as nat);
    if k < 0 {
        s.len() as int
    } else {
        min(k + pos.character, s.len() as int)
    }
}

/// The character indices of a range.  The end is found from the start:
/// its line counted from the start's line, its column counted from the
/// start's column when both lie on one line.
pub open spec fn range_chars(s: Seq<char>, r: Range) -> (int, int) {
    let endc = if r.start.line == r.end.line {
        r.end.character - r.start.character
    } else {
        r.end.character as int
    };
    let lines = r.end.line - r.start.line;
    let ks = line_start(s, r.start.line as nat);
    if ks < 0 {
        (s.len() as int, s.len() as int)
    } else {
        let cs = min(ks + r.start.character, s.len() as int);
        let ke = line_start(s.skip(cs), lines as nat);
        if ke < 0 {
            (cs, s.len() as int)
        } else {
            (cs, min(cs + ke + endc, s.len() as int))
        }
    }
}

/// Whether `r` is ordered: its end line is not before its start line, and
/// on one line its end column is not before its start column.
pub open spec fn range_ordered(r: Range) -> bool {
    &&& r.start.line <= r.end.line
    &&& r.start.line == r.end.line ==> r.start.character <= r.end.character
}

/// The byte offset of character index `k`.
fn bytes_upto(v: &Vec<char>, k: usize) -> (r: usize)
    requires
        k <= v@.len(),
        bytes_len(v@) <= usize::MAX,
    ensures
        r == bytes_len(v@.take(k as int)),
{
    let mut i: usize = 0;
    let mut r: usize = 0;
    assert(v@.take(0) =~= Seq::<char>::empty());
    while i < k
        invariant
            k <= v@.len(),
            i <= k,
            bytes_len(v@) <= usize::MAX,
            r == bytes_len(v@.take(i as int)),
        decreases k - i,
    {
        proof {
            assert(v@.take(i + 1) =~= v@.take(i as int) + seq![v@[i as int]]);
            lemma_bytes_concat(v@.take(i as int), seq![v@[i as int]]);
            assert(v@ =~= v@.take(i + 1) + v@.skip(i + 1));
            lemma_bytes_concat(v@.take(i + 1), v@.skip(i + 1));
            assert(bytes_len(seq![v@[i as int]]) == utf8_len(v@[i as int])) by {
                assert(seq![v@[i as int]].drop_first() =~= Seq::<char>::empty());
                assert(bytes_len(Seq::<char>::empty()) == 0);
            }
        }
        r = r + char_len_utf8(v[i]);
        i = i + 1;
    }
    r
}

/// `first_break` is the first line break, or the end.
proof fn lemma_first_break(s: Seq<char>, k: int)
    requires
        0 <= k <= s.len(),
        k < s.len() ==> is_break(s[k]),
        forall|j: int| 0 <= j < k ==> !is_break(#[trigger] s[j]),
    ensures
        first_break(s) == k,
    decreases s.len(),
{
    if s.len() > 0 && !is_break(s[0]) {
        assert forall|j: int| 0 <= j < k - 1 implies !is_break(#[trigger] s.drop_first()[j]) by {
            assert(s.drop_first()[j] == s[j + 1]);
        }
        lemma_first_break(s.drop_first(), k - 1);
    }
}

/// `line_start` is -1 or an index within `s`.
proof fn lemma_line_start_range(s: Seq<char>, n: nat)
    ensures
        -1 <= line_start(s, n) <= s.len(),
    decreases n,
{
    if n > 0 {
        let i = first_break(s);
        if 0 <= i < s.len() {
            let nx = i + break_width(s, i);
            lemma_line_start_range(s.skip(nx), (n - 1) as nat);
        }
    }
}

/// The index where the `n`-th line after index `from` starts, if there is one.
fn skip_lines(v: &Vec<char>, from: usize, n: u32) -> (r: Option<usize>)
    requires
        from <= v@.len(),
    ensures
        ({
            let k = line_start(v@.skip(from as int), n as nat);
            match r {
                Some(p) => k >= 0 && p == from + k && p <= v@.len(),
                None => k < 0,
            }
        }),
{
    let mut pos = from;
    let mut left = n;
    assert(v@.skip(from as int) =~= v@.skip(pos as int));
    while left > 0
        invariant
            from <= pos <= v@.len(),
            left <= n,
            ({
                let k = line_start(v@.skip(from as int), n as nat);
                let r = line_start(v@.skip(pos as int), left as nat);
                k == if r < 0 {
                    -1
                } else {
                    (pos - from) + r
                }
            }),
        decreases left,
    {
        let ghost rest = v@.skip(pos as int);
        let mut i = pos;
        while i < v.len() && v[i] != '\n' && v[i] != '\r'
            invariant
                pos <= i <= v@.len(),
                rest == v@.skip(pos as int),
                forall|j: int| pos <= j < i ==> !is_break(#[trigger] v@[j]),
            decreases v@.len() - i,
        {
            i = i + 1;
        }
        proof {
            assert forall|j: int| 0 <= j < i - pos implies !is_break(#[trigger] rest[j]) by {
                assert(rest[j] == v@[pos + j]);
            }
            lemma_first_break(rest, i - pos);
        }
        if i == v.len() {
            return None;
        }
        let width: usize = if v[i] == '\r' && i + 1 < v.len() && v[i + 1] == '\n' {
            2
        } else {
            1
        };
        proof {
            assert(break_width(rest, i - pos) == width);
            assert(rest.skip(i - pos + width) =~= v@.skip(i + width));
        }
        pos = i + width;
        left = left - 1;
    }
    proof {
        lemma_line_start_range(v@.skip(from as int), n as nat);
    }
    Some(pos)
}

/// The character index of `pos` in `v`.
fn position_index(v: &Vec<char>, pos: Position) -> (r: usize)
    ensures
        r == position_chars(v@, pos),
{
    assert(v@.skip(0) =~= v@);
    match skip_lines(v, 0, pos.line) {
        None => v.len(),
        Some(k) => {
            if pos.character as usize >= v.len() - k {
                v.len()
            } else {
                k + pos.character as usize
            }
        },
    }
}

/// The character indices of `r` in `v`.
fn range_indices(v: &Vec<char>, r: Range) -> (res: (usize, usize))
    requires
        range_ordered(r),
    ensures
        (res.0 as int, res.1 as int) == range_chars(v@, r),
        res.0 <= res.1 <= v@.len(),
{
    let endc: u32 = if r.start.line == r.end.line {
        r.end.character - r.start.character
    } else {
        r.end.character
    };
    let lines = r.end.line - r.start.line;
    assert(v@.skip(0) =~= v@);
    match skip_lines(v, 0, r.start.line) {
        None => (v.len(), v.len()),
        Some(ks) => {
            let cs = if r.start.character as usize >= v.len() - ks {
                v.len()
            } else {
                ks + r.start.character as usize
            };
            match skip_lines(v, cs, lines) {
                None => (cs, v.len()),
                Some(ke) => {
                    let ce = if endc as usize >= v.len() - ke {
                        v.len()
                    } else {
                        ke + endc as usize
                    };
                    (cs, ce)
                },
            }
        },
    }
}

/// The text of an open document.
pub struct LSPText {
    pub text: String,
    pub html_up_to_date: bool,
}

impl LSPText {
    /// The characters of the text as a mathematical sequence.
    pub open spec fn chars(&self) -> Seq<char> {
        self.text@
    }

    /// The number of bytes of the text, with the fact that it fits.
    fn byte_len(&self) -> (r: usize)
        ensures
            r == bytes_len(self.text@),
    {
        let b = self.text.as_str().as_bytes();
        proof {
            lemma_bytes_len_encode(self.text@);
        }
        b.len()
    }

    /// The byte offset of `pos`.
    pub fn get_position(&self, pos: Position) -> (r: usize)
        ensures
            r == bytes_len(self.text@.take(position_chars(self.text@, pos))),
    {
        // Its byte length fits in a usize, and so do the offsets below.
        let _bytes = self.byte_len();
        let v = chars_of(self.text.as_str());
        let k = position_index(&v, pos);
        bytes_upto(&v, k)
    }

    /// The byte offsets of `range`.
    pub fn get_range(&self, range: Range) -> (r: (usize, usize))
        requires
            range_ordered(range),
        ensures
            r.0 == bytes_len(self.text@.take(range_chars(self.text@, range).0)),
            r.1 == bytes_len(self.text@.take(range_chars(self.text@, range).1)),
    {
        // Its byte length fits in a usize, and so do the offsets below.
        let _bytes = self.byte_len();
        let v = chars_of(self.text.as_str());
        let (a, b) = range_indices(&v, range);
        (bytes_upto(&v, a), bytes_upto(&v, b))
    }

    /// Applies an edit: the whole text is replaced when `range` is `None`,
    /// else the text of `range` is replaced and the HTML marked stale.
    pub fn delta(&mut self, text: String, range: Option<Range>)
        requires
            match range {
                Some(r) => range_ordered(r),
                None => true,
            },
        ensures
            match range {
                None => final(self).text@ == text@ && final(self).html_up_to_date == old(
                    self,
                ).html_up_to_date,
                Some(r) => {
                    let (a, b) = range_chars(old(self).text@, r);
                    &&& final(self).text@ == old(self).text@.take(a) + text@ + old(self).text@.skip(b)
                    &&& !final(self).html_up_to_date
                },
            },
    {
        match range {
            None => {
                self.text = text;
            },
            Some(r) => {
                let v = chars_of(self.text.as_str());
                let (a, b) = range_indices(&v, r);
                let head = self.text.as_str().substring_char(0, a);
                let tail = self.text.as_str().substring_char(b, v.len());
                let mut t = String::from_str(head);
                t.append(text.as_str());
                t.append(tail);
                proof {
                    assert(self.text@.subrange(0, a as int) =~= self.text@.take(a as int));
                    assert(self.text@.subrange(b as int, v@.len() as int) =~= self.text@.skip(b as int));
                }
                self.text = t;
                self.html_up_to_date = false;
            },
        }
    }
}

/// An open document: its text, whether its annotations are current, and
/// where it lies: its file, its archive, its path inside the archive and
/// its document URI, where known.
pub struct LSPDocument {
    pub text: LSPText,
    pub up_to_date: bool,
    pub path: Option<String>,
    pub archive: Option<String>,
    pub rel_path: Option<String>,
    pub doc_uri: Option<String>,
}

impl LSPDocument {
    /// A document with the text `text` at the given places; neither its
    /// HTML nor its annotations are current yet.
    pub fn new(
        text: String,
        path: Option<String>,
        archive: Option<String>,
        rel_path: Option<String>,
        doc_uri: Option<String>,
    ) -> (r: Self)
        ensures
            r.text.text == text,
            !r.text.html_up_to_date,
            !r.up_to_date,
            r.path == path,
            r.archive == archive,
            r.rel_path == rel_path,
            r.doc_uri == doc_uri,
    {
        LSPDocument { text: LSPText { text, html_up_to_date: false }, up_to_date: false, path, archive, rel_path, doc_uri }
    }

    /// The file of the document, if it is one.
    pub fn path(&self) -> (r: Option<&String>)
        ensures
            r == match self.path {
                Some(p) => Some(&p),
                None => None::<&String>,
            },
    {
        self.path.as_ref()
    }

    /// The archive of the document, if known.
    pub fn archive(&self) -> (r: Option<&String>)
        ensures
            r == match self.archive {
                Some(a) => Some(&a),
                None => None::<&String>,
            },
    {
        self.archive.as_ref()
    }

    /// The path of the document inside its archive, if known.
    pub fn relative_path(&self) -> (r: Option<&String>)
        ensures
            r == match self.rel_path {
                Some(p) => Some(&p),
                None => None::<&String>,
            },
    {
        self.rel_path.as_ref()
    }

    /// The URI of the document, if known.
    pub fn document_uri(&self) -> (r: Option<&String>)
        ensures
            r == match self.doc_uri {
                Some(u) => Some(&u),
                None => None::<&String>,
            },
    {
        self.doc_uri.as_ref()
    }

    /// Whether the HTML of the document is current.
    pub fn html_up_to_date(&self) -> (r: bool)
        ensures
            r == self.text.html_up_to_date,
    {
        self.text.html_up_to_date
    }

    /// Marks the HTML of the document as current.
    pub fn set_html_up_to_date(&mut self)
        ensures
            final(self).text.html_up_to_date,
            final(self).text.text == old(self).text.text,
            final(self).up_to_date == old(self).up_to_date,
            final(self).path == old(self).path,
            final(self).archive == old(self).archive,
            final(self).rel_path == old(self).rel_path,
            final(self).doc_uri == old(self).doc_uri,
    {
        self.text.html_up_to_date = true;
    }

    /// Whether the annotations of the document are current.
    pub fn is_up_to_date(&self) -> (r: bool)
        ensures
            r == self.up_to_date,
    {
        self.up_to_date
    }

    /// Whether annotations can be computed: the document has a URI and a
    /// file.
    pub fn has_annots(&self) -> (r: bool)
        ensures
            r == (self.doc_uri is Some && self.path is Some),
    {
        self.doc_uri.is_some() && self.path.is_some()
    }

    /// The byte offset of `pos` in the text.
    pub fn get_position(&self, pos: Position) -> (r: usize)
        ensures
            r == bytes_len(self.text.text@.take(position_chars(self.text.text@, pos))),
    {
        self.text.get_position(pos)
    }

    /// The byte offsets of `range` in the text.
    pub fn get_range(&self, range: Range) -> (r: (usize, usize))
        requires
            range_ordered(range),
        ensures
            r.0 == bytes_len(self.text.text@.take(range_chars(self.text.text@, range).0)),
            r.1 == bytes_len(self.text.text@.take(range_chars(self.text.text@, range).1)),
    {
        self.text.get_range(range)
    }

    /// Replaces the text; returns whether it changed, and marks the
    /// annotations stale when it did.
    pub fn set_text(&mut self, s: String) -> (r: bool)
        ensures
            r == (old(self).text.text@ != s@),
            final(self).text.text@ == s@,
            final(self).text.html_up_to_date == old(self).text.html_up_to_date,
            final(self).up_to_date == (old(self).up_to_date && !r),
            final(self).path == old(self).path,
            final(self).archive == old(self).archive,
            final(self).rel_path == old(self).rel_path,
            final(self).doc_uri == old(self).doc_uri,
    {
        if self.text.text == s {
            return false;
        }
        self.text.text = s;
        self.up_to_date = false;
        true
    }

    /// Applies an edit and marks the annotations stale.
    pub fn delta(&mut self, text: String, range: Option<Range>)
        requires
            match range {
                Some(r) => range_ordered(r),
                None => true,
            },
        ensures
            !final(self).up_to_date,
            final(self).path == old(self).path,
            final(self).archive == old(self).archive,
            final(self).rel_path == old(self).rel_path,
            final(self).doc_uri == old(self).doc_uri,
            match range {
                None => final(self).text.text@ == text@ && final(self).text.html_up_to_date == old(
                    self,
                ).text.html_up_to_date,
                Some(r) => {
                    let (a, b) = range_chars(old(self).text.text@, r);
                    &&& final(self).text.text@ == old(self).text.text@.take(a) + text@ + old(
                        self,
                    ).text.text@.skip(b)
                    &&& !final(self).text.html_up_to_date
                },
            },
    {
        self.up_to_date = false;
        self.text.delta(text, range);
    }
}

/// A line and a column, as source ranges give them.
#[derive(Clone, Copy, Debug, PartialEq, Eq, Structural)]
pub struct LSPLineCol {
    pub line: u32,
    pub col: u32,
}

/// A range of source positions.
#[derive(Clone, Copy, Debug, PartialEq, Eq, Structural)]
pub struct SourceRange {
    pub start: LSPLineCol,
    pub end: LSPLineCol,
}

/// The LSP range of a source range.
pub open spec fn lsp_range_of(r: SourceRange) -> Range {
    Range {
        start: Position { line: r.start.line, character: r.start.col },
        end: Position { line: r.end.line, character: r.end.col },
    }
}

/// The source range of an LSP range.
pub open spec fn source_range_of(r: Range) -> SourceRange {
    SourceRange {
        start: LSPLineCol { line: r.start.line, col: r.start.character },
        end: LSPLineCol { line: r.end.line, col: r.end.character },
    }
}

/// Conversion between source ranges and LSP ranges.
pub trait IsLSPRange: Sized {
    fn into_range(self) -> Range;

    fn from_range(range: Range) -> Self;
}

impl IsLSPRange for SourceRange {
    /// The LSP range with the same lines and columns.
    fn into_range(self) -> (r: Range)
        ensures
            r == lsp_range_of(self),
    {
        Range {
            start: Position { line: self.start.line, character: self.start.col },
            end: Position { line: self.end.line, character: self.end.col },
        }
    }

    /// The source range with the same lines and columns.
    fn from_range(range: Range) -> (r: Self)
        ensures
            r == source_range_of(range),
    {
        SourceRange {
            start: LSPLineCol { line: range.start.line, col: range.start.character },
            end: LSPLineCol { line: range.end.line, col: range.end.character },
        }
    }
}

/// Converting a range to LSP and back gives it back, both ways round.
pub proof fn law_range_round_trip(s: SourceRange, r: Range)
    ensures
        source_range_of(lsp_range_of(s)) == s,
        lsp_range_of(source_range_of(r)) == r,
{
}

/// The byte offsets of an ordered range: the start is the byte offset of
/// the start position, the start is not after the end, and the end is within
/// the text; this is what `get_range` and `get_position` give.
pub proof fn law_range_offsets(s: Seq<char>, r: Range)
    requires
        range_ordered(r),
    ensures
        bytes_len(s.take(range_chars(s, r).0)) == bytes_len(s.take(position_chars(s, r.start))),
        0 <= range_chars(s, r).0 <= range_chars(s, r).1 <= s.len(),
        bytes_len(s.take(range_chars(s, r).0)) <= bytes_len(s.take(range_chars(s, r).1)) <= bytes_len(s),
{
    let ks = line_start(s, r.start.line as nat);
    lemma_line_start_range(s, r.start.line as nat);
    if ks >= 0 {
        let cs = min(ks + r.start.character, s.len() as int);
        let lines = r.end.line - r.start.line;
        lemma_line_start_range(s.skip(cs), lines as nat);
    }
    let (a, b) = range_chars(s, r);
    lemma_bytes_len_prefix_le(s, a, b);
    lemma_bytes_len_prefix_le(s, b, s.len() as int);
    assert(s.take(s.len() as int) =~= s);
}

/// The bytes of a shorter prefix are no more than those of a longer one.
pub proof fn lemma_bytes_len_prefix_le(s: Seq<char>, a: int, b: int)
    requires
        0 <= a <= b <= s.len(),
    ensures
        bytes_len(s.take(a)) <= bytes_len(s.take(b)),
    decreases b - a,
{
    if a < b {
        lemma_bytes_len_prefix_le(s, a, b - 1);
        lemma_bytes_take_step(s, b - 1);
    }
}

/// One more character adds its bytes to a prefix.
proof fn lemma_bytes_take_step(s: Seq<char>, k: int)
    requires
        0 <= k < s.len(),
    ensures
        bytes_len(s.take(k + 1)) == bytes_len(s.take(k)) + utf8_len(s[k]),
{
    assert(s.take(k + 1) =~= s.take(k) + seq![s[k]]);
    lemma_bytes_concat(s.take(k), seq![s[k]]);
    assert(seq![s[k]].drop_first() =~= Seq::<char>::empty());
    assert(bytes_len(seq![s[k]]) == utf8_len(s[k]) + bytes_len(seq![s[k]].drop_first()));
}

/// The start of a range lies where the position of its start lies.
pub proof fn law_range_start_is_position(s: Seq<char>, r: Range)
    ensures
        range_chars(s, r).0 == position_chars(s, r.start),
{
}

/// A range on one line ends where the position of its end lies.
pub proof fn law_range_end_on_one_line(s: Seq<char>, r: Range)
    requires
        range_ordered(r),
        r.start.line == r.end.line,
    ensures
        range_chars(s, r).1 == position_chars(s, r.end),
{
    let ks = line_start(s, r.start.line as nat);
    lemma_line_start_range(s, r.start.line as nat);
    if ks >= 0 {
        let cs = min(ks + r.start.character, s.len() as int);
        assert(line_start(s.skip(cs), 0) == 0);
    }
}

} // verus!
