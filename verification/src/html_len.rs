//! Byte lengths of serialized HTML pieces.
use vstd::prelude::*;
use crate::text::{byte_len, bytes_len, chars_of, char_len_utf8, utf8_len};
use vstd::string::StringExecFns;
use crate::extractor::{lemma_lfind, lfind, DocumentRange};

verus! {

/// Length of `c` once escaped for HTML serialization.
pub open spec fn escaped_char_len(c: char, attr_mode: bool) -> nat {
    if c == '&' {
        5
    } else if c == '\u{00A0}' {
        6
    } else if c == '"' && attr_mode {
        6
    } else if c == '<' && !attr_mode {
        4
    } else if c == '>' && !attr_mode {
        4
    } else {
        utf8_len(c)
    }
}

/// Total escaped length of a character sequence.
pub open spec fn spec_escaped_len(s: Seq<char>, attr_mode: bool) -> nat
    decreases s.len(),
{
    if s.len() == 0 {
        0
    } else {
        spec_escaped_len(s.drop_last(), attr_mode) + escaped_char_len(s.last(), attr_mode)
    }
}

/// Escaped length of one character.
pub fn escaped_char_length(c: char, attr_mode: bool) -> (r: usize)
    ensures
        r == escaped_char_len(c, attr_mode),
{
    if c == '&' {
        5
    } else if c == '\u{00A0}' {
        6
    } else if c == '"' && attr_mode {
        6
    } else if c == '<' && !attr_mode {
        4
    } else if c == '>' && !attr_mode {
        4
    } else {
        char_len_utf8(c)
    }
}

/// The number of bytes `str` takes once serialized with HTML escaping,
/// in attribute mode (`"` escaped) or in text mode (`<`, `>` escaped).
pub fn escaped_len(str: &str, attr_mode: bool) -> (r: usize)
    requires
        spec_escaped_len(str@, attr_mode) <= usize::MAX,
    ensures
        r == spec_escaped_len(str@, attr_mode),
{
    let v = chars_of(str);
    let n = v.len();
    let mut i: usize = 0;
    let mut acc: usize = 0;
    while i < n
        invariant
            v@ == str@,
            n == str@.len(),
            i <= n,
            acc == spec_escaped_len(str@.take(i as int), attr_mode),
            spec_escaped_len(str@, attr_mode) <= usize::MAX,
        decreases n - i,
    {
        let c = v[i];
        proof {
            assert(str@.take(i + 1).drop_last() =~= str@.take(i as int));
            lemma_escaped_len_prefix_le(str@, i + 1, attr_mode);
        }
        acc = acc + escaped_char_length(c, attr_mode);
        i = i + 1;
    }
    proof {
        assert(str@.take(n as int) =~= str@);
    }
    acc
}

/// The escaped length of a prefix never exceeds that of the whole.
pub proof fn lemma_escaped_len_prefix_le(s: Seq<char>, k: int, attr_mode: bool)
    requires
        0 <= k <= s.len(),
    ensures
        spec_escaped_len(s.take(k), attr_mode) <= spec_escaped_len(s, attr_mode),
    decreases s.len() - k,
{
    if k < s.len() {
        lemma_escaped_len_prefix_le(s, k + 1, attr_mode);
        assert(s.take(k + 1).drop_last() =~= s.take(k));
    } else {
        assert(s.take(k) =~= s);
    }
}

/// The HTML namespace.
pub open spec fn html_ns() -> Seq<char> {
    "http://www.w3.org/1999/xhtml"@
}

/// A qualified element or attribute name.
pub struct QualName {
    pub prefix: Option<String>,
    pub ns: String,
    pub local: String,
}

/// The bytes of the prefix of `name` with its colon, if it has one.
pub open spec fn prefix_len(name: QualName) -> nat {
    match name.prefix {
        Some(p) => bytes_len(p@) + 1,
        None => 0,
    }
}

/// The bytes of `<name>`.
pub open spec fn spec_tag_len(name: QualName) -> nat {
    prefix_len(name) + bytes_len(name.local@) + 2
}

/// The number of bytes of the opening tag `<name>` without attributes.
pub fn tag_len(name: &QualName) -> (r: usize)
    requires
        spec_tag_len(*name) <= usize::MAX,
    ensures
        r == spec_tag_len(*name),
{
    let p = match &name.prefix {
        Some(p) => byte_len(p.as_str()) + 1,
        None => 0,
    };
    p + byte_len(name.local.as_str()) + 2
}

/// The HTML elements that have no closing tag.
pub open spec fn void_elements() -> Seq<Seq<char>> {
    seq![
        "area"@, "base"@, "basefont"@, "bgsound"@, "br"@, "col"@, "embed"@, "frame"@, "hr"@, "img"@,
        "input"@, "keygen"@, "link"@, "meta"@, "param"@, "source"@, "track"@, "wbr"@,
    ]
}

/// Whether `name` is an HTML element without closing tag.
pub open spec fn spec_self_closing(name: QualName) -> bool {
    name.ns@ == html_ns() && void_elements().contains(name.local@)
}

/// Whether `name` is an HTML element without closing tag.
pub fn self_closing(name: &QualName) -> (r: bool)
    ensures
        r == spec_self_closing(*name),
{
    let html = String::from_str("http://www.w3.org/1999/xhtml");
    if name.ns != html {
        return false;
    }
    let names = [
        "area", "base", "basefont", "bgsound", "br", "col", "embed", "frame", "hr", "img", "input",
        "keygen", "link", "meta", "param", "source", "track", "wbr",
    ];
    let ghost vs = void_elements();
    assert(names@.map_values(|s: &str| s@) =~= vs);
    let mut i: usize = 0;
    while i < 18
        invariant
            names@.map_values(|s: &str| s@) == vs,
            names@.len() == 18,
            vs == void_elements(),
            vs.len() == 18,
            name.ns@ == html_ns(),
            i <= 18,
            forall|j: int| 0 <= j < i ==> vs[j] != name.local@,
        decreases 18 - i,
    {
        assert(names@.map_values(|s: &str| s@)[i as int] == names@[i as int]@);
        if name.local == String::from_str(names[i]) {
            assert(vs[i as int] == name.local@);
            assert(vs.contains(name.local@));
            return true;
        }
        i = i + 1;
    }
    false
}

/// The bytes of an element with no attributes and no content.
pub open spec fn spec_base_len(name: QualName) -> nat {
    if spec_self_closing(name) {
        spec_tag_len(name)
    } else {
        2 * spec_tag_len(name) + 1
    }
}

/// The number of bytes of an element with no attributes and no content:
/// `<name>` and, unless it is a void element, `</name>`.
pub fn base_len(name: &QualName) -> (r: usize)
    requires
        2 * spec_tag_len(*name) + 1 <= usize::MAX,
    ensures
        r == spec_base_len(*name),
{
    let t = tag_len(name);
    if self_closing(name) {
        t
    } else {
        2 * t + 1
    }
}

/// The attributes of an element, in order.
pub struct Attributes {
    pub entries: Vec<(QualName, String)>,
}

/// The bytes one attribute adds to its element's opening tag: ` key="value"`.
pub open spec fn attribute_len(a: (QualName, String)) -> nat {
    prefix_len(a.0) + bytes_len(a.0.local@) + 4 + spec_escaped_len(a.1@, true)
}

/// The bytes a sequence of attributes adds to an opening tag.
pub open spec fn attributes_len(s: Seq<(QualName, String)>) -> nat
    decreases s.len(),
{
    if s.len() == 0 {
        0
    } else {
        attributes_len(s.drop_last()) + attribute_len(s.last())
    }
}

/// The attributes of a prefix never take more bytes than all of them.
proof fn lemma_attributes_len_prefix(s: Seq<(QualName, String)>, k: int)
    requires
        0 <= k <= s.len(),
    ensures
        attributes_len(s.take(k)) <= attributes_len(s),
    decreases s.len() - k,
{
    if k < s.len() {
        lemma_attributes_len_prefix(s, k + 1);
        assert(s.take(k + 1).drop_last() =~= s.take(k));
    } else {
        assert(s.take(k) =~= s);
    }
}

/// The attributes `s2` are `s` with the value of the first attribute whose
/// local name is `key` set to `value`, if there is one.
pub open spec fn set_step(s: Seq<(QualName, String)>, key: Seq<char>, value: Seq<char>, s2: Seq<(QualName, String)>) -> bool {
    let k = lfind(s, local_is(key));
    if k >= 0 {
        &&& s2.len() == s.len()
        &&& forall|j: int| 0 <= j < s.len() && j != k ==> #[trigger] s2[j] == s[j]
        &&& s2[k].0 == s[k].0
        &&& s2[k].1@ == value
    } else {
        s2 == s
    }
}

/// Reading an attribute after setting it gives the value set; reading
/// another key gives what it gave before.
pub proof fn law_value_after_set(s: Seq<(QualName, String)>, key: Seq<char>, value: Seq<char>, s2: Seq<(QualName, String)>, other: Seq<char>)
    requires
        set_step(s, key, value, s2),
        lfind(s, local_is(key)) >= 0,
    ensures
        lfind(s2, local_is(key)) == lfind(s, local_is(key)),
        s2[lfind(s2, local_is(key))].1@ == value,
        lfind(s2, local_is(other)) == lfind(s, local_is(other)),
        lfind(s, local_is(other)) >= 0 && lfind(s, local_is(other)) != lfind(s, local_is(key)) ==> s2[lfind(
            s2,
            local_is(other),
        )] == s[lfind(s, local_is(other))],
{
    let k = lfind(s, local_is(key));
    crate::extractor::lemma_lfind_bounds(s, local_is(key));
    assert forall|j: int| 0 <= j < s.len() implies local_is(key)(#[trigger] s[j]) == local_is(key)(s2[j]) by {
        if j == k {
            assert(s2[j].0 == s[j].0);
        }
    }
    crate::extractor::lemma_lfind_same_hits(s, s2, local_is(key));
    assert forall|j: int| 0 <= j < s.len() implies local_is(other)(#[trigger] s[j]) == local_is(other)(s2[j]) by {
        if j == k {
            assert(s2[j].0 == s[j].0);
        }
    }
    crate::extractor::lemma_lfind_same_hits(s, s2, local_is(other));
    crate::extractor::lemma_lfind_bounds(s, local_is(other));
    let ko = lfind(s, local_is(other));
    if ko >= 0 && ko != k {
        assert(s2[ko] == s[ko]);
    }
}

/// The escaped length of a concatenation is the sum of the escaped lengths
/// of its parts, and the empty text has none.
pub proof fn law_escaped_len_concat(a: Seq<char>, b: Seq<char>, attr_mode: bool)
    ensures
        spec_escaped_len(a + b, attr_mode) == spec_escaped_len(a, attr_mode) + spec_escaped_len(b, attr_mode),
        spec_escaped_len(Seq::empty(), attr_mode) == 0,
    decreases b.len(),
{
    if b.len() == 0 {
        assert(a + b =~= a);
    } else {
        law_escaped_len_concat(a, b.drop_last(), attr_mode);
        assert((a + b).drop_last() =~= a + b.drop_last());
        assert((a + b).last() == b.last());
    }
}

impl Attributes {
    /// The number of bytes the attributes add to the opening tag.
    pub fn len(&self) -> (r: usize)
        requires
            attributes_len(self.entries@) <= usize::MAX,
        ensures
            r == attributes_len(self.entries@),
    {
        let mut i: usize = 0;
        let mut acc: usize = 0;
        assert(self.entries@.take(0) =~= Seq::<(QualName, String)>::empty());
        while i < self.entries.len()
            invariant
                i <= self.entries@.len(),
                acc == attributes_len(self.entries@.take(i as int)),
                attributes_len(self.entries@) <= usize::MAX,
            decreases self.entries@.len() - i,
        {
            proof {
                assert(self.entries@.take(i + 1).drop_last() =~= self.entries@.take(i as int));
                lemma_attributes_len_prefix(self.entries@, i + 1);
            }
            let (k, v) = &self.entries[i];
            let p = match &k.prefix {
                Some(p) => byte_len(p.as_str()) + 1,
                None => 0,
            };
            acc = acc + p + byte_len(k.local.as_str()) + 4 + escaped_len(v.as_str(), true);
            i = i + 1;
        }
        proof {
            assert(self.entries@.take(i as int) =~= self.entries@);
        }
        acc
    }
}

/// Entries whose local name is `key`.
pub open spec fn local_is(key: Seq<char>) -> spec_fn((QualName, String)) -> bool {
    |e: (QualName, String)| e.0.local@ == key
}

/// Entries whose name is exactly `key` with no prefix and no namespace.
pub open spec fn plain_key_is(key: Seq<char>) -> spec_fn((QualName, String)) -> bool {
    |e: (QualName, String)| e.0.prefix is None && e.0.ns@.len() == 0 && e.0.local@ == key
}

/// Finds the first entry satisfying `local_is(key)`, or, when `plain`,
/// `plain_key_is(key)`.
fn find_attr(entries: &Vec<(QualName, String)>, key: &str, plain: bool) -> (r: Option<usize>)
    ensures
        ({
            let p = if plain { plain_key_is(key@) } else { local_is(key@) };
            match r {
                Some(i) => i == lfind(entries@, p) && i < entries@.len(),
                None => lfind(entries@, p) == -1,
            }
        }),
{
    let ghost p = if plain { plain_key_is(key@) } else { local_is(key@) };
    let k = String::from_str(key);
    let mut i: usize = 0;
    while i < entries.len()
        invariant
            p == (if plain { plain_key_is(key@) } else { local_is(key@) }),
            k@ == key@,
            i <= entries@.len(),
            forall|j: int| 0 <= j < i ==> !p(#[trigger] entries@[j]),
        decreases entries@.len() - i,
    {
        let e = &entries[i].0;
        let hit = if plain {
            e.prefix.is_none() && e.ns.as_str().unicode_len() == 0 && e.local == k
        } else {
            e.local == k
        };
        if hit {
            proof {
                assert(p(entries@[i as int]));
                lemma_lfind(entries@, p, i as int);
            }
            return Some(i);
        }
        i = i + 1;
    }
    proof {
        lemma_lfind(entries@, p, -1);
    }
    None
}

impl Attributes {
    /// The value of the first attribute whose local name is `key`.
    pub fn value(&self, key: &str) -> (r: Option<&String>)
        ensures
            ({
                let k = lfind(self.entries@, local_is(key@));
                if k >= 0 {
                    r == Some(&self.entries@[k].1)
                } else {
                    r is None
                }
            }),
    {
        match find_attr(&self.entries, key, false) {
            Some(i) => Some(&self.entries[i].1),
            None => None,
        }
    }

    /// Sets the value of the first attribute whose local name is `key`, if
    /// there is one.
    pub fn set(&mut self, key: &str, value: &str)
        ensures
            set_step(old(self).entries@, key@, value@, final(self).entries@),
    {
        match find_attr(&self.entries, key, false) {
            Some(i) => {
                let (name, _) = self.entries.remove(i);
                self.entries.insert(i, (name, String::from_str(value)));
                proof {
                    assert forall|j: int| 0 <= j < old(self).entries@.len() && j != i implies #[trigger] self.entries@[j]
                        == old(self).entries@[j] by {}
                }
            },
            None => {},
        }
    }

    /// Removes the first attribute whose local name is `key` and gives its
    /// value.
    pub fn take(&mut self, key: &str) -> (r: Option<String>)
        ensures
            ({
                let k = lfind(old(self).entries@, local_is(key@));
                if k >= 0 {
                    &&& r == Some(old(self).entries@[k].1)
                    &&& final(self).entries@ == old(self).entries@.remove(k)
                } else {
                    r is None && final(self).entries@ == old(self).entries@
                }
            }),
    {
        match find_attr(&self.entries, key, false) {
            Some(i) => {
                let (_, v) = self.entries.remove(i);
                Some(v)
            },
            None => None,
        }
    }

    /// Binds the plain attribute `key` to `value`: the attribute with
    /// exactly that name gets the value, or a new one is appended.
    pub fn new_attr(&mut self, key: &str, value: String)
        ensures
            ({
                let k = lfind(old(self).entries@, plain_key_is(key@));
                if k >= 0 {
                    final(self).entries@ == old(self).entries@.update(k, (old(self).entries@[k].0, value))
                } else {
                    &&& final(self).entries@.len() == old(self).entries@.len() + 1
                    &&& final(self).entries@.drop_last() == old(self).entries@
                    &&& final(self).entries@.last().0.prefix is None
                    &&& final(self).entries@.last().0.ns@.len() == 0
                    &&& final(self).entries@.last().0.local@ == key@
                    &&& final(self).entries@.last().1 == value
                }
            }),
    {
        match find_attr(&self.entries, key, true) {
            Some(i) => {
                let (name, _) = self.entries.remove(i);
                self.entries.insert(i, (name, value));
                proof {
                    assert(self.entries@ =~= old(self).entries@.update(i as int, (old(self).entries@[i as int].0, value)));
                }
            },
            None => {
                let name = QualName { prefix: None, ns: String::new(), local: String::from_str(key) };
                self.entries.push((name, value));
                proof {
                    assert(self.entries@.drop_last() =~= old(self).entries@);
                }
            },
        }
    }
}

/// An element of the parsed document and the byte range it takes in the
/// serialized document.
pub struct ElementData {
    pub name: QualName,
    pub attributes: Attributes,
    pub start_offset: usize,
    pub end_offset: usize,
    pub closed: bool,
}

impl ElementData {
    /// A new element, placed at offset 0 with the length of its tags and
    /// attributes.
    pub fn new_element(name: QualName, attributes: Attributes) -> (r: Self)
        requires
            2 * spec_tag_len(name) + 1 + attributes_len(attributes.entries@) <= usize::MAX,
        ensures
            r.name == name,
            r.attributes == attributes,
            r.start_offset == 0,
            r.end_offset == spec_base_len(name) + attributes_len(attributes.entries@),
            !r.closed,
    {
        let attrs_len = attributes.len();
        let base = base_len(&name);
        ElementData { name, attributes, start_offset: 0, end_offset: base + attrs_len, closed: false }
    }

    /// Resets the end so that the element takes the length of its tags and
    /// attributes.
    pub fn update_len(&mut self)
        requires
            old(self).start_offset + 2 * spec_tag_len(old(self).name) + 1 + attributes_len(old(self).attributes.entries@)
                <= usize::MAX,
        ensures
            final(self).end_offset == old(self).start_offset + spec_base_len(old(self).name) + attributes_len(
                old(self).attributes.entries@,
            ),
            final(self).start_offset == old(self).start_offset,
            final(self).name == old(self).name,
            final(self).attributes == old(self).attributes,
            final(self).closed == old(self).closed,
    {
        let len = base_len(&self.name) + self.attributes.len();
        self.end_offset = self.start_offset + len;
    }

    /// The bytes the element takes.
    pub fn range(&self) -> (r: DocumentRange)
        ensures
            r == (DocumentRange { start: self.start_offset, end: self.end_offset }),
    {
        DocumentRange { start: self.start_offset, end: self.end_offset }
    }

    /// The bytes of the element's content, between its tags.
    pub fn inner_range(&self) -> (r: DocumentRange)
        requires
            self.start_offset + spec_tag_len(self.name) + attributes_len(self.attributes.entries@) <= usize::MAX,
            spec_tag_len(self.name) + 1 <= self.end_offset,
        ensures
            r.start == self.start_offset + spec_tag_len(self.name) + attributes_len(self.attributes.entries@),
            r.end == self.end_offset - (spec_tag_len(self.name) + 1),
    {
        let t = tag_len(&self.name);
        let a = self.attributes.len();
        DocumentRange { start: self.start_offset + t + a, end: self.end_offset - (t + 1) }
    }

    /// Whether the element is a `span` or `div`, the offset past its tag
    /// name (`<` and the name), and the offset past its attributes, as
    /// notations record them; the lengths are cut to the integer widths.
    pub fn is_text_and_offsets(&self) -> (r: (bool, u8, u16))
        requires
            attributes_len(self.attributes.entries@) <= usize::MAX,
            bytes_len(self.name.local@) % 256 != 255,
            (attributes_len(self.attributes.entries@) % 65536) + (bytes_len(self.name.local@) % 256) + 2 <= 65535,
        ensures
            r.0 == (self.name.local@ == "span"@ || self.name.local@ == "div"@),
            r.1 == (bytes_len(self.name.local@) % 256) + 1,
            r.2 == (attributes_len(self.attributes.entries@) % 65536) + r.1 + 1,
    {
        let n = byte_len(self.name.local.as_str());
        let t = self.name.local == String::from_str("span") || self.name.local == String::from_str("div");
        let o: u8 = (n % 256) as u8 + 1;
        let a = self.attributes.len();
        let i: u16 = (a % 65536) as u16 + (o as u16 + 1);
        (t, o, i)
    }
}

} // verus!
