//! Section numbering: the seven section levels, the section counters of a
//! document, and the choice of the level of the next section.
use vstd::prelude::*;
use vstd::string::StringExecFns;
use crate::extractor::{lemma_lfind, lemma_lfind_bounds, lemma_rfind, lfind, rfind, ParagraphKind};
use crate::gitlab::clone_opt;
use crate::numbers::{decimal, decimal_text};
use crate::toc::{TOCElem, preorder, lemma_preorder_prefix};

verus! {

/// The levels of sections, from the outermost.
#[derive(Clone, Copy, Debug, PartialEq, Eq, Structural)]
pub enum SectionLevel {
    Part,
    Chapter,
    Section,
    Subsection,
    Subsubsection,
    Paragraph,
    Subparagraph,
}

/// The position of a level, from 0 for parts to 6 for subparagraphs.
pub open spec fn level_index(l: SectionLevel) -> int {
    match l {
        SectionLevel::Part => 0,
        SectionLevel::Chapter => 1,
        SectionLevel::Section => 2,
        SectionLevel::Subsection => 3,
        SectionLevel::Subsubsection => 4,
        SectionLevel::Paragraph => 5,
        SectionLevel::Subparagraph => 6,
    }
}

impl SectionLevel {
    /// The position of the level.
    pub fn index(self) -> (r: u8)
        ensures
            r == level_index(self),
    {
        match self {
            SectionLevel::Part => 0,
            SectionLevel::Chapter => 1,
            SectionLevel::Section => 2,
            SectionLevel::Subsection => 3,
            SectionLevel::Subsubsection => 4,
            SectionLevel::Paragraph => 5,
            SectionLevel::Subparagraph => 6,
        }
    }

    /// The next level down; subparagraphs stay subparagraphs.
    pub fn inc(self) -> (r: Self)
        ensures
            level_index(r) == if level_index(self) < 6 {
                level_index(self) + 1
            } else {
                6
            },
    {
        match self {
            SectionLevel::Part => SectionLevel::Chapter,
            SectionLevel::Chapter => SectionLevel::Section,
            SectionLevel::Section => SectionLevel::Subsection,
            SectionLevel::Subsection => SectionLevel::Subsubsection,
            SectionLevel::Subsubsection => SectionLevel::Paragraph,
            SectionLevel::Paragraph => SectionLevel::Subparagraph,
            SectionLevel::Subparagraph => SectionLevel::Subparagraph,
        }
    }
}

/// What kind of unit the traversal is in.
#[derive(Clone, Copy, Debug, PartialEq, Eq, Structural)]
pub enum LogicalLevel {
    NoLevel,
    Section(SectionLevel),
    Paragraph,
    BeamerSlide,
}

/// The level of the next section: one below the current section, the
/// maximal level outside of any section, and none inside a paragraph or a
/// slide.
pub open spec fn spec_next_level(current: LogicalLevel, max: SectionLevel) -> Option<SectionLevel> {
    match current {
        LogicalLevel::Section(s) => Some(
            if level_index(s) < 6 {
                level_of(level_index(s) + 1)
            } else {
                SectionLevel::Subparagraph
            },
        ),
        LogicalLevel::NoLevel => Some(max),
        _ => None,
    }
}

/// The level at position `i`.
pub open spec fn level_of(i: int) -> SectionLevel {
    if i <= 0 {
        SectionLevel::Part
    } else if i == 1 {
        SectionLevel::Chapter
    } else if i == 2 {
        SectionLevel::Section
    } else if i == 3 {
        SectionLevel::Subsection
    } else if i == 4 {
        SectionLevel::Subsubsection
    } else if i == 5 {
        SectionLevel::Paragraph
    } else {
        SectionLevel::Subparagraph
    }
}

/// The level of the next section.
pub fn next_level(current: LogicalLevel, max: SectionLevel) -> (r: Option<SectionLevel>)
    ensures
        r == spec_next_level(current, max),
{
    match current {
        LogicalLevel::Section(s) => Some(s.inc()),
        LogicalLevel::NoLevel => Some(max),
        _ => None,
    }
}

/// The counters of the seven section levels.
#[derive(Clone, Copy, Debug)]
pub struct AllSections(pub [u16; 7]);

/// Whether `b` counts anything at a level above `i`.
pub open spec fn counts_above(b: Seq<u16>, i: int) -> bool {
    exists|j: int| 0 <= j < i && b[j] > 0
}

/// Level `i` of the sum of the counters `a` and `b`: the counts add up,
/// except that from the section level on, a level below one that `b`
/// counts restarts at 0.
pub open spec fn sum_at(a: Seq<u16>, b: Seq<u16>, i: int) -> int {
    if i >= 2 && counts_above(b, i) {
        0
    } else {
        a[i] + b[i]
    }
}

/// The sum of `a` and `b` fits in the counters.
pub open spec fn sum_fits(a: Seq<u16>, b: Seq<u16>) -> bool {
    forall|i: int| 0 <= i < 7 && !(i >= 2 && counts_above(b, i)) ==> a[i] + b[i] <= u16::MAX
}

/// The counters with 1 at level `l` and 0 elsewhere.
pub open spec fn unit_at(l: SectionLevel) -> Seq<u16> {
    Seq::new(7, |i: int| if i == level_index(l) { 1u16 } else { 0u16 })
}

/// Starting a section at level `l` counts one more section at `l`, keeps
/// the counts of the levels above it, and restarts at 0 the counts of the
/// levels below it from the section level on; parts and chapters below a
/// part keep their counts.
pub proof fn law_section_step(a: Seq<u16>, l: SectionLevel)
    requires
        a.len() == 7,
    ensures
        forall|i: int|
            0 <= i < 7 ==> #[trigger] sum_at(a, unit_at(l), i) == if i == level_index(l) {
                a[i] + 1
            } else if i > level_index(l) && i >= 2 {
                0
            } else {
                a[i] as int
            },
{
    let b = unit_at(l);
    assert forall|i: int| 0 <= i < 7 implies #[trigger] sum_at(a, b, i) == if i == level_index(l) {
        a[i] + 1
    } else if i > level_index(l) && i >= 2 {
        0
    } else {
        a[i] as int
    } by {
        if i > level_index(l) {
            assert(b[level_index(l)] > 0);
            assert(counts_above(b, i));
        } else {
            assert(!counts_above(b, i)) by {
                if counts_above(b, i) {
                    let j = choose|j: int| 0 <= j < i && b[j] > 0;
                    assert(b[j] == 0);
                }
            }
        }
    }
}

impl AllSections {
    /// All counters at 0.
    pub fn zero() -> (r: Self)
        ensures
            forall|i: int| 0 <= i < 7 ==> r.0@[i] == 0,
    {
        AllSections([0, 0, 0, 0, 0, 0, 0])
    }

    /// The sum of two counter states, as `sum_at` says.
    pub fn plus(self, rhs: Self) -> (r: Self)
        requires
            sum_fits(self.0@, rhs.0@),
        ensures
            forall|i: int| 0 <= i < 7 ==> r.0@[i] == sum_at(self.0@, rhs.0@, i),
    {
        let a = self.0;
        let b = rhs.0;
        let c1 = b[0] > 0;
        let c2 = c1 || b[1] > 0;
        let c3 = c2 || b[2] > 0;
        let c4 = c3 || b[3] > 0;
        let c5 = c4 || b[4] > 0;
        let c6 = c5 || b[5] > 0;
        proof {
            assert(c2 == counts_above(b@, 2)) by {
                if c2 {
                    if b@[0] > 0 {
                        assert(0 <= 0 < 2 && b@[0] > 0);
                    } else {
                        assert(0 <= 1 < 2 && b@[1] > 0);
                    }
                }
            }
            assert(c3 == counts_above(b@, 3)) by {
                if c3 && !c2 {
                    assert(b@[2] > 0);
                }
            }
            assert(c4 == counts_above(b@, 4)) by {
                if c4 && !c3 {
                    assert(b@[3] > 0);
                }
            }
            assert(c5 == counts_above(b@, 5)) by {
                if c5 && !c4 {
                    assert(b@[4] > 0);
                }
            }
            assert(c6 == counts_above(b@, 6)) by {
                if c6 && !c5 {
                    assert(b@[5] > 0);
                }
            }
            assert(!counts_above(b@, 0));
            assert(counts_above(b@, 1) == c1) by {
                if c1 {
                    assert(0 <= 0 < 1 && b@[0] > 0);
                }
            }
        }
        let r = AllSections(
            [
                a[0] + b[0],
                a[1] + b[1],
                if c2 { 0 } else { a[2] + b[2] },
                if c3 { 0 } else { a[3] + b[3] },
                if c4 { 0 } else { a[4] + b[4] },
                if c5 { 0 } else { a[5] + b[5] },
                if c6 { 0 } else { a[6] + b[6] },
            ],
        );
        proof {
            assert forall|i: int| 0 <= i < 7 implies r.0@[i] == sum_at(a@, b@, i) by {
                if i == 0 {
                } else if i == 1 {
                } else if i == 2 {
                } else if i == 3 {
                } else if i == 4 {
                } else if i == 5 {
                } else {
                }
            }
        }
        r
    }

    /// Adds `rhs` in place, as `plus` does.
    pub fn plus_assign(&mut self, rhs: Self)
        requires
            sum_fits(old(self).0@, rhs.0@),
        ensures
            forall|i: int| 0 <= i < 7 ==> final(self).0@[i] == sum_at(old(self).0@, rhs.0@, i),
    {
        *self = self.plus(rhs);
    }

    /// Counts one more section at level `l`: the levels above stay, level
    /// `l` goes up by one, and the levels below restart at 0, except that
    /// a new part keeps the chapter count.
    pub fn plus_level(self, l: SectionLevel) -> (r: Self)
        requires
            self.0@[level_index(l)] < u16::MAX,
        ensures
            forall|i: int| 0 <= i < 7 ==> r.0@[i] == sum_at(self.0@, unit_at(l), i),
            forall|i: int| 0 <= i < level_index(l) ==> r.0@[i] == self.0@[i],
            r.0@[level_index(l)] == self.0@[level_index(l)] + 1,
            forall|i: int| level_index(l) < i < 7 && i >= 2 ==> r.0@[i] == 0,
    {
        let k = l.index() as usize;
        let mut u: [u16; 7] = [0, 0, 0, 0, 0, 0, 0];
        u[k] = 1;
        proof {
            assert(u@ =~= unit_at(l));
            assert forall|i: int| level_index(l) < i < 7 implies counts_above(u@, i) by {
                assert(0 <= level_index(l) < i && u@[level_index(l)] > 0);
            }
            assert forall|i: int| 0 <= i <= level_index(l) implies !counts_above(u@, i) by {
                if counts_above(u@, i) {
                    let j = choose|j: int| 0 <= j < i && u@[j] > 0;
                    assert(u@[j] == 0);
                }
            }
        }
        self.plus(AllSections(u))
    }
}

/// Sum of counters in place equals the sum by value.
pub proof fn law_plus_assign_is_plus(a: AllSections, b: AllSections, c: AllSections, d: AllSections)
    requires
        sum_fits(a.0@, b.0@),
        forall|i: int| 0 <= i < 7 ==> c.0@[i] == sum_at(a.0@, b.0@, i),
        forall|i: int| 0 <= i < 7 ==> d.0@[i] == sum_at(a.0@, b.0@, i),
    ensures
        c == d,
{
    assert(c.0@ =~= d.0@);
    assert(c.0 == d.0);
}

/// The view of an optional string.
pub open spec fn opt_view(o: Option<String>) -> Option<Seq<char>> {
    match o {
        Some(s) => Some(s@),
        None => None,
    }
}

/// The counter style entries for paragraphs of `kind` named `name`
/// (`None`: the default for the kind): the index of the first, or -1.
pub open spec fn style_entry(all: Seq<((ParagraphKind, Option<String>), Option<String>)>, kind: ParagraphKind, name: Option<Seq<char>>) -> int {
    lfind(all, style_is(kind, name))
}

/// The predicate "is the entry for `kind` and `name`".
pub open spec fn style_is(kind: ParagraphKind, name: Option<Seq<char>>) -> spec_fn(((ParagraphKind, Option<String>), Option<String>)) -> bool {
    |e: ((ParagraphKind, Option<String>), Option<String>)| e.0.0 == kind && opt_view(e.0.1) == name
}

/// The style among `styles` that decides the counter: the last one that
/// has an entry for `kind`, or -1.
pub open spec fn deciding_style(all: Seq<((ParagraphKind, Option<String>), Option<String>)>, kind: ParagraphKind, styles: Seq<String>) -> int {
    rfind(styles, |s: String| style_entry(all, kind, Some(s@)) >= 0)
}

/// The counter of a paragraph of `kind` with `styles`: the one of the
/// deciding style's entry; without one, the one of the kind's default
/// entry; else none.
pub open spec fn spec_counter(all: Seq<((ParagraphKind, Option<String>), Option<String>)>, kind: ParagraphKind, styles: Seq<String>) -> Option<String> {
    let j = deciding_style(all, kind, styles);
    if j >= 0 {
        all[style_entry(all, kind, Some(styles[j]@))].1
    } else {
        let e = style_entry(all, kind, None);
        if e >= 0 {
            all[e].1
        } else {
            None
        }
    }
}

/// Finds the entry for `kind` and the style `name`.
fn find_named_style(all: &Vec<((ParagraphKind, Option<String>), Option<String>)>, kind: ParagraphKind, name: &String) -> (r: Option<usize>)
    ensures
        match r {
            Some(i) => i == style_entry(all@, kind, Some(name@)) && i < all@.len(),
            None => style_entry(all@, kind, Some(name@)) == -1,
        },
{
    let ghost p = style_is(kind, Some(name@));
    let mut i: usize = 0;
    while i < all.len()
        invariant
            p == style_is(kind, Some(name@)),
            i <= all@.len(),
            forall|j: int| 0 <= j < i ==> !p(#[trigger] all@[j]),
        decreases all@.len() - i,
    {
        let e = &all[i];
        let same = e.0.0 == kind && match &e.0.1 {
            Some(a) => *a == *name,
            None => false,
        };
        if same {
            proof {
                assert(p(all@[i as int]));
                lemma_lfind(all@, p, i as int);
            }
            return Some(i);
        }
        proof {
            assert(!p(all@[i as int]));
        }
        i = i + 1;
    }
    proof {
        lemma_lfind(all@, p, -1);
    }
    None
}

/// Finds the default entry for `kind`.
fn find_default_style(all: &Vec<((ParagraphKind, Option<String>), Option<String>)>, kind: ParagraphKind) -> (r: Option<usize>)
    ensures
        match r {
            Some(i) => i == style_entry(all@, kind, None) && i < all@.len(),
            None => style_entry(all@, kind, None) == -1,
        },
{
    let ghost p = style_is(kind, None);
    let mut i: usize = 0;
    while i < all.len()
        invariant
            p == style_is(kind, None),
            i <= all@.len(),
            forall|j: int| 0 <= j < i ==> !p(#[trigger] all@[j]),
        decreases all@.len() - i,
    {
        let e = &all[i];
        if e.0.0 == kind && e.0.1.is_none() {
            proof {
                assert(p(all@[i as int]));
                lemma_lfind(all@, p, i as int);
            }
            return Some(i);
        }
        proof {
            assert(!p(all@[i as int]));
        }
        i = i + 1;
    }
    proof {
        lemma_lfind(all@, p, -1);
    }
    None
}

/// The counter of a paragraph of `kind` with `styles`, as `spec_counter`
/// says.
pub fn get_counter(all: &Vec<((ParagraphKind, Option<String>), Option<String>)>, kind: ParagraphKind, styles: &Vec<String>) -> (r: Option<String>)
    ensures
        r == spec_counter(all@, kind, styles@),
{
    let ghost p = |s: String| style_entry(all@, kind, Some(s@)) >= 0;
    let mut i = styles.len();
    while i > 0
        invariant
            p == (|s: String| style_entry(all@, kind, Some(s@)) >= 0),
            i <= styles@.len(),
            forall|j: int| i <= j < styles@.len() ==> !p(#[trigger] styles@[j]),
        decreases i,
    {
        i = i - 1;
        match find_named_style(all, kind, &styles[i]) {
            Some(e) => {
                proof {
                    assert(p(styles@[i as int]));
                    lemma_rfind(styles@, p, i as int);
                }
                return clone_opt(&all[e].1);
            },
            None => {
                proof {
                    assert(!p(styles@[i as int]));
                }
            },
        }
    }
    proof {
        lemma_rfind(styles@, p, -1);
    }
    match find_default_style(all, kind) {
        Some(e) => clone_opt(&all[e].1),
        None => None,
    }
}

/// The counters of a document: the current unit, the level of top
/// sections, the section counters, the paragraph counters by name, the
/// paragraph counters each section level resets, the counter of each
/// paragraph kind and style, and the slide counter.
pub struct SectionCounters {
    pub current: LogicalLevel,
    pub max: SectionLevel,
    pub sections: AllSections,
    pub counters: Vec<(String, u16)>,
    pub resets: Vec<(SectionLevel, Vec<String>)>,
    pub for_paras: Vec<((ParagraphKind, Option<String>), Option<String>)>,
    pub slides: u32,
}

/// Whether a section at level `lvl` resets the counter `name`: some reset
/// entry at `lvl` or below lists it.
pub open spec fn resets_counter(resets: Seq<(SectionLevel, Vec<String>)>, lvl: SectionLevel, name: Seq<char>) -> bool {
    exists|g: int, m: int|
        0 <= g < resets.len() && level_index(resets[g].0) >= level_index(lvl) && 0 <= m < resets[g].1@.len()
            && (#[trigger] resets[g].1@[m])@ == name
}

/// Whether some entry of `names` is `name`.
fn lists(names: &Vec<String>, name: &String) -> (r: bool)
    ensures
        r == exists|m: int| 0 <= m < names@.len() && (#[trigger] names@[m])@ == name@,
{
    let mut m: usize = 0;
    while m < names.len()
        invariant
            m <= names@.len(),
            forall|k: int| 0 <= k < m ==> (#[trigger] names@[k])@ != name@,
        decreases names@.len() - m,
    {
        if names[m] == *name {
            return true;
        }
        m = m + 1;
    }
    false
}

/// Whether a section at level `lvl` resets `name`.
fn is_reset(resets: &Vec<(SectionLevel, Vec<String>)>, lvl: SectionLevel, name: &String) -> (r: bool)
    ensures
        r == resets_counter(resets@, lvl, name@),
{
    let mut g: usize = 0;
    while g < resets.len()
        invariant
            g <= resets@.len(),
            forall|h: int, m: int|
                0 <= h < g && level_index(resets@[h].0) >= level_index(lvl) && 0 <= m < resets@[h].1@.len() ==> (
                #[trigger] resets@[h].1@[m])@ != name@,
        decreases resets@.len() - g,
    {
        if resets[g].0.index() >= lvl.index() && lists(&resets[g].1, name) {
            return true;
        }
        g = g + 1;
    }
    false
}

/// The section style of a section at level `l`, for the counter values
/// `s`: the counter settings down to its level; none below
/// subsubsections.
pub open spec fn section_style_text(l: SectionLevel, s: Seq<u16>) -> Option<Seq<char>> {
    let part = "counter-set:ftml-part "@ + decimal_text(s[0] as nat);
    let chapter = part + " ftml-chapter "@ + decimal_text(s[1] as nat);
    let section = chapter + " ftml-section "@ + decimal_text(s[2] as nat);
    let subsection = section + " ftml-subsection "@ + decimal_text(s[3] as nat);
    match l {
        SectionLevel::Part => Some(part + ";"@),
        SectionLevel::Chapter => Some(chapter),
        SectionLevel::Section => Some(section),
        SectionLevel::Subsection => Some(subsection),
        SectionLevel::Subsubsection => Some(subsection + " ftml-subsubsection "@ + decimal_text(s[4] as nat)),
        _ => None,
    }
}

/// The style of a section at level `l` for the counters `s`.
pub fn section_style(l: SectionLevel, s: &AllSections) -> (r: Option<String>)
    ensures
        opt_view(r) == section_style_text(l, s.0@),
{
    if l.index() >= 5 {
        return None;
    }
    let mut r = String::from_str("counter-set:ftml-part ");
    r.append(decimal(s.0[0] as u64).as_str());
    if l.index() == 0 {
        r.append(";");
        return Some(r);
    }
    r.append(" ftml-chapter ");
    r.append(decimal(s.0[1] as u64).as_str());
    if l.index() == 1 {
        return Some(r);
    }
    r.append(" ftml-section ");
    r.append(decimal(s.0[2] as u64).as_str());
    if l.index() == 2 {
        return Some(r);
    }
    r.append(" ftml-subsection ");
    r.append(decimal(s.0[3] as u64).as_str());
    if l.index() == 3 {
        return Some(r);
    }
    r.append(" ftml-subsubsection ");
    r.append(decimal(s.0[4] as u64).as_str());
    Some(r)
}

/// The CSS class of a section at level `l`.
pub open spec fn class_text(l: SectionLevel) -> Seq<char> {
    match l {
        SectionLevel::Part => "ftml-part"@,
        SectionLevel::Chapter => "ftml-chapter"@,
        SectionLevel::Section => "ftml-section"@,
        SectionLevel::Subsection => "ftml-subsection"@,
        SectionLevel::Subsubsection => "ftml-subsubsection"@,
        SectionLevel::Paragraph => "ftml-paragraph"@,
        SectionLevel::Subparagraph => "ftml-subparagraph"@,
    }
}

/// The style of a section sets the CSS counters of the levels above it and
/// then the counter of its own level, named by its class, to its count: a
/// part's style is `counter-set:ftml-part n;`, a chapter's continues the
/// part's counter with its own, and the style of each level down to
/// subsubsections is the style of the level above followed by its own class
/// and count. Paragraphs and subparagraphs get no style.
pub proof fn law_section_style_sets_own_counter(s: Seq<u16>)
    requires
        s.len() == 7,
    ensures
        section_style_text(SectionLevel::Part, s) == Some(
            "counter-set:"@ + class_text(SectionLevel::Part) + " "@ + decimal_text(s[0] as nat) + ";"@,
        ),
        section_style_text(SectionLevel::Chapter, s) == Some(
            "counter-set:"@ + class_text(SectionLevel::Part) + " "@ + decimal_text(s[0] as nat) + " "@ + class_text(
                SectionLevel::Chapter,
            ) + " "@ + decimal_text(s[1] as nat),
        ),
        section_style_text(SectionLevel::Section, s) == Some(
            section_style_text(SectionLevel::Chapter, s)->0 + " "@ + class_text(SectionLevel::Section) + " "@
                + decimal_text(s[2] as nat),
        ),
        section_style_text(SectionLevel::Subsection, s) == Some(
            section_style_text(SectionLevel::Section, s)->0 + " "@ + class_text(SectionLevel::Subsection) + " "@
                + decimal_text(s[3] as nat),
        ),
        section_style_text(SectionLevel::Subsubsection, s) == Some(
            section_style_text(SectionLevel::Subsection, s)->0 + " "@ + class_text(SectionLevel::Subsubsection) + " "@
                + decimal_text(s[4] as nat),
        ),
        section_style_text(SectionLevel::Paragraph, s) is None,
        section_style_text(SectionLevel::Subparagraph, s) is None,
{
    reveal_strlit("counter-set:");
    reveal_strlit("counter-set:ftml-part ");
    reveal_strlit(" ftml-chapter ");
    reveal_strlit(" ftml-section ");
    reveal_strlit(" ftml-subsection ");
    reveal_strlit(" ftml-subsubsection ");
    reveal_strlit("ftml-part");
    reveal_strlit("ftml-chapter");
    reveal_strlit("ftml-section");
    reveal_strlit("ftml-subsection");
    reveal_strlit("ftml-subsubsection");
    reveal_strlit(" ");
    reveal_strlit(";");
    let d0 = decimal_text(s[0] as nat);
    let d1 = decimal_text(s[1] as nat);
    let d2 = decimal_text(s[2] as nat);
    let d3 = decimal_text(s[3] as nat);
    let d4 = decimal_text(s[4] as nat);
    let part = "counter-set:ftml-part "@ + d0;
    let chapter = part + " ftml-chapter "@ + d1;
    let section = chapter + " ftml-section "@ + d2;
    let subsection = section + " ftml-subsection "@ + d3;
    assert(part + ";"@ =~= "counter-set:"@ + class_text(SectionLevel::Part) + " "@ + d0 + ";"@);
    assert(chapter =~= "counter-set:"@ + class_text(SectionLevel::Part) + " "@ + d0 + " "@ + class_text(
        SectionLevel::Chapter,
    ) + " "@ + d1);
    assert(section =~= chapter + " "@ + class_text(SectionLevel::Section) + " "@ + d2);
    assert(subsection =~= section + " "@ + class_text(SectionLevel::Subsection) + " "@ + d3);
    assert(subsection + " ftml-subsubsection "@ + d4 =~= subsection + " "@ + class_text(SectionLevel::Subsubsection)
        + " "@ + d4);
}

/// The CSS counter a section at level `l` sets.
pub fn section_class(l: SectionLevel) -> (r: &'static str)
    ensures
        r@ == class_text(l),
{
    match l {
        SectionLevel::Part => "ftml-part",
        SectionLevel::Chapter => "ftml-chapter",
        SectionLevel::Section => "ftml-section",
        SectionLevel::Subsection => "ftml-subsection",
        SectionLevel::Subsubsection => "ftml-subsubsection",
        SectionLevel::Paragraph => "ftml-paragraph",
        SectionLevel::Subparagraph => "ftml-subparagraph",
    }
}

impl SectionCounters {
    /// Starts a section at level `lvl`: its counter goes up, the levels
    /// below restart, and the paragraph counters that it resets go back to
    /// 0.
    pub fn set_section(&mut self, lvl: SectionLevel)
        requires
            old(self).sections.0@[level_index(lvl)] < u16::MAX,
        ensures
            final(self).current == LogicalLevel::Section(lvl),
            forall|i: int| 0 <= i < 7 ==> final(self).sections.0@[i] == sum_at(old(self).sections.0@, unit_at(lvl), i),
            final(self).counters@.len() == old(self).counters@.len(),
            forall|i: int|
                0 <= i < old(self).counters@.len() ==> (#[trigger] final(self).counters@[i]).0 == old(self).counters@[i].0
                    && final(self).counters@[i].1 == if resets_counter(old(self).resets@, lvl, old(self).counters@[i].0@) {
                    0
                } else {
                    old(self).counters@[i].1
                },
            final(self).max == old(self).max,
            final(self).resets == old(self).resets,
            final(self).for_paras == old(self).for_paras,
            final(self).slides == old(self).slides,
    {
        self.sections = self.sections.plus_level(lvl);
        let ghost secs = self.sections;
        let mut i: usize = 0;
        while i < self.counters.len()
            invariant
                self.sections == secs,
                self.max == old(self).max,
                self.for_paras == old(self).for_paras,
                self.slides == old(self).slides,
                i <= self.counters@.len(),
                self.counters@.len() == old(self).counters@.len(),
                self.resets == old(self).resets,
                forall|j: int|
                    0 <= j < old(self).counters@.len() ==> (#[trigger] self.counters@[j]).0 == old(self).counters@[j].0
                        && self.counters@[j].1 == if j < i && resets_counter(old(self).resets@, lvl, old(self).counters@[j].0@) {
                        0
                    } else {
                        old(self).counters@[j].1
                    },
            decreases self.counters@.len() - i,
        {
            if is_reset(&self.resets, lvl, &self.counters[i].0) {
                let (n, _) = self.counters.remove(i);
                self.counters.insert(i, (n, 0));
            }
            i = i + 1;
        }
        self.current = LogicalLevel::Section(lvl);
    }

    /// Starts the next section, when the current unit allows one, and gives
    /// the style and class of its element: the counter settings for the
    /// counts after the step and the level's class. Inside a paragraph or a
    /// slide nothing starts, and the element gets the style
    /// `display:content;` and no class.
    pub fn next_section(&mut self) -> (r: (Option<String>, Option<&'static str>))
        requires
            spec_next_level(old(self).current, old(self).max) matches Some(l) ==> old(self).sections.0@[level_index(l)]
                < u16::MAX,
        ensures
            match spec_next_level(old(self).current, old(self).max) {
                Some(l) => {
                    &&& opt_view(r.0) == section_style_text(l, final(self).sections.0@)
                    &&& r.1 matches Some(c) && c@ == class_text(l)
                },
                None => r.0 matches Some(st) && st@ == "display:content;"@ && r.1 is None,
            },
            spec_next_level(old(self).current, old(self).max) matches Some(l) ==> {
                &&& final(self).current == LogicalLevel::Section(l)
                &&& forall|i: int| 0 <= i < 7 ==> final(self).sections.0@[i] == sum_at(old(self).sections.0@, unit_at(l), i)
                &&& final(self).counters@.len() == old(self).counters@.len()
                &&& forall|i: int|
                    0 <= i < old(self).counters@.len() ==> (#[trigger] final(self).counters@[i]).0 == old(self).counters@[i].0
                        && final(self).counters@[i].1 == if resets_counter(old(self).resets@, l, old(self).counters@[i].0@) {
                        0
                    } else {
                        old(self).counters@[i].1
                    }
            },
            spec_next_level(old(self).current, old(self).max) is None ==> final(self).current == old(self).current
                && final(self).sections == old(self).sections && final(self).counters == old(self).counters,
            final(self).max == old(self).max,
            final(self).resets == old(self).resets,
            final(self).for_paras == old(self).for_paras,
            final(self).slides == old(self).slides,
    {
        match next_level(self.current, self.max) {
            Some(l) => {
                self.set_section(l);
                (section_style(l, &self.sections), Some(section_class(l)))
            },
            None => {
                proof {
                    reveal_strlit("display:content;");
                }
                (Some(String::from_str("display:content;")), None)
            },
        }
    }

    /// Starts a slide: the slide counter goes up.
    pub fn slide_inc(&mut self)
        requires
            old(self).slides < u32::MAX,
        ensures
            final(self).slides == old(self).slides + 1,
            final(self).current == LogicalLevel::BeamerSlide,
            final(self).sections == old(self).sections,
            final(self).counters == old(self).counters,
            final(self).max == old(self).max,
            final(self).resets == old(self).resets,
            final(self).for_paras == old(self).for_paras,
    {
        self.slides = self.slides + 1;
        self.current = LogicalLevel::BeamerSlide;
    }

    /// Starts a paragraph of `kind` with `styles`: its counter, if any,
    /// goes up, and the style that sets it is given (empty without one).
    pub fn get_para(&mut self, kind: ParagraphKind, styles: &Vec<String>) -> (r: String)
        requires
            spec_counter(old(self).for_paras@, kind, styles@) matches Some(n) ==> ({
                let k = lfind(old(self).counters@, |e: (String, u16)| e.0@ == n@);
                k >= 0 && old(self).counters@[k].1 < u16::MAX
            }),
        ensures
            final(self).current == LogicalLevel::Paragraph,
            final(self).sections == old(self).sections,
            final(self).max == old(self).max,
            final(self).resets == old(self).resets,
            final(self).for_paras == old(self).for_paras,
            final(self).slides == old(self).slides,
            match spec_counter(old(self).for_paras@, kind, styles@) {
                Some(n) => {
                    let k = lfind(old(self).counters@, |e: (String, u16)| e.0@ == n@);
                    let v = (old(self).counters@[k].1 + 1) as u16;
                    &&& final(self).counters@ == old(self).counters@.update(k, (old(self).counters@[k].0, v))
                    &&& r@ == "counter-set:ftml-"@ + n@ + " "@ + decimal_text(v as nat) + ";"@
                },
                None => final(self).counters@ == old(self).counters@ && r@.len() == 0,
            },
    {
        self.current = LogicalLevel::Paragraph;
        match get_counter(&self.for_paras, kind, styles) {
            Some(n) => {
                let ghost p = |e: (String, u16)| e.0@ == n@;
                let mut i: usize = 0;
                while i < self.counters.len()
                    invariant
                        p == (|e: (String, u16)| e.0@ == n@),
                        self.counters@ == old(self).counters@,
                        self.current == LogicalLevel::Paragraph,
                        self.sections == old(self).sections,
                        self.max == old(self).max,
                        self.resets == old(self).resets,
                        self.for_paras == old(self).for_paras,
                        self.slides == old(self).slides,
                        Some(n) == spec_counter(old(self).for_paras@, kind, styles@),
                        ({
                            let k = lfind(old(self).counters@, |e: (String, u16)| e.0@ == n@);
                            k >= 0 && old(self).counters@[k].1 < u16::MAX
                        }),
                        i <= self.counters@.len(),
                        forall|j: int| 0 <= j < i ==> !p(#[trigger] self.counters@[j]),
                    decreases self.counters@.len() - i,
                {
                    if self.counters[i].0 == n {
                        proof {
                            assert(p(self.counters@[i as int]));
                            lemma_lfind(self.counters@, p, i as int);
                        }
                        let (k, c) = self.counters.remove(i);
                        let v = c + 1;
                        self.counters.insert(i, (k, v));
                        proof {
                            assert(self.counters@ =~= old(self).counters@.update(i as int, (old(self).counters@[i as int].0, v)));
                        }
                        let mut r = String::from_str("counter-set:ftml-");
                        r.append(n.as_str());
                        r.append(" ");
                        r.append(decimal(v as u64).as_str());
                        r.append(";");
                        return r;
                    }
                    i = i + 1;
                }
                proof {
                    lemma_lfind(self.counters@, p, -1);
                }
                String::new()
            },
            None => String::new(),
        }
    }
}


/// The section counters after one more section at level `l`, over the
/// integers: the count at `l` goes up by one, the levels below it restart
/// from the section level on, the others stay.
pub open spec fn sections_plus(a: Seq<int>, l: SectionLevel) -> Seq<int> {
    Seq::new(
        7,
        |i: int|
            if i == level_index(l) {
                a[i] + 1
            } else if i > level_index(l) && i >= 2 {
                0
            } else {
                a[i]
            },
    )
}

/// The predicate "is the counter named `n`".
pub open spec fn has_name(n: Seq<char>) -> spec_fn((Seq<char>, int)) -> bool {
    |e: (Seq<char>, int)| e.0 == n
}

/// The named counters after a paragraph whose counter is `name`: the first
/// entry of that name goes up by one; other names are not tracked.
pub open spec fn count_paragraph(cs: Seq<(Seq<char>, int)>, name: Option<String>) -> Seq<(Seq<char>, int)> {
    match name {
        Some(n) => {
            let k = lfind(cs, has_name(n@));
            if k >= 0 {
                cs.update(k, (cs[k].0, cs[k].1 + 1))
            } else {
                cs
            }
        },
        None => cs,
    }
}

/// What the entries `s` of a table of contents count, walked in document
/// order from the counts `t` (slides, section counters, named paragraph
/// counters) in the unit `current`: a slide counts a slide; a section
/// counts a section at the next level and its entries are walked at that
/// level, unless the unit allows no section, and then it is passed over
/// with its entries; the entries of an inputref or of a hidden section are
/// walked in the same unit; a paragraph counts on the counter of its kind
/// and styles.
pub open spec fn tally(
    s: Seq<TOCElem>,
    current: LogicalLevel,
    max: SectionLevel,
    map: Seq<((ParagraphKind, Option<String>), Option<String>)>,
    t: (int, Seq<int>, Seq<(Seq<char>, int)>),
) -> (int, Seq<int>, Seq<(Seq<char>, int)>)
    decreases s,
{
    if s.len() == 0 {
        t
    } else {
        let t1 = tally(s.drop_last(), current, max, map, t);
        match s[s.len() - 1] {
            TOCElem::Slide => (t1.0 + 1, t1.1, t1.2),
            TOCElem::Section { children, .. } => match spec_next_level(current, max) {
                Some(l) => tally(children@, LogicalLevel::Section(l), max, map, (t1.0, sections_plus(t1.1, l), t1.2)),
                None => t1,
            },
            TOCElem::SkippedSection { children } => tally(children@, current, max, map, t1),
            TOCElem::Inputref { children, .. } => tally(children@, current, max, map, t1),
            TOCElem::Paragraph { styles, kind } => (t1.0, t1.1, count_paragraph(t1.2, spec_counter(map, kind, styles@))),
        }
    }
}

/// Walking two runs of entries in turn counts what walking them together
/// counts.
pub proof fn law_tally_concat(
    a: Seq<TOCElem>,
    b: Seq<TOCElem>,
    current: LogicalLevel,
    max: SectionLevel,
    map: Seq<((ParagraphKind, Option<String>), Option<String>)>,
    t: (int, Seq<int>, Seq<(Seq<char>, int)>),
)
    ensures
        tally(a + b, current, max, map, t) == tally(b, current, max, map, tally(a, current, max, map, t)),
    decreases b.len(),
{
    if b.len() == 0 {
        assert(a + b =~= a);
    } else {
        law_tally_concat(a, b.drop_last(), current, max, map, t);
        assert((a + b).drop_last() =~= a + b.drop_last());
        assert((a + b)[(a + b).len() - 1] == b[b.len() - 1]);
    }
}

/// What the entries below an inputref count: slides, sections by level,
/// and the named paragraph counters.
pub struct InputrefCounts {
    pub slides: u32,
    pub sections: AllSections,
    pub counters: Vec<(String, u16)>,
}

/// The counts as integers.
pub open spec fn counts_model(c: InputrefCounts) -> (int, Seq<int>, Seq<(Seq<char>, int)>) {
    (
        c.slides as int,
        Seq::new(7, |i: int| c.sections.0@[i] as int),
        named_counts(c.counters@),
    )
}

/// The named counters with their counts as integers.
pub open spec fn named_counts(v: Seq<(String, u16)>) -> Seq<(Seq<char>, int)> {
    Seq::new(v.len(), |i: int| (v[i].0@, v[i].1 as int))
}

/// Each count of `t` is at most `k` above the same count of `t0`, and the
/// counters have the same names.
pub open spec fn grown_by(t: (int, Seq<int>, Seq<(Seq<char>, int)>), t0: (int, Seq<int>, Seq<(Seq<char>, int)>), k: int) -> bool {
    &&& t.0 <= t0.0 + k
    &&& forall|i: int| 0 <= i < 7 ==> t.1[i] <= t0.1[i] + k
    &&& t.2.len() == t0.2.len()
    &&& forall|j: int| 0 <= j < t.2.len() ==> t.2[j].0 == t0.2[j].0 && t.2[j].1 <= t0.2[j].1 + k
}

/// Room for `k` more counts on every count of `c`.
pub open spec fn room_for(c: InputrefCounts, k: int) -> bool {
    &&& c.slides + k <= u32::MAX
    &&& forall|i: int| 0 <= i < 7 ==> c.sections.0@[i] + k <= u16::MAX
    &&& forall|j: int| 0 <= j < c.counters@.len() ==> c.counters@[j].1 + k <= u16::MAX
}

/// Growth by `k1` and then by `k2` is growth by `k1 + k2`.
proof fn lemma_grown_trans(
    t2: (int, Seq<int>, Seq<(Seq<char>, int)>),
    t1: (int, Seq<int>, Seq<(Seq<char>, int)>),
    t0: (int, Seq<int>, Seq<(Seq<char>, int)>),
    k1: int,
    k2: int,
)
    requires
        grown_by(t1, t0, k1),
        grown_by(t2, t1, k2),
    ensures
        grown_by(t2, t0, k1 + k2),
{
}

/// Counts grown by at most `done` from counts with room for `total` have
/// room for `total - done`.
proof fn lemma_room(a: InputrefCounts, a0: InputrefCounts, done: int, extra: int, total: int)
    requires
        grown_by(counts_model(a), counts_model(a0), done),
        room_for(a0, total),
        done + extra <= total,
    ensures
        room_for(a, extra),
{
    let m = counts_model(a);
    let m0 = counts_model(a0);
    assert forall|i: int| 0 <= i < 7 implies a.sections.0@[i] + extra <= u16::MAX by {
        assert(m.1[i] == a.sections.0@[i]);
        assert(m0.1[i] == a0.sections.0@[i]);
    }
    assert forall|j: int| 0 <= j < a.counters@.len() implies a.counters@[j].1 + extra <= u16::MAX by {
        assert(m.2[j].1 == a.counters@[j].1);
        assert(m0.2[j].1 == a0.counters@[j].1);
    }
}

/// Counting a paragraph keeps the names and adds at most one to a count.
proof fn lemma_count_paragraph_grows(cs: Seq<(Seq<char>, int)>, name: Option<String>)
    ensures
        count_paragraph(cs, name).len() == cs.len(),
        forall|j: int|
            0 <= j < cs.len() ==> (#[trigger] count_paragraph(cs, name)[j]).0 == cs[j].0 && count_paragraph(cs, name)[j].1
                <= cs[j].1 + 1,
{
    if let Some(n) = name {
        lemma_lfind_bounds(cs, has_name(n@));
    }
}

/// Counts a paragraph whose counter is `name` on `counters`.
fn count_on(counters: &mut Vec<(String, u16)>, name: Option<String>)
    requires
        forall|j: int| 0 <= j < old(counters)@.len() ==> old(counters)@[j].1 < u16::MAX,
    ensures
        named_counts(final(counters)@)
            == count_paragraph(
            named_counts(old(counters)@),
            name,
        ),
{
    let ghost m0 = named_counts(old(counters)@);
    if let Some(n) = &name {
        let ghost p = has_name(n@);
        let mut i: usize = 0;
        while i < counters.len()
            invariant
                p == has_name(n@),
                name == Some(*n),
                counters@ == old(counters)@,
                m0 == named_counts(old(counters)@),
                forall|j: int| 0 <= j < old(counters)@.len() ==> old(counters)@[j].1 < u16::MAX,
                i <= counters@.len(),
                forall|j: int| 0 <= j < i ==> !p(#[trigger] m0[j]),
            decreases counters@.len() - i,
        {
            if counters[i].0 == *n {
                proof {
                    assert(p(m0[i as int]));
                    lemma_lfind(m0, p, i as int);
                }
                let (k, c) = counters.remove(i);
                counters.insert(i, (k, c + 1));
                proof {
                    let m1 = named_counts(counters@);
                    assert(m1 =~= m0.update(i as int, (m0[i as int].0, m0[i as int].1 + 1)));
                }
                return;
            }
            proof {
                assert(!p(m0[i as int]));
            }
            i = i + 1;
        }
        proof {
            lemma_lfind(m0, p, -1);
        }
    }
    proof {
        let m1 = named_counts(counters@);
        assert(m1 =~= m0);
    }
}

/// Walks the entries `elems` in the unit `current` and adds what they count
/// to `acc`, as `tally` says.
fn tally_into(
    elems: &Vec<TOCElem>,
    current: LogicalLevel,
    max: SectionLevel,
    map: &Vec<((ParagraphKind, Option<String>), Option<String>)>,
    acc: &mut InputrefCounts,
)
    requires
        room_for(*old(acc), preorder(elems@).len() as int),
    ensures
        counts_model(*final(acc)) == tally(elems@, current, max, map@, counts_model(*old(acc))),
        grown_by(counts_model(*final(acc)), counts_model(*old(acc)), preorder(elems@).len() as int),
    decreases elems@,
{
    let ghost t0 = counts_model(*acc);
    let ghost a0 = *acc;
    let ghost total = preorder(elems@).len() as int;
    let mut i: usize = 0;
    while i < elems.len()
        invariant
            i <= elems@.len(),
            t0 == counts_model(a0),
            total == preorder(elems@).len(),
            room_for(a0, total),
            counts_model(*acc) == tally(elems@.take(i as int), current, max, map@, t0),
            grown_by(counts_model(*acc), t0, preorder(elems@.take(i as int)).len() as int),
        decreases elems@.len() - i,
    {
        let ghost before = counts_model(*acc);
        let ghost done = preorder(elems@.take(i as int)).len() as int;
        let ghost t = elems@.take(i as int + 1);
        proof {
            assert(t.drop_last() =~= elems@.take(i as int));
            assert(t[t.len() - 1] == elems@[i as int]);
            lemma_preorder_prefix(elems@, i as int + 1);
        }
        let ghost step = preorder(t).len() as int;
        proof {
            lemma_room(*acc, a0, done, step - done, total);
        }
        match &elems[i] {
            TOCElem::Slide => {
                acc.slides = acc.slides + 1;
                proof {
                    let m = counts_model(*acc);
                    assert(m.1 =~= before.1);
                    assert(m.2 =~= before.2);
                    lemma_grown_trans(m, before, t0, done, 1);
                }
            },
            TOCElem::Section { children, .. } => {
                proof {
                    assert(step == done + 1 + preorder(children@).len());
                }
                if let Some(l) = next_level(current, max) {
                    acc.sections = acc.sections.plus_level(l);
                    let ghost mid = counts_model(*acc);
                    proof {
                        assert(mid.1 =~= sections_plus(before.1, l));
                        assert(mid.2 =~= before.2);
                        assert(grown_by(mid, before, 1));
                        lemma_grown_trans(mid, before, t0, done, 1);
                        lemma_room(*acc, a0, done + 1, preorder(children@).len() as int, total);
                    }
                    tally_into(children, LogicalLevel::Section(l), max, map, acc);
                    proof {
                        lemma_grown_trans(counts_model(*acc), mid, t0, done + 1, preorder(children@).len() as int);
                    }
                }
            },
            TOCElem::SkippedSection { children } => {
                proof {
                    assert(step == done + 1 + preorder(children@).len());
                    lemma_room(*acc, a0, done, preorder(children@).len() as int, total);
                }
                tally_into(children, current, max, map, acc);
                proof {
                    lemma_grown_trans(counts_model(*acc), before, t0, done, preorder(children@).len() as int);
                }
            },
            TOCElem::Inputref { children, .. } => {
                proof {
                    assert(step == done + 1 + preorder(children@).len());
                    lemma_room(*acc, a0, done, preorder(children@).len() as int, total);
                }
                tally_into(children, current, max, map, acc);
                proof {
                    lemma_grown_trans(counts_model(*acc), before, t0, done, preorder(children@).len() as int);
                }
            },
            TOCElem::Paragraph { styles, kind } => {
                let n = get_counter(map, *kind, styles);
                count_on(&mut acc.counters, n);
                proof {
                    let m = counts_model(*acc);
                    assert(m.1 =~= before.1);
                    assert(m.2 == count_paragraph(before.2, n));
                    lemma_count_paragraph_grows(before.2, n);
                    assert(grown_by(m, before, 1));
                    lemma_grown_trans(m, before, t0, done, 1);
                }
            },
        }
        i = i + 1;
    }
    proof {
        assert(elems@.take(elems@.len() as int) =~= elems@);
    }
}

/// What the entries below an inputref count, walked in the unit `current`
/// with `max` the level of top sections: the slides and sections from 0,
/// the named counters from `since`, by the counters of `para_map`.
pub fn update(
    ch: &Vec<TOCElem>,
    current: LogicalLevel,
    max: SectionLevel,
    since: Vec<(String, u16)>,
    para_map: &Vec<((ParagraphKind, Option<String>), Option<String>)>,
) -> (r: InputrefCounts)
    requires
        preorder(ch@).len() <= u16::MAX,
        forall|j: int| 0 <= j < since@.len() ==> since@[j].1 + preorder(ch@).len() <= u16::MAX,
    ensures
        counts_model(r) == tally(
            ch@,
            current,
            max,
            para_map@,
            (0, Seq::new(7, |i: int| 0int), named_counts(since@)),
        ),
{
    let mut acc = InputrefCounts { slides: 0, sections: AllSections::zero(), counters: since };
    proof {
        let m = counts_model(acc);
        assert(m.1 =~= Seq::new(7, |i: int| 0int));
    }
    tally_into(ch, current, max, para_map, &mut acc);
    acc
}

} // verus!
