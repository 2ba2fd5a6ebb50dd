//! The OMDoc outline of a document's narrative: its sections, slides,
//! paragraphs, problems and modules with what they use and import, and the
//! declarations, references and terms among them.
//!
//! What a backend adds to it (rendered titles, the metadata of modules,
//! morphisms and structures, the titles of referenced documents) is not
//! part of this outline.
use vstd::prelude::*;
use crate::extractor::{CognitiveDimension, DocumentElement, DocumentRange, ParagraphKind};

verus! {

/// An element of the OMDoc outline.
pub enum OMDocElement<T> {
    Slide { uri: String, uses: Vec<String>, children: Vec<OMDocElement<T>> },
    Section { uri: String, title: Option<DocumentRange>, uses: Vec<String>, children: Vec<OMDocElement<T>> },
    Module { uri: String, imports: Vec<String>, uses: Vec<String>, children: Vec<OMDocElement<T>> },
    Morphism { uri: String, uses: Vec<String>, children: Vec<OMDocElement<T>> },
    Structure { uri: String, uses: Vec<String>, extends: Vec<String>, children: Vec<OMDocElement<T>> },
    Extension { uri: String, target: String, uses: Vec<String>, children: Vec<OMDocElement<T>> },
    DocumentReference { uri: String },
    Variable { uri: String, is_seq: bool, tp: Option<T>, df: Option<T> },
    Paragraph {
        uri: String,
        kind: ParagraphKind,
        styles: Vec<String>,
        fors: Vec<(String, Option<T>)>,
        title: Option<DocumentRange>,
        uses: Vec<String>,
        children: Vec<OMDocElement<T>>,
    },
    Problem {
        uri: String,
        sub_problem: bool,
        autogradable: bool,
        title: Option<DocumentRange>,
        preconditions: Vec<(CognitiveDimension, String)>,
        objectives: Vec<(CognitiveDimension, String)>,
        uses: Vec<String>,
        children: Vec<OMDocElement<T>>,
    },
    TopTerm { uri: String, term: T },
    SymbolDeclaration(String),
}

/// The view of an outline element: its children as a sequence and the
/// modules it uses, imports or extends as texts.
pub enum OMView<T> {
    Slide { uri: String, uses: Seq<Seq<char>>, children: Seq<OMView<T>> },
    Section { uri: String, title: Option<DocumentRange>, uses: Seq<Seq<char>>, children: Seq<OMView<T>> },
    Module { uri: String, imports: Seq<Seq<char>>, uses: Seq<Seq<char>>, children: Seq<OMView<T>> },
    Morphism { uri: String, uses: Seq<Seq<char>>, children: Seq<OMView<T>> },
    Structure { uri: String, uses: Seq<Seq<char>>, extends: Seq<Seq<char>>, children: Seq<OMView<T>> },
    Extension { uri: String, target: String, uses: Seq<Seq<char>>, children: Seq<OMView<T>> },
    DocumentReference { uri: String },
    Variable { uri: String, is_seq: bool, tp: Option<T>, df: Option<T> },
    Paragraph {
        uri: String,
        kind: ParagraphKind,
        styles: Vec<String>,
        fors: Vec<(String, Option<T>)>,
        title: Option<DocumentRange>,
        uses: Seq<Seq<char>>,
        children: Seq<OMView<T>>,
    },
    Problem {
        uri: String,
        sub_problem: bool,
        autogradable: bool,
        title: Option<DocumentRange>,
        preconditions: Vec<(CognitiveDimension, String)>,
        objectives: Vec<(CognitiveDimension, String)>,
        uses: Seq<Seq<char>>,
        children: Seq<OMView<T>>,
    },
    TopTerm { uri: String, term: T },
    SymbolDeclaration(String),
}

/// The texts of a list of strings.
pub open spec fn texts(v: Seq<String>) -> Seq<Seq<char>> {
    v.map_values(|s: String| s@)
}

/// The view of an outline element.
pub open spec fn om_view<T>(e: OMDocElement<T>) -> OMView<T>
    decreases e,
{
    match e {
        OMDocElement::Slide { uri, uses, children } => OMView::Slide { uri, uses: texts(uses@), children: om_views(children@) },
        OMDocElement::Section { uri, title, uses, children } => OMView::Section {
            uri,
            title,
            uses: texts(uses@),
            children: om_views(children@),
        },
        OMDocElement::Module { uri, imports, uses, children } => OMView::Module {
            uri,
            imports: texts(imports@),
            uses: texts(uses@),
            children: om_views(children@),
        },
        OMDocElement::Morphism { uri, uses, children } => OMView::Morphism {
            uri,
            uses: texts(uses@),
            children: om_views(children@),
        },
        OMDocElement::Structure { uri, uses, extends, children } => OMView::Structure {
            uri,
            uses: texts(uses@),
            extends: texts(extends@),
            children: om_views(children@),
        },
        OMDocElement::Extension { uri, target, uses, children } => OMView::Extension {
            uri,
            target,
            uses: texts(uses@),
            children: om_views(children@),
        },
        OMDocElement::DocumentReference { uri } => OMView::DocumentReference { uri },
        OMDocElement::Variable { uri, is_seq, tp, df } => OMView::Variable { uri, is_seq, tp, df },
        OMDocElement::Paragraph { uri, kind, styles, fors, title, uses, children } => OMView::Paragraph {
            uri,
            kind,
            styles,
            fors,
            title,
            uses: texts(uses@),
            children: om_views(children@),
        },
        OMDocElement::Problem { uri, sub_problem, autogradable, title, preconditions, objectives, uses, children } =>
            OMView::Problem {
            uri,
            sub_problem,
            autogradable,
            title,
            preconditions,
            objectives,
            uses: texts(uses@),
            children: om_views(children@),
        },
        OMDocElement::TopTerm { uri, term } => OMView::TopTerm { uri, term },
        OMDocElement::SymbolDeclaration(s) => OMView::SymbolDeclaration(s),
    }
}

/// The views of a list of outline elements.
pub open spec fn om_views<T>(s: Seq<OMDocElement<T>>) -> Seq<OMView<T>>
    decreases s,
{
    if s.len() == 0 {
        Seq::empty()
    } else {
        om_views(s.subrange(0, s.len() - 1)).push(om_view(s[s.len() - 1]))
    }
}

/// What a walk over a list of narrative elements has gathered: the
/// outline elements, and the modules used and imported, each once, in the
/// order in which they first came.
pub struct Gathered<T> {
    pub out: Seq<OMView<T>>,
    pub uses: Seq<Seq<char>>,
    pub imports: Seq<Seq<char>>,
}

/// Nothing gathered.
pub open spec fn nothing<T>() -> Gathered<T> {
    Gathered { out: Seq::empty(), uses: Seq::empty(), imports: Seq::empty() }
}

/// `s` with `x` added unless it has it.
pub open spec fn set_insert(s: Seq<Seq<char>>, x: Seq<char>) -> Seq<Seq<char>> {
    if s.contains(x) {
        s
    } else {
        s.push(x)
    }
}

/// `g` with `e` added to its outline elements.
pub open spec fn emit<T>(g: Gathered<T>, e: OMView<T>) -> Gathered<T> {
    Gathered { out: g.out.push(e), ..g }
}

/// What walking the narrative element `e` adds to `g`: a skipped section
/// adds what its children add; a section, slide, paragraph, problem,
/// module, morphism, structure or extension adds one element whose
/// children, uses and imports are gathered from its own children alone;
/// a use or an import of a module is recorded; references, variables,
/// symbol declarations and top-level terms add an element; the rest adds
/// nothing.
pub open spec fn walk_one<T, A, F>(e: DocumentElement<T, A, F>, g: Gathered<T>) -> Gathered<T>
    decreases e,
{
    match e {
        DocumentElement::SkipSection(ch) => walk(ch@, g),
        DocumentElement::Section { uri, title, children, .. } => {
            let i = walk(children@, nothing());
            emit(g, OMView::Section { uri, title, uses: i.uses, children: i.out })
        },
        DocumentElement::Slide { uri, children, .. } => {
            let i = walk(children@, nothing());
            emit(g, OMView::Slide { uri, uses: i.uses, children: i.out })
        },
        DocumentElement::Paragraph { uri, kind, styles, fors, title, children, .. } => {
            let i = walk(children@, nothing());
            emit(g, OMView::Paragraph { uri, kind, styles, fors, title, uses: i.uses, children: i.out })
        },
        DocumentElement::Problem { uri, sub_problem, autogradable, title, children, preconditions, objectives, .. } => {
            let i = walk(children@, nothing());
            emit(
                g,
                OMView::Problem {
                    uri,
                    sub_problem,
                    autogradable,
                    title,
                    preconditions,
                    objectives,
                    uses: i.uses,
                    children: i.out,
                },
            )
        },
        DocumentElement::Module { module, children, .. } => {
            let i = walk(children@, nothing());
            emit(g, OMView::Module { uri: module, imports: i.imports, uses: i.uses, children: i.out })
        },
        DocumentElement::Morphism { morphism, children, .. } => {
            let i = walk(children@, nothing());
            emit(g, OMView::Morphism { uri: morphism, uses: i.uses, children: i.out })
        },
        DocumentElement::MathStructure { structure, children, .. } => {
            let i = walk(children@, nothing());
            emit(g, OMView::Structure { uri: structure, uses: i.uses, extends: i.imports, children: i.out })
        },
        DocumentElement::Extension { extension, target, children, .. } => {
            let i = walk(children@, nothing());
            emit(g, OMView::Extension { uri: extension, target, uses: i.uses, children: i.out })
        },
        DocumentElement::DocumentReference { target, .. } => emit(g, OMView::DocumentReference { uri: target }),
        DocumentElement::SymbolDeclaration(s) => emit(g, OMView::SymbolDeclaration(s)),
        DocumentElement::Variable { uri, is_seq, tp, df, .. } => emit(g, OMView::Variable { uri, is_seq, tp, df }),
        DocumentElement::UseModule(m) => Gathered { uses: set_insert(g.uses, m@), ..g },
        DocumentElement::ImportModule(m) => Gathered { imports: set_insert(g.imports, m@), ..g },
        DocumentElement::TopTerm { uri, term } => emit(g, OMView::TopTerm { uri, term }),
        _ => g,
    }
}

/// What walking the narrative elements `s`, in order, adds to `g`.
pub open spec fn walk<T, A, F>(s: Seq<DocumentElement<T, A, F>>, g: Gathered<T>) -> Gathered<T>
    decreases s,
{
    if s.len() == 0 {
        g
    } else {
        walk_one(s[s.len() - 1], walk(s.subrange(0, s.len() - 1), g))
    }
}


/// What the lists `out`, `uses` and `imports` hold, as gathered.
pub open spec fn gathered<T>(out: Seq<OMDocElement<T>>, uses: Seq<String>, imports: Seq<String>) -> Gathered<T> {
    Gathered { out: om_views(out), uses: texts(uses), imports: texts(imports) }
}

/// Empty lists have gathered nothing.
proof fn lemma_nothing_gathered<T>(out: Seq<OMDocElement<T>>, uses: Seq<String>, imports: Seq<String>)
    requires
        out.len() == 0,
        uses.len() == 0,
        imports.len() == 0,
    ensures
        gathered(out, uses, imports) == nothing::<T>(),
{
    assert(texts(uses) =~= Seq::<Seq<char>>::empty());
    assert(texts(imports) =~= Seq::<Seq<char>>::empty());
}

/// Adds the module `m` to `s` unless it is there.
fn insert_module(s: &mut Vec<String>, m: String)
    ensures
        texts(final(s)@) == set_insert(texts(old(s)@), m@),
{
    let mut i: usize = 0;
    while i < s.len()
        invariant
            i <= s@.len(),
            s@ == old(s)@,
            forall|j: int| 0 <= j < i ==> s@[j]@ != m@,
        decreases s@.len() - i,
    {
        if s[i] == m {
            assert(texts(s@)[i as int] == m@);
            return;
        }
        i = i + 1;
    }
    proof {
        if texts(s@).contains(m@) {
            let j = choose|j: int| 0 <= j < texts(s@).len() && texts(s@)[j] == m@;
            assert(s@[j]@ == m@);
        }
    }
    let ghost s0 = texts(s@);
    s.push(m);
    assert(texts(s@) =~= s0.push(m@));
}

/// Appends `e` to `out`.
fn push_elem<T>(out: &mut Vec<OMDocElement<T>>, e: OMDocElement<T>)
    ensures
        om_views(final(out)@) == om_views(old(out)@).push(om_view(e)),
{
    out.push(e);
    assert(out@.subrange(0, out@.len() - 1) =~= old(out)@);
}

/// Walks one narrative element, as `walk_one` says.
#[verifier::spinoff_prover]
#[verifier::rlimit(50)]
fn walk_one_exec<T, A, F>(
    e: DocumentElement<T, A, F>,
    out: &mut Vec<OMDocElement<T>>,
    uses: &mut Vec<String>,
    imports: &mut Vec<String>,
)
    ensures
        gathered(final(out)@, final(uses)@, final(imports)@) == walk_one(e, gathered(old(out)@, old(uses)@, old(imports)@)),
    decreases e,
{
    match e {
        DocumentElement::SkipSection(ch) => {
            walk_exec(ch, out, uses, imports);
        },
        DocumentElement::Section { uri, title, children, .. } => {
            let mut o: Vec<OMDocElement<T>> = Vec::new();
            let mut u: Vec<String> = Vec::new();
            let mut im: Vec<String> = Vec::new();
            proof {
                lemma_nothing_gathered(o@, u@, im@);
            }
            walk_exec(children, &mut o, &mut u, &mut im);
            push_elem(out, OMDocElement::Section { uri, title, uses: u, children: o });
        },
        DocumentElement::Slide { uri, children, .. } => {
            let mut o: Vec<OMDocElement<T>> = Vec::new();
            let mut u: Vec<String> = Vec::new();
            let mut im: Vec<String> = Vec::new();
            proof {
                lemma_nothing_gathered(o@, u@, im@);
            }
            walk_exec(children, &mut o, &mut u, &mut im);
            push_elem(out, OMDocElement::Slide { uri, uses: u, children: o });
        },
        DocumentElement::Paragraph { uri, kind, styles, fors, title, children, .. } => {
            let mut o: Vec<OMDocElement<T>> = Vec::new();
            let mut u: Vec<String> = Vec::new();
            let mut im: Vec<String> = Vec::new();
            proof {
                lemma_nothing_gathered(o@, u@, im@);
            }
            walk_exec(children, &mut o, &mut u, &mut im);
            push_elem(out, OMDocElement::Paragraph { uri, kind, styles, fors, title, uses: u, children: o });
        },
        DocumentElement::Problem { uri, sub_problem, autogradable, title, children, preconditions, objectives, .. } => {
            let mut o: Vec<OMDocElement<T>> = Vec::new();
            let mut u: Vec<String> = Vec::new();
            let mut im: Vec<String> = Vec::new();
            proof {
                lemma_nothing_gathered(o@, u@, im@);
            }
            walk_exec(children, &mut o, &mut u, &mut im);
            push_elem(out, OMDocElement::Problem { uri, sub_problem, autogradable, title, preconditions, objectives, uses: u, children: o });
        },
        DocumentElement::Module { module, children, .. } => {
            let mut o: Vec<OMDocElement<T>> = Vec::new();
            let mut u: Vec<String> = Vec::new();
            let mut im: Vec<String> = Vec::new();
            proof {
                lemma_nothing_gathered(o@, u@, im@);
            }
            walk_exec(children, &mut o, &mut u, &mut im);
            push_elem(out, OMDocElement::Module { uri: module, imports: im, uses: u, children: o });
        },
        DocumentElement::Morphism { morphism, children, .. } => {
            let mut o: Vec<OMDocElement<T>> = Vec::new();
            let mut u: Vec<String> = Vec::new();
            let mut im: Vec<String> = Vec::new();
            proof {
                lemma_nothing_gathered(o@, u@, im@);
            }
            walk_exec(children, &mut o, &mut u, &mut im);
            push_elem(out, OMDocElement::Morphism { uri: morphism, uses: u, children: o });
        },
        DocumentElement::MathStructure { structure, children, .. } => {
            let mut o: Vec<OMDocElement<T>> = Vec::new();
            let mut u: Vec<String> = Vec::new();
            let mut im: Vec<String> = Vec::new();
            proof {
                lemma_nothing_gathered(o@, u@, im@);
            }
            walk_exec(children, &mut o, &mut u, &mut im);
            push_elem(out, OMDocElement::Structure { uri: structure, uses: u, extends: im, children: o });
        },
        DocumentElement::Extension { extension, target, children, .. } => {
            let mut o: Vec<OMDocElement<T>> = Vec::new();
            let mut u: Vec<String> = Vec::new();
            let mut im: Vec<String> = Vec::new();
            proof {
                lemma_nothing_gathered(o@, u@, im@);
            }
            walk_exec(children, &mut o, &mut u, &mut im);
            push_elem(out, OMDocElement::Extension { uri: extension, target, uses: u, children: o });
        },
        DocumentElement::DocumentReference { target, .. } => {
            push_elem(out, OMDocElement::DocumentReference { uri: target });
        },
        DocumentElement::SymbolDeclaration(s) => {
            push_elem(out, OMDocElement::SymbolDeclaration(s));
        },
        DocumentElement::Variable { uri, is_seq, tp, df, .. } => {
            push_elem(out, OMDocElement::Variable { uri, is_seq, tp, df });
        },
        DocumentElement::UseModule(m) => {
            insert_module(uses, m);
        },
        DocumentElement::ImportModule(m) => {
            insert_module(imports, m);
        },
        DocumentElement::TopTerm { uri, term } => {
            push_elem(out, OMDocElement::TopTerm { uri, term });
        },
        DocumentElement::SetSectionLevel(_) | DocumentElement::Notation { .. }
        | DocumentElement::VariableNotation { .. } => {},
    }
}

/// Walks the narrative elements `s` in order, as `walk` says.
fn walk_exec<T, A, F>(
    s: Vec<DocumentElement<T, A, F>>,
    out: &mut Vec<OMDocElement<T>>,
    uses: &mut Vec<String>,
    imports: &mut Vec<String>,
)
    ensures
        gathered(final(out)@, final(uses)@, final(imports)@) == walk(s@, gathered(old(out)@, old(uses)@, old(imports)@)),
    decreases s@,
{
    let ghost orig = s@;
    let mut v = s;
    match v.pop() {
        None => {
            assert(orig.len() == 0);
        },
        Some(last) => {
            proof {
                assert(v@ =~= orig.subrange(0, orig.len() - 1));
                assert(last == orig[orig.len() - 1]);
            }
            walk_exec(v, out, uses, imports);
            walk_one_exec(last, out, uses, imports);
        },
    }
}

impl<T> OMDocElement<T> {
    /// The outline elements of the narrative elements `children`, in
    /// order; the modules they use and import are added to `uses` and
    /// `imports`, each once.
    pub fn do_children<A, F>(children: Vec<DocumentElement<T, A, F>>, uses: &mut Vec<String>, imports: &mut Vec<String>) -> (r: Vec<
        OMDocElement<T>,
    >)
        ensures
            ({
                let g = walk(children@, Gathered { out: Seq::empty(), uses: texts(old(uses)@), imports: texts(old(imports)@) });
                &&& om_views(r@) == g.out
                &&& texts(final(uses)@) == g.uses
                &&& texts(final(imports)@) == g.imports
            }),
    {
        let mut out: Vec<OMDocElement<T>> = Vec::new();
        assert(om_views(out@) =~= Seq::<OMView<T>>::empty());
        walk_exec(children, &mut out, uses, imports);
        out
    }
}


/// Walking a list with one more element at its end: the list's elements
/// are walked first, then the new one.
proof fn lemma_walk_push<T, A, F>(s: Seq<DocumentElement<T, A, F>>, e: DocumentElement<T, A, F>, g: Gathered<T>)
    ensures
        walk(s.push(e), g) == walk_one(e, walk(s, g)),
{
    let t = s.push(e);
    assert(t.subrange(0, t.len() - 1) =~= s);
    assert(t[t.len() - 1] == e);
}

/// What one more narrative element adds to an outline. A section, slide,
/// paragraph, problem, module, morphism, structure or extension adds
/// exactly one outline element of its kind, with its URI and its own data,
/// whose children and uses (a module's imports, a structure's extended
/// modules) are gathered from its own children alone: the uses and imports
/// gathered so far stay as they are. A skipped section adds what its
/// children add, in place. A use or an import of a module adds it to the
/// uses or imports unless it is there, and nothing else. A reference, a
/// symbol declaration, a variable or a top-level term adds one element of
/// its kind; the other elements add nothing.
pub proof fn law_outline_step<T, A, F>(s: Seq<DocumentElement<T, A, F>>, e: DocumentElement<T, A, F>, g: Gathered<T>)
    ensures
        ({
            let before = walk(s, g);
            let after = walk(s.push(e), g);
            match e {
            DocumentElement::Section { uri, title, children, .. } => {
                let inner = walk(children@, nothing());
                &&& after.out == before.out.push(OMView::Section { uri, title, uses: inner.uses, children: inner.out })
                &&& after.uses == before.uses
                &&& after.imports == before.imports
            },
            DocumentElement::Slide { uri, children, .. } => {
                let inner = walk(children@, nothing());
                &&& after.out == before.out.push(OMView::Slide { uri, uses: inner.uses, children: inner.out })
                &&& after.uses == before.uses
                &&& after.imports == before.imports
            },
            DocumentElement::Paragraph { uri, kind, styles, fors, title, children, .. } => {
                let inner = walk(children@, nothing());
                &&& after.out == before.out.push(OMView::Paragraph { uri, kind, styles, fors, title, uses: inner.uses, children: inner.out })
                &&& after.uses == before.uses
                &&& after.imports == before.imports
            },
            DocumentElement::Problem { uri, sub_problem, autogradable, title, children, preconditions, objectives, .. } => {
                let inner = walk(children@, nothing());
                &&& after.out == before.out.push(OMView::Problem { uri, sub_problem, autogradable, title, preconditions, objectives, uses: inner.uses, children: inner.out })
                &&& after.uses == before.uses
                &&& after.imports == before.imports
            },
            DocumentElement::Module { module, children, .. } => {
                let inner = walk(children@, nothing());
                &&& after.out == before.out.push(OMView::Module { uri: module, imports: inner.imports, uses: inner.uses, children: inner.out })
                &&& after.uses == before.uses
                &&& after.imports == before.imports
            },
            DocumentElement::Morphism { morphism, children, .. } => {
                let inner = walk(children@, nothing());
                &&& after.out == before.out.push(OMView::Morphism { uri: morphism, uses: inner.uses, children: inner.out })
                &&& after.uses == before.uses
                &&& after.imports == before.imports
            },
            DocumentElement::MathStructure { structure, children, .. } => {
                let inner = walk(children@, nothing());
                &&& after.out == before.out.push(OMView::Structure { uri: structure, uses: inner.uses, extends: inner.imports, children: inner.out })
                &&& after.uses == before.uses
                &&& after.imports == before.imports
            },
            DocumentElement::Extension { extension, target, children, .. } => {
                let inner = walk(children@, nothing());
                &&& after.out == before.out.push(OMView::Extension { uri: extension, target, uses: inner.uses, children: inner.out })
                &&& after.uses == before.uses
                &&& after.imports == before.imports
            },
            DocumentElement::SkipSection(ch) => after == walk(ch@, before),
            DocumentElement::UseModule(m) => {
                &&& after.out == before.out
                &&& after.imports == before.imports
                &&& after.uses.contains(m@)
                &&& forall|x: Seq<char>| before.uses.contains(x) ==> after.uses.contains(x)
                &&& after.uses.len() == before.uses.len() + (if before.uses.contains(m@) {
                    0int
                } else {
                    1int
                })
            },
            DocumentElement::ImportModule(m) => {
                &&& after.out == before.out
                &&& after.uses == before.uses
                &&& after.imports.contains(m@)
                &&& forall|x: Seq<char>| before.imports.contains(x) ==> after.imports.contains(x)
                &&& after.imports.len() == before.imports.len() + (if before.imports.contains(m@) {
                    0int
                } else {
                    1int
                })
            },
            DocumentElement::DocumentReference { target, .. } => after.out == before.out.push(
                OMView::DocumentReference { uri: target },
            ) && after.uses == before.uses && after.imports == before.imports,
            DocumentElement::SymbolDeclaration(x) => after.out == before.out.push(OMView::SymbolDeclaration(x))
                && after.uses == before.uses && after.imports == before.imports,
            DocumentElement::Variable { uri, is_seq, tp, df, .. } => after.out == before.out.push(
                OMView::Variable { uri, is_seq, tp, df },
            ) && after.uses == before.uses && after.imports == before.imports,
            DocumentElement::TopTerm { uri, term } => after.out == before.out.push(OMView::TopTerm { uri, term })
                && after.uses == before.uses && after.imports == before.imports,
            _ => after == before,
        }
        }),
{
    lemma_walk_push(s, e, g);
    let before = walk(s, g);
    match e {
        DocumentElement::UseModule(m) => {
            if !before.uses.contains(m@) {
                assert(before.uses.push(m@)[before.uses.len() as int] == m@);
                assert forall|x: Seq<char>| before.uses.contains(x) implies before.uses.push(m@).contains(x) by {
                    let i = choose|i: int| 0 <= i < before.uses.len() && before.uses[i] == x;
                    assert(before.uses.push(m@)[i] == x);
                }
            }
        },
        DocumentElement::ImportModule(m) => {
            if !before.imports.contains(m@) {
                assert(before.imports.push(m@)[before.imports.len() as int] == m@);
                assert forall|x: Seq<char>| before.imports.contains(x) implies before.imports.push(m@).contains(x) by {
                    let i = choose|i: int| 0 <= i < before.imports.len() && before.imports[i] == x;
                    assert(before.imports.push(m@)[i] == x);
                }
            }
        },
        _ => {},
    }
}

} // verus!
