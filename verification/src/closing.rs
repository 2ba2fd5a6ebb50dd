//! Closing an open FTML element: what the end of an annotated DOM node does
//! to the extraction state, and what it asks of the traversal.
//!
//! The traversal hands over what the node gives (its ranges, its texts, the
//! term or notation it denotes) and gets back the element to pass on to the
//! parent, if any, with what to do to the node.
use vstd::prelude::*;
use vstd::string::StringExecFns;
use crate::extractor::{
    child_added, error_pushed, problem_at, problem_error_pushed, rfind, updated_at, ArgMode,
    ChoiceBlockState, Content, DocumentElement, DocumentRange, ExtractorState, FTMLError,
    GnoteState, GradingNote, Narrative, NarrativeUri, NotationSpec, NotationState, OpNotation,
    OpenDeclaration, OpenModule, ParagraphKind, ProblemState, SolutionData, lfind,
    law_document_stays_at_bottom, term_added, arg_added, with_title, has_term_slot, single_for_paragraph,
    fors_insert, with_term, count_filled, after_gap, Choice, AnswerClass, pop_if, visible_var, views, Var,
    with_feedback, args_closed, TermOrList, arg_indices_ok, takes_children, children_view,
};

verus! {

/// What closing asks the traversal to do to the node.
pub struct NodeEffect {
    pub delete: bool,
    pub delete_children: bool,
    pub title: Option<String>,
}

/// What closing reads from the node.
pub struct NodeInfo<T> {
    pub range: DocumentRange,
    pub inner_range: DocumentRange,
    pub string: String,
    pub inner_string: String,
    pub term: Option<T>,
    pub notation: Option<NotationSpec>,
    pub op_notation: Option<OpNotation>,
}

/// An FTML element that has been opened and awaits its end.
pub enum OpenFTMLElement<T> {
    Invisible,
    SetSectionLevel(u8),
    ImportModule(String),
    UseModule(String),
    Slide(String),
    SlideNumber,
    ProofBody,
    /// A module; `nested` is the symbol URI of a module whose name is not
    /// simple, which then becomes a nested module of the enclosing one.
    Module { uri: String, meta: Option<String>, signature: Option<String>, nested: Option<String> },
    Morphism { uri: String, domain: String, total: bool },
    Assign(String),
    Section { lvl: u8, uri: String },
    SkipSection,
    Paragraph { uri: String, kind: ParagraphKind, styles: Vec<String> },
    Problem { uri: String, styles: Vec<String>, autogradable: bool, sub_problem: bool },
    Doctitle,
    Title,
    ProofTitle,
    SubproofTitle,
    Symdecl { uri: String },
    /// A variable declaration; `name_steps` are the steps of its name.
    Vardecl { uri: String, name_steps: Vec<String>, bind: bool, is_seq: bool },
    NotationComp,
    NotationOpComp,
    Definiendum(String),
    Type,
    Conclusion { uri: String, in_term: bool },
    Definiens { uri: Option<String>, in_term: bool },
    ClosedTerm(T),
    MMTRule(String),
    ArgSep,
    ArgMap,
    ArgMapSep,
    HeadTerm,
    ProblemHint,
    ProblemSolution(Option<String>),
    ProblemGradingNote,
    AnswerClass,
    AnswerClassFeedback,
    ChoiceBlock { multiple: bool, inline: bool },
    ProblemChoice,
    ProblemChoiceVerdict,
    ProblemChoiceFeedback,
    IfInputref(bool),
    Comp,
    MainComp,
    DefComp,
    /// An argument at the 1-based position `index`, or at `list_index`
    /// inside the list argument there.
    Arg { index: u8, list_index: Option<u8>, mode: ArgMode },
    /// The feedback of the last case of a fill-in block.
    FillinsolCase,
    /// A term; `term` is the term the traversal closed, `is_top` whether
    /// it stands outside any other term, `top_uri` the narrative URI joined
    /// with a fresh `term` id where that makes a URI, and `is_reference`
    /// whether the term only names a symbol or a variable.
    OpenTerm { term: T, is_top: bool, top_uri: Option<String>, is_reference: bool },
    /// A mathematical structure `uri`; for an extension of another
    /// structure (one whose name starts with `EXTSTRUCT`), `extension`
    /// holds the structure it extends: the symbol of the first import of
    /// its content that is no extension, where there is one.
    MathStructure { uri: String, extension: Option<Option<String>> },
    /// A reference to the document `uri` under `id`; `joined` is `id`
    /// joined to the narrative URI, where that makes a URI.
    Inputref { uri: String, id: String, joined: Option<String> },
    /// A notation of `target` with the id `id`, its precedence and those of
    /// its arguments; `joined` is `id` joined to the narrative URI, where
    /// that makes a URI.
    Notation { id: String, joined: Option<String>, target: NotationTarget, precedence: isize, argprecs: Vec<isize> },
}

/// What a notation is for: a symbol, a declared variable, or a variable
/// named by the steps of its name, to be resolved when it is closed.
pub enum NotationTarget {
    Symbol(String),
    Variable(String),
    VariableName(Vec<String>),
}

/// The elements of `s` but the invisible ones, in order.
pub open spec fn visible_only<T>(s: Seq<OpenFTMLElement<T>>) -> Seq<OpenFTMLElement<T>>
    decreases s.len(),
{
    if s.len() == 0 {
        s
    } else {
        let r = visible_only(s.drop_last());
        if s.last() is Invisible {
            r
        } else {
            r.push(s.last())
        }
    }
}

/// An `InvalidURI` error whose message is `prefix` followed by `id`.
pub open spec fn invalid_uri(prefix: Seq<char>, id: Seq<char>) -> spec_fn(FTMLError) -> bool {
    |e: FTMLError| e matches FTMLError::InvalidURI(m) && m@ == prefix + id
}

/// Closing a notation: the notation frame on top is closed; one with
/// components gives a notation element for its target under the joined
/// id, a variable name being resolved first. A missing frame, a frame
/// without components, an id that makes no URI or an unknown variable is
/// an error instead.
pub open spec fn notation_closed<T, A, F>(
    o: ExtractorState<T, A, F>,
    n: ExtractorState<T, A, F>,
    id: String,
    joined: Option<String>,
    target: NotationTarget,
    precedence: isize,
    argprecs: Vec<isize>,
) -> bool {
    let s = o.narrative@;
    &&& n.content@ == o.content@
    &&& n.modules@ == o.modules@
    &&& n.in_term == o.in_term
    &&& match s.last() {
        Narrative::Notation(ns) => {
        let popped = s.drop_last();
        if ns.attribute_index == 0 {
            n.narrative@ == popped && n.errors@ == o.errors@.push(FTMLError::NotInNarrative)
        } else {
            match joined {
                None => n.narrative@ == popped && error_pushed(o.errors@, n.errors@, invalid_uri(seq!['6', ':', ' '], id@)),
                Some(u) => match target {
                    NotationTarget::Symbol(sym) => child_added(
                        popped,
                        n.narrative@,
                        DocumentElement::Notation { symbol: sym, id: u, notation: ns, precedence, argprecs },
                    ) && n.errors@ == o.errors@,
                    NotationTarget::Variable(v) => child_added(
                        popped,
                        n.narrative@,
                        DocumentElement::VariableNotation { variable: v, id: u, notation: ns, precedence, argprecs },
                    ) && n.errors@ == o.errors@,
                    NotationTarget::VariableName(names) => match visible_var(popped, views(names@)) {
                        Some(DocumentElement::Variable { uri: decl, .. }) => child_added(
                            popped,
                            n.narrative@,
                            DocumentElement::VariableNotation { variable: decl, id: u, notation: ns, precedence, argprecs },
                        ) && n.errors@ == o.errors@,
                        _ => n.narrative@ == popped && n.errors@ == o.errors@.push(FTMLError::UnresolvedVariable(names)),
                    },
                },
            }
        }
        },
        _ => n.narrative@ == s && n.errors@ == o.errors@.push(FTMLError::NotInNarrative),
    }
}

/// Closing a top-level term: with its URI, the state leaves term mode and,
/// unless the term only names a symbol or variable, gets a top-level term
/// element; without one, an error and nothing else.
pub open spec fn top_term_closed<T, A, F>(
    o: ExtractorState<T, A, F>,
    n: ExtractorState<T, A, F>,
    term: T,
    top_uri: Option<String>,
    is_reference: bool,
) -> bool {
    &&& n.content@ == o.content@
    &&& n.modules@ == o.modules@
    &&& match top_uri {
        None => {
            &&& n.narrative@ == o.narrative@
            &&& n.in_term == o.in_term
            &&& error_pushed(o.errors@, n.errors@, invalid_uri("(should be impossible)"@, Seq::empty()))
        },
        Some(u) => {
            &&& !n.in_term
            &&& n.errors@ == o.errors@
            &&& if is_reference {
                n.narrative@ == o.narrative@
            } else {
                child_added(o.narrative@, n.narrative@, DocumentElement::TopTerm { uri: u, term })
            }
        },
    }
}

/// Closing an input reference: with a joined id, a reference element;
/// without one, an error.
pub open spec fn inputref_closed<T, A, F>(
    o: ExtractorState<T, A, F>,
    n: ExtractorState<T, A, F>,
    uri: String,
    id: String,
    joined: Option<String>,
    range: DocumentRange,
) -> bool {
    match joined {
        Some(u) => element_added(o, n, DocumentElement::DocumentReference { id: u, range, target: uri }),
        None => {
            &&& n.narrative@ == o.narrative@
            &&& n.content@ == o.content@
            &&& n.modules@ == o.modules@
            &&& n.in_term == o.in_term
            &&& error_pushed(o.errors@, n.errors@, invalid_uri(seq!['5', ':', ' '], id@))
        },
    }
}

/// No effect on the node.
pub open spec fn no_effect(e: NodeEffect) -> bool {
    !e.delete && !e.delete_children && e.title is None
}

/// The two states agree.
pub open spec fn same_state<T, A, F>(o: ExtractorState<T, A, F>, n: ExtractorState<T, A, F>) -> bool {
    &&& n.narrative@ == o.narrative@
    &&& n.content@ == o.content@
    &&& n.modules@ == o.modules@
    &&& n.errors@ == o.errors@
    &&& n.in_term == o.in_term
}

/// `n` is `o` with `e` added to the innermost frame that takes children.
pub open spec fn element_added<T, A, F>(o: ExtractorState<T, A, F>, n: ExtractorState<T, A, F>, e: DocumentElement<T, A, F>) -> bool {
    &&& child_added(o.narrative@, n.narrative@, e)
    &&& n.content@ == o.content@
    &&& n.modules@ == o.modules@
    &&& n.errors@ == o.errors@
    &&& n.in_term == o.in_term
}

/// The content stack `nc` is `oc` with `d` added to its innermost
/// container and no error; with no container, `oc` unchanged and a
/// `NotInContent` error.
pub open spec fn decl_or_error<T>(
    oc: Seq<Content<T>>,
    nc: Seq<Content<T>>,
    oe: Seq<FTMLError>,
    ne: Seq<FTMLError>,
    d: OpenDeclaration<T>,
) -> bool {
    let k = rfind(oc, |c: Content<T>| c is Container);
    if k >= 0 {
        &&& updated_at(oc, nc, k)
        &&& oc[k] matches Content::Container(u0, e0)
        &&& nc[k] matches Content::Container(u, e)
        &&& u == u0
        &&& e@ == e0@.push(d)
        &&& ne == oe
    } else {
        nc == oc && ne == oe.push(FTMLError::NotInContent)
    }
}

/// Closing the narrative frame on top when it satisfies `is_kind`: the
/// frame turns into `make(frame)` added to its parent; else an error that
/// satisfies `err`.
pub open spec fn frame_closed<T, A, F>(
    o: ExtractorState<T, A, F>,
    n: ExtractorState<T, A, F>,
    is_kind: spec_fn(Narrative<T, A, F>) -> bool,
    make: spec_fn(Narrative<T, A, F>) -> DocumentElement<T, A, F>,
    err: spec_fn(FTMLError) -> bool,
) -> bool {
    let s = o.narrative@;
    &&& n.content@ == o.content@
    &&& n.modules@ == o.modules@
    &&& n.in_term == o.in_term
    &&& if s.len() > 0 && is_kind(s.last()) {
        child_added(s.drop_last(), n.narrative@, make(s.last())) && n.errors@ == o.errors@
    } else {
        n.narrative@ == s && error_pushed(o.errors@, n.errors@, err)
    }
}

/// The error `NotInNarrative`.
pub open spec fn not_in_narrative(e: FTMLError) -> bool {
    e is NotInNarrative
}

/// The error "not in problem" with `code`.
pub open spec fn not_in_problem(code: Seq<char>) -> spec_fn(FTMLError) -> bool {
    |e: FTMLError| e matches FTMLError::NotInProblem(c) && c@ == code
}

/// Closing a module or morphism: the narrative container and the content
/// container on top are closed, the narrative becomes `elem` in the parent
/// frame, and `then` relates the content stack without the container, the
/// declarations of the container and the rest of the state.
pub open spec fn container_closed<T, A, F>(
    o: ExtractorState<T, A, F>,
    n: ExtractorState<T, A, F>,
    elem: spec_fn(Vec<DocumentElement<T, A, F>>) -> DocumentElement<T, A, F>,
    then: spec_fn(ExtractorState<T, A, F>, ExtractorState<T, A, F>, Seq<Content<T>>, Vec<OpenDeclaration<T>>) -> bool,
) -> bool {
    let s = o.narrative@;
    let c = o.content@;
    &&& n.in_term == o.in_term
    &&& if !(s.len() > 1 && s.last() is Container) {
        &&& n.narrative@ == s
        &&& n.content@ == c
        &&& n.modules@ == o.modules@
        &&& n.errors@ == o.errors@.push(FTMLError::NotInNarrative)
    } else if !(c.len() > 0 && c.last() is Container) {
        &&& n.narrative@ == s.drop_last()
        &&& n.content@ == c
        &&& n.modules@ == o.modules@
        &&& n.errors@ == o.errors@.push(FTMLError::NotInContent)
    } else {
        &&& child_added(s.drop_last(), n.narrative@, elem(s.last()->Container_1))
        &&& then(o, n, c.drop_last(), c.last()->Container_1)
    }
}

/// The element a closed section frame turns into.
pub open spec fn section_element<T, A, F>(f: Narrative<T, A, F>, range: DocumentRange, lvl: u8, uri: String) -> DocumentElement<T, A, F> {
    match f {
        Narrative::Section { title, children, .. } => DocumentElement::Section { range, level: lvl, title, uri, children },
        _ => DocumentElement::SetSectionLevel(lvl),
    }
}

/// The element a closed section frame turns into when the section is
/// skipped.
pub open spec fn skipped_element<T, A, F>(f: Narrative<T, A, F>) -> DocumentElement<T, A, F> {
    match f {
        Narrative::Section { children, .. } => DocumentElement::SkipSection(children),
        _ => DocumentElement::SetSectionLevel(0),
    }
}

/// The element a closed slide frame turns into.
pub open spec fn slide_element<T, A, F>(f: Narrative<T, A, F>, range: DocumentRange, uri: String) -> DocumentElement<T, A, F> {
    match f {
        Narrative::Slide { children } => DocumentElement::Slide { range, uri, children },
        _ => DocumentElement::SetSectionLevel(0),
    }
}

/// The element a closed paragraph frame turns into.
pub open spec fn paragraph_element<T, A, F>(
    f: Narrative<T, A, F>,
    range: DocumentRange,
    uri: String,
    kind: ParagraphKind,
    styles: Vec<String>,
) -> DocumentElement<T, A, F> {
    match f {
        Narrative::Paragraph(p) => DocumentElement::Paragraph {
            range,
            uri,
            kind,
            styles,
            fors: p.fors,
            title: p.title,
            children: p.children,
        },
        _ => DocumentElement::SetSectionLevel(0),
    }
}

/// The element a closed problem frame turns into.
pub open spec fn problem_element<T, A, F>(
    f: Narrative<T, A, F>,
    range: DocumentRange,
    uri: String,
    styles: Vec<String>,
    autogradable: bool,
    sub_problem: bool,
) -> DocumentElement<T, A, F> {
    match f {
        Narrative::Problem(p) => DocumentElement::Problem {
            range,
            uri,
            styles,
            sub_problem,
            autogradable,
            solutions: p.solutions,
            gnotes: p.gnotes,
            hints: p.hints,
            title: p.title,
            children: p.children,
            preconditions: p.preconditions,
            objectives: p.objectives,
        },
        _ => DocumentElement::SetSectionLevel(0),
    }
}


/// Section frames.
pub open spec fn is_section<T, A, F>() -> spec_fn(Narrative<T, A, F>) -> bool {
    |f: Narrative<T, A, F>| f is Section
}

/// Slide frames.
pub open spec fn is_slide<T, A, F>() -> spec_fn(Narrative<T, A, F>) -> bool {
    |f: Narrative<T, A, F>| f is Slide
}

/// Paragraph frames.
pub open spec fn is_paragraph<T, A, F>() -> spec_fn(Narrative<T, A, F>) -> bool {
    |f: Narrative<T, A, F>| f is Paragraph
}

/// Problem frames.
pub open spec fn is_problem<T, A, F>() -> spec_fn(Narrative<T, A, F>) -> bool {
    |f: Narrative<T, A, F>| f is Problem
}

/// The error `NotInNarrative`.
pub open spec fn narrative_error() -> spec_fn(FTMLError) -> bool {
    |e: FTMLError| not_in_narrative(e)
}

/// The error `NotInParagraph`.
pub open spec fn paragraph_error() -> spec_fn(FTMLError) -> bool {
    |e: FTMLError| e is NotInParagraph
}

/// Section frames turned into section elements.
pub open spec fn section_make<T, A, F>(range: DocumentRange, lvl: u8, uri: String) -> spec_fn(Narrative<T, A, F>) -> DocumentElement<T, A, F> {
    |f: Narrative<T, A, F>| section_element(f, range, lvl, uri)
}

/// Section frames turned into skipped sections.
pub open spec fn skipped_make<T, A, F>() -> spec_fn(Narrative<T, A, F>) -> DocumentElement<T, A, F> {
    |f: Narrative<T, A, F>| skipped_element(f)
}

/// Slide frames turned into slide elements.
pub open spec fn slide_make<T, A, F>(range: DocumentRange, uri: String) -> spec_fn(Narrative<T, A, F>) -> DocumentElement<T, A, F> {
    |f: Narrative<T, A, F>| slide_element(f, range, uri)
}

/// Paragraph frames turned into paragraph elements.
pub open spec fn paragraph_make<T, A, F>(
    range: DocumentRange,
    uri: String,
    kind: ParagraphKind,
    styles: Vec<String>,
) -> spec_fn(Narrative<T, A, F>) -> DocumentElement<T, A, F> {
    |f: Narrative<T, A, F>| paragraph_element(f, range, uri, kind, styles)
}

/// Problem frames turned into problem elements.
pub open spec fn problem_make<T, A, F>(
    range: DocumentRange,
    uri: String,
    styles: Vec<String>,
    autogradable: bool,
    sub_problem: bool,
) -> spec_fn(Narrative<T, A, F>) -> DocumentElement<T, A, F> {
    |f: Narrative<T, A, F>| problem_element(f, range, uri, styles, autogradable, sub_problem)
}

/// The narrative of a module turned into a module element.
pub open spec fn module_make<T, A, F>(range: DocumentRange, uri: String) -> spec_fn(Vec<DocumentElement<T, A, F>>) -> DocumentElement<T, A, F> {
    |ch: Vec<DocumentElement<T, A, F>>| DocumentElement::Module { range, module: uri, children: ch }
}

/// What a closed module does with its declarations.
pub open spec fn module_then<T, A, F>(
    uri: String,
    meta: Option<String>,
    signature: Option<String>,
    nested: Option<String>,
) -> spec_fn(ExtractorState<T, A, F>, ExtractorState<T, A, F>, Seq<Content<T>>, Vec<OpenDeclaration<T>>) -> bool {
    |o: ExtractorState<T, A, F>, n: ExtractorState<T, A, F>, rest: Seq<Content<T>>, els: Vec<OpenDeclaration<T>>|
        module_rest(o, n, rest, els, uri, meta, signature, nested)
}

/// The narrative of a morphism turned into a morphism element.
pub open spec fn morphism_make<T, A, F>(range: DocumentRange, uri: String) -> spec_fn(Vec<DocumentElement<T, A, F>>) -> DocumentElement<T, A, F> {
    |ch: Vec<DocumentElement<T, A, F>>| DocumentElement::Morphism { range, morphism: uri, children: ch }
}

/// The element a closed structure turns into.
pub open spec fn structure_make<T, A, F>(range: DocumentRange, uri: String) -> spec_fn(Vec<DocumentElement<T, A, F>>) -> DocumentElement<T, A, F> {
    |ch: Vec<DocumentElement<T, A, F>>| DocumentElement::MathStructure { range, structure: uri, children: ch }
}

/// What a closed structure does with its declarations.
pub open spec fn structure_then<T, A, F>(uri: String) -> spec_fn(ExtractorState<T, A, F>, ExtractorState<T, A, F>, Seq<Content<T>>, Vec<OpenDeclaration<T>>) -> bool {
    |o: ExtractorState<T, A, F>, n: ExtractorState<T, A, F>, rest: Seq<Content<T>>, els: Vec<OpenDeclaration<T>>|
        n.modules@ == o.modules@ && decl_or_error(
            rest,
            n.content@,
            o.errors@,
            n.errors@,
            OpenDeclaration::MathStructure { uri, elements: els },
        )
}

/// The element a closed extension turns into.
pub open spec fn extension_make<T, A, F>(range: DocumentRange, uri: String, target: String) -> spec_fn(Vec<DocumentElement<T, A, F>>) -> DocumentElement<T, A, F> {
    |ch: Vec<DocumentElement<T, A, F>>| DocumentElement::Extension { range, extension: uri, target, children: ch }
}

/// What a closed extension does with its declarations.
pub open spec fn extension_then<T, A, F>(uri: String, target: String) -> spec_fn(ExtractorState<T, A, F>, ExtractorState<T, A, F>, Seq<Content<T>>, Vec<OpenDeclaration<T>>) -> bool {
    |o: ExtractorState<T, A, F>, n: ExtractorState<T, A, F>, rest: Seq<Content<T>>, els: Vec<OpenDeclaration<T>>|
        n.modules@ == o.modules@ && decl_or_error(
            rest,
            n.content@,
            o.errors@,
            n.errors@,
            OpenDeclaration::Extension { uri, target, elements: els },
        )
}

/// What closing an extension whose target is unknown does: both frames are
/// closed as for any structure, but nothing is added and a `NotInContent`
/// error is recorded.
pub open spec fn untargeted_closed<T, A, F>(o: ExtractorState<T, A, F>, n: ExtractorState<T, A, F>) -> bool {
    let s = o.narrative@;
    let c = o.content@;
    &&& n.in_term == o.in_term
    &&& n.modules@ == o.modules@
    &&& if !(s.len() > 1 && s.last() is Container) {
        n.narrative@ == s && n.content@ == c && n.errors@ == o.errors@.push(FTMLError::NotInNarrative)
    } else if !(c.len() > 0 && c.last() is Container) {
        n.narrative@ == s.drop_last() && n.content@ == c && n.errors@ == o.errors@.push(FTMLError::NotInContent)
    } else {
        n.narrative@ == s.drop_last() && n.content@ == c.drop_last() && n.errors@ == o.errors@.push(
            FTMLError::NotInContent,
        )
    }
}

/// What closing a structure does.
pub open spec fn structure_closed<T, A, F>(
    o: ExtractorState<T, A, F>,
    n: ExtractorState<T, A, F>,
    range: DocumentRange,
    uri: String,
    extension: Option<Option<String>>,
) -> bool {
    match extension {
        None => container_closed(o, n, structure_make(range, uri), structure_then(uri)),
        Some(Some(target)) => container_closed(o, n, extension_make(range, uri, target), extension_then(uri, target)),
        Some(None) => untargeted_closed(o, n),
    }
}

/// What a closed morphism does with its declarations.
pub open spec fn morphism_then<T, A, F>(
    uri: String,
    domain: String,
    total: bool,
) -> spec_fn(ExtractorState<T, A, F>, ExtractorState<T, A, F>, Seq<Content<T>>, Vec<OpenDeclaration<T>>) -> bool {
    |o: ExtractorState<T, A, F>, n: ExtractorState<T, A, F>, rest: Seq<Content<T>>, els: Vec<OpenDeclaration<T>>|
        n.modules@ == o.modules@ && decl_or_error(
            rest,
            n.content@,
            o.errors@,
            n.errors@,
            OpenDeclaration::Morphism { uri, domain, total, elements: els },
        )
}

/// A hint range added to a problem.
pub open spec fn hint_rel<T, A, F>(range: DocumentRange) -> spec_fn(ProblemState<T, A, F>, ProblemState<T, A, F>) -> bool {
    |p: ProblemState<T, A, F>, q: ProblemState<T, A, F>| q == ProblemState { hints: q.hints, ..p } && q.hints@ == p.hints@.push(range)
}

/// A solution added to a problem.
pub open spec fn solution_rel<T, A, F>(sol: SolutionData<F>) -> spec_fn(ProblemState<T, A, F>, ProblemState<T, A, F>) -> bool {
    |p: ProblemState<T, A, F>, q: ProblemState<T, A, F>| q == ProblemState { solutions: q.solutions, ..p }
        && q.solutions@ == p.solutions@.push(sol)
}

/// The open grading note of a problem finished with `html`.
pub open spec fn gnote_rel<T, A, F>(html: String) -> spec_fn(ProblemState<T, A, F>, ProblemState<T, A, F>) -> bool {
    |p: ProblemState<T, A, F>, q: ProblemState<T, A, F>|
        q == ProblemState { gnote: None, gnotes: q.gnotes, ..p } && q.gnotes@ == p.gnotes@.push(
            GradingNote { html, answer_classes: p.gnote->0.answer_classes },
        )
}

/// The open choice block of a problem turned into a solution at `range`.
pub open spec fn choices_rel<T, A, F>(range: DocumentRange) -> spec_fn(ProblemState<T, A, F>, ProblemState<T, A, F>) -> bool {
    |p: ProblemState<T, A, F>, q: ProblemState<T, A, F>|
        q == ProblemState { choice_block: None, solutions: q.solutions, ..p } && q.solutions@ == p.solutions@.push(
            SolutionData::ChoiceBlock {
                multiple: p.choice_block->0.multiple,
                inline: p.choice_block->0.inline,
                range,
                styles: p.choice_block->0.styles,
                choices: p.choice_block->0.choices,
            },
        )
}

/// The feedback of the last answer class of a problem's grading note set.
pub open spec fn feedback_rel<T, A, F>(feedback: String) -> spec_fn(ProblemState<T, A, F>, ProblemState<T, A, F>) -> bool {
    |p: ProblemState<T, A, F>, q: ProblemState<T, A, F>| {
                let acs = p.gnote->0.answer_classes@;
                &&& q == ProblemState { gnote: q.gnote, ..p }
                &&& q.gnote matches Some(g)
                &&& g.answer_classes@.len() == acs.len()
                &&& g.answer_classes@.drop_last() =~= acs.drop_last()
                &&& g.answer_classes@.last().id == acs.last().id
                &&& g.answer_classes@.last().kind == acs.last().kind
                &&& g.answer_classes@.last().feedback == feedback
            }
}

/// The feedback of the last case of a problem's fill-in block set.
pub open spec fn fillin_feedback_rel<T, A, F>(feedback: String) -> spec_fn(ProblemState<T, A, F>, ProblemState<T, A, F>) -> bool {
    |p: ProblemState<T, A, F>, q: ProblemState<T, A, F>| {
        let cs = p.fillinsol->0.cases@;
        &&& q == ProblemState { fillinsol: q.fillinsol, ..p }
        &&& q.fillinsol matches Some(f)
        &&& f.cases@ == cs.drop_last().push(with_feedback(cs.last(), feedback))
    }
}

/// The verdict or feedback of the last choice of a problem's choice block
/// set.
pub open spec fn choice_text_rel<T, A, F>(text: String, verdict: bool) -> spec_fn(ProblemState<T, A, F>, ProblemState<T, A, F>) -> bool {
    |p: ProblemState<T, A, F>, q: ProblemState<T, A, F>| {
                let cb = p.choice_block->0;
                let cs = cb.choices@;
                &&& q == ProblemState { choice_block: q.choice_block, ..p }
                &&& q.choice_block matches Some(b)
                &&& b == ChoiceBlockState { choices: b.choices, ..cb }
                &&& b.choices@.len() == cs.len()
                &&& b.choices@.drop_last() =~= cs.drop_last()
                &&& b.choices@.last().correct == cs.last().correct
                &&& if verdict {
                    b.choices@.last().verdict == text && b.choices@.last().feedback == cs.last().feedback
                } else {
                    b.choices@.last().feedback == text && b.choices@.last().verdict == cs.last().verdict
                }
            }
}

/// Adds `e` to the innermost frame that takes children.
fn add_element<T, A, F>(state: &mut ExtractorState<T, A, F>, e: DocumentElement<T, A, F>)
    requires
        old(state).wf(),
    ensures
        final(state).wf(),
        final(state).styles == old(state).styles,
        element_added(*old(state), *final(state), e),
{
    state.add_document_element(e);
}

/// Closes the section on top into a section element.
fn close_section_frame<T, A, F>(state: &mut ExtractorState<T, A, F>, range: DocumentRange, lvl: u8, uri: String)
    requires
        old(state).wf(),
    ensures
        final(state).wf(),
        final(state).styles == old(state).styles,
        frame_closed(
            *old(state),
            *final(state),
            is_section(),
            section_make(range, lvl, uri),
            narrative_error(),
        ),
{
    let ghost o = *state;
    match state.close_section() {
        Some((_u, title, children)) => {
            proof {
                law_document_stays_at_bottom(o.narrative@, state.narrative@, |n: Narrative<T, A, F>| n is Section);
            }
            state.add_document_element(DocumentElement::Section { range, level: lvl, title, uri, children });
        },
        None => state.add_error(FTMLError::NotInNarrative),
    }
}

/// Closes the section on top into a skipped section.
fn close_skipped_frame<T, A, F>(state: &mut ExtractorState<T, A, F>)
    requires
        old(state).wf(),
    ensures
        final(state).wf(),
        final(state).styles == old(state).styles,
        frame_closed(
            *old(state),
            *final(state),
            is_section(),
            skipped_make(),
            narrative_error(),
        ),
{
    let ghost o = *state;
    match state.close_section() {
        Some((_u, _title, children)) => {
            proof {
                law_document_stays_at_bottom(o.narrative@, state.narrative@, |n: Narrative<T, A, F>| n is Section);
            }
            state.add_document_element(DocumentElement::SkipSection(children));
        },
        None => state.add_error(FTMLError::NotInNarrative),
    }
}

/// Closes the slide on top into a slide element.
fn close_slide_frame<T, A, F>(state: &mut ExtractorState<T, A, F>, range: DocumentRange, uri: String)
    requires
        old(state).wf(),
    ensures
        final(state).wf(),
        final(state).styles == old(state).styles,
        frame_closed(
            *old(state),
            *final(state),
            is_slide(),
            slide_make(range, uri),
            narrative_error(),
        ),
{
    let ghost o = *state;
    match state.close_slide() {
        Some(children) => {
            proof {
                law_document_stays_at_bottom(o.narrative@, state.narrative@, |n: Narrative<T, A, F>| n is Slide);
            }
            state.add_document_element(DocumentElement::Slide { range, uri, children });
        },
        None => state.add_error(FTMLError::NotInNarrative),
    }
}

/// Closes the paragraph on top into a paragraph element.
fn close_paragraph_frame<T, A, F>(
    state: &mut ExtractorState<T, A, F>,
    range: DocumentRange,
    uri: String,
    kind: ParagraphKind,
    styles: Vec<String>,
)
    requires
        old(state).wf(),
    ensures
        final(state).wf(),
        final(state).styles == old(state).styles,
        frame_closed(
            *old(state),
            *final(state),
            is_paragraph(),
            paragraph_make(range, uri, kind, styles),
            paragraph_error(),
        ),
{
    let ghost o = *state;
    match state.close_paragraph() {
        Some(p) => {
            proof {
                law_document_stays_at_bottom(o.narrative@, state.narrative@, |n: Narrative<T, A, F>| n is Paragraph);
            }
            state.add_document_element(
                DocumentElement::Paragraph { range, uri, kind, styles, fors: p.fors, title: p.title, children: p.children },
            );
        },
        None => state.add_error(FTMLError::NotInParagraph),
    }
}

/// The code `l`.
fn code_l() -> (r: String)
    ensures
        r@ == seq!['l'],
{
    proof {
        reveal_strlit("l");
    }
    let r = String::from_str("l");
    assert(r@ =~= seq!['l']);
    r
}

/// Closes the problem on top into a problem element.
fn close_problem_frame<T, A, F>(
    state: &mut ExtractorState<T, A, F>,
    range: DocumentRange,
    uri: String,
    styles: Vec<String>,
    autogradable: bool,
    sub_problem: bool,
)
    requires
        old(state).wf(),
    ensures
        final(state).wf(),
        final(state).styles == old(state).styles,
        frame_closed(
            *old(state),
            *final(state),
            is_problem(),
            problem_make(range, uri, styles, autogradable, sub_problem),
            not_in_problem(seq!['l']),
        ),
{
    let ghost o = *state;
    match state.close_problem() {
        Some(p) => {
            proof {
                law_document_stays_at_bottom(o.narrative@, state.narrative@, |n: Narrative<T, A, F>| n is Problem);
            }
            state.add_document_element(
                DocumentElement::Problem {
                    range,
                    uri,
                    styles,
                    sub_problem,
                    autogradable,
                    solutions: p.solutions,
                    gnotes: p.gnotes,
                    hints: p.hints,
                    title: p.title,
                    children: p.children,
                    preconditions: p.preconditions,
                    objectives: p.objectives,
                },
            );
        },
        None => {
            let c = code_l();
            state.add_error(FTMLError::NotInProblem(c));
        },
    }
}

/// What a closed module leaves in the content stack `rest` (the stack
/// without the module's container), given the module's declarations.
pub open spec fn module_rest<T, A, F>(
    o: ExtractorState<T, A, F>,
    n: ExtractorState<T, A, F>,
    rest: Seq<Content<T>>,
    els: Vec<OpenDeclaration<T>>,
    uri: String,
    meta: Option<String>,
    signature: Option<String>,
    nested: Option<String>,
) -> bool {
    match nested {
        None => {
            &&& n.modules@ == o.modules@.push(OpenModule { uri, meta, signature, elements: els })
            &&& n.content@ == rest
            &&& n.errors@ == o.errors@
        },
        Some(sym) => {
            &&& n.modules@ == o.modules@
            &&& decl_or_error(rest, n.content@, o.errors@, n.errors@, OpenDeclaration::NestedModule { uri: sym, elements: els })
        },
    }
}

/// Closes the narrative and content containers of a module.
fn close_module_frames<T, A, F>(
    state: &mut ExtractorState<T, A, F>,
    range: DocumentRange,
    uri: String,
    meta: Option<String>,
    signature: Option<String>,
    nested: Option<String>,
)
    requires
        old(state).wf(),
    ensures
        final(state).wf(),
        final(state).styles == old(state).styles,
        container_closed(
            *old(state),
            *final(state),
            module_make(range, uri),
            module_then(uri, meta, signature, nested),
        ),
{
    let ghost o = *state;
    let narrative = match state.close_narrative() {
        Some((_, c)) => c,
        None => {
            state.add_error(FTMLError::NotInNarrative);
            return;
        },
    };
    let content = match state.close_content() {
        Some((_, c)) => c,
        None => {
            state.add_error(FTMLError::NotInContent);
            return;
        },
    };
    let ghost mid = *state;
    state.add_document_element(DocumentElement::Module { range, module: uri.clone(), children: narrative });
    match nested {
        None => {
            state.add_module(OpenModule { uri, meta, signature, elements: content });
        },
        Some(sym) => {
            if state.add_content_element(OpenDeclaration::NestedModule { uri: sym, elements: content }).is_err() {
                state.add_error(FTMLError::NotInContent);
            }
        },
    }
}

/// Closes the narrative and content containers of a morphism.
fn close_morphism_frames<T, A, F>(
    state: &mut ExtractorState<T, A, F>,
    range: DocumentRange,
    uri: String,
    domain: String,
    total: bool,
)
    requires
        old(state).wf(),
    ensures
        final(state).wf(),
        final(state).styles == old(state).styles,
        container_closed(
            *old(state),
            *final(state),
            morphism_make(range, uri),
            morphism_then(uri, domain, total),
        ),
{
    let narrative = match state.close_narrative() {
        Some((_, c)) => c,
        None => {
            state.add_error(FTMLError::NotInNarrative);
            return;
        },
    };
    let content = match state.close_content() {
        Some((_, c)) => c,
        None => {
            state.add_error(FTMLError::NotInContent);
            return;
        },
    };
    state.add_document_element(DocumentElement::Morphism { range, morphism: uri.clone(), children: narrative });
    if state.add_content_element(OpenDeclaration::Morphism { uri, domain, total, elements: content }).is_err() {
        state.add_error(FTMLError::NotInContent);
    }
}

/// Closes a structure's narrative and content frames, as
/// `structure_closed` says.
fn close_structure_frames<T, A, F>(
    state: &mut ExtractorState<T, A, F>,
    range: DocumentRange,
    uri: String,
    extension: Option<Option<String>>,
)
    requires
        old(state).wf(),
    ensures
        final(state).wf(),
        final(state).styles == old(state).styles,
        structure_closed(*old(state), *final(state), range, uri, extension),
{
    let narrative = match state.close_narrative() {
        Some((_, c)) => c,
        None => {
            state.add_error(FTMLError::NotInNarrative);
            return;
        },
    };
    let content = match state.close_content() {
        Some((_, c)) => c,
        None => {
            state.add_error(FTMLError::NotInContent);
            return;
        },
    };
    match extension {
        None => {
            state.add_document_element(DocumentElement::MathStructure { range, structure: uri.clone(), children: narrative });
            if state.add_content_element(OpenDeclaration::MathStructure { uri, elements: content }).is_err() {
                state.add_error(FTMLError::NotInContent);
            }
        },
        Some(Some(target)) => {
            state.add_document_element(
                DocumentElement::Extension { range, extension: uri.clone(), target: target.clone(), children: narrative },
            );
            if state.add_content_element(OpenDeclaration::Extension { uri, target, elements: content }).is_err() {
                state.add_error(FTMLError::NotInContent);
            }
        },
        Some(None) => {
            state.add_error(FTMLError::NotInContent);
        },
    }
}

/// Closing a symbol declaration.
pub open spec fn symdecl_closed<T, A, F>(o: ExtractorState<T, A, F>, n: ExtractorState<T, A, F>, uri: String) -> bool {
    let c = o.content@;
    &&& n.modules@ == o.modules@
    &&& n.in_term == o.in_term
    &&& if c.len() > 0 && c.last() is Symdecl {
        &&& child_added(o.narrative@, n.narrative@, DocumentElement::SymbolDeclaration(uri))
        &&& decl_or_error(
            c.drop_last(),
            n.content@,
            o.errors@,
            n.errors@,
            OpenDeclaration::Symbol { uri, tp: c.last()->tp, df: c.last()->df },
        )
    } else {
        &&& n.narrative@ == o.narrative@
        &&& n.content@ == c
        &&& n.errors@ == o.errors@.push(FTMLError::NotInContent)
    }
}

/// Closes a symbol declaration.
fn close_symdecl_frame<T, A, F>(state: &mut ExtractorState<T, A, F>, uri: String)
    requires
        old(state).wf(),
    ensures
        final(state).wf(),
        final(state).styles == old(state).styles,
        symdecl_closed(*old(state), *final(state), uri),
{
    match state.close_decl() {
        Some((tp, df)) => {
            state.add_document_element(DocumentElement::SymbolDeclaration(uri.clone()));
            if state.add_content_element(OpenDeclaration::Symbol { uri, tp, df }).is_err() {
                state.add_error(FTMLError::NotInContent);
            }
        },
        None => state.add_error(FTMLError::NotInContent),
    }
}

/// Closing a variable declaration.
pub open spec fn vardecl_closed<T, A, F>(
    o: ExtractorState<T, A, F>,
    n: ExtractorState<T, A, F>,
    uri: String,
    name_steps: Vec<String>,
    bind: bool,
    is_seq: bool,
) -> bool {
    let c = o.content@;
    &&& n.modules@ == o.modules@
    &&& n.in_term == o.in_term
    &&& if c.len() > 0 && c.last() is Symdecl {
        &&& n.content@ == c.drop_last()
        &&& n.errors@ == o.errors@
        &&& child_added(
            o.narrative@,
            n.narrative@,
            DocumentElement::Variable { uri, name_steps, is_seq, bind, tp: c.last()->tp, df: c.last()->df },
        )
    } else {
        &&& n.narrative@ == o.narrative@
        &&& n.content@ == c
        &&& n.errors@ == o.errors@.push(FTMLError::NotInContent)
    }
}

/// Closes a variable declaration.
fn close_vardecl_frame<T, A, F>(state: &mut ExtractorState<T, A, F>, uri: String, name_steps: Vec<String>, bind: bool, is_seq: bool)
    requires
        old(state).wf(),
    ensures
        final(state).wf(),
        final(state).styles == old(state).styles,
        vardecl_closed(*old(state), *final(state), uri, name_steps, bind, is_seq),
{
    match state.close_decl() {
        Some((tp, df)) => {
            state.add_document_element(DocumentElement::Variable { uri, name_steps, is_seq, bind, tp, df });
        },
        None => state.add_error(FTMLError::NotInContent),
    }
}

/// Closing a module import.
pub open spec fn import_closed<T, A, F>(o: ExtractorState<T, A, F>, n: ExtractorState<T, A, F>, uri: String) -> bool {
    &&& child_added(o.narrative@, n.narrative@, DocumentElement::ImportModule(uri))
    &&& decl_or_error(o.content@, n.content@, o.errors@, n.errors@, OpenDeclaration::Import(uri))
    &&& n.modules@ == o.modules@
    &&& n.in_term == o.in_term
}

/// Closes a module import.
fn close_import<T, A, F>(state: &mut ExtractorState<T, A, F>, uri: String)
    requires
        old(state).wf(),
    ensures
        final(state).wf(),
        final(state).styles == old(state).styles,
        import_closed(*old(state), *final(state), uri),
{
    state.add_document_element(DocumentElement::ImportModule(uri.clone()));
    if state.add_content_element(OpenDeclaration::Import(uri)).is_err() {
        state.add_error(FTMLError::NotInContent);
    }
}

/// `n` is `o` with the innermost problem changed as `rel` relates the old
/// problem to the new one.
pub open spec fn problem_changed<T, A, F>(
    o: Seq<Narrative<T, A, F>>,
    n: Seq<Narrative<T, A, F>>,
    rel: spec_fn(ProblemState<T, A, F>, ProblemState<T, A, F>) -> bool,
) -> bool {
    let k = rfind(o, |n: Narrative<T, A, F>| n is Problem);
    &&& 0 <= k < o.len()
    &&& updated_at(o, n, k)
    &&& n[k] matches Narrative::Problem(q)
    &&& rel(problem_at(o, k), q)
}

/// A step on the innermost problem: when `applies`, the problem changes as
/// `rel` says; else nothing changes but a "not in problem" error with
/// `code`.
pub open spec fn problem_step<T, A, F>(
    o: ExtractorState<T, A, F>,
    n: ExtractorState<T, A, F>,
    applies: bool,
    rel: spec_fn(ProblemState<T, A, F>, ProblemState<T, A, F>) -> bool,
    code: Seq<char>,
) -> bool {
    &&& n.content@ == o.content@
    &&& n.modules@ == o.modules@
    &&& n.in_term == o.in_term
    &&& if applies {
        problem_changed(o.narrative@, n.narrative@, rel) && n.errors@ == o.errors@
    } else {
        n.narrative@ == o.narrative@ && problem_error_pushed(o.errors@, n.errors@, code)
    }
}

/// The innermost problem of `s`, if any.
pub open spec fn innermost_problem<T, A, F>(s: Seq<Narrative<T, A, F>>) -> Option<ProblemState<T, A, F>> {
    let k = rfind(s, |n: Narrative<T, A, F>| n is Problem);
    if k >= 0 {
        Some(problem_at(s, k))
    } else {
        None
    }
}

/// A string holding the text `s`.
fn code_of(s: &str) -> (r: String)
    ensures
        r@ == s@,
{
    String::from_str(s)
}

/// Records a hint range in the innermost problem, or the error `a`.
fn close_hint<T, A, F>(state: &mut ExtractorState<T, A, F>, range: DocumentRange)
    requires
        old(state).wf(),
    ensures
        final(state).wf(),
        final(state).styles == old(state).styles,
        problem_step(
            *old(state),
            *final(state),
            innermost_problem(old(state).narrative@) is Some,
            hint_rel(range),
            seq!['a'],
        ),
{
    proof {
        crate::extractor::lemma_rfind_range(old(state).narrative@, |n: Narrative<T, A, F>| n is Problem);
    }
    if !state.push_hint(range) {
        proof {
            reveal_strlit("a");
            assert("a"@ =~= seq!['a']);
        }
        state.add_error(FTMLError::NotInProblem(code_of("a")));
    }
}

/// Records a solution in the innermost problem, or the error `code`.
fn close_solution<T, A, F>(state: &mut ExtractorState<T, A, F>, sol: SolutionData<F>, code: &str)
    requires
        old(state).wf(),
    ensures
        final(state).wf(),
        final(state).styles == old(state).styles,
        problem_step(
            *old(state),
            *final(state),
            innermost_problem(old(state).narrative@) is Some,
            solution_rel(sol),
            code@,
        ),
{
    proof {
        crate::extractor::lemma_rfind_range(old(state).narrative@, |n: Narrative<T, A, F>| n is Problem);
    }
    if !state.push_solution(sol) {
        state.add_error(FTMLError::NotInProblem(code_of(code)));
    }
}

/// Moves the open grading note of the innermost problem, with `html`, to
/// its finished grading notes; or the error `d`.
fn close_grading_note<T, A, F>(state: &mut ExtractorState<T, A, F>, html: String)
    requires
        old(state).wf(),
    ensures
        final(state).wf(),
        final(state).styles == old(state).styles,
        problem_step(
            *old(state),
            *final(state),
            innermost_problem(old(state).narrative@) matches Some(p) && p.gnote is Some,
            gnote_rel(html),
            seq!['d'],
        ),
{
    let ghost o = *state;
    proof {
        crate::extractor::lemma_rfind_range(o.narrative@, |n: Narrative<T, A, F>| n is Problem);
    }
    match state.close_gnote() {
        Some(g) => {
            let ghost mid = *state;
            let ok = state.push_gnote(GradingNote { answer_classes: g.answer_classes, html });
            proof {
                let k = o.problem_index();
                assert(mid.problem_index() == k) by {
                    assert forall|i: int| 0 <= i < o.narrative@.len() implies (#[trigger] o.narrative@[i] is Problem) == (
                    mid.narrative@[i] is Problem) by {
                        if i != k {
                            assert(mid.narrative@[i] == o.narrative@[i]);
                        }
                    }
                    crate::extractor::lemma_rfind_same_hits(o.narrative@, mid.narrative@, |n: Narrative<T, A, F>| n is Problem);
                }
                assert(state.narrative@ =~= o.narrative@.update(k, state.narrative@[k]));
            }
            if !ok {
                proof {
                    assert(false);
                }
            }
        },
        None => {
            proof {
                let k = o.problem_index();
                if k >= 0 {
                    let p = problem_at(o.narrative@, k);
                    assert(state.narrative@ =~= o.narrative@.update(k, state.narrative@[k]));
                    assert(state.narrative@[k] == o.narrative@[k]);
                    assert(state.narrative@ =~= o.narrative@);
                }
                reveal_strlit("d");
                assert("d"@ =~= seq!['d']);
            }
            state.add_error(FTMLError::NotInProblem(code_of("d")));
        },
    }
}

/// Moves the open choice block of the innermost problem, at `range`, to its
/// solutions; or the error `f`.
fn close_choices<T, A, F>(state: &mut ExtractorState<T, A, F>, range: DocumentRange)
    requires
        old(state).wf(),
    ensures
        final(state).wf(),
        final(state).styles == old(state).styles,
        problem_step(
            *old(state),
            *final(state),
            innermost_problem(old(state).narrative@) matches Some(p) && p.choice_block is Some,
            choices_rel(range),
            seq!['f'],
        ),
{
    let ghost o = *state;
    proof {
        crate::extractor::lemma_rfind_range(o.narrative@, |n: Narrative<T, A, F>| n is Problem);
    }
    match state.close_choice_block() {
        Some(cb) => {
            let ghost mid = *state;
            let ok = state.push_solution(
                SolutionData::ChoiceBlock {
                    multiple: cb.multiple,
                    inline: cb.inline,
                    range,
                    styles: cb.styles,
                    choices: cb.choices,
                },
            );
            proof {
                let k = o.problem_index();
                assert(mid.problem_index() == k) by {
                    assert forall|i: int| 0 <= i < o.narrative@.len() implies (#[trigger] o.narrative@[i] is Problem) == (
                    mid.narrative@[i] is Problem) by {
                        if i != k {
                            assert(mid.narrative@[i] == o.narrative@[i]);
                        }
                    }
                    crate::extractor::lemma_rfind_same_hits(o.narrative@, mid.narrative@, |n: Narrative<T, A, F>| n is Problem);
                }
                assert(state.narrative@ =~= o.narrative@.update(k, state.narrative@[k]));
            }
            if !ok {
                proof {
                    assert(false);
                }
            }
        },
        None => {
            proof {
                let k = o.problem_index();
                if k >= 0 {
                    let p = problem_at(o.narrative@, k);
                    assert(state.narrative@ =~= o.narrative@.update(k, state.narrative@[k]));
                    assert(state.narrative@[k] == o.narrative@[k]);
                    assert(state.narrative@ =~= o.narrative@);
                }
                reveal_strlit("f");
                assert("f"@ =~= seq!['f']);
            }
            state.add_error(FTMLError::NotInProblem(code_of("f")));
        },
    }
}

/// Sets the feedback of the last case of the innermost problem's fill-in
/// block, or the error `k`.
fn close_fillin_feedback<T, A, F>(state: &mut ExtractorState<T, A, F>, feedback: String)
    requires
        old(state).wf(),
    ensures
        final(state).wf(),
        final(state).styles == old(state).styles,
        problem_step(
            *old(state),
            *final(state),
            innermost_problem(old(state).narrative@) matches Some(p) && p.fillinsol is Some
                && p.fillinsol->0.cases@.len() > 0,
            fillin_feedback_rel(feedback),
            seq!['k'],
        ),
{
    proof {
        crate::extractor::lemma_rfind_range(old(state).narrative@, |n: Narrative<T, A, F>| n is Problem);
    }
    if !state.set_fillinsol_feedback(feedback) {
        proof {
            reveal_strlit("k");
            assert("k"@ =~= seq!['k']);
        }
        state.add_error(FTMLError::NotInProblem(code_of("k")));
    }
}

/// Sets the feedback of the last answer class of the innermost problem's
/// grading note, or the error `g`.
fn close_answer_feedback<T, A, F>(state: &mut ExtractorState<T, A, F>, feedback: String)
    requires
        old(state).wf(),
    ensures
        final(state).wf(),
        final(state).styles == old(state).styles,
        problem_step(
            *old(state),
            *final(state),
            innermost_problem(old(state).narrative@) matches Some(p) && p.gnote is Some
                && p.gnote->0.answer_classes@.len() > 0,
            feedback_rel(feedback),
            seq!['g'],
        ),
{
    proof {
        crate::extractor::lemma_rfind_range(old(state).narrative@, |n: Narrative<T, A, F>| n is Problem);
    }
    if !state.set_answer_class_feedback(feedback) {
        proof {
            reveal_strlit("g");
            assert("g"@ =~= seq!['g']);
        }
        state.add_error(FTMLError::NotInProblem(code_of("g")));
    }
}

/// Sets the verdict (when `verdict`) or the feedback of the last choice of
/// the innermost problem's choice block, or the error `code`.
fn close_choice_text<T, A, F>(state: &mut ExtractorState<T, A, F>, text: String, verdict: bool, code: &str)
    requires
        old(state).wf(),
    ensures
        final(state).wf(),
        final(state).styles == old(state).styles,
        problem_step(
            *old(state),
            *final(state),
            innermost_problem(old(state).narrative@) matches Some(p) && p.choice_block is Some
                && p.choice_block->0.choices@.len() > 0,
            choice_text_rel(text, verdict),
            code@,
        ),
{
    proof {
        crate::extractor::lemma_rfind_range(old(state).narrative@, |n: Narrative<T, A, F>| n is Problem);
    }
    if !state.set_choice_text(text, verdict) {
        state.add_error(FTMLError::NotInProblem(code_of(code)));
    }
}

/// Closing a title: the innermost paragraph, problem or section gets
/// `range` as its title; else a `NotInNarrative` error.
pub open spec fn title_closed<T, A, F>(o: ExtractorState<T, A, F>, n: ExtractorState<T, A, F>, range: DocumentRange) -> bool {
    let k = rfind(o.narrative@, |n: Narrative<T, A, F>| n is Paragraph || n is Problem || n is Section);
    &&& n.content@ == o.content@
    &&& n.modules@ == o.modules@
    &&& n.in_term == o.in_term
    &&& if k >= 0 {
        &&& updated_at(o.narrative@, n.narrative@, k)
        &&& n.narrative@[k] == with_title(o.narrative@[k], range)
        &&& n.errors@ == o.errors@
    } else {
        n.narrative@ == o.narrative@ && n.errors@ == o.errors@.push(FTMLError::NotInNarrative)
    }
}

/// Closes a title.
fn close_title<T, A, F>(state: &mut ExtractorState<T, A, F>, range: DocumentRange)
    requires
        old(state).wf(),
    ensures
        final(state).wf(),
        final(state).styles == old(state).styles,
        title_closed(*old(state), *final(state), range),
{
    if state.add_title(range).is_err() {
        state.add_error(FTMLError::NotInNarrative);
    }
}

/// Closing a notation component: the notation on top takes the components
/// of `spec`; else a `NotInNarrative` error.
pub open spec fn notation_comp_closed<T, A, F>(o: ExtractorState<T, A, F>, n: ExtractorState<T, A, F>, spec: Option<NotationSpec>) -> bool {
    let s = o.narrative@;
    &&& n.content@ == o.content@
    &&& n.modules@ == o.modules@
    &&& n.in_term == o.in_term
    &&& match spec {
        Some(sp) => if s.last() is Notation {
            &&& n.narrative@ == s.drop_last().push(
                Narrative::Notation(
                    NotationState {
                        attribute_index: sp.attribute_index,
                        inner_index: sp.inner_index,
                        is_text: sp.is_text,
                        components: sp.components,
                        op: s.last()->Notation_0.op,
                    },
                ),
            )
            &&& n.errors@ == o.errors@
        } else {
            n.narrative@ == s && n.errors@ == o.errors@.push(FTMLError::NotInNarrative)
        },
        None => n.narrative@ == s && n.errors@ == o.errors@.push(FTMLError::NotInNarrative),
    }
}

/// Closes a notation component.
fn close_notation_comp<T, A, F>(state: &mut ExtractorState<T, A, F>, spec: Option<NotationSpec>)
    requires
        old(state).wf(),
    ensures
        final(state).wf(),
        final(state).styles == old(state).styles,
        notation_comp_closed(*old(state), *final(state), spec),
{
    match spec {
        Some(sp) => {
            if state.add_notation(sp).is_err() {
                state.add_error(FTMLError::NotInNarrative);
            }
        },
        None => state.add_error(FTMLError::NotInNarrative),
    }
}

/// Closing an operator notation component: the notation on top takes `op`
/// as its operator form; else a `NotInNarrative` error.
pub open spec fn notation_op_closed<T, A, F>(o: ExtractorState<T, A, F>, n: ExtractorState<T, A, F>, op: Option<OpNotation>) -> bool {
    let s = o.narrative@;
    &&& n.content@ == o.content@
    &&& n.modules@ == o.modules@
    &&& n.in_term == o.in_term
    &&& match op {
        Some(x) => if s.last() is Notation {
            &&& n.narrative@ == s.drop_last().push(Narrative::Notation(NotationState { op: Some(x), ..s.last()->Notation_0 }))
            &&& n.errors@ == o.errors@
        } else {
            n.narrative@ == s && n.errors@ == o.errors@.push(FTMLError::NotInNarrative)
        },
        None => n.narrative@ == s && n.errors@ == o.errors@.push(FTMLError::NotInNarrative),
    }
}

/// Closes an operator notation component.
fn close_notation_op<T, A, F>(state: &mut ExtractorState<T, A, F>, op: Option<OpNotation>)
    requires
        old(state).wf(),
    ensures
        final(state).wf(),
        final(state).styles == old(state).styles,
        notation_op_closed(*old(state), *final(state), op),
{
    match op {
        Some(x) => {
            if state.add_op_notation(x).is_err() {
                state.add_error(FTMLError::NotInNarrative);
            }
        },
        None => state.add_error(FTMLError::NotInNarrative),
    }
}

/// Closing an argument list, with `closer` closing its arguments, whose
/// result is dropped.
pub open spec fn args_dropped<T, A, F, G, C: Fn(TermOrList<T>, ArgMode) -> Result<G, G>>(closer: C, o: ExtractorState<T, A, F>, n: ExtractorState<T, A, F>) -> bool {
    &&& n.narrative@ == o.narrative@
    &&& n.modules@ == o.modules@
    &&& n.in_term == o.in_term
    &&& exists|r: (Seq<G>, Option<T>)| #[trigger] args_closed(closer, o.content@, n.content@, o.errors@, n.errors@, r)
}

/// Closing a type: the declaration on top gets `tm` as its type, the term
/// mode ends; else a `NotInContent` error.
pub open spec fn type_closed<T, A, F>(o: ExtractorState<T, A, F>, n: ExtractorState<T, A, F>, tm: T) -> bool {
    let c = o.content@;
    &&& !n.in_term
    &&& n.narrative@ == o.narrative@
    &&& n.modules@ == o.modules@
    &&& if c.len() > 0 && c.last() is Symdecl {
        n.content@ == c.drop_last().push(Content::Symdecl { tp: Some(tm), df: c.last()->df }) && n.errors@ == o.errors@
    } else {
        n.content@ == c && n.errors@ == o.errors@.push(FTMLError::NotInContent)
    }
}

/// Closing a term for `symbol` (see `term_added`), with `err` where it finds
/// no place.
pub open spec fn term_closed<T, A, F>(
    o: ExtractorState<T, A, F>,
    n: ExtractorState<T, A, F>,
    symbol: Option<String>,
    tm: T,
    err: FTMLError,
) -> bool {
    ||| term_added(o, n, symbol, tm, true) && n.errors@ == o.errors@
    ||| term_added(o, n, symbol, tm, false) && n.errors@ == o.errors@.push(err)
}

/// Adds a term, or records `err`.
fn close_term<T, A, F>(state: &mut ExtractorState<T, A, F>, symbol: Option<String>, tm: T, err: FTMLError)
    requires
        old(state).wf(),
    ensures
        final(state).wf(),
        final(state).styles == old(state).styles,
        final(state).in_term == old(state).in_term,
        term_closed(*old(state), *final(state), symbol, tm, err),
{
    let ghost o = *state;
    if state.add_term(symbol, tm).is_err() {
        let ghost mid = *state;
        state.add_error(err);
        proof {
            assert(term_added(o, *state, symbol, tm, false));
        }
    }
}

/// Closing an argument (see `arg_added`), with `IncompleteArgs(3)` where it
/// fails.
pub open spec fn arg_closed<T, A, F>(
    o: ExtractorState<T, A, F>,
    n: ExtractorState<T, A, F>,
    index: u8,
    list_index: Option<u8>,
    tm: T,
    mode: ArgMode,
) -> bool {
    &&& n.in_term == o.in_term
    &&& {
        ||| arg_added(o, n, index, list_index, tm, mode, true) && n.errors@ == o.errors@
        ||| arg_added(o, n, index, list_index, tm, mode, false) && n.errors@ == o.errors@.push(FTMLError::IncompleteArgs(3))
    }
}

/// Adds an argument, or records `IncompleteArgs(3)`.
fn close_arg<T, A, F>(state: &mut ExtractorState<T, A, F>, index: u8, list_index: Option<u8>, tm: T, mode: ArgMode)
    requires
        arg_indices_ok(old(state).content@, index, list_index),
        old(state).wf(),
    ensures
        final(state).wf(),
        final(state).styles == old(state).styles,
        arg_closed(*old(state), *final(state), index, list_index, tm, mode),
{
    let ghost o = *state;
    if state.add_arg(index, list_index, tm, mode).is_err() {
        state.add_error(FTMLError::IncompleteArgs(3));
        proof {
            assert(arg_added(o, *state, index, list_index, tm, mode, false));
        }
    }
}

/// The position of the first closed term among `next`, or -1.
pub open spec fn closed_term_at<T>(next: Seq<OpenFTMLElement<T>>) -> int {
    lfind(next, |e: OpenFTMLElement<T>| e is ClosedTerm)
}

/// The term an element takes: the first closed term among the children
/// `next`, else the term of the node.
pub open spec fn term_for<T>(next: Seq<OpenFTMLElement<T>>, node_term: Option<T>) -> T {
    let i = closed_term_at(next);
    if i >= 0 {
        next[i]->ClosedTerm_0
    } else {
        node_term->Some_0
    }
}

/// The children left once `term_for` took a closed term from them.
pub open spec fn next_after_term<T>(next: Seq<OpenFTMLElement<T>>) -> Seq<OpenFTMLElement<T>> {
    let i = closed_term_at(next);
    if i >= 0 {
        next.remove(i)
    } else {
        next
    }
}

/// Takes the term for an element, as `term_for` says.
fn as_term<T>(next: &mut Vec<OpenFTMLElement<T>>, node_term: Option<T>) -> (r: T)
    requires
        node_term is Some,
    ensures
        r == term_for(old(next)@, node_term),
        final(next)@ == next_after_term(old(next)@),
{
    let ghost p = |e: OpenFTMLElement<T>| e is ClosedTerm;
    let mut i: usize = 0;
    while i < next.len()
        invariant
            p == (|e: OpenFTMLElement<T>| e is ClosedTerm),
            next@ == old(next)@,
            i <= next@.len(),
            forall|j: int| 0 <= j < i ==> !p(#[trigger] next@[j]),
        decreases next@.len() - i,
    {
        if let OpenFTMLElement::ClosedTerm(_) = &next[i] {
            proof {
                assert(p(next@[i as int]));
                crate::extractor::lemma_lfind(next@, p, i as int);
            }
            let e = next.remove(i);
            match e {
                OpenFTMLElement::ClosedTerm(t) => {
                    return t;
                },
                _ => {
                    proof {
                        assert(false);
                    }
                    return node_term.unwrap();
                },
            }
        }
        i = i + 1;
    }
    proof {
        crate::extractor::lemma_lfind(next@, p, -1);
    }
    node_term.unwrap()
}

/// Whether some notation frame is open.
pub open spec fn has_notation<T, A, F>(s: Seq<Narrative<T, A, F>>) -> bool {
    exists|i: int| 0 <= i < s.len() && #[trigger] s[i] is Notation
}

/// The element goes no further, nothing is done to the node and the
/// children are untouched.
pub open spec fn plain<T>(r: (Option<OpenFTMLElement<T>>, NodeEffect), next0: Seq<OpenFTMLElement<T>>, next1: Seq<OpenFTMLElement<T>>) -> bool {
    r.0 is None && no_effect(r.1) && next1 == next0
}

/// The element is handed on to the parent as `e`, with nothing changed.
pub open spec fn handed_on<T, A, F>(
    e: OpenFTMLElement<T>,
    o: ExtractorState<T, A, F>,
    n: ExtractorState<T, A, F>,
    next0: Seq<OpenFTMLElement<T>>,
    next1: Seq<OpenFTMLElement<T>>,
    r: (Option<OpenFTMLElement<T>>, NodeEffect),
) -> bool {
    same_state(o, n) && next1 == next0 && r.0 == Some(e) && no_effect(r.1)
}

/// The node is deleted (or, when `children`, its children), nothing else
/// is asked, and the children elements are untouched.
pub open spec fn deleting<T>(
    r: (Option<OpenFTMLElement<T>>, NodeEffect),
    next0: Seq<OpenFTMLElement<T>>,
    next1: Seq<OpenFTMLElement<T>>,
    children: bool,
) -> bool {
    &&& r.0 is None
    &&& r.1.delete == !children
    &&& r.1.delete_children == children
    &&& r.1.title is None
    &&& next1 == next0
}

/// What closing `e` does, given the state before (`o`) and after (`n`),
/// the elements of the siblings before it (`prev0`, `prev1`) and of the
/// children (`next0`, `next1`) before and after, the node, and the result:
/// only a resolved input reference touches the siblings, and drops the
/// invisible ones.
pub open spec fn closes_as<T, A, F, G, C: Fn(TermOrList<T>, ArgMode) -> Result<G, G>>(
    closer: C,
    e: OpenFTMLElement<T>,
    o: ExtractorState<T, A, F>,
    n: ExtractorState<T, A, F>,
    prev0: Seq<OpenFTMLElement<T>>,
    prev1: Seq<OpenFTMLElement<T>>,
    next0: Seq<OpenFTMLElement<T>>,
    next1: Seq<OpenFTMLElement<T>>,
    node: NodeInfo<T>,
    r: (Option<OpenFTMLElement<T>>, NodeEffect),
) -> bool {
    &&& element_closes_as(closer, e, o, n, next0, next1, node, r)
    &&& n.styles == o.styles
    &&& prev1 == if e matches OpenFTMLElement::Inputref { joined: Some(_), .. } {
        visible_only(prev0)
    } else {
        prev0
    }
}

/// What closing `e` does to the state, the children's elements and the
/// node, and what it hands on.
pub open spec fn element_closes_as<T, A, F, G, C: Fn(TermOrList<T>, ArgMode) -> Result<G, G>>(
    closer: C,
    e: OpenFTMLElement<T>,
    o: ExtractorState<T, A, F>,
    n: ExtractorState<T, A, F>,
    next0: Seq<OpenFTMLElement<T>>,
    next1: Seq<OpenFTMLElement<T>>,
    node: NodeInfo<T>,
    r: (Option<OpenFTMLElement<T>>, NodeEffect),
) -> bool {
    let in_notation = has_notation(o.narrative@);
    match e {
        OpenFTMLElement::Invisible => {
            &&& same_state(o, n)
            &&& next1 == next0
            &&& r.0 is None
            &&& r.1.delete == (!o.in_term && !in_notation)
            &&& !r.1.delete_children
            &&& r.1.title is None
        },
        OpenFTMLElement::SetSectionLevel(l) => plain(r, next0, next1) && element_added(o, n, DocumentElement::SetSectionLevel(l)),
        OpenFTMLElement::ImportModule(u) => plain(r, next0, next1) && import_closed(o, n, u),
        OpenFTMLElement::UseModule(u) => plain(r, next0, next1) && element_added(o, n, DocumentElement::UseModule(u)),
        OpenFTMLElement::Slide(u) => plain(r, next0, next1) && frame_closed(o, n, is_slide(), slide_make(node.range, u), narrative_error()),
        OpenFTMLElement::Module { uri, meta, signature, nested } => plain(r, next0, next1) && container_closed(
            o,
            n,
            module_make(node.range, uri),
            module_then(uri, meta, signature, nested),
        ),
        OpenFTMLElement::Morphism { uri, domain, total } => plain(r, next0, next1) && container_closed(
            o,
            n,
            morphism_make(node.range, uri),
            morphism_then(uri, domain, total),
        ),
        OpenFTMLElement::Assign(_) => {
            &&& plain(r, next0, next1)
            &&& pop_if(o.content@, n.content@, |c: Content<T>| c is SingleTerm)
            &&& n.narrative@ == o.narrative@
            &&& n.modules@ == o.modules@
            &&& n.errors@ == o.errors@
            &&& n.in_term == o.in_term
        },
        OpenFTMLElement::Section { lvl, uri } => plain(r, next0, next1) && frame_closed(
            o,
            n,
            is_section(),
            section_make(node.range, lvl, uri),
            narrative_error(),
        ),
        OpenFTMLElement::SkipSection => plain(r, next0, next1) && frame_closed(o, n, is_section(), skipped_make(), narrative_error()),
        OpenFTMLElement::Paragraph { uri, kind, styles } => plain(r, next0, next1) && frame_closed(
            o,
            n,
            is_paragraph(),
            paragraph_make(node.range, uri, kind, styles),
            paragraph_error(),
        ),
        OpenFTMLElement::Problem { uri, styles, autogradable, sub_problem } => plain(r, next0, next1) && frame_closed(
            o,
            n,
            is_problem(),
            problem_make(node.range, uri, styles, autogradable, sub_problem),
            not_in_problem(seq!['l']),
        ),
        OpenFTMLElement::Doctitle => {
            &&& same_state(o, n)
            &&& next1 == next0
            &&& r.0 is None
            &&& !r.1.delete
            &&& !r.1.delete_children
            &&& r.1.title == Some(node.inner_string)
        },
        OpenFTMLElement::Title => plain(r, next0, next1) && title_closed(o, n, node.inner_range),
        OpenFTMLElement::Symdecl { uri } => plain(r, next0, next1) && symdecl_closed(o, n, uri),
        OpenFTMLElement::Vardecl { uri, name_steps, bind, is_seq } => plain(r, next0, next1) && vardecl_closed(
            o,
            n,
            uri,
            name_steps,
            bind,
            is_seq,
        ),
        OpenFTMLElement::NotationComp => plain(r, next0, next1) && notation_comp_closed(o, n, node.notation),
        OpenFTMLElement::NotationOpComp => plain(r, next0, next1) && notation_op_closed(o, n, node.op_notation),
        OpenFTMLElement::Type => {
            &&& r.0 is None
            &&& no_effect(r.1)
            &&& next1 == next_after_term(next0)
            &&& type_closed(o, n, term_for(next0, node.term))
        },
        OpenFTMLElement::Conclusion { uri, in_term } => {
            &&& r.0 is None
            &&& no_effect(r.1)
            &&& next1 == next_after_term(next0)
            &&& n.in_term == in_term
            &&& term_closed(o, n, Some(uri), term_for(next0, node.term), FTMLError::NotInContent)
        },
        OpenFTMLElement::Definiens { uri, in_term } => {
            &&& r.0 is None
            &&& no_effect(r.1)
            &&& next1 == next_after_term(next0)
            &&& n.in_term == in_term
            &&& term_closed(o, n, uri, term_for(next0, node.term), FTMLError::NotInContent)
        },
        OpenFTMLElement::ClosedTerm(t) => handed_on(OpenFTMLElement::ClosedTerm(t), o, n, next0, next1, r),
        OpenFTMLElement::MMTRule(_) => plain(r, next0, next1) && args_dropped(closer, o, n),
        OpenFTMLElement::ArgSep => handed_on(OpenFTMLElement::ArgSep, o, n, next0, next1, r),
        OpenFTMLElement::ArgMap => handed_on(OpenFTMLElement::ArgMap, o, n, next0, next1, r),
        OpenFTMLElement::ArgMapSep => handed_on(OpenFTMLElement::ArgMapSep, o, n, next0, next1, r),
        OpenFTMLElement::Arg { index, list_index, mode } => if in_notation {
            handed_on(OpenFTMLElement::Arg { index, list_index, mode }, o, n, next0, next1, r)
        } else {
            plain(r, next0, next1) && arg_closed(o, n, index, list_index, node.term->Some_0, mode)
        },
        OpenFTMLElement::HeadTerm => {
            &&& plain(r, next0, next1)
            &&& n.in_term == o.in_term
            &&& term_closed(o, n, None, node.term->Some_0, FTMLError::IncompleteArgs(4))
        },
        OpenFTMLElement::ProblemHint => plain(r, next0, next1) && problem_step(
            o,
            n,
            innermost_problem(o.narrative@) is Some,
            hint_rel(node.inner_range),
            seq!['a'],
        ),
        OpenFTMLElement::ProblemSolution(id) => deleting(r, next0, next1, true) && problem_step(
            o,
            n,
            innermost_problem(o.narrative@) is Some,
            solution_rel(SolutionData::Solution { html: node.inner_string, answer_class: id }),
            seq!['b'],
        ),
        OpenFTMLElement::ProblemGradingNote => deleting(r, next0, next1, true) && problem_step(
            o,
            n,
            innermost_problem(o.narrative@) matches Some(p) && p.gnote is Some,
            gnote_rel(node.inner_string),
            seq!['d'],
        ),
        OpenFTMLElement::ChoiceBlock { .. } => plain(r, next0, next1) && problem_step(
            o,
            n,
            innermost_problem(o.narrative@) matches Some(p) && p.choice_block is Some,
            choices_rel(node.range),
            seq!['f'],
        ),
        OpenFTMLElement::AnswerClassFeedback => deleting(r, next0, next1, false) && problem_step(
            o,
            n,
            innermost_problem(o.narrative@) matches Some(p) && p.gnote is Some && p.gnote->0.answer_classes@.len() > 0,
            feedback_rel(node.string),
            seq!['g'],
        ),
        OpenFTMLElement::FillinsolCase => deleting(r, next0, next1, false) && problem_step(
            o,
            n,
            innermost_problem(o.narrative@) matches Some(p) && p.fillinsol is Some && p.fillinsol->0.cases@.len() > 0,
            fillin_feedback_rel(node.inner_string),
            seq!['k'],
        ),
        OpenFTMLElement::ProblemChoiceVerdict => deleting(r, next0, next1, false) && problem_step(
            o,
            n,
            innermost_problem(o.narrative@) matches Some(p) && p.choice_block is Some
                && p.choice_block->0.choices@.len() > 0,
            choice_text_rel(node.string, true),
            seq!['h'],
        ),
        OpenFTMLElement::ProblemChoiceFeedback => deleting(r, next0, next1, false) && problem_step(
            o,
            n,
            innermost_problem(o.narrative@) matches Some(p) && p.choice_block is Some
                && p.choice_block->0.choices@.len() > 0,
            choice_text_rel(node.string, false),
            seq!['i'],
        ),
        OpenFTMLElement::Comp => if in_notation {
            handed_on(OpenFTMLElement::Comp, o, n, next0, next1, r)
        } else {
            plain(r, next0, next1) && same_state(o, n)
        },
        OpenFTMLElement::MainComp => if in_notation {
            handed_on(OpenFTMLElement::MainComp, o, n, next0, next1, r)
        } else {
            plain(r, next0, next1) && same_state(o, n)
        },
        OpenFTMLElement::DefComp => if in_notation {
            handed_on(OpenFTMLElement::Comp, o, n, next0, next1, r)
        } else {
            plain(r, next0, next1) && same_state(o, n)
        },
        OpenFTMLElement::OpenTerm { term, is_top, top_uri, is_reference } => if is_top {
            plain(r, next0, next1) && top_term_closed(o, n, term, top_uri, is_reference)
        } else {
            handed_on(OpenFTMLElement::ClosedTerm(term), o, n, next0, next1, r)
        },
        OpenFTMLElement::MathStructure { uri, extension } => plain(r, next0, next1) && structure_closed(
            o,
            n,
            node.range,
            uri,
            extension,
        ),
        OpenFTMLElement::Inputref { uri, id, joined } => plain(r, next0, next1) && inputref_closed(
            o,
            n,
            uri,
            id,
            joined,
            node.range,
        ),
        OpenFTMLElement::Notation { id, joined, target, precedence, argprecs } => plain(r, next0, next1)
            && notation_closed(o, n, id, joined, target, precedence, argprecs),
        _ => plain(r, next0, next1) && same_state(o, n),
    }
}

/// Drops the invisible elements of `elems`, keeping the order.
fn drop_invisible<T>(elems: &mut Vec<OpenFTMLElement<T>>)
    ensures
        final(elems)@ == visible_only(old(elems)@),
{
    let mut rest: Vec<OpenFTMLElement<T>> = Vec::new();
    std::mem::swap(elems, &mut rest);
    let ghost orig = rest@;
    assert(orig.len() == rest.len());
    let mut i: usize = 0;
    assert(orig.take(0) =~= Seq::<OpenFTMLElement<T>>::empty());
    while rest.len() > 0
        invariant
            i <= orig.len(),
            rest@ == orig.skip(i as int),
            i + rest@.len() == orig.len(),
            orig.len() <= usize::MAX,
            elems@ == visible_only(orig.take(i as int)),
        decreases rest@.len(),
    {
        let e = rest.remove(0);
        proof {
            assert(e == orig[i as int]);
            assert(orig.take(i + 1).drop_last() =~= orig.take(i as int));
            assert(orig.take(i + 1).last() == orig[i as int]);
            assert(rest@ =~= orig.skip(i + 1));
        }
        match e {
            OpenFTMLElement::Invisible => {},
            other => {
                elems.push(other);
            },
        }
        i = i + 1;
    }
    assert(orig.take(i as int) =~= orig);
}

/// Closes a top-level term, as `top_term_closed` says.
fn close_top_term<T, A, F>(state: &mut ExtractorState<T, A, F>, term: T, top_uri: Option<String>, is_reference: bool)
    requires
        old(state).wf(),
    ensures
        final(state).wf(),
        final(state).styles == old(state).styles,
        top_term_closed(*old(state), *final(state), term, top_uri, is_reference),
{
    match top_uri {
        Some(u) => {
            state.set_in_term(false);
            if !is_reference {
                add_element(state, DocumentElement::TopTerm { uri: u, term });
            }
        },
        None => {
            proof {
                reveal_strlit("(should be impossible)");
            }
            let m = String::from_str("(should be impossible)");
            assert(m@ =~= "(should be impossible)"@ + Seq::<char>::empty());
            state.add_error(FTMLError::InvalidURI(m));
        },
    }
}

/// Closes a notation, as `notation_closed` says.
fn close_notation_frame<T, A, F>(
    state: &mut ExtractorState<T, A, F>,
    id: String,
    joined: Option<String>,
    target: NotationTarget,
    precedence: isize,
    argprecs: Vec<isize>,
)
    requires
        old(state).wf(),
    ensures
        final(state).wf(),
        final(state).styles == old(state).styles,
        notation_closed(*old(state), *final(state), id, joined, target, precedence, argprecs),
{
    let ghost s = state.narrative@;
    match state.close_notation() {
        None => {
            state.add_error(FTMLError::NotInNarrative);
        },
        Some(ns) => {
            proof {
                assert(s.len() >= 2) by {
                    if s.len() == 1 {
                        assert(s.last() == s[0]);
                    }
                }
                assert(state.narrative@ =~= s.drop_last());
                assert(state.narrative@[0] == s[0]);
            }
            if ns.attribute_index == 0 {
                state.add_error(FTMLError::NotInNarrative);
                return;
            }
            match joined {
                None => {
                    proof {
                        reveal_strlit("6: ");
                        assert("6: "@ =~= seq!['6', ':', ' ']);
                    }
                    let m = String::from_str("6: ").concat(id.as_str());
                    state.add_error(FTMLError::InvalidURI(m));
                },
                Some(u) => match target {
                    NotationTarget::Symbol(sym) => {
                        state.add_document_element(DocumentElement::Notation { symbol: sym, id: u, notation: ns, precedence, argprecs });
                    },
                    NotationTarget::Variable(v) => {
                        state.add_document_element(DocumentElement::VariableNotation { variable: v, id: u, notation: ns, precedence, argprecs });
                    },
                    NotationTarget::VariableName(names) => {
                        let ghost nm = names;
                        match state.resolve_variable_name(names) {
                            Var::Ref { declaration, .. } => {
                                state.add_document_element(
                                    DocumentElement::VariableNotation { variable: declaration, id: u, notation: ns, precedence, argprecs },
                                );
                            },
                            Var::Name(n) => {
                                state.add_error(FTMLError::UnresolvedVariable(n));
                            },
                        }
                    },
                },
            }
        },
    }
}

/// Whether closing `e` needs a term of the node.
pub open spec fn needs_term<T>(e: OpenFTMLElement<T>) -> bool {
    e is Type || e is Conclusion || e is Definiens || e is Arg || e is HeadTerm
}

impl<T> OpenFTMLElement<T> {
    /// Closes this element at the end of its node; gives the element to
    /// hand on to the parent, if any, and what to do to the node.
    pub fn close<A, F, G, C: Fn(TermOrList<T>, ArgMode) -> Result<G, G>>(
        self,
        state: &mut ExtractorState<T, A, F>,
        previous: &mut Vec<OpenFTMLElement<T>>,
        next: &mut Vec<OpenFTMLElement<T>>,
        node: NodeInfo<T>,
        closer: &C,
    ) -> (r: (Option<OpenFTMLElement<T>>, NodeEffect))
        requires
            old(state).wf(),
            forall|a: TermOrList<T>, m: ArgMode| call_requires(*closer, (a, m)),
            needs_term(self) ==> node.term is Some,
            self matches OpenFTMLElement::Arg { index, list_index, .. } ==> has_notation(old(state).narrative@)
                || arg_indices_ok(old(state).content@, index, list_index),
        ensures
            final(state).wf(),
            closes_as(*closer, self, *old(state), *final(state), old(previous)@, final(previous)@, old(next)@, final(next)@, node, r),
    {
        let none = NodeEffect { delete: false, delete_children: false, title: None };
        match self {
            OpenFTMLElement::Invisible => {
                let delete = !state.in_term() && !state.in_notation();
                (None, NodeEffect { delete, delete_children: false, title: None })
            },
            OpenFTMLElement::SetSectionLevel(l) => {
                add_element(state, DocumentElement::SetSectionLevel(l));
                (None, none)
            },
            OpenFTMLElement::ImportModule(u) => {
                close_import(state, u);
                (None, none)
            },
            OpenFTMLElement::UseModule(u) => {
                add_element(state, DocumentElement::UseModule(u));
                (None, none)
            },
            OpenFTMLElement::Slide(u) => {
                close_slide_frame(state, node.range, u);
                (None, none)
            },
            OpenFTMLElement::Module { uri, meta, signature, nested } => {
                close_module_frames(state, node.range, uri, meta, signature, nested);
                (None, none)
            },
            OpenFTMLElement::Morphism { uri, domain, total } => {
                close_morphism_frames(state, node.range, uri, domain, total);
                (None, none)
            },
            OpenFTMLElement::Assign(_) => {
                let _ = state.close_complex_term();
                (None, none)
            },
            OpenFTMLElement::Section { lvl, uri } => {
                close_section_frame(state, node.range, lvl, uri);
                (None, none)
            },
            OpenFTMLElement::SkipSection => {
                close_skipped_frame(state);
                (None, none)
            },
            OpenFTMLElement::Paragraph { uri, kind, styles } => {
                close_paragraph_frame(state, node.range, uri, kind, styles);
                (None, none)
            },
            OpenFTMLElement::Problem { uri, styles, autogradable, sub_problem } => {
                close_problem_frame(state, node.range, uri, styles, autogradable, sub_problem);
                (None, none)
            },
            OpenFTMLElement::Doctitle => (None, NodeEffect { delete: false, delete_children: false, title: Some(node.inner_string) }),
            OpenFTMLElement::Title => {
                close_title(state, node.inner_range);
                (None, none)
            },
            OpenFTMLElement::Symdecl { uri } => {
                close_symdecl_frame(state, uri);
                (None, none)
            },
            OpenFTMLElement::Vardecl { uri, name_steps, bind, is_seq } => {
                close_vardecl_frame(state, uri, name_steps, bind, is_seq);
                (None, none)
            },
            OpenFTMLElement::NotationComp => {
                close_notation_comp(state, node.notation);
                (None, none)
            },
            OpenFTMLElement::NotationOpComp => {
                close_notation_op(state, node.op_notation);
                (None, none)
            },
            OpenFTMLElement::Type => {
                state.set_in_term(false);
                let tm = as_term(next, node.term);
                if state.add_type(tm).is_err() {
                    state.add_error(FTMLError::NotInContent);
                }
                (None, none)
            },
            OpenFTMLElement::Conclusion { uri, in_term } => {
                state.set_in_term(in_term);
                let tm = as_term(next, node.term);
                close_term(state, Some(uri), tm, FTMLError::NotInContent);
                (None, none)
            },
            OpenFTMLElement::Definiens { uri, in_term } => {
                state.set_in_term(in_term);
                let tm = as_term(next, node.term);
                close_term(state, uri, tm, FTMLError::NotInContent);
                (None, none)
            },
            OpenFTMLElement::ClosedTerm(t) => (Some(OpenFTMLElement::ClosedTerm(t)), none),
            OpenFTMLElement::MMTRule(_) => {
                let ghost o = *state;
                let dropped = state.close_args(closer);
                assert(args_closed(*closer, o.content@, state.content@, o.errors@, state.errors@, (dropped.0@, dropped.1)));
                (None, none)
            },
            OpenFTMLElement::ArgSep => (Some(OpenFTMLElement::ArgSep), none),
            OpenFTMLElement::ArgMap => (Some(OpenFTMLElement::ArgMap), none),
            OpenFTMLElement::ArgMapSep => (Some(OpenFTMLElement::ArgMapSep), none),
            OpenFTMLElement::Arg { index, list_index, mode } => {
                if state.in_notation() {
                    return (Some(OpenFTMLElement::Arg { index, list_index, mode }), none);
                }
                let tm = node.term.unwrap();
                close_arg(state, index, list_index, tm, mode);
                (None, none)
            },
            OpenFTMLElement::HeadTerm => {
                let tm = node.term.unwrap();
                close_term(state, None, tm, FTMLError::IncompleteArgs(4));
                (None, none)
            },
            OpenFTMLElement::ProblemHint => {
                close_hint(state, node.inner_range);
                (None, none)
            },
            OpenFTMLElement::ProblemSolution(id) => {
                proof {
                    reveal_strlit("b");
                    assert("b"@ =~= seq!['b']);
                }
                close_solution(state, SolutionData::Solution { html: node.inner_string, answer_class: id }, "b");
                (None, NodeEffect { delete: false, delete_children: true, title: None })
            },
            OpenFTMLElement::ProblemGradingNote => {
                close_grading_note(state, node.inner_string);
                (None, NodeEffect { delete: false, delete_children: true, title: None })
            },
            OpenFTMLElement::ChoiceBlock { .. } => {
                close_choices(state, node.range);
                (None, none)
            },
            OpenFTMLElement::AnswerClassFeedback => {
                close_answer_feedback(state, node.string);
                (None, NodeEffect { delete: true, delete_children: false, title: None })
            },
            OpenFTMLElement::FillinsolCase => {
                close_fillin_feedback(state, node.inner_string);
                (None, NodeEffect { delete: true, delete_children: false, title: None })
            },
            OpenFTMLElement::ProblemChoiceVerdict => {
                proof {
                    reveal_strlit("h");
                    assert("h"@ =~= seq!['h']);
                }
                close_choice_text(state, node.string, true, "h");
                (None, NodeEffect { delete: true, delete_children: false, title: None })
            },
            OpenFTMLElement::ProblemChoiceFeedback => {
                proof {
                    reveal_strlit("i");
                    assert("i"@ =~= seq!['i']);
                }
                close_choice_text(state, node.string, false, "i");
                (None, NodeEffect { delete: true, delete_children: false, title: None })
            },
            OpenFTMLElement::Comp => {
                if state.in_notation() {
                    (Some(OpenFTMLElement::Comp), none)
                } else {
                    (None, none)
                }
            },
            OpenFTMLElement::MainComp => {
                if state.in_notation() {
                    (Some(OpenFTMLElement::MainComp), none)
                } else {
                    (None, none)
                }
            },
            OpenFTMLElement::DefComp => {
                if state.in_notation() {
                    (Some(OpenFTMLElement::Comp), none)
                } else {
                    (None, none)
                }
            },
            OpenFTMLElement::SlideNumber | OpenFTMLElement::ProofBody | OpenFTMLElement::ProofTitle
            | OpenFTMLElement::SubproofTitle | OpenFTMLElement::Definiendum(_) | OpenFTMLElement::AnswerClass
            | OpenFTMLElement::ProblemChoice | OpenFTMLElement::IfInputref(_) => (None, none),
            OpenFTMLElement::OpenTerm { term, is_top, top_uri, is_reference } => {
                if !is_top {
                    return (Some(OpenFTMLElement::ClosedTerm(term)), none);
                }
                close_top_term(state, term, top_uri, is_reference);
                (None, none)
            },
            OpenFTMLElement::MathStructure { uri, extension } => {
                close_structure_frames(state, node.range, uri, extension);
                (None, none)
            },
            OpenFTMLElement::Inputref { uri, id, joined } => {
                match joined {
                    Some(u) => {
                        add_element(state, DocumentElement::DocumentReference { id: u, range: node.range, target: uri });
                        drop_invisible(previous);
                    },
                    None => {
                        proof {
                            reveal_strlit("5: ");
                            assert("5: "@ =~= seq!['5', ':', ' ']);
                        }
                        let m = String::from_str("5: ").concat(id.as_str());
                        state.add_error(FTMLError::InvalidURI(m));
                    },
                }
                (None, none)
            },
            OpenFTMLElement::Notation { id, joined, target, precedence, argprecs } => {
                close_notation_frame(state, id, joined, target, precedence, argprecs);
                (None, none)
            },
        }
    }
}


/// Closing a section element while its section frame is on top ends the
/// frame and adds, as the last child of the innermost frame below it that
/// takes children, a section element with the node's range, the element's
/// level and URI, and the title and the children the frame held; no error
/// is recorded and no element is handed on.
pub proof fn law_section_close_keeps_title<T, A, F, G, C: Fn(TermOrList<T>, ArgMode) -> Result<G, G>>(
    closer: C,
    lvl: u8,
    uri: String,
    o: ExtractorState<T, A, F>,
    n: ExtractorState<T, A, F>,
    prev0: Seq<OpenFTMLElement<T>>,
    prev1: Seq<OpenFTMLElement<T>>,
    next0: Seq<OpenFTMLElement<T>>,
    next1: Seq<OpenFTMLElement<T>>,
    node: NodeInfo<T>,
    r: (Option<OpenFTMLElement<T>>, NodeEffect),
)
    requires
        closes_as(closer, OpenFTMLElement::Section { lvl, uri }, o, n, prev0, prev1, next0, next1, node, r),
        o.narrative@.len() > 0,
        o.narrative@.last() is Section,
    ensures
        ({
            let below = o.narrative@.drop_last();
            let k = rfind(below, |f: Narrative<T, A, F>| takes_children(f));
            o.narrative@.last() matches Narrative::Section { title, children, .. } ==> {
                &&& n.narrative@.len() == o.narrative@.len() - 1
                &&& 0 <= k < below.len()
                &&& children_view(n.narrative@[k]).last() == DocumentElement::Section {
                    range: node.range,
                    level: lvl,
                    title,
                    uri,
                    children,
                }
                &&& children_view(n.narrative@[k]).drop_last() == children_view(below[k])
                &&& n.errors@ == o.errors@
                &&& r.0 is None
            }
        }),
{
    let s = o.narrative@;
    assert(is_section::<T, A, F>()(s.last()));
    let e = section_make::<T, A, F>(node.range, lvl, uri)(s.last());
    assert(child_added(s.drop_last(), n.narrative@, e));
    let k = rfind(s.drop_last(), |f: Narrative<T, A, F>| takes_children(f));
    assert(children_view(n.narrative@[k]) =~= children_view(s.drop_last()[k]).push(e));
}


/// What `frame_closed` gives when the frame on top is of the kind: the
/// frame is gone and the element made of it is the last child of the
/// innermost frame below it that takes children.
proof fn lemma_frame_closed_adds<T, A, F>(
    o: ExtractorState<T, A, F>,
    n: ExtractorState<T, A, F>,
    is_kind: spec_fn(Narrative<T, A, F>) -> bool,
    make: spec_fn(Narrative<T, A, F>) -> DocumentElement<T, A, F>,
    err: spec_fn(FTMLError) -> bool,
)
    requires
        frame_closed(o, n, is_kind, make, err),
        o.narrative@.len() > 0,
        is_kind(o.narrative@.last()),
    ensures
        ({
            let below = o.narrative@.drop_last();
            let k = rfind(below, |f: Narrative<T, A, F>| takes_children(f));
            &&& n.narrative@.len() == below.len()
            &&& 0 <= k < below.len()
            &&& children_view(n.narrative@[k]).last() == make(o.narrative@.last())
            &&& children_view(n.narrative@[k]).drop_last() == children_view(below[k])
            &&& n.errors@ == o.errors@
        }),
{
    let s = o.narrative@;
    let k = rfind(s.drop_last(), |f: Narrative<T, A, F>| takes_children(f));
    assert(children_view(n.narrative@[k]) =~= children_view(s.drop_last()[k]).push(make(s.last())));
}

/// Closing a paragraph element while its paragraph frame is on top adds a
/// paragraph element with the node's range, the element's URI, kind and
/// styles, and the symbols it is for, the title and the children the frame
/// held; no error is recorded.
pub proof fn law_paragraph_close_keeps_frame<T, A, F, G, C: Fn(TermOrList<T>, ArgMode) -> Result<G, G>>(
    closer: C,
    uri: String,
    kind: ParagraphKind,
    styles: Vec<String>,
    o: ExtractorState<T, A, F>,
    n: ExtractorState<T, A, F>,
    prev0: Seq<OpenFTMLElement<T>>,
    prev1: Seq<OpenFTMLElement<T>>,
    next0: Seq<OpenFTMLElement<T>>,
    next1: Seq<OpenFTMLElement<T>>,
    node: NodeInfo<T>,
    r: (Option<OpenFTMLElement<T>>, NodeEffect),
)
    requires
        closes_as(closer, OpenFTMLElement::Paragraph { uri, kind, styles }, o, n, prev0, prev1, next0, next1, node, r),
        o.narrative@.len() > 0,
        o.narrative@.last() is Paragraph,
    ensures
        ({
            let below = o.narrative@.drop_last();
            let k = rfind(below, |f: Narrative<T, A, F>| takes_children(f));
            o.narrative@.last() matches Narrative::Paragraph(p) ==> {
                &&& n.narrative@.len() == below.len()
                &&& 0 <= k < below.len()
                &&& children_view(n.narrative@[k]).last() == DocumentElement::Paragraph {
                    range: node.range,
                    uri,
                    kind,
                    styles,
                    fors: p.fors,
                    title: p.title,
                    children: p.children,
                }
                &&& children_view(n.narrative@[k]).drop_last() == children_view(below[k])
                &&& n.errors@ == o.errors@
                &&& r.0 is None
            }
        }),
{
    assert(is_paragraph::<T, A, F>()(o.narrative@.last()));
    lemma_frame_closed_adds(o, n, is_paragraph(), paragraph_make(node.range, uri, kind, styles), paragraph_error());
}

/// Closing a problem element while its problem frame is on top adds a
/// problem element with the node's range, the element's URI, styles and
/// flags, and everything the frame gathered: solutions, grading notes,
/// hints, title, children, preconditions and objectives; no error is
/// recorded.
pub proof fn law_problem_close_keeps_frame<T, A, F, G, C: Fn(TermOrList<T>, ArgMode) -> Result<G, G>>(
    closer: C,
    uri: String,
    styles: Vec<String>,
    autogradable: bool,
    sub_problem: bool,
    o: ExtractorState<T, A, F>,
    n: ExtractorState<T, A, F>,
    prev0: Seq<OpenFTMLElement<T>>,
    prev1: Seq<OpenFTMLElement<T>>,
    next0: Seq<OpenFTMLElement<T>>,
    next1: Seq<OpenFTMLElement<T>>,
    node: NodeInfo<T>,
    r: (Option<OpenFTMLElement<T>>, NodeEffect),
)
    requires
        closes_as(
            closer,
            OpenFTMLElement::Problem { uri, styles, autogradable, sub_problem },
            o,
            n,
            prev0,
            prev1,
            next0,
            next1,
            node,
            r,
        ),
        o.narrative@.len() > 0,
        o.narrative@.last() is Problem,
    ensures
        ({
            let below = o.narrative@.drop_last();
            let k = rfind(below, |f: Narrative<T, A, F>| takes_children(f));
            o.narrative@.last() matches Narrative::Problem(p) ==> {
                &&& n.narrative@.len() == below.len()
                &&& 0 <= k < below.len()
                &&& children_view(n.narrative@[k]).last() == DocumentElement::Problem {
                    range: node.range,
                    uri,
                    styles,
                    sub_problem,
                    autogradable,
                    solutions: p.solutions,
                    gnotes: p.gnotes,
                    hints: p.hints,
                    title: p.title,
                    children: p.children,
                    preconditions: p.preconditions,
                    objectives: p.objectives,
                }
                &&& children_view(n.narrative@[k]).drop_last() == children_view(below[k])
                &&& n.errors@ == o.errors@
                &&& r.0 is None
            }
        }),
{
    assert(is_problem::<T, A, F>()(o.narrative@.last()));
    lemma_frame_closed_adds(
        o,
        n,
        is_problem(),
        problem_make(node.range, uri, styles, autogradable, sub_problem),
        not_in_problem(seq!['l']),
    );
}

/// Closing a slide element while a slide frame is on top adds a slide
/// element with the node's range, the element's URI and the frame's
/// children; closing a skipped section while a section frame is on top
/// adds a skipped section with the frame's children. No error is recorded.
pub proof fn law_slide_and_skip_close_keep_children<T, A, F, G, C: Fn(TermOrList<T>, ArgMode) -> Result<G, G>>(
    closer: C,
    uri: String,
    o: ExtractorState<T, A, F>,
    n: ExtractorState<T, A, F>,
    n2: ExtractorState<T, A, F>,
    prev0: Seq<OpenFTMLElement<T>>,
    prev1: Seq<OpenFTMLElement<T>>,
    next0: Seq<OpenFTMLElement<T>>,
    next1: Seq<OpenFTMLElement<T>>,
    node: NodeInfo<T>,
    r: (Option<OpenFTMLElement<T>>, NodeEffect),
    r2: (Option<OpenFTMLElement<T>>, NodeEffect),
)
    requires
        closes_as(closer, OpenFTMLElement::Slide(uri), o, n, prev0, prev1, next0, next1, node, r),
        closes_as(closer, OpenFTMLElement::SkipSection, o, n2, prev0, prev1, next0, next1, node, r2),
        o.narrative@.len() > 0,
    ensures
        ({
            let below = o.narrative@.drop_last();
            let k = rfind(below, |f: Narrative<T, A, F>| takes_children(f));
            &&& o.narrative@.last() matches Narrative::Slide { children } ==> {
                &&& 0 <= k < below.len()
                &&& n.narrative@.len() == below.len()
                &&& children_view(n.narrative@[k]).last() == DocumentElement::Slide { range: node.range, uri, children }
                &&& n.errors@ == o.errors@
            }
            &&& o.narrative@.last() matches Narrative::Section { children, .. } ==> {
                &&& 0 <= k < below.len()
                &&& n2.narrative@.len() == below.len()
                &&& children_view(n2.narrative@[k]).last() == DocumentElement::SkipSection(children)
                &&& n2.errors@ == o.errors@
            }
        }),
{
    if o.narrative@.last() is Slide {
        assert(is_slide::<T, A, F>()(o.narrative@.last()));
        lemma_frame_closed_adds(o, n, is_slide(), slide_make(node.range, uri), narrative_error());
    }
    if o.narrative@.last() is Section {
        assert(is_section::<T, A, F>()(o.narrative@.last()));
        lemma_frame_closed_adds(o, n2, is_section(), skipped_make(), narrative_error());
    }
}

/// Closing a section, slide, paragraph or problem element while no frame
/// of its kind is on top changes no frame and records one error.
pub proof fn law_close_without_frame_is_an_error<T, A, F, G, C: Fn(TermOrList<T>, ArgMode) -> Result<G, G>>(
    closer: C,
    e: OpenFTMLElement<T>,
    o: ExtractorState<T, A, F>,
    n: ExtractorState<T, A, F>,
    prev0: Seq<OpenFTMLElement<T>>,
    prev1: Seq<OpenFTMLElement<T>>,
    next0: Seq<OpenFTMLElement<T>>,
    next1: Seq<OpenFTMLElement<T>>,
    node: NodeInfo<T>,
    r: (Option<OpenFTMLElement<T>>, NodeEffect),
)
    requires
        closes_as(closer, e, o, n, prev0, prev1, next0, next1, node, r),
        o.narrative@.len() > 0,
        (e is Section && !(o.narrative@.last() is Section)) || (e is Slide && !(o.narrative@.last() is Slide)) || (
        e is Paragraph && !(o.narrative@.last() is Paragraph)) || (e is Problem && !(o.narrative@.last() is Problem)),
    ensures
        n.narrative@ == o.narrative@,
        n.errors@.len() == o.errors@.len() + 1,
        n.errors@.drop_last() == o.errors@,
        n.content@ == o.content@,
{
}

} // verus!
