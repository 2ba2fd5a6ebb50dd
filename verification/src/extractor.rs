//! The state machine that collects narrative and content elements while an
//! FTML document is traversed.
//!
//! The state holds two stacks: narrative frames (document, sections, slides,
//! paragraphs, problems, notations) and content frames (modules, declarations,
//! argument lists, complex terms).  Opening an element pushes a frame, closing
//! it pops the frame of the matching kind; a close that finds another kind of
//! frame on top leaves the stacks untouched.
use vstd::prelude::*;
use vstd::string::StringExecFns;

use crate::counters::SectionLevel;

verus! {

/// A byte range inside a document.
#[derive(Clone, Copy, Debug, PartialEq, Eq, Structural)]
pub struct DocumentRange {
    pub start: usize,
    pub end: usize,
}

/// The URI of a narrative container: a whole document or an element of one.
#[derive(Clone, Debug)]
pub enum NarrativeUri {
    Document(String),
    Element(String),
}

/// The six cognitive dimensions of a learning objective.
#[derive(Clone, Copy, Debug, PartialEq, Eq, Structural)]
pub enum CognitiveDimension {
    Remember,
    Understand,
    Apply,
    Analyze,
    Evaluate,
    Create,
}

/// The kind of a logical paragraph.
#[derive(Clone, Copy, Debug, PartialEq, Eq, Structural)]
pub enum ParagraphKind {
    Definition,
    Assertion,
    Paragraph,
    Proof,
    SubProof,
    Example,
}

/// How an argument of a notation is passed.
#[derive(Clone, Copy, Debug, PartialEq, Eq, Structural)]
pub enum ArgMode {
    Normal,
    Sequence,
    Binding,
    BindingSequence,
}

/// A component of a notation.
#[derive(Debug)]
pub enum NotationComponent {
    S(String),
    Arg(u8, ArgMode),
    ArgSep { index: u8, mode: ArgMode, sep: Vec<NotationComponent> },
    ArgMap { index: u8, segments: Vec<NotationComponent> },
    MainComp(String),
    Comp(String),
}

/// The operator form of a notation.
#[derive(Clone, Debug)]
pub struct OpNotation {
    pub attribute_index: u8,
    pub inner_index: u16,
    pub is_text: bool,
    pub text: String,
}

/// What a notation element contributes when it is closed.
#[derive(Debug)]
pub struct NotationSpec {
    pub attribute_index: u8,
    pub inner_index: u16,
    pub is_text: bool,
    pub components: Vec<NotationComponent>,
}

/// A reference to a variable: resolved to its declaration, or a bare name.
#[derive(Clone, Debug)]
pub enum Var {
    Name(Vec<String>),
    Ref { declaration: String, is_sequence: Option<bool> },
}

/// Errors reported while extracting FTML.
#[derive(Clone, Debug)]
pub enum FTMLError {
    MissingArguments,
    MissingElementsInList,
    UnresolvedVariable(Vec<String>),
    MissingHeadForTerm,
    InvalidTermKind(String),
    InvalidArgSpec,
    InvalidKeyFor(String, Option<String>),
    NotInContent,
    NotInNarrative,
    NotInParagraph,
    NotInProblem(String),
    InvalidKey,
    InvalidURI(String),
    IncompleteArgs(u8),
}

/// An answer class of a grading note; `A` is its kind (points or a trait).
pub struct AnswerClass<A> {
    pub id: String,
    pub kind: A,
    pub feedback: String,
}

/// A choice of a choice block.
#[derive(Clone, Debug)]
pub struct Choice {
    pub correct: bool,
    pub verdict: String,
    pub feedback: String,
}

/// An open grading note.
pub struct GnoteState<A> {
    pub answer_classes: Vec<AnswerClass<A>>,
}

/// An open choice block.
pub struct ChoiceBlockState {
    pub multiple: bool,
    pub inline: bool,
    pub styles: Vec<String>,
    pub choices: Vec<Choice>,
}

/// A case of a fill-in-the-solution block: an exact answer, a numerical
/// range (whose bounds `R` holds), or a regular expression, each with its
/// verdict and its feedback.
pub enum FillInCase<R> {
    Exact { value: String, verdict: bool, feedback: String },
    NumericalRange { range: R, verdict: bool, feedback: String },
    Regex { regex: String, verdict: bool, feedback: String },
}

/// The case `c` with the feedback `f`.
pub open spec fn with_feedback<R>(c: FillInCase<R>, f: String) -> FillInCase<R> {
    match c {
        FillInCase::Exact { value, verdict, .. } => FillInCase::Exact { value, verdict, feedback: f },
        FillInCase::NumericalRange { range, verdict, .. } => FillInCase::NumericalRange { range, verdict, feedback: f },
        FillInCase::Regex { regex, verdict, .. } => FillInCase::Regex { regex, verdict, feedback: f },
    }
}

/// Gives the case `c` the feedback `f`.
pub fn set_case_feedback<R>(c: FillInCase<R>, f: String) -> (r: FillInCase<R>)
    ensures
        r == with_feedback(c, f),
{
    match c {
        FillInCase::Exact { value, verdict, .. } => FillInCase::Exact { value, verdict, feedback: f },
        FillInCase::NumericalRange { range, verdict, .. } => FillInCase::NumericalRange { range, verdict, feedback: f },
        FillInCase::Regex { regex, verdict, .. } => FillInCase::Regex { regex, verdict, feedback: f },
    }
}

/// An open fill-in-the-solution block; `F` holds the bounds of its
/// numerical ranges.
pub struct FillinsolState<F> {
    pub cases: Vec<FillInCase<F>>,
}

/// An open logical paragraph.
pub struct ParagraphState<T, A, F> {
    pub uri: String,
    pub children: Vec<DocumentElement<T, A, F>>,
    pub fors: Vec<(String, Option<T>)>,
    pub title: Option<DocumentRange>,
}

/// A solution of a problem.
pub enum SolutionData<F> {
    Solution { html: String, answer_class: Option<String> },
    ChoiceBlock { multiple: bool, inline: bool, range: DocumentRange, styles: Vec<String>, choices: Vec<Choice> },
    FillInSol { opts: Vec<FillInCase<F>> },
}

/// A finished grading note: its HTML and its answer classes.
pub struct GradingNote<A> {
    pub html: String,
    pub answer_classes: Vec<AnswerClass<A>>,
}

/// An open problem.
pub struct ProblemState<T, A, F> {
    pub uri: String,
    pub solutions: Vec<SolutionData<F>>,
    pub gnotes: Vec<GradingNote<A>>,
    pub gnote: Option<GnoteState<A>>,
    pub choice_block: Option<ChoiceBlockState>,
    pub fillinsol: Option<FillinsolState<F>>,
    pub hints: Vec<DocumentRange>,
    pub title: Option<DocumentRange>,
    pub children: Vec<DocumentElement<T, A, F>>,
    pub preconditions: Vec<(CognitiveDimension, String)>,
    pub objectives: Vec<(CognitiveDimension, String)>,
}

/// An open notation.
pub struct NotationState {
    pub attribute_index: u8,
    pub inner_index: u16,
    pub is_text: bool,
    pub components: Vec<NotationComponent>,
    pub op: Option<OpNotation>,
}

/// The elements of a document's narrative.
pub enum DocumentElement<T, A, F> {
    SetSectionLevel(u8),
    UseModule(String),
    ImportModule(String),
    Module { range: DocumentRange, module: String, children: Vec<DocumentElement<T, A, F>> },
    MathStructure { range: DocumentRange, structure: String, children: Vec<DocumentElement<T, A, F>> },
    Extension { range: DocumentRange, extension: String, target: String, children: Vec<DocumentElement<T, A, F>> },
    Morphism { range: DocumentRange, morphism: String, children: Vec<DocumentElement<T, A, F>> },
    SkipSection(Vec<DocumentElement<T, A, F>>),
    Section { range: DocumentRange, level: u8, title: Option<DocumentRange>, uri: String, children: Vec<DocumentElement<T, A, F>> },
    Slide { range: DocumentRange, uri: String, children: Vec<DocumentElement<T, A, F>> },
    Paragraph { range: DocumentRange, uri: String, kind: ParagraphKind, styles: Vec<String>, fors: Vec<(String, Option<T>)>, title: Option<DocumentRange>, children: Vec<DocumentElement<T, A, F>> },
    Problem { range: DocumentRange, uri: String, styles: Vec<String>, sub_problem: bool, autogradable: bool, solutions: Vec<SolutionData<F>>, gnotes: Vec<GradingNote<A>>, hints: Vec<DocumentRange>, title: Option<DocumentRange>, children: Vec<DocumentElement<T, A, F>>, preconditions: Vec<(CognitiveDimension, String)>, objectives: Vec<(CognitiveDimension, String)> },
    SymbolDeclaration(String),
    Variable { uri: String, name_steps: Vec<String>, is_seq: bool, bind: bool, tp: Option<T>, df: Option<T> },
    Notation { symbol: String, id: String, notation: NotationState, precedence: isize, argprecs: Vec<isize> },
    VariableNotation { variable: String, id: String, notation: NotationState, precedence: isize, argprecs: Vec<isize> },
    TopTerm { uri: String, term: T },
    DocumentReference { id: String, range: DocumentRange, target: String },
}

/// A frame of the narrative stack.
pub enum Narrative<T, A, F> {
    Container(NarrativeUri, Vec<DocumentElement<T, A, F>>),
    Paragraph(ParagraphState<T, A, F>),
    Section { uri: String, title: Option<DocumentRange>, children: Vec<DocumentElement<T, A, F>> },
    Slide { children: Vec<DocumentElement<T, A, F>> },
    Problem(ProblemState<T, A, F>),
    Notation(NotationState),
}

/// An element of a module's content.
pub enum OpenDeclaration<T> {
    Import(String),
    Symbol { uri: String, tp: Option<T>, df: Option<T> },
    NestedModule { uri: String, elements: Vec<OpenDeclaration<T>> },
    MathStructure { uri: String, elements: Vec<OpenDeclaration<T>> },
    Extension { uri: String, target: String, elements: Vec<OpenDeclaration<T>> },
    Morphism { uri: String, domain: String, total: bool, elements: Vec<OpenDeclaration<T>> },
}

/// A term or a list of terms given as one argument.
pub enum TermOrList<T> {
    Term(T),
    List(Vec<Option<T>>),
}

/// A frame of the content stack.
pub enum Content<T> {
    Container(String, Vec<OpenDeclaration<T>>),
    SingleTerm(Option<T>),
    Symdecl { tp: Option<T>, df: Option<T> },
    Args(Vec<Option<(TermOrList<T>, ArgMode)>>, Option<T>),
}

/// A finished module.
pub struct OpenModule<T> {
    pub uri: String,
    pub meta: Option<String>,
    pub signature: Option<String>,
    pub elements: Vec<OpenDeclaration<T>>,
}

/// The state of an extraction run.
pub struct ExtractorState<T, A, F> {
    pub in_term: bool,
    pub narrative: Vec<Narrative<T, A, F>>,
    pub content: Vec<Content<T>>,
    pub modules: Vec<OpenModule<T>>,
    pub errors: Vec<FTMLError>,
    pub styles: DocumentStyles,
}

/// A counter of the document and the section level that resets it.
pub struct SectionCounter {
    pub name: String,
    pub parent: Option<SectionLevel>,
}

/// A style of paragraphs of a kind, by name, and the counter it uses.
pub struct DocumentStyle {
    pub kind: ParagraphKind,
    pub name: Option<String>,
    pub counter: Option<String>,
}

/// The counters and paragraph styles a document declares.
pub struct DocumentStyles {
    pub counters: Vec<SectionCounter>,
    pub styles: Vec<DocumentStyle>,
}

/// Index of the last element of `s` that satisfies `p`, or -1.
pub open spec fn rfind<X>(s: Seq<X>, p: spec_fn(X) -> bool) -> int
    decreases s.len(),
{
    if s.len() == 0 {
        -1
    } else if p(s.last()) {
        s.len() - 1
    } else {
        rfind(s.drop_last(), p)
    }
}

/// `rfind` is the last index satisfying `p`.
pub proof fn lemma_rfind<X>(s: Seq<X>, p: spec_fn(X) -> bool, k: int)
    requires
        -1 <= k < s.len(),
        k >= 0 ==> p(s[k]),
        forall|j: int| k < j < s.len() ==> !p(#[trigger] s[j]),
    ensures
        rfind(s, p) == k,
    decreases s.len(),
{
    if s.len() > 0 && k < s.len() - 1 {
        assert(!p(s[s.len() - 1]));
        assert forall|j: int| k < j < s.drop_last().len() implies !p(#[trigger] s.drop_last()[j]) by {
            assert(s.drop_last()[j] == s[j]);
        }
        if k >= 0 {
            assert(s.drop_last()[k] == s[k]);
        }
        lemma_rfind(s.drop_last(), p, k);
    }
}

/// Frames that take narrative children (all but notations).
pub open spec fn takes_children<T, A, F>(n: Narrative<T, A, F>) -> bool {
    !(n is Notation)
}

/// Frames that carry a URI for nested narrative elements.
pub open spec fn has_narrative_uri<T, A, F>(n: Narrative<T, A, F>) -> bool {
    n is Container || n is Paragraph || n is Problem || n is Section
}

/// The spec-level URI string of a frame with a narrative URI.
pub open spec fn frame_uri<T, A, F>(n: Narrative<T, A, F>) -> Seq<char> {
    match n {
        Narrative::Container(NarrativeUri::Document(u), _) => u@,
        Narrative::Container(NarrativeUri::Element(u), _) => u@,
        Narrative::Paragraph(p) => p.uri@,
        Narrative::Problem(p) => p.uri@,
        Narrative::Section { uri, .. } => uri@,
        _ => Seq::empty(),
    }
}

/// The narrative children of a frame (empty for notations).
pub open spec fn children_view<T, A, F>(n: Narrative<T, A, F>) -> Seq<DocumentElement<T, A, F>> {
    match n {
        Narrative::Container(_, c) => c@,
        Narrative::Paragraph(p) => p.children@,
        Narrative::Problem(p) => p.children@,
        Narrative::Section { children, .. } => children@,
        Narrative::Slide { children } => children@,
        Narrative::Notation(_) => Seq::empty(),
    }
}

/// `a` and `b` are frames of the same kind that agree on everything but
/// their children.
pub open spec fn same_but_children<T, A, F>(a: Narrative<T, A, F>, b: Narrative<T, A, F>) -> bool {
    match (a, b) {
        (Narrative::Container(u1, _), Narrative::Container(u2, _)) => u1 == u2,
        (Narrative::Paragraph(p), Narrative::Paragraph(q)) => p.uri == q.uri && p.fors == q.fors && p.title == q.title,
        (Narrative::Problem(p), Narrative::Problem(q)) => {
            &&& p.uri == q.uri
            &&& p.solutions == q.solutions
            &&& p.gnotes == q.gnotes
            &&& p.gnote == q.gnote
            &&& p.choice_block == q.choice_block
            &&& p.fillinsol == q.fillinsol
            &&& p.hints == q.hints
            &&& p.title == q.title
            &&& p.preconditions == q.preconditions
            &&& p.objectives == q.objectives
        },
        (Narrative::Section { uri: u1, title: t1, .. }, Narrative::Section { uri: u2, title: t2, .. }) => u1 == u2 && t1 == t2,
        (Narrative::Slide { .. }, Narrative::Slide { .. }) => true,
        _ => false,
    }
}

impl<T, A, F> ExtractorState<T, A, F> {
    /// The bottom narrative frame is the document container.
    pub open spec fn wf(&self) -> bool {
        &&& self.narrative@.len() >= 1
        &&& self.narrative@[0] matches Narrative::Container(NarrativeUri::Document(_), _)
    }

    /// A fresh state for the document `document`.
    pub fn new(document: String) -> (r: Self)
        ensures
            r.wf(),
            r.narrative@.len() == 1,
            r.narrative@[0] matches Narrative::Container(NarrativeUri::Document(d), c) && d@ == document@ && c@.len() == 0,
            r.content@.len() == 0,
            r.modules@.len() == 0,
            r.errors@.len() == 0,
            !r.in_term,
            r.styles.counters@.len() == 0,
            r.styles.styles@.len() == 0,
    {
        let mut narrative = Vec::new();
        narrative.push(Narrative::Container(NarrativeUri::Document(document), Vec::new()));
        ExtractorState {
            in_term: false,
            narrative,
            content: Vec::new(),
            modules: Vec::new(),
            errors: Vec::new(),
            styles: DocumentStyles { counters: Vec::new(), styles: Vec::new() },
        }
    }

    /// Records an error.
    pub fn add_error(&mut self, err: FTMLError)
        ensures
            final(self).errors@ == old(self).errors@.push(err),
            final(self).narrative@ == old(self).narrative@,
            final(self).content@ == old(self).content@,
            final(self).modules@ == old(self).modules@,
            final(self).in_term == old(self).in_term,
            final(self).styles == old(self).styles,
    {
        self.errors.push(err);
    }

    /// Whether a term is being extracted.
    pub fn in_term(&self) -> (r: bool)
        ensures
            r == self.in_term,
    {
        self.in_term
    }

    /// Sets whether a term is being extracted.
    pub fn set_in_term(&mut self, b: bool)
        ensures
            final(self).in_term == b,
            final(self).narrative@ == old(self).narrative@,
            final(self).content@ == old(self).content@,
            final(self).modules@ == old(self).modules@,
            final(self).errors@ == old(self).errors@,
            final(self).styles == old(self).styles,
    {
        self.in_term = b;
    }

    /// Records a paragraph style of the document.
    pub fn add_style(&mut self, style: DocumentStyle)
        ensures
            final(self).styles.styles@ == old(self).styles.styles@.push(style),
            final(self).styles.counters@ == old(self).styles.counters@,
            final(self).narrative@ == old(self).narrative@,
            final(self).content@ == old(self).content@,
            final(self).modules@ == old(self).modules@,
            final(self).errors@ == old(self).errors@,
            final(self).in_term == old(self).in_term,
    {
        self.styles.styles.push(style);
    }

    /// Records a counter of the document.
    pub fn add_counter(&mut self, counter: SectionCounter)
        ensures
            final(self).styles.counters@ == old(self).styles.counters@.push(counter),
            final(self).styles.styles@ == old(self).styles.styles@,
            final(self).narrative@ == old(self).narrative@,
            final(self).content@ == old(self).content@,
            final(self).modules@ == old(self).modules@,
            final(self).errors@ == old(self).errors@,
            final(self).in_term == old(self).in_term,
    {
        self.styles.counters.push(counter);
    }

    /// Records a finished module.
    pub fn add_module(&mut self, module: OpenModule<T>)
        ensures
            final(self).modules@ == old(self).modules@.push(module),
            final(self).narrative@ == old(self).narrative@,
            final(self).content@ == old(self).content@,
            final(self).errors@ == old(self).errors@,
            final(self).in_term == old(self).in_term,
            final(self).styles == old(self).styles,
    {
        self.modules.push(module);
    }

    /// Index of the innermost open problem, or -1.
    pub open spec fn problem_index(&self) -> int {
        rfind(self.narrative@, |n: Narrative<T, A, F>| n is Problem)
    }

    /// Index of the innermost open paragraph, or -1.
    pub open spec fn paragraph_index(&self) -> int {
        rfind(self.narrative@, |n: Narrative<T, A, F>| n is Paragraph)
    }

    /// Index of the innermost frame that takes narrative children, or -1.
    pub open spec fn child_target_index(&self) -> int {
        rfind(self.narrative@, |n: Narrative<T, A, F>| takes_children(n))
    }

    /// Index of the innermost frame with a title (paragraph, problem, section), or -1.
    pub open spec fn title_target_index(&self) -> int {
        rfind(self.narrative@, |n: Narrative<T, A, F>| n is Paragraph || n is Problem || n is Section)
    }

    /// Index of the innermost frame with a narrative URI, or -1.
    pub open spec fn uri_frame_index(&self) -> int {
        rfind(self.narrative@, |n: Narrative<T, A, F>| has_narrative_uri(n))
    }

    /// Index of the innermost narrative container, or -1.
    pub open spec fn container_index(&self) -> int {
        rfind(self.narrative@, |n: Narrative<T, A, F>| n is Container)
    }

    /// Index of the innermost content container, or -1.
    pub open spec fn content_container_index(&self) -> int {
        rfind(self.content@, |c: Content<T>| c is Container)
    }

    /// Everything but the narrative stack is unchanged from `old`.
    pub open spec fn same_but_narrative(&self, old: &Self) -> bool {
        &&& self.content@ == old.content@
        &&& self.modules@ == old.modules@
        &&& self.errors@ == old.errors@
        &&& self.in_term == old.in_term
        &&& self.styles == old.styles
    }

    /// Everything but the content stack is unchanged from `old`.
    pub open spec fn same_but_content(&self, old: &Self) -> bool {
        &&& self.narrative@ == old.narrative@
        &&& self.modules@ == old.modules@
        &&& self.errors@ == old.errors@
        &&& self.in_term == old.in_term
        &&& self.styles == old.styles
    }

    /// Finds the innermost open problem.
    fn find_problem(&self) -> (r: Option<usize>)
        ensures
            r matches Some(k) ==> k == self.problem_index() && k < self.narrative@.len() && self.narrative@[k as int] is Problem,
            r is None ==> self.problem_index() == -1,
    {
        let mut i = self.narrative.len();
        while i > 0
            invariant
                i <= self.narrative@.len(),
                forall|j: int| i <= j < self.narrative@.len() ==> !(#[trigger] self.narrative@[j] is Problem),
            decreases i,
        {
            i = i - 1;
            if let Narrative::Problem(_) = &self.narrative[i] {
                proof {
                    lemma_rfind(self.narrative@, |n: Narrative<T, A, F>| n is Problem, i as int);
                }
                return Some(i);
            }
        }
        proof {
            lemma_rfind(self.narrative@, |n: Narrative<T, A, F>| n is Problem, -1);
        }
        None
    }

    /// Finds the innermost open paragraph.
    fn find_paragraph(&self) -> (r: Option<usize>)
        ensures
            r matches Some(k) ==> k == self.paragraph_index() && k < self.narrative@.len() && self.narrative@[k as int] is Paragraph,
            r is None ==> self.paragraph_index() == -1,
    {
        let mut i = self.narrative.len();
        while i > 0
            invariant
                i <= self.narrative@.len(),
                forall|j: int| i <= j < self.narrative@.len() ==> !(#[trigger] self.narrative@[j] is Paragraph),
            decreases i,
        {
            i = i - 1;
            if let Narrative::Paragraph(_) = &self.narrative[i] {
                proof {
                    lemma_rfind(self.narrative@, |n: Narrative<T, A, F>| n is Paragraph, i as int);
                }
                return Some(i);
            }
        }
        proof {
            lemma_rfind(self.narrative@, |n: Narrative<T, A, F>| n is Paragraph, -1);
        }
        None
    }

    /// Opens a content container (a module) for `uri`.
    pub fn open_content(&mut self, uri: String)
        ensures
            final(self).content@.len() == old(self).content@.len() + 1,
            final(self).content@.drop_last() == old(self).content@,
            final(self).content@.last() matches Content::Container(u, e) && u == uri && e@.len() == 0,
            final(self).same_but_content(old(self)),
    {
        self.content.push(Content::Container(uri, Vec::new()));
    }

    /// Opens a slot for a single complex term.
    pub fn open_complex_term(&mut self)
        ensures
            final(self).content@ == old(self).content@.push(Content::SingleTerm(None)),
            final(self).same_but_content(old(self)),
    {
        self.content.push(Content::SingleTerm(None));
    }

    /// Opens a symbol or variable declaration.
    pub fn open_decl(&mut self)
        ensures
            final(self).content@ == old(self).content@.push(Content::Symdecl { tp: None, df: None }),
            final(self).same_but_content(old(self)),
    {
        self.content.push(Content::Symdecl { df: None, tp: None });
    }

    /// Opens an argument list.
    pub fn open_args(&mut self)
        ensures
            final(self).content@.len() == old(self).content@.len() + 1,
            final(self).content@.drop_last() == old(self).content@,
            final(self).content@.last() matches Content::Args(v, h) && v@.len() == 0 && h is None,
            final(self).same_but_content(old(self)),
    {
        self.content.push(Content::Args(Vec::new(), None));
    }

    /// Closes the innermost content container, if it is on top.
    pub fn close_content(&mut self) -> (r: Option<(String, Vec<OpenDeclaration<T>>)>)
        ensures
            pop_if(old(self).content@, final(self).content@, |c: Content<T>| c is Container),
            old(self).content@.len() > 0 ==> (old(self).content@.last() matches Content::Container(u, e) ==> r == Some((u, e))),
            r is Some <==> (old(self).content@.len() > 0 && old(self).content@.last() is Container),
            final(self).same_but_content(old(self)),
    {
        match self.content.pop() {
            Some(Content::Container(uri, elements)) => {
                return Some((uri, elements));
            },
            Some(o) => {
                self.content.push(o);
            },
            None => {},
        }
        None
    }

    /// Closes the innermost complex term slot, if it is on top, giving its term.
    pub fn close_complex_term(&mut self) -> (r: Option<T>)
        ensures
            pop_if(old(self).content@, final(self).content@, |c: Content<T>| c is SingleTerm),
            old(self).content@.len() > 0 ==> (old(self).content@.last() matches Content::SingleTerm(t) ==> r == t),
            !(old(self).content@.len() > 0 && old(self).content@.last() is SingleTerm) ==> r is None,
            final(self).same_but_content(old(self)),
    {
        match self.content.pop() {
            Some(Content::SingleTerm(t)) => {
                return t;
            },
            Some(o) => {
                self.content.push(o);
            },
            None => {},
        }
        None
    }

    /// Closes the innermost declaration, if it is on top, giving `(type, definiens)`.
    pub fn close_decl(&mut self) -> (r: Option<(Option<T>, Option<T>)>)
        ensures
            pop_if(old(self).content@, final(self).content@, |c: Content<T>| c is Symdecl),
            old(self).content@.len() > 0 ==> (old(self).content@.last() matches Content::Symdecl { tp, df } ==> r == Some((tp, df))),
            r is Some <==> (old(self).content@.len() > 0 && old(self).content@.last() is Symdecl),
            final(self).same_but_content(old(self)),
    {
        match self.content.pop() {
            Some(Content::Symdecl { df, tp }) => {
                return Some((tp, df));
            },
            Some(o) => {
                self.content.push(o);
            },
            None => {},
        }
        None
    }

    /// Opens a section with the given URI.
    pub fn open_section(&mut self, uri: String)
        ensures
            pushed(old(self).narrative@, final(self).narrative@),
            final(self).narrative@.last() matches Narrative::Section { uri: u, title, children } && u == uri && title is None && children@.len() == 0,
            final(self).same_but_narrative(old(self)),
    {
        self.narrative.push(Narrative::Section { title: None, children: Vec::new(), uri });
    }

    /// Closes the innermost section, if it is on top.
    pub fn close_section(&mut self) -> (r: Option<(String, Option<DocumentRange>, Vec<DocumentElement<T, A, F>>)>)
        ensures
            pop_if(old(self).narrative@, final(self).narrative@, |n: Narrative<T, A, F>| n is Section),
            old(self).narrative@.len() > 0 ==> (old(self).narrative@.last() matches Narrative::Section { uri, title, children } ==> r == Some((uri, title, children))),
            r is Some <==> (old(self).narrative@.len() > 0 && old(self).narrative@.last() is Section),
            final(self).same_but_narrative(old(self)),
    {
        match self.narrative.pop() {
            Some(Narrative::Section { title, children, uri }) => {
                return Some((uri, title, children));
            },
            Some(o) => {
                self.narrative.push(o);
            },
            None => {},
        }
        None
    }

    /// Opens a slide.
    pub fn open_slide(&mut self)
        ensures
            pushed(old(self).narrative@, final(self).narrative@),
            final(self).narrative@.last() matches Narrative::Slide { children } && children@.len() == 0,
            final(self).same_but_narrative(old(self)),
    {
        self.narrative.push(Narrative::Slide { children: Vec::new() });
    }

    /// Closes the innermost slide, if it is on top.
    pub fn close_slide(&mut self) -> (r: Option<Vec<DocumentElement<T, A, F>>>)
        ensures
            pop_if(old(self).narrative@, final(self).narrative@, |n: Narrative<T, A, F>| n is Slide),
            old(self).narrative@.len() > 0 ==> (old(self).narrative@.last() matches Narrative::Slide { children } ==> r == Some(children)),
            r is Some <==> (old(self).narrative@.len() > 0 && old(self).narrative@.last() is Slide),
            final(self).same_but_narrative(old(self)),
    {
        match self.narrative.pop() {
            Some(Narrative::Slide { children }) => {
                return Some(children);
            },
            Some(o) => {
                self.narrative.push(o);
            },
            None => {},
        }
        None
    }

    /// Opens a logical paragraph for `uri` defining the symbols `fors`.
    pub fn open_paragraph(&mut self, uri: String, fors: Vec<String>)
        ensures
            pushed(old(self).narrative@, final(self).narrative@),
            final(self).narrative@.last() matches Narrative::Paragraph(p) && p.uri == uri && p.title is None
                && p.children@.len() == 0 && p.fors@.len() == fors@.len()
                && forall|i: int| 0 <= i < fors@.len() ==> #[trigger] p.fors@[i] == (fors@[i], None::<T>),
            final(self).same_but_narrative(old(self)),
    {
        let mut fs: Vec<(String, Option<T>)> = Vec::new();
        let mut i: usize = 0;
        while i < fors.len()
            invariant
                i <= fors@.len(),
                fs@.len() == i,
                forall|j: int| 0 <= j < i ==> #[trigger] fs@[j] == (fors@[j], None::<T>),
            decreases fors@.len() - i,
        {
            fs.push((fors[i].clone(), None));
            i = i + 1;
        }
        self.narrative.push(Narrative::Paragraph(ParagraphState { uri, children: Vec::new(), fors: fs, title: None }));
    }

    /// Closes the innermost paragraph, if it is on top.
    pub fn close_paragraph(&mut self) -> (r: Option<ParagraphState<T, A, F>>)
        ensures
            pop_if(old(self).narrative@, final(self).narrative@, |n: Narrative<T, A, F>| n is Paragraph),
            old(self).narrative@.len() > 0 ==> (old(self).narrative@.last() matches Narrative::Paragraph(p) ==> r == Some(p)),
            r is Some <==> (old(self).narrative@.len() > 0 && old(self).narrative@.last() is Paragraph),
            final(self).same_but_narrative(old(self)),
    {
        match self.narrative.pop() {
            Some(Narrative::Paragraph(state)) => {
                return Some(state);
            },
            Some(o) => {
                self.narrative.push(o);
            },
            None => {},
        }
        None
    }

    /// Opens a problem for `uri`.
    pub fn open_problem(&mut self, uri: String)
        ensures
            pushed(old(self).narrative@, final(self).narrative@),
            final(self).narrative@.last() matches Narrative::Problem(p) && fresh_problem(p, uri),
            final(self).same_but_narrative(old(self)),
    {
        self.narrative.push(Narrative::Problem(ProblemState {
            uri,
            solutions: Vec::new(),
            gnotes: Vec::new(),
            gnote: None,
            choice_block: None,
            fillinsol: None,
            hints: Vec::new(),
            title: None,
            children: Vec::new(),
            preconditions: Vec::new(),
            objectives: Vec::new(),
        }));
    }

    /// Closes the innermost problem, if it is on top.
    pub fn close_problem(&mut self) -> (r: Option<ProblemState<T, A, F>>)
        ensures
            pop_if(old(self).narrative@, final(self).narrative@, |n: Narrative<T, A, F>| n is Problem),
            old(self).narrative@.len() > 0 ==> (old(self).narrative@.last() matches Narrative::Problem(p) ==> r == Some(p)),
            r is Some <==> (old(self).narrative@.len() > 0 && old(self).narrative@.last() is Problem),
            final(self).same_but_narrative(old(self)),
    {
        match self.narrative.pop() {
            Some(Narrative::Problem(state)) => {
                return Some(state);
            },
            Some(o) => {
                self.narrative.push(o);
            },
            None => {},
        }
        None
    }

    /// Opens a notation.
    pub fn open_notation(&mut self)
        ensures
            pushed(old(self).narrative@, final(self).narrative@),
            final(self).narrative@.last() matches Narrative::Notation(n) && n.attribute_index == 0
                && n.inner_index == 0 && !n.is_text && n.components@.len() == 0 && n.op is None,
            final(self).same_but_narrative(old(self)),
    {
        self.narrative.push(Narrative::Notation(NotationState {
            attribute_index: 0,
            inner_index: 0,
            is_text: false,
            components: Vec::new(),
            op: None,
        }));
    }

    /// Closes the innermost notation, if it is on top.
    pub fn close_notation(&mut self) -> (r: Option<NotationState>)
        ensures
            pop_if(old(self).narrative@, final(self).narrative@, |n: Narrative<T, A, F>| n is Notation),
            old(self).narrative@.len() > 0 ==> (old(self).narrative@.last() matches Narrative::Notation(s) ==> r == Some(s)),
            r is Some <==> (old(self).narrative@.len() > 0 && old(self).narrative@.last() is Notation),
            final(self).same_but_narrative(old(self)),
    {
        match self.narrative.pop() {
            Some(Narrative::Notation(state)) => {
                return Some(state);
            },
            Some(o) => {
                self.narrative.push(o);
            },
            None => {},
        }
        None
    }

    /// Takes the frame at `k` out of the narrative stack.
    fn take_frame(&mut self, k: usize) -> (r: Narrative<T, A, F>)
        requires
            k < old(self).narrative@.len(),
        ensures
            r == old(self).narrative@[k as int],
            final(self).narrative@ == old(self).narrative@.remove(k as int),
            final(self).same_but_narrative(old(self)),
    {
        self.narrative.remove(k)
    }

    /// Puts `n` back at `k` after `take_frame`.
    fn put_frame(&mut self, k: usize, n: Narrative<T, A, F>)
        requires
            k <= old(self).narrative@.len(),
        ensures
            final(self).narrative@ == old(self).narrative@.insert(k as int, n),
            final(self).same_but_narrative(old(self)),
    {
        self.narrative.insert(k, n);
    }

    /// Records an answer class in the grading note of the innermost problem;
    /// an error if there is no problem or it has no open grading note.
    pub fn push_answer_class(&mut self, id: String, kind: A)
        ensures
            ({
                let k = old(self).problem_index();
                if k >= 0 && problem_at(old(self).narrative@, k).gnote is Some {
                    let p = problem_at(old(self).narrative@, k);
                    &&& updated_at(old(self).narrative@, final(self).narrative@, k)
                    &&& final(self).narrative@[k] matches Narrative::Problem(q)
                    &&& q == ProblemState { gnote: q.gnote, ..p }
                    &&& q.gnote matches Some(g)
                    &&& g.answer_classes@.drop_last() =~= p.gnote->0.answer_classes@
                    &&& g.answer_classes@.len() == p.gnote->0.answer_classes@.len() + 1
                    &&& g.answer_classes@.last().id == id
                    &&& g.answer_classes@.last().kind == kind
                    &&& g.answer_classes@.last().feedback@.len() == 0
                    &&& final(self).errors@ == old(self).errors@
                } else {
                    &&& final(self).narrative@ == old(self).narrative@
                    &&& problem_error_pushed(old(self).errors@, final(self).errors@, seq!['1'])
                }
            }),
            final(self).content@ == old(self).content@,
            final(self).modules@ == old(self).modules@,
            final(self).in_term == old(self).in_term,
            final(self).styles == old(self).styles,
    {
        if let Some(k) = self.find_problem() {
            let frame = self.take_frame(k);
            if let Narrative::Problem(mut p) = frame {
                if let Some(mut g) = p.gnote.take() {
                    g.answer_classes.push(AnswerClass { id, kind, feedback: String::new() });
                    p.gnote = Some(g);
                    self.put_frame(k, Narrative::Problem(p));
                    proof {
                        assert(self.narrative@ =~= old(self).narrative@.update(k as int, self.narrative@[k as int]));
                        assert(updated_at(old(self).narrative@, self.narrative@, k as int));
                        let q = self.narrative@[k as int]->Problem_0;
                        assert(q == ProblemState { gnote: q.gnote, ..problem_at(old(self).narrative@, k as int) });
                    }
                    return;
                }
                self.put_frame(k, Narrative::Problem(p));
                proof {
                    assert(self.narrative@ =~= old(self).narrative@);
                }
            } else {
                self.put_frame(k, frame);
            }
        }
        proof {
            reveal_strlit("1");
        }
        let code = String::from_str("1");
        assert(code@ =~= seq!['1']);
        self.add_error(FTMLError::NotInProblem(code));
    }


    /// Records a choice in the choice block of the innermost problem; an
    /// error if there is no problem or it has no open choice block.
    pub fn push_problem_choice(&mut self, correct: bool)
        ensures
            ({
                let k = old(self).problem_index();
                if k >= 0 && problem_at(old(self).narrative@, k).choice_block is Some {
                    let p = problem_at(old(self).narrative@, k);
                    &&& updated_at(old(self).narrative@, final(self).narrative@, k)
                    &&& final(self).narrative@[k] matches Narrative::Problem(q)
                    &&& q == ProblemState { choice_block: q.choice_block, ..p }
                    &&& q.choice_block matches Some(b)
                    &&& b.multiple == p.choice_block->0.multiple
                    &&& b.inline == p.choice_block->0.inline
                    &&& b.styles == p.choice_block->0.styles
                    &&& b.choices@.drop_last() =~= p.choice_block->0.choices@
                    &&& b.choices@.len() == p.choice_block->0.choices@.len() + 1
                    &&& b.choices@.last().correct == correct
                    &&& b.choices@.last().verdict@.len() == 0
                    &&& b.choices@.last().feedback@.len() == 0
                    &&& final(self).errors@ == old(self).errors@
                } else {
                    &&& final(self).narrative@ == old(self).narrative@
                    &&& problem_error_pushed(old(self).errors@, final(self).errors@, seq!['2'])
                }
            }),
            final(self).content@ == old(self).content@,
            final(self).modules@ == old(self).modules@,
            final(self).in_term == old(self).in_term,
            final(self).styles == old(self).styles,
    {
        if let Some(k) = self.find_problem() {
            let frame = self.take_frame(k);
            if let Narrative::Problem(mut p) = frame {
                if let Some(mut b) = p.choice_block.take() {
                    b.choices.push(Choice { correct, verdict: String::new(), feedback: String::new() });
                    p.choice_block = Some(b);
                    self.put_frame(k, Narrative::Problem(p));
                    proof {
                        assert(self.narrative@ =~= old(self).narrative@.update(k as int, self.narrative@[k as int]));
                        let q = self.narrative@[k as int]->Problem_0;
                        assert(q == ProblemState { choice_block: q.choice_block, ..problem_at(old(self).narrative@, k as int) });
                    }
                    return;
                }
                self.put_frame(k, Narrative::Problem(p));
                proof {
                    assert(self.narrative@ =~= old(self).narrative@);
                }
            } else {
                self.put_frame(k, frame);
            }
        }
        proof {
            reveal_strlit("2");
        }
        let code = String::from_str("2");
        assert(code@ =~= seq!['2']);
        self.add_error(FTMLError::NotInProblem(code));
    }

    /// Records a case of the fill-in block of the innermost problem; an
    /// error if there is no problem or it has no open fill-in block.
    pub fn push_fillinsol_case(&mut self, case: FillInCase<F>)
        ensures
            ({
                let k = old(self).problem_index();
                if k >= 0 && problem_at(old(self).narrative@, k).fillinsol is Some {
                    let p = problem_at(old(self).narrative@, k);
                    &&& updated_at(old(self).narrative@, final(self).narrative@, k)
                    &&& final(self).narrative@[k] matches Narrative::Problem(q)
                    &&& q == ProblemState { fillinsol: q.fillinsol, ..p }
                    &&& q.fillinsol matches Some(f)
                    &&& f.cases@ =~= p.fillinsol->0.cases@.push(case)
                    &&& final(self).errors@ == old(self).errors@
                } else {
                    &&& final(self).narrative@ == old(self).narrative@
                    &&& problem_error_pushed(old(self).errors@, final(self).errors@, seq!['3'])
                }
            }),
            final(self).content@ == old(self).content@,
            final(self).modules@ == old(self).modules@,
            final(self).in_term == old(self).in_term,
            final(self).styles == old(self).styles,
    {
        if let Some(k) = self.find_problem() {
            let frame = self.take_frame(k);
            if let Narrative::Problem(mut p) = frame {
                if let Some(mut f) = p.fillinsol.take() {
                    f.cases.push(case);
                    p.fillinsol = Some(f);
                    self.put_frame(k, Narrative::Problem(p));
                    proof {
                        assert(self.narrative@ =~= old(self).narrative@.update(k as int, self.narrative@[k as int]));
                        let q = self.narrative@[k as int]->Problem_0;
                        assert(q == ProblemState { fillinsol: q.fillinsol, ..problem_at(old(self).narrative@, k as int) });
                    }
                    return;
                }
                self.put_frame(k, Narrative::Problem(p));
                proof {
                    assert(self.narrative@ =~= old(self).narrative@);
                }
            } else {
                self.put_frame(k, frame);
            }
        }
        proof {
            reveal_strlit("3");
        }
        let code = String::from_str("3");
        assert(code@ =~= seq!['3']);
        self.add_error(FTMLError::NotInProblem(code));
    }

    /// Opens a grading note in the innermost problem; an error if there is
    /// no problem or it already has one open.
    pub fn open_gnote(&mut self)
        ensures
            ({
                let k = old(self).problem_index();
                if k >= 0 && problem_at(old(self).narrative@, k).gnote is None {
                    let p = problem_at(old(self).narrative@, k);
                    &&& updated_at(old(self).narrative@, final(self).narrative@, k)
                    &&& final(self).narrative@[k] matches Narrative::Problem(q)
                    &&& q == ProblemState { gnote: q.gnote, ..p }
                    &&& q.gnote matches Some(g) && g.answer_classes@.len() == 0
                    &&& final(self).errors@ == old(self).errors@
                } else {
                    &&& final(self).narrative@ == old(self).narrative@
                    &&& problem_error_pushed(old(self).errors@, final(self).errors@, seq!['4'])
                }
            }),
            final(self).content@ == old(self).content@,
            final(self).modules@ == old(self).modules@,
            final(self).in_term == old(self).in_term,
            final(self).styles == old(self).styles,
    {
        if let Some(k) = self.find_problem() {
            let frame = self.take_frame(k);
            if let Narrative::Problem(mut p) = frame {
                if p.gnote.is_none() {
                    p.gnote = Some(GnoteState { answer_classes: Vec::new() });
                    self.put_frame(k, Narrative::Problem(p));
                    proof {
                        assert(self.narrative@ =~= old(self).narrative@.update(k as int, self.narrative@[k as int]));
                        let q = self.narrative@[k as int]->Problem_0;
                        assert(q == ProblemState { gnote: q.gnote, ..problem_at(old(self).narrative@, k as int) });
                    }
                    return;
                }
                self.put_frame(k, Narrative::Problem(p));
                proof {
                    assert(self.narrative@ =~= old(self).narrative@);
                }
            } else {
                self.put_frame(k, frame);
            }
        }
        proof {
            reveal_strlit("4");
        }
        let code = String::from_str("4");
        assert(code@ =~= seq!['4']);
        self.add_error(FTMLError::NotInProblem(code));
    }

    /// Opens a fill-in block in the innermost problem; an error if there is
    /// no problem or it already has one open.
    pub fn open_fillinsol(&mut self)
        ensures
            ({
                let k = old(self).problem_index();
                if k >= 0 && problem_at(old(self).narrative@, k).fillinsol is None {
                    let p = problem_at(old(self).narrative@, k);
                    &&& updated_at(old(self).narrative@, final(self).narrative@, k)
                    &&& final(self).narrative@[k] matches Narrative::Problem(q)
                    &&& q == ProblemState { fillinsol: q.fillinsol, ..p }
                    &&& q.fillinsol matches Some(f) && f.cases@.len() == 0
                    &&& final(self).errors@ == old(self).errors@
                } else {
                    &&& final(self).narrative@ == old(self).narrative@
                    &&& problem_error_pushed(old(self).errors@, final(self).errors@, seq!['5'])
                }
            }),
            final(self).content@ == old(self).content@,
            final(self).modules@ == old(self).modules@,
            final(self).in_term == old(self).in_term,
            final(self).styles == old(self).styles,
    {
        if let Some(k) = self.find_problem() {
            let frame = self.take_frame(k);
            if let Narrative::Problem(mut p) = frame {
                if p.fillinsol.is_none() {
                    p.fillinsol = Some(FillinsolState { cases: Vec::new() });
                    self.put_frame(k, Narrative::Problem(p));
                    proof {
                        assert(self.narrative@ =~= old(self).narrative@.update(k as int, self.narrative@[k as int]));
                        let q = self.narrative@[k as int]->Problem_0;
                        assert(q == ProblemState { fillinsol: q.fillinsol, ..problem_at(old(self).narrative@, k as int) });
                    }
                    return;
                }
                self.put_frame(k, Narrative::Problem(p));
                proof {
                    assert(self.narrative@ =~= old(self).narrative@);
                }
            } else {
                self.put_frame(k, frame);
            }
        }
        proof {
            reveal_strlit("5");
        }
        let code = String::from_str("5");
        assert(code@ =~= seq!['5']);
        self.add_error(FTMLError::NotInProblem(code));
    }

    /// Opens a choice block in the innermost problem; an error if there is
    /// no problem or it already has one open.  The block is inline iff one of
    /// `styles` is `inline`.
    pub fn open_choice_block(&mut self, multiple: bool, styles: Vec<String>)
        ensures
            ({
                let k = old(self).problem_index();
                if k >= 0 && problem_at(old(self).narrative@, k).choice_block is None {
                    let p = problem_at(old(self).narrative@, k);
                    &&& updated_at(old(self).narrative@, final(self).narrative@, k)
                    &&& final(self).narrative@[k] matches Narrative::Problem(q)
                    &&& q == ProblemState { choice_block: q.choice_block, ..p }
                    &&& q.choice_block matches Some(b)
                    &&& b.multiple == multiple
                    &&& b.styles == styles
                    &&& b.inline == has_inline_style(styles@)
                    &&& b.choices@.len() == 0
                    &&& final(self).errors@ == old(self).errors@
                } else {
                    &&& final(self).narrative@ == old(self).narrative@
                    &&& problem_error_pushed(old(self).errors@, final(self).errors@, seq!['6'])
                }
            }),
            final(self).content@ == old(self).content@,
            final(self).modules@ == old(self).modules@,
            final(self).in_term == old(self).in_term,
            final(self).styles == old(self).styles,
    {
        if let Some(k) = self.find_problem() {
            let frame = self.take_frame(k);
            if let Narrative::Problem(mut p) = frame {
                if p.choice_block.is_none() {
                    let inline = contains_inline(&styles);
                    p.choice_block = Some(ChoiceBlockState { multiple, inline, styles, choices: Vec::new() });
                    self.put_frame(k, Narrative::Problem(p));
                    proof {
                        assert(self.narrative@ =~= old(self).narrative@.update(k as int, self.narrative@[k as int]));
                        let q = self.narrative@[k as int]->Problem_0;
                        assert(q == ProblemState { choice_block: q.choice_block, ..problem_at(old(self).narrative@, k as int) });
                    }
                    return;
                }
                self.put_frame(k, Narrative::Problem(p));
                proof {
                    assert(self.narrative@ =~= old(self).narrative@);
                }
            } else {
                self.put_frame(k, frame);
            }
        }
        proof {
            reveal_strlit("6");
        }
        let code = String::from_str("6");
        assert(code@ =~= seq!['6']);
        self.add_error(FTMLError::NotInProblem(code));
    }

    /// Takes the grading note out of the innermost problem.
    pub fn close_gnote(&mut self) -> (r: Option<GnoteState<A>>)
        ensures
            ({
                let k = old(self).problem_index();
                if k >= 0 {
                    let p = problem_at(old(self).narrative@, k);
                    &&& r == p.gnote
                    &&& updated_at(old(self).narrative@, final(self).narrative@, k)
                    &&& final(self).narrative@[k] == Narrative::Problem(ProblemState { gnote: None, ..p })
                } else {
                    r is None && final(self).narrative@ == old(self).narrative@
                }
            }),
            final(self).same_but_narrative(old(self)),
    {
        if let Some(k) = self.find_problem() {
            let frame = self.take_frame(k);
            if let Narrative::Problem(mut p) = frame {
                let g = p.gnote.take();
                self.put_frame(k, Narrative::Problem(p));
                proof {
                    assert(self.narrative@ =~= old(self).narrative@.update(k as int, self.narrative@[k as int]));
                }
                return g;
            } else {
                self.put_frame(k, frame);
            }
        }
        None
    }

    /// Takes the fill-in block out of the innermost problem.
    pub fn close_fillinsol(&mut self) -> (r: Option<FillinsolState<F>>)
        ensures
            ({
                let k = old(self).problem_index();
                if k >= 0 {
                    let p = problem_at(old(self).narrative@, k);
                    &&& r == p.fillinsol
                    &&& updated_at(old(self).narrative@, final(self).narrative@, k)
                    &&& final(self).narrative@[k] == Narrative::Problem(ProblemState { fillinsol: None, ..p })
                } else {
                    r is None && final(self).narrative@ == old(self).narrative@
                }
            }),
            final(self).same_but_narrative(old(self)),
    {
        if let Some(k) = self.find_problem() {
            let frame = self.take_frame(k);
            if let Narrative::Problem(mut p) = frame {
                let f = p.fillinsol.take();
                self.put_frame(k, Narrative::Problem(p));
                proof {
                    assert(self.narrative@ =~= old(self).narrative@.update(k as int, self.narrative@[k as int]));
                }
                return f;
            } else {
                self.put_frame(k, frame);
            }
        }
        None
    }

    /// Takes the choice block out of the innermost problem.
    pub fn close_choice_block(&mut self) -> (r: Option<ChoiceBlockState>)
        ensures
            ({
                let k = old(self).problem_index();
                if k >= 0 {
                    let p = problem_at(old(self).narrative@, k);
                    &&& r == p.choice_block
                    &&& updated_at(old(self).narrative@, final(self).narrative@, k)
                    &&& final(self).narrative@[k] == Narrative::Problem(ProblemState { choice_block: None, ..p })
                } else {
                    r is None && final(self).narrative@ == old(self).narrative@
                }
            }),
            final(self).same_but_narrative(old(self)),
    {
        if let Some(k) = self.find_problem() {
            let frame = self.take_frame(k);
            if let Narrative::Problem(mut p) = frame {
                let b = p.choice_block.take();
                self.put_frame(k, Narrative::Problem(p));
                proof {
                    assert(self.narrative@ =~= old(self).narrative@.update(k as int, self.narrative@[k as int]));
                }
                return b;
            } else {
                self.put_frame(k, frame);
            }
        }
        None
    }

    /// Records a learning precondition (`objective == false`) or objective
    /// (`objective == true`) of the innermost problem; an error if there is
    /// none.
    pub fn add_precondition_or_objective(&mut self, uri: String, dim: CognitiveDimension, objective: bool)
        ensures
            ({
                let k = old(self).problem_index();
                if k >= 0 {
                    let p = problem_at(old(self).narrative@, k);
                    &&& updated_at(old(self).narrative@, final(self).narrative@, k)
                    &&& final(self).narrative@[k] matches Narrative::Problem(q)
                    &&& if objective {
                        &&& q == ProblemState { objectives: q.objectives, ..p }
                        &&& q.objectives@ =~= p.objectives@.push((dim, uri))
                    } else {
                        &&& q == ProblemState { preconditions: q.preconditions, ..p }
                        &&& q.preconditions@ =~= p.preconditions@.push((dim, uri))
                    }
                    &&& final(self).errors@ == old(self).errors@
                } else {
                    &&& final(self).narrative@ == old(self).narrative@
                    &&& error_pushed(old(self).errors@, final(self).errors@, |e: FTMLError| e is NotInNarrative)
                }
            }),
            final(self).content@ == old(self).content@,
            final(self).modules@ == old(self).modules@,
            final(self).in_term == old(self).in_term,
            final(self).styles == old(self).styles,
    {
        if let Some(k) = self.find_problem() {
            let frame = self.take_frame(k);
            if let Narrative::Problem(mut p) = frame {
                if objective {
                    p.objectives.push((dim, uri));
                } else {
                    p.preconditions.push((dim, uri));
                }
                self.put_frame(k, Narrative::Problem(p));
                proof {
                    assert(self.narrative@ =~= old(self).narrative@.update(k as int, self.narrative@[k as int]));
                    let q = self.narrative@[k as int]->Problem_0;
                    if objective {
                        assert(q == ProblemState { objectives: q.objectives, ..problem_at(old(self).narrative@, k as int) });
                    } else {
                        assert(q == ProblemState { preconditions: q.preconditions, ..problem_at(old(self).narrative@, k as int) });
                    }
                }
                return;
            } else {
                self.put_frame(k, frame);
            }
        }
        self.add_error(FTMLError::NotInNarrative);
    }

    /// Records a learning precondition of the innermost problem.
    pub fn add_precondition(&mut self, uri: String, dim: CognitiveDimension)
        ensures
            ({
                let k = old(self).problem_index();
                if k >= 0 {
                    let p = problem_at(old(self).narrative@, k);
                    &&& updated_at(old(self).narrative@, final(self).narrative@, k)
                    &&& final(self).narrative@[k] matches Narrative::Problem(q)
                    &&& q == ProblemState { preconditions: q.preconditions, ..p }
                    &&& q.preconditions@ =~= p.preconditions@.push((dim, uri))
                    &&& final(self).errors@ == old(self).errors@
                } else {
                    &&& final(self).narrative@ == old(self).narrative@
                    &&& error_pushed(old(self).errors@, final(self).errors@, |e: FTMLError| e is NotInNarrative)
                }
            }),
            final(self).content@ == old(self).content@,
            final(self).modules@ == old(self).modules@,
            final(self).in_term == old(self).in_term,
            final(self).styles == old(self).styles,
    {
        self.add_precondition_or_objective(uri, dim, false)
    }

    /// Records a learning objective of the innermost problem.
    pub fn add_objective(&mut self, uri: String, dim: CognitiveDimension)
        ensures
            ({
                let k = old(self).problem_index();
                if k >= 0 {
                    let p = problem_at(old(self).narrative@, k);
                    &&& updated_at(old(self).narrative@, final(self).narrative@, k)
                    &&& final(self).narrative@[k] matches Narrative::Problem(q)
                    &&& q == ProblemState { objectives: q.objectives, ..p }
                    &&& q.objectives@ =~= p.objectives@.push((dim, uri))
                    &&& final(self).errors@ == old(self).errors@
                } else {
                    &&& final(self).narrative@ == old(self).narrative@
                    &&& error_pushed(old(self).errors@, final(self).errors@, |e: FTMLError| e is NotInNarrative)
                }
            }),
            final(self).content@ == old(self).content@,
            final(self).modules@ == old(self).modules@,
            final(self).in_term == old(self).in_term,
            final(self).styles == old(self).styles,
    {
        self.add_precondition_or_objective(uri, dim, true)
    }

    /// Records a hint range in the innermost problem; whether there was one.
    pub fn push_hint(&mut self, range: DocumentRange) -> (r: bool)
        ensures
            r == (old(self).problem_index() >= 0),
            r ==> ({
                let k = old(self).problem_index();
                let p = problem_at(old(self).narrative@, k);
                &&& updated_at(old(self).narrative@, final(self).narrative@, k)
                &&& final(self).narrative@[k] matches Narrative::Problem(q)
                &&& q == ProblemState { hints: q.hints, ..p }
                &&& q.hints@ =~= p.hints@.push(range)
            }),
            !r ==> final(self).narrative@ == old(self).narrative@,
            final(self).same_but_narrative(old(self)),
    {
        if let Some(k) = self.find_problem() {
            let frame = self.take_frame(k);
            if let Narrative::Problem(mut p) = frame {
                p.hints.push(range);
                self.put_frame(k, Narrative::Problem(p));
                proof {
                    assert(self.narrative@ =~= old(self).narrative@.update(k as int, self.narrative@[k as int]));
                    let q = self.narrative@[k as int]->Problem_0;
                    assert(q == ProblemState { hints: q.hints, ..problem_at(old(self).narrative@, k as int) });
                }
                return true;
            } else {
                self.put_frame(k, frame);
            }
        }
        false
    }

    /// Records a solution in the innermost problem; whether there was one.
    pub fn push_solution(&mut self, sol: SolutionData<F>) -> (r: bool)
        ensures
            r == (old(self).problem_index() >= 0),
            r ==> ({
                let k = old(self).problem_index();
                let p = problem_at(old(self).narrative@, k);
                &&& updated_at(old(self).narrative@, final(self).narrative@, k)
                &&& final(self).narrative@[k] matches Narrative::Problem(q)
                &&& q == ProblemState { solutions: q.solutions, ..p }
                &&& q.solutions@ =~= p.solutions@.push(sol)
            }),
            !r ==> final(self).narrative@ == old(self).narrative@,
            final(self).same_but_narrative(old(self)),
    {
        if let Some(k) = self.find_problem() {
            let frame = self.take_frame(k);
            if let Narrative::Problem(mut p) = frame {
                p.solutions.push(sol);
                self.put_frame(k, Narrative::Problem(p));
                proof {
                    assert(self.narrative@ =~= old(self).narrative@.update(k as int, self.narrative@[k as int]));
                    let q = self.narrative@[k as int]->Problem_0;
                    assert(q == ProblemState { solutions: q.solutions, ..problem_at(old(self).narrative@, k as int) });
                }
                return true;
            } else {
                self.put_frame(k, frame);
            }
        }
        false
    }


    /// Finds the innermost narrative frame of kind `kind`.
    fn find_frame(&self, kind: FrameKind) -> (r: Option<usize>)
        ensures
            r matches Some(k) ==> k == rfind(self.narrative@, |n: Narrative<T, A, F>| kind_matches(kind, n))
                && k < self.narrative@.len() && kind_matches(kind, self.narrative@[k as int]),
            r is None ==> rfind(self.narrative@, |n: Narrative<T, A, F>| kind_matches(kind, n)) == -1,
    {
        let mut i = self.narrative.len();
        while i > 0
            invariant
                i <= self.narrative@.len(),
                forall|j: int| i <= j < self.narrative@.len() ==> !kind_matches(kind, #[trigger] self.narrative@[j]),
            decreases i,
        {
            i = i - 1;
            let m = match (kind, &self.narrative[i]) {
                (FrameKind::TakesChildren, Narrative::Notation(_)) => false,
                (FrameKind::TakesChildren, _) => true,
                (FrameKind::Titled, Narrative::Paragraph(_)) => true,
                (FrameKind::Titled, Narrative::Problem(_)) => true,
                (FrameKind::Titled, Narrative::Section { .. }) => true,
                (FrameKind::Titled, _) => false,
                (FrameKind::HasUri, Narrative::Paragraph(_)) => true,
                (FrameKind::HasUri, Narrative::Problem(_)) => true,
                (FrameKind::HasUri, Narrative::Section { .. }) => true,
                (FrameKind::HasUri, Narrative::Container(..)) => true,
                (FrameKind::HasUri, _) => false,
                (FrameKind::Container, Narrative::Container(..)) => true,
                (FrameKind::Container, _) => false,
                (FrameKind::Paragraph, Narrative::Paragraph(_)) => true,
                (FrameKind::Paragraph, _) => false,
                (FrameKind::Notation, Narrative::Notation(_)) => true,
                (FrameKind::Notation, _) => false,
            };
            if m {
                proof {
                    lemma_rfind(self.narrative@, |n: Narrative<T, A, F>| kind_matches(kind, n), i as int);
                }
                return Some(i);
            }
        }
        proof {
            lemma_rfind(self.narrative@, |n: Narrative<T, A, F>| kind_matches(kind, n), -1);
        }
        None
    }

    /// Adds a narrative element to the innermost frame that takes children.
    pub fn add_document_element(&mut self, elem: DocumentElement<T, A, F>)
        requires
            old(self).wf(),
        ensures
            final(self).wf(),
            ({
                let k = old(self).child_target_index();
                &&& 0 <= k < old(self).narrative@.len()
                &&& updated_at(old(self).narrative@, final(self).narrative@, k)
                &&& same_but_children(final(self).narrative@[k], old(self).narrative@[k])
                &&& children_view(final(self).narrative@[k]) =~= children_view(old(self).narrative@[k]).push(elem)
            }),
            child_added(old(self).narrative@, final(self).narrative@, elem),
            final(self).same_but_narrative(old(self)),
    {
        proof {
            assert(kind_matches(FrameKind::TakesChildren, self.narrative@[0]));
            assert(self.child_target_index() == rfind(self.narrative@, |n: Narrative<T, A, F>| kind_matches(FrameKind::TakesChildren, n))) by {
                assert((|n: Narrative<T, A, F>| takes_children(n)) =~= (|n: Narrative<T, A, F>| kind_matches(FrameKind::TakesChildren, n)));
            }
            lemma_rfind_ge(self.narrative@, |n: Narrative<T, A, F>| kind_matches(FrameKind::TakesChildren, n), 0);
        }
        let k = self.find_frame(FrameKind::TakesChildren).unwrap();
        let frame = self.take_frame(k);
        let frame = match frame {
            Narrative::Container(u, mut c) => {
                c.push(elem);
                Narrative::Container(u, c)
            },
            Narrative::Paragraph(mut p) => {
                p.children.push(elem);
                Narrative::Paragraph(p)
            },
            Narrative::Problem(mut p) => {
                p.children.push(elem);
                Narrative::Problem(p)
            },
            Narrative::Section { uri, title, mut children } => {
                children.push(elem);
                Narrative::Section { uri, title, children }
            },
            Narrative::Slide { mut children } => {
                children.push(elem);
                Narrative::Slide { children }
            },
            Narrative::Notation(n) => Narrative::Notation(n),
        };
        self.put_frame(k, frame);
        proof {
            assert(self.narrative@ =~= old(self).narrative@.update(k as int, self.narrative@[k as int]));
        }
    }

    /// Sets the title of the innermost paragraph, problem or section; gives
    /// the range back if there is none.
    pub fn add_title(&mut self, ttl: DocumentRange) -> (r: Result<(), DocumentRange>)
        ensures
            ({
                let k = old(self).title_target_index();
                if k >= 0 {
                    &&& r is Ok
                    &&& updated_at(old(self).narrative@, final(self).narrative@, k)
                    &&& final(self).narrative@[k] == with_title(old(self).narrative@[k], ttl)
                } else {
                    r == Err::<(), DocumentRange>(ttl) && final(self).narrative@ == old(self).narrative@
                }
            }),
            final(self).same_but_narrative(old(self)),
    {
        proof {
            assert((|n: Narrative<T, A, F>| n is Paragraph || n is Problem || n is Section) =~= (|n: Narrative<T, A, F>| kind_matches(FrameKind::Titled, n)));
        }
        if let Some(k) = self.find_frame(FrameKind::Titled) {
            let frame = self.take_frame(k);
            let frame = match frame {
                Narrative::Paragraph(mut p) => {
                    p.title = Some(ttl);
                    Narrative::Paragraph(p)
                },
                Narrative::Problem(mut p) => {
                    p.title = Some(ttl);
                    Narrative::Problem(p)
                },
                Narrative::Section { uri, children, .. } => Narrative::Section { uri, title: Some(ttl), children },
                other => other,
            };
            self.put_frame(k, frame);
            proof {
                assert(self.narrative@ =~= old(self).narrative@.update(k as int, self.narrative@[k as int]));
            }
            Ok(())
        } else {
            Err(ttl)
        }
    }

    /// Whether some notation is open.
    pub fn in_notation(&self) -> (r: bool)
        ensures
            r == exists|i: int| 0 <= i < self.narrative@.len() && #[trigger] self.narrative@[i] is Notation,
    {
        let r = self.find_frame(FrameKind::Notation);
        proof {
            let p = |n: Narrative<T, A, F>| kind_matches(FrameKind::Notation, n);
            if r is None {
                assert forall|i: int| 0 <= i < self.narrative@.len() implies !(#[trigger] self.narrative@[i] is Notation) by {
                    lemma_rfind_ge(self.narrative@, p, i);
                }
            }
        }
        r.is_some()
    }

    /// The URI of the innermost frame that has one; element frames give
    /// element URIs.
    pub fn get_narrative_uri(&self) -> (r: NarrativeUri)
        requires
            self.wf(),
        ensures
            ({
                let k = self.uri_frame_index();
                &&& 0 <= k < self.narrative@.len()
                &&& match self.narrative@[k] {
                    Narrative::Container(u, _) => r == u,
                    _ => r == NarrativeUri::Element(r->Element_0) && r->Element_0@ == frame_uri(self.narrative@[k]),
                }
            }),
    {
        proof {
            assert((|n: Narrative<T, A, F>| has_narrative_uri(n)) =~= (|n: Narrative<T, A, F>| kind_matches(FrameKind::HasUri, n)));
            assert(kind_matches(FrameKind::HasUri, self.narrative@[0]));
            lemma_rfind_ge(self.narrative@, |n: Narrative<T, A, F>| kind_matches(FrameKind::HasUri, n), 0);
        }
        let k = self.find_frame(FrameKind::HasUri).unwrap();
        match &self.narrative[k] {
            Narrative::Container(u, _) => clone_narrative_uri(u),
            Narrative::Paragraph(p) => NarrativeUri::Element(p.uri.clone()),
            Narrative::Problem(p) => NarrativeUri::Element(p.uri.clone()),
            Narrative::Section { uri, .. } => NarrativeUri::Element(uri.clone()),
            _ => {
                proof {
                    assert(false);
                }
                NarrativeUri::Document(String::new())
            },
        }
    }

    /// Opens a narrative container for `uri`, or for the URI of the innermost
    /// container when `uri` is `None`.
    pub fn open_narrative(&mut self, uri: Option<NarrativeUri>)
        requires
            old(self).wf(),
        ensures
            final(self).wf(),
            pushed(old(self).narrative@, final(self).narrative@),
            final(self).narrative@.last() matches Narrative::Container(u, c) && c@.len() == 0 && match uri {
                Some(v) => u == v,
                None => old(self).narrative@[old(self).container_index()] matches Narrative::Container(w, _) && u == w,
            },
            0 <= old(self).container_index(),
            final(self).same_but_narrative(old(self)),
    {
        proof {
            assert((|n: Narrative<T, A, F>| n is Container) =~= (|n: Narrative<T, A, F>| kind_matches(FrameKind::Container, n)));
            assert(kind_matches(FrameKind::Container, self.narrative@[0]));
            lemma_rfind_ge(self.narrative@, |n: Narrative<T, A, F>| kind_matches(FrameKind::Container, n), 0);
        }
        let u = match uri {
            Some(u) => u,
            None => {
                let k = self.find_frame(FrameKind::Container).unwrap();
                match &self.narrative[k] {
                    Narrative::Container(u, _) => clone_narrative_uri(u),
                    _ => {
                        proof {
                            assert(false);
                        }
                        NarrativeUri::Document(String::new())
                    },
                }
            },
        };
        self.narrative.push(Narrative::Container(u, Vec::new()));
    }

    /// Closes the innermost narrative container, if it is on top and not the
    /// document itself.
    pub fn close_narrative(&mut self) -> (r: Option<(NarrativeUri, Vec<DocumentElement<T, A, F>>)>)
        requires
            old(self).wf(),
        ensures
            final(self).wf(),
            ({
                let old_n = old(self).narrative@;
                if old_n.len() > 1 && old_n.last() is Container {
                    &&& final(self).narrative@ =~= old_n.drop_last()
                    &&& old_n.last() matches Narrative::Container(u, c) && r == Some((u, c))
                } else {
                    r is None && final(self).narrative@ == old_n
                }
            }),
            final(self).same_but_narrative(old(self)),
    {
        let r = self.narrative.pop().unwrap();
        if self.narrative.len() == 0 {
            self.narrative.push(r);
            proof {
                assert(self.narrative@ =~= old(self).narrative@);
            }
            return None;
        }
        if let Narrative::Container(uri, elements) = r {
            Some((uri, elements))
        } else {
            self.narrative.push(r);
            proof {
                assert(self.narrative@ =~= old(self).narrative@);
            }
            None
        }
    }

    /// The URI of the document being extracted.
    pub fn document_uri(&self) -> (r: String)
        requires
            self.wf(),
        ensures
            self.narrative@[0] matches Narrative::Container(NarrativeUri::Document(d), _) && r@ == d@,
    {
        match &self.narrative[0] {
            Narrative::Container(NarrativeUri::Document(d), _) => d.clone(),
            _ => {
                proof {
                    assert(false);
                }
                String::new()
            },
        }
    }

}


/// Index of the first element of `s` that satisfies `p`, or -1.
pub open spec fn lfind<X>(s: Seq<X>, p: spec_fn(X) -> bool) -> int
    decreases s.len(),
{
    if s.len() == 0 {
        -1
    } else if p(s[0]) {
        0
    } else {
        let k = lfind(s.drop_first(), p);
        if k < 0 {
            -1
        } else {
            k + 1
        }
    }
}

/// When `lfind` finds nothing, nothing satisfies `p`.
pub proof fn lemma_lfind_none_at<X>(s: Seq<X>, p: spec_fn(X) -> bool, j: int)
    requires
        lfind(s, p) == -1,
        0 <= j < s.len(),
    ensures
        !p(s[j]),
    decreases s.len(),
{
    if !p(s[0]) && j > 0 {
        if lfind(s.drop_first(), p) >= 0 {
            assert(false);
        }
        assert(s.drop_first()[j - 1] == s[j]);
        lemma_lfind_none_at(s.drop_first(), p, j - 1);
    }
}

/// `lfind` is the first index satisfying `p`.
pub proof fn lemma_lfind<X>(s: Seq<X>, p: spec_fn(X) -> bool, k: int)
    requires
        -1 <= k < s.len(),
        k >= 0 ==> p(s[k]),
        forall|j: int| 0 <= j < s.len() && (k < 0 || j < k) ==> !p(#[trigger] s[j]),
    ensures
        lfind(s, p) == k,
    decreases s.len(),
{
    if s.len() > 0 && k != 0 {
        assert(!p(s[0]));
        assert forall|j: int| 0 <= j < s.drop_first().len() && (k - 1 < 0 || j < k - 1) implies !p(
            #[trigger] s.drop_first()[j],
        ) by {
            assert(s.drop_first()[j] == s[j + 1]);
        }
        if k > 0 {
            assert(s.drop_first()[k - 1] == s[k]);
            lemma_lfind(s.drop_first(), p, k - 1);
        } else {
            lemma_lfind(s.drop_first(), p, -1);
        }
    }
}

/// `lfind` gives -1 or an index of `s`.
pub proof fn lemma_lfind_bounds<X>(s: Seq<X>, p: spec_fn(X) -> bool)
    ensures
        -1 <= lfind(s, p) < s.len(),
    decreases s.len(),
{
    if s.len() > 0 && !p(s[0]) {
        lemma_lfind_bounds(s.drop_first(), p);
    }
}

/// Two sequences on which `p` holds at the same places have the same
/// first hit.
pub proof fn lemma_lfind_same_hits<X>(s1: Seq<X>, s2: Seq<X>, p: spec_fn(X) -> bool)
    requires
        s1.len() == s2.len(),
        forall|i: int| 0 <= i < s1.len() ==> p(#[trigger] s1[i]) == p(s2[i]),
    ensures
        lfind(s1, p) == lfind(s2, p),
    decreases s1.len(),
{
    if s1.len() > 0 && !p(s1[0]) {
        assert forall|i: int| 0 <= i < s1.drop_first().len() implies p(#[trigger] s1.drop_first()[i]) == p(
            s2.drop_first()[i],
        ) by {
            assert(s1.drop_first()[i] == s1[i + 1]);
            assert(s2.drop_first()[i] == s2[i + 1]);
        }
        lemma_lfind_same_hits(s1.drop_first(), s2.drop_first(), p);
    }
}

/// The predicate "is the entry for `key`" on the `for`s of a paragraph.
pub open spec fn key_is<T>(key: Seq<char>) -> spec_fn((String, Option<T>)) -> bool {
    |e: (String, Option<T>)| e.0@ == key
}

/// `fors` with `key` bound to `value`: the first entry for `key` gets the
/// value, or a new entry is appended.
pub open spec fn fors_insert<T>(fors: Seq<(String, Option<T>)>, key: String, value: Option<T>) -> Seq<(String, Option<T>)> {
    let i = lfind(fors, key_is::<T>(key@));
    if i >= 0 {
        fors.update(i, (fors[i].0, value))
    } else {
        fors.push((key, value))
    }
}

/// `fors` with an entry for `key` added unless it has one.
pub open spec fn fors_ensure<T>(fors: Seq<(String, Option<T>)>, key: String) -> Seq<(String, Option<T>)> {
    if lfind(fors, key_is::<T>(key@)) >= 0 {
        fors
    } else {
        fors.push((key, None))
    }
}

/// Finds the entry for `key` among `fors`.
fn find_key<T>(fors: &Vec<(String, Option<T>)>, key: &String) -> (r: Option<usize>)
    ensures
        match r {
            Some(i) => i == lfind(fors@, key_is::<T>(key@)) && i < fors@.len(),
            None => lfind(fors@, key_is::<T>(key@)) == -1,
        },
{
    let ghost p = key_is::<T>(key@);
    let mut i: usize = 0;
    while i < fors.len()
        invariant
            p == key_is::<T>(key@),
            i <= fors@.len(),
            forall|j: int| 0 <= j < i ==> !p(#[trigger] fors@[j]),
        decreases fors@.len() - i,
    {
        if fors[i].0 == *key {
            proof {
                assert(p(fors@[i as int]));
                lemma_lfind(fors@, p, i as int);
            }
            return Some(i);
        }
        i = i + 1;
    }
    proof {
        lemma_lfind(fors@, p, -1);
    }
    None
}

/// Binds `key` to `value` in `fors`.
fn insert_for<T>(fors: &mut Vec<(String, Option<T>)>, key: String, value: Option<T>)
    ensures
        final(fors)@ == fors_insert(old(fors)@, key, value),
{
    match find_key(fors, &key) {
        Some(i) => {
            let (k0, _) = fors.remove(i);
            fors.insert(i, (k0, value));
            proof {
                assert(fors@ =~= old(fors)@.update(i as int, (old(fors)@[i as int].0, value)));
            }
        },
        None => {
            fors.push((key, value));
        },
    }
}

/// The content frame `c` with its term slot filled with `tm`.
pub open spec fn with_term<T>(c: Content<T>, tm: T) -> Content<T> {
    match c {
        Content::Symdecl { tp, .. } => Content::Symdecl { tp, df: Some(tm) },
        Content::Args(v, _) => Content::Args(v, Some(tm)),
        Content::SingleTerm(_) => Content::SingleTerm(Some(tm)),
        other => other,
    }
}

/// Whether a content frame has a slot for a term.
pub open spec fn has_term_slot<T>(c: Content<T>) -> bool {
    c is Symdecl || c is Args || c is SingleTerm
}

/// The predicate "is a paragraph with exactly one `for`".
pub open spec fn single_for_paragraph<T, A, F>() -> spec_fn(Narrative<T, A, F>) -> bool {
    |n: Narrative<T, A, F>| n is Paragraph && n->Paragraph_0.fors@.len() == 1
}

/// Whether the narrative element `e` declares a variable whose name ends
/// with `names`.
pub open spec fn declares_var<T, A, F>(e: DocumentElement<T, A, F>, names: Seq<Seq<char>>) -> bool {
    &&& e is Variable
    &&& e->Variable_name_steps@.len() >= names.len()
    &&& forall|i: int|
        0 <= i < names.len() ==> (#[trigger] e->Variable_name_steps@[e->Variable_name_steps@.len() - names.len() + i])@ == names[i]
}

/// The predicate form of `declares_var`.
pub open spec fn var_named<T, A, F>(names: Seq<Seq<char>>) -> spec_fn(DocumentElement<T, A, F>) -> bool {
    |e: DocumentElement<T, A, F>| declares_var(e, names)
}

/// The innermost variable declaration visible in `frames` whose name ends
/// with `names`: searched from the top frame down, each frame's children
/// from the last.
pub open spec fn visible_var<T, A, F>(frames: Seq<Narrative<T, A, F>>, names: Seq<Seq<char>>) -> Option<DocumentElement<T, A, F>>
    decreases frames.len(),
{
    if frames.len() == 0 {
        None
    } else {
        let ch = children_view(frames.last());
        let k = rfind(ch, var_named::<T, A, F>(names));
        if 0 <= k < ch.len() {
            Some(ch[k])
        } else {
            visible_var(frames.drop_last(), names)
        }
    }
}

/// The views of a list of names.
pub open spec fn views(v: Seq<String>) -> Seq<Seq<char>> {
    v.map_values(|s: String| s@)
}

impl<T, A, F> ExtractorState<T, A, F> {
    /// Adds a declaration to the innermost content container; gives it back
    /// if there is none.
    pub fn add_content_element(&mut self, elem: OpenDeclaration<T>) -> (r: Result<(), OpenDeclaration<T>>)
        ensures
            ({
                let k = old(self).content_container_index();
                if k >= 0 {
                    &&& r is Ok
                    &&& updated_at(old(self).content@, final(self).content@, k)
                    &&& old(self).content@[k] matches Content::Container(u0, e0)
                    &&& final(self).content@[k] matches Content::Container(u, e)
                    &&& u == u0
                    &&& e@ == e0@.push(elem)
                } else {
                    r == Err::<(), OpenDeclaration<T>>(elem) && final(self).content@ == old(self).content@
                }
            }),
            final(self).narrative@ == old(self).narrative@,
            final(self).modules@ == old(self).modules@,
            final(self).errors@ == old(self).errors@,
            final(self).in_term == old(self).in_term,
            final(self).styles == old(self).styles,
    {
        let mut i = self.content.len();
        while i > 0
            invariant
                self.content@ == old(self).content@,
                self.narrative@ == old(self).narrative@,
                self.modules@ == old(self).modules@,
                self.errors@ == old(self).errors@,
                self.in_term == old(self).in_term,
                self.styles == old(self).styles,
                i <= self.content@.len(),
                forall|j: int| i <= j < self.content@.len() ==> !(#[trigger] self.content@[j] is Container),
            decreases i,
        {
            i = i - 1;
            if let Content::Container(..) = &self.content[i] {
                proof {
                    lemma_rfind(self.content@, |c: Content<T>| c is Container, i as int);
                }
                let frame = self.content.remove(i);
                if let Content::Container(u, mut e) = frame {
                    e.push(elem);
                    self.content.insert(i, Content::Container(u, e));
                    proof {
                        assert(self.content@ =~= old(self).content@.update(i as int, self.content@[i as int]));
                    }
                    return Ok(());
                } else {
                    proof {
                        assert(false);
                    }
                    self.content.insert(i, frame);
                    return Err(elem);
                }
            }
        }
        proof {
            lemma_rfind(self.content@, |c: Content<T>| c is Container, -1);
        }
        Err(elem)
    }

    /// The module URI of the innermost content container.
    pub fn get_content_uri(&self) -> (r: Option<&String>)
        ensures
            ({
                let k = self.content_container_index();
                if k >= 0 {
                    self.content@[k] matches Content::Container(u, _) && r == Some(&u)
                } else {
                    r is None
                }
            }),
    {
        let mut i = self.content.len();
        while i > 0
            invariant
                i <= self.content@.len(),
                forall|j: int| i <= j < self.content@.len() ==> !(#[trigger] self.content@[j] is Container),
            decreases i,
        {
            i = i - 1;
            if let Content::Container(u, _) = &self.content[i] {
                proof {
                    lemma_rfind(self.content@, |c: Content<T>| c is Container, i as int);
                }
                return Some(u);
            }
        }
        proof {
            lemma_rfind(self.content@, |c: Content<T>| c is Container, -1);
        }
        None
    }

    /// Sets the type of the declaration on top of the content stack; gives
    /// the term back if the top is no declaration.
    pub fn add_type(&mut self, tm: T) -> (r: Result<(), T>)
        ensures
            ({
                let c = old(self).content@;
                if c.len() > 0 && c.last() is Symdecl {
                    &&& r is Ok
                    &&& final(self).content@ == c.drop_last().push(Content::Symdecl { tp: Some(tm), df: c.last()->df })
                } else {
                    r == Err::<(), T>(tm) && final(self).content@ == c
                }
            }),
            final(self).narrative@ == old(self).narrative@,
            final(self).modules@ == old(self).modules@,
            final(self).errors@ == old(self).errors@,
            final(self).in_term == old(self).in_term,
            final(self).styles == old(self).styles,
    {
        match self.content.pop() {
            Some(Content::Symdecl { df, .. }) => {
                self.content.push(Content::Symdecl { tp: Some(tm), df });
                Ok(())
            },
            Some(other) => {
                self.content.push(other);
                proof {
                    assert(self.content@ =~= old(self).content@);
                }
                Err(tm)
            },
            None => Err(tm),
        }
    }

    /// Sets a term: without a symbol, the definiens of the declaration, the
    /// head of the argument list or the complex term on top of the content
    /// stack; else (or when the top has no slot) the definiens of `symbol`
    /// in the innermost paragraph, or without a symbol the only `for` of the
    /// innermost paragraph that has exactly one.  Gives the term back when
    /// there is no place for it.
    pub fn add_term(&mut self, symbol: Option<String>, tm: T) -> (r: Result<(), T>)
        requires
            old(self).wf(),
        ensures
            final(self).wf(),
            term_added(*old(self), *final(self), symbol, tm, r is Ok),
            r matches Err(t) ==> t == tm,
            final(self).modules@ == old(self).modules@,
            final(self).errors@ == old(self).errors@,
            final(self).in_term == old(self).in_term,
            final(self).styles == old(self).styles,
    {
        if symbol.is_none() {
            match self.content.pop() {
                Some(Content::Symdecl { tp, .. }) => {
                    self.content.push(Content::Symdecl { tp, df: Some(tm) });
                    return Ok(());
                },
                Some(Content::Args(v, _)) => {
                    self.content.push(Content::Args(v, Some(tm)));
                    return Ok(());
                },
                Some(Content::SingleTerm(_)) => {
                    self.content.push(Content::SingleTerm(Some(tm)));
                    return Ok(());
                },
                Some(other) => {
                    self.content.push(other);
                    proof {
                        assert(self.content@ =~= old(self).content@);
                    }
                },
                None => {},
            }
        }
        let ghost p = match symbol {
            Some(_) => |n: Narrative<T, A, F>| n is Paragraph,
            None => single_for_paragraph::<T, A, F>(),
        };
        let mut i = self.narrative.len();
        while i > 0
            invariant
                old(self).wf(),
                !(symbol is None && old(self).content@.len() > 0 && has_term_slot(old(self).content@.last())),
                self.narrative@ == old(self).narrative@,
                self.content@ == old(self).content@,
                self.modules@ == old(self).modules@,
                self.errors@ == old(self).errors@,
                self.in_term == old(self).in_term,
                self.styles == old(self).styles,
                p == match symbol {
                    Some(_) => |n: Narrative<T, A, F>| n is Paragraph,
                    None => single_for_paragraph::<T, A, F>(),
                },
                i <= self.narrative@.len(),
                forall|j: int| i <= j < self.narrative@.len() ==> !p(#[trigger] self.narrative@[j]),
            decreases i,
        {
            i = i - 1;
            let hit = match &self.narrative[i] {
                Narrative::Paragraph(ps) => symbol.is_some() || ps.fors.len() == 1,
                _ => false,
            };
            if hit {
                proof {
                    assert(p(self.narrative@[i as int]));
                    lemma_rfind(self.narrative@, p, i as int);
                    assert((|n: Narrative<T, A, F>| n is Paragraph) == (|n: Narrative<T, A, F>| n is Paragraph));
                }
                let frame = self.take_frame(i);
                if let Narrative::Paragraph(mut ps) = frame {
                    match symbol {
                        Some(s) => insert_for(&mut ps.fors, s, Some(tm)),
                        None => {
                            let (k0, _) = ps.fors.remove(0);
                            ps.fors.insert(0, (k0, Some(tm)));
                            proof {
                                assert(ps.fors@ =~= frame->Paragraph_0.fors@.update(0, (frame->Paragraph_0.fors@[0].0, Some(tm))));
                            }
                        },
                    }
                    self.put_frame(i, Narrative::Paragraph(ps));
                    proof {
                        assert(self.narrative@ =~= old(self).narrative@.update(i as int, self.narrative@[i as int]));
                    }
                    return Ok(());
                } else {
                    proof {
                        assert(false);
                    }
                    self.put_frame(i, frame);
                    return Err(tm);
                }
            }
        }
        proof {
            lemma_rfind(self.narrative@, p, -1);
        }
        Err(tm)
    }

    /// Marks `uri` as defined by the innermost paragraph; an error if there
    /// is no paragraph.
    pub fn add_definiendum(&mut self, uri: String)
        requires
            old(self).wf(),
        ensures
            final(self).wf(),
            ({
                let k = old(self).paragraph_index();
                let n = old(self).narrative@;
                if k >= 0 {
                    &&& updated_at(n, final(self).narrative@, k)
                    &&& n[k] matches Narrative::Paragraph(p)
                    &&& final(self).narrative@[k] matches Narrative::Paragraph(q)
                    &&& q.uri == p.uri && q.children == p.children && q.title == p.title
                    &&& q.fors@ == fors_ensure(p.fors@, uri)
                    &&& final(self).errors@ == old(self).errors@
                } else {
                    &&& final(self).narrative@ == n
                    &&& final(self).errors@ == old(self).errors@.push(FTMLError::NotInNarrative)
                }
            }),
            final(self).content@ == old(self).content@,
            final(self).modules@ == old(self).modules@,
            final(self).in_term == old(self).in_term,
            final(self).styles == old(self).styles,
    {
        if let Some(k) = self.find_paragraph() {
            let frame = self.take_frame(k);
            if let Narrative::Paragraph(mut ps) = frame {
                if find_key(&ps.fors, &uri).is_none() {
                    ps.fors.push((uri, None));
                }
                self.put_frame(k, Narrative::Paragraph(ps));
                proof {
                    assert(self.narrative@ =~= old(self).narrative@.update(k as int, self.narrative@[k as int]));
                }
                return;
            } else {
                proof {
                    assert(false);
                }
                self.put_frame(k, frame);
            }
        }
        self.add_error(FTMLError::NotInNarrative);
    }

    /// Sets the components of the notation on top of the narrative stack;
    /// gives them back if the top is no notation.
    pub fn add_notation(&mut self, spec: NotationSpec) -> (r: Result<(), NotationSpec>)
        requires
            old(self).wf(),
        ensures
            final(self).wf(),
            ({
                let n = old(self).narrative@;
                if n.last() is Notation {
                    let o = n.last()->Notation_0;
                    &&& r is Ok
                    &&& final(self).narrative@ == n.drop_last().push(
                        Narrative::Notation(
                            NotationState {
                                attribute_index: spec.attribute_index,
                                inner_index: spec.inner_index,
                                is_text: spec.is_text,
                                components: spec.components,
                                op: o.op,
                            },
                        ),
                    )
                } else {
                    r == Err::<(), NotationSpec>(spec) && final(self).narrative@ == n
                }
            }),
            final(self).same_but_narrative(old(self)),
    {
        let top = self.narrative.pop().unwrap();
        match top {
            Narrative::Notation(ns) => {
                let NotationSpec { attribute_index, inner_index, is_text, components } = spec;
                self.narrative.push(
                    Narrative::Notation(NotationState { attribute_index, inner_index, is_text, components, op: ns.op }),
                );
                Ok(())
            },
            other => {
                self.narrative.push(other);
                proof {
                    assert(self.narrative@ =~= old(self).narrative@);
                }
                Err(spec)
            },
        }
    }

    /// Sets the operator form of the notation on top of the narrative stack;
    /// gives it back if the top is no notation.
    pub fn add_op_notation(&mut self, op: OpNotation) -> (r: Result<(), OpNotation>)
        requires
            old(self).wf(),
        ensures
            final(self).wf(),
            ({
                let n = old(self).narrative@;
                if n.last() is Notation {
                    let o = n.last()->Notation_0;
                    &&& r is Ok
                    &&& final(self).narrative@ == n.drop_last().push(Narrative::Notation(NotationState { op: Some(op), ..o }))
                } else {
                    r == Err::<(), OpNotation>(op) && final(self).narrative@ == n
                }
            }),
            final(self).same_but_narrative(old(self)),
    {
        let top = self.narrative.pop().unwrap();
        match top {
            Narrative::Notation(mut ns) => {
                ns.op = Some(op);
                self.narrative.push(Narrative::Notation(ns));
                Ok(())
            },
            other => {
                self.narrative.push(other);
                proof {
                    assert(self.narrative@ =~= old(self).narrative@);
                }
                Err(op)
            },
        }
    }

    /// Resolves a variable name against the variables declared in the open
    /// narrative frames: the innermost declaration whose name ends with
    /// `names` gives a reference, else the name stays a bare name.
    pub fn resolve_variable_name(&self, names: Vec<String>) -> (r: Var)
        ensures
            match visible_var(self.narrative@, views(names@)) {
                Some(DocumentElement::Variable { uri, is_seq, .. }) => r == Var::Ref {
                    declaration: uri,
                    is_sequence: Some(is_seq),
                },
                _ => r == Var::Name(names),
            },
    {
        let ghost nv = views(names@);
        let mut i = self.narrative.len();
        assert(self.narrative@.take(i as int) =~= self.narrative@);
        while i > 0
            invariant
                i <= self.narrative@.len(),
                nv == views(names@),
                visible_var(self.narrative@, nv) == visible_var(self.narrative@.take(i as int), nv),
            decreases i,
        {
            i = i - 1;
            let ghost frames = self.narrative@.take(i + 1);
            assert(frames.last() == self.narrative@[i as int]);
            assert(frames.drop_last() =~= self.narrative@.take(i as int));
            let children: &Vec<DocumentElement<T, A, F>> = match &self.narrative[i] {
                Narrative::Container(_, c) => c,
                Narrative::Paragraph(ps) => &ps.children,
                Narrative::Problem(ps) => &ps.children,
                Narrative::Section { children, .. } => children,
                Narrative::Slide { children } => children,
                Narrative::Notation(_) => {
                    proof {
                        lemma_rfind_range(Seq::<DocumentElement<T, A, F>>::empty(), var_named::<T, A, F>(nv));
                    }
                    continue;
                },
            };
            assert(children@ == children_view(self.narrative@[i as int]));
            match find_var(children, &names) {
                Some(j) => {
                    proof {
                        assert(visible_var(frames, nv) == Some(children@[j as int]));
                    }
                    if let DocumentElement::Variable { uri, is_seq, .. } = &children[j] {
                        return Var::Ref { declaration: uri.clone(), is_sequence: Some(*is_seq) };
                    }
                    proof {
                        assert(false);
                    }
                },
                None => {},
            }
        }
        Var::Name(names)
    }
}

/// The last of `children` that declares a variable whose name ends with
/// `names`.
fn find_var<T, A, F>(children: &Vec<DocumentElement<T, A, F>>, names: &Vec<String>) -> (r: Option<usize>)
    ensures
        match r {
            Some(j) => j == rfind(children@, var_named::<T, A, F>(views(names@))) && j < children@.len()
                && declares_var(children@[j as int], views(names@)),
            None => rfind(children@, var_named::<T, A, F>(views(names@))) == -1,
        },
{
    let ghost pv = var_named::<T, A, F>(views(names@));
    let mut j = children.len();
    while j > 0
        invariant
            j <= children@.len(),
            pv == var_named::<T, A, F>(views(names@)),
            forall|m: int| j <= m < children@.len() ==> !pv(#[trigger] children@[m]),
        decreases j,
    {
        j = j - 1;
        if let DocumentElement::Variable { name_steps, .. } = &children[j] {
            if ends_with(name_steps, names) {
                proof {
                    assert(pv(children@[j as int]));
                    lemma_rfind(children@, pv, j as int);
                }
                return Some(j);
            }
        }
        proof {
            assert(!pv(children@[j as int]));
        }
    }
    proof {
        lemma_rfind(children@, pv, -1);
    }
    None
}

/// Whether the names `tail` end the list `names`, compared by text.
fn ends_with(names: &Vec<String>, tail: &Vec<String>) -> (r: bool)
    ensures
        r == (names@.len() >= tail@.len() && forall|i: int|
            0 <= i < tail@.len() ==> (#[trigger] names@[names@.len() - tail@.len() + i])@ == views(tail@)[i]),
{
    if names.len() < tail.len() {
        return false;
    }
    let off = names.len() - tail.len();
    let mut i: usize = 0;
    while i < tail.len()
        invariant
            off + tail@.len() == names@.len(),
            names@.len() == names.len(),
            i <= tail@.len(),
            forall|m: int| 0 <= m < i ==> (#[trigger] names@[names@.len() - tail@.len() + m])@ == views(tail@)[m],
        decreases tail@.len() - i,
    {
        assert(off + i == names@.len() - tail@.len() + i);
        if names[off + i] != tail[i] {
            assert(views(tail@)[i as int] == tail@[i as int]@);
            assert((names@[names@.len() - tail@.len() + i])@ != views(tail@)[i as int]);
            return false;
        }
        i = i + 1;
    }
    true
}


/// `s` extended with `None` up to length `n`.
pub open spec fn pad<X>(s: Seq<Option<X>>, n: int) -> Seq<Option<X>> {
    if s.len() >= n {
        s
    } else {
        s + Seq::new((n - s.len()) as nat, |i: int| None::<X>)
    }
}

/// The positions `idx` and `list_idx` can be used with the content stack
/// `c`: with an argument list on top, `idx` counts from 1, and so does a
/// list position, unless the argument there holds a single term (which
/// refuses list positions before looking at them).
pub open spec fn arg_indices_ok<T>(c: Seq<Content<T>>, idx: u8, list_idx: Option<u8>) -> bool {
    c.len() > 0 && c.last() is Args ==> {
        let args = c.last()->Args_0@;
        &&& idx >= 1
        &&& (list_idx matches Some(j) && j == 0) ==> (idx - 1 < args.len() && args[idx - 1] matches Some(
            (TermOrList::Term(_), _),
        ))
    }
}

/// A list argument with `tm` at the 1-based position `j`.
pub open spec fn list_with<T>(ls: Seq<Option<T>>, j: int, tm: T) -> Seq<Option<T>> {
    pad(ls, j + 1).update(j - 1, Some(tm))
}

/// The number of leading entries of `s` that are filled.
pub open spec fn filled_prefix<X>(s: Seq<Option<X>>) -> int {
    let k = lfind(s, |e: Option<X>| e is None);
    if k < 0 {
        s.len() as int
    } else {
        k
    }
}

/// The number of failed closings among `res`.
pub open spec fn count_err<G>(res: Seq<Result<G, G>>) -> nat
    decreases res.len(),
{
    if res.len() == 0 {
        0
    } else {
        (if res.last() is Err {
            1nat
        } else {
            0nat
        }) + count_err(res.drop_last())
    }
}

/// What a closing gives, whether it succeeded or not.
pub open spec fn closed_value<G>(x: Result<G, G>) -> G {
    match x {
        Ok(a) => a,
        Err(a) => a,
    }
}

/// `res` are results that `closer` may give for the first `res.len()`
/// arguments of `args`, which are all filled.
pub open spec fn closings<T, G, C: Fn(TermOrList<T>, ArgMode) -> Result<G, G>>(
    closer: C,
    args: Seq<Option<(TermOrList<T>, ArgMode)>>,
    res: Seq<Result<G, G>>,
) -> bool {
    &&& res.len() <= args.len()
    &&& forall|i: int| 0 <= i < res.len() ==> call_ensures(closer, (args[i]->Some_0.0, args[i]->Some_0.1), #[trigger] res[i])
}

/// Closing the argument list on top of the content stack `c` gives the
/// stack `nc`, the errors `ne` after `oe`, and the result `r`: the
/// arguments before the first missing one, closed by `closer`, with an
/// `IncompleteArgs(1)` error for each failed closing, then an
/// `IncompleteArgs(2)` error for each argument after the gap, and the
/// head term. Without an argument list on top nothing changes and nothing
/// is given.
pub open spec fn args_closed<T, G, C: Fn(TermOrList<T>, ArgMode) -> Result<G, G>>(
    closer: C,
    c: Seq<Content<T>>,
    nc: Seq<Content<T>>,
    oe: Seq<FTMLError>,
    ne: Seq<FTMLError>,
    r: (Seq<G>, Option<T>),
) -> bool {
    if c.len() > 0 && c.last() is Args {
        let args = c.last()->Args_0@;
        &&& nc == c.drop_last()
        &&& r.1 == c.last()->Args_1
        &&& exists|res: Seq<Result<G, G>>|
            {
                &&& res.len() == filled_prefix(args)
                &&& #[trigger] closings(closer, args, res)
                &&& r.0 == res.map_values(|x: Result<G, G>| closed_value(x))
                &&& ne == oe + Seq::new(count_err(res), |i: int| FTMLError::IncompleteArgs(1)) + Seq::new(
                    count_filled(after_gap(args)),
                    |i: int| FTMLError::IncompleteArgs(2),
                )
            }
    } else {
        &&& nc == c
        &&& ne == oe
        &&& r.0.len() == 0
        &&& r.1 is None
    }
}

/// The number of filled entries of `s`.
pub open spec fn count_filled<X>(s: Seq<Option<X>>) -> nat
    decreases s.len(),
{
    if s.len() == 0 {
        0
    } else {
        (if s.last() is Some {
            1nat
        } else {
            0nat
        }) + count_filled(s.drop_last())
    }
}

/// The entries after the filled prefix and the gap that ends it.
pub open spec fn after_gap<X>(s: Seq<Option<X>>) -> Seq<Option<X>> {
    let n = filled_prefix(s);
    if n < s.len() {
        s.skip(n + 1)
    } else {
        Seq::empty()
    }
}

/// Extends `v` with `None` up to length `n`.
fn pad_vec<X>(v: &mut Vec<Option<X>>, n: usize)
    ensures
        final(v)@ == pad(old(v)@, n as int),
{
    let ghost start = v@;
    while v.len() < n
        invariant
            start.len() <= v@.len(),
            v@.len() < n ==> v@ == start + Seq::new((v@.len() - start.len()) as nat, |i: int| None::<X>),
            v@.len() >= n ==> v@ == pad(start, n as int),
            v@.len() <= n || v@ == start,
        decreases n - v@.len(),
    {
        v.push(None);
        proof {
            assert(v@ =~= start + Seq::new((v@.len() - start.len()) as nat, |i: int| None::<X>));
        }
    }
    proof {
        if start.len() < n {
            assert(v@ =~= pad(start, n as int));
        }
    }
}

impl<T, A, F> ExtractorState<T, A, F> {
    /// Puts the term `tm` at the 1-based argument position `idx` of the
    /// argument list on top of the content stack, or at position `list_idx`
    /// inside the list argument there.  The list grows as needed.  Fails if
    /// the top is no argument list, or a list position is asked of an
    /// argument that holds a single term.
    pub fn add_arg(&mut self, idx: u8, list_idx: Option<u8>, tm: T, mode: ArgMode) -> (r: Result<(), ()>)
        requires
            arg_indices_ok(old(self).content@, idx, list_idx),
        ensures
            arg_added(*old(self), *final(self), idx, list_idx, tm, mode, r is Ok),
            final(self).narrative@ == old(self).narrative@,
            final(self).modules@ == old(self).modules@,
            final(self).errors@ == old(self).errors@,
            final(self).in_term == old(self).in_term,
            final(self).styles == old(self).styles,
    {
        let top = match self.content.pop() {
            Some(t) => t,
            None => {
                return Err(());
            },
        };
        let (mut v, h) = match top {
            Content::Args(v, h) => (v, h),
            other => {
                self.content.push(other);
                proof {
                    assert(self.content@ =~= old(self).content@);
                }
                return Err(());
            },
        };
        let ghost v0 = v@;
        pad_vec(&mut v, idx as usize + 1);
        let ghost v1 = v@;
        let k = (idx - 1) as usize;
        assert(v@[k as int] == if (k as int) < v0.len() {
            v0[k as int]
        } else {
            None
        });
        let slot = v.remove(k);
        let (new_slot, r) = match list_idx {
            None => (Some((TermOrList::Term(tm), mode)), Ok(())),
            Some(j) => match slot {
                None => {
                    let mut ls: Vec<Option<T>> = Vec::new();
                    pad_vec(&mut ls, j as usize + 1);
                    ls.set((j - 1) as usize, Some(tm));
                    (Some((TermOrList::List(ls), mode)), Ok(()))
                },
                Some((TermOrList::List(mut ls), m)) => {
                    pad_vec(&mut ls, j as usize + 1);
                    ls.set((j - 1) as usize, Some(tm));
                    (Some((TermOrList::List(ls), m)), Ok(()))
                },
                Some((TermOrList::Term(t), m)) => (Some((TermOrList::Term(t), m)), Err(())),
            },
        };
        v.insert(k, new_slot);
        proof {
            assert forall|m: int| 0 <= m < v1.len() && m != k implies #[trigger] v@[m] == v1[m] by {}
        }
        let ghost w = v@;
        self.content.push(Content::Args(v, h));
        proof {
            let c = old(self).content@;
            assert(self.content@.drop_last() =~= c.drop_last());
            assert(c.last()->Args_0@ == v0);
            assert(v1 == pad(c.last()->Args_0@, idx + 1));
            assert(self.content@.last()->Args_0@ == w);
        }
        r
    }

    /// Closes the argument list on top of the content stack: the arguments
    /// up to the first missing one are closed by `closer`, each failed
    /// closing recorded as an `IncompleteArgs(1)` error, and each argument
    /// after the gap recorded as an `IncompleteArgs(2)` error; gives the
    /// closed arguments and the head term. Without an argument list on top,
    /// nothing.
    pub fn close_args<G, C: Fn(TermOrList<T>, ArgMode) -> Result<G, G>>(&mut self, closer: &C) -> (r: (Vec<G>, Option<T>))
        requires
            forall|a: TermOrList<T>, m: ArgMode| call_requires(*closer, (a, m)),
        ensures
            args_closed(*closer, old(self).content@, final(self).content@, old(self).errors@, final(self).errors@, (r.0@, r.1)),
            final(self).narrative@ == old(self).narrative@,
            final(self).modules@ == old(self).modules@,
            final(self).in_term == old(self).in_term,
            final(self).styles == old(self).styles,
    {
        let top = match self.content.pop() {
            Some(t) => t,
            None => {
                return (Vec::new(), None);
            },
        };
        let (mut args, head) = match top {
            Content::Args(a, h) => (a, h),
            other => {
                self.content.push(other);
                proof {
                    assert(self.content@ =~= old(self).content@);
                }
                return (Vec::new(), None);
            },
        };
        let ghost all = args@;
        let ghost p = |e: Option<(TermOrList<T>, ArgMode)>| e is None;
        let ghost errs_start = self.errors@;
        let ghost mut res: Seq<Result<G, G>> = Seq::empty();
        let mut ret: Vec<G> = Vec::new();
        let mut gap = false;
        assert(errs_start + Seq::new(count_err(res), |i: int| FTMLError::IncompleteArgs(1)) =~= errs_start);
        assert(ret@ =~= res.map_values(|x: Result<G, G>| closed_value(x)));
        while args.len() > 0
            invariant_except_break
                !gap,
                p == (|e: Option<(TermOrList<T>, ArgMode)>| e is None),
                forall|a: TermOrList<T>, m: ArgMode| call_requires(*closer, (a, m)),
                res.len() + args@.len() == all.len(),
                args@ == all.skip(res.len() as int),
                ret@ == res.map_values(|x: Result<G, G>| closed_value(x)),
                closings(*closer, all, res),
                forall|m: int| 0 <= m < res.len() ==> !p(#[trigger] all[m]),
                self.errors@ == errs_start + Seq::new(count_err(res), |i: int| FTMLError::IncompleteArgs(1)),
                self.content@ == old(self).content@.drop_last(),
                self.narrative@ == old(self).narrative@,
                self.modules@ == old(self).modules@,
                self.in_term == old(self).in_term,
                self.styles == old(self).styles,
            ensures
                p == (|e: Option<(TermOrList<T>, ArgMode)>| e is None),
                gap ==> res.len() < all.len() && all[res.len() as int] is None && args@ == all.skip(res.len() as int + 1),
                !gap ==> res.len() == all.len() && args@.len() == 0,
                ret@ == res.map_values(|x: Result<G, G>| closed_value(x)),
                closings(*closer, all, res),
                forall|m: int| 0 <= m < res.len() ==> !p(#[trigger] all[m]),
                self.errors@ == errs_start + Seq::new(count_err(res), |i: int| FTMLError::IncompleteArgs(1)),
                self.content@ == old(self).content@.drop_last(),
                self.narrative@ == old(self).narrative@,
                self.modules@ == old(self).modules@,
                self.in_term == old(self).in_term,
                self.styles == old(self).styles,
            decreases args@.len(),
        {
            let ghost n = res.len();
            assert(args@[0] == all[n as int]);
            match args.remove(0) {
                Some((a, m)) => {
                    let x = closer(a, m);
                    let ghost xg = x;
                    let ghost e0 = self.errors@;
                    let ghost r0 = ret@;
                    match x {
                        Ok(g) => {
                            ret.push(g);
                        },
                        Err(g) => {
                            self.add_error(FTMLError::IncompleteArgs(1));
                            ret.push(g);
                        },
                    }
                    proof {
                        let res0 = res;
                        res = res.push(xg);
                        assert(res.drop_last() =~= res0);
                        assert(args@ =~= all.skip(res.len() as int));
                        assert(ret@ =~= res.map_values(|x: Result<G, G>| closed_value(x)));
                        assert forall|i: int| 0 <= i < res.len() implies call_ensures(
                            *closer,
                            (all[i]->Some_0.0, all[i]->Some_0.1),
                            #[trigger] res[i],
                        ) by {
                            if i < n {
                                assert(res[i] == res0[i]);
                            }
                        }
                        assert(self.errors@ =~= errs_start + Seq::new(
                            count_err(res),
                            |i: int| FTMLError::IncompleteArgs(1),
                        ));
                    }
                },
                None => {
                    gap = true;
                    proof {
                        assert(args@ =~= all.skip(n as int + 1));
                    }
                    break;
                },
            }
        }
        proof {
            if gap {
                lemma_lfind(all, p, res.len() as int);
                assert(after_gap(all) == args@);
            } else {
                lemma_lfind(all, p, -1);
                assert(after_gap(all) =~= Seq::<Option<(TermOrList<T>, ArgMode)>>::empty());
                assert(args@ =~= Seq::<Option<(TermOrList<T>, ArgMode)>>::empty());
            }
        }
        let ghost rest = args@;
        let ghost errs0 = self.errors@;
        let mut i: usize = 0;
        assert(rest.take(0) =~= Seq::<Option<(TermOrList<T>, ArgMode)>>::empty());
        assert(errs0 + Seq::new(count_filled(rest.take(0)), |m: int| FTMLError::IncompleteArgs(2)) =~= errs0);
        while i < args.len()
            invariant
                rest == args@,
                i <= rest.len(),
                self.errors@ == errs0 + Seq::new(count_filled(rest.take(i as int)), |m: int| FTMLError::IncompleteArgs(2)),
                self.content@ == old(self).content@.drop_last(),
                self.narrative@ == old(self).narrative@,
                self.modules@ == old(self).modules@,
                self.in_term == old(self).in_term,
                self.styles == old(self).styles,
            decreases rest.len() - i,
        {
            proof {
                assert(rest.take(i + 1).drop_last() =~= rest.take(i as int));
            }
            if args[i].is_some() {
                self.add_error(FTMLError::IncompleteArgs(2));
                proof {
                    assert(self.errors@ =~= errs0 + Seq::new(count_filled(rest.take(i + 1)), |m: int| FTMLError::IncompleteArgs(2)));
                }
            } else {
                proof {
                    assert(self.errors@ =~= errs0 + Seq::new(count_filled(rest.take(i + 1)), |m: int| FTMLError::IncompleteArgs(2)));
                }
            }
            i = i + 1;
        }
        proof {
            assert(rest.take(rest.len() as int) =~= rest);
            assert(res.len() == filled_prefix(all));
            assert(closings(*closer, all, res));
        }
        (ret, head)
    }

    /// The finished document: its URI, its elements, its modules and its
    /// styles, if only the document container is left open.
    pub fn take(self) -> (r: Result<(String, Vec<DocumentElement<T, A, F>>, Vec<OpenModule<T>>, DocumentStyles), ()>)
        requires
            self.wf(),
        ensures
            if self.narrative@.len() == 1 {
                &&& self.narrative@[0] matches Narrative::Container(NarrativeUri::Document(d), c)
                &&& r matches Ok((d2, c2, m2, s2))
                &&& d2 == d && c2 == c && m2 == self.modules && s2 == self.styles
            } else {
                r is Err
            },
    {
        let mut narrative = self.narrative;
        if narrative.len() == 1 {
            match narrative.pop() {
                Some(Narrative::Container(NarrativeUri::Document(d), elements)) => Ok((d, elements, self.modules, self.styles)),
                _ => {
                    proof {
                        assert(false);
                    }
                    Err(())
                },
            }
        } else {
            Err(())
        }
    }
}


/// Closing a frame of the kind just opened gives the stack back as it was
/// before the opening.
pub proof fn law_close_undoes_open<X>(before: Seq<X>, opened: Seq<X>, after: Seq<X>, p: spec_fn(X) -> bool)
    requires
        pushed(before, opened),
        p(opened.last()),
        pop_if(opened, after, p),
    ensures
        after == before,
{
}

/// A close that finds a frame of another kind on top leaves the stack as
/// it was.
pub proof fn law_close_of_other_kind_keeps_stack<X>(before: Seq<X>, after: Seq<X>, p: spec_fn(X) -> bool)
    requires
        before.len() > 0 ==> !p(before.last()),
        pop_if(before, after, p),
    ensures
        after == before,
{
}

/// Opening frames, and closing frames of a kind other than containers,
/// keep the document container at the bottom of the narrative stack.
pub proof fn law_document_stays_at_bottom<T, A, F>(
    before: Seq<Narrative<T, A, F>>,
    after: Seq<Narrative<T, A, F>>,
    p: spec_fn(Narrative<T, A, F>) -> bool,
)
    requires
        before.len() >= 1,
        before[0] matches Narrative::Container(NarrativeUri::Document(_), _),
        forall|n: Narrative<T, A, F>| #[trigger] p(n) ==> !(n is Container),
        pushed(before, after) || pop_if(before, after, p),
    ensures
        after.len() >= 1,
        after[0] == before[0],
{
    if pushed(before, after) {
        assert(after[0] == after.drop_last()[0]);
    } else if before.len() > 0 && p(before.last()) {
        assert(before.len() > 1);
        assert(after[0] == before.drop_last()[0]);
    }
}

/// Closing a section right after opening it gives back its URI with no
/// title and no children, and the stack as it was before the opening.
pub proof fn law_section_round_trip<T, A, F>(
    before: Seq<Narrative<T, A, F>>,
    opened: Seq<Narrative<T, A, F>>,
    after: Seq<Narrative<T, A, F>>,
    uri: String,
    r: Option<(String, Option<DocumentRange>, Vec<DocumentElement<T, A, F>>)>,
)
    requires
        pushed(before, opened),
        opened.last() matches Narrative::Section { uri: u, title, children } && u == uri && title is None
            && children@.len() == 0,
        pop_if(opened, after, |n: Narrative<T, A, F>| n is Section),
        opened.len() > 0 ==> (opened.last() matches Narrative::Section { uri, title, children } ==> r == Some(
            (uri, title, children),
        )),
    ensures
        after == before,
        r matches Some((u, t, c)) && u == uri && t is None && c@.len() == 0,
{
}


impl<T, A, F> ExtractorState<T, A, F> {
    /// Records a finished grading note in the innermost problem; whether
    /// there was one.
    pub fn push_gnote(&mut self, note: GradingNote<A>) -> (r: bool)
        ensures
            r == (old(self).problem_index() >= 0),
            r ==> ({
                let k = old(self).problem_index();
                let p = problem_at(old(self).narrative@, k);
                &&& updated_at(old(self).narrative@, final(self).narrative@, k)
                &&& final(self).narrative@[k] matches Narrative::Problem(q)
                &&& q == ProblemState { gnotes: q.gnotes, ..p }
                &&& q.gnotes@ =~= p.gnotes@.push(note)
            }),
            !r ==> final(self).narrative@ == old(self).narrative@,
            final(self).same_but_narrative(old(self)),
    {
        if let Some(k) = self.find_problem() {
            let frame = self.take_frame(k);
            if let Narrative::Problem(mut p) = frame {
                p.gnotes.push(note);
                self.put_frame(k, Narrative::Problem(p));
                proof {
                    assert(self.narrative@ =~= old(self).narrative@.update(k as int, self.narrative@[k as int]));
                    let q = self.narrative@[k as int]->Problem_0;
                    assert(q == ProblemState { gnotes: q.gnotes, ..problem_at(old(self).narrative@, k as int) });
                }
                return true;
            } else {
                self.put_frame(k, frame);
            }
        }
        false
    }

    /// Sets the feedback of the last answer class of the open grading note
    /// of the innermost problem; whether there was one.
    pub fn set_answer_class_feedback(&mut self, feedback: String) -> (r: bool)
        ensures
            ({
                let k = old(self).problem_index();
                let p = problem_at(old(self).narrative@, k);
                r == (k >= 0 && p.gnote is Some && p.gnote->0.answer_classes@.len() > 0)
            }),
            r ==> ({
                let k = old(self).problem_index();
                let p = problem_at(old(self).narrative@, k);
                let acs = p.gnote->0.answer_classes@;
                &&& updated_at(old(self).narrative@, final(self).narrative@, k)
                &&& final(self).narrative@[k] matches Narrative::Problem(q)
                &&& q == ProblemState { gnote: q.gnote, ..p }
                &&& q.gnote matches Some(g)
                &&& g.answer_classes@.len() == acs.len()
                &&& g.answer_classes@.drop_last() =~= acs.drop_last()
                &&& g.answer_classes@.last().id == acs.last().id
                &&& g.answer_classes@.last().kind == acs.last().kind
                &&& g.answer_classes@.last().feedback == feedback
            }),
            !r ==> final(self).narrative@ == old(self).narrative@,
            final(self).same_but_narrative(old(self)),
    {
        if let Some(k) = self.find_problem() {
            let frame = self.take_frame(k);
            if let Narrative::Problem(mut p) = frame {
                if p.gnote.is_some() && p.gnote.as_ref().unwrap().answer_classes.len() > 0 {
                    let mut g = p.gnote.take().unwrap();
                    let ac = g.answer_classes.pop().unwrap();
                    {
                        g.answer_classes.push(AnswerClass { id: ac.id, kind: ac.kind, feedback });
                        p.gnote = Some(g);
                        self.put_frame(k, Narrative::Problem(p));
                        proof {
                            assert(self.narrative@ =~= old(self).narrative@.update(k as int, self.narrative@[k as int]));
                            let q = self.narrative@[k as int]->Problem_0;
                            assert(q == ProblemState { gnote: q.gnote, ..problem_at(old(self).narrative@, k as int) });
                        }
                        return true;
                    }
                }
                self.put_frame(k, Narrative::Problem(p));
                proof {
                    assert(self.narrative@ =~= old(self).narrative@);
                }
            } else {
                self.put_frame(k, frame);
            }
        }
        false
    }

    /// Sets the feedback of the last case of the open fill-in block of the
    /// innermost problem; whether there was one.
    pub fn set_fillinsol_feedback(&mut self, feedback: String) -> (r: bool)
        ensures
            ({
                let k = old(self).problem_index();
                let p = problem_at(old(self).narrative@, k);
                r == (k >= 0 && p.fillinsol is Some && p.fillinsol->0.cases@.len() > 0)
            }),
            r ==> ({
                let k = old(self).problem_index();
                let p = problem_at(old(self).narrative@, k);
                let cs = p.fillinsol->0.cases@;
                &&& updated_at(old(self).narrative@, final(self).narrative@, k)
                &&& final(self).narrative@[k] matches Narrative::Problem(q)
                &&& q == ProblemState { fillinsol: q.fillinsol, ..p }
                &&& q.fillinsol matches Some(f)
                &&& f.cases@ == cs.drop_last().push(with_feedback(cs.last(), feedback))
            }),
            !r ==> final(self).narrative@ == old(self).narrative@,
            final(self).same_but_narrative(old(self)),
    {
        if let Some(k) = self.find_problem() {
            let frame = self.take_frame(k);
            if let Narrative::Problem(mut p) = frame {
                if p.fillinsol.is_some() && p.fillinsol.as_ref().unwrap().cases.len() > 0 {
                    let mut f = p.fillinsol.take().unwrap();
                    let ghost cs = f.cases@;
                    let c = f.cases.pop().unwrap();
                    f.cases.push(set_case_feedback(c, feedback));
                    assert(f.cases@ =~= cs.drop_last().push(with_feedback(cs.last(), feedback)));
                    p.fillinsol = Some(f);
                    self.put_frame(k, Narrative::Problem(p));
                    proof {
                        assert(self.narrative@ =~= old(self).narrative@.update(k as int, self.narrative@[k as int]));
                        let q = self.narrative@[k as int]->Problem_0;
                        assert(q == ProblemState { fillinsol: q.fillinsol, ..problem_at(old(self).narrative@, k as int) });
                    }
                    return true;
                }
                self.put_frame(k, Narrative::Problem(p));
                proof {
                    assert(self.narrative@ =~= old(self).narrative@);
                }
            } else {
                self.put_frame(k, frame);
            }
        }
        false
    }

    /// Sets the verdict (when `verdict`) or else the feedback of the last
    /// choice of the open choice block of the innermost problem; whether
    /// there was one.
    pub fn set_choice_text(&mut self, text: String, verdict: bool) -> (r: bool)
        ensures
            ({
                let k = old(self).problem_index();
                let p = problem_at(old(self).narrative@, k);
                r == (k >= 0 && p.choice_block is Some && p.choice_block->0.choices@.len() > 0)
            }),
            r ==> ({
                let k = old(self).problem_index();
                let p = problem_at(old(self).narrative@, k);
                let cb = p.choice_block->0;
                let cs = cb.choices@;
                &&& updated_at(old(self).narrative@, final(self).narrative@, k)
                &&& final(self).narrative@[k] matches Narrative::Problem(q)
                &&& q == ProblemState { choice_block: q.choice_block, ..p }
                &&& q.choice_block matches Some(b)
                &&& b == ChoiceBlockState { choices: b.choices, ..cb }
                &&& b.choices@.len() == cs.len()
                &&& b.choices@.drop_last() =~= cs.drop_last()
                &&& b.choices@.last().correct == cs.last().correct
                &&& if verdict {
                    b.choices@.last().verdict == text && b.choices@.last().feedback == cs.last().feedback
                } else {
                    b.choices@.last().feedback == text && b.choices@.last().verdict == cs.last().verdict
                }
            }),
            !r ==> final(self).narrative@ == old(self).narrative@,
            final(self).same_but_narrative(old(self)),
    {
        if let Some(k) = self.find_problem() {
            let frame = self.take_frame(k);
            if let Narrative::Problem(mut p) = frame {
                if p.choice_block.is_some() && p.choice_block.as_ref().unwrap().choices.len() > 0 {
                    let mut b = p.choice_block.take().unwrap();
                    let c = b.choices.pop().unwrap();
                    {
                        let c2 = if verdict {
                            Choice { correct: c.correct, verdict: text, feedback: c.feedback }
                        } else {
                            Choice { correct: c.correct, verdict: c.verdict, feedback: text }
                        };
                        b.choices.push(c2);
                        p.choice_block = Some(b);
                        self.put_frame(k, Narrative::Problem(p));
                        proof {
                            assert(self.narrative@ =~= old(self).narrative@.update(k as int, self.narrative@[k as int]));
                            let q = self.narrative@[k as int]->Problem_0;
                            assert(q == ProblemState { choice_block: q.choice_block, ..problem_at(old(self).narrative@, k as int) });
                        }
                        return true;
                    }
                }
                self.put_frame(k, Narrative::Problem(p));
                proof {
                    assert(self.narrative@ =~= old(self).narrative@);
                }
            } else {
                self.put_frame(k, frame);
            }
        }
        false
    }
}


/// What `add_term` does to the stacks, `ok` telling whether the term found
/// a place: without a symbol, the term slot of the content frame on top;
/// else (or when the top has no slot) the definiens of `symbol` in the
/// innermost paragraph, or without a symbol the only `for` of the innermost
/// paragraph that has exactly one.
pub open spec fn term_added<T, A, F>(
    before: ExtractorState<T, A, F>,
    after: ExtractorState<T, A, F>,
    symbol: Option<String>,
    tm: T,
    ok: bool,
) -> bool {
    let c = before.content@;
    let s = before.narrative@;
    &&& after.modules@ == before.modules@
    &&& if symbol is None && c.len() > 0 && has_term_slot(c.last()) {
        &&& ok
        &&& after.content@ == c.drop_last().push(with_term(c.last(), tm))
        &&& after.narrative@ == s
    } else {
        let k = match symbol {
            Some(_) => rfind(s, |n: Narrative<T, A, F>| n is Paragraph),
            None => rfind(s, single_for_paragraph::<T, A, F>()),
        };
        &&& after.content@ == c
        &&& ok == (k >= 0)
        &&& if k >= 0 {
            &&& updated_at(s, after.narrative@, k)
            &&& s[k] matches Narrative::Paragraph(p)
            &&& after.narrative@[k] matches Narrative::Paragraph(q)
            &&& q.uri == p.uri && q.children == p.children && q.title == p.title
            &&& q.fors@ == match symbol {
                Some(x) => fors_insert(p.fors@, x, Some(tm)),
                None => p.fors@.update(0, (p.fors@[0].0, Some(tm))),
            }
        } else {
            after.narrative@ == s
        }
    }
}

/// What `add_arg` does to the content stack, `ok` telling whether it
/// succeeded: the argument list on top grows to hold position `idx`, and
/// the term goes there, or into the list argument there at `list_idx`.
pub open spec fn arg_added<T, A, F>(
    before: ExtractorState<T, A, F>,
    after: ExtractorState<T, A, F>,
    idx: u8,
    list_idx: Option<u8>,
    tm: T,
    mode: ArgMode,
    ok: bool,
) -> bool {
    let c = before.content@;
    &&& after.narrative@ == before.narrative@
    &&& after.modules@ == before.modules@
    &&& if c.len() > 0 && c.last() is Args {
        let v = pad(c.last()->Args_0@, idx + 1);
        let k = idx - 1;
        &&& after.content@.len() == c.len()
        &&& after.content@.drop_last() == c.drop_last()
        &&& after.content@.last() matches Content::Args(w, h)
        &&& h == c.last()->Args_1
        &&& w@.len() == v.len()
        &&& forall|m: int| 0 <= m < v.len() && m != k ==> #[trigger] w@[m] == v[m]
        &&& match list_idx {
            None => ok && w@[k] == Some((TermOrList::Term(tm), mode)),
            Some(j) => match v[k] {
                None => ok && (w@[k] matches Some((TermOrList::List(ls), m2)) && m2 == mode
                    && ls@ == list_with(Seq::<Option<T>>::empty(), j as int, tm)),
                Some((TermOrList::List(ls0), m0)) => ok && (w@[k] matches Some(
                    (TermOrList::List(ls), m2),
                ) && m2 == m0 && ls@ == list_with(ls0@, j as int, tm)),
                Some((TermOrList::Term(_), _)) => !ok && w@[k] == v[k],
            },
        }
    } else {
        !ok && after.content@ == c
    }
}


/// `rfind` only looks at which elements satisfy `p`.
pub proof fn lemma_rfind_same_hits<X>(s1: Seq<X>, s2: Seq<X>, p: spec_fn(X) -> bool)
    requires
        s1.len() == s2.len(),
        forall|i: int| 0 <= i < s1.len() ==> p(#[trigger] s1[i]) == p(s2[i]),
    ensures
        rfind(s1, p) == rfind(s2, p),
    decreases s1.len(),
{
    if s1.len() > 0 {
        assert(p(s1[s1.len() - 1]) == p(s2[s2.len() - 1]));
        assert forall|i: int| 0 <= i < s1.drop_last().len() implies p(#[trigger] s1.drop_last()[i]) == p(
            s2.drop_last()[i],
        ) by {
            assert(s1.drop_last()[i] == s1[i]);
            assert(s2.drop_last()[i] == s2[i]);
        }
        lemma_rfind_same_hits(s1.drop_last(), s2.drop_last(), p);
    }
}

/// Kinds of narrative frames searched for from the top of the stack.
#[derive(Clone, Copy)]
pub enum FrameKind {
    TakesChildren,
    Titled,
    HasUri,
    Container,
    Paragraph,
    Notation,
}

/// Whether frame `n` is of kind `kind`.
pub open spec fn kind_matches<T, A, F>(kind: FrameKind, n: Narrative<T, A, F>) -> bool {
    match kind {
        FrameKind::TakesChildren => takes_children(n),
        FrameKind::Titled => n is Paragraph || n is Problem || n is Section,
        FrameKind::HasUri => has_narrative_uri(n),
        FrameKind::Container => n is Container,
        FrameKind::Paragraph => n is Paragraph,
        FrameKind::Notation => n is Notation,
    }
}

/// The frame `n` with its title set to `ttl`.
pub open spec fn with_title<T, A, F>(n: Narrative<T, A, F>, ttl: DocumentRange) -> Narrative<T, A, F> {
    match n {
        Narrative::Paragraph(p) => Narrative::Paragraph(ParagraphState { title: Some(ttl), ..p }),
        Narrative::Problem(p) => Narrative::Problem(ProblemState { title: Some(ttl), ..p }),
        Narrative::Section { uri, children, .. } => Narrative::Section { uri, title: Some(ttl), children },
        other => other,
    }
}

/// A copy of a narrative URI.
pub fn clone_narrative_uri(u: &NarrativeUri) -> (r: NarrativeUri)
    ensures
        r == *u,
{
    match u {
        NarrativeUri::Document(d) => NarrativeUri::Document(d.clone()),
        NarrativeUri::Element(e) => NarrativeUri::Element(e.clone()),
    }
}

/// `rfind` gives -1 or an index satisfying `p`, above which nothing does.
pub proof fn lemma_rfind_range<X>(s: Seq<X>, p: spec_fn(X) -> bool)
    ensures
        -1 <= rfind(s, p) < s.len(),
        rfind(s, p) >= 0 ==> p(s[rfind(s, p)]),
        forall|j: int| rfind(s, p) < j < s.len() ==> !p(#[trigger] s[j]),
    decreases s.len(),
{
    if s.len() > 0 && !p(s.last()) {
        lemma_rfind_range(s.drop_last(), p);
        assert forall|j: int| rfind(s, p) < j < s.len() implies !p(#[trigger] s[j]) by {
            if j < s.len() - 1 {
                assert(s[j] == s.drop_last()[j]);
            }
        }
        if rfind(s, p) >= 0 {
            assert(s.drop_last()[rfind(s, p)] == s[rfind(s, p)]);
        }
    }
}

/// Whenever the element at `i` satisfies `p`, `rfind` finds one at or above
/// `i`.
pub proof fn lemma_rfind_ge<X>(s: Seq<X>, p: spec_fn(X) -> bool, i: int)
    requires
        0 <= i < s.len(),
    ensures
        p(s[i]) ==> i <= rfind(s, p) < s.len(),
        p(s[i]) ==> p(s[rfind(s, p)]),
        rfind(s, p) == -1 ==> !p(s[i]),
        -1 <= rfind(s, p) < s.len(),
        rfind(s, p) >= 0 ==> p(s[rfind(s, p)]),
        forall|j: int| rfind(s, p) < j < s.len() ==> !p(#[trigger] s[j]),
{
    lemma_rfind_range(s, p);
}

/// Whether one of `styles` is `inline`.
pub open spec fn has_inline_style(styles: Seq<String>) -> bool {
    exists|i: int| 0 <= i < styles.len() && #[trigger] styles[i]@ == seq!['i', 'n', 'l', 'i', 'n', 'e']
}

/// Exec check of `has_inline_style`.
pub fn contains_inline(styles: &Vec<String>) -> (r: bool)
    ensures
        r == has_inline_style(styles@),
{
    let inl = String::from_str("inline");
    proof {
        reveal_strlit("inline");
    }
    assert(inl@ =~= seq!['i', 'n', 'l', 'i', 'n', 'e']);
    let mut i: usize = 0;
    while i < styles.len()
        invariant
            i <= styles@.len(),
            inl@ =~= seq!['i', 'n', 'l', 'i', 'n', 'e'],
            forall|j: int| 0 <= j < i ==> #[trigger] styles@[j]@ != seq!['i', 'n', 'l', 'i', 'n', 'e'],
        decreases styles@.len() - i,
    {
        if styles[i] == inl {
            return true;
        }
        i = i + 1;
    }
    false
}

/// `new` agrees with `old` everywhere but at index `k`.
pub open spec fn updated_at<X>(old: Seq<X>, new: Seq<X>, k: int) -> bool {
    &&& new.len() == old.len()
    &&& forall|j: int| 0 <= j < old.len() && j != k ==> #[trigger] new[j] == old[j]
}

/// The problem state of the frame at `k`.
pub open spec fn problem_at<T, A, F>(s: Seq<Narrative<T, A, F>>, k: int) -> ProblemState<T, A, F> {
    s[k]->Problem_0
}

/// `new` is `old` with one "not in problem" error carrying `code` appended.
pub open spec fn problem_error_pushed(old: Seq<FTMLError>, new: Seq<FTMLError>, code: Seq<char>) -> bool {
    &&& new.len() == old.len() + 1
    &&& new.drop_last() =~= old
    &&& new.last() matches FTMLError::NotInProblem(c) && c@ == code
}

/// `new` is `old` with one error appended that satisfies `p`.
pub open spec fn error_pushed(old: Seq<FTMLError>, new: Seq<FTMLError>, p: spec_fn(FTMLError) -> bool) -> bool {
    &&& new.len() == old.len() + 1
    &&& new.drop_last() =~= old
    &&& p(new.last())
}

/// `n` is `o` with `e` added to the innermost frame that takes children.
pub open spec fn child_added<T, A, F>(o: Seq<Narrative<T, A, F>>, n: Seq<Narrative<T, A, F>>, e: DocumentElement<T, A, F>) -> bool {
    let k = rfind(o, |f: Narrative<T, A, F>| takes_children(f));
    &&& 0 <= k < o.len()
    &&& updated_at(o, n, k)
    &&& same_but_children(n[k], o[k])
    &&& children_view(n[k]) =~= children_view(o[k]).push(e)
}

/// `new` is `old` with one frame pushed.
pub open spec fn pushed<X>(old: Seq<X>, new: Seq<X>) -> bool {
    new.len() == old.len() + 1 && new.drop_last() =~= old
}

/// `new` is `old` with its top popped if the top satisfies `p`, else `old`.
pub open spec fn pop_if<X>(old: Seq<X>, new: Seq<X>, p: spec_fn(X) -> bool) -> bool {
    if old.len() > 0 && p(old.last()) {
        new =~= old.drop_last()
    } else {
        new =~= old
    }
}

/// `p` is a problem just opened for `uri`.
pub open spec fn fresh_problem<T, A, F>(p: ProblemState<T, A, F>, uri: String) -> bool {
    &&& p.uri == uri
    &&& p.solutions@.len() == 0
    &&& p.gnotes@.len() == 0
    &&& p.gnote is None
    &&& p.choice_block is None
    &&& p.fillinsol is None
    &&& p.hints@.len() == 0
    &&& p.title is None
    &&& p.children@.len() == 0
    &&& p.preconditions@.len() == 0
    &&& p.objectives@.len() == 0
}

} // verus!
