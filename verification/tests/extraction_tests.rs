use flams::closing::{NodeInfo, NotationTarget, OpenFTMLElement};
use flams::counters::SectionLevel;
use flams::extractor::{
    contains_inline, ArgMode, CognitiveDimension, Content, DocumentElement, FillInCase, DocumentRange, ExtractorState, FTMLError, Narrative,
    DocumentStyle, NarrativeUri, NotationSpec, SectionCounter, OpenDeclaration, ParagraphKind, SolutionData, TermOrList,
};

type State = ExtractorState<u32, u32, u32>;

fn range(start: usize, end: usize) -> DocumentRange {
    DocumentRange { start, end }
}

fn node(term: Option<u32>) -> NodeInfo<u32> {
    NodeInfo {
        range: range(10, 40),
        inner_range: range(15, 35),
        string: "<div>x</div>".to_string(),
        inner_string: "x".to_string(),
        term,
        notation: None,
        op_notation: None,
    }
}

/// Closes a term as itself, and a list as its length, failing when an
/// element is missing.
fn close_arg(a: TermOrList<u32>, _m: ArgMode) -> Result<u32, u32> {
    match a {
        TermOrList::Term(t) => Ok(t),
        TermOrList::List(v) => {
            if v.iter().all(|x| x.is_some()) {
                Ok(v.len() as u32)
            } else {
                Err(v.len() as u32)
            }
        },
    }
}

fn top_children(s: &State) -> usize {
    match &s.narrative[0] {
        Narrative::Container(_, c) => c.len(),
        _ => panic!("the document is not at the bottom"),
    }
}

#[test]
fn fresh_state_holds_the_document() {
    let s = State::new("https://mathhub.info?a=x&d=doc".to_string());
    assert_eq!(s.narrative.len(), 1);
    assert!(matches!(&s.narrative[0], Narrative::Container(NarrativeUri::Document(d), c)
        if d == "https://mathhub.info?a=x&d=doc" && c.is_empty()));
    assert_eq!(s.document_uri(), "https://mathhub.info?a=x&d=doc");
    assert!(!s.in_term());
    assert!(!s.in_notation());
}

#[test]
fn section_open_then_close_round_trip() {
    let mut s = State::new("doc".to_string());
    s.open_section("sec".to_string());
    assert_eq!(s.narrative.len(), 2);
    let (uri, title, children) = s.close_section().unwrap();
    assert_eq!(uri, "sec");
    assert!(title.is_none());
    assert!(children.is_empty());
    assert_eq!(s.narrative.len(), 1);
    assert!(s.close_section().is_none());
    assert_eq!(s.narrative.len(), 1);
}

#[test]
fn closing_another_kind_keeps_the_stack() {
    let mut s = State::new("doc".to_string());
    s.open_slide();
    assert!(s.close_section().is_none());
    assert!(s.close_paragraph().is_none());
    assert_eq!(s.narrative.len(), 2);
    assert!(s.close_slide().unwrap().is_empty());
    assert_eq!(s.narrative.len(), 1);
}

#[test]
fn elements_go_to_the_innermost_frame() {
    let mut s = State::new("doc".to_string());
    s.add_document_element(DocumentElement::UseModule("m".to_string()));
    assert_eq!(top_children(&s), 1);
    s.open_section("sec".to_string());
    s.add_document_element(DocumentElement::SetSectionLevel(2));
    let (_, _, children) = s.close_section().unwrap();
    assert_eq!(children.len(), 1);
    assert!(matches!(children[0], DocumentElement::SetSectionLevel(2)));
    assert_eq!(top_children(&s), 1);
}

#[test]
fn titles_go_to_sections() {
    let mut s = State::new("doc".to_string());
    assert!(s.add_title(range(1, 2)).is_err());
    s.open_section("sec".to_string());
    assert!(s.add_title(range(3, 4)).is_ok());
    let (_, title, _) = s.close_section().unwrap();
    assert_eq!(title, Some(range(3, 4)));
}

#[test]
fn problems_collect_hints_and_solutions() {
    let mut s = State::new("doc".to_string());
    assert!(!s.push_hint(range(0, 1)));
    s.open_problem("prob".to_string());
    assert!(s.push_hint(range(5, 6)));
    assert!(s.push_solution(SolutionData::Solution { html: "<p/>".to_string(), answer_class: None }));
    s.add_precondition("sym".to_string(), CognitiveDimension::Apply);
    s.add_objective("sym2".to_string(), CognitiveDimension::Create);
    let p = s.close_problem().unwrap();
    assert_eq!(p.uri, "prob");
    assert_eq!(p.hints, vec![range(5, 6)]);
    assert_eq!(p.solutions.len(), 1);
    assert_eq!(p.preconditions.len(), 1);
    assert_eq!(p.preconditions[0].0, CognitiveDimension::Apply);
    assert_eq!(p.objectives[0].1, "sym2");
}

#[test]
fn paragraphs_record_their_symbols() {
    let mut s = State::new("doc".to_string());
    s.open_paragraph("par".to_string(), vec!["a".to_string(), "b".to_string()]);
    let p = s.close_paragraph().unwrap();
    assert_eq!(p.uri, "par");
    assert_eq!(p.fors.len(), 2);
    assert_eq!(p.fors[1].0, "b");
    assert!(p.fors[1].1.is_none());
}

#[test]
fn take_gives_the_document() {
    let mut s = State::new("doc".to_string());
    s.add_document_element(DocumentElement::UseModule("m".to_string()));
    match s.take() {
        Ok((uri, elems, modules, styles)) => {
            assert_eq!(uri, "doc");
            assert_eq!(elems.len(), 1);
            assert!(modules.is_empty());
            assert!(styles.counters.is_empty() && styles.styles.is_empty());
        },
        Err(_) => panic!("a state with only the document gives it back"),
    }
}

#[test]
fn take_fails_with_open_frames() {
    let mut s = State::new("doc".to_string());
    s.open_section("sec".to_string());
    assert!(s.take().is_err());
}

#[test]
fn errors_are_recorded_in_order() {
    let mut s = State::new("doc".to_string());
    s.add_error(FTMLError::NotInContent);
    s.add_error(FTMLError::IncompleteArgs(2));
    assert_eq!(s.errors.len(), 2);
    assert!(matches!(s.errors[1], FTMLError::IncompleteArgs(2)));
}

#[test]
fn inline_style_detection() {
    assert!(contains_inline(&vec!["a".to_string(), "inline".to_string()]));
    assert!(!contains_inline(&vec!["inlined".to_string()]));
    assert!(!contains_inline(&vec![]));
}

#[test]
fn closing_invisible_deletes_outside_terms() {
    let mut s = State::new("doc".to_string());
    let mut next = Vec::new();
    let mut prev = Vec::new();
    let (passed, effect) = OpenFTMLElement::Invisible.close(&mut s, &mut prev, &mut next, node(None), &close_arg);
    assert!(passed.is_none());
    assert!(effect.delete);
    s.set_in_term(true);
    let (_, effect) = OpenFTMLElement::Invisible.close(&mut s, &mut prev, &mut next, node(None), &close_arg);
    assert!(!effect.delete);
}

#[test]
fn closing_doctitle_asks_for_the_title() {
    let mut s = State::new("doc".to_string());
    let mut next = Vec::new();
    let mut prev = Vec::new();
    let (passed, effect) = OpenFTMLElement::Doctitle.close(&mut s, &mut prev, &mut next, node(None), &close_arg);
    assert!(passed.is_none());
    assert_eq!(effect.title, Some("x".to_string()));
    assert_eq!(top_children(&s), 0);
}

#[test]
fn closing_a_section_element_adds_the_section() {
    let mut s = State::new("doc".to_string());
    s.open_section("sec".to_string());
    let mut next = Vec::new();
    let mut prev = Vec::new();
    let e: OpenFTMLElement<u32> = OpenFTMLElement::Section { lvl: 3, uri: "sec".to_string() };
    let _ = e.close(&mut s, &mut prev, &mut next, node(None), &close_arg);
    assert_eq!(s.narrative.len(), 1);
    match &s.narrative[0] {
        Narrative::Container(_, c) => match &c[0] {
            DocumentElement::Section { range: r, level, uri, .. } => {
                assert_eq!(*r, range(10, 40));
                assert_eq!(*level, 3);
                assert_eq!(uri, "sec");
            },
            _ => panic!("expected a section"),
        },
        _ => panic!("the document is not at the bottom"),
    }
}

#[test]
fn closing_a_paragraph_element_keeps_its_kind() {
    let mut s = State::new("doc".to_string());
    s.open_paragraph("par".to_string(), vec![]);
    let mut next = Vec::new();
    let mut prev = Vec::new();
    let e: OpenFTMLElement<u32> =
        OpenFTMLElement::Paragraph { uri: "par".to_string(), kind: ParagraphKind::Example, styles: vec![] };
    let _ = e.close(&mut s, &mut prev, &mut next, node(None), &close_arg);
    match &s.narrative[0] {
        Narrative::Container(_, c) => {
            assert!(matches!(&c[0], DocumentElement::Paragraph { kind: ParagraphKind::Example, .. }));
        },
        _ => panic!("the document is not at the bottom"),
    }
}

#[test]
fn closing_a_section_outside_one_is_an_error() {
    let mut s = State::new("doc".to_string());
    let mut next = Vec::new();
    let mut prev = Vec::new();
    let e: OpenFTMLElement<u32> = OpenFTMLElement::Section { lvl: 1, uri: "sec".to_string() };
    let _ = e.close(&mut s, &mut prev, &mut next, node(None), &close_arg);
    assert_eq!(s.errors.len(), 1);
    assert!(matches!(s.errors[0], FTMLError::NotInNarrative));
}

#[test]
fn a_nested_term_is_handed_on_closed() {
    let mut s = State::new("doc".to_string());
    let (mut prev, mut next) = (Vec::new(), Vec::new());
    let e: OpenFTMLElement<u32> = OpenFTMLElement::OpenTerm { term: 7, is_top: false, top_uri: None, is_reference: false };
    let (passed, effect) = e.close(&mut s, &mut prev, &mut next, node(None), &close_arg);
    assert!(matches!(passed, Some(OpenFTMLElement::ClosedTerm(7))));
    assert!(!effect.delete && !effect.delete_children && effect.title.is_none());
    assert_eq!(top_children(&s), 0);
}

#[test]
fn a_top_term_becomes_an_element_and_ends_term_mode() {
    let mut s = State::new("doc".to_string());
    s.set_in_term(true);
    let (mut prev, mut next) = (Vec::new(), Vec::new());
    let e: OpenFTMLElement<u32> =
        OpenFTMLElement::OpenTerm { term: 7, is_top: true, top_uri: Some("doc#term".to_string()), is_reference: false };
    let (passed, _) = e.close(&mut s, &mut prev, &mut next, node(None), &close_arg);
    assert!(passed.is_none());
    assert!(!s.in_term());
    match &s.narrative[0] {
        Narrative::Container(_, c) => match &c[0] {
            DocumentElement::TopTerm { uri, term } => {
                assert_eq!(uri, "doc#term");
                assert_eq!(*term, 7);
            },
            _ => panic!("expected a top-level term"),
        },
        _ => panic!("the document is not at the bottom"),
    }
}

#[test]
fn a_top_reference_term_adds_nothing() {
    let mut s = State::new("doc".to_string());
    s.set_in_term(true);
    let (mut prev, mut next) = (Vec::new(), Vec::new());
    let e: OpenFTMLElement<u32> =
        OpenFTMLElement::OpenTerm { term: 7, is_top: true, top_uri: Some("doc#term".to_string()), is_reference: true };
    let _ = e.close(&mut s, &mut prev, &mut next, node(None), &close_arg);
    assert!(!s.in_term());
    assert_eq!(top_children(&s), 0);
    let e: OpenFTMLElement<u32> = OpenFTMLElement::OpenTerm { term: 7, is_top: true, top_uri: None, is_reference: false };
    s.set_in_term(true);
    let _ = e.close(&mut s, &mut prev, &mut next, node(None), &close_arg);
    assert!(s.in_term());
    assert!(matches!(&s.errors[0], FTMLError::InvalidURI(m) if m == "(should be impossible)"));
}

#[test]
fn an_input_reference_drops_invisible_siblings() {
    let mut s = State::new("doc".to_string());
    let mut prev: Vec<OpenFTMLElement<u32>> =
        vec![OpenFTMLElement::Invisible, OpenFTMLElement::Comp, OpenFTMLElement::Invisible, OpenFTMLElement::ArgSep];
    let mut next = Vec::new();
    let e: OpenFTMLElement<u32> =
        OpenFTMLElement::Inputref { uri: "other".to_string(), id: "x".to_string(), joined: Some("doc#x".to_string()) };
    let _ = e.close(&mut s, &mut prev, &mut next, node(None), &close_arg);
    assert_eq!(prev.len(), 2);
    assert!(matches!(prev[0], OpenFTMLElement::Comp));
    assert!(matches!(prev[1], OpenFTMLElement::ArgSep));
    match &s.narrative[0] {
        Narrative::Container(_, c) => match &c[0] {
            DocumentElement::DocumentReference { id, range: r, target } => {
                assert_eq!(id, "doc#x");
                assert_eq!(*r, range(10, 40));
                assert_eq!(target, "other");
            },
            _ => panic!("expected a document reference"),
        },
        _ => panic!("the document is not at the bottom"),
    }
}

#[test]
fn an_input_reference_without_uri_is_an_error() {
    let mut s = State::new("doc".to_string());
    let mut prev: Vec<OpenFTMLElement<u32>> = vec![OpenFTMLElement::Invisible];
    let mut next = Vec::new();
    let e: OpenFTMLElement<u32> = OpenFTMLElement::Inputref { uri: "other".to_string(), id: "x y".to_string(), joined: None };
    let _ = e.close(&mut s, &mut prev, &mut next, node(None), &close_arg);
    assert_eq!(prev.len(), 1);
    assert_eq!(top_children(&s), 0);
    assert!(matches!(&s.errors[0], FTMLError::InvalidURI(m) if m == "5: x y"));
}

fn spec_with_index(attribute_index: u8) -> NotationSpec {
    NotationSpec { attribute_index, inner_index: 0, is_text: false, components: vec![] }
}

#[test]
fn a_notation_of_a_symbol_is_recorded() {
    let mut s = State::new("doc".to_string());
    s.open_notation();
    assert!(s.add_notation(spec_with_index(2)).is_ok());
    let (mut prev, mut next) = (Vec::new(), Vec::new());
    let e: OpenFTMLElement<u32> = OpenFTMLElement::Notation {
        id: "n".to_string(),
        joined: Some("doc#n".to_string()),
        target: NotationTarget::Symbol("sym".to_string()),
        precedence: -5,
        argprecs: vec![3, 4],
    };
    let _ = e.close(&mut s, &mut prev, &mut next, node(None), &close_arg);
    assert_eq!(s.narrative.len(), 1);
    match &s.narrative[0] {
        Narrative::Container(_, c) => match &c[0] {
            DocumentElement::Notation { symbol, id, notation, precedence, argprecs } => {
                assert_eq!(*precedence, -5);
                assert_eq!(argprecs, &vec![3, 4]);
                assert_eq!(symbol, "sym");
                assert_eq!(id, "doc#n");
                assert_eq!(notation.attribute_index, 2);
            },
            _ => panic!("expected a notation"),
        },
        _ => panic!("the document is not at the bottom"),
    }
}

#[test]
fn notations_without_components_or_outside_a_notation_are_errors() {
    let mut s = State::new("doc".to_string());
    let (mut prev, mut next) = (Vec::new(), Vec::new());
    let mk = || -> OpenFTMLElement<u32> {
        OpenFTMLElement::Notation {
            id: "n".to_string(),
            joined: Some("doc#n".to_string()),
            target: NotationTarget::Symbol("sym".to_string()),
            precedence: 0,
            argprecs: vec![],
        }
    };
    let _ = mk().close(&mut s, &mut prev, &mut next, node(None), &close_arg);
    assert!(matches!(s.errors[0], FTMLError::NotInNarrative));
    s.open_notation();
    let _ = mk().close(&mut s, &mut prev, &mut next, node(None), &close_arg);
    assert_eq!(s.narrative.len(), 1);
    assert!(matches!(s.errors[1], FTMLError::NotInNarrative));
    s.open_notation();
    assert!(s.add_notation(spec_with_index(1)).is_ok());
    let e: OpenFTMLElement<u32> =
        OpenFTMLElement::Notation {
            id: "a b".to_string(),
            joined: None,
            target: NotationTarget::Variable("v".to_string()),
            precedence: 0,
            argprecs: vec![],
        };
    let _ = e.close(&mut s, &mut prev, &mut next, node(None), &close_arg);
    assert!(matches!(&s.errors[2], FTMLError::InvalidURI(m) if m == "6: a b"));
    assert_eq!(top_children(&s), 0);
}

#[test]
fn a_notation_of_an_unknown_variable_is_an_error() {
    let mut s = State::new("doc".to_string());
    s.open_notation();
    assert!(s.add_notation(spec_with_index(1)).is_ok());
    let (mut prev, mut next) = (Vec::new(), Vec::new());
    let e: OpenFTMLElement<u32> = OpenFTMLElement::Notation {
        id: "n".to_string(),
        joined: Some("doc#n".to_string()),
        target: NotationTarget::VariableName(vec!["x".to_string()]),
        precedence: 0,
        argprecs: vec![],
    };
    let _ = e.close(&mut s, &mut prev, &mut next, node(None), &close_arg);
    assert!(matches!(&s.errors[0], FTMLError::UnresolvedVariable(n) if n == &vec!["x".to_string()]));
    assert_eq!(top_children(&s), 0);
}

fn in_structure() -> State {
    let mut s = State::new("doc".to_string());
    s.open_content("mod".to_string());
    s.open_narrative(Some(NarrativeUri::Element("doc#mod".to_string())));
    s.open_content("st".to_string());
    s.open_narrative(None);
    s
}

#[test]
fn closing_a_structure_adds_element_and_declaration() {
    let mut s = in_structure();
    let (mut prev, mut next) = (Vec::new(), Vec::new());
    let e: OpenFTMLElement<u32> = OpenFTMLElement::MathStructure { uri: "st".to_string(), extension: None };
    let _ = e.close(&mut s, &mut prev, &mut next, node(None), &close_arg);
    assert!(s.errors.is_empty());
    assert_eq!(s.narrative.len(), 2);
    assert_eq!(s.content.len(), 1);
    match &s.narrative[1] {
        Narrative::Container(_, c) => assert!(
            matches!(&c[0], DocumentElement::MathStructure { structure, range: r, .. } if structure == "st" && *r == range(10, 40))
        ),
        _ => panic!("expected the module's narrative"),
    }
    match &s.content[0] {
        Content::Container(_, d) => assert!(matches!(&d[0], OpenDeclaration::MathStructure { uri, .. } if uri == "st")),
        _ => panic!("expected the module's content"),
    }
}

#[test]
fn closing_an_extension_names_its_target() {
    let mut s = in_structure();
    let (mut prev, mut next) = (Vec::new(), Vec::new());
    let e: OpenFTMLElement<u32> =
        OpenFTMLElement::MathStructure { uri: "EXTSTRUCT_st".to_string(), extension: Some(Some("base".to_string())) };
    let _ = e.close(&mut s, &mut prev, &mut next, node(None), &close_arg);
    assert!(s.errors.is_empty());
    match &s.narrative[1] {
        Narrative::Container(_, c) => assert!(
            matches!(&c[0], DocumentElement::Extension { extension, target, .. } if extension == "EXTSTRUCT_st" && target == "base")
        ),
        _ => panic!("expected the module's narrative"),
    }
    match &s.content[0] {
        Content::Container(_, d) => assert!(matches!(&d[0], OpenDeclaration::Extension { target, .. } if target == "base")),
        _ => panic!("expected the module's content"),
    }
}

#[test]
fn an_extension_without_target_is_an_error() {
    let mut s = in_structure();
    let (mut prev, mut next) = (Vec::new(), Vec::new());
    let e: OpenFTMLElement<u32> = OpenFTMLElement::MathStructure { uri: "EXTSTRUCT_st".to_string(), extension: Some(None) };
    let _ = e.close(&mut s, &mut prev, &mut next, node(None), &close_arg);
    assert_eq!(s.narrative.len(), 2);
    assert_eq!(s.content.len(), 1);
    assert!(matches!(s.errors[0], FTMLError::NotInContent));
    match &s.narrative[1] {
        Narrative::Container(_, c) => assert!(c.is_empty()),
        _ => panic!("expected the module's narrative"),
    }
}

#[test]
fn a_fill_in_case_gets_its_feedback() {
    let mut s = State::new("doc".to_string());
    s.open_problem("prob".to_string());
    s.open_fillinsol();
    s.push_fillinsol_case(FillInCase::Regex { regex: "a+".to_string(), verdict: true, feedback: String::new() });
    s.push_fillinsol_case(FillInCase::NumericalRange { range: 3, verdict: false, feedback: String::new() });
    let (mut prev, mut next) = (Vec::new(), Vec::new());
    let (passed, effect) = OpenFTMLElement::FillinsolCase.close(&mut s, &mut prev, &mut next, node(None), &close_arg);
    assert!(passed.is_none());
    assert!(effect.delete);
    assert!(s.errors.is_empty());
    match &s.narrative[1] {
        Narrative::Problem(p) => {
            let cases = &p.fillinsol.as_ref().unwrap().cases;
            assert!(matches!(&cases[0], FillInCase::Regex { feedback, .. } if feedback.is_empty()));
            assert!(matches!(&cases[1], FillInCase::NumericalRange { range: 3, verdict: false, feedback } if feedback == "x"));
        },
        _ => panic!("expected the problem"),
    }
}

#[test]
fn a_fill_in_case_outside_a_block_is_an_error() {
    let mut s = State::new("doc".to_string());
    s.open_problem("prob".to_string());
    let (mut prev, mut next) = (Vec::new(), Vec::new());
    let _ = OpenFTMLElement::FillinsolCase.close(&mut s, &mut prev, &mut next, node(None), &close_arg);
    assert!(matches!(&s.errors[0], FTMLError::NotInProblem(c) if c == "k"));
}

#[test]
fn closing_arguments_closes_each_and_reports_gaps() {
    let mut s = State::new("doc".to_string());
    s.open_args();
    assert!(s.add_arg(1, None, 5, ArgMode::Normal).is_ok());
    assert!(s.add_arg(2, Some(2), 7, ArgMode::Sequence).is_ok());
    assert!(s.add_arg(4, None, 9, ArgMode::Normal).is_ok());
    let (args, head) = s.close_args(&close_arg);
    assert_eq!(args, vec![5, 3]);
    assert!(head.is_none());
    assert!(s.content.is_empty());
    assert_eq!(s.errors.len(), 2);
    assert!(matches!(s.errors[0], FTMLError::IncompleteArgs(1)));
    assert!(matches!(s.errors[1], FTMLError::IncompleteArgs(2)));
}

#[test]
fn closing_arguments_without_a_list_gives_nothing() {
    let mut s = State::new("doc".to_string());
    s.open_content("m".to_string());
    let (args, head) = s.close_args(&close_arg);
    assert!(args.is_empty() && head.is_none());
    assert_eq!(s.content.len(), 1);
    assert!(s.errors.is_empty());
}

#[test]
fn an_mmt_rule_closes_and_drops_its_arguments() {
    let mut s = State::new("doc".to_string());
    s.open_args();
    assert!(s.add_arg(1, Some(2), 7, ArgMode::Sequence).is_ok());
    let (mut prev, mut next) = (Vec::new(), Vec::new());
    let e: OpenFTMLElement<u32> = OpenFTMLElement::MMTRule("r".to_string());
    let _ = e.close(&mut s, &mut prev, &mut next, node(None), &close_arg);
    assert!(s.content.is_empty());
    assert!(matches!(s.errors[..], [FTMLError::IncompleteArgs(1)]));
}

#[test]
fn take_gives_the_declared_styles() {
    let mut s = State::new("doc".to_string());
    s.add_counter(SectionCounter { name: "thm".to_string(), parent: Some(SectionLevel::Section) });
    s.add_style(DocumentStyle { kind: ParagraphKind::Definition, name: Some("remark".to_string()), counter: Some("thm".to_string()) });
    s.open_section("sec".to_string());
    let e: OpenFTMLElement<u32> = OpenFTMLElement::Section { lvl: 1, uri: "sec".to_string() };
    let (mut prev, mut next) = (Vec::new(), Vec::new());
    let _ = e.close(&mut s, &mut prev, &mut next, node(None), &close_arg);
    match s.take() {
        Ok((_, _, _, styles)) => {
            assert_eq!(styles.counters.len(), 1);
            assert_eq!(styles.counters[0].name, "thm");
            assert!(matches!(styles.counters[0].parent, Some(SectionLevel::Section)));
            assert_eq!(styles.styles.len(), 1);
            assert_eq!(styles.styles[0].name, Some("remark".to_string()));
            assert_eq!(styles.styles[0].counter, Some("thm".to_string()));
        },
        Err(_) => panic!("a state with only the document gives it back"),
    }
}

#[test]
fn argument_positions_are_checked_only_on_an_argument_list() {
    let mut s = State::new("doc".to_string());
    assert!(s.add_arg(0, Some(0), 1, ArgMode::Normal).is_err());
    s.open_args();
    assert!(s.add_arg(1, None, 1, ArgMode::Normal).is_ok());
    assert!(s.add_arg(1, Some(0), 2, ArgMode::Normal).is_err());
}
