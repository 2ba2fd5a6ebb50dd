use flams::counters::{
    get_counter, next_level, section_class, section_style, update, AllSections, LogicalLevel, SectionCounters,
    SectionLevel,
};
use flams::extractor::ParagraphKind;
use flams::toc::{covered_gottos, find_inputref, inputref_titles, iter_elems, toc_marks, Gotto, Gottos, TOCElem};

fn styles_map() -> Vec<((ParagraphKind, Option<String>), Option<String>)> {
    vec![
        ((ParagraphKind::Definition, None), Some("def".to_string())),
        ((ParagraphKind::Definition, Some("thm".to_string())), Some("thmcnt".to_string())),
        ((ParagraphKind::Example, Some("ex".to_string())), None),
    ]
}

#[test]
fn section_levels_step_down() {
    assert_eq!(SectionLevel::Part.index(), 0);
    assert_eq!(SectionLevel::Subparagraph.index(), 6);
    assert_eq!(SectionLevel::Section.inc(), SectionLevel::Subsection);
    assert_eq!(SectionLevel::Subparagraph.inc(), SectionLevel::Subparagraph);
    assert_eq!(next_level(LogicalLevel::NoLevel, SectionLevel::Chapter), Some(SectionLevel::Chapter));
    assert_eq!(next_level(LogicalLevel::Section(SectionLevel::Part), SectionLevel::Part), Some(SectionLevel::Chapter));
    assert_eq!(next_level(LogicalLevel::Paragraph, SectionLevel::Part), None);
    assert_eq!(next_level(LogicalLevel::BeamerSlide, SectionLevel::Part), None);
}

#[test]
fn all_sections_sum_restarts_lower_levels() {
    let a = AllSections([1, 2, 3, 4, 0, 0, 0]);
    let b = AllSections([0, 0, 1, 0, 0, 0, 0]);
    assert_eq!(a.plus(b).0, [1, 2, 4, 0, 0, 0, 0]);
    let c = AllSections([1, 0, 0, 0, 0, 0, 0]);
    assert_eq!(a.plus(c).0, [2, 2, 0, 0, 0, 0, 0]);
    assert_eq!(AllSections::zero().plus(AllSections::zero()).0, [0; 7]);
}

#[test]
fn plus_assign_agrees_with_plus() {
    let a = AllSections([3, 1, 4, 1, 5, 9, 2]);
    let b = AllSections([0, 0, 0, 2, 0, 1, 0]);
    let mut c = a;
    c.plus_assign(b);
    assert_eq!(c.0, a.plus(b).0);
    assert_eq!(c.0, [3, 1, 4, 3, 0, 0, 0]);
}

#[test]
fn plus_level_counts_one_section() {
    let a = AllSections([1, 2, 3, 4, 5, 6, 7]);
    assert_eq!(a.plus_level(SectionLevel::Part).0, [2, 2, 0, 0, 0, 0, 0]);
    assert_eq!(a.plus_level(SectionLevel::Subsection).0, [1, 2, 3, 5, 0, 0, 0]);
    assert_eq!(a.plus_level(SectionLevel::Subparagraph).0, [1, 2, 3, 4, 5, 6, 8]);
}

#[test]
fn section_styles_and_classes() {
    let s = AllSections([1, 2, 3, 4, 5, 0, 0]);
    assert_eq!(section_style(SectionLevel::Part, &s), Some("counter-set:ftml-part 1;".to_string()));
    assert_eq!(section_style(SectionLevel::Chapter, &s), Some("counter-set:ftml-part 1 ftml-chapter 2".to_string()));
    assert_eq!(
        section_style(SectionLevel::Subsubsection, &s),
        Some(
            "counter-set:ftml-part 1 ftml-chapter 2 ftml-section 3 ftml-subsection 4 ftml-subsubsection 5"
                .to_string()
        )
    );
    assert_eq!(section_style(SectionLevel::Paragraph, &s), None);
    assert_eq!(section_class(SectionLevel::Subsection), "ftml-subsection");
    assert_eq!(section_class(SectionLevel::Subparagraph), "ftml-subparagraph");
}

#[test]
fn paragraph_counters_by_style() {
    let m = styles_map();
    assert_eq!(get_counter(&m, ParagraphKind::Definition, &vec!["thm".to_string()]), Some("thmcnt".to_string()));
    assert_eq!(
        get_counter(&m, ParagraphKind::Definition, &vec!["thm".to_string(), "other".to_string()]),
        Some("thmcnt".to_string())
    );
    assert_eq!(get_counter(&m, ParagraphKind::Definition, &vec!["x".to_string()]), Some("def".to_string()));
    assert_eq!(get_counter(&m, ParagraphKind::Example, &vec!["ex".to_string()]), None);
    assert_eq!(get_counter(&m, ParagraphKind::Proof, &vec![]), None);
}

fn counters() -> SectionCounters {
    SectionCounters {
        current: LogicalLevel::NoLevel,
        max: SectionLevel::Section,
        sections: AllSections::zero(),
        counters: vec![("def".to_string(), 0), ("thmcnt".to_string(), 4)],
        resets: vec![(SectionLevel::Section, vec!["def".to_string()])],
        for_paras: styles_map(),
        slides: 0,
    }
}

#[test]
fn section_counters_walk() {
    let mut c = counters();
    assert_eq!(
        c.next_section(),
        (Some("counter-set:ftml-part 0 ftml-chapter 0 ftml-section 1".to_string()), Some("ftml-section"))
    );
    assert_eq!(c.current, LogicalLevel::Section(SectionLevel::Section));
    assert_eq!(c.sections.0, [0, 0, 1, 0, 0, 0, 0]);
    assert_eq!(c.get_para(ParagraphKind::Definition, &vec![]), "counter-set:ftml-def 1;");
    assert_eq!(c.get_para(ParagraphKind::Definition, &vec!["thm".to_string()]), "counter-set:ftml-thmcnt 5;");
    assert_eq!(c.get_para(ParagraphKind::Proof, &vec![]), "");
    assert_eq!(c.current, LogicalLevel::Paragraph);
    assert_eq!(c.next_section(), (Some("display:content;".to_string()), None));
    c.set_section(SectionLevel::Section);
    assert_eq!(c.sections.0, [0, 0, 2, 0, 0, 0, 0]);
    assert_eq!(c.counters[0].1, 0);
    assert_eq!(c.counters[1].1, 5);
    c.slide_inc();
    assert_eq!(c.slides, 1);
    assert_eq!(c.current, LogicalLevel::BeamerSlide);
}

fn section(uri: &str, children: Vec<TOCElem>) -> TOCElem {
    TOCElem::Section { title: Some(format!("<b>{uri}</b>")), uri: uri.to_string(), id: uri.to_string(), children }
}

fn inputref(uri: &str, id: &str, title: Option<&str>, children: Vec<TOCElem>) -> TOCElem {
    TOCElem::Inputref { uri: uri.to_string(), title: title.map(|t| t.to_string()), id: id.to_string(), children }
}

fn para(kind: ParagraphKind, styles: &[&str]) -> TOCElem {
    TOCElem::Paragraph { styles: styles.iter().map(|s| s.to_string()).collect(), kind }
}

fn sample_toc() -> Vec<TOCElem> {
    vec![
        section("a", vec![para(ParagraphKind::Definition, &[]), TOCElem::Slide]),
        inputref("doc1", "i1", Some("Doc One"), vec![section("b", vec![])]),
        TOCElem::SkippedSection { children: vec![inputref("doc2", "i2", None, vec![TOCElem::Slide])] },
        section("c", vec![]),
    ]
}

fn uri_of(e: &TOCElem) -> String {
    match e {
        TOCElem::Section { uri, .. } => format!("S:{uri}"),
        TOCElem::Inputref { uri, .. } => format!("I:{uri}"),
        TOCElem::SkippedSection { .. } => "K".to_string(),
        TOCElem::Paragraph { .. } => "P".to_string(),
        TOCElem::Slide => "L".to_string(),
    }
}

#[test]
fn toc_in_document_order() {
    let toc = sample_toc();
    let order: Vec<String> = iter_elems(&toc).into_iter().map(uri_of).collect();
    assert_eq!(order, vec!["S:a", "P", "L", "I:doc1", "S:b", "K", "I:doc2", "L", "S:c"]);
    assert!(iter_elems(&vec![]).is_empty());
}

#[test]
fn toc_inputref_lookup() {
    let toc = sample_toc();
    let found = find_inputref(&toc, &"doc2".to_string(), &"i2".to_string()).unwrap();
    assert_eq!(found.len(), 1);
    assert!(matches!(found[0], TOCElem::Slide));
    assert!(find_inputref(&toc, &"doc2".to_string(), &"i1".to_string()).is_none());
    assert_eq!(find_inputref(&toc, &"doc1".to_string(), &"i1".to_string()).unwrap().len(), 1);
}

#[test]
fn toc_inputref_titles() {
    let toc = sample_toc();
    assert_eq!(inputref_titles(&toc), vec![("doc1".to_string(), "Doc One".to_string())]);
}

fn gotto(uri: &str, ts: Option<u64>) -> Gotto {
    Gotto { uri: uri.to_string(), timestamp: ts }
}

#[test]
fn gottos_outside_the_toc_are_dropped() {
    let toc = sample_toc();
    let kept = covered_gottos(&toc, vec![gotto("zz", None), gotto("b", Some(3)), gotto("doc1", None), gotto("a", None)]);
    let uris: Vec<&str> = kept.iter().map(|g| g.uri.as_str()).collect();
    assert_eq!(uris, vec!["b", "a"]);
    assert_eq!(kept[0].timestamp, Some(3));
}

#[test]
fn gottos_advance_on_their_section() {
    let mut g = Gottos::new(vec![gotto("a", None), gotto("b", Some(1))]);
    g.next(&"x".to_string());
    assert_eq!(g.current.as_ref().unwrap().uri, "a");
    g.next(&"a".to_string());
    assert_eq!(g.current.as_ref().unwrap().uri, "b");
    assert!(g.rest.is_empty());
    g.next(&"b".to_string());
    assert!(g.current.is_none());
    let e = Gottos::new(vec![]);
    assert!(e.current.is_none());
}

#[test]
fn toc_marks_cover_up_to_the_last_gotto() {
    let toc = vec![section("a", vec![section("b", vec![])]), section("c", vec![])];
    let marks = toc_marks(&toc, vec![gotto("b", Some(5)), gotto("zzz", Some(9))]);
    assert_eq!(marks, vec![Some(Some(5)), Some(Some(5)), None]);
    let none = toc_marks(&toc, vec![gotto("zzz", Some(9))]);
    assert_eq!(none, vec![None, None, None]);
}

#[test]
fn inputref_counts_walk_the_toc() {
    let ch = vec![
        section("s", vec![para(ParagraphKind::Definition, &[]), TOCElem::Slide, section("t", vec![])]),
        TOCElem::Slide,
        para(ParagraphKind::Definition, &["thm"]),
        para(ParagraphKind::Proof, &[]),
    ];
    let since = vec![("def".to_string(), 3), ("thmcnt".to_string(), 0)];
    let r = update(&ch, LogicalLevel::NoLevel, SectionLevel::Section, since, &styles_map());
    assert_eq!(r.slides, 2);
    assert_eq!(r.sections.0, [0, 0, 1, 1, 0, 0, 0]);
    assert_eq!(r.counters, vec![("def".to_string(), 4), ("thmcnt".to_string(), 1)]);
}

#[test]
fn inputref_counts_skip_sections_inside_paragraphs() {
    let ch = vec![section("s", vec![TOCElem::Slide]), inputref("d", "i", None, vec![TOCElem::Slide])];
    let r = update(&ch, LogicalLevel::Paragraph, SectionLevel::Part, vec![], &styles_map());
    assert_eq!(r.slides, 1);
    assert_eq!(r.sections.0, [0; 7]);
}

#[test]
fn toc_order_of_concatenated_tocs() {
    let a = sample_toc();
    let b = vec![section("z", vec![TOCElem::Slide])];
    let mut ab = sample_toc();
    ab.extend(vec![section("z", vec![TOCElem::Slide])]);
    let whole: Vec<String> = iter_elems(&ab).into_iter().map(uri_of).collect();
    let mut parts: Vec<String> = iter_elems(&a).into_iter().map(uri_of).collect();
    parts.extend(iter_elems(&b).into_iter().map(uri_of));
    assert_eq!(whole, parts);
}

#[test]
fn inputref_counts_of_parts_add_up() {
    let a = vec![TOCElem::Slide, para(ParagraphKind::Definition, &[])];
    let b = vec![para(ParagraphKind::Definition, &["thm"]), TOCElem::Slide, TOCElem::Slide];
    let mut ab = a.clone_toc();
    ab.extend(b.clone_toc());
    let since = vec![("def".to_string(), 1), ("thmcnt".to_string(), 2)];
    let ra = update(&a, LogicalLevel::NoLevel, SectionLevel::Part, since.clone(), &styles_map());
    let rb = update(&b, LogicalLevel::NoLevel, SectionLevel::Part, ra.counters.clone(), &styles_map());
    let rab = update(&ab, LogicalLevel::NoLevel, SectionLevel::Part, since, &styles_map());
    assert_eq!(rab.slides, ra.slides + rb.slides);
    assert_eq!(rab.counters, rb.counters);
    assert_eq!(rab.counters, vec![("def".to_string(), 2), ("thmcnt".to_string(), 3)]);
}

trait CloneToc {
    fn clone_toc(&self) -> Vec<TOCElem>;
}

impl CloneToc for Vec<TOCElem> {
    fn clone_toc(&self) -> Vec<TOCElem> {
        self.iter()
            .map(|e| match e {
                TOCElem::Slide => TOCElem::Slide,
                TOCElem::Paragraph { styles, kind } => TOCElem::Paragraph { styles: styles.clone(), kind: *kind },
                _ => panic!("only flat entries here"),
            })
            .collect()
    }
}

#[test]
fn deeper_sections_get_their_styles_and_classes() {
    let mut c = counters();
    c.set_section(SectionLevel::Subsubsection);
    assert_eq!(c.next_section(), (None, Some("ftml-paragraph")));
    assert_eq!(c.current, LogicalLevel::Section(SectionLevel::Paragraph));
    let mut c = counters();
    c.max = SectionLevel::Part;
    assert_eq!(c.next_section(), (Some("counter-set:ftml-part 1;".to_string()), Some("ftml-part")));
}
