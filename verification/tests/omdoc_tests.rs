use flams::extractor::{DocumentElement, DocumentRange};
use flams::omdoc::OMDocElement;

type Elem = DocumentElement<u32, u32, u32>;

fn range() -> DocumentRange {
    DocumentRange { start: 0, end: 10 }
}

#[test]
fn outlines_flatten_skipped_sections_and_gather_uses() {
    let children: Vec<Elem> = vec![
        DocumentElement::UseModule("m1".to_string()),
        DocumentElement::Section {
            range: range(),
            level: 1,
            title: None,
            uri: "s".to_string(),
            children: vec![
                DocumentElement::ImportModule("x".to_string()),
                DocumentElement::TopTerm { uri: "t".to_string(), term: 5 },
                DocumentElement::UseModule("m2".to_string()),
            ],
        },
        DocumentElement::SkipSection(vec![
            DocumentElement::UseModule("m1".to_string()),
            DocumentElement::SymbolDeclaration("sym".to_string()),
            DocumentElement::Module {
                range: range(),
                module: "mod".to_string(),
                children: vec![
                    DocumentElement::ImportModule("i1".to_string()),
                    DocumentElement::ImportModule("i1".to_string()),
                    DocumentElement::UseModule("u".to_string()),
                ],
            },
        ]),
        DocumentElement::SetSectionLevel(2),
        DocumentElement::DocumentReference { id: "doc#r".to_string(), range: range(), target: "other".to_string() },
    ];
    let mut uses = vec!["m0".to_string()];
    let mut imports = Vec::new();
    let out = OMDocElement::do_children(children, &mut uses, &mut imports);
    assert_eq!(uses, vec!["m0".to_string(), "m1".to_string()]);
    assert!(imports.is_empty());
    assert_eq!(out.len(), 4);
    match &out[0] {
        OMDocElement::Section { uri, uses, children, .. } => {
            assert_eq!(uri, "s");
            assert_eq!(uses, &vec!["m2".to_string()]);
            assert_eq!(children.len(), 1);
            assert!(matches!(&children[0], OMDocElement::TopTerm { uri, term: 5 } if uri == "t"));
        },
        _ => panic!("expected a section"),
    }
    assert!(matches!(&out[1], OMDocElement::SymbolDeclaration(s) if s == "sym"));
    match &out[2] {
        OMDocElement::Module { uri, imports, uses, children } => {
            assert_eq!(uri, "mod");
            assert_eq!(imports, &vec!["i1".to_string()]);
            assert_eq!(uses, &vec!["u".to_string()]);
            assert!(children.is_empty());
        },
        _ => panic!("expected a module"),
    }
    assert!(matches!(&out[3], OMDocElement::DocumentReference { uri } if uri == "other"));
}

#[test]
fn structures_extend_what_they_import() {
    let children: Vec<Elem> = vec![DocumentElement::MathStructure {
        range: range(),
        structure: "st".to_string(),
        children: vec![
            DocumentElement::ImportModule("base".to_string()),
            DocumentElement::Variable {
                uri: "v".to_string(),
                name_steps: vec!["v".to_string()],
                is_seq: true,
                bind: false,
                tp: Some(1),
                df: None,
            },
        ],
    }];
    let (mut uses, mut imports) = (Vec::new(), Vec::new());
    let out = OMDocElement::do_children(children, &mut uses, &mut imports);
    assert!(uses.is_empty() && imports.is_empty());
    match &out[0] {
        OMDocElement::Structure { uri, extends, children, .. } => {
            assert_eq!(uri, "st");
            assert_eq!(extends, &vec!["base".to_string()]);
            assert!(matches!(&children[0], OMDocElement::Variable { is_seq: true, tp: Some(1), df: None, .. }));
        },
        _ => panic!("expected a structure"),
    }
}
