use flams::annotations::{Annot, LineCol, NotationArgs, SourceRange, SymdeclArgs, TokenKind};

fn r(line: u32, c1: u32, c2: u32) -> SourceRange {
    SourceRange { start: LineCol { line, col: c1 }, end: LineCol { line, col: c2 } }
}

fn no_args() -> SymdeclArgs {
    SymdeclArgs {
        name: None,
        args: None,
        tp: None,
        df: None,
        return_: None,
        style: None,
        assoc: None,
        role: None,
        reorder: None,
        argtypes: None,
    }
}

fn no_notation_args() -> NotationArgs {
    NotationArgs { id: None, prec: None, op: None }
}

#[test]
fn declaration_arguments_come_in_source_order() {
    let mut args = no_args();
    args.name = Some((r(1, 20, 24), r(1, 25, 28)));
    args.tp = Some((r(1, 14, 16), r(1, 17, 19), vec![Annot::SemanticMacro { token_range: r(1, 17, 19) }]));
    let a = Annot::Symdecl { token_range: r(1, 0, 8), main_name_range: r(1, 9, 12), args };
    assert_eq!(
        a.semantic_tokens(),
        vec![
            (r(1, 0, 8), TokenKind::Declaration),
            (r(1, 9, 12), TokenKind::Name),
            (r(1, 14, 16), TokenKind::Keyword),
            (r(1, 17, 19), TokenKind::Symbol),
            (r(1, 20, 24), TokenKind::Keyword),
            (r(1, 25, 28), TokenKind::Name),
        ]
    );
}

#[test]
fn modules_end_with_their_end_macro() {
    let child = Annot::SymName { token_range: r(1, 0, 7), name_range: r(1, 8, 11) };
    let full = SourceRange { start: LineCol { line: 0, col: 0 }, end: LineCol { line: 3, col: 13 } };
    let a = Annot::Module { smodule_range: r(0, 0, 14), name_range: r(0, 15, 18), full_range: full, children: vec![child] };
    assert_eq!(
        a.semantic_tokens(),
        vec![
            (r(0, 0, 14), TokenKind::Declaration),
            (r(0, 15, 18), TokenKind::Name),
            (r(1, 0, 7), TokenKind::RefMacro),
            (r(1, 8, 11), TokenKind::Symbol),
            (r(3, 5, 12), TokenKind::Declaration),
        ]
    );
}

#[test]
fn structures_end_by_their_kind() {
    let full = SourceRange { start: LineCol { line: 0, col: 0 }, end: LineCol { line: 2, col: 20 } };
    let mk = |extends: bool| Annot::MathStructure {
        mathstructure_range: r(0, 0, 16),
        name_range: r(0, 17, 20),
        real_name_range: Some(r(0, 22, 25)),
        full_range: full,
        extends,
        children: vec![Annot::ImportModule { token_range: r(1, 0, 13) }],
    };
    let t = mk(false).semantic_tokens();
    assert_eq!(t.len(), 5);
    assert_eq!(t[2], (r(0, 22, 25), TokenKind::Name));
    assert_eq!(t[3], (r(1, 0, 13), TokenKind::Declaration));
    assert_eq!(t[4], (r(2, 6, 19), TokenKind::Declaration));
    assert_eq!(mk(true).semantic_tokens()[4], (r(2, 7, 19), TokenKind::Declaration));
}

#[test]
fn notation_arguments_are_keywords_and_names() {
    let mut n = no_notation_args();
    n.id = Some((r(2, 20, 22), r(2, 23, 25)));
    n.prec = Some((r(2, 14, 18), r(2, 19, 20)));
    let a = Annot::Notation {
        token_range: r(2, 0, 9),
        name_range: r(2, 10, 13),
        notation_args: n,
        notation: vec![Annot::SemanticMacro { token_range: r(2, 30, 33) }],
    };
    assert_eq!(
        a.semantic_tokens(),
        vec![
            (r(2, 0, 9), TokenKind::Declaration),
            (r(2, 10, 13), TokenKind::Symbol),
            (r(2, 14, 18), TokenKind::Keyword),
            (r(2, 19, 20), TokenKind::Keyword),
            (r(2, 20, 22), TokenKind::Name),
            (r(2, 30, 33), TokenKind::Symbol),
        ]
    );
}

#[test]
fn definitions_mix_declaration_and_notation_arguments() {
    let mut args = no_args();
    args.reorder = Some((r(0, 40, 47), r(0, 48, 50)));
    args.role = Some((r(0, 30, 34), r(0, 35, 39)));
    let mut n = no_notation_args();
    n.op = Some((r(0, 20, 22), r(0, 23, 26)));
    let a = Annot::Symdef {
        token_range: r(0, 0, 7),
        main_name_range: r(0, 8, 11),
        args,
        notation_args: n,
        notation: vec![],
    };
    assert_eq!(
        a.semantic_tokens(),
        vec![
            (r(0, 0, 7), TokenKind::Declaration),
            (r(0, 8, 11), TokenKind::Name),
            (r(0, 20, 22), TokenKind::Keyword),
            (r(0, 30, 34), TokenKind::Keyword),
            (r(0, 35, 39), TokenKind::Keyword),
            (r(0, 40, 47), TokenKind::Keyword),
        ]
    );
    for t in [Annot::SetMetatheory { token_range: r(5, 0, 3) }, Annot::UseModule { token_range: r(5, 0, 3) }, Annot::Inputref { token_range: r(5, 0, 3) }] {
        assert_eq!(t.semantic_tokens(), vec![(r(5, 0, 3), TokenKind::Declaration)]);
    }
}
