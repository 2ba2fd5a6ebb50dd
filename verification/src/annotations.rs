//! Semantic highlighting of sTeX sources: the annotations a parse of a
//! source file yields, and the tokens that the editor colours for them.
//!
//! An annotation holds the source ranges that the highlighting reads: the
//! ranges of its macro, of its names, of the keys and values of its
//! arguments, and the annotations nested in them.
use vstd::prelude::*;

verus! {

/// A position in a source file.
#[derive(Clone, Copy, Debug, PartialEq, Eq, Structural)]
pub struct LineCol {
    pub line: u32,
    pub col: u32,
}

/// A range of a source file.
#[derive(Clone, Copy, Debug, PartialEq, Eq, Structural)]
pub struct SourceRange {
    pub start: LineCol,
    pub end: LineCol,
}

/// The kinds of semantic tokens.
#[derive(Clone, Copy, Debug, PartialEq, Eq, Structural)]
pub enum TokenKind {
    Declaration,
    Name,
    Symbol,
    Keyword,
    RefMacro,
}

/// The key-value arguments of a symbol declaration: the ranges of each key
/// and value given, and the annotations inside the values that are terms.
pub struct SymdeclArgs {
    pub name: Option<(SourceRange, SourceRange)>,
    pub args: Option<(SourceRange, SourceRange)>,
    pub tp: Option<(SourceRange, SourceRange, Vec<Annot>)>,
    pub df: Option<(SourceRange, SourceRange, Vec<Annot>)>,
    pub return_: Option<(SourceRange, SourceRange, Vec<Annot>)>,
    pub style: Option<(SourceRange, SourceRange)>,
    pub assoc: Option<(SourceRange, SourceRange)>,
    pub role: Option<(SourceRange, SourceRange)>,
    pub reorder: Option<(SourceRange, SourceRange)>,
    pub argtypes: Option<(SourceRange, SourceRange, Vec<Annot>)>,
}

/// The key-value arguments of a notation.
pub struct NotationArgs {
    pub id: Option<(SourceRange, SourceRange)>,
    pub prec: Option<(SourceRange, SourceRange)>,
    pub op: Option<(SourceRange, SourceRange)>,
}

/// An annotation of an sTeX source.
pub enum Annot {
    Module { smodule_range: SourceRange, name_range: SourceRange, full_range: SourceRange, children: Vec<Annot> },
    MathStructure {
        mathstructure_range: SourceRange,
        name_range: SourceRange,
        real_name_range: Option<SourceRange>,
        full_range: SourceRange,
        extends: bool,
        children: Vec<Annot>,
    },
    SetMetatheory { token_range: SourceRange },
    ImportModule { token_range: SourceRange },
    UseModule { token_range: SourceRange },
    Inputref { token_range: SourceRange },
    SemanticMacro { token_range: SourceRange },
    Symdecl { token_range: SourceRange, main_name_range: SourceRange, args: SymdeclArgs },
    Symdef {
        token_range: SourceRange,
        main_name_range: SourceRange,
        args: SymdeclArgs,
        notation_args: NotationArgs,
        notation: Vec<Annot>,
    },
    Notation { token_range: SourceRange, name_range: SourceRange, notation_args: NotationArgs, notation: Vec<Annot> },
    SymName { token_range: SourceRange, name_range: SourceRange },
}

/// A semantic token: a range and its kind.
pub type Token = (SourceRange, TokenKind);

/// Whether `a` comes before `b` in the source.
pub open spec fn before(a: LineCol, b: LineCol) -> bool {
    a.line < b.line || (a.line == b.line && a.col < b.col)
}

/// An argument's tokens, waiting to be put in source order: the key's
/// range and token, and the tokens that follow the key.
pub struct Entry {
    pub key: SourceRange,
    pub key_tok: TokenKind,
    pub rest: Seq<Token>,
}

/// `es` with `e` put before the first entry whose key does not start
/// before `e`'s.
pub open spec fn insert_entry(es: Seq<Entry>, e: Entry) -> Seq<Entry>
    decreases es.len(),
{
    if es.len() == 0 {
        seq![e]
    } else if !before(es[0].key.start, e.key.start) {
        seq![e] + es
    } else {
        seq![es[0]] + insert_entry(es.drop_first(), e)
    }
}

/// `es` with an entry for the argument `o`, if it is given.
pub open spec fn put(es: Seq<Entry>, o: Option<(SourceRange, SourceRange)>, key_tok: TokenKind, value_tok: Option<TokenKind>) -> Seq<Entry> {
    match o {
        Some((k, v)) => insert_entry(
            es,
            Entry {
                key: k,
                key_tok,
                rest: match value_tok {
                    Some(t) => seq![(v, t)],
                    None => Seq::empty(),
                },
            },
        ),
        None => es,
    }
}

/// `es` with an entry for the term argument whose key is `k`, if it is
/// given, followed by the tokens `nested` of its terms.
pub open spec fn put_term(es: Seq<Entry>, k: Option<SourceRange>, nested: Seq<Token>) -> Seq<Entry> {
    match k {
        Some(k) => insert_entry(es, Entry { key: k, key_tok: TokenKind::Keyword, rest: nested }),
        None => es,
    }
}

/// The key of a term argument, if it is given.
pub open spec fn term_key(o: Option<(SourceRange, SourceRange, Vec<Annot>)>) -> Option<SourceRange> {
    match o {
        Some((k, _, _)) => Some(k),
        None => None,
    }
}

/// The entries of a symbol declaration's arguments, in the order in which
/// they are put, given the tokens of the terms of its type, definiens,
/// return type and argument types.
pub open spec fn symdecl_entries(a: SymdeclArgs, tp: Seq<Token>, df: Seq<Token>, ret: Seq<Token>, argtypes: Seq<Token>) -> Seq<Entry> {
    let e = put(Seq::empty(), a.name, TokenKind::Keyword, Some(TokenKind::Name));
    let e = put(e, a.args, TokenKind::Keyword, Some(TokenKind::Keyword));
    let e = put_term(e, term_key(a.tp), tp);
    let e = put_term(e, term_key(a.df), df);
    let e = put_term(e, term_key(a.return_), ret);
    let e = put(e, a.style, TokenKind::Keyword, Some(TokenKind::Name));
    let e = put(e, a.assoc, TokenKind::Keyword, Some(TokenKind::Keyword));
    let e = put(e, a.role, TokenKind::Keyword, Some(TokenKind::Keyword));
    let e = put(e, a.reorder, TokenKind::Keyword, None);
    put_term(e, term_key(a.argtypes), argtypes)
}

/// `es` with the entries of a notation's arguments.
pub open spec fn notation_entries(es: Seq<Entry>, n: NotationArgs) -> Seq<Entry> {
    let e = put(es, n.id, TokenKind::Name, None);
    let e = put(e, n.prec, TokenKind::Keyword, Some(TokenKind::Keyword));
    put(e, n.op, TokenKind::Keyword, None)
}

/// The tokens of the entries, in order: each key, then what follows it.
pub open spec fn emit(es: Seq<Entry>) -> Seq<Token>
    decreases es.len(),
{
    if es.len() == 0 {
        Seq::empty()
    } else {
        seq![(es[0].key, es[0].key_tok)] + es[0].rest + emit(es.drop_first())
    }
}

/// The range of the `\end{..}` of an environment of `full` whose name is
/// `len` characters long.
pub open spec fn end_range(full: SourceRange, len: int) -> SourceRange {
    SourceRange {
        start: LineCol { line: full.end.line, col: (full.end.col - 1 - len) as u32 },
        end: LineCol { line: full.end.line, col: (full.end.col - 1) as u32 },
    }
}

/// The tokens of the terms of an argument, if it is given.
pub open spec fn term_tokens(o: Option<(SourceRange, SourceRange, Vec<Annot>)>) -> Seq<Token>
    decreases o,
{
    match o {
        Some((_, _, v)) => all_tokens(v@),
        None => Seq::empty(),
    }
}

/// The semantic tokens of an annotation, in order.
pub open spec fn tokens(a: Annot) -> Seq<Token>
    decreases a,
{
    match a {
        Annot::Module { smodule_range, name_range, full_range, children } => seq![
            (smodule_range, TokenKind::Declaration),
            (name_range, TokenKind::Name),
        ] + all_tokens(children@) + seq![(end_range(full_range, 7), TokenKind::Declaration)],
        Annot::MathStructure { mathstructure_range, name_range, real_name_range, full_range, extends, children } => seq![
            (mathstructure_range, TokenKind::Declaration),
            (name_range, TokenKind::Name),
        ] + match real_name_range {
            Some(r) => seq![(r, TokenKind::Name)],
            None => Seq::empty(),
        } + all_tokens(children@) + seq![
            (end_range(full_range, if extends { 12 } else { 13 }), TokenKind::Declaration),
        ],
        Annot::SetMetatheory { token_range } => seq![(token_range, TokenKind::Declaration)],
        Annot::ImportModule { token_range } => seq![(token_range, TokenKind::Declaration)],
        Annot::UseModule { token_range } => seq![(token_range, TokenKind::Declaration)],
        Annot::Inputref { token_range } => seq![(token_range, TokenKind::Declaration)],
        Annot::SemanticMacro { token_range } => seq![(token_range, TokenKind::Symbol)],
        Annot::Symdecl { token_range, main_name_range, args } => seq![
            (token_range, TokenKind::Declaration),
            (main_name_range, TokenKind::Name),
        ] + emit(
            symdecl_entries(
                args,
                term_tokens(args.tp),
                term_tokens(args.df),
                term_tokens(args.return_),
                term_tokens(args.argtypes),
            ),
        ),
        Annot::Symdef { token_range, main_name_range, args, notation_args, notation } => seq![
            (token_range, TokenKind::Declaration),
            (main_name_range, TokenKind::Name),
        ] + emit(
            notation_entries(
                symdecl_entries(
                    args,
                    term_tokens(args.tp),
                    term_tokens(args.df),
                    term_tokens(args.return_),
                    term_tokens(args.argtypes),
                ),
                notation_args,
            ),
        ) + all_tokens(notation@),
        Annot::Notation { token_range, name_range, notation_args, notation } => seq![
            (token_range, TokenKind::Declaration),
            (name_range, TokenKind::Symbol),
        ] + emit(notation_entries(Seq::empty(), notation_args)) + all_tokens(notation@),
        Annot::SymName { token_range, name_range } => seq![
            (token_range, TokenKind::RefMacro),
            (name_range, TokenKind::Symbol),
        ],
    }
}

/// The tokens of a list of annotations, one after the other.
pub open spec fn all_tokens(s: Seq<Annot>) -> Seq<Token>
    decreases s,
{
    if s.len() == 0 {
        Seq::empty()
    } else {
        all_tokens(s.subrange(0, s.len() - 1)) + tokens(s[s.len() - 1])
    }
}


/// Whether the end ranges of `a` and of the annotations in it lie within
/// the source: each environment ends at least one column after the length
/// of its name.
pub open spec fn ranged(a: Annot) -> bool
    decreases a,
{
    match a {
        Annot::Module { full_range, children, .. } => full_range.end.col >= 8 && all_ranged(children@),
        Annot::MathStructure { full_range, extends, children, .. } => full_range.end.col >= 1 + (if extends {
            12int
        } else {
            13int
        }) && all_ranged(children@),
        Annot::Symdecl { args, .. } => args_ranged(args),
        Annot::Symdef { args, notation, .. } => args_ranged(args) && all_ranged(notation@),
        Annot::Notation { notation, .. } => all_ranged(notation@),
        _ => true,
    }
}

/// `ranged` for the terms of a symbol declaration's arguments.
pub open spec fn args_ranged(a: SymdeclArgs) -> bool
    decreases a,
{
    term_ranged(a.tp) && term_ranged(a.df) && term_ranged(a.return_) && term_ranged(a.argtypes)
}

/// `ranged` for the terms of an argument.
pub open spec fn term_ranged(o: Option<(SourceRange, SourceRange, Vec<Annot>)>) -> bool
    decreases o,
{
    match o {
        Some((_, _, v)) => all_ranged(v@),
        None => true,
    }
}

/// `ranged` for each of `s`.
pub open spec fn all_ranged(s: Seq<Annot>) -> bool
    decreases s,
{
    if s.len() == 0 {
        true
    } else {
        all_ranged(s.subrange(0, s.len() - 1)) && ranged(s[s.len() - 1])
    }
}

/// Each annotation of a list that is `ranged` as a whole is.
pub proof fn lemma_all_ranged(s: Seq<Annot>, i: int)
    requires
        all_ranged(s),
        0 <= i < s.len(),
    ensures
        ranged(s[i]),
        all_ranged(s.take(i)),
    decreases s.len(),
{
    if i < s.len() - 1 {
        lemma_all_ranged(s.subrange(0, s.len() - 1), i);
        assert(s.subrange(0, s.len() - 1)[i] == s[i]);
        assert(s.subrange(0, s.len() - 1).take(i) =~= s.take(i));
    } else {
        assert(s.subrange(0, s.len() - 1) =~= s.take(i));
    }
}

/// `insert_entry` puts `e` at the first index `j` whose key does not
/// start before `e`'s.
pub proof fn lemma_insert_at(es: Seq<Entry>, e: Entry, j: int)
    requires
        0 <= j <= es.len(),
        forall|i: int| 0 <= i < j ==> before(#[trigger] es[i].key.start, e.key.start),
        j < es.len() ==> !before(es[j].key.start, e.key.start),
    ensures
        insert_entry(es, e) == es.insert(j, e),
    decreases j,
{
    if j == 0 {
        if es.len() == 0 {
            assert(es.insert(0, e) =~= seq![e]);
        } else {
            assert(es.insert(0, e) =~= seq![e] + es);
        }
    } else {
        assert(before(es[0].key.start, e.key.start));
        assert forall|i: int| 0 <= i < j - 1 implies before(#[trigger] es.drop_first()[i].key.start, e.key.start) by {
            assert(es.drop_first()[i] == es[i + 1]);
        }
        lemma_insert_at(es.drop_first(), e, j - 1);
        assert(es.insert(j, e) =~= seq![es[0]] + es.drop_first().insert(j - 1, e));
    }
}

/// An argument's tokens waiting to be put in order: the key's range and
/// token and the tokens that follow.
pub type PendingEntry = (SourceRange, TokenKind, Vec<Token>);

/// The view of a waiting argument.
pub open spec fn entry_view(e: PendingEntry) -> Entry {
    Entry { key: e.0, key_tok: e.1, rest: e.2@ }
}

/// The views of waiting arguments.
pub open spec fn entries_view(v: Seq<PendingEntry>) -> Seq<Entry> {
    v.map_values(|e: PendingEntry| entry_view(e))
}

/// Whether `a` comes before `b`.
fn is_before(a: LineCol, b: LineCol) -> (r: bool)
    ensures
        r == before(a, b),
{
    a.line < b.line || (a.line == b.line && a.col < b.col)
}

/// Puts `e` among `es` as `insert_entry` says.
fn insert_pending(es: &mut Vec<PendingEntry>, e: PendingEntry)
    ensures
        entries_view(final(es)@) == insert_entry(entries_view(old(es)@), entry_view(e)),
{
    let ghost ev = entries_view(es@);
    let mut j: usize = 0;
    while j < es.len() && is_before(es[j].0.start, e.0.start)
        invariant
            j <= es@.len(),
            ev == entries_view(es@),
            es@ == old(es)@,
            forall|i: int| 0 <= i < j ==> before(#[trigger] ev[i].key.start, e.0.start),
        decreases es@.len() - j,
    {
        assert(ev[j as int] == entry_view(es@[j as int]));
        j = j + 1;
    }
    proof {
        if j < es@.len() {
            assert(ev[j as int] == entry_view(es@[j as int]));
        }
        lemma_insert_at(ev, entry_view(e), j as int);
    }
    es.insert(j, e);
    assert(entries_view(es@) =~= ev.insert(j as int, entry_view(e)));
}

/// Puts the entry for the argument `o`, if it is given, as `put` says.
fn put_pending(es: &mut Vec<PendingEntry>, o: Option<(SourceRange, SourceRange)>, key_tok: TokenKind, value_tok: Option<TokenKind>)
    ensures
        entries_view(final(es)@) == put(entries_view(old(es)@), o, key_tok, value_tok),
{
    match o {
        Some((k, v)) => {
            let mut rest: Vec<Token> = Vec::new();
            match value_tok {
                Some(t) => {
                    rest.push((v, t));
                },
                None => {},
            }
            assert(rest@ =~= match value_tok {
                Some(t) => seq![(v, t)],
                None => Seq::<Token>::empty(),
            });
            insert_pending(es, (k, key_tok, rest));
        },
        None => {},
    }
}

/// Appends `v` to `out`.
fn extend_tokens(out: &mut Vec<Token>, v: &Vec<Token>)
    ensures
        final(out)@ == old(out)@ + v@,
{
    let mut i: usize = 0;
    while i < v.len()
        invariant
            i <= v@.len(),
            out@ == old(out)@ + v@.take(i as int),
        decreases v@.len() - i,
    {
        out.push(v[i]);
        assert(v@.take(i + 1) =~= v@.take(i as int).push(v@[i as int]));
        i = i + 1;
    }
    assert(v@.take(i as int) =~= v@);
}

/// Appends the tokens of the entries, as `emit` says.
fn emit_pending(es: &Vec<PendingEntry>, out: &mut Vec<Token>)
    ensures
        final(out)@ == old(out)@ + emit(entries_view(es@)),
{
    let ghost ev = entries_view(es@);
    let mut i: usize = 0;
    assert(ev.skip(0) =~= ev);
    while i < es.len()
        invariant
            i <= es@.len(),
            ev == entries_view(es@),
            old(out)@ + emit(ev) == out@ + emit(ev.skip(i as int)),
        decreases es@.len() - i,
    {
        let ghost before_out = out@;
        proof {
            assert(ev.skip(i as int).drop_first() =~= ev.skip(i + 1));
            assert(ev.skip(i as int)[0] == entry_view(es@[i as int]));
        }
        out.push((es[i].0, es[i].1));
        extend_tokens(out, &es[i].2);
        assert(out@ + emit(ev.skip(i + 1)) =~= before_out + emit(ev.skip(i as int)));
        i = i + 1;
    }
    assert(ev.skip(i as int) =~= Seq::<Entry>::empty());
    assert(out@ + emit(ev.skip(i as int)) =~= out@);
}

/// The range of the end of an environment, as `end_range` says.
fn end_range_of(full: SourceRange, len: u32) -> (r: SourceRange)
    requires
        full.end.col >= 1 + len,
    ensures
        r == end_range(full, len as int),
{
    SourceRange {
        start: LineCol { line: full.end.line, col: full.end.col - 1 - len },
        end: LineCol { line: full.end.line, col: full.end.col - 1 },
    }
}

/// Appends the tokens of `a`.
#[verifier::spinoff_prover]
#[verifier::rlimit(50)]
fn push_tokens(a: &Annot, out: &mut Vec<Token>)
    requires
        ranged(*a),
    ensures
        final(out)@ == old(out)@ + tokens(*a),
    decreases *a,
{
    let ghost o0 = out@;
    match a {
        Annot::Module { smodule_range, name_range, full_range, children } => {
            out.push((*smodule_range, TokenKind::Declaration));
            out.push((*name_range, TokenKind::Name));
            push_all(children, out);
            out.push((end_range_of(*full_range, 7), TokenKind::Declaration));
            assert(out@ =~= o0 + tokens(*a));
        },
        Annot::MathStructure { mathstructure_range, name_range, real_name_range, full_range, extends, children } => {
            out.push((*mathstructure_range, TokenKind::Declaration));
            out.push((*name_range, TokenKind::Name));
            match real_name_range {
                Some(r) => {
                    out.push((*r, TokenKind::Name));
                },
                None => {},
            }
            push_all(children, out);
            let len: u32 = if *extends {
                12
            } else {
                13
            };
            out.push((end_range_of(*full_range, len), TokenKind::Declaration));
            assert(out@ =~= o0 + tokens(*a));
        },
        Annot::SetMetatheory { token_range } | Annot::ImportModule { token_range } | Annot::UseModule { token_range }
        | Annot::Inputref { token_range } => {
            out.push((*token_range, TokenKind::Declaration));
            assert(out@ =~= o0 + tokens(*a));
        },
        Annot::SemanticMacro { token_range } => {
            out.push((*token_range, TokenKind::Symbol));
            assert(out@ =~= o0 + tokens(*a));
        },
        Annot::Symdecl { token_range, main_name_range, args } => {
            out.push((*token_range, TokenKind::Declaration));
            out.push((*main_name_range, TokenKind::Name));
            let mut es: Vec<PendingEntry> = Vec::new();
            push_symdecl_entries(args, &mut es);
            emit_pending(&es, out);
            assert(out@ =~= o0 + tokens(*a));
        },
        Annot::Symdef { token_range, main_name_range, args, notation_args, notation } => {
            out.push((*token_range, TokenKind::Declaration));
            out.push((*main_name_range, TokenKind::Name));
            let mut es: Vec<PendingEntry> = Vec::new();
            push_symdecl_entries(args, &mut es);
            push_notation_entries(notation_args, &mut es);
            emit_pending(&es, out);
            push_all(notation, out);
            assert(out@ =~= o0 + tokens(*a));
        },
        Annot::Notation { token_range, name_range, notation_args, notation } => {
            out.push((*token_range, TokenKind::Declaration));
            out.push((*name_range, TokenKind::Symbol));
            let mut es: Vec<PendingEntry> = Vec::new();
            assert(entries_view(es@) =~= Seq::<Entry>::empty());
            push_notation_entries(notation_args, &mut es);
            emit_pending(&es, out);
            push_all(notation, out);
            assert(out@ =~= o0 + tokens(*a));
        },
        Annot::SymName { token_range, name_range } => {
            out.push((*token_range, TokenKind::RefMacro));
            out.push((*name_range, TokenKind::Symbol));
            assert(out@ =~= o0 + tokens(*a));
        },
    }
}

/// Appends the tokens of the annotations of `v`, one after the other.
fn push_all(v: &Vec<Annot>, out: &mut Vec<Token>)
    requires
        all_ranged(v@),
    ensures
        final(out)@ == old(out)@ + all_tokens(v@),
    decreases v@,
{
    let mut i: usize = 0;
    assert(v@.take(0) =~= Seq::<Annot>::empty());
    while i < v.len()
        invariant
            i <= v@.len(),
            all_ranged(v@),
            out@ == old(out)@ + all_tokens(v@.take(i as int)),
        decreases v@.len() - i,
    {
        proof {
            lemma_all_ranged(v@, i as int);
        }
        let ghost o1 = out@;
        push_tokens(&v[i], out);
        proof {
            let t = v@.take(i + 1);
            assert(t.subrange(0, t.len() - 1) =~= v@.take(i as int));
            assert(t[t.len() - 1] == v@[i as int]);
            assert(out@ =~= old(out)@ + all_tokens(v@.take(i + 1)));
        }
        i = i + 1;
    }
    assert(v@.take(i as int) =~= v@);
}

/// Puts the entry of a term argument, if it is given.
fn put_term_pending(es: &mut Vec<PendingEntry>, o: &Option<(SourceRange, SourceRange, Vec<Annot>)>)
    requires
        term_ranged(*o),
    ensures
        entries_view(final(es)@) == put_term(entries_view(old(es)@), term_key(*o), term_tokens(*o)),
    decreases *o,
{
    match o {
        Some((k, _, v)) => {
            let mut rest: Vec<Token> = Vec::new();
            push_all(v, &mut rest);
            assert(rest@ =~= term_tokens(*o));
            insert_pending(es, (*k, TokenKind::Keyword, rest));
        },
        None => {},
    }
}

/// Puts the entries of a symbol declaration's arguments into the empty
/// `es`, as `symdecl_entries` says.
fn push_symdecl_entries(args: &SymdeclArgs, es: &mut Vec<PendingEntry>)
    requires
        args_ranged(*args),
        old(es)@.len() == 0,
    ensures
        entries_view(final(es)@) == symdecl_entries(
            *args,
            term_tokens(args.tp),
            term_tokens(args.df),
            term_tokens(args.return_),
            term_tokens(args.argtypes),
        ),
    decreases *args,
{
    assert(entries_view(es@) =~= Seq::<Entry>::empty());
    put_pending(es, args.name, TokenKind::Keyword, Some(TokenKind::Name));
    put_pending(es, args.args, TokenKind::Keyword, Some(TokenKind::Keyword));
    put_term_pending(es, &args.tp);
    put_term_pending(es, &args.df);
    put_term_pending(es, &args.return_);
    put_pending(es, args.style, TokenKind::Keyword, Some(TokenKind::Name));
    put_pending(es, args.assoc, TokenKind::Keyword, Some(TokenKind::Keyword));
    put_pending(es, args.role, TokenKind::Keyword, Some(TokenKind::Keyword));
    put_pending(es, args.reorder, TokenKind::Keyword, None);
    put_term_pending(es, &args.argtypes);
}

/// Puts the entries of a notation's arguments, as `notation_entries` says.
fn push_notation_entries(n: &NotationArgs, es: &mut Vec<PendingEntry>)
    ensures
        entries_view(final(es)@) == notation_entries(entries_view(old(es)@), *n),
{
    put_pending(es, n.id, TokenKind::Name, None);
    put_pending(es, n.prec, TokenKind::Keyword, Some(TokenKind::Keyword));
    put_pending(es, n.op, TokenKind::Keyword, None);
}

impl Annot {
    /// The semantic tokens of this annotation, in order: the macro and the
    /// names of a declaration, the keys of its arguments in source order,
    /// each followed by the token of its value and the tokens of the terms
    /// in it, the tokens of nested annotations, and the end of an
    /// environment.
    pub fn semantic_tokens(&self) -> (r: Vec<Token>)
        requires
            ranged(*self),
        ensures
            r@ == tokens(*self),
    {
        let mut out: Vec<Token> = Vec::new();
        push_tokens(self, &mut out);
        assert(out@ =~= tokens(*self));
        out
    }
}


/// Putting an entry keeps the entries there were and has the new one.
proof fn lemma_insert_entry_keeps(es: Seq<Entry>, e: Entry)
    ensures
        insert_entry(es, e).contains(e),
        forall|x: Entry| es.contains(x) ==> insert_entry(es, e).contains(x),
    decreases es.len(),
{
    let r = insert_entry(es, e);
    if es.len() == 0 {
        assert(r[0] == e);
    } else if !before(es[0].key.start, e.key.start) {
        assert(r[0] == e);
        assert forall|x: Entry| es.contains(x) implies r.contains(x) by {
            let i = choose|i: int| 0 <= i < es.len() && es[i] == x;
            assert(r[i + 1] == x);
        }
    } else {
        lemma_insert_entry_keeps(es.drop_first(), e);
        let t = insert_entry(es.drop_first(), e);
        assert(r == seq![es[0]] + t);
        let j = choose|j: int| 0 <= j < t.len() && t[j] == e;
        assert(r[j + 1] == e);
        assert forall|x: Entry| es.contains(x) implies r.contains(x) by {
            let i = choose|i: int| 0 <= i < es.len() && es[i] == x;
            if i == 0 {
                assert(r[0] == x);
            } else {
                assert(es.drop_first()[i - 1] == x);
                assert(es.drop_first().contains(x));
                let k = choose|k: int| 0 <= k < t.len() && t[k] == x;
                assert(r[k + 1] == x);
            }
        }
    }
}

/// `put` keeps the entries there were and, for a given argument, has its
/// entry.
proof fn lemma_put_keeps(es: Seq<Entry>, o: Option<(SourceRange, SourceRange)>, key_tok: TokenKind, value_tok: Option<TokenKind>)
    ensures
        forall|x: Entry| es.contains(x) ==> put(es, o, key_tok, value_tok).contains(x),
        o matches Some((k, v)) ==> put(es, o, key_tok, value_tok).contains(
            Entry {
                key: k,
                key_tok,
                rest: match value_tok {
                    Some(t) => seq![(v, t)],
                    None => Seq::empty(),
                },
            },
        ),
{
    if let Some((k, v)) = o {
        lemma_insert_entry_keeps(
            es,
            Entry {
                key: k,
                key_tok,
                rest: match value_tok {
                    Some(t) => seq![(v, t)],
                    None => Seq::empty(),
                },
            },
        );
    }
}

/// `put_term` keeps the entries there were and, for a given argument, has
/// its entry.
proof fn lemma_put_term_keeps(es: Seq<Entry>, k: Option<SourceRange>, nested: Seq<Token>)
    ensures
        forall|x: Entry| es.contains(x) ==> put_term(es, k, nested).contains(x),
        k matches Some(kk) ==> put_term(es, k, nested).contains(Entry { key: kk, key_tok: TokenKind::Keyword, rest: nested }),
{
    if let Some(kk) = k {
        lemma_insert_entry_keeps(es, Entry { key: kk, key_tok: TokenKind::Keyword, rest: nested });
    }
}

/// The tokens of entries have the key of each entry and what follows it.
proof fn lemma_emit_has(es: Seq<Entry>, e: Entry)
    requires
        es.contains(e),
    ensures
        emit(es).contains((e.key, e.key_tok)),
        forall|t: Token| e.rest.contains(t) ==> emit(es).contains(t),
    decreases es.len(),
{
    let i = choose|i: int| 0 <= i < es.len() && es[i] == e;
    let r = emit(es);
    let head = seq![(es[0].key, es[0].key_tok)] + es[0].rest;
    assert(r == head + emit(es.drop_first()));
    if i == 0 {
        assert(r[0] == (e.key, e.key_tok));
        assert forall|t: Token| e.rest.contains(t) implies r.contains(t) by {
            let j = choose|j: int| 0 <= j < e.rest.len() && e.rest[j] == t;
            assert(r[j + 1] == t);
        }
    } else {
        assert(es.drop_first()[i - 1] == e);
        lemma_emit_has(es.drop_first(), e);
        let t0 = emit(es.drop_first());
        let k = choose|k: int| 0 <= k < t0.len() && t0[k] == (e.key, e.key_tok);
        assert(r[head.len() + k] == (e.key, e.key_tok));
        assert forall|t: Token| e.rest.contains(t) implies r.contains(t) by {
            let m = choose|m: int| 0 <= m < t0.len() && t0[m] == t;
            assert(r[head.len() + m] == t);
        }
    }
}

/// The keys of the given arguments of a symbol declaration, in whatever
/// order the entries come, are among the entries, with what follows them.
proof fn lemma_symdecl_entries_have(a: SymdeclArgs, tp: Seq<Token>, df: Seq<Token>, ret: Seq<Token>, at: Seq<Token>)
    ensures
        ({
            let es = symdecl_entries(a, tp, df, ret, at);
            &&& a.name matches Some((k, v)) ==> es.contains(Entry { key: k, key_tok: TokenKind::Keyword, rest: seq![(v, TokenKind::Name)] })
            &&& a.args matches Some((k, v)) ==> es.contains(Entry { key: k, key_tok: TokenKind::Keyword, rest: seq![(v, TokenKind::Keyword)] })
            &&& a.tp matches Some((k, _, _)) ==> es.contains(Entry { key: k, key_tok: TokenKind::Keyword, rest: tp })
            &&& a.df matches Some((k, _, _)) ==> es.contains(Entry { key: k, key_tok: TokenKind::Keyword, rest: df })
            &&& a.return_ matches Some((k, _, _)) ==> es.contains(Entry { key: k, key_tok: TokenKind::Keyword, rest: ret })
            &&& a.style matches Some((k, v)) ==> es.contains(Entry { key: k, key_tok: TokenKind::Keyword, rest: seq![(v, TokenKind::Name)] })
            &&& a.assoc matches Some((k, v)) ==> es.contains(Entry { key: k, key_tok: TokenKind::Keyword, rest: seq![(v, TokenKind::Keyword)] })
            &&& a.role matches Some((k, v)) ==> es.contains(Entry { key: k, key_tok: TokenKind::Keyword, rest: seq![(v, TokenKind::Keyword)] })
            &&& a.reorder matches Some((k, _)) ==> es.contains(Entry { key: k, key_tok: TokenKind::Keyword, rest: Seq::empty() })
            &&& a.argtypes matches Some((k, _, _)) ==> es.contains(Entry { key: k, key_tok: TokenKind::Keyword, rest: at })
        }),
{
    let e0 = Seq::<Entry>::empty();
    let e1 = put(e0, a.name, TokenKind::Keyword, Some(TokenKind::Name));
    lemma_put_keeps(e0, a.name, TokenKind::Keyword, Some(TokenKind::Name));
    let e2 = put(e1, a.args, TokenKind::Keyword, Some(TokenKind::Keyword));
    lemma_put_keeps(e1, a.args, TokenKind::Keyword, Some(TokenKind::Keyword));
    let e3 = put_term(e2, term_key(a.tp), tp);
    lemma_put_term_keeps(e2, term_key(a.tp), tp);
    let e4 = put_term(e3, term_key(a.df), df);
    lemma_put_term_keeps(e3, term_key(a.df), df);
    let e5 = put_term(e4, term_key(a.return_), ret);
    lemma_put_term_keeps(e4, term_key(a.return_), ret);
    let e6 = put(e5, a.style, TokenKind::Keyword, Some(TokenKind::Name));
    lemma_put_keeps(e5, a.style, TokenKind::Keyword, Some(TokenKind::Name));
    let e7 = put(e6, a.assoc, TokenKind::Keyword, Some(TokenKind::Keyword));
    lemma_put_keeps(e6, a.assoc, TokenKind::Keyword, Some(TokenKind::Keyword));
    let e8 = put(e7, a.role, TokenKind::Keyword, Some(TokenKind::Keyword));
    lemma_put_keeps(e7, a.role, TokenKind::Keyword, Some(TokenKind::Keyword));
    let e9 = put(e8, a.reorder, TokenKind::Keyword, None);
    lemma_put_keeps(e8, a.reorder, TokenKind::Keyword, None);
    let e10 = put_term(e9, term_key(a.argtypes), at);
    lemma_put_term_keeps(e9, term_key(a.argtypes), at);
    assert(e10 == symdecl_entries(a, tp, df, ret, at));
}

/// Every argument given to a symbol declaration is highlighted: its key as
/// a keyword, a name's or style's value as a name, the value of the
/// arguments and of the associativity and role as a keyword, and every
/// token of the annotations in a type, definiens, return type or argument
/// types.
pub proof fn law_declaration_arguments_highlighted(token_range: SourceRange, main_name_range: SourceRange, args: SymdeclArgs)
    ensures
        ({
            let t = tokens(Annot::Symdecl { token_range, main_name_range, args });
            &&& t.contains((token_range, TokenKind::Declaration))
            &&& t.contains((main_name_range, TokenKind::Name))
            &&& args.name matches Some((k, v)) ==> t.contains((k, TokenKind::Keyword)) && t.contains((v, TokenKind::Name))
            &&& args.args matches Some((k, v)) ==> t.contains((k, TokenKind::Keyword)) && t.contains((v, TokenKind::Keyword))
            &&& args.tp matches Some((k, _, ts)) ==> t.contains((k, TokenKind::Keyword)) && forall|x: Token|
                all_tokens(ts@).contains(x) ==> t.contains(x)
            &&& args.df matches Some((k, _, ts)) ==> t.contains((k, TokenKind::Keyword)) && forall|x: Token|
                all_tokens(ts@).contains(x) ==> t.contains(x)
            &&& args.return_ matches Some((k, _, ts)) ==> t.contains((k, TokenKind::Keyword)) && forall|x: Token|
                all_tokens(ts@).contains(x) ==> t.contains(x)
            &&& args.style matches Some((k, v)) ==> t.contains((k, TokenKind::Keyword)) && t.contains((v, TokenKind::Name))
            &&& args.assoc matches Some((k, v)) ==> t.contains((k, TokenKind::Keyword)) && t.contains((v, TokenKind::Keyword))
            &&& args.role matches Some((k, v)) ==> t.contains((k, TokenKind::Keyword)) && t.contains((v, TokenKind::Keyword))
            &&& args.reorder matches Some((k, _)) ==> t.contains((k, TokenKind::Keyword))
            &&& args.argtypes matches Some((k, _, ts)) ==> t.contains((k, TokenKind::Keyword)) && forall|x: Token|
                all_tokens(ts@).contains(x) ==> t.contains(x)
        }),
{
    let a = Annot::Symdecl { token_range, main_name_range, args };
    let tp = term_tokens(args.tp);
    let df = term_tokens(args.df);
    let ret = term_tokens(args.return_);
    let at = term_tokens(args.argtypes);
    let es = symdecl_entries(args, tp, df, ret, at);
    let pre = seq![(token_range, TokenKind::Declaration), (main_name_range, TokenKind::Name)];
    let t = tokens(a);
    assert(t == pre + emit(es));
    assert(t[0] == (token_range, TokenKind::Declaration));
    assert(t[1] == (main_name_range, TokenKind::Name));
    lemma_symdecl_entries_have(args, tp, df, ret, at);
    assert forall|e: Entry| es.contains(e) implies t.contains((e.key, e.key_tok)) && forall|x: Token|
        e.rest.contains(x) ==> t.contains(x) by {
        lemma_emit_has(es, e);
        let em = emit(es);
        let k = choose|k: int| 0 <= k < em.len() && em[k] == (e.key, e.key_tok);
        assert(t[2 + k] == (e.key, e.key_tok));
        assert forall|x: Token| e.rest.contains(x) implies t.contains(x) by {
            let m = choose|m: int| 0 <= m < em.len() && em[m] == x;
            assert(t[2 + m] == x);
        }
    }
    if let Some((k, v)) = args.name {
        let e = Entry { key: k, key_tok: TokenKind::Keyword, rest: seq![(v, TokenKind::Name)] };
        assert(e.rest.contains((v, TokenKind::Name))) by { assert(e.rest[0] == (v, TokenKind::Name)); }
    }
    if let Some((k, v)) = args.args {
        let e = Entry { key: k, key_tok: TokenKind::Keyword, rest: seq![(v, TokenKind::Keyword)] };
        assert(e.rest.contains((v, TokenKind::Keyword))) by { assert(e.rest[0] == (v, TokenKind::Keyword)); }
    }
    if let Some((k, v)) = args.style {
        let e = Entry { key: k, key_tok: TokenKind::Keyword, rest: seq![(v, TokenKind::Name)] };
        assert(e.rest.contains((v, TokenKind::Name))) by { assert(e.rest[0] == (v, TokenKind::Name)); }
    }
    if let Some((k, v)) = args.assoc {
        let e = Entry { key: k, key_tok: TokenKind::Keyword, rest: seq![(v, TokenKind::Keyword)] };
        assert(e.rest.contains((v, TokenKind::Keyword))) by { assert(e.rest[0] == (v, TokenKind::Keyword)); }
    }
    if let Some((k, v)) = args.role {
        let e = Entry { key: k, key_tok: TokenKind::Keyword, rest: seq![(v, TokenKind::Keyword)] };
        assert(e.rest.contains((v, TokenKind::Keyword))) by { assert(e.rest[0] == (v, TokenKind::Keyword)); }
    }
}


/// Putting an entry into entries in source order keeps them in source
/// order.
proof fn lemma_insert_entry_sorted(es: Seq<Entry>, e: Entry)
    requires
        forall|i: int, j: int| 0 <= i < j < es.len() ==> !before(#[trigger] es[j].key.start, #[trigger] es[i].key.start),
    ensures
        ({
            let r = insert_entry(es, e);
            &&& r.len() == es.len() + 1
            &&& forall|i: int, j: int| 0 <= i < j < r.len() ==> !before(#[trigger] r[j].key.start, #[trigger] r[i].key.start)
            &&& forall|i: int| 0 <= i < r.len() ==> (#[trigger] r[i] == e || es.contains(r[i]))
        }),
    decreases es.len(),
{
    let r = insert_entry(es, e);
    if es.len() == 0 {
    } else if !before(es[0].key.start, e.key.start) {
        assert forall|i: int| 0 <= i < r.len() implies (#[trigger] r[i] == e || es.contains(r[i])) by {
            if i > 0 {
                assert(r[i] == es[i - 1]);
            }
        }
        assert forall|i: int, j: int| 0 <= i < j < r.len() implies !before(#[trigger] r[j].key.start, #[trigger] r[i].key.start) by {
            if i > 0 {
                assert(r[i] == es[i - 1] && r[j] == es[j - 1]);
            } else {
                assert(r[j] == es[j - 1]);
                assert(!before(es[j - 1].key.start, es[0].key.start) || j - 1 == 0);
            }
        }
    } else {
        let d = es.drop_first();
        assert forall|i: int, j: int| 0 <= i < j < d.len() implies !before(#[trigger] d[j].key.start, #[trigger] d[i].key.start) by {
            assert(d[i] == es[i + 1] && d[j] == es[j + 1]);
        }
        lemma_insert_entry_sorted(d, e);
        let t = insert_entry(d, e);
        assert(r == seq![es[0]] + t);
        assert forall|i: int| 0 <= i < r.len() implies (#[trigger] r[i] == e || es.contains(r[i])) by {
            if i == 0 {
                assert(es[0] == r[0]);
            } else {
                assert(r[i] == t[i - 1]);
                if t[i - 1] != e {
                    let m = choose|m: int| 0 <= m < d.len() && d[m] == t[i - 1];
                    assert(es[m + 1] == r[i]);
                }
            }
        }
        assert forall|i: int, j: int| 0 <= i < j < r.len() implies !before(#[trigger] r[j].key.start, #[trigger] r[i].key.start) by {
            if i > 0 {
                assert(r[i] == t[i - 1] && r[j] == t[j - 1]);
            } else {
                assert(r[j] == t[j - 1]);
                if t[j - 1] == e {
                } else {
                    let m = choose|m: int| 0 <= m < d.len() && d[m] == t[j - 1];
                    assert(es[m + 1] == t[j - 1]);
                }
            }
        }
    }
}

/// `put` and `put_term` keep entries in source order.
proof fn lemma_puts_sorted(es: Seq<Entry>, o: Option<(SourceRange, SourceRange)>, key_tok: TokenKind, value_tok: Option<TokenKind>, k: Option<SourceRange>, nested: Seq<Token>)
    requires
        forall|i: int, j: int| 0 <= i < j < es.len() ==> !before(#[trigger] es[j].key.start, #[trigger] es[i].key.start),
    ensures
        ({
            let r = put(es, o, key_tok, value_tok);
            forall|i: int, j: int| 0 <= i < j < r.len() ==> !before(#[trigger] r[j].key.start, #[trigger] r[i].key.start)
        }),
        ({
            let r = put_term(es, k, nested);
            forall|i: int, j: int| 0 <= i < j < r.len() ==> !before(#[trigger] r[j].key.start, #[trigger] r[i].key.start)
        }),
{
    if let Some((kk, v)) = o {
        lemma_insert_entry_sorted(
            es,
            Entry {
                key: kk,
                key_tok,
                rest: match value_tok {
                    Some(t) => seq![(v, t)],
                    None => Seq::empty(),
                },
            },
        );
    }
    if let Some(kk) = k {
        lemma_insert_entry_sorted(es, Entry { key: kk, key_tok: TokenKind::Keyword, rest: nested });
    }
}

/// The arguments of a declaration or a notation are highlighted in the
/// order in which their keys stand in the source, whatever the order in
/// which they are given: no key comes after one that starts later.
pub proof fn law_arguments_in_source_order(a: SymdeclArgs, n: NotationArgs, tp: Seq<Token>, df: Seq<Token>, ret: Seq<Token>, at: Seq<Token>)
    ensures
        ({
            let es = symdecl_entries(a, tp, df, ret, at);
            forall|i: int, j: int| 0 <= i < j < es.len() ==> !before(#[trigger] es[j].key.start, #[trigger] es[i].key.start)
        }),
        ({
            let es = notation_entries(symdecl_entries(a, tp, df, ret, at), n);
            forall|i: int, j: int| 0 <= i < j < es.len() ==> !before(#[trigger] es[j].key.start, #[trigger] es[i].key.start)
        }),
        ({
            let es = notation_entries(Seq::empty(), n);
            forall|i: int, j: int| 0 <= i < j < es.len() ==> !before(#[trigger] es[j].key.start, #[trigger] es[i].key.start)
        }),
{
    let none: Option<SourceRange> = None;
    let e0 = Seq::<Entry>::empty();
    let e1 = put(e0, a.name, TokenKind::Keyword, Some(TokenKind::Name));
    lemma_puts_sorted(e0, a.name, TokenKind::Keyword, Some(TokenKind::Name), none, tp);
    let e2 = put(e1, a.args, TokenKind::Keyword, Some(TokenKind::Keyword));
    lemma_puts_sorted(e1, a.args, TokenKind::Keyword, Some(TokenKind::Keyword), term_key(a.tp), tp);
    let e3 = put_term(e2, term_key(a.tp), tp);
    lemma_puts_sorted(e2, None, TokenKind::Keyword, None, term_key(a.tp), tp);
    let e4 = put_term(e3, term_key(a.df), df);
    lemma_puts_sorted(e3, None, TokenKind::Keyword, None, term_key(a.df), df);
    let e5 = put_term(e4, term_key(a.return_), ret);
    lemma_puts_sorted(e4, None, TokenKind::Keyword, None, term_key(a.return_), ret);
    let e6 = put(e5, a.style, TokenKind::Keyword, Some(TokenKind::Name));
    lemma_puts_sorted(e5, a.style, TokenKind::Keyword, Some(TokenKind::Name), none, tp);
    let e7 = put(e6, a.assoc, TokenKind::Keyword, Some(TokenKind::Keyword));
    lemma_puts_sorted(e6, a.assoc, TokenKind::Keyword, Some(TokenKind::Keyword), none, tp);
    let e8 = put(e7, a.role, TokenKind::Keyword, Some(TokenKind::Keyword));
    lemma_puts_sorted(e7, a.role, TokenKind::Keyword, Some(TokenKind::Keyword), none, tp);
    let e9 = put(e8, a.reorder, TokenKind::Keyword, None);
    lemma_puts_sorted(e8, a.reorder, TokenKind::Keyword, None, none, tp);
    let e10 = put_term(e9, term_key(a.argtypes), at);
    lemma_puts_sorted(e9, None, TokenKind::Keyword, None, term_key(a.argtypes), at);
    assert(e10 == symdecl_entries(a, tp, df, ret, at));
    let f1 = put(e10, n.id, TokenKind::Name, None);
    lemma_puts_sorted(e10, n.id, TokenKind::Name, None, none, tp);
    let f2 = put(f1, n.prec, TokenKind::Keyword, Some(TokenKind::Keyword));
    lemma_puts_sorted(f1, n.prec, TokenKind::Keyword, Some(TokenKind::Keyword), none, tp);
    lemma_puts_sorted(f2, n.op, TokenKind::Keyword, None, none, tp);
    let g1 = put(e0, n.id, TokenKind::Name, None);
    lemma_puts_sorted(e0, n.id, TokenKind::Name, None, none, tp);
    let g2 = put(g1, n.prec, TokenKind::Keyword, Some(TokenKind::Keyword));
    lemma_puts_sorted(g1, n.prec, TokenKind::Keyword, Some(TokenKind::Keyword), none, tp);
    lemma_puts_sorted(g2, n.op, TokenKind::Keyword, None, none, tp);
}

/// The entries of a notation's arguments: the id's key as a name, the
/// precedence's key and value as keywords, the operator's key as a
/// keyword, and the entries there were.
proof fn lemma_notation_entries_have(es: Seq<Entry>, n: NotationArgs)
    ensures
        ({
            let r = notation_entries(es, n);
            &&& forall|x: Entry| es.contains(x) ==> r.contains(x)
            &&& n.id matches Some((k, _)) ==> r.contains(Entry { key: k, key_tok: TokenKind::Name, rest: Seq::empty() })
            &&& n.prec matches Some((k, v)) ==> r.contains(Entry { key: k, key_tok: TokenKind::Keyword, rest: seq![(v, TokenKind::Keyword)] })
            &&& n.op matches Some((k, _)) ==> r.contains(Entry { key: k, key_tok: TokenKind::Keyword, rest: Seq::empty() })
        }),
{
    let e1 = put(es, n.id, TokenKind::Name, None);
    lemma_put_keeps(es, n.id, TokenKind::Name, None);
    let e2 = put(e1, n.prec, TokenKind::Keyword, Some(TokenKind::Keyword));
    lemma_put_keeps(e1, n.prec, TokenKind::Keyword, Some(TokenKind::Keyword));
    lemma_put_keeps(e2, n.op, TokenKind::Keyword, None);
}

/// A notation is highlighted: its macro as a declaration, its name as a
/// symbol, its id's key as a name, its precedence's key and value and its
/// operator's key as keywords, and every token of the annotations in its
/// notation.
pub proof fn law_notation_highlighted(token_range: SourceRange, name_range: SourceRange, notation_args: NotationArgs, notation: Vec<Annot>)
    ensures
        ({
            let t = tokens(Annot::Notation { token_range, name_range, notation_args, notation });
            &&& t[0] == (token_range, TokenKind::Declaration)
            &&& t[1] == (name_range, TokenKind::Symbol)
            &&& notation_args.id matches Some((k, _)) ==> t.contains((k, TokenKind::Name))
            &&& notation_args.prec matches Some((k, v)) ==> t.contains((k, TokenKind::Keyword)) && t.contains((v, TokenKind::Keyword))
            &&& notation_args.op matches Some((k, _)) ==> t.contains((k, TokenKind::Keyword))
            &&& forall|x: Token| all_tokens(notation@).contains(x) ==> t.contains(x)
        }),
{
    let es = notation_entries(Seq::empty(), notation_args);
    let pre = seq![(token_range, TokenKind::Declaration), (name_range, TokenKind::Symbol)];
    let em = emit(es);
    let t = tokens(Annot::Notation { token_range, name_range, notation_args, notation });
    assert(t == pre + em + all_tokens(notation@));
    lemma_notation_entries_have(Seq::empty(), notation_args);
    assert forall|e: Entry| es.contains(e) implies t.contains((e.key, e.key_tok)) && forall|x: Token|
        e.rest.contains(x) ==> t.contains(x) by {
        lemma_emit_has(es, e);
        let k = choose|k: int| 0 <= k < em.len() && em[k] == (e.key, e.key_tok);
        assert(t[2 + k] == (e.key, e.key_tok));
        assert forall|x: Token| e.rest.contains(x) implies t.contains(x) by {
            let m = choose|m: int| 0 <= m < em.len() && em[m] == x;
            assert(t[2 + m] == x);
        }
    }
    if let Some((k, v)) = notation_args.prec {
        let e = Entry { key: k, key_tok: TokenKind::Keyword, rest: seq![(v, TokenKind::Keyword)] };
        assert(e.rest.contains((v, TokenKind::Keyword))) by { assert(e.rest[0] == (v, TokenKind::Keyword)); }
    }
    assert forall|x: Token| all_tokens(notation@).contains(x) implies t.contains(x) by {
        let m = choose|m: int| 0 <= m < all_tokens(notation@).len() && all_tokens(notation@)[m] == x;
        assert(t[2 + em.len() + m] == x);
    }
}

/// A module is highlighted: its `smodule` macro as a declaration, its name
/// as a name, then the tokens of its children, and last the `smodule` of
/// its `\end`, the seven columns before its closing brace, as a
/// declaration.
pub proof fn law_module_highlighted(smodule_range: SourceRange, name_range: SourceRange, full_range: SourceRange, children: Vec<Annot>)
    ensures
        ({
            let t = tokens(Annot::Module { smodule_range, name_range, full_range, children });
            &&& t.len() == 3 + all_tokens(children@).len()
            &&& t[0] == (smodule_range, TokenKind::Declaration)
            &&& t[1] == (name_range, TokenKind::Name)
            &&& t.subrange(2, t.len() - 1) == all_tokens(children@)
            &&& t.last() == (
                SourceRange {
                    start: LineCol { line: full_range.end.line, col: (full_range.end.col - 8) as u32 },
                    end: LineCol { line: full_range.end.line, col: (full_range.end.col - 1) as u32 },
                },
                TokenKind::Declaration,
            )
        }),
{
    let t = tokens(Annot::Module { smodule_range, name_range, full_range, children });
    assert(t.subrange(2, t.len() - 1) =~= all_tokens(children@));
}

/// A structure is highlighted like a module, with the name it is known by
/// as a name too, and its end macro is `mathstructure`, thirteen columns,
/// or, for a structure extending others, `extstructure`, twelve.
pub proof fn law_structure_highlighted(
    mathstructure_range: SourceRange,
    name_range: SourceRange,
    real_name_range: Option<SourceRange>,
    full_range: SourceRange,
    extends: bool,
    children: Vec<Annot>,
)
    ensures
        ({
            let t = tokens(
                Annot::MathStructure { mathstructure_range, name_range, real_name_range, full_range, extends, children },
            );
            let len: int = if extends { 12 } else { 13 };
            let named: int = if real_name_range is Some { 1 } else { 0 };
            &&& t.len() == 3 + named + all_tokens(children@).len()
            &&& t[0] == (mathstructure_range, TokenKind::Declaration)
            &&& t[1] == (name_range, TokenKind::Name)
            &&& real_name_range matches Some(r) ==> t[2] == (r, TokenKind::Name)
            &&& t.subrange(2 + named, t.len() - 1) == all_tokens(children@)
            &&& t.last() == (
                SourceRange {
                    start: LineCol { line: full_range.end.line, col: (full_range.end.col - 1 - len) as u32 },
                    end: LineCol { line: full_range.end.line, col: (full_range.end.col - 1) as u32 },
                },
                TokenKind::Declaration,
            )
        }),
{
    let t = tokens(Annot::MathStructure { mathstructure_range, name_range, real_name_range, full_range, extends, children });
    let named: int = if real_name_range is Some { 1 } else { 0 };
    assert(t.subrange(2 + named, t.len() - 1) =~= all_tokens(children@));
}

/// The annotations that are a single macro are highlighted as one token:
/// module set-up macros and inputs as declarations, semantic macros as
/// symbols; a symbol name reference gives its macro as a reference macro
/// and its name as a symbol.
pub proof fn law_single_tokens(r: SourceRange, n: SourceRange)
    ensures
        tokens(Annot::SetMetatheory { token_range: r }) == seq![(r, TokenKind::Declaration)],
        tokens(Annot::ImportModule { token_range: r }) == seq![(r, TokenKind::Declaration)],
        tokens(Annot::UseModule { token_range: r }) == seq![(r, TokenKind::Declaration)],
        tokens(Annot::Inputref { token_range: r }) == seq![(r, TokenKind::Declaration)],
        tokens(Annot::SemanticMacro { token_range: r }) == seq![(r, TokenKind::Symbol)],
        tokens(Annot::SymName { token_range: r, name_range: n }) == seq![(r, TokenKind::RefMacro), (n, TokenKind::Symbol)],
{
}


/// A symbol definition is highlighted: its macro as a declaration, its
/// main name as a name, the key of every argument given, of the
/// declaration and of the notation alike (the id's as a name, the others'
/// as keywords), the tokens of the terms in its type, definiens, return
/// type and argument types, and every token of the annotations in its
/// notation.
pub proof fn law_definition_highlighted(
    token_range: SourceRange,
    main_name_range: SourceRange,
    args: SymdeclArgs,
    notation_args: NotationArgs,
    notation: Vec<Annot>,
)
    ensures
        ({
            let t = tokens(Annot::Symdef { token_range, main_name_range, args, notation_args, notation });
            &&& t[0] == (token_range, TokenKind::Declaration)
            &&& t[1] == (main_name_range, TokenKind::Name)
            &&& args.name matches Some((k, _)) ==> t.contains((k, TokenKind::Keyword))
            &&& args.args matches Some((k, _)) ==> t.contains((k, TokenKind::Keyword))
            &&& args.tp matches Some((k, _, ts)) ==> t.contains((k, TokenKind::Keyword)) && forall|x: Token|
                all_tokens(ts@).contains(x) ==> t.contains(x)
            &&& args.df matches Some((k, _, ts)) ==> t.contains((k, TokenKind::Keyword)) && forall|x: Token|
                all_tokens(ts@).contains(x) ==> t.contains(x)
            &&& args.return_ matches Some((k, _, ts)) ==> t.contains((k, TokenKind::Keyword)) && forall|x: Token|
                all_tokens(ts@).contains(x) ==> t.contains(x)
            &&& args.style matches Some((k, _)) ==> t.contains((k, TokenKind::Keyword))
            &&& args.assoc matches Some((k, _)) ==> t.contains((k, TokenKind::Keyword))
            &&& args.role matches Some((k, _)) ==> t.contains((k, TokenKind::Keyword))
            &&& args.reorder matches Some((k, _)) ==> t.contains((k, TokenKind::Keyword))
            &&& args.argtypes matches Some((k, _, ts)) ==> t.contains((k, TokenKind::Keyword)) && forall|x: Token|
                all_tokens(ts@).contains(x) ==> t.contains(x)
            &&& notation_args.id matches Some((k, _)) ==> t.contains((k, TokenKind::Name))
            &&& notation_args.prec matches Some((k, _)) ==> t.contains((k, TokenKind::Keyword))
            &&& notation_args.op matches Some((k, _)) ==> t.contains((k, TokenKind::Keyword))
            &&& forall|x: Token| all_tokens(notation@).contains(x) ==> t.contains(x)
        }),
{
    let tp = term_tokens(args.tp);
    let df = term_tokens(args.df);
    let ret = term_tokens(args.return_);
    let at = term_tokens(args.argtypes);
    let es0 = symdecl_entries(args, tp, df, ret, at);
    let es = notation_entries(es0, notation_args);
    let pre = seq![(token_range, TokenKind::Declaration), (main_name_range, TokenKind::Name)];
    let em = emit(es);
    let t = tokens(Annot::Symdef { token_range, main_name_range, args, notation_args, notation });
    assert(t == pre + em + all_tokens(notation@));
    lemma_symdecl_entries_have(args, tp, df, ret, at);
    lemma_notation_entries_have(es0, notation_args);
    assert forall|e: Entry| es.contains(e) implies t.contains((e.key, e.key_tok)) && forall|x: Token|
        e.rest.contains(x) ==> t.contains(x) by {
        lemma_emit_has(es, e);
        let k = choose|k: int| 0 <= k < em.len() && em[k] == (e.key, e.key_tok);
        assert(t[2 + k] == (e.key, e.key_tok));
        assert forall|x: Token| e.rest.contains(x) implies t.contains(x) by {
            let m = choose|m: int| 0 <= m < em.len() && em[m] == x;
            assert(t[2 + m] == x);
        }
    }
    assert forall|x: Token| all_tokens(notation@).contains(x) implies t.contains(x) by {
        let m = choose|m: int| 0 <= m < all_tokens(notation@).len() && all_tokens(notation@)[m] == x;
        assert(t[2 + em.len() + m] == x);
    }
}

} // verus!
