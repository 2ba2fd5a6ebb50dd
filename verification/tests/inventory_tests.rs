use flams::extractor::CognitiveDimension;
use flams::inventory::{doc_path, do_los, split_url, Def, InvLO, SymbolRef};
use flams::learning_objects::{lo_sort, LOKind};
use flams::rules::{applicable_rules, do_rules, select_rules};
use flams::verbalization::{stemmer, Language, StemAlgorithm, Verbalization};

fn sym(archive: &str, module: &str, name: &str) -> SymbolRef {
    SymbolRef { archive: archive.to_string(), module: module.to_string(), name: name.to_string() }
}

#[test]
fn document_paths_drop_html() {
    assert_eq!(doc_path("mod/sets.en.html"), "mod/sets.en");
    assert_eq!(doc_path("mod/sets.en"), "mod/sets.en");
    assert_eq!(doc_path(".html"), "");
    assert_eq!(doc_path("html"), "html");
}

#[test]
fn definienda_urls_split_at_the_last_hash() {
    assert_eq!(split_url("a/b.html#x#y"), ("a/b.html#x".to_string(), "y".to_string()));
    assert_eq!(split_url("a/b.html"), ("a/b.html".to_string(), String::new()));
    assert_eq!(split_url("#"), (String::new(), String::new()));
}

#[test]
fn inventory_documents_and_modules() {
    let los = vec![InvLO { url: "mod/sets.html".to_string() }, InvLO { url: "index.html".to_string() }];
    let defs = vec![
        Def { symbol: sym("smglom", "sets", "set"), url: "mod/sets.html#d1".to_string() },
        Def { symbol: sym("smglom", "sets", "member"), url: "mod/sets.html#d1".to_string() },
        Def { symbol: sym("other", "x", "y"), url: "mod/sets.html#d2".to_string() },
        Def { symbol: sym("smglom", "fun", "f"), url: "missing.html#d".to_string() },
    ];
    let mut sources = vec!["old.tex".to_string()];
    let (docs, mods) = do_los(los, defs, &"smglom".to_string(), &mut sources, |_p: String| true).unwrap();
    assert_eq!(sources, vec!["old.tex".to_string(), "mod/sets.html".to_string(), "index.html".to_string()]);
    assert_eq!(docs.len(), 2);
    assert_eq!(docs[0].path, "mod/sets");
    assert_eq!(docs[0].ids.len(), 2);
    assert_eq!(docs[0].ids[0].0, "d1");
    assert_eq!(docs[0].ids[0].1.len(), 2);
    assert_eq!(docs[0].ids[0].1[1].name, "member");
    assert_eq!(docs[0].ids[1].0, "d2");
    assert!(docs[0].modules.is_empty());
    assert_eq!(docs[1].path, "index");
    assert_eq!(docs[1].modules, vec!["sets".to_string(), "fun".to_string()]);
    assert_eq!(mods.len(), 2);
    assert_eq!(mods[0].uri, "sets");
    assert_eq!(mods[0].symbols.len(), 2);
    assert_eq!(mods[1].uri, "fun");
    assert_eq!(mods[1].symbols[0].name, "f");
}

#[test]
fn inventory_refuses_the_first_invalid_document_path() {
    let los = vec![
        InvLO { url: "a.html".to_string() },
        InvLO { url: "bad path.html".to_string() },
        InvLO { url: "c.html".to_string() },
    ];
    let mut sources = Vec::new();
    let r = do_los(los, Vec::new(), &"smglom".to_string(), &mut sources, |p: String| !p.contains(' '));
    assert_eq!(r.err(), Some("bad path".to_string()));
    assert_eq!(sources, vec!["a.html".to_string()]);
}

#[test]
fn inventory_checks_definienda_and_index_paths() {
    let los = vec![InvLO { url: "a.html".to_string() }];
    let defs = vec![Def { symbol: sym("smglom", "m", "s"), url: "x y.html#d".to_string() }];
    let mut sources = Vec::new();
    let r = do_los(los, defs, &"smglom".to_string(), &mut sources, |p: String| !p.contains(' '));
    assert_eq!(r.err(), Some("x y".to_string()));
    assert_eq!(sources, vec!["a.html".to_string()]);
    let mut sources = Vec::new();
    let r = do_los(Vec::new(), Vec::new(), &"smglom".to_string(), &mut sources, |p: String| p != "index");
    assert_eq!(r.err(), Some("index".to_string()));
    assert!(sources.is_empty());
}

#[test]
fn learning_objects_sorted_by_kind() {
    let los = vec![
        ("p1".to_string(), LOKind::Problem(CognitiveDimension::Apply)),
        ("d1".to_string(), LOKind::Definition),
        ("e1".to_string(), LOKind::Example),
        ("s1".to_string(), LOKind::SubProblem(CognitiveDimension::Remember)),
        ("d2".to_string(), LOKind::Definition),
    ];
    let r = lo_sort(los);
    assert_eq!(r.definitions, vec!["d1".to_string(), "d2".to_string()]);
    assert_eq!(r.examples, vec!["e1".to_string()]);
    assert_eq!(
        r.problems,
        vec![
            (false, "p1".to_string(), CognitiveDimension::Apply),
            (true, "s1".to_string(), CognitiveDimension::Remember),
        ]
    );
}

fn strings(v: &[&str]) -> Vec<String> {
    v.iter().map(|s| s.to_string()).collect()
}

#[test]
fn rules_apply_in_rule_order() {
    let keys = strings(&["class", "data-ftml-term", "data-ftml-head", "data-ftml-foo", "data-ftml-head"]);
    let rules = strings(&["data-ftml-head", "data-ftml-arg", "data-ftml-term", "data-ftml-head"]);
    let r = select_rules(&keys, "data-ftml-", &rules);
    assert_eq!(r.rules, vec![0, 2, 3]);
    assert_eq!(r.unknown, strings(&["data-ftml-foo"]));
}

#[test]
fn rules_ignore_foreign_attributes() {
    let r = select_rules(&strings(&["style", "id"]), "data-ftml-", &strings(&["style"]));
    assert!(r.rules.is_empty());
    assert!(r.unknown.is_empty());
}

/// Counts the rules run in the state; a style rule drops the counter rules
/// still to run and opens nothing, every other rule opens its name.
fn run_rule(calls: u32, rule: String) -> (u32, Option<String>, Vec<String>) {
    if rule == "data-ftml-style" {
        (calls + 1, None, vec!["data-ftml-counter".to_string()])
    } else {
        (calls + 1, Some(rule), vec![])
    }
}

#[test]
fn applying_rules_runs_the_chosen_ones_in_order() {
    let keys = strings(&["data-ftml-counter", "data-ftml-style", "data-ftml-term"]);
    let rules = strings(&["data-ftml-style", "data-ftml-counter", "data-ftml-term"]);
    let (calls, opened) = applicable_rules(&keys, "data-ftml-", &rules, 0u32, &run_rule);
    assert_eq!(calls, 2);
    assert_eq!(opened, Some(strings(&["data-ftml-term"])));
}

#[test]
fn applying_no_rule_opens_nothing() {
    let rules = strings(&["data-ftml-term"]);
    let (calls, opened) = applicable_rules(&strings(&["id", "data-ftml-foo"]), "data-ftml-", &rules, 0u32, &run_rule);
    assert_eq!(calls, 0);
    assert!(opened.is_none());
    let (calls, opened) = do_rules(5u32, strings(&["data-ftml-style", "data-ftml-counter"]), &run_rule);
    assert_eq!(calls, 6);
    assert!(opened.is_none());
}

#[test]
fn stemmers_by_language() {
    assert_eq!(stemmer(Language::English), Some(StemAlgorithm::English));
    assert_eq!(stemmer(Language::Turkish), Some(StemAlgorithm::Turkish));
    assert_eq!(stemmer(Language::Slovenian), None);
    assert_eq!(stemmer(Language::Bulgarian), None);
}

#[test]
fn verbalizations_are_stemmed_and_lower_cased() {
    let v = Verbalization::new("  running\tnumbers ", Language::English);
    assert_eq!(v.lang, Language::English);
    assert_eq!(v.bytes(), b"run number".to_vec());
}

#[test]
fn verbalizations_without_stemmer_keep_words() {
    let v = Verbalization::new("Množica  TOČK", Language::Slovenian);
    assert_eq!(v.bytes(), "množica toČk".as_bytes().to_vec());
    assert!(Verbalization::new("   ", Language::German).bytes().is_empty());
}

#[test]
fn verbalizations_merge_with_separators() {
    let a = Verbalization::new("set", Language::Slovenian);
    let b = Verbalization::new("Theory", Language::Slovenian);
    assert_eq!(a.merge(&b, None).bytes(), b"set theory".to_vec());
    let a = Verbalization::new("set", Language::Slovenian);
    assert_eq!(a.merge(&b, Some('-')).bytes(), b"set-theory".to_vec());
    let a = Verbalization::new("set", Language::Slovenian);
    assert_eq!(a.merge(&b, Some('\n')).bytes(), b"set theory".to_vec());
}

#[test]
fn verbalization_copies_keep_their_bytes() {
    let v = Verbalization::new("Sets  of numbers", Language::English);
    let w = v.clone();
    assert_eq!(w.lang, Language::English);
    assert_eq!(w.bytes(), v.bytes());
}
