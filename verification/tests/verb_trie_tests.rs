use flams::verb_trie::VerbTrie;
use flams::verbalization::Language;

fn uri(s: &str) -> String {
    s.to_string()
}

#[test]
fn a_single_word_is_found_at_its_characters() {
    let mut t = VerbTrie::new();
    t.insert(Language::Slovenian, "theory", &uri("u:theory"));
    let found = t.find_all_in(Language::Slovenian, "Theory.");
    assert_eq!(found, vec![((0, 6), vec![uri("u:theory")])]);
}

#[test]
fn an_empty_trie_finds_nothing() {
    let t = VerbTrie::new();
    assert!(t.find_all_in(Language::English, "set theory").is_empty());
}

#[test]
fn a_symbol_is_recorded_once_per_verbalization() {
    let mut t = VerbTrie::new();
    t.insert(Language::Slovenian, "set", &uri("u:a"));
    t.insert(Language::Slovenian, "Set", &uri("u:a"));
    t.insert(Language::Slovenian, "set ", &uri("u:b"));
    let found = t.find_all_in(Language::Slovenian, "set");
    assert_eq!(found, vec![((0, 3), vec![uri("u:a"), uri("u:b")])]);
}

#[test]
fn a_run_of_words_merges_into_a_longer_name() {
    let mut t = VerbTrie::new();
    t.insert(Language::Slovenian, "x", &uri("u:x"));
    t.insert(Language::Slovenian, "x y", &uri("u:xy"));
    t.insert(Language::Slovenian, "y", &uri("u:y"));
    t.insert(Language::Slovenian, "y z", &uri("u:yz"));
    let found = t.find_all_in(Language::Slovenian, "x y");
    assert_eq!(found, vec![((0, 3), vec![uri("u:xy")])]);
}

#[test]
fn waiting_words_are_given_back_when_the_run_breaks() {
    let mut t = VerbTrie::new();
    t.insert(Language::Slovenian, "set", &uri("u:set"));
    t.insert(Language::Slovenian, "set theory", &uri("u:st"));
    t.insert(Language::Slovenian, "theory", &uri("u:th"));
    let found = t.find_all_in(Language::Slovenian, "a set theory here");
    assert_eq!(
        found,
        vec![((6, 12), vec![uri("u:th")]), ((2, 5), vec![uri("u:set")])]
    );
}

#[test]
fn positions_count_characters() {
    let mut t = VerbTrie::new();
    t.insert(Language::Slovenian, "točka", &uri("u:p"));
    let found = t.find_all_in(Language::Slovenian, "ž (točka)");
    assert_eq!(found, vec![((3, 8), vec![uri("u:p")])]);
}
