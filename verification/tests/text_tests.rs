use flams::html_len::{
    base_len, escaped_char_length, escaped_len, self_closing, tag_len, Attributes, ElementData, QualName,
};
use flams::lsp::{next_token, Progress, ServerURL};
use flams::lsp_text::{IsLSPRange, LSPDocument, LSPLineCol, LSPText, Position, Range, SourceRange};
use flams::numbers::decimal;
use flams::text::{byte_len, char_len_utf8, chars_of, has_prefix_at, is_whitespace, trim_bounds};
use flams::urls::{content_url, top_doc_url, IdCounter};

fn html(local: &str) -> QualName {
    QualName { prefix: None, ns: "http://www.w3.org/1999/xhtml".to_string(), local: local.to_string() }
}

fn plain(local: &str) -> QualName {
    QualName { prefix: None, ns: String::new(), local: local.to_string() }
}

#[test]
fn escaped_len_text_mode() {
    assert_eq!(escaped_len("a&b<\">", false), 1 + 5 + 1 + 4 + 1 + 4);
}

#[test]
fn escaped_len_attribute_mode() {
    assert_eq!(escaped_len("a&b<\">", true), 1 + 5 + 1 + 1 + 6 + 1);
}

#[test]
fn escaped_len_non_ascii_and_nbsp() {
    assert_eq!(escaped_len("é\u{00A0}€", false), 2 + 6 + 3);
    assert_eq!(escaped_char_length('\u{1F600}', false), 4);
    assert_eq!(escaped_len("", true), 0);
}

#[test]
fn tag_and_base_lengths() {
    assert_eq!(tag_len(&html("div")), 5);
    assert_eq!(base_len(&html("div")), 11);
    assert!(self_closing(&html("br")));
    assert_eq!(base_len(&html("br")), 4);
    assert!(!self_closing(&plain("br")));
    let prefixed = QualName { prefix: Some("m".to_string()), ns: String::new(), local: "mi".to_string() };
    assert_eq!(tag_len(&prefixed), 2 + 2 + 2);
}

#[test]
fn element_offsets() {
    let attrs = Attributes { entries: vec![(plain("class"), "x".to_string())] };
    assert_eq!(attrs.len(), 10);
    let e = ElementData::new_element(html("div"), attrs);
    assert_eq!(e.start_offset, 0);
    assert_eq!(e.end_offset, 21);
    let inner = e.inner_range();
    assert_eq!((inner.start, inner.end), (15, 15));
    assert_eq!(e.is_text_and_offsets(), (true, 4, 15));
    let m = ElementData::new_element(html("math"), Attributes { entries: vec![] });
    assert_eq!(m.is_text_and_offsets(), (false, 5, 6));
}

#[test]
fn element_update_len_moves_end() {
    let mut e = ElementData::new_element(html("span"), Attributes { entries: vec![] });
    e.start_offset = 7;
    e.attributes.new_attr("id", "ab".to_string());
    e.update_len();
    assert_eq!(e.end_offset, 7 + 13 + (2 + 4 + 2));
    assert_eq!(e.range().start, 7);
}

#[test]
fn attributes_value_set_take() {
    let mut a = Attributes { entries: vec![(plain("a"), "1".to_string()), (html("b"), "2".to_string())] };
    assert_eq!(a.value("b").map(|s| s.as_str()), Some("2"));
    assert!(a.value("c").is_none());
    a.set("a", "x");
    assert_eq!(a.value("a").map(|s| s.as_str()), Some("x"));
    a.set("zz", "y");
    assert_eq!(a.entries.len(), 2);
    assert_eq!(a.take("a"), Some("x".to_string()));
    assert_eq!(a.entries.len(), 1);
    assert_eq!(a.take("a"), None);
}

#[test]
fn attributes_new_attr_only_matches_plain_names() {
    let mut a = Attributes { entries: vec![(html("id"), "1".to_string())] };
    a.new_attr("id", "2".to_string());
    assert_eq!(a.entries.len(), 2);
    assert_eq!(a.entries[1].1, "2");
    a.new_attr("id", "3".to_string());
    assert_eq!(a.entries.len(), 2);
    assert_eq!(a.entries[0].1, "1");
    assert_eq!(a.entries[1].1, "3");
}

#[test]
fn text_helpers() {
    let v = chars_of("  héllo\t");
    assert_eq!(v.len(), 8);
    assert_eq!(trim_bounds(&v, 0, v.len()), (2, 7));
    assert!(is_whitespace('\u{2003}'));
    assert!(!is_whitespace('x'));
    assert!(has_prefix_at(&v, 2, 7, &chars_of("hé")));
    assert!(!has_prefix_at(&v, 2, 3, &chars_of("hé")));
    assert_eq!(char_len_utf8('€'), 3);
    assert_eq!(byte_len("héllo"), 6);
}

#[test]
fn decimal_texts() {
    assert_eq!(decimal(0), "0");
    assert_eq!(decimal(1234567), "1234567");
    assert_eq!(decimal(u64::MAX), u64::MAX.to_string());
}

#[test]
fn url_encoding_of_content_urls() {
    assert_eq!(content_url("http://s", "frag", "a b/é", "&x=1"), "http://s/content/frag?uri=a%20b%2F%C3%A9&x=1");
    assert_eq!(top_doc_url(None, "x y"), "/?uri=x%20y");
    assert_eq!(top_doc_url(Some("https://h"), "A-z_0.9~"), "https://h/?uri=A-z_0.9~");
}

#[test]
fn id_counter_numbers_repeated_prefixes() {
    let mut c = IdCounter::new();
    assert_eq!(c.new_id("p"), "p");
    assert_eq!(c.new_id("q"), "q");
    assert_eq!(c.new_id("p"), "p_1");
    assert_eq!(c.new_id("p"), "p_2");
    assert_eq!(c.new_id("q"), "q_1");
}

#[test]
fn server_url_text() {
    assert_eq!(ServerURL::get("127.0.0.1", 8080), "http://127.0.0.1:8080");
}

#[test]
fn progress_reports() {
    let mut p = Progress { counts: Some((1, 4)) };
    assert_eq!(p.update("msg".to_string(), Some(1)), ("2/4:msg".to_string(), Some(50)));
    assert_eq!(p.counts, Some((2, 4)));
    assert_eq!(p.update("m".to_string(), None), ("2/4:m".to_string(), Some(50)));
    let mut q = Progress { counts: None };
    assert_eq!(q.update("plain".to_string(), Some(3)), ("plain".to_string(), None));
    assert_eq!(q.counts, None);
}

#[test]
fn progress_tokens_stay_above_seen_ones() {
    assert_eq!(next_token(5, 7), 8);
    assert_eq!(next_token(10, 7), 10);
    assert_eq!(next_token(5, -1), 5);
    assert_eq!(next_token(0, 0), 0);
}

fn pos(line: u32, character: u32) -> Position {
    Position { line, character }
}

#[test]
fn lsp_positions_are_byte_offsets() {
    let t = LSPText { text: "ab\ncd".to_string(), html_up_to_date: true };
    assert_eq!(t.get_position(pos(0, 0)), 0);
    assert_eq!(t.get_position(pos(1, 1)), 4);
    assert_eq!(t.get_position(pos(0, 9)), 5);
    assert_eq!(t.get_position(pos(7, 0)), 5);
    let u = LSPText { text: "é\r\nx".to_string(), html_up_to_date: true };
    assert_eq!(u.get_position(pos(1, 0)), 4);
    assert_eq!(u.get_position(pos(0, 1)), 2);
}

#[test]
fn lsp_ranges() {
    let t = LSPText { text: "ab\ncd\nef".to_string(), html_up_to_date: true };
    assert_eq!(t.get_range(Range { start: pos(0, 1), end: pos(0, 2) }), (1, 2));
    assert_eq!(t.get_range(Range { start: pos(0, 1), end: pos(2, 1) }), (1, 7));
}

#[test]
fn lsp_range_start_matches_position() {
    let t = LSPText { text: "x\ny\nzz".to_string(), html_up_to_date: true };
    let r = Range { start: pos(2, 1), end: pos(2, 2) };
    assert_eq!(t.get_range(r).0, t.get_position(r.start));
    assert_eq!(t.get_range(r).1, t.get_position(r.end));
}

#[test]
fn lsp_text_edits() {
    let mut t = LSPText { text: "hello world".to_string(), html_up_to_date: true };
    t.delta("there".to_string(), Some(Range { start: pos(0, 6), end: pos(0, 11) }));
    assert_eq!(t.text, "hello there");
    assert!(!t.html_up_to_date);
    t.html_up_to_date = true;
    t.delta("new".to_string(), None);
    assert_eq!(t.text, "new");
    assert!(t.html_up_to_date);
}

#[test]
fn lsp_document_tracks_changes() {
    let mut d = LSPDocument::new("a".to_string(), None, None, None, None);
    d.up_to_date = true;
    assert!(!d.set_text("a".to_string()));
    assert!(d.up_to_date);
    assert!(d.set_text("b".to_string()));
    assert!(!d.up_to_date);
    d.up_to_date = true;
    d.delta("c".to_string(), Some(Range { start: pos(0, 1), end: pos(0, 1) }));
    assert_eq!(d.text.text, "bc");
    assert!(!d.up_to_date);
}

#[test]
fn escaped_len_adds_up_over_concatenation() {
    let (a, b) = ("a<\u{00A0}", "&b\"é");
    let whole = format!("{a}{b}");
    assert_eq!(escaped_len(&whole, false), escaped_len(a, false) + escaped_len(b, false));
    assert_eq!(escaped_len(&whole, true), escaped_len(a, true) + escaped_len(b, true));
}

#[test]
fn ids_for_one_prefix_never_repeat() {
    let mut c = IdCounter::new();
    let mut seen: Vec<String> = Vec::new();
    for _ in 0..12 {
        let id = c.new_id("x");
        assert!(!seen.contains(&id));
        seen.push(id);
    }
    assert_eq!(seen[11], "x_11");
}

#[test]
fn lsp_document_places_and_flags() {
    let mut d = LSPDocument::new(
        "x\ny".to_string(),
        Some("/mh/smglom/sets/source/mod.tex".to_string()),
        Some("smglom/sets".to_string()),
        Some("mod.tex".to_string()),
        Some("https://mathhub.info?a=smglom/sets&d=mod".to_string()),
    );
    assert!(!d.html_up_to_date());
    assert!(!d.is_up_to_date());
    assert!(d.has_annots());
    assert_eq!(d.relative_path().map(|s| s.as_str()), Some("mod.tex"));
    assert_eq!(d.archive().map(|s| s.as_str()), Some("smglom/sets"));
    assert!(d.path().is_some());
    assert!(d.document_uri().is_some());
    d.set_html_up_to_date();
    assert!(d.html_up_to_date());
    assert_eq!(d.get_position(pos(1, 0)), 2);
    assert_eq!(d.get_range(Range { start: pos(0, 0), end: pos(1, 1) }), (0, 3));
    let e = LSPDocument::new(String::new(), None, None, None, Some("u".to_string()));
    assert!(!e.has_annots());
}

#[test]
fn source_ranges_convert_both_ways() {
    let s = SourceRange { start: LSPLineCol { line: 1, col: 2 }, end: LSPLineCol { line: 3, col: 4 } };
    let r = s.into_range();
    assert_eq!(r, Range { start: pos(1, 2), end: pos(3, 4) });
    assert_eq!(SourceRange::from_range(r), s);
    assert_eq!(SourceRange::from_range(r).into_range(), r);
}
