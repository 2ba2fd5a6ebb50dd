use flams::closing::OpenFTMLElement;
use flams::dom::{do_op_notation, filter_node, filter_node_term, DomNode};
use flams::html_len::{Attributes, ElementData, QualName};

type Node = DomNode<u32>;

fn data(local: &str, start: usize, end: usize, attrs: &[(&str, &str)]) -> ElementData {
    ElementData {
        name: QualName { prefix: None, ns: "http://www.w3.org/1999/xhtml".to_string(), local: local.to_string() },
        attributes: Attributes {
            entries: attrs
                .iter()
                .map(|(k, v)| (QualName { prefix: None, ns: String::new(), local: k.to_string() }, v.to_string()))
                .collect(),
        },
        start_offset: start,
        end_offset: end,
        closed: true,
    }
}

fn elem(local: &str, start: usize, end: usize, children: Vec<Node>) -> Node {
    DomNode::Element(data(local, start, end, &[]), vec![], children)
}

fn text(t: &str) -> Node {
    DomNode::Text(t.to_string())
}

fn range(n: &Node) -> (usize, usize) {
    match n {
        DomNode::Element(e, _, _) => (e.start_offset, e.end_offset),
        _ => panic!("not an element"),
    }
}

fn children(n: &Node) -> &Vec<Node> {
    match n {
        DomNode::Element(_, _, cs) | DomNode::Document(cs) => cs,
        _ => panic!("no children"),
    }
}

fn sample() -> Node {
    DomNode::Document(vec![
        elem("div", 0, 20, vec![text("ab"), elem("span", 5, 15, vec![])]),
        elem("p", 20, 30, vec![elem("b", 22, 25, vec![])]),
    ])
}

#[test]
fn node_lengths() {
    let d = sample();
    assert_eq!(d.len(), 30);
    assert_eq!(text("héllo").len(), 6);
    assert_eq!(DomNode::<u32>::Comment("x".to_string()).len(), 0);
    assert_eq!(DomNode::<u32>::Doctype("html".to_string()).len(), 15);
    assert_eq!(DomNode::<u32>::ProcessingInstruction("a".to_string(), "bc".to_string()).len(), 7);
}

#[test]
fn deleting_a_node_updates_the_ranges() {
    let mut d = sample();
    d.delete(&vec![0, 1]);
    let cs = children(&d);
    assert_eq!(range(&cs[0]), (0, 10));
    assert_eq!(children(&cs[0]).len(), 1);
    assert!(matches!(&children(&cs[0])[0], DomNode::Text(t) if t == "ab"));
    assert_eq!(range(&cs[1]), (10, 20));
    assert_eq!(range(&children(&cs[1])[0]), (22, 25));
    assert_eq!(d.len(), 20);
}

#[test]
fn deleting_a_top_node() {
    let mut d = sample();
    d.delete(&vec![0]);
    let cs = children(&d);
    assert_eq!(cs.len(), 1);
    assert_eq!(range(&cs[0]), (0, 10));
    assert_eq!(d.len(), 10);
}

#[test]
fn deleting_text_moves_later_siblings() {
    let mut e = elem("div", 0, 20, vec![text("abc"), elem("i", 8, 12, vec![]), text("z")]);
    e.delete(&vec![0]);
    assert_eq!(range(&e), (0, 17));
    assert_eq!(range(&children(&e)[0]), (5, 9));
    assert_eq!(children(&e).len(), 2);
}

#[test]
fn term_wrappers_are_looked_through() {
    let mi = elem("mi", 0, 9, vec![text("x")]);
    let t = elem("math", 0, 30, vec![text("  "), elem("mrow", 0, 20, vec![mi])]);
    let r = filter_node_term(&t);
    assert!(matches!(r, DomNode::Element(e, _, _) if e.name.local == "mi"));
}

#[test]
fn term_wrappers_with_styles_are_kept() {
    let inner = elem("mi", 0, 9, vec![]);
    let styled = DomNode::Element(data("span", 0, 30, &[("class", "x")]), vec![], vec![inner]);
    assert!(matches!(filter_node_term(&styled), DomNode::Element(e, _, _) if e.name.local == "span"));
    let inner = elem("mi", 0, 9, vec![]);
    let plain = DomNode::Element(data("span", 0, 30, &[("class", "rustex_contents")]), vec![], vec![inner]);
    assert!(matches!(filter_node_term(&plain), DomNode::Element(e, _, _) if e.name.local == "mi"));
    let inner = elem("mi", 0, 9, vec![]);
    let style = DomNode::Element(data("div", 0, 30, &[("style", "color:red")]), vec![], vec![inner]);
    assert!(matches!(filter_node_term(&style), DomNode::Element(e, _, _) if e.name.local == "div"));
}

#[test]
fn term_wrappers_stop_at_terms_and_content() {
    let inner = elem("mi", 0, 9, vec![]);
    let closed = DomNode::Element(data("math", 0, 30, &[]), vec![OpenFTMLElement::ClosedTerm(7u32)], vec![inner]);
    assert!(matches!(filter_node_term(&closed), DomNode::Element(e, _, _) if e.name.local == "math"));
    let two = elem("mrow", 0, 30, vec![elem("mi", 0, 9, vec![]), text("+")]);
    assert!(matches!(filter_node_term(&two), DomNode::Element(e, _, _) if e.name.local == "mrow"));
    let only_text = elem("math", 0, 30, vec![text("x")]);
    assert!(matches!(filter_node_term(&only_text), DomNode::Element(e, _, _) if e.name.local == "math"));
    let other = elem("mfrac", 0, 30, vec![elem("mi", 0, 9, vec![])]);
    assert!(matches!(filter_node_term(&other), DomNode::Element(e, _, _) if e.name.local == "mfrac"));
}

fn markers() -> Vec<String> {
    vec!["data-ftml-notationcomp".to_string(), "data-ftml-term".to_string()]
}

#[test]
fn notation_wrappers_are_looked_through() {
    let mi = DomNode::Element(data("mi", 0, 9, &[("data-ftml-term", "x"), ("mathvariant", "bold")]), vec![], vec![text("x")]);
    let mrow = DomNode::Element(data("mrow", 0, 20, &[("data-ftml-notationcomp", "")]), vec![], vec![mi]);
    let math = elem("math", 0, 30, vec![mrow]);
    match filter_node(math, &markers()) {
        DomNode::Element(e, _, cs) => {
            assert_eq!(e.name.local, "mi");
            assert_eq!(e.attributes.entries.len(), 1);
            assert_eq!(e.attributes.entries[0].0.local, "mathvariant");
            assert_eq!(cs.len(), 1);
        },
        _ => panic!("expected an element"),
    }
}

#[test]
fn notation_wrappers_with_attributes_or_text_are_kept() {
    let inner = elem("mi", 0, 9, vec![]);
    let span = DomNode::Element(data("span", 0, 30, &[("class", "c"), ("data-ftml-term", "t")]), vec![], vec![inner]);
    match filter_node(span, &markers()) {
        DomNode::Element(e, _, _) => {
            assert_eq!(e.name.local, "span");
            assert_eq!(e.attributes.entries.len(), 1);
        },
        _ => panic!("expected an element"),
    }
    let blank = elem("math", 0, 30, vec![text(" "), elem("mi", 0, 9, vec![])]);
    assert!(matches!(filter_node(blank, &markers()), DomNode::Element(e, _, _) if e.name.local == "math"));
    let t = text("plain");
    assert!(matches!(filter_node(t, &markers()), DomNode::Text(s) if s == "plain"));
}

#[test]
fn operator_notations_record_offsets() {
    let e = data("div", 0, 30, &[("class", "x")]);
    let op = do_op_notation(&e, "<div class=\"x\">+</div>".to_string());
    assert!(op.is_text);
    assert_eq!(op.attribute_index, 4);
    assert_eq!(op.inner_index, 15);
    assert_eq!(op.text, "<div class=\"x\">+</div>");
    let m = data("mo", 0, 30, &[]);
    let op = do_op_notation(&m, "<mo>+</mo>".to_string());
    assert!(!op.is_text);
    assert_eq!((op.attribute_index, op.inner_index), (3, 4));
}
