use text_align::ident::Alignment;
use text_align::resolve::{align_run, walk, PassError, Warning};
use text_align::tree::{Attr, Node};

fn el(name: &str, attrs: Vec<(&str, &str)>, children: Vec<Node>) -> Node {
    Node::Element {
        name: name.as_bytes().to_vec(),
        attrs: attrs
            .into_iter()
            .map(|(n, v)| Attr { name: n.as_bytes().to_vec(), value: v.as_bytes().to_vec() })
            .collect(),
        children,
    }
}

fn txt(content: &str) -> Node {
    Node::Text { content: content.as_bytes().to_vec() }
}

fn get_attr(node: &Node, name: &str) -> Option<Vec<u8>> {
    match node {
        Node::Element { attrs, .. } => attrs
            .iter()
            .find(|a| a.name == name.as_bytes())
            .map(|a| a.value.clone()),
        Node::Text { .. } => None,
    }
}

fn child(node: &Node, i: usize) -> &Node {
    match node {
        Node::Element { children, .. } => &children[i],
        Node::Text { .. } => panic!("text node has no children"),
    }
}

fn node_eq(a: &Node, b: &Node) -> bool {
    match (a, b) {
        (Node::Text { content: ca }, Node::Text { content: cb }) => ca == cb,
        (
            Node::Element { name: na, attrs: aa, children: ka },
            Node::Element { name: nb, attrs: ab, children: kb },
        ) => {
            na == nb
                && aa.len() == ab.len()
                && aa.iter().zip(ab.iter()).all(|(x, y)| x.name == y.name && x.value == y.value)
                && ka.len() == kb.len()
                && ka.iter().zip(kb.iter()).all(|(x, y)| node_eq(x, y))
        },
        _ => false,
    }
}

// widths depend on both the text and the size, so a wrong routing of either
// shows up in the adjusted coordinate
fn measure_stub(t: &[u8], s: i64) -> i64 {
    (t.len() as i64) * 1000 + s / 10
}

#[test]
fn center_alignment_moves_x_by_half_width() {
    let doc = el(
        "text",
        vec![("id", "label_center_3"), ("font-size", "20")],
        vec![el("tspan", vec![("x", "10")], vec![txt("Hi")])],
    );
    let mut warns: Vec<Warning> = Vec::new();
    let out = walk(doc, &measure_stub, &mut warns).unwrap();
    // width = 2*1000 + 20000/10 = 4000; x = 10 + 4/2 = 12
    let tspan = child(&out, 0);
    assert_eq!(get_attr(tspan, "x"), Some(b"12".to_vec()));
    assert_eq!(get_attr(tspan, "text-anchor-mode"), Some(b"middle".to_vec()));
    assert_eq!(get_attr(&out, "id"), Some(b"label_center_3".to_vec()));
    assert!(warns.is_empty());
}

#[test]
fn right_alignment_defaults_font_size() {
    let doc = el(
        "text",
        vec![("id", "label_right")],
        vec![el("tspan", vec![("x", "0")], vec![txt("OK")])],
    );
    let mut warns: Vec<Warning> = Vec::new();
    let out = walk(doc, &measure_stub, &mut warns).unwrap();
    // width = 2*1000 + 16000/10 = 3600; x = 0 + 3.6
    let tspan = child(&out, 0);
    assert_eq!(get_attr(tspan, "x"), Some(b"3.6".to_vec()));
    assert_eq!(get_attr(tspan, "text-anchor-mode"), Some(b"end".to_vec()));
    assert!(warns.is_empty());
}

#[test]
fn left_alignment_keeps_x_value() {
    let doc = el(
        "text",
        vec![("id", "lbl_left")],
        vec![el("tspan", vec![("x", "4.50")], vec![txt("A")])],
    );
    let mut warns: Vec<Warning> = Vec::new();
    let out = walk(doc, &measure_stub, &mut warns).unwrap();
    // the numeral is rewritten in canonical form, the value unchanged
    let tspan = child(&out, 0);
    assert_eq!(get_attr(tspan, "x"), Some(b"4.5".to_vec()));
    assert_eq!(get_attr(tspan, "text-anchor-mode"), Some(b"start".to_vec()));
}

#[test]
fn exact_pre_style_is_removed() {
    let doc = el(
        "text",
        vec![("id", "r_right"), ("style", "white-space: pre")],
        vec![el("tspan", vec![("x", "1")], vec![txt("A")])],
    );
    let mut warns: Vec<Warning> = Vec::new();
    let out = walk(doc, &measure_stub, &mut warns).unwrap();
    assert_eq!(get_attr(&out, "style"), None);
}

#[test]
fn pre_style_with_semicolon_is_kept() {
    let doc = el(
        "text",
        vec![("id", "r_right"), ("style", "white-space: pre;")],
        vec![el("tspan", vec![("x", "1")], vec![txt("A")])],
    );
    let mut warns: Vec<Warning> = Vec::new();
    let out = walk(doc, &measure_stub, &mut warns).unwrap();
    assert_eq!(get_attr(&out, "style"), Some(b"white-space: pre;".to_vec()));
}

#[test]
fn run_with_two_children_is_skipped_with_one_warning() {
    let doc = el(
        "text",
        vec![("id", "a_center")],
        vec![
            el("tspan", vec![("x", "5")], vec![txt("A"), txt("B")]),
            el("tspan", vec![("x", "5")], vec![txt("C")]),
        ],
    );
    let mut warns: Vec<Warning> = Vec::new();
    let out = walk(doc, &measure_stub, &mut warns).unwrap();
    assert_eq!(warns, vec![Warning::MultiChildRun]);
    let bad = child(&out, 0);
    assert_eq!(get_attr(bad, "x"), Some(b"5".to_vec()));
    assert_eq!(get_attr(bad, "text-anchor-mode"), None);
    // the sibling run is still aligned
    let good = child(&out, 1);
    assert_eq!(get_attr(good, "text-anchor-mode"), Some(b"middle".to_vec()));
}

#[test]
fn empty_and_non_text_runs_warn() {
    let doc = el(
        "text",
        vec![("id", "a_left")],
        vec![
            el("tspan", vec![], vec![]),
            el("tspan", vec![], vec![el("tspan", vec![], vec![])]),
        ],
    );
    let mut warns: Vec<Warning> = Vec::new();
    walk(doc, &measure_stub, &mut warns).unwrap();
    assert_eq!(warns[0], Warning::EmptyRun);
    assert_eq!(warns[1], Warning::NonTextRun);
}

#[test]
fn identifier_without_keyword_leaves_element_unmodified() {
    let doc = el(
        "text",
        vec![("id", "footer_99"), ("style", "white-space: pre")],
        vec![el("tspan", vec![("x", "10")], vec![txt("Hi")])],
    );
    let copy = el(
        "text",
        vec![("id", "footer_99"), ("style", "white-space: pre")],
        vec![el("tspan", vec![("x", "10")], vec![txt("Hi")])],
    );
    let mut warns: Vec<Warning> = Vec::new();
    let out = walk(doc, &measure_stub, &mut warns).unwrap();
    assert!(node_eq(&out, &copy));
    assert!(warns.is_empty());
}

#[test]
fn tree_without_targets_round_trips() {
    let doc = el(
        "svg",
        vec![("width", "100")],
        vec![
            el("g", vec![], vec![el("text", vec![("id", "plain")], vec![txt("x")])]),
            txt("tail"),
        ],
    );
    let copy = el(
        "svg",
        vec![("width", "100")],
        vec![
            el("g", vec![], vec![el("text", vec![("id", "plain")], vec![txt("x")])]),
            txt("tail"),
        ],
    );
    let mut warns: Vec<Warning> = Vec::new();
    let out = walk(doc, &measure_stub, &mut warns).unwrap();
    assert!(node_eq(&out, &copy));
}

#[test]
fn nested_targets_are_found() {
    let doc = el(
        "svg",
        vec![],
        vec![el(
            "g",
            vec![],
            vec![el(
                "text",
                vec![("id", "deep_right")],
                vec![el("tspan", vec![("x", "2")], vec![txt("Z")])],
            )],
        )],
    );
    let mut warns: Vec<Warning> = Vec::new();
    let out = walk(doc, &measure_stub, &mut warns).unwrap();
    let tspan = child(child(child(&out, 0), 0), 0);
    // width = 1000 + 1600 = 2600; x = 2 + 2.6
    assert_eq!(get_attr(tspan, "x"), Some(b"4.6".to_vec()));
}

#[test]
fn existing_anchor_attribute_is_overwritten_not_duplicated() {
    let doc = el(
        "text",
        vec![("id", "b_right")],
        vec![el(
            "tspan",
            vec![("x", "0"), ("text-anchor-mode", "start")],
            vec![txt("Q")],
        )],
    );
    let mut warns: Vec<Warning> = Vec::new();
    let out = walk(doc, &measure_stub, &mut warns).unwrap();
    let tspan = child(&out, 0);
    assert_eq!(get_attr(tspan, "text-anchor-mode"), Some(b"end".to_vec()));
    match tspan {
        Node::Element { attrs, .. } => assert_eq!(attrs.len(), 2),
        _ => panic!("expected element"),
    }
}

#[test]
fn run_without_x_still_gets_anchor() {
    let doc = el(
        "text",
        vec![("id", "c_center")],
        vec![el("tspan", vec![], vec![txt("W")])],
    );
    let mut warns: Vec<Warning> = Vec::new();
    let out = walk(doc, &measure_stub, &mut warns).unwrap();
    let tspan = child(&out, 0);
    assert_eq!(get_attr(tspan, "x"), None);
    assert_eq!(get_attr(tspan, "text-anchor-mode"), Some(b"middle".to_vec()));
}

#[test]
fn malformed_font_size_is_fatal() {
    let doc = el(
        "text",
        vec![("id", "d_left"), ("font-size", "abc")],
        vec![el("tspan", vec![("x", "0")], vec![txt("A")])],
    );
    let mut warns: Vec<Warning> = Vec::new();
    let r = walk(doc, &measure_stub, &mut warns);
    assert_eq!(r.err(), Some(PassError::MalformedNumeral));
}

#[test]
fn malformed_x_is_fatal() {
    let doc = el(
        "text",
        vec![("id", "d_right")],
        vec![el("tspan", vec![("x", "12px")], vec![txt("A")])],
    );
    let mut warns: Vec<Warning> = Vec::new();
    let r = walk(doc, &measure_stub, &mut warns);
    assert_eq!(r.err(), Some(PassError::MalformedNumeral));
}

#[test]
fn malformed_numeral_on_skipped_run_is_not_read() {
    // the run is skipped for its structure, so its x is never parsed
    let doc = el(
        "text",
        vec![("id", "e_left")],
        vec![el("tspan", vec![("x", "bogus")], vec![txt("A"), txt("B")])],
    );
    let mut warns: Vec<Warning> = Vec::new();
    let r = walk(doc, &measure_stub, &mut warns);
    assert!(r.is_ok());
    assert_eq!(warns, vec![Warning::MultiChildRun]);
}

#[test]
fn align_run_adjusts_x_and_writes_anchor() {
    let mut attrs = vec![Attr { name: b"x".to_vec(), value: b"10".to_vec() }];
    align_run(&mut attrs, Alignment::Center, 4_000).unwrap();
    assert_eq!(attrs[0].value, b"12".to_vec());
    assert_eq!(attrs[1].name, b"text-anchor-mode".to_vec());
    assert_eq!(attrs[1].value, b"middle".to_vec());
}

#[test]
fn align_run_right_adds_whole_width() {
    let mut attrs = vec![Attr { name: b"x".to_vec(), value: b"-2.5".to_vec() }];
    align_run(&mut attrs, Alignment::Right, 7_250).unwrap();
    assert_eq!(attrs[0].value, b"4.75".to_vec());
    assert_eq!(attrs[1].value, b"end".to_vec());
}

#[test]
fn align_run_malformed_x_changes_nothing() {
    let mut attrs = vec![Attr { name: b"x".to_vec(), value: b"wide".to_vec() }];
    let r = align_run(&mut attrs, Alignment::Left, 1_000);
    assert_eq!(r, Err(PassError::MalformedNumeral));
    assert_eq!(attrs.len(), 1);
    assert_eq!(attrs[0].value, b"wide".to_vec());
}

#[test]
fn warnings_before_a_fatal_stop_are_kept() {
    let doc = el(
        "text",
        vec![("id", "f_left")],
        vec![
            el("tspan", vec![], vec![txt("A"), txt("B")]),
            el("tspan", vec![("x", "bad")], vec![txt("C")]),
        ],
    );
    let mut warns: Vec<Warning> = Vec::new();
    let r = walk(doc, &measure_stub, &mut warns);
    assert_eq!(r.err(), Some(PassError::MalformedNumeral));
    assert_eq!(warns, vec![Warning::MultiChildRun]);
}
