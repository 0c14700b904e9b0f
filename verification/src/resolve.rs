use vstd::prelude::*;
use crate::ident::{classify, classify_spec, Alignment};
use crate::num::{half_val, parse_spec, VAL_BOUND};
use crate::num::{format_num, half_width, parse_num};
use crate::metrics::{advances_of, width_of, FontMetrics, WIDTH_CAP};
use crate::tree::{attr_index, attr_value, attrs_model, bytes_eq, find_attr, lemma_attr_index_props,
    lemma_nodes_view, nodes_view, Attr, AttrV, Node, NodeV};

verus! {

broadcast use vstd::std_specs::vec::group_vec_axioms, vstd::seq::group_seq_axioms;

/// A structural anomaly in a run: reported, skipped, never fatal.
#[derive(Clone, Copy, PartialEq, Eq, Structural, Debug)]
pub enum Warning {
    /// a run with more than one child
    MultiChildRun,
    /// a run with no children
    EmptyRun,
    /// a run whose single child is not text
    NonTextRun,
}

/// A fatal condition: the whole pass is abandoned.
#[derive(Clone, Copy, PartialEq, Eq, Structural, Debug)]
pub enum PassError {
    /// a numeral attribute that does not parse
    MalformedNumeral,
}

// Byte spellings of the tag names, attribute names and literal values the
// pass reads and writes.
pub open spec fn tag_text() -> Seq<u8> {
    seq![116u8, 101u8, 120u8, 116u8]
}

pub open spec fn tag_tspan() -> Seq<u8> {
    seq![116u8, 115u8, 112u8, 97u8, 110u8]
}

pub open spec fn an_id() -> Seq<u8> {
    seq![105u8, 100u8]
}

pub open spec fn an_font_size() -> Seq<u8> {
    seq![102u8, 111u8, 110u8, 116u8, 45u8, 115u8, 105u8, 122u8, 101u8]
}

pub open spec fn an_x() -> Seq<u8> {
    seq![120u8]
}

pub open spec fn an_style() -> Seq<u8> {
    seq![115u8, 116u8, 121u8, 108u8, 101u8]
}

pub open spec fn an_anchor() -> Seq<u8> {
    seq![116u8, 101u8, 120u8, 116u8, 45u8, 97u8, 110u8, 99u8, 104u8, 111u8, 114u8, 45u8, 109u8,
        111u8, 100u8, 101u8]
}

pub open spec fn style_pre() -> Seq<u8> {
    seq![119u8, 104u8, 105u8, 116u8, 101u8, 45u8, 115u8, 112u8, 97u8, 99u8, 101u8, 58u8, 32u8,
        112u8, 114u8, 101u8]
}

pub open spec fn av_start() -> Seq<u8> {
    seq![115u8, 116u8, 97u8, 114u8, 116u8]
}

pub open spec fn av_middle() -> Seq<u8> {
    seq![109u8, 105u8, 100u8, 100u8, 108u8, 101u8]
}

pub open spec fn av_end() -> Seq<u8> {
    seq![101u8, 110u8, 100u8]
}

fn name_text() -> (r: Vec<u8>)
    ensures
        r@ == tag_text(),
{
    let mut v: Vec<u8> = Vec::new();
    v.push(116);
    v.push(101);
    v.push(120);
    v.push(116);
    proof {
        assert(v@ =~= tag_text());
    }
    v
}

fn name_tspan() -> (r: Vec<u8>)
    ensures
        r@ == tag_tspan(),
{
    let mut v: Vec<u8> = Vec::new();
    v.push(116);
    v.push(115);
    v.push(112);
    v.push(97);
    v.push(110);
    proof {
        assert(v@ =~= tag_tspan());
    }
    v
}

fn name_id() -> (r: Vec<u8>)
    ensures
        r@ == an_id(),
{
    let mut v: Vec<u8> = Vec::new();
    v.push(105);
    v.push(100);
    proof {
        assert(v@ =~= an_id());
    }
    v
}

fn name_font_size() -> (r: Vec<u8>)
    ensures
        r@ == an_font_size(),
{
    let mut v: Vec<u8> = Vec::new();
    v.push(102);
    v.push(111);
    v.push(110);
    v.push(116);
    v.push(45);
    v.push(115);
    v.push(105);
    v.push(122);
    v.push(101);
    proof {
        assert(v@ =~= an_font_size());
    }
    v
}

fn name_x() -> (r: Vec<u8>)
    ensures
        r@ == an_x(),
{
    let mut v: Vec<u8> = Vec::new();
    v.push(120);
    proof {
        assert(v@ =~= an_x());
    }
    v
}

fn name_style() -> (r: Vec<u8>)
    ensures
        r@ == an_style(),
{
    let mut v: Vec<u8> = Vec::new();
    v.push(115);
    v.push(116);
    v.push(121);
    v.push(108);
    v.push(101);
    proof {
        assert(v@ =~= an_style());
    }
    v
}

fn name_anchor() -> (r: Vec<u8>)
    ensures
        r@ == an_anchor(),
{
    let mut v: Vec<u8> = Vec::new();
    v.push(116);
    v.push(101);
    v.push(120);
    v.push(116);
    v.push(45);
    v.push(97);
    v.push(110);
    v.push(99);
    v.push(104);
    v.push(111);
    v.push(114);
    v.push(45);
    v.push(109);
    v.push(111);
    v.push(100);
    v.push(101);
    proof {
        assert(v@ =~= an_anchor());
    }
    v
}

fn style_pre_bytes() -> (r: Vec<u8>)
    ensures
        r@ == style_pre(),
{
    let mut v: Vec<u8> = Vec::new();
    v.push(119);
    v.push(104);
    v.push(105);
    v.push(116);
    v.push(101);
    v.push(45);
    v.push(115);
    v.push(112);
    v.push(97);
    v.push(99);
    v.push(101);
    v.push(58);
    v.push(32);
    v.push(112);
    v.push(114);
    v.push(101);
    proof {
        assert(v@ =~= style_pre());
    }
    v
}

/// The anchor-mode value written for an alignment.
pub open spec fn anchor_value(a: Alignment) -> Seq<u8> {
    match a {
        Alignment::Left => av_start(),
        Alignment::Center => av_middle(),
        Alignment::Right => av_end(),
    }
}

fn anchor_value_bytes(a: Alignment) -> (r: Vec<u8>)
    ensures
        r@ == anchor_value(a),
{
    let mut v: Vec<u8> = Vec::new();
    match a {
        Alignment::Left => {
            v.push(115);
            v.push(116);
            v.push(97);
            v.push(114);
            v.push(116);
        },
        Alignment::Center => {
            v.push(109);
            v.push(105);
            v.push(100);
            v.push(100);
            v.push(108);
            v.push(101);
        },
        Alignment::Right => {
            v.push(101);
            v.push(110);
            v.push(100);
        },
    }
    proof {
        assert(v@ =~= anchor_value(a));
    }
    v
}

/// Is the node an element with the run tag?
pub open spec fn is_tspan(n: NodeV) -> bool {
    n matches NodeV::Element { name, .. } && name == tag_tspan()
}

/// The run's text: present exactly when the run has one child and it is text.
pub open spec fn run_text(n: NodeV) -> Option<Seq<u8>> {
    match n {
        NodeV::Element { children, .. } => if children.len() == 1 {
            match children[0] {
                NodeV::Text { content } => Some(content),
                _ => None,
            }
        } else {
            None
        },
        _ => None,
    }
}

/// The diagnostic a malformed run earns, in the order the checks are made.
pub open spec fn tspan_warning(n: NodeV) -> Option<Warning> {
    match n {
        NodeV::Element { children, .. } => if children.len() > 1 {
            Some(Warning::MultiChildRun)
        } else if children.len() == 0 {
            Some(Warning::EmptyRun)
        } else if !(children[0] matches NodeV::Text { .. }) {
            Some(Warning::NonTextRun)
        } else {
            None
        },
        _ => None,
    }
}

/// The element's font size in thousandths: its font-size attribute parsed,
/// 16 units when absent, `None` when present but malformed.
pub open spec fn size_of_attrs(attrs: Seq<AttrV>) -> Option<int> {
    match attr_value(attrs, an_font_size()) {
        Some(v) => parse_spec(v),
        None => Some(16000int),
    }
}

/// The alignment intent of an element: its identifier classified, for
/// elements with the text tag only.
pub open spec fn intent_of_el(name: Seq<u8>, attrs: Seq<AttrV>) -> Option<Alignment> {
    if name == tag_text() {
        match attr_value(attrs, an_id()) {
            Some(id) => classify_spec(id),
            None => None,
        }
    } else {
        None
    }
}

/// Overwrites the first attribute with the name, or appends one.
pub open spec fn set_attr_spec(attrs: Seq<AttrV>, name: Seq<u8>, value: Seq<u8>) -> Seq<AttrV> {
    match attr_index(attrs, name) {
        Some(i) => attrs.update(i, AttrV { name, value }),
        None => attrs.push(AttrV { name, value }),
    }
}

/// Removes the first style attribute when its whole value is the literal
/// white-space default; anything else is left alone.
pub open spec fn strip_style(attrs: Seq<AttrV>) -> Seq<AttrV> {
    match attr_index(attrs, an_style()) {
        Some(i) => if attrs[i].value == style_pre() {
            attrs.remove(i)
        } else {
            attrs
        },
        None => attrs,
    }
}

/// The adjusted coordinate: unchanged, advanced by half the width, or by the
/// whole width.
pub open spec fn new_x(x0: int, a: Alignment, w: int) -> int {
    match a {
        Alignment::Left => x0,
        Alignment::Center => x0 + half_val(w),
        Alignment::Right => x0 + w,
    }
}

/// A run's attributes after alignment: the x numeral rewritten when present
/// and well formed, then the anchor-mode attribute written.
pub open spec fn tspan_apply(attrs: Seq<AttrV>, a: Alignment, w: int) -> Seq<AttrV> {
    let attrs1 = match attr_index(attrs, an_x()) {
        Some(i) => match parse_spec(attrs[i].value) {
            Some(x0) => attrs.update(
                i,
                AttrV { name: an_x(), value: crate::num::format_spec(new_x(x0, a, w)) },
            ),
            None => attrs,
        },
        None => attrs,
    };
    set_attr_spec(attrs1, an_anchor(), anchor_value(a))
}

/// A qualifying run after alignment at width `w`.
pub open spec fn tspan_mutated(c: NodeV, a: Alignment, w: int) -> NodeV {
    match c {
        NodeV::Element { name, attrs, children } => NodeV::Element {
            name,
            attrs: tspan_apply(attrs, a, w),
            children,
        },
        _ => c,
    }
}

/// Does the child qualify for alignment under the given intent?
pub open spec fn q_tspan(intent: Option<Alignment>, c: NodeV) -> bool {
    intent is Some && is_tspan(c) && run_text(c) is Some
}

/// Is the run's x attribute, when present, a well-formed numeral?
pub open spec fn x_ok(c: NodeV) -> bool {
    match c {
        NodeV::Element { attrs, .. } => match attr_value(attrs, an_x()) {
            Some(v) => parse_spec(v) is Some,
            None => true,
        },
        _ => true,
    }
}

/// The pass succeeds on a node exactly when every numeral it must read is
/// well formed.
pub open spec fn ok_of(n: NodeV) -> bool
    decreases n,
{
    match n {
        NodeV::Text { .. } => true,
        NodeV::Element { name, attrs, children } => kids_ok(
            attrs,
            children,
            intent_of_el(name, attrs),
        ),
    }
}

pub open spec fn kids_ok(eattrs: Seq<AttrV>, cs: Seq<NodeV>, intent: Option<Alignment>) -> bool
    decreases cs,
{
    if cs.len() == 0 {
        true
    } else {
        let c = cs[0];
        if q_tspan(intent, c) {
            size_of_attrs(eattrs) is Some && x_ok(c) && kids_ok(
                strip_style(eattrs),
                cs.drop_first(),
                intent,
            )
        } else {
            ok_of(c) && kids_ok(eattrs, cs.drop_first(), intent)
        }
    }
}

/// The diagnostics the pass reports on a node, in order.
pub open spec fn warns_of(n: NodeV) -> Seq<Warning>
    decreases n,
{
    match n {
        NodeV::Text { .. } => Seq::empty(),
        NodeV::Element { name, attrs, children } => kids_warns(children, intent_of_el(name, attrs)),
    }
}

pub open spec fn kids_warns(cs: Seq<NodeV>, intent: Option<Alignment>) -> Seq<Warning>
    decreases cs,
{
    if cs.len() == 0 {
        Seq::empty()
    } else {
        let c = cs[0];
        if q_tspan(intent, c) {
            kids_warns(cs.drop_first(), intent)
        } else if intent is Some && is_tspan(c) && tspan_warning(c) is Some {
            seq![tspan_warning(c)->0] + warns_of(c) + kids_warns(cs.drop_first(), intent)
        } else {
            warns_of(c) + kids_warns(cs.drop_first(), intent)
        }
    }
}

/// Has the warning vector grown from `before` by exactly a prefix of `full`?
/// On an abandoned pass the diagnostics gathered so far are such a prefix.
pub open spec fn grown_by_prefix(
    before: Seq<Warning>,
    after: Seq<Warning>,
    full: Seq<Warning>,
) -> bool {
    exists|k: int| 0 <= k <= full.len() && after == before + full.take(k)
}

/// What the pass does to a node, given a predicate `p` relating measured
/// text and size to a width: every qualifying run is rewritten at some width
/// `p` admits; everything else is kept.
pub open spec fn walk_rel(p: spec_fn(Seq<u8>, int, i64) -> bool, o: NodeV, r: NodeV) -> bool
    decreases o,
{
    match o {
        NodeV::Text { .. } => r == o,
        NodeV::Element { name, attrs, children } => r matches NodeV::Element {
            name: rn,
            attrs: ra,
            children: rc,
        } && rn == name && kids_rel(p, attrs, children, intent_of_el(name, attrs), ra, rc),
    }
}

pub open spec fn kids_rel(
    p: spec_fn(Seq<u8>, int, i64) -> bool,
    eattrs: Seq<AttrV>,
    cs: Seq<NodeV>,
    intent: Option<Alignment>,
    rattrs: Seq<AttrV>,
    rcs: Seq<NodeV>,
) -> bool
    decreases cs,
{
    if cs.len() == 0 {
        rattrs == eattrs && rcs.len() == 0
    } else {
        let c = cs[0];
        rcs.len() == cs.len() && if q_tspan(intent, c) {
            size_of_attrs(eattrs) is Some && (exists|w: i64|
                p(run_text(c)->0, size_of_attrs(eattrs)->0, w) && rcs[0] == tspan_mutated(
                    c,
                    intent->0,
                    w as int,
                )) && kids_rel(p, strip_style(eattrs), cs.drop_first(), intent, rattrs,
                rcs.drop_first())
        } else {
            walk_rel(p, c, rcs[0]) && kids_rel(p, eattrs, cs.drop_first(), intent, rattrs,
                rcs.drop_first())
        }
    }
}

/// Overwrites the first attribute with the name, or appends one.
pub fn set_attr(attrs: &mut Vec<Attr>, name: Vec<u8>, value: Vec<u8>)
    ensures
        attrs_model(*final(attrs)) == set_attr_spec(attrs_model(*old(attrs)), name@, value@),
{
    let ghost m0 = attrs_model(*attrs);
    match find_attr(attrs, name.as_slice()) {
        Some(i) => {
            proof {
                lemma_attr_index_props(m0, name@);
            }
            attrs[i] = Attr { name, value };
            proof {
                assert(attrs_model(*attrs) =~= set_attr_spec(m0, name@, value@));
            }
        },
        None => {
            attrs.push(Attr { name, value });
            proof {
                assert(attrs_model(*attrs) =~= set_attr_spec(m0, name@, value@));
            }
        },
    }
}

/// Removes the style attribute when its whole value is the white-space
/// default literal.
pub fn remove_style(attrs: &mut Vec<Attr>)
    ensures
        attrs_model(*final(attrs)) == strip_style(attrs_model(*old(attrs))),
{
    let ghost m0 = attrs_model(*attrs);
    let sty = name_style();
    match find_attr(attrs, sty.as_slice()) {
        Some(i) => {
            proof {
                lemma_attr_index_props(m0, an_style());
            }
            let lit = style_pre_bytes();
            if bytes_eq(attrs[i].value.as_slice(), lit.as_slice()) {
                attrs.remove(i);
                proof {
                    assert(attrs_model(*attrs) =~= strip_style(m0));
                }
            }
        },
        None => {},
    }
}

/// Rewrites one run's attributes for an alignment at a measured width: the
/// x numeral is adjusted and rewritten when present, and the anchor-mode
/// attribute is written; a malformed x numeral is fatal and changes nothing.
pub fn align_run(attrs: &mut Vec<Attr>, a: Alignment, width: i64) -> (r: Result<(), PassError>)
    requires
        -WIDTH_CAP <= width <= WIDTH_CAP,
    ensures
        match r {
            Ok(()) => attrs_model(*final(attrs)) == tspan_apply(
                attrs_model(*old(attrs)),
                a,
                width as int,
            ) && (match attr_value(attrs_model(*old(attrs)), an_x()) {
                Some(v) => parse_spec(v) is Some,
                None => true,
            }),
            Err(e) => (match attr_value(attrs_model(*old(attrs)), an_x()) {
                Some(v) => parse_spec(v) is None,
                None => false,
            }) && e == PassError::MalformedNumeral && *final(attrs) == *old(attrs),
        },
{
    let ghost t0 = attrs_model(*attrs);
    let xn = name_x();
    match find_attr(attrs, xn.as_slice()) {
        Some(i) => {
            proof {
                lemma_attr_index_props(t0, an_x());
            }
            match parse_num(attrs[i].value.as_slice()) {
                Some(x0) => {
                    let nx: i64 = match a {
                        Alignment::Left => x0,
                        Alignment::Center => x0 + half_width(width),
                        Alignment::Right => x0 + width,
                    };
                    attrs[i] = Attr { name: xn, value: format_num(nx) };
                    proof {
                        assert(attrs_model(*attrs) =~= t0.update(
                            i as int,
                            AttrV {
                                name: an_x(),
                                value: crate::num::format_spec(new_x(x0 as int, a, width as int)),
                            },
                        ));
                    }
                },
                None => {
                    return Err(PassError::MalformedNumeral);
                },
            }
        },
        None => {},
    }
    set_attr(attrs, name_anchor(), anchor_value_bytes(a));
    Ok(())
}

/// The element's font size in thousandths, or the malformed-numeral error.
pub fn font_size_of(attrs: &Vec<Attr>) -> (r: Result<i64, PassError>)
    ensures
        match r {
            Ok(v) => size_of_attrs(attrs_model(*attrs)) == Some(v as int) && -VAL_BOUND <= v
                <= VAL_BOUND,
            Err(e) => size_of_attrs(attrs_model(*attrs)) is None && e
                == PassError::MalformedNumeral,
        },
{
    let fs = name_font_size();
    match find_attr(attrs, fs.as_slice()) {
        Some(i) => {
            proof {
                lemma_attr_index_props(attrs_model(*attrs), an_font_size());
            }
            match parse_num(attrs[i].value.as_slice()) {
                Some(v) => Ok(v),
                None => Err(PassError::MalformedNumeral),
            }
        },
        None => Ok(16000),
    }
}


/// Size of a node: itself and all its descendants.
pub open spec fn node_size(n: NodeV) -> nat
    decreases n,
{
    match n {
        NodeV::Text { .. } => 1,
        NodeV::Element { children, .. } => 1 + nodes_size(children),
    }
}

pub open spec fn nodes_size(s: Seq<NodeV>) -> nat
    decreases s,
{
    if s.len() == 0 {
        0
    } else {
        node_size(s[0]) + nodes_size(s.drop_first())
    }
}

proof fn lemma_node_size_pos(n: NodeV)
    ensures
        node_size(n) >= 1,
{
}

/// The width relation an executable measurer induces: a width it can return
/// for the text at the size.
pub open spec fn m_pred<F: Fn(&[u8], i64) -> i64>(m: F) -> spec_fn(Seq<u8>, int, i64) -> bool {
    |text: Seq<u8>, size: int, w: i64|
        exists|t: &[u8]| t@ == text && call_ensures(m, (t, size as i64), w)
}

/// Walks the children of one element: aligns each qualifying run at a
/// measured width, reports malformed runs, and recurses into everything
/// else, exactly as `walk` does below.
#[verifier::rlimit(60)]
fn process_kids<F: Fn(&[u8], i64) -> i64>(
    eattrs: Vec<Attr>,
    cs: Vec<Node>,
    intent: Option<Alignment>,
    measure: &F,
    warns: &mut Vec<Warning>,
) -> (r: Result<(Vec<Attr>, Vec<Node>), PassError>)
    requires
        forall|t: &[u8], s: i64| -VAL_BOUND <= s <= VAL_BOUND ==> call_requires(*measure, (t, s)),
        forall|t: &[u8], s: i64, w: i64|
            call_ensures(*measure, (t, s), w) ==> -WIDTH_CAP <= w <= WIDTH_CAP,
    ensures
        match r {
            Ok(p) => kids_ok(attrs_model(eattrs), nodes_view(cs@), intent) && kids_rel(
                m_pred(*measure),
                attrs_model(eattrs),
                nodes_view(cs@),
                intent,
                attrs_model(p.0),
                nodes_view(p.1@),
            ) && final(warns)@ == old(warns)@ + kids_warns(nodes_view(cs@), intent),
            Err(e) => !kids_ok(attrs_model(eattrs), nodes_view(cs@), intent) && e
                == PassError::MalformedNumeral && grown_by_prefix(
                old(warns)@,
                final(warns)@,
                kids_warns(nodes_view(cs@), intent),
            ),
        },
    decreases nodes_size(nodes_view(cs@)), 1nat,
{
    let ghost cs0 = nodes_view(cs@);
    let ghost ea0 = attrs_model(eattrs);
    let ghost w0 = warns@;
    proof {
        lemma_nodes_view(cs@);
    }
    if cs.len() == 0 {
        proof {
            assert(cs0 =~= Seq::<NodeV>::empty());
            assert(w0 + kids_warns(cs0, intent) =~= warns@);
        }
        return Ok((eattrs, cs));
    }
    let mut cs = cs;
    let mut eattrs = eattrs;
    let c = cs.remove(0);
    let ghost cv = c@;
    proof {
        lemma_nodes_view(cs@);
        assert(cv == cs0[0]);
        assert(nodes_view(cs@) =~= cs0.drop_first());
        lemma_node_size_pos(cv);
    }
    // how this child is treated
    let mut qual = false;
    let mut warn: Option<Warning> = None;
    if intent.is_some() {
        match &c {
            Node::Element { name, children: tch, .. } => {
                if bytes_eq(name.as_slice(), name_tspan().as_slice()) {
                    proof {
                        lemma_nodes_view(tch@);
                    }
                    if tch.len() > 1 {
                        warn = Some(Warning::MultiChildRun);
                    } else if tch.len() == 0 {
                        warn = Some(Warning::EmptyRun);
                    } else {
                        let is_text = match &tch[0] {
                            Node::Text { .. } => true,
                            _ => false,
                        };
                        if is_text {
                            qual = true;
                        } else {
                            warn = Some(Warning::NonTextRun);
                        }
                    }
                }
            },
            _ => {},
        }
    }
    proof {
        assert(qual == q_tspan(intent, cv));
        if warn is Some {
            assert(intent is Some && is_tspan(cv) && tspan_warning(cv) == warn);
        }
        if !qual && warn is None {
            assert(!(intent is Some && is_tspan(cv) && tspan_warning(cv) is Some));
        }
    }
    if qual {
        let a = match intent {
            Some(a) => a,
            None => {
                // a qualifying run exists only under an intent
                proof {
                    assert(false);
                }
                return Err(PassError::MalformedNumeral);
            },
        };
        let size = match font_size_of(&eattrs) {
            Ok(v) => v,
            Err(e) => {
                proof {
                    assert(kids_warns(cs0, intent).take(0) =~= Seq::<Warning>::empty());
                    assert(warns@ =~= w0 + kids_warns(cs0, intent).take(0));
                    assert(grown_by_prefix(w0, warns@, kids_warns(cs0, intent)));
                }
                return Err(e);
            },
        };
        match c {
            Node::Element { name, attrs: tattrs, children: tch } => {
                let ghost t0 = attrs_model(tattrs);
                let mut tattrs = tattrs;
                let w: i64 = {
                    let first = &tch[0];
                    match first {
                        Node::Text { content } => measure(content.as_slice(), size),
                        _ => {
                            // a qualifying run's single child is text
                            proof {
                                assert(false);
                            }
                            0
                        },
                    }
                };
                proof {
                    lemma_nodes_view(tch@);
                    assert(run_text(cv)->0 == tch@[0]@->Text_content);
                    assert(m_pred(*measure)(run_text(cv)->0, size as int, w));
                    assert(-WIDTH_CAP <= w <= WIDTH_CAP);
                }
                match align_run(&mut tattrs, a, w) {
                    Ok(()) => {},
                    Err(e) => {
                        proof {
                            assert(!x_ok(cv));
                            assert(kids_warns(cs0, intent).take(0) =~= Seq::<Warning>::empty());
                            assert(warns@ =~= w0 + kids_warns(cs0, intent).take(0));
                            assert(grown_by_prefix(w0, warns@, kids_warns(cs0, intent)));
                        }
                        return Err(e);
                    },
                }
                proof {
                    assert(attrs_model(tattrs) == tspan_apply(t0, a, w as int));
                }
                remove_style(&mut eattrs);
                let c2 = Node::Element { name, attrs: tattrs, children: tch };
                proof {
                    assert(c2@ == tspan_mutated(cv, a, w as int));
                    assert(nodes_size(nodes_view(cs@)) < nodes_size(cs0));
                }
                match process_kids(eattrs, cs, intent, measure, warns) {
                    Ok((ra, mut rcs)) => {
                        let ghost r0 = rcs@;
                        rcs.insert(0, c2);
                        proof {
                            assert(rcs@.drop_first() =~= r0);
                            lemma_nodes_view(rcs@);
                            lemma_nodes_view(r0);
                            assert(nodes_view(rcs@).drop_first() =~= nodes_view(r0));
                            assert(nodes_view(rcs@)[0] == c2@);
                            assert(nodes_view(rcs@).len() == cs0.len());
                            assert(m_pred(*measure)(run_text(cv)->0, size_of_attrs(ea0)->0, w)
                                && nodes_view(rcs@)[0] == tspan_mutated(cv, intent->0, w as int));
                            assert(kids_rel(m_pred(*measure), ea0, cs0, intent, attrs_model(ra),
                                nodes_view(rcs@)));
                            assert(w0 + kids_warns(cs0, intent) =~= warns@);
                        }
                        Ok((ra, rcs))
                    },
                    Err(e) => {
                        proof {
                            let restw = kids_warns(cs0.drop_first(), intent);
                            let k2 = choose|k: int|
                                0 <= k <= restw.len() && warns@ == w0 + restw.take(k);
                            assert(kids_warns(cs0, intent) == restw);
                            assert(grown_by_prefix(w0, warns@, kids_warns(cs0, intent)));
                        }
                        Err(e)
                    },
                }
            },
            _ => {
                // a qualifying run is an element
                proof {
                    assert(false);
                }
                Err(PassError::MalformedNumeral)
            },
        }
    } else {
        if let Some(wv) = warn {
            warns.push(wv);
        }
        let ghost wcall = warns@;
        let ghost head: Seq<Warning> = if warn is Some {
            seq![warn->0] + warns_of(cv)
        } else {
            warns_of(cv)
        };
        proof {
            assert(node_size(cv) < nodes_size(cs0) + 1);
            if warn is Some {
                assert(wcall =~= w0 + seq![warn->0]);
            }
            assert(kids_warns(cs0, intent) =~= head + kids_warns(cs0.drop_first(), intent));
        }
        let c2 = match walk(c, measure, warns) {
            Ok(v) => v,
            Err(e) => {
                proof {
                    let k1 = choose|k: int|
                        0 <= k <= warns_of(cv).len() && warns@ == wcall + warns_of(cv).take(k);
                    if warn is Some {
                        assert(kids_warns(cs0, intent).take(1 + k1) =~= seq![warn->0]
                            + warns_of(cv).take(k1));
                        assert(warns@ =~= w0 + kids_warns(cs0, intent).take(1 + k1));
                    } else {
                        assert(kids_warns(cs0, intent).take(k1) =~= warns_of(cv).take(k1));
                        assert(warns@ =~= w0 + kids_warns(cs0, intent).take(k1));
                    }
                    assert(grown_by_prefix(w0, warns@, kids_warns(cs0, intent)));
                }
                return Err(e);
            },
        };
        let ghost wrec = warns@;
        proof {
            assert(nodes_size(nodes_view(cs@)) < nodes_size(cs0));
            assert(wrec =~= w0 + head);
        }
        match process_kids(eattrs, cs, intent, measure, warns) {
            Ok((ra, mut rcs)) => {
                let ghost r0 = rcs@;
                rcs.insert(0, c2);
                proof {
                    assert(rcs@.drop_first() =~= r0);
                    lemma_nodes_view(rcs@);
                    lemma_nodes_view(r0);
                    assert(nodes_view(rcs@).drop_first() =~= nodes_view(r0));
                    assert(nodes_view(rcs@)[0] == c2@);
                    assert(nodes_view(rcs@).len() == cs0.len());
                    assert(walk_rel(m_pred(*measure), cs0[0], nodes_view(rcs@)[0]));
                    assert(kids_rel(m_pred(*measure), ea0, cs0, intent, attrs_model(ra),
                        nodes_view(rcs@)));
                    assert(w0 + kids_warns(cs0, intent) =~= warns@);
                }
                Ok((ra, rcs))
            },
            Err(e) => {
                proof {
                    let restw = kids_warns(cs0.drop_first(), intent);
                    let k2 = choose|k: int|
                        0 <= k <= restw.len() && warns@ == wrec + restw.take(k);
                    assert(kids_warns(cs0, intent).take(head.len() + k2) =~= head + restw.take(
                        k2,
                    ));
                    assert(warns@ =~= w0 + kids_warns(cs0, intent).take(head.len() + k2));
                    assert(grown_by_prefix(w0, warns@, kids_warns(cs0, intent)));
                }
                Err(e)
            },
        }
    }
}

/// Walks the tree depth first, visiting a node before its children: on every
/// element with the text tag whose identifier encodes an alignment, each
/// qualifying run is re-anchored at its measured width; malformed runs are
/// reported and skipped; a malformed numeral abandons the pass.
#[verifier::rlimit(60)]
pub fn walk<F: Fn(&[u8], i64) -> i64>(n: Node, measure: &F, warns: &mut Vec<Warning>) -> (r:
    Result<Node, PassError>)
    requires
        forall|t: &[u8], s: i64| -VAL_BOUND <= s <= VAL_BOUND ==> call_requires(*measure, (t, s)),
        forall|t: &[u8], s: i64, w: i64|
            call_ensures(*measure, (t, s), w) ==> -WIDTH_CAP <= w <= WIDTH_CAP,
    ensures
        match r {
            Ok(n2) => ok_of(n@) && walk_rel(m_pred(*measure), n@, n2@) && final(warns)@ == old(
                warns,
            )@ + warns_of(n@),
            Err(e) => !ok_of(n@) && e == PassError::MalformedNumeral && grown_by_prefix(
                old(warns)@,
                final(warns)@,
                warns_of(n@),
            ),
        },
    decreases node_size(n@), 0nat,
{
    let ghost nv = n@;
    let ghost w0 = warns@;
    match n {
        Node::Text { content } => {
            proof {
                assert(w0 + warns_of(nv) =~= warns@);
            }
            Ok(Node::Text { content })
        },
        Node::Element { name, attrs, children } => {
            let intent: Option<Alignment> = if bytes_eq(name.as_slice(), name_text().as_slice()) {
                let idn = name_id();
                match find_attr(&attrs, idn.as_slice()) {
                    Some(i) => {
                        proof {
                            lemma_attr_index_props(attrs_model(attrs), an_id());
                        }
                        classify(attrs[i].value.as_slice())
                    },
                    None => None,
                }
            } else {
                None
            };
            proof {
                assert(intent == intent_of_el(name@, attrs_model(attrs)));
                assert(nodes_size(nodes_view(children@)) < node_size(nv));
            }
            match process_kids(attrs, children, intent, measure, warns) {
                Ok((ra, rcs)) => {
                    let n2 = Node::Element { name, attrs: ra, children: rcs };
                    proof {
                        assert(walk_rel(m_pred(*measure), nv, n2@));
                        assert(w0 + warns_of(nv) =~= warns@);
                    }
                    Ok(n2)
                },
                Err(e) => {
                    proof {
                        assert(warns_of(nv) == kids_warns(nodes_view(children@), intent));
                        assert(grown_by_prefix(w0, warns@, warns_of(nv)));
                    }
                    Err(e)
                },
            }
        },
    }
}


/// The width relation the font context induces: exactly the width of the
/// face's own advances for the text, scaled; empty text has width zero.
pub open spec fn fm_pred(fm: FontMetrics) -> spec_fn(Seq<u8>, int, i64) -> bool {
    |text: Seq<u8>, size: int, w: i64|
        -WIDTH_CAP <= w <= WIDTH_CAP && w as int == width_of(
            advances_of(fm.face, text),
            size,
            fm.scale_ppm as int,
            fm.line_units as int,
        ) && (text.len() == 0 ==> w == 0)
}

/// A run rewritten under a stronger width relation is also rewritten under a
/// weaker one, at the sizes the pass can read.
pub proof fn lemma_walk_rel_weaken(
    p1: spec_fn(Seq<u8>, int, i64) -> bool,
    p2: spec_fn(Seq<u8>, int, i64) -> bool,
    o: NodeV,
    r: NodeV,
)
    requires
        walk_rel(p1, o, r),
        forall|text: Seq<u8>, size: int, w: i64|
            -VAL_BOUND <= size <= VAL_BOUND && #[trigger] p1(text, size, w) ==> p2(text, size, w),
    ensures
        walk_rel(p2, o, r),
    decreases node_size(o), 0nat,
{
    match o {
        NodeV::Text { .. } => {},
        NodeV::Element { name, attrs, children } => {
            match r {
                NodeV::Element { name: rn, attrs: ra, children: rc } => {
                    lemma_kids_rel_weaken(p1, p2, attrs, children, intent_of_el(name, attrs), ra,
                        rc);
                },
                _ => {},
            }
        },
    }
}

proof fn lemma_kids_rel_weaken(
    p1: spec_fn(Seq<u8>, int, i64) -> bool,
    p2: spec_fn(Seq<u8>, int, i64) -> bool,
    eattrs: Seq<AttrV>,
    cs: Seq<NodeV>,
    intent: Option<Alignment>,
    rattrs: Seq<AttrV>,
    rcs: Seq<NodeV>,
)
    requires
        kids_rel(p1, eattrs, cs, intent, rattrs, rcs),
        forall|text: Seq<u8>, size: int, w: i64|
            -VAL_BOUND <= size <= VAL_BOUND && #[trigger] p1(text, size, w) ==> p2(text, size, w),
    ensures
        kids_rel(p2, eattrs, cs, intent, rattrs, rcs),
    decreases nodes_size(cs), 1nat,
{
    if cs.len() > 0 {
        let c = cs[0];
        lemma_node_size_pos(c);
        if q_tspan(intent, c) {
            let size = size_of_attrs(eattrs)->0;
            assert(-VAL_BOUND <= size <= VAL_BOUND) by {
                match attr_value(eattrs, an_font_size()) {
                    Some(v) => {
                        crate::num::lemma_parse_bound(v);
                    },
                    None => {},
                }
            }
            let w = choose|w: i64|
                p1(run_text(c)->0, size, w) && rcs[0] == tspan_mutated(c, intent->0, w as int);
            assert(p2(run_text(c)->0, size, w) && rcs[0] == tspan_mutated(
                c,
                intent->0,
                w as int,
            ));
            lemma_kids_rel_weaken(p1, p2, strip_style(eattrs), cs.drop_first(), intent, rattrs,
                rcs.drop_first());
        } else {
            lemma_walk_rel_weaken(p1, p2, c, rcs[0]);
            lemma_kids_rel_weaken(p1, p2, eattrs, cs.drop_first(), intent, rattrs,
                rcs.drop_first());
        }
    }
}

/// Runs the whole pass over a document with a loaded font: every qualifying
/// run under an alignment-bearing identifier is re-anchored at its measured
/// width, structural anomalies are reported and skipped, and a malformed
/// numeral abandons the pass.
pub fn process_document(n: Node, fm: &FontMetrics, warns: &mut Vec<Warning>) -> (r: Result<
    Node,
    PassError,
>)
    requires
        fm.wf(),
    ensures
        match r {
            Ok(n2) => ok_of(n@) && walk_rel(fm_pred(*fm), n@, n2@) && final(warns)@ == old(
                warns,
            )@ + warns_of(n@),
            Err(e) => !ok_of(n@) && e == PassError::MalformedNumeral && grown_by_prefix(
                old(warns)@,
                final(warns)@,
                warns_of(n@),
            ),
        },
{
    let m = |t: &[u8], s: i64| -> (w: i64)
        requires
            -VAL_BOUND <= s <= VAL_BOUND,
            fm.wf(),
        ensures
            -WIDTH_CAP <= w <= WIDTH_CAP,
            w as int == width_of(
                advances_of(fm.face, t@),
                s as int,
                fm.scale_ppm as int,
                fm.line_units as int,
            ),
            t@.len() == 0 ==> w == 0,
        {
            fm.measure(t, s)
        };
    let r = walk(n, &m, warns);
    match r {
        Ok(n2) => {
            proof {
                assert forall|text: Seq<u8>, size: int, w: i64|
                    -VAL_BOUND <= size <= VAL_BOUND && #[trigger] m_pred(m)(text, size, w) implies fm_pred(
                    *fm,
                )(text, size, w) by {
                    let t = choose|t: &[u8]|
                        t@ == text && call_ensures(m, (t, size as i64), w);
                }
                lemma_walk_rel_weaken(m_pred(m), fm_pred(*fm), n@, n2@);
            }
            Ok(n2)
        },
        Err(e) => Err(e),
    }
}

/// Does no element of the tree carry an alignment-bearing identifier?
pub open spec fn no_targets(n: NodeV) -> bool
    decreases n,
{
    match n {
        NodeV::Text { .. } => true,
        NodeV::Element { name, attrs, children } => intent_of_el(name, attrs) is None
            && no_targets_seq(children),
    }
}

pub open spec fn no_targets_seq(s: Seq<NodeV>) -> bool
    decreases s,
{
    s.len() == 0 || (no_targets(s[0]) && no_targets_seq(s.drop_first()))
}

/// A document with no alignment-bearing identifier comes through the pass
/// unchanged.
pub proof fn lemma_no_targets_unchanged(p: spec_fn(Seq<u8>, int, i64) -> bool, o: NodeV, r: NodeV)
    requires
        walk_rel(p, o, r),
        no_targets(o),
    ensures
        r == o,
    decreases node_size(o), 0nat,
{
    match o {
        NodeV::Text { .. } => {},
        NodeV::Element { name, attrs, children } => {
            match r {
                NodeV::Element { name: rn, attrs: ra, children: rc } => {
                    lemma_no_targets_kids(p, attrs, children, ra, rc);
                    assert(rc =~= children);
                },
                _ => {},
            }
        },
    }
}

proof fn lemma_no_targets_kids(
    p: spec_fn(Seq<u8>, int, i64) -> bool,
    eattrs: Seq<AttrV>,
    cs: Seq<NodeV>,
    rattrs: Seq<AttrV>,
    rcs: Seq<NodeV>,
)
    requires
        kids_rel(p, eattrs, cs, None, rattrs, rcs),
        no_targets_seq(cs),
    ensures
        rattrs == eattrs,
        rcs.len() == cs.len(),
        forall|i: int| 0 <= i < cs.len() ==> rcs[i] == cs[i],
    decreases nodes_size(cs), 1nat,
{
    if cs.len() > 0 {
        lemma_node_size_pos(cs[0]);
        lemma_no_targets_unchanged(p, cs[0], rcs[0]);
        lemma_no_targets_kids(p, eattrs, cs.drop_first(), rattrs, rcs.drop_first());
        assert(forall|i: int|
            1 <= i < cs.len() ==> rcs[i] == rcs.drop_first()[i - 1] && cs[i] == cs.drop_first()[i
                - 1]);
    }
}

} // verus!
