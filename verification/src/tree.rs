use vstd::prelude::*;

verus! {

broadcast use vstd::std_specs::vec::group_vec_axioms, vstd::seq::group_seq_axioms;

/// One attribute of an element: a name and a value, both byte strings.
pub struct Attr {
    pub name: Vec<u8>,
    pub value: Vec<u8>,
}

/// A document tree node: an element with a tag name, attributes and ordered
/// children, or a text payload.
pub enum Node {
    Element { name: Vec<u8>, attrs: Vec<Attr>, children: Vec<Node> },
    Text { content: Vec<u8> },
}

/// Mathematical model of an attribute.
pub struct AttrV {
    pub name: Seq<u8>,
    pub value: Seq<u8>,
}

/// Mathematical model of a node.
pub enum NodeV {
    Element { name: Seq<u8>, attrs: Seq<AttrV>, children: Seq<NodeV> },
    Text { content: Seq<u8> },
}

impl View for Attr {
    type V = AttrV;

    open spec fn view(&self) -> AttrV {
        AttrV { name: self.name@, value: self.value@ }
    }
}

/// Models of a sequence of nodes, in order.
pub open spec fn nodes_view(s: Seq<Node>) -> Seq<NodeV>
    decreases s,
{
    if s.len() == 0 {
        Seq::empty()
    } else {
        seq![s[0]@] + nodes_view(s.drop_first())
    }
}

impl View for Node {
    type V = NodeV;

    open spec fn view(&self) -> NodeV
        decreases self,
    {
        match self {
            Node::Element { name, attrs, children } => NodeV::Element {
                name: name@,
                attrs: Seq::new(attrs@.len(), |i: int| attrs@[i]@),
                children: nodes_view(children@),
            },
            Node::Text { content } => NodeV::Text { content: content@ },
        }
    }
}

pub proof fn lemma_nodes_view(s: Seq<Node>)
    ensures
        nodes_view(s).len() == s.len(),
        forall|i: int| 0 <= i < s.len() ==> nodes_view(s)[i] == s[i]@,
    decreases s,
{
    if s.len() > 0 {
        lemma_nodes_view(s.drop_first());
        assert(nodes_view(s) == seq![s[0]@] + nodes_view(s.drop_first()));
        assert(nodes_view(s).len() == s.len());
        assert(forall|i: int| 1 <= i < s.len() ==> #[trigger] s[i] == s.drop_first()[i - 1]);
        assert(forall|i: int| 0 <= i < s.len() ==> nodes_view(s)[i] == s[i]@);
    }
}

/// Are two byte slices equal?
pub fn bytes_eq(a: &[u8], b: &[u8]) -> (r: bool)
    ensures
        r == (a@ == b@),
{
    if a.len() != b.len() {
        return false;
    }
    let mut j: usize = 0;
    while j < a.len()
        invariant
            j <= a.len(),
            a@.len() == b@.len(),
            forall|k: int| 0 <= k < j ==> a@[k] == b@[k],
        decreases a.len() - j,
    {
        if a[j] != b[j] {
            return false;
        }
        j = j + 1;
    }
    proof {
        assert(a@ =~= b@);
    }
    true
}

/// Index of the first attribute with the given name, if any.
pub open spec fn attr_index(attrs: Seq<AttrV>, name: Seq<u8>) -> Option<int>
    decreases attrs.len(),
{
    if attrs.len() == 0 {
        None
    } else if attrs[0].name == name {
        Some(0int)
    } else {
        match attr_index(attrs.drop_first(), name) {
            Some(i) => Some(i + 1),
            None => None,
        }
    }
}

/// Value of the first attribute with the given name, if any.
pub open spec fn attr_value(attrs: Seq<AttrV>, name: Seq<u8>) -> Option<Seq<u8>> {
    match attr_index(attrs, name) {
        Some(i) => Some(attrs[i].value),
        None => None,
    }
}

pub proof fn lemma_attr_index_props(attrs: Seq<AttrV>, name: Seq<u8>)
    ensures
        match attr_index(attrs, name) {
            Some(i) => 0 <= i < attrs.len() && attrs[i].name == name && forall|k: int|
                0 <= k < i ==> attrs[k].name != name,
            None => forall|k: int| 0 <= k < attrs.len() ==> attrs[k].name != name,
        },
    decreases attrs.len(),
{
    if attrs.len() > 0 && attrs[0].name != name {
        lemma_attr_index_props(attrs.drop_first(), name);
        assert(forall|k: int| 1 <= k < attrs.len() ==> #[trigger] attrs[k] == attrs.drop_first()[k - 1]);
    }
}

/// Model of an attribute vector.
pub open spec fn attrs_model(attrs: Vec<Attr>) -> Seq<AttrV> {
    Seq::new(attrs@.len(), |i: int| attrs@[i]@)
}

/// Finds the index of the first attribute with the given name.
pub fn find_attr(attrs: &Vec<Attr>, name: &[u8]) -> (r: Option<usize>)
    ensures
        match r {
            Some(i) => attr_index(attrs_model(*attrs), name@) == Some(i as int),
            None => attr_index(attrs_model(*attrs), name@) is None,
        },
{
    let ghost model = attrs_model(*attrs);
    let mut j: usize = 0;
    while j < attrs.len()
        invariant
            j <= attrs.len(),
            model == attrs_model(*attrs),
            model.len() == attrs@.len(),
            forall|k: int| 0 <= k < attrs@.len() ==> model[k] == #[trigger] attrs@[k]@,
            forall|k: int| 0 <= k < j ==> model[k].name != name@,
        decreases attrs.len() - j,
    {
        if bytes_eq(attrs[j].name.as_slice(), name) {
            proof {
                lemma_attr_index_skip(model, name@, j as int);
            }
            return Some(j);
        }
        j = j + 1;
    }
    proof {
        lemma_attr_index_props(model, name@);
    }
    None
}

/// If the first `j` attributes miss the name and attribute `j` has it, the
/// first index with the name is `j`.
proof fn lemma_attr_index_skip(attrs: Seq<AttrV>, name: Seq<u8>, j: int)
    requires
        0 <= j < attrs.len(),
        attrs[j].name == name,
        forall|k: int| 0 <= k < j ==> attrs[k].name != name,
    ensures
        attr_index(attrs, name) == Some(j),
    decreases j,
{
    if j > 0 {
        lemma_attr_index_skip(attrs.drop_first(), name, j - 1);
    }
}

} // verus!
