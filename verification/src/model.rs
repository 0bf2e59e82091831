use vstd::prelude::*;

verus! {

/// One value in a parsed document tree: a scalar, an ordered sequence of
/// child values, or an associative mapping from string keys to values.
///
/// Scalar text (string contents, mapping keys, and the source text of real
/// numbers, which the underlying format itself stores as text) is held as
/// bytes.  `Malformed` stands for a fragment that the parser could not give
/// a meaning to; it is carried through every transform without failing.
#[derive(Debug, PartialEq, Eq)]
pub enum Node {
    Null,
    Bool(bool),
    Int(i64),
    Float(Vec<u8>),
    Str(Vec<u8>),
    Sequence(Vec<Node>),
    Mapping(Vec<(Vec<u8>, Node)>),
    Malformed,
}

/// The mathematical value of a `Node`: the same tree, over `Seq` and `int`.
/// All contracts and laws in this crate speak of `NodeV` values.
#[verifier::ext_equal]
pub enum NodeV {
    Null,
    Bool(bool),
    Int(int),
    Float(Seq<u8>),
    Str(Seq<u8>),
    Sequence(Seq<NodeV>),
    Mapping(Seq<(Seq<u8>, NodeV)>),
    Malformed,
}

pub open spec fn node_view(n: Node) -> NodeV
    decreases n,
{
    match n {
        Node::Null => NodeV::Null,
        Node::Bool(b) => NodeV::Bool(b),
        Node::Int(i) => NodeV::Int(i as int),
        Node::Float(t) => NodeV::Float(t@),
        Node::Str(t) => NodeV::Str(t@),
        Node::Sequence(v) => NodeV::Sequence(seq_view(v@)),
        Node::Mapping(e) => NodeV::Mapping(entries_view(e@)),
        Node::Malformed => NodeV::Malformed,
    }
}

pub open spec fn seq_view(s: Seq<Node>) -> Seq<NodeV>
    decreases s,
{
    if s.len() == 0 {
        Seq::empty()
    } else {
        seq![node_view(s[0])] + seq_view(s.drop_first())
    }
}

pub open spec fn entries_view(s: Seq<(Vec<u8>, Node)>) -> Seq<(Seq<u8>, NodeV)>
    decreases s,
{
    if s.len() == 0 {
        Seq::empty()
    } else {
        seq![(s[0].0@, node_view(s[0].1))] + entries_view(s.drop_first())
    }
}

impl View for Node {
    type V = NodeV;

    open spec fn view(&self) -> NodeV {
        node_view(*self)
    }
}

/// `seq_view` maps `node_view` over the sequence, element by element.
pub proof fn lemma_seq_view(s: Seq<Node>)
    ensures
        seq_view(s).len() == s.len(),
        forall|i: int| 0 <= i < s.len() ==> seq_view(s)[i] == node_view(s[i]),
    decreases s,
{
    if s.len() > 0 {
        lemma_seq_view(s.drop_first());
        assert forall|i: int| 0 <= i < s.len() implies seq_view(s)[i] == node_view(s[i]) by {
            if i > 0 {
                assert(seq_view(s)[i] == seq_view(s.drop_first())[i - 1]);
                assert(s.drop_first()[i - 1] == s[i]);
            }
        }
    }
}

/// `entries_view` maps the pair view over the entries, element by element.
pub proof fn lemma_entries_view(s: Seq<(Vec<u8>, Node)>)
    ensures
        entries_view(s).len() == s.len(),
        forall|i: int| 0 <= i < s.len() ==> entries_view(s)[i]
            == (s[i].0@, node_view(s[i].1)),
    decreases s,
{
    if s.len() > 0 {
        lemma_entries_view(s.drop_first());
        assert forall|i: int| 0 <= i < s.len() implies entries_view(s)[i]
            == (s[i].0@, node_view(s[i].1)) by {
            if i > 0 {
                assert(entries_view(s)[i] == entries_view(s.drop_first())[i - 1]);
                assert(s.drop_first()[i - 1] == s[i]);
            }
        }
    }
}

/// Does a malformed fragment stand anywhere in the tree?
pub open spec fn has_malformed(n: NodeV) -> bool
    decreases n,
{
    match n {
        NodeV::Malformed => true,
        NodeV::Sequence(x) => elems_have_malformed(x),
        NodeV::Mapping(x) => ents_have_malformed(x),
        _ => false,
    }
}

pub open spec fn elems_have_malformed(x: Seq<NodeV>) -> bool
    decreases x,
{
    if x.len() == 0 {
        false
    } else {
        has_malformed(x[0]) || elems_have_malformed(x.drop_first())
    }
}

pub open spec fn ents_have_malformed(x: Seq<(Seq<u8>, NodeV)>) -> bool
    decreases x,
{
    if x.len() == 0 {
        false
    } else {
        has_malformed(x[0].1) || ents_have_malformed(x.drop_first())
    }
}

pub proof fn lemma_elems_have_malformed_iff(x: Seq<NodeV>)
    ensures
        elems_have_malformed(x) <==> exists|i: int| 0 <= i < x.len() && has_malformed(x[i]),
    decreases x,
{
    if x.len() > 0 {
        lemma_elems_have_malformed_iff(x.drop_first());
        assert(forall|i: int| 0 <= i < x.drop_first().len() ==> x.drop_first()[i] == x[i + 1]);
        if elems_have_malformed(x) {
            if has_malformed(x[0]) {
                assert(exists|i: int| 0 <= i < x.len() && has_malformed(x[i]));
            } else {
                let k = choose|k: int| 0 <= k < x.drop_first().len()
                    && has_malformed(x.drop_first()[k]);
                assert(has_malformed(x[k + 1]));
            }
        }
        if exists|i: int| 0 <= i < x.len() && has_malformed(x[i]) {
            let k = choose|k: int| 0 <= k < x.len() && has_malformed(x[k]);
            if k > 0 {
                assert(has_malformed(x.drop_first()[k - 1]));
            }
        }
    }
}

pub proof fn lemma_ents_have_malformed_iff(x: Seq<(Seq<u8>, NodeV)>)
    ensures
        ents_have_malformed(x) <==> exists|i: int| 0 <= i < x.len() && has_malformed(x[i].1),
    decreases x,
{
    if x.len() > 0 {
        lemma_ents_have_malformed_iff(x.drop_first());
        assert(forall|i: int| 0 <= i < x.drop_first().len() ==> x.drop_first()[i] == x[i + 1]);
        if ents_have_malformed(x) {
            if has_malformed(x[0].1) {
                assert(exists|i: int| 0 <= i < x.len() && has_malformed(x[i].1));
            } else {
                let k = choose|k: int| 0 <= k < x.drop_first().len()
                    && has_malformed(x.drop_first()[k].1);
                assert(has_malformed(x[k + 1].1));
            }
        }
        if exists|i: int| 0 <= i < x.len() && has_malformed(x[i].1) {
            let k = choose|k: int| 0 <= k < x.len() && has_malformed(x[k].1);
            if k > 0 {
                assert(has_malformed(x.drop_first()[k - 1].1));
            }
        }
    }
}

/// Does a malformed fragment stand anywhere in the tree?
pub fn node_has_malformed(n: &Node) -> (r: bool)
    ensures
        r == has_malformed(n@),
    decreases *n,
{
    match n {
        Node::Malformed => true,
        Node::Sequence(x) => {
            proof {
                lemma_seq_view(x@);
                lemma_elems_have_malformed_iff(seq_view(x@));
            }
            let mut i: usize = 0;
            while i < x.len()
                invariant
                    i <= x@.len(),
                    *n == Node::Sequence(*x),
                    seq_view(x@).len() == x@.len(),
                    forall|j: int| 0 <= j < x@.len() ==> seq_view(x@)[j] == node_view(x@[j]),
                    forall|j: int| 0 <= j < i ==> !has_malformed(node_view(x@[j])),
                decreases x@.len() - i,
            {
                proof {
                    assert(decreases_to!(*n => (*n)->Sequence_0));
                    assert((*n)->Sequence_0 == *x);
                    assert(decreases_to!(*x => x@));
                    assert(decreases_to!(x@ => x@[i as int]));
                    assert(decreases_to!(*n => x@[i as int]));
                }
                if node_has_malformed(&x[i]) {
                    proof {
                        lemma_seq_view(x@);
                        lemma_elems_have_malformed_iff(seq_view(x@));
                        assert(has_malformed(seq_view(x@)[i as int]));
                    }
                    return true;
                }
                i += 1;
            }
            proof {
                assert(!elems_have_malformed(seq_view(x@)));
            }
            false
        }
        Node::Mapping(x) => {
            proof {
                lemma_entries_view(x@);
                lemma_ents_have_malformed_iff(entries_view(x@));
            }
            let mut i: usize = 0;
            while i < x.len()
                invariant
                    i <= x@.len(),
                    *n == Node::Mapping(*x),
                    entries_view(x@).len() == x@.len(),
                    forall|j: int| 0 <= j < x@.len() ==> entries_view(x@)[j]
                        == (x@[j].0@, node_view(x@[j].1)),
                    forall|j: int| 0 <= j < i ==> !has_malformed(node_view(x@[j].1)),
                decreases x@.len() - i,
            {
                proof {
                    assert(decreases_to!(*n => (*n)->Mapping_0));
                    assert((*n)->Mapping_0 == *x);
                    assert(decreases_to!(*x => x@));
                    assert(decreases_to!(x@ => x@[i as int]));
                    assert(decreases_to!(x@[i as int] => x@[i as int].1));
                    assert(decreases_to!(*n => x@[i as int].1));
                }
                if node_has_malformed(&x[i].1) {
                    proof {
                        lemma_entries_view(x@);
                        lemma_ents_have_malformed_iff(entries_view(x@));
                        assert(has_malformed(entries_view(x@)[i as int].1));
                    }
                    return true;
                }
                i += 1;
            }
            proof {
                assert(!ents_have_malformed(entries_view(x@)));
            }
            false
        }
        _ => false,
    }
}

} // verus!
