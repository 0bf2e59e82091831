use vstd::prelude::*;
use crate::model::{Node, NodeV, node_view, seq_view, entries_view, lemma_seq_view, lemma_entries_view};

verus! {

/// Three-way comparison result of the total order over document nodes.
#[derive(Clone, Copy, Debug, PartialEq, Eq, Structural)]
pub enum Rel {
    Lt,
    Eq,
    Gt,
}

/// Type precedence: a node of a lower rank sorts before any node of a
/// higher rank, whatever the values.
pub open spec fn rank(n: NodeV) -> int {
    match n {
        NodeV::Null => 0,
        NodeV::Bool(_) => 1,
        NodeV::Int(_) => 2,
        NodeV::Float(_) => 3,
        NodeV::Str(_) => 4,
        NodeV::Sequence(_) => 5,
        NodeV::Mapping(_) => 6,
        NodeV::Malformed => 7,
    }
}

pub open spec fn cmp_int(x: int, y: int) -> Rel {
    if x < y {
        Rel::Lt
    } else if x == y {
        Rel::Eq
    } else {
        Rel::Gt
    }
}

/// Byte strings compare lexicographically, a strict prefix first.
pub open spec fn cmp_bytes(x: Seq<u8>, y: Seq<u8>, i: int) -> Rel
    decreases x.len() - i,
{
    if 0 <= i < x.len() && i < y.len() {
        if x[i] != y[i] {
            cmp_int(x[i] as int, y[i] as int)
        } else {
            cmp_bytes(x, y, i + 1)
        }
    } else {
        cmp_int(x.len() - i, y.len() - i)
    }
}

/// The total order of the model, as a three-way comparison.  Nodes of
/// different kinds compare by rank; nodes of the same kind compare by
/// value: booleans with `false` first, integers numerically, byte strings
/// lexicographically, sequences lexicographically under this same order,
/// and mappings by their entry lists, key then value, pair by pair.  Real
/// numbers compare by their source text, the one representation the model
/// keeps for them.
pub open spec fn cmp(a: NodeV, b: NodeV) -> Rel
    decreases a, b, 0int,
{
    if rank(a) != rank(b) {
        cmp_int(rank(a), rank(b))
    } else {
        match (a, b) {
            (NodeV::Bool(x), NodeV::Bool(y)) => cmp_int(x as int, y as int),
            (NodeV::Int(x), NodeV::Int(y)) => cmp_int(x, y),
            (NodeV::Float(x), NodeV::Float(y)) => cmp_bytes(x, y, 0),
            (NodeV::Str(x), NodeV::Str(y)) => cmp_bytes(x, y, 0),
            (NodeV::Sequence(x), NodeV::Sequence(y)) => cmp_elems(x, y, 0),
            (NodeV::Mapping(x), NodeV::Mapping(y)) => cmp_entries(x, y, 0),
            _ => Rel::Eq,
        }
    }
}

/// Lexicographic comparison of two element sequences from position `i` on.
pub open spec fn cmp_elems(x: Seq<NodeV>, y: Seq<NodeV>, i: int) -> Rel
    decreases x, y, x.len() - i + 1,
{
    if 0 <= i < x.len() && i < y.len() {
        match cmp(x[i], y[i]) {
            Rel::Eq => cmp_elems(x, y, i + 1),
            r => r,
        }
    } else {
        cmp_int(x.len() - i, y.len() - i)
    }
}

/// Pairwise comparison of two mapping entry lists from position `i` on:
/// keys decide first, then values, then the number of entries.
pub open spec fn cmp_entries(x: Seq<(Seq<u8>, NodeV)>, y: Seq<(Seq<u8>, NodeV)>, i: int) -> Rel
    decreases x, y, x.len() - i + 1,
{
    if 0 <= i < x.len() && i < y.len() {
        if cmp_bytes(x[i].0, y[i].0, 0) != Rel::Eq {
            cmp_bytes(x[i].0, y[i].0, 0)
        } else {
            match cmp(x[i].1, y[i].1) {
                Rel::Eq => cmp_entries(x, y, i + 1),
                r => r,
            }
        }
    } else {
        cmp_int(x.len() - i, y.len() - i)
    }
}

/// `a` sorts no later than `b`.
pub open spec fn le(a: NodeV, b: NodeV) -> bool {
    cmp(a, b) != Rel::Gt
}

/// What a comparison becomes when its two sides are swapped.
pub open spec fn flip(r: Rel) -> Rel {
    match r {
        Rel::Lt => Rel::Gt,
        Rel::Eq => Rel::Eq,
        Rel::Gt => Rel::Lt,
    }
}

pub proof fn lemma_bytes_antisym(x: Seq<u8>, y: Seq<u8>, i: int)
    ensures
        cmp_bytes(y, x, i) == flip(cmp_bytes(x, y, i)),
    decreases x.len() - i,
{
    if 0 <= i < x.len() && i < y.len() {
        if x[i] == y[i] {
            lemma_bytes_antisym(x, y, i + 1);
        }
    }
}

pub proof fn lemma_bytes_trans(x: Seq<u8>, y: Seq<u8>, z: Seq<u8>, i: int)
    ensures
        cmp_bytes(x, y, i) == Rel::Eq && cmp_bytes(y, z, i) == Rel::Eq ==> cmp_bytes(x, z, i) == Rel::Eq,
        cmp_bytes(x, y, i) == Rel::Lt && cmp_bytes(y, z, i) == Rel::Lt ==> cmp_bytes(x, z, i) == Rel::Lt,
        cmp_bytes(x, y, i) == Rel::Lt && cmp_bytes(y, z, i) == Rel::Eq ==> cmp_bytes(x, z, i) == Rel::Lt,
        cmp_bytes(x, y, i) == Rel::Eq && cmp_bytes(y, z, i) == Rel::Lt ==> cmp_bytes(x, z, i) == Rel::Lt,
        cmp_bytes(x, y, i) == Rel::Gt && cmp_bytes(y, z, i) == Rel::Gt ==> cmp_bytes(x, z, i) == Rel::Gt,
        cmp_bytes(x, y, i) == Rel::Gt && cmp_bytes(y, z, i) == Rel::Eq ==> cmp_bytes(x, z, i) == Rel::Gt,
        cmp_bytes(x, y, i) == Rel::Eq && cmp_bytes(y, z, i) == Rel::Gt ==> cmp_bytes(x, z, i) == Rel::Gt,
    decreases x.len() - i,
{
    if 0 <= i < x.len() && i < y.len() && i < z.len() {
        lemma_bytes_trans(x, y, z, i + 1);
    }
}

pub proof fn lemma_bytes_eq(x: Seq<u8>, y: Seq<u8>, i: int)
    requires
        0 <= i,
    ensures
        cmp_bytes(x, y, i) == Rel::Eq <==> (x.len() == y.len()
            && forall|j: int| i <= j < x.len() ==> x[j] == y[j]),
    decreases x.len() - i,
{
    if i < x.len() && i < y.len() {
        lemma_bytes_eq(x, y, i + 1);
        if x[i] != y[i] {
            assert(!(forall|j: int| i <= j < x.len() ==> x[j] == y[j]));
        }
    }
}

pub proof fn lemma_antisym(a: NodeV, b: NodeV)
    ensures
        cmp(b, a) == flip(cmp(a, b)),
    decreases a, b, 0int,
{
    if rank(a) == rank(b) {
        match (a, b) {
            (NodeV::Float(x), NodeV::Float(y)) => lemma_bytes_antisym(x, y, 0),
            (NodeV::Str(x), NodeV::Str(y)) => lemma_bytes_antisym(x, y, 0),
            (NodeV::Sequence(x), NodeV::Sequence(y)) => lemma_elems_antisym(x, y, 0),
            (NodeV::Mapping(x), NodeV::Mapping(y)) => lemma_entries_antisym(x, y, 0),
            _ => {}
        }
    }
}

pub proof fn lemma_elems_antisym(x: Seq<NodeV>, y: Seq<NodeV>, i: int)
    ensures
        cmp_elems(y, x, i) == flip(cmp_elems(x, y, i)),
    decreases x, y, x.len() - i + 1,
{
    if 0 <= i < x.len() && i < y.len() {
        lemma_antisym(x[i], y[i]);
        if cmp(x[i], y[i]) == Rel::Eq {
            lemma_elems_antisym(x, y, i + 1);
        }
    }
}

pub proof fn lemma_entries_antisym(x: Seq<(Seq<u8>, NodeV)>, y: Seq<(Seq<u8>, NodeV)>, i: int)
    ensures
        cmp_entries(y, x, i) == flip(cmp_entries(x, y, i)),
    decreases x, y, x.len() - i + 1,
{
    if 0 <= i < x.len() && i < y.len() {
        lemma_bytes_antisym(x[i].0, y[i].0, 0);
        lemma_antisym(x[i].1, y[i].1);
        if cmp_bytes(x[i].0, y[i].0, 0) == Rel::Eq && cmp(x[i].1, y[i].1) == Rel::Eq {
            lemma_entries_antisym(x, y, i + 1);
        }
    }
}

pub proof fn lemma_trans(a: NodeV, b: NodeV, c: NodeV)
    ensures
        cmp(a, b) == Rel::Eq && cmp(b, c) == Rel::Eq ==> cmp(a, c) == Rel::Eq,
        cmp(a, b) == Rel::Lt && cmp(b, c) == Rel::Lt ==> cmp(a, c) == Rel::Lt,
        cmp(a, b) == Rel::Lt && cmp(b, c) == Rel::Eq ==> cmp(a, c) == Rel::Lt,
        cmp(a, b) == Rel::Eq && cmp(b, c) == Rel::Lt ==> cmp(a, c) == Rel::Lt,
        cmp(a, b) == Rel::Gt && cmp(b, c) == Rel::Gt ==> cmp(a, c) == Rel::Gt,
        cmp(a, b) == Rel::Gt && cmp(b, c) == Rel::Eq ==> cmp(a, c) == Rel::Gt,
        cmp(a, b) == Rel::Eq && cmp(b, c) == Rel::Gt ==> cmp(a, c) == Rel::Gt,
    decreases a, b, c, 0int,
{
    if rank(a) == rank(b) && rank(b) == rank(c) {
        match (a, b, c) {
            (NodeV::Float(x), NodeV::Float(y), NodeV::Float(z)) => lemma_bytes_trans(x, y, z, 0),
            (NodeV::Str(x), NodeV::Str(y), NodeV::Str(z)) => lemma_bytes_trans(x, y, z, 0),
            (NodeV::Sequence(x), NodeV::Sequence(y), NodeV::Sequence(z)) =>
                lemma_elems_trans(x, y, z, 0),
            (NodeV::Mapping(x), NodeV::Mapping(y), NodeV::Mapping(z)) =>
                lemma_entries_trans(x, y, z, 0),
            _ => {}
        }
    }
}

pub proof fn lemma_elems_trans(x: Seq<NodeV>, y: Seq<NodeV>, z: Seq<NodeV>, i: int)
    ensures
        cmp_elems(x, y, i) == Rel::Eq && cmp_elems(y, z, i) == Rel::Eq ==> cmp_elems(x, z, i) == Rel::Eq,
        cmp_elems(x, y, i) == Rel::Lt && cmp_elems(y, z, i) == Rel::Lt ==> cmp_elems(x, z, i) == Rel::Lt,
        cmp_elems(x, y, i) == Rel::Lt && cmp_elems(y, z, i) == Rel::Eq ==> cmp_elems(x, z, i) == Rel::Lt,
        cmp_elems(x, y, i) == Rel::Eq && cmp_elems(y, z, i) == Rel::Lt ==> cmp_elems(x, z, i) == Rel::Lt,
        cmp_elems(x, y, i) == Rel::Gt && cmp_elems(y, z, i) == Rel::Gt ==> cmp_elems(x, z, i) == Rel::Gt,
        cmp_elems(x, y, i) == Rel::Gt && cmp_elems(y, z, i) == Rel::Eq ==> cmp_elems(x, z, i) == Rel::Gt,
        cmp_elems(x, y, i) == Rel::Eq && cmp_elems(y, z, i) == Rel::Gt ==> cmp_elems(x, z, i) == Rel::Gt,
    decreases x, y, z, x.len() - i + 1,
{
    if 0 <= i < x.len() && i < y.len() && i < z.len() {
        lemma_trans(x[i], y[i], z[i]);
        lemma_elems_trans(x, y, z, i + 1);
    }
}

pub proof fn lemma_entries_trans(
    x: Seq<(Seq<u8>, NodeV)>,
    y: Seq<(Seq<u8>, NodeV)>,
    z: Seq<(Seq<u8>, NodeV)>,
    i: int,
)
    ensures
        cmp_entries(x, y, i) == Rel::Eq && cmp_entries(y, z, i) == Rel::Eq ==> cmp_entries(x, z, i) == Rel::Eq,
        cmp_entries(x, y, i) == Rel::Lt && cmp_entries(y, z, i) == Rel::Lt ==> cmp_entries(x, z, i) == Rel::Lt,
        cmp_entries(x, y, i) == Rel::Lt && cmp_entries(y, z, i) == Rel::Eq ==> cmp_entries(x, z, i) == Rel::Lt,
        cmp_entries(x, y, i) == Rel::Eq && cmp_entries(y, z, i) == Rel::Lt ==> cmp_entries(x, z, i) == Rel::Lt,
        cmp_entries(x, y, i) == Rel::Gt && cmp_entries(y, z, i) == Rel::Gt ==> cmp_entries(x, z, i) == Rel::Gt,
        cmp_entries(x, y, i) == Rel::Gt && cmp_entries(y, z, i) == Rel::Eq ==> cmp_entries(x, z, i) == Rel::Gt,
        cmp_entries(x, y, i) == Rel::Eq && cmp_entries(y, z, i) == Rel::Gt ==> cmp_entries(x, z, i) == Rel::Gt,
    decreases x, y, z, x.len() - i + 1,
{
    if 0 <= i < x.len() && i < y.len() && i < z.len() {
        lemma_bytes_trans(x[i].0, y[i].0, z[i].0, 0);
        lemma_trans(x[i].1, y[i].1, z[i].1);
        lemma_entries_trans(x, y, z, i + 1);
    }
}

pub proof fn lemma_eq(a: NodeV, b: NodeV)
    ensures
        cmp(a, b) == Rel::Eq <==> a == b,
    decreases a, b, 0int,
{
    if rank(a) == rank(b) {
        match (a, b) {
            (NodeV::Float(x), NodeV::Float(y)) => {
                lemma_bytes_eq(x, y, 0);
                if cmp_bytes(x, y, 0) == Rel::Eq {
                    assert(x =~= y);
                }
            }
            (NodeV::Str(x), NodeV::Str(y)) => {
                lemma_bytes_eq(x, y, 0);
                if cmp_bytes(x, y, 0) == Rel::Eq {
                    assert(x =~= y);
                }
            }
            (NodeV::Sequence(x), NodeV::Sequence(y)) => {
                lemma_eq_elems(x, y, 0);
                if cmp_elems(x, y, 0) == Rel::Eq {
                    assert(x =~= y);
                }
                if x == y {
                    assert(forall|j: int| 0 <= j < x.len() ==> x[j] == y[j]);
                }
            }
            (NodeV::Mapping(x), NodeV::Mapping(y)) => {
                lemma_eq_entries(x, y, 0);
                if cmp_entries(x, y, 0) == Rel::Eq {
                    assert(x =~= y);
                }
                if x == y {
                    assert(forall|j: int| 0 <= j < x.len() ==> x[j] == y[j]);
                }
            }
            _ => {}
        }
    }
}

pub proof fn lemma_eq_elems(x: Seq<NodeV>, y: Seq<NodeV>, i: int)
    requires
        0 <= i,
    ensures
        cmp_elems(x, y, i) == Rel::Eq <==> (x.len() == y.len()
            && forall|j: int| i <= j < x.len() ==> x[j] == y[j]),
    decreases x, y, x.len() - i + 1,
{
    if i < x.len() && i < y.len() {
        lemma_eq(x[i], y[i]);
        lemma_eq_elems(x, y, i + 1);
        if x[i] != y[i] {
            assert(!(forall|j: int| i <= j < x.len() ==> x[j] == y[j]));
        }
    }
}

pub proof fn lemma_eq_entries(x: Seq<(Seq<u8>, NodeV)>, y: Seq<(Seq<u8>, NodeV)>, i: int)
    requires
        0 <= i,
    ensures
        cmp_entries(x, y, i) == Rel::Eq <==> (x.len() == y.len()
            && forall|j: int| i <= j < x.len() ==> x[j] == y[j]),
    decreases x, y, x.len() - i + 1,
{
    if i < x.len() && i < y.len() {
        lemma_bytes_eq(x[i].0, y[i].0, 0);
        lemma_eq(x[i].1, y[i].1);
        lemma_eq_entries(x, y, i + 1);
        if cmp_bytes(x[i].0, y[i].0, 0) == Rel::Eq {
            assert(x[i].0 =~= y[i].0);
        }
        if x[i].0 == y[i].0 && x[i].1 == y[i].1 {
            assert(x[i] =~= y[i]);
        }
        if x[i] != y[i] {
            assert(!(forall|j: int| i <= j < x.len() ==> x[j] == y[j]));
        }
    }
}

/// Rank of a node's kind, for the type-precedence step of the order.
fn rank_of(n: &Node) -> (r: u8)
    ensures
        r as int == rank(n@),
{
    match n {
        Node::Null => 0,
        Node::Bool(_) => 1,
        Node::Int(_) => 2,
        Node::Float(_) => 3,
        Node::Str(_) => 4,
        Node::Sequence(_) => 5,
        Node::Mapping(_) => 6,
        Node::Malformed => 7,
    }
}

/// Lexicographic comparison of two byte strings.
pub fn cmp_bytes_exec(x: &Vec<u8>, y: &Vec<u8>) -> (r: Rel)
    ensures
        r == cmp_bytes(x@, y@, 0),
{
    let mut i: usize = 0;
    while i < x.len() && i < y.len()
        invariant
            i <= x.len(),
            i <= y.len(),
            cmp_bytes(x@, y@, 0) == cmp_bytes(x@, y@, i as int),
        decreases x@.len() - i,
    {
        if x[i] < y[i] {
            return Rel::Lt;
        }
        if x[i] > y[i] {
            return Rel::Gt;
        }
        i += 1;
    }
    if x.len() == y.len() {
        Rel::Eq
    } else if x.len() < y.len() {
        Rel::Lt
    } else {
        Rel::Gt
    }
}

/// The total order of the model, executed: returns exactly `cmp` of the
/// two trees' values.
pub fn cmp_nodes(a: &Node, b: &Node) -> (r: Rel)
    ensures
        r == cmp(a@, b@),
    decreases *a,
{
    let ra = rank_of(a);
    let rb = rank_of(b);
    if ra != rb {
        return if ra < rb {
            Rel::Lt
        } else {
            Rel::Gt
        };
    }
    match (a, b) {
        (Node::Bool(x), Node::Bool(y)) => {
            if *x == *y {
                Rel::Eq
            } else if !*x {
                Rel::Lt
            } else {
                Rel::Gt
            }
        }
        (Node::Int(x), Node::Int(y)) => {
            if *x < *y {
                Rel::Lt
            } else if *x == *y {
                Rel::Eq
            } else {
                Rel::Gt
            }
        }
        (Node::Float(x), Node::Float(y)) => cmp_bytes_exec(x, y),
        (Node::Str(x), Node::Str(y)) => cmp_bytes_exec(x, y),
        (Node::Sequence(x), Node::Sequence(y)) => {
            proof {
                lemma_seq_view(x@);
                lemma_seq_view(y@);
            }
            let mut i: usize = 0;
            while i < x.len() && i < y.len()
                invariant
                    i <= x.len(),
                    i <= y.len(),
                    *a == Node::Sequence(*x),
                    *b == Node::Sequence(*y),
                    node_view(*a) == NodeV::Sequence(seq_view(x@)),
                    node_view(*b) == NodeV::Sequence(seq_view(y@)),
                    seq_view(x@).len() == x@.len(),
                    seq_view(y@).len() == y@.len(),
                    forall|j: int| 0 <= j < x@.len() ==> seq_view(x@)[j] == node_view(x@[j]),
                    forall|j: int| 0 <= j < y@.len() ==> seq_view(y@)[j] == node_view(y@[j]),
                    cmp_elems(seq_view(x@), seq_view(y@), 0)
                        == cmp_elems(seq_view(x@), seq_view(y@), i as int),
                decreases x@.len() - i,
            {
                proof {
                    assert(decreases_to!(*a => (*a)->Sequence_0));
                    assert((*a)->Sequence_0 == *x);
                    assert(decreases_to!(*x => x@));
                    assert(decreases_to!(x@ => x@[i as int]));
                    assert(decreases_to!(*a => x@[i as int]));
                }
                let c = cmp_nodes(&x[i], &y[i]);
                if c != Rel::Eq {
                    return c;
                }
                i += 1;
            }
            if x.len() == y.len() {
                Rel::Eq
            } else if x.len() < y.len() {
                Rel::Lt
            } else {
                Rel::Gt
            }
        }
        (Node::Mapping(x), Node::Mapping(y)) => {
            proof {
                lemma_entries_view(x@);
                lemma_entries_view(y@);
            }
            let mut i: usize = 0;
            while i < x.len() && i < y.len()
                invariant
                    i <= x.len(),
                    i <= y.len(),
                    *a == Node::Mapping(*x),
                    *b == Node::Mapping(*y),
                    node_view(*a) == NodeV::Mapping(entries_view(x@)),
                    node_view(*b) == NodeV::Mapping(entries_view(y@)),
                    entries_view(x@).len() == x@.len(),
                    entries_view(y@).len() == y@.len(),
                    forall|j: int| 0 <= j < x@.len() ==> entries_view(x@)[j]
                        == (x@[j].0@, node_view(x@[j].1)),
                    forall|j: int| 0 <= j < y@.len() ==> entries_view(y@)[j]
                        == (y@[j].0@, node_view(y@[j].1)),
                    cmp_entries(entries_view(x@), entries_view(y@), 0)
                        == cmp_entries(entries_view(x@), entries_view(y@), i as int),
                decreases x@.len() - i,
            {
                let kc = cmp_bytes_exec(&x[i].0, &y[i].0);
                if kc != Rel::Eq {
                    return kc;
                }
                proof {
                    assert(decreases_to!(*a => (*a)->Mapping_0));
                    assert((*a)->Mapping_0 == *x);
                    assert(decreases_to!(*x => x@));
                    assert(decreases_to!(x@ => x@[i as int]));
                    assert(decreases_to!(x@[i as int] => x@[i as int].1));
                    assert(decreases_to!(*a => x@[i as int].1));
                }
                let vc = cmp_nodes(&x[i].1, &y[i].1);
                if vc != Rel::Eq {
                    return vc;
                }
                i += 1;
            }
            if x.len() == y.len() {
                Rel::Eq
            } else if x.len() < y.len() {
                Rel::Lt
            } else {
                Rel::Gt
            }
        }
        _ => Rel::Eq,
    }
}

/// The order of the model is total: any two nodes are comparable, two
/// nodes compare equal exactly when they are the same value, and swapping
/// the sides flips the comparison.
pub proof fn lemma_order_total(a: NodeV, b: NodeV)
    ensures
        le(a, b) || le(b, a),
        cmp(a, b) == Rel::Eq <==> a == b,
        (le(a, b) && le(b, a)) <==> a == b,
        cmp(b, a) == flip(cmp(a, b)),
{
    lemma_antisym(a, b);
    lemma_eq(a, b);
}

/// The order of the model is transitive, both strictly and non-strictly.
pub proof fn lemma_order_trans(a: NodeV, b: NodeV, c: NodeV)
    ensures
        le(a, b) && le(b, c) ==> le(a, c),
        cmp(a, b) == Rel::Lt && cmp(b, c) == Rel::Lt ==> cmp(a, c) == Rel::Lt,
{
    lemma_trans(a, b, c);
    lemma_antisym(a, b);
    lemma_antisym(b, c);
    lemma_antisym(a, c);
    if le(a, b) && le(b, c) && !le(a, c) {
        lemma_trans(c, a, b);
        lemma_trans(b, c, a);
    }
}

} // verus!

