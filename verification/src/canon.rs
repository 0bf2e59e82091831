use vstd::prelude::*;
use crate::model::{Node, NodeV, node_view, seq_view, entries_view, lemma_seq_view, lemma_entries_view};
use crate::order::{Rel, cmp, le, lemma_order_total, lemma_order_trans};

verus! {

/// Insert `x` into `s` before the first element that `x` sorts no later
/// than.  On a sorted sequence this is stable insertion.
pub open spec fn insert_le(x: NodeV, s: Seq<NodeV>) -> Seq<NodeV>
    decreases s.len(),
{
    if s.len() == 0 || le(x, s[0]) {
        s.insert(0, x)
    } else {
        insert_le(x, s.drop_first()).insert(0, s[0])
    }
}

/// Stable insertion sort of a sequence of nodes under the model's order.
pub open spec fn sort_nodes(s: Seq<NodeV>) -> Seq<NodeV>
    decreases s.len(),
{
    if s.len() == 0 {
        s
    } else {
        insert_le(s[0], sort_nodes(s.drop_first()))
    }
}

/// The canonical form of a tree: scalars and malformed fragments pass
/// through unchanged; a mapping keeps its entries in place with each value
/// canonicalized; a sequence has its elements canonicalized first and is
/// then sorted under the total order.
pub open spec fn canon(n: NodeV) -> NodeV
    decreases n,
{
    match n {
        NodeV::Sequence(x) => NodeV::Sequence(sort_nodes(canon_elems(x))),
        NodeV::Mapping(x) => NodeV::Mapping(canon_ents(x)),
        _ => n,
    }
}

pub open spec fn canon_elems(x: Seq<NodeV>) -> Seq<NodeV>
    decreases x,
{
    if x.len() == 0 {
        x
    } else {
        canon_elems(x.drop_first()).insert(0, canon(x[0]))
    }
}

pub open spec fn canon_ents(x: Seq<(Seq<u8>, NodeV)>) -> Seq<(Seq<u8>, NodeV)>
    decreases x,
{
    if x.len() == 0 {
        x
    } else {
        canon_ents(x.drop_first()).insert(0, (x[0].0, canon(x[0].1)))
    }
}

/// Every two elements in order of position are in order of the model.
pub open spec fn sorted(s: Seq<NodeV>) -> bool {
    forall|i: int, j: int| 0 <= i < j < s.len() ==> le(s[i], s[j])
}

/// A tree is canonical when every sequence anywhere in it is sorted.
pub open spec fn is_canon(n: NodeV) -> bool
    decreases n,
{
    match n {
        NodeV::Sequence(x) => sorted(x) && elems_canon(x),
        NodeV::Mapping(x) => ents_canon(x),
        _ => true,
    }
}

pub open spec fn elems_canon(x: Seq<NodeV>) -> bool
    decreases x,
{
    if x.len() == 0 {
        true
    } else {
        is_canon(x[0]) && elems_canon(x.drop_first())
    }
}

pub open spec fn ents_canon(x: Seq<(Seq<u8>, NodeV)>) -> bool
    decreases x,
{
    if x.len() == 0 {
        true
    } else {
        is_canon(x[0].1) && ents_canon(x.drop_first())
    }
}

pub proof fn lemma_elems_canon_iff(x: Seq<NodeV>)
    ensures
        elems_canon(x) <==> forall|i: int| 0 <= i < x.len() ==> is_canon(x[i]),
    decreases x,
{
    if x.len() > 0 {
        lemma_elems_canon_iff(x.drop_first());
        assert(forall|i: int| 0 <= i < x.drop_first().len() ==> x.drop_first()[i] == x[i + 1]);
        if is_canon(x[0]) && elems_canon(x.drop_first()) {
            assert forall|i: int| 0 <= i < x.len() implies is_canon(x[i]) by {
                if i > 0 {
                    assert(is_canon(x.drop_first()[i - 1]));
                }
            }
        }
    }
}

pub proof fn lemma_ents_canon_iff(x: Seq<(Seq<u8>, NodeV)>)
    ensures
        ents_canon(x) <==> forall|i: int| 0 <= i < x.len() ==> is_canon(x[i].1),
    decreases x,
{
    if x.len() > 0 {
        lemma_ents_canon_iff(x.drop_first());
        assert(forall|i: int| 0 <= i < x.drop_first().len() ==> x.drop_first()[i] == x[i + 1]);
        if is_canon(x[0].1) && ents_canon(x.drop_first()) {
            assert forall|i: int| 0 <= i < x.len() implies is_canon(x[i].1) by {
                if i > 0 {
                    assert(is_canon(x.drop_first()[i - 1].1));
                }
            }
        }
    }
}

/// Inserting keeps the length, the contents and, on a sorted sequence,
/// the order.
pub proof fn lemma_insert_le(x: NodeV, s: Seq<NodeV>)
    ensures
        insert_le(x, s).len() == s.len() + 1,
        insert_le(x, s).to_multiset() == s.to_multiset().insert(x),
        forall|y: NodeV| insert_le(x, s).contains(y) ==> y == x || s.contains(y),
        sorted(s) ==> sorted(insert_le(x, s)),
    decreases s.len(),
{
    broadcast use vstd::seq_lib::group_to_multiset_ensures;

    lemma_order_total(x, if s.len() > 0 { s[0] } else { x });
    if s.len() == 0 || le(x, s[0]) {
        let r = s.insert(0, x);
        assert forall|y: NodeV| r.contains(y) implies y == x || s.contains(y) by {
            let k = choose|k: int| 0 <= k < r.len() && r[k] == y;
            if k > 0 {
                assert(s[k - 1] == y);
            }
        }
        if sorted(s) && s.len() > 0 {
            assert forall|i: int, j: int| 0 <= i < j < r.len() implies le(r[i], r[j]) by {
                if i == 0 {
                    if j > 1 {
                        lemma_order_trans(x, s[0], s[j - 1]);
                    }
                }
            }
        }
    } else {
        let d = s.drop_first();
        lemma_insert_le(x, d);
        let inner = insert_le(x, d);
        let r = inner.insert(0, s[0]);
        assert(s =~= d.insert(0, s[0]));
        assert(s.to_multiset() == d.to_multiset().insert(s[0]));
        assert(r.to_multiset() == inner.to_multiset().insert(s[0]));
        assert(r.to_multiset() =~= s.to_multiset().insert(x));
        assert forall|y: NodeV| r.contains(y) implies y == x || s.contains(y) by {
            let k = choose|k: int| 0 <= k < r.len() && r[k] == y;
            if k == 0 {
                assert(s.contains(y)) by {
                    assert(s[0] == y);
                }
            } else {
                assert(inner.contains(inner[k - 1]));
                if d.contains(y) {
                    let m = choose|m: int| 0 <= m < d.len() && d[m] == y;
                    assert(s[m + 1] == y);
                }
            }
        }
        if sorted(s) {
            assert forall|i: int, j: int| 0 <= i < j < d.len() implies le(d[i], d[j]) by {
                assert(le(s[i + 1], s[j + 1]));
            }
            assert(sorted(inner));
            assert(r[0] == s[0]);
            assert(forall|k: int| 0 <= k < inner.len() ==> #[trigger] r[k + 1] == inner[k]);
            assert forall|i: int, j: int| 0 <= i < j < r.len() implies le(r[i], r[j]) by {
                if i == 0 {
                    let y = inner[j - 1];
                    assert(r[j] == y);
                    assert(inner.contains(y));
                    if y == x {
                        assert(le(s[0], x));
                    } else {
                        assert(d.contains(y));
                        let m = choose|m: int| 0 <= m < d.len() && d[m] == y;
                        assert(d[m] == s[m + 1]);
                        assert(le(s[0], s[m + 1]));
                    }
                } else {
                    assert(le(inner[i - 1], inner[j - 1]));
                }
            }
        }
    }
}

/// Sorting keeps the length and the contents and yields a sorted sequence.
pub proof fn lemma_sort_nodes(s: Seq<NodeV>)
    ensures
        sort_nodes(s).len() == s.len(),
        sort_nodes(s).to_multiset() == s.to_multiset(),
        forall|y: NodeV| sort_nodes(s).contains(y) ==> s.contains(y),
        sorted(sort_nodes(s)),
    decreases s.len(),
{
    broadcast use vstd::seq_lib::group_to_multiset_ensures;

    if s.len() > 0 {
        let d = s.drop_first();
        lemma_sort_nodes(d);
        lemma_insert_le(s[0], sort_nodes(d));
        assert(s =~= d.insert(0, s[0]));
        assert(s.to_multiset() == d.to_multiset().insert(s[0]));
        assert(sort_nodes(s).to_multiset() =~= s.to_multiset());
        assert forall|y: NodeV| sort_nodes(s).contains(y) implies s.contains(y) by {
            assert(sort_nodes(s).to_multiset().count(y) > 0);
            assert(s.to_multiset().count(y) > 0);
        }
    }
}

/// Sorting an already sorted sequence gives it back unchanged.
pub proof fn lemma_sort_sorted_id(s: Seq<NodeV>)
    requires
        sorted(s),
    ensures
        sort_nodes(s) == s,
    decreases s.len(),
{
    if s.len() > 0 {
        let d = s.drop_first();
        assert forall|i: int, j: int| 0 <= i < j < d.len() implies le(d[i], d[j]) by {
            assert(le(s[i + 1], s[j + 1]));
        }
        lemma_sort_sorted_id(d);
        if d.len() > 0 {
            assert(le(s[0], d[0])) by {
                assert(le(s[0], s[1]));
            }
        }
        assert(sort_nodes(s) =~= s);
    }
}

/// `canon_elems` canonicalizes a sequence's elements in place.
pub proof fn lemma_canon_elems(x: Seq<NodeV>)
    ensures
        canon_elems(x).len() == x.len(),
        forall|i: int| 0 <= i < x.len() ==> canon_elems(x)[i] == canon(x[i]),
    decreases x,
{
    if x.len() > 0 {
        let d = x.drop_first();
        lemma_canon_elems(d);
        assert(forall|k: int| 0 <= k < canon_elems(d).len()
            ==> #[trigger] canon_elems(x)[k + 1] == canon_elems(d)[k]);
        assert forall|i: int| 0 <= i < x.len() implies canon_elems(x)[i] == canon(x[i]) by {
            if i > 0 {
                assert(canon_elems(d)[i - 1] == canon(d[i - 1]));
                assert(d[i - 1] == x[i]);
            }
        }
    }
}

/// `canon_ents` keeps every key in place and canonicalizes every value.
pub proof fn lemma_canon_ents(x: Seq<(Seq<u8>, NodeV)>)
    ensures
        canon_ents(x).len() == x.len(),
        forall|i: int| 0 <= i < x.len() ==> canon_ents(x)[i] == (x[i].0, canon(x[i].1)),
    decreases x,
{
    if x.len() > 0 {
        let d = x.drop_first();
        lemma_canon_ents(d);
        assert(forall|k: int| 0 <= k < canon_ents(d).len()
            ==> #[trigger] canon_ents(x)[k + 1] == canon_ents(d)[k]);
        assert forall|i: int| 0 <= i < x.len() implies canon_ents(x)[i]
            == (x[i].0, canon(x[i].1)) by {
            if i > 0 {
                assert(canon_ents(d)[i - 1] == (d[i - 1].0, canon(d[i - 1].1)));
                assert(d[i - 1] == x[i]);
            }
        }
    }
}

pub proof fn lemma_canon_elems_all(x: Seq<NodeV>)
    ensures
        forall|i: int| 0 <= i < x.len() ==> is_canon(canon_elems(x)[i]),
    decreases x,
{
    lemma_canon_elems(x);
    assert forall|i: int| 0 <= i < x.len() implies is_canon(canon_elems(x)[i]) by {
        lemma_canon_is_canon(x[i]);
    }
}

pub proof fn lemma_canon_ents_all(x: Seq<(Seq<u8>, NodeV)>)
    ensures
        forall|i: int| 0 <= i < x.len() ==> is_canon(canon_ents(x)[i].1),
    decreases x,
{
    lemma_canon_ents(x);
    assert forall|i: int| 0 <= i < x.len() implies is_canon(canon_ents(x)[i].1) by {
        lemma_canon_is_canon(x[i].1);
    }
}

/// Canonicalization always yields a canonical tree.
pub proof fn lemma_canon_is_canon(n: NodeV)
    ensures
        is_canon(canon(n)),
    decreases n,
{
    match n {
        NodeV::Sequence(x) => {
            let ce = canon_elems(x);
            lemma_canon_elems(x);
            lemma_canon_elems_all(x);
            lemma_sort_nodes(ce);
            let so = sort_nodes(ce);
            assert forall|i: int| 0 <= i < so.len() implies is_canon(so[i]) by {
                assert(so.contains(so[i]));
                assert(ce.contains(so[i]));
                let k = choose|k: int| 0 <= k < ce.len() && ce[k] == so[i];
                assert(is_canon(ce[k]));
            }
            lemma_elems_canon_iff(so);
        }
        NodeV::Mapping(x) => {
            lemma_canon_ents_all(x);
            lemma_canon_ents(x);
            lemma_ents_canon_iff(canon_ents(x));
        }
        _ => {}
    }
}

/// A tree is untouched by canonicalization exactly when it is already
/// canonical: every sequence in it is sorted under the model's order.
pub proof fn lemma_canon_id_iff(n: NodeV)
    ensures
        canon(n) == n <==> is_canon(n),
    decreases n,
{
    lemma_canon_is_canon(n);
    if is_canon(n) {
        match n {
            NodeV::Sequence(x) => {
                lemma_canon_elems(x);
                lemma_elems_canon_iff(x);
                assert forall|i: int| 0 <= i < x.len() implies canon_elems(x)[i] == x[i] by {
                    lemma_canon_id_iff(x[i]);
                }
                assert(canon_elems(x) =~= x);
                lemma_sort_sorted_id(x);
            }
            NodeV::Mapping(x) => {
                lemma_canon_ents(x);
                lemma_ents_canon_iff(x);
                assert forall|i: int| 0 <= i < x.len() implies canon_ents(x)[i] == x[i] by {
                    lemma_canon_id_iff(x[i].1);
                    assert((x[i].0, x[i].1) =~= x[i]);
                }
                assert(canon_ents(x) =~= x);
            }
            _ => {}
        }
    }
}

/// Canonicalization is idempotent: a second pass changes nothing.
pub proof fn lemma_canon_idempotent(n: NodeV)
    ensures
        canon(canon(n)) == canon(n),
{
    lemma_canon_is_canon(n);
    lemma_canon_id_iff(canon(n));
}

/// Canonicalization preserves the shape of a tree: the kind of the root,
/// the length and contents of a sequence (its canonicalized elements,
/// possibly reordered), and a mapping's keys, order and all, with each
/// value canonicalized in place.
pub proof fn lemma_canon_shape(n: NodeV)
    ensures
        crate::order::rank(canon(n)) == crate::order::rank(n),
        n matches NodeV::Sequence(x) ==> (canon(n) matches NodeV::Sequence(y)
            && y.len() == x.len()
            && y.to_multiset() == canon_elems(x).to_multiset()
            && (forall|i: int| 0 <= i < x.len() ==> canon_elems(x)[i] == canon(x[i]))),
        n matches NodeV::Mapping(x) ==> (canon(n) matches NodeV::Mapping(y)
            && y.len() == x.len()
            && (forall|i: int| 0 <= i < x.len() ==> #[trigger] y[i] == (x[i].0, canon(x[i].1)))),
{
    match n {
        NodeV::Sequence(x) => {
            lemma_canon_elems(x);
            lemma_sort_nodes(canon_elems(x));
        }
        NodeV::Mapping(x) => {
            lemma_canon_ents(x);
        }
        _ => {}
    }
}

/// Where a scan finds the first element that `x` may sort before,
/// `insert_le` is insertion at that position.
pub proof fn lemma_insert_le_at(x: NodeV, s: Seq<NodeV>, p: int)
    requires
        sorted(s),
        0 <= p <= s.len(),
        forall|j: int| 0 <= j < p ==> !le(x, s[j]),
        p < s.len() ==> le(x, s[p]),
    ensures
        insert_le(x, s) == s.insert(p, x),
    decreases s.len(),
{
    if p == 0 {
        if s.len() == 0 {
            assert(insert_le(x, s) =~= s.insert(0, x));
        }
    } else {
        let d = s.drop_first();
        assert(!le(x, s[0]));
        assert forall|i: int, j: int| 0 <= i < j < d.len() implies le(d[i], d[j]) by {
            assert(le(s[i + 1], s[j + 1]));
        }
        assert forall|j: int| 0 <= j < p - 1 implies !le(x, d[j]) by {
            assert(!le(x, s[j + 1]));
        }
        assert(p - 1 < d.len() ==> le(x, d[p - 1]));
        lemma_insert_le_at(x, d, p - 1);
        assert(s =~= d.insert(0, s[0]));
        assert(insert_le(x, s) =~= s.insert(p, x));
    }
}

/// A fresh copy of a byte string.
pub fn clone_bytes(v: &Vec<u8>) -> (r: Vec<u8>)
    ensures
        r@ == v@,
{
    let mut r: Vec<u8> = Vec::new();
    let mut i: usize = 0;
    while i < v.len()
        invariant
            i <= v@.len(),
            r@ == v@.take(i as int),
        decreases v@.len() - i,
    {
        r.push(v[i]);
        i += 1;
        proof {
            assert(r@ =~= v@.take(i as int));
        }
    }
    proof {
        assert(v@.take(v@.len() as int) =~= v@);
    }
    r
}

/// The position before which `e` belongs in `out`: the index of the first
/// element that `e` sorts no later than, or the length if there is none.
fn find_insert_pos(e: &Node, out: &Vec<Node>) -> (p: usize)
    ensures
        p <= out@.len(),
        forall|j: int| 0 <= j < p ==> cmp(e@, node_view(out@[j])) == Rel::Gt,
        p < out@.len() ==> cmp(e@, node_view(out@[p as int])) != Rel::Gt,
{
    let mut p: usize = 0;
    while p < out.len()
        invariant
            p <= out@.len(),
            forall|j: int| 0 <= j < p ==> cmp(e@, node_view(out@[j])) == Rel::Gt,
        decreases out@.len() - p,
    {
        if crate::order::cmp_nodes(e, &out[p]) != Rel::Gt {
            return p;
        }
        p += 1;
    }
    p
}

/// Canonicalize a tree: scalars and malformed fragments come back
/// unchanged, a mapping keeps its entries in place with each value
/// canonicalized, and a sequence is rebuilt from its canonicalized
/// elements in sorted order.
pub fn canonicalize(n: &Node) -> (r: Node)
    ensures
        r@ == canon(n@),
    decreases *n,
{
    match n {
        Node::Null => Node::Null,
        Node::Bool(b) => Node::Bool(*b),
        Node::Int(i) => Node::Int(*i),
        Node::Float(t) => Node::Float(clone_bytes(t)),
        Node::Str(t) => Node::Str(clone_bytes(t)),
        Node::Malformed => Node::Malformed,
        Node::Sequence(x) => {
            proof {
                lemma_seq_view(x@);
                lemma_canon_elems(seq_view(x@));
            }
            let ghost sv = seq_view(x@);
            let ghost ce = canon_elems(sv);
            let mut out: Vec<Node> = Vec::new();
            let mut i: usize = x.len();
            proof {
                assert(ce.skip(i as int) =~= Seq::<NodeV>::empty());
                assert(sort_nodes(ce.skip(i as int)) =~= seq_view(out@));
            }
            while i > 0
                invariant
                    i <= x@.len(),
                    *n == Node::Sequence(*x),
                    sv == seq_view(x@),
                    ce == canon_elems(sv),
                    sv.len() == x@.len(),
                    ce.len() == x@.len(),
                    forall|j: int| 0 <= j < x@.len() ==> sv[j] == node_view(x@[j]),
                    forall|j: int| 0 <= j < x@.len() ==> ce[j] == canon(sv[j]),
                    out@.len() == x@.len() - i,
                    seq_view(out@) == sort_nodes(ce.skip(i as int)),
                decreases i,
            {
                i -= 1;
                proof {
                    assert(decreases_to!(*n => (*n)->Sequence_0));
                    assert((*n)->Sequence_0 == *x);
                    assert(decreases_to!(*x => x@));
                    assert(decreases_to!(x@ => x@[i as int]));
                    assert(decreases_to!(*n => x@[i as int]));
                }
                let e = canonicalize(&x[i]);
                proof {
                    lemma_sort_nodes(ce.skip(i as int + 1));
                    lemma_seq_view(out@);
                }
                let p = find_insert_pos(&e, &out);
                let ghost s_out = seq_view(out@);
                let ghost old_out = out@;
                proof {
                    assert forall|j: int| 0 <= j < p implies !le(e@, s_out[j]) by {
                        assert(s_out[j] == node_view(old_out[j]));
                    }
                    lemma_insert_le_at(e@, s_out, p as int);
                }
                out.insert(p, e);
                proof {
                    lemma_seq_view(out@);
                    assert forall|j: int| 0 <= j < out@.len() implies seq_view(out@)[j]
                        == s_out.insert(p as int, e@)[j] by {
                        if j < p {
                            assert(out@[j] == old_out[j]);
                        } else if j == p {
                            assert(out@[j] == e);
                        } else {
                            assert(out@[j] == old_out[j - 1]);
                        }
                    }
                    assert(seq_view(out@) =~= s_out.insert(p as int, e@));
                    let t = ce.skip(i as int);
                    assert(t[0] == ce[i as int]);
                    assert(t.drop_first() =~= ce.skip(i as int + 1));
                    assert(e@ == ce[i as int]);
                    assert(sort_nodes(t) == insert_le(ce[i as int], sort_nodes(ce.skip(i as int + 1))));
                    assert(seq_view(out@) == sort_nodes(ce.skip(i as int)));
                }
            }
            let r = Node::Sequence(out);
            proof {
                assert(ce.skip(0) =~= ce);
                assert(r@ == canon(n@));
            }
            r
        }
        Node::Mapping(x) => {
            proof {
                lemma_entries_view(x@);
                lemma_canon_ents(entries_view(x@));
            }
            let ghost ev = entries_view(x@);
            let mut out: Vec<(Vec<u8>, Node)> = Vec::new();
            let mut i: usize = 0;
            while i < x.len()
                invariant
                    i <= x@.len(),
                    *n == Node::Mapping(*x),
                    ev == entries_view(x@),
                    ev.len() == x@.len(),
                    forall|j: int| 0 <= j < x@.len() ==> ev[j] == (x@[j].0@, node_view(x@[j].1)),
                    out@.len() == i,
                    forall|j: int| 0 <= j < i ==> out@[j].0@ == x@[j].0@
                        && node_view(out@[j].1) == canon(node_view(x@[j].1)),
                decreases x@.len() - i,
            {
                proof {
                    assert(decreases_to!(*n => (*n)->Mapping_0));
                    assert((*n)->Mapping_0 == *x);
                    assert(decreases_to!(*x => x@));
                    assert(decreases_to!(x@ => x@[i as int]));
                    assert(decreases_to!(x@[i as int] => x@[i as int].1));
                    assert(decreases_to!(*n => x@[i as int].1));
                }
                let key = clone_bytes(&x[i].0);
                let val = canonicalize(&x[i].1);
                out.push((key, val));
                i += 1;
            }
            let r = Node::Mapping(out);
            proof {
                lemma_entries_view(out@);
                lemma_canon_ents(ev);
                assert forall|j: int| 0 <= j < out@.len() implies entries_view(out@)[j]
                    == canon_ents(ev)[j] by {
                    assert(entries_view(out@)[j] == (out@[j].0@, node_view(out@[j].1)));
                    assert(canon_ents(ev)[j] == (ev[j].0, canon(ev[j].1)));
                }
                assert(entries_view(out@) =~= canon_ents(ev));
                assert(r@ == canon(n@));
            }
            r
        }
    }
}

} // verus!

