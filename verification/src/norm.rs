use vstd::prelude::*;
use vstd::pervasive::VecAdditionalExecFns;
use crate::model::{Node, NodeV, node_view, seq_view, entries_view, lemma_seq_view, lemma_entries_view};
use crate::order::{Rel, cmp_bytes, lemma_bytes_antisym, lemma_bytes_trans, lemma_bytes_eq};
use crate::canon::clone_bytes;

verus! {

/// Mapping keys stand in strictly increasing byte order; in particular
/// they are unique.
pub open spec fn keys_sorted(x: Seq<(Seq<u8>, NodeV)>) -> bool {
    forall|i: int, j: int| 0 <= i < j < x.len() ==> cmp_bytes(x[i].0, x[j].0, 0) == Rel::Lt
}

/// A tree is well formed when every mapping in it keeps its entries in
/// the canonical representation: sorted by key, keys unique.
pub open spec fn wf(n: NodeV) -> bool
    decreases n,
{
    match n {
        NodeV::Sequence(x) => elems_wf(x),
        NodeV::Mapping(x) => keys_sorted(x) && ents_wf(x),
        _ => true,
    }
}

pub open spec fn elems_wf(x: Seq<NodeV>) -> bool
    decreases x,
{
    if x.len() == 0 {
        true
    } else {
        wf(x[0]) && elems_wf(x.drop_first())
    }
}

pub open spec fn ents_wf(x: Seq<(Seq<u8>, NodeV)>) -> bool
    decreases x,
{
    if x.len() == 0 {
        true
    } else {
        wf(x[0].1) && ents_wf(x.drop_first())
    }
}

pub proof fn lemma_elems_wf_iff(x: Seq<NodeV>)
    ensures
        elems_wf(x) <==> forall|i: int| 0 <= i < x.len() ==> wf(x[i]),
    decreases x,
{
    if x.len() > 0 {
        lemma_elems_wf_iff(x.drop_first());
        assert(forall|i: int| 0 <= i < x.drop_first().len() ==> x.drop_first()[i] == x[i + 1]);
        if wf(x[0]) && elems_wf(x.drop_first()) {
            assert forall|i: int| 0 <= i < x.len() implies wf(x[i]) by {
                if i > 0 {
                    assert(wf(x.drop_first()[i - 1]));
                }
            }
        }
    }
}

pub proof fn lemma_ents_wf_iff(x: Seq<(Seq<u8>, NodeV)>)
    ensures
        ents_wf(x) <==> forall|i: int| 0 <= i < x.len() ==> wf(x[i].1),
    decreases x,
{
    if x.len() > 0 {
        lemma_ents_wf_iff(x.drop_first());
        assert(forall|i: int| 0 <= i < x.drop_first().len() ==> x.drop_first()[i] == x[i + 1]);
        if wf(x[0].1) && ents_wf(x.drop_first()) {
            assert forall|i: int| 0 <= i < x.len() implies wf(x[i].1) by {
                if i > 0 {
                    assert(wf(x.drop_first()[i - 1].1));
                }
            }
        }
    }
}

/// Insert entry `e` into the key-sorted list `s`: before the first key
/// that is not smaller than `e`'s, replacing an entry whose key is equal
/// (the inserted entry wins).
pub open spec fn insert_ent(e: (Seq<u8>, NodeV), s: Seq<(Seq<u8>, NodeV)>) -> Seq<(Seq<u8>, NodeV)>
    decreases s.len(),
{
    if s.len() == 0 || cmp_bytes(e.0, s[0].0, 0) == Rel::Lt {
        s.insert(0, e)
    } else if cmp_bytes(e.0, s[0].0, 0) == Rel::Eq {
        s.drop_first().insert(0, e)
    } else {
        insert_ent(e, s.drop_first()).insert(0, s[0])
    }
}

/// Bring a mapping's entries into the canonical representation: sorted by
/// key.  Of entries that share a key, the earliest in the list wins.
pub open spec fn sort_ents(s: Seq<(Seq<u8>, NodeV)>) -> Seq<(Seq<u8>, NodeV)>
    decreases s.len(),
{
    if s.len() == 0 {
        s
    } else {
        insert_ent(s[0], sort_ents(s.drop_first()))
    }
}

/// The normal form of a tree: every mapping's entries brought into
/// key-sorted order, recursively; sequences keep their element order.
pub open spec fn norm(n: NodeV) -> NodeV
    decreases n,
{
    match n {
        NodeV::Sequence(x) => NodeV::Sequence(norm_elems(x)),
        NodeV::Mapping(x) => NodeV::Mapping(sort_ents(norm_ents(x))),
        _ => n,
    }
}

pub open spec fn norm_elems(x: Seq<NodeV>) -> Seq<NodeV>
    decreases x,
{
    if x.len() == 0 {
        x
    } else {
        norm_elems(x.drop_first()).insert(0, norm(x[0]))
    }
}

pub open spec fn norm_ents(x: Seq<(Seq<u8>, NodeV)>) -> Seq<(Seq<u8>, NodeV)>
    decreases x,
{
    if x.len() == 0 {
        x
    } else {
        norm_ents(x.drop_first()).insert(0, (x[0].0, norm(x[0].1)))
    }
}

pub proof fn lemma_norm_elems(x: Seq<NodeV>)
    ensures
        norm_elems(x).len() == x.len(),
        forall|i: int| 0 <= i < x.len() ==> norm_elems(x)[i] == norm(x[i]),
    decreases x,
{
    if x.len() > 0 {
        let d = x.drop_first();
        lemma_norm_elems(d);
        assert(forall|k: int| 0 <= k < norm_elems(d).len()
            ==> #[trigger] norm_elems(x)[k + 1] == norm_elems(d)[k]);
        assert forall|i: int| 0 <= i < x.len() implies norm_elems(x)[i] == norm(x[i]) by {
            if i > 0 {
                assert(norm_elems(d)[i - 1] == norm(d[i - 1]));
                assert(d[i - 1] == x[i]);
            }
        }
    }
}

pub proof fn lemma_norm_ents(x: Seq<(Seq<u8>, NodeV)>)
    ensures
        norm_ents(x).len() == x.len(),
        forall|i: int| 0 <= i < x.len() ==> norm_ents(x)[i] == (x[i].0, norm(x[i].1)),
    decreases x,
{
    if x.len() > 0 {
        let d = x.drop_first();
        lemma_norm_ents(d);
        assert(forall|k: int| 0 <= k < norm_ents(d).len()
            ==> #[trigger] norm_ents(x)[k + 1] == norm_ents(d)[k]);
        assert forall|i: int| 0 <= i < x.len() implies norm_ents(x)[i]
            == (x[i].0, norm(x[i].1)) by {
            if i > 0 {
                assert(norm_ents(d)[i - 1] == (d[i - 1].0, norm(d[i - 1].1)));
                assert(d[i - 1] == x[i]);
            }
        }
    }
}

/// Inserting an entry keeps keys strictly sorted and introduces no entry
/// other than the inserted one.
pub proof fn lemma_insert_ent(e: (Seq<u8>, NodeV), s: Seq<(Seq<u8>, NodeV)>)
    ensures
        insert_ent(e, s).len() <= s.len() + 1,
        insert_ent(e, s).len() >= 1,
        forall|y: (Seq<u8>, NodeV)| insert_ent(e, s).contains(y) ==> y == e || s.contains(y),
        keys_sorted(s) ==> keys_sorted(insert_ent(e, s)),
    decreases s.len(),
{
    if s.len() > 0 {
        lemma_bytes_antisym(e.0, s[0].0, 0);
        lemma_bytes_eq(e.0, s[0].0, 0);
    }
    if s.len() == 0 || cmp_bytes(e.0, s[0].0, 0) == Rel::Lt {
        let r = s.insert(0, e);
        assert forall|y: (Seq<u8>, NodeV)| r.contains(y) implies y == e || s.contains(y) by {
            let k = choose|k: int| 0 <= k < r.len() && r[k] == y;
            if k > 0 {
                assert(s[k - 1] == y);
            }
        }
        if keys_sorted(s) && s.len() > 0 {
            assert forall|i: int, j: int| 0 <= i < j < r.len() implies
                cmp_bytes(r[i].0, r[j].0, 0) == Rel::Lt by {
                if i == 0 {
                    if j > 1 {
                        lemma_bytes_trans(e.0, s[0].0, s[j - 1].0, 0);
                    }
                }
            }
        }
    } else if cmp_bytes(e.0, s[0].0, 0) == Rel::Eq {
        let d = s.drop_first();
        let r = d.insert(0, e);
        assert forall|y: (Seq<u8>, NodeV)| r.contains(y) implies y == e || s.contains(y) by {
            let k = choose|k: int| 0 <= k < r.len() && r[k] == y;
            if k > 0 {
                assert(s[k] == y);
            }
        }
        if keys_sorted(s) {
            assert forall|i: int, j: int| 0 <= i < j < r.len() implies
                cmp_bytes(r[i].0, r[j].0, 0) == Rel::Lt by {
                if i == 0 {
                    assert(cmp_bytes(s[0].0, s[j].0, 0) == Rel::Lt);
                    lemma_bytes_trans(e.0, s[0].0, s[j].0, 0);
                } else {
                    assert(cmp_bytes(s[i].0, s[j].0, 0) == Rel::Lt);
                }
            }
        }
    } else {
        let d = s.drop_first();
        lemma_insert_ent(e, d);
        let inner = insert_ent(e, d);
        let r = inner.insert(0, s[0]);
        assert forall|y: (Seq<u8>, NodeV)| r.contains(y) implies y == e || s.contains(y) by {
            let k = choose|k: int| 0 <= k < r.len() && r[k] == y;
            if k == 0 {
                assert(s.contains(y)) by {
                    assert(s[0] == y);
                }
            } else {
                assert(inner.contains(inner[k - 1]));
                if d.contains(y) {
                    let m = choose|m: int| 0 <= m < d.len() && d[m] == y;
                    assert(s[m + 1] == y);
                }
            }
        }
        if keys_sorted(s) {
            assert forall|i: int, j: int| 0 <= i < j < d.len() implies
                cmp_bytes(d[i].0, d[j].0, 0) == Rel::Lt by {
                assert(cmp_bytes(s[i + 1].0, s[j + 1].0, 0) == Rel::Lt);
            }
            assert(keys_sorted(inner));
            assert(r[0] == s[0]);
            assert(forall|k: int| 0 <= k < inner.len() ==> #[trigger] r[k + 1] == inner[k]);
            assert forall|i: int, j: int| 0 <= i < j < r.len() implies
                cmp_bytes(r[i].0, r[j].0, 0) == Rel::Lt by {
                if i == 0 {
                    let y = inner[j - 1];
                    assert(r[j] == y);
                    assert(inner.contains(y));
                    if y == e {
                        assert(cmp_bytes(s[0].0, e.0, 0) == Rel::Lt);
                    } else {
                        assert(d.contains(y));
                        let m = choose|m: int| 0 <= m < d.len() && d[m] == y;
                        assert(d[m] == s[m + 1]);
                        assert(cmp_bytes(s[0].0, s[m + 1].0, 0) == Rel::Lt);
                    }
                } else {
                    assert(cmp_bytes(inner[i - 1].0, inner[j - 1].0, 0) == Rel::Lt);
                }
            }
        }
    }
}

/// Sorting a mapping's entries yields strictly key-sorted entries drawn
/// from the original list.
pub proof fn lemma_sort_ents(s: Seq<(Seq<u8>, NodeV)>)
    ensures
        keys_sorted(sort_ents(s)),
        forall|y: (Seq<u8>, NodeV)| sort_ents(s).contains(y) ==> s.contains(y),
    decreases s.len(),
{
    if s.len() > 0 {
        let d = s.drop_first();
        lemma_sort_ents(d);
        lemma_insert_ent(s[0], sort_ents(d));
        assert forall|y: (Seq<u8>, NodeV)| sort_ents(s).contains(y) implies s.contains(y) by {
            assert(insert_ent(s[0], sort_ents(d)).contains(y));
            if y == s[0] {
                assert(s.contains(y)) by {
                    assert(s[0] == y);
                }
            } else {
                assert(sort_ents(d).contains(y));
                assert(d.contains(y));
                let m = choose|m: int| 0 <= m < d.len() && d[m] == y;
                assert(s.contains(y)) by {
                    assert(s[m + 1] == y);
                }
            }
        }
    }
}

/// Normalization always yields a well-formed tree.
pub proof fn lemma_norm_wf(n: NodeV)
    ensures
        wf(norm(n)),
    decreases n,
{
    match n {
        NodeV::Sequence(x) => {
            lemma_norm_elems(x);
            assert forall|i: int| 0 <= i < norm_elems(x).len() implies wf(norm_elems(x)[i]) by {
                lemma_norm_wf(x[i]);
            }
            lemma_elems_wf_iff(norm_elems(x));
        }
        NodeV::Mapping(x) => {
            let ne = norm_ents(x);
            lemma_norm_ents(x);
            lemma_sort_ents(ne);
            assert forall|i: int| 0 <= i < ne.len() implies wf(ne[i].1) by {
                lemma_norm_wf(x[i].1);
            }
            let so = sort_ents(ne);
            assert forall|k: int| 0 <= k < so.len() implies wf(so[k].1) by {
                assert(so.contains(so[k]));
                assert(ne.contains(so[k]));
                let m = choose|m: int| 0 <= m < ne.len() && ne[m] == so[k];
                assert(wf(ne[m].1));
            }
            lemma_ents_wf_iff(so);
        }
        _ => {}
    }
}

/// Canonicalization preserves well-formedness: it reorders no mapping
/// entry and keeps every key where it stands.
pub proof fn lemma_canon_wf(n: NodeV)
    requires
        wf(n),
    ensures
        wf(crate::canon::canon(n)),
    decreases n,
{
    match n {
        NodeV::Sequence(x) => {
            crate::canon::lemma_canon_elems(x);
            lemma_elems_wf_iff(x);
            let ce = crate::canon::canon_elems(x);
            assert forall|i: int| 0 <= i < ce.len() implies wf(ce[i]) by {
                lemma_canon_wf(x[i]);
            }
            crate::canon::lemma_sort_nodes(ce);
            let so = crate::canon::sort_nodes(ce);
            assert forall|k: int| 0 <= k < so.len() implies wf(so[k]) by {
                assert(so.contains(so[k]));
                assert(ce.contains(so[k]));
                let m = choose|m: int| 0 <= m < ce.len() && ce[m] == so[k];
                assert(wf(ce[m]));
            }
            lemma_elems_wf_iff(so);
        }
        NodeV::Mapping(x) => {
            crate::canon::lemma_canon_ents(x);
            lemma_ents_wf_iff(x);
            let cx = crate::canon::canon_ents(x);
            assert forall|i: int| 0 <= i < cx.len() implies wf(cx[i].1) by {
                lemma_canon_wf(x[i].1);
            }
            lemma_ents_wf_iff(cx);
            assert forall|i: int, j: int| 0 <= i < j < cx.len() implies
                cmp_bytes(cx[i].0, cx[j].0, 0) == Rel::Lt by {
                assert(cx[i].0 == x[i].0);
                assert(cx[j].0 == x[j].0);
            }
        }
        _ => {}
    }
}

/// Where a scan finds the first key not below `e`'s, `insert_ent` either
/// replaces the entry there (equal key) or inserts before it.
pub proof fn lemma_insert_ent_at(e: (Seq<u8>, NodeV), s: Seq<(Seq<u8>, NodeV)>, p: int)
    requires
        keys_sorted(s),
        0 <= p <= s.len(),
        forall|j: int| 0 <= j < p ==> cmp_bytes(e.0, s[j].0, 0) == Rel::Gt,
        p < s.len() ==> cmp_bytes(e.0, s[p].0, 0) != Rel::Gt,
    ensures
        p < s.len() && cmp_bytes(e.0, s[p].0, 0) == Rel::Eq ==> insert_ent(e, s) == s.update(p, e),
        (p == s.len() || cmp_bytes(e.0, s[p].0, 0) == Rel::Lt) ==> insert_ent(e, s) == s.insert(p, e),
    decreases s.len(),
{
    if p == 0 {
        if s.len() == 0 {
            assert(insert_ent(e, s) =~= s.insert(0, e));
        } else if cmp_bytes(e.0, s[0].0, 0) == Rel::Eq {
            assert(insert_ent(e, s) =~= s.update(0, e));
        }
    } else {
        let d = s.drop_first();
        assert(cmp_bytes(e.0, s[0].0, 0) == Rel::Gt);
        assert forall|i: int, j: int| 0 <= i < j < d.len() implies
            cmp_bytes(d[i].0, d[j].0, 0) == Rel::Lt by {
            assert(cmp_bytes(s[i + 1].0, s[j + 1].0, 0) == Rel::Lt);
        }
        assert forall|j: int| 0 <= j < p - 1 implies cmp_bytes(e.0, d[j].0, 0) == Rel::Gt by {
            assert(cmp_bytes(e.0, s[j + 1].0, 0) == Rel::Gt);
        }
        assert(p - 1 < d.len() ==> cmp_bytes(e.0, d[p - 1].0, 0) != Rel::Gt);
        lemma_insert_ent_at(e, d, p - 1);
        if p < s.len() && cmp_bytes(e.0, s[p].0, 0) == Rel::Eq {
            assert(insert_ent(e, s) =~= s.update(p, e));
        } else {
            assert(insert_ent(e, s) =~= s.insert(p, e));
        }
    }
}

/// Sorting the entries of an already key-sorted list changes nothing.
pub proof fn lemma_sort_ents_sorted_id(s: Seq<(Seq<u8>, NodeV)>)
    requires
        keys_sorted(s),
    ensures
        sort_ents(s) == s,
    decreases s.len(),
{
    if s.len() > 0 {
        let d = s.drop_first();
        assert forall|i: int, j: int| 0 <= i < j < d.len() implies
            cmp_bytes(d[i].0, d[j].0, 0) == Rel::Lt by {
            assert(cmp_bytes(s[i + 1].0, s[j + 1].0, 0) == Rel::Lt);
        }
        lemma_sort_ents_sorted_id(d);
        if d.len() > 0 {
            assert(cmp_bytes(s[0].0, d[0].0, 0) == Rel::Lt) by {
                assert(cmp_bytes(s[0].0, s[1].0, 0) == Rel::Lt);
            }
        }
        assert(sort_ents(s) =~= s);
    }
}

/// A tree is untouched by normalization exactly when it is well formed:
/// every mapping already stands in the canonical key order.
pub proof fn lemma_norm_id_iff(n: NodeV)
    ensures
        norm(n) == n <==> wf(n),
    decreases n,
{
    lemma_norm_wf(n);
    if wf(n) {
        match n {
            NodeV::Sequence(x) => {
                lemma_norm_elems(x);
                lemma_elems_wf_iff(x);
                assert forall|i: int| 0 <= i < x.len() implies norm_elems(x)[i] == x[i] by {
                    lemma_norm_id_iff(x[i]);
                }
                assert(norm_elems(x) =~= x);
            }
            NodeV::Mapping(x) => {
                lemma_norm_ents(x);
                lemma_ents_wf_iff(x);
                assert forall|i: int| 0 <= i < x.len() implies norm_ents(x)[i] == x[i] by {
                    lemma_norm_id_iff(x[i].1);
                    assert((x[i].0, x[i].1) =~= x[i]);
                }
                assert(norm_ents(x) =~= x);
                lemma_sort_ents_sorted_id(x);
            }
            _ => {}
        }
    }
}

/// Normalization is idempotent: a second pass changes nothing.
pub proof fn lemma_norm_idempotent(n: NodeV)
    ensures
        norm(norm(n)) == norm(n),
{
    lemma_norm_wf(n);
    lemma_norm_id_iff(norm(n));
}

/// The position before which key `k` belongs among the entries of `out`:
/// the index of the first key it does not exceed.
fn find_key_pos(k: &Vec<u8>, out: &Vec<(Vec<u8>, Node)>) -> (p: usize)
    ensures
        p <= out@.len(),
        forall|j: int| 0 <= j < p ==> cmp_bytes(k@, out@[j].0@, 0) == Rel::Gt,
        p < out@.len() ==> cmp_bytes(k@, out@[p as int].0@, 0) != Rel::Gt,
{
    let mut p: usize = 0;
    while p < out.len()
        invariant
            p <= out@.len(),
            forall|j: int| 0 <= j < p ==> cmp_bytes(k@, out@[j].0@, 0) == Rel::Gt,
        decreases out@.len() - p,
    {
        if crate::order::cmp_bytes_exec(k, &out[p].0) != Rel::Gt {
            return p;
        }
        p += 1;
    }
    p
}

/// Bring a tree into its normal form: every mapping's entries sorted by
/// key, duplicates resolved in favour of the earliest entry, recursively;
/// the order of sequence elements is untouched.
pub fn normalize(n: &Node) -> (r: Node)
    ensures
        r@ == norm(n@),
    decreases *n,
{
    match n {
        Node::Null => Node::Null,
        Node::Bool(b) => Node::Bool(*b),
        Node::Int(i) => Node::Int(*i),
        Node::Float(t) => Node::Float(clone_bytes(t)),
        Node::Str(t) => Node::Str(clone_bytes(t)),
        Node::Malformed => Node::Malformed,
        Node::Sequence(x) => {
            proof {
                lemma_seq_view(x@);
                lemma_norm_elems(seq_view(x@));
            }
            let ghost sv = seq_view(x@);
            let mut out: Vec<Node> = Vec::new();
            let mut i: usize = 0;
            while i < x.len()
                invariant
                    i <= x@.len(),
                    *n == Node::Sequence(*x),
                    sv == seq_view(x@),
                    sv.len() == x@.len(),
                    forall|j: int| 0 <= j < x@.len() ==> sv[j] == node_view(x@[j]),
                    out@.len() == i,
                    forall|j: int| 0 <= j < i ==> node_view(out@[j]) == norm(node_view(x@[j])),
                decreases x@.len() - i,
            {
                proof {
                    assert(decreases_to!(*n => (*n)->Sequence_0));
                    assert((*n)->Sequence_0 == *x);
                    assert(decreases_to!(*x => x@));
                    assert(decreases_to!(x@ => x@[i as int]));
                    assert(decreases_to!(*n => x@[i as int]));
                }
                let e = normalize(&x[i]);
                out.push(e);
                i += 1;
            }
            let r = Node::Sequence(out);
            proof {
                lemma_seq_view(out@);
                assert forall|j: int| 0 <= j < out@.len() implies seq_view(out@)[j]
                    == norm_elems(sv)[j] by {
                    assert(seq_view(out@)[j] == node_view(out@[j]));
                    assert(norm_elems(sv)[j] == norm(sv[j]));
                }
                assert(seq_view(out@) =~= norm_elems(sv));
                assert(r@ == norm(n@));
            }
            r
        }
        Node::Mapping(x) => {
            proof {
                lemma_entries_view(x@);
                lemma_norm_ents(entries_view(x@));
            }
            let ghost ev = entries_view(x@);
            let ghost ne = norm_ents(ev);
            let mut out: Vec<(Vec<u8>, Node)> = Vec::new();
            let mut i: usize = x.len();
            proof {
                assert(ne.skip(i as int) =~= Seq::<(Seq<u8>, NodeV)>::empty());
                assert(sort_ents(ne.skip(i as int)) =~= entries_view(out@));
            }
            while i > 0
                invariant
                    i <= x@.len(),
                    *n == Node::Mapping(*x),
                    ev == entries_view(x@),
                    ne == norm_ents(ev),
                    ev.len() == x@.len(),
                    ne.len() == x@.len(),
                    forall|j: int| 0 <= j < x@.len() ==> ev[j] == (x@[j].0@, node_view(x@[j].1)),
                    forall|j: int| 0 <= j < x@.len() ==> ne[j] == (ev[j].0, norm(ev[j].1)),
                    entries_view(out@) == sort_ents(ne.skip(i as int)),
                decreases i,
            {
                i -= 1;
                proof {
                    assert(decreases_to!(*n => (*n)->Mapping_0));
                    assert((*n)->Mapping_0 == *x);
                    assert(decreases_to!(*x => x@));
                    assert(decreases_to!(x@ => x@[i as int]));
                    assert(decreases_to!(x@[i as int] => x@[i as int].1));
                    assert(decreases_to!(*n => x@[i as int].1));
                }
                let key = clone_bytes(&x[i].0);
                let val = normalize(&x[i].1);
                proof {
                    lemma_sort_ents(ne.skip(i as int + 1));
                    lemma_entries_view(out@);
                }
                let p = find_key_pos(&key, &out);
                let ghost e = (key@, node_view(val));
                let ghost s_out = entries_view(out@);
                let ghost old_out = out@;
                proof {
                    assert(e == ne[i as int]);
                    assert forall|j: int| 0 <= j < p implies cmp_bytes(e.0, s_out[j].0, 0)
                        == Rel::Gt by {
                        assert(s_out[j] == (old_out[j].0@, node_view(old_out[j].1)));
                    }
                    if (p as int) < old_out.len() {
                        assert(s_out[p as int] == (old_out[p as int].0@, node_view(old_out[p as int].1)));
                    }
                    lemma_insert_ent_at(e, s_out, p as int);
                }
                let replace = if p < out.len() {
                    crate::order::cmp_bytes_exec(&key, &out[p].0) == Rel::Eq
                } else {
                    false
                };
                if replace {
                    out.set(p, (key, val));
                    proof {
                        lemma_entries_view(out@);
                        assert forall|j: int| 0 <= j < out@.len() implies entries_view(out@)[j]
                            == s_out.update(p as int, e)[j] by {
                            if j != p {
                                assert(out@[j] == old_out[j]);
                            }
                        }
                        assert(entries_view(out@) =~= s_out.update(p as int, e));
                    }
                } else {
                    out.insert(p, (key, val));
                    proof {
                        lemma_entries_view(out@);
                        assert forall|j: int| 0 <= j < out@.len() implies entries_view(out@)[j]
                            == s_out.insert(p as int, e)[j] by {
                            if j < p {
                                assert(out@[j] == old_out[j]);
                            } else if j > p {
                                assert(out@[j] == old_out[j - 1]);
                            }
                        }
                        assert(entries_view(out@) =~= s_out.insert(p as int, e));
                    }
                }
                proof {
                    let t = ne.skip(i as int);
                    assert(t[0] == ne[i as int]);
                    assert(t.drop_first() =~= ne.skip(i as int + 1));
                    assert(sort_ents(t) == insert_ent(ne[i as int], sort_ents(ne.skip(i as int + 1))));
                    assert(entries_view(out@) == sort_ents(ne.skip(i as int)));
                }
            }
            let r = Node::Mapping(out);
            proof {
                assert(ne.skip(0) =~= ne);
                assert(r@ == norm(n@));
            }
            r
        }
    }
}

} // verus!
