use vstd::prelude::*;
use crate::model::{Node, NodeV, node_view, seq_view, lemma_seq_view};
use crate::order::{Rel, cmp_nodes, lemma_eq};
use crate::canon::{canon, canon_elems, canonicalize, is_canon, lemma_canon_elems, lemma_canon_id_iff, lemma_canon_idempotent};

verus! {

/// Structural equality of two trees.
pub fn node_eq(a: &Node, b: &Node) -> (r: bool)
    ensures
        r == (a@ == b@),
{
    proof {
        lemma_eq(a@, b@);
    }
    cmp_nodes(a, b) == Rel::Eq
}

/// Canonicalize every document of a forest; document order is kept.
pub fn canonicalize_forest(f: &Vec<Node>) -> (r: Vec<Node>)
    ensures
        seq_view(r@) == canon_elems(seq_view(f@)),
        r@.len() == f@.len(),
{
    proof {
        lemma_seq_view(f@);
        lemma_canon_elems(seq_view(f@));
    }
    let ghost sv = seq_view(f@);
    let mut out: Vec<Node> = Vec::new();
    let mut i: usize = 0;
    while i < f.len()
        invariant
            i <= f@.len(),
            sv == seq_view(f@),
            sv.len() == f@.len(),
            forall|j: int| 0 <= j < f@.len() ==> sv[j] == node_view(f@[j]),
            out@.len() == i,
            forall|j: int| 0 <= j < i ==> node_view(out@[j]) == canon(sv[j]),
        decreases f@.len() - i,
    {
        let c = canonicalize(&f[i]);
        out.push(c);
        i += 1;
    }
    proof {
        lemma_seq_view(out@);
        assert forall|j: int| 0 <= j < out@.len() implies seq_view(out@)[j]
            == canon_elems(sv)[j] by {
            assert(seq_view(out@)[j] == node_view(out@[j]));
            assert(canon_elems(sv)[j] == canon(sv[j]));
        }
        assert(seq_view(out@) =~= canon_elems(sv));
    }
    out
}

/// Did canonicalization change anything?  True exactly when the two
/// forests differ as values: another number of documents, or somewhere a
/// pair of corresponding nodes that are not the same.  Mapping entries
/// are compared as they stand; the parse boundary brings every mapping to
/// the canonical key order first, so entry order carries no information
/// of its own there.
pub fn is_changed(original: &Vec<Node>, canonical: &Vec<Node>) -> (r: bool)
    ensures
        r == (seq_view(original@) != seq_view(canonical@)),
{
    proof {
        lemma_seq_view(original@);
        lemma_seq_view(canonical@);
    }
    if original.len() != canonical.len() {
        proof {
            assert(seq_view(original@).len() != seq_view(canonical@).len());
        }
        return true;
    }
    let mut i: usize = 0;
    while i < original.len()
        invariant
            i <= original@.len(),
            original@.len() == canonical@.len(),
            seq_view(original@).len() == original@.len(),
            seq_view(canonical@).len() == canonical@.len(),
            forall|j: int| 0 <= j < original@.len() ==> seq_view(original@)[j]
                == node_view(original@[j]),
            forall|j: int| 0 <= j < canonical@.len() ==> seq_view(canonical@)[j]
                == node_view(canonical@[j]),
            forall|j: int| 0 <= j < i ==> node_view(original@[j]) == node_view(canonical@[j]),
        decreases original@.len() - i,
    {
        if !node_eq(&original[i], &canonical[i]) {
            proof {
                assert(seq_view(original@)[i as int] != seq_view(canonical@)[i as int]);
            }
            return true;
        }
        i += 1;
    }
    proof {
        assert(seq_view(original@) =~= seq_view(canonical@));
    }
    false
}

/// The diff verdict on a forest against its canonicalization is clean
/// exactly when every document was already canonical: every sequence
/// sorted, at every nesting level.
pub proof fn lemma_unchanged_iff_canonical(ds: Seq<NodeV>)
    ensures
        canon_elems(ds) == ds <==> (forall|i: int| 0 <= i < ds.len() ==> is_canon(ds[i])),
{
    lemma_canon_elems(ds);
    if forall|i: int| 0 <= i < ds.len() ==> is_canon(ds[i]) {
        assert forall|i: int| 0 <= i < ds.len() implies canon_elems(ds)[i] == ds[i] by {
            lemma_canon_id_iff(ds[i]);
        }
        assert(canon_elems(ds) =~= ds);
    }
    if canon_elems(ds) == ds {
        assert forall|i: int| 0 <= i < ds.len() implies is_canon(ds[i]) by {
            assert(canon_elems(ds)[i] == ds[i]);
            lemma_canon_id_iff(ds[i]);
        }
    }
}

/// Canonicalizing a forest twice gives the same forest as once: the diff
/// of a canonical forest against its canonicalization is always clean.
pub proof fn lemma_forest_idempotent(ds: Seq<NodeV>)
    ensures
        canon_elems(canon_elems(ds)) == canon_elems(ds),
{
    lemma_canon_elems(ds);
    lemma_canon_elems(canon_elems(ds));
    assert forall|i: int| 0 <= i < ds.len() implies canon_elems(canon_elems(ds))[i]
        == canon_elems(ds)[i] by {
        lemma_canon_idempotent(ds[i]);
    }
    assert(canon_elems(canon_elems(ds)) =~= canon_elems(ds));
}

} // verus!
