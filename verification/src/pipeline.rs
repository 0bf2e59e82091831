use vstd::prelude::*;
use vstd::string::StringExecFns;
use crate::model::{Node, NodeV, node_view, seq_view, lemma_seq_view, node_has_malformed, has_malformed};
use crate::canon::is_canon;
use crate::norm::{wf, norm, norm_elems, normalize, lemma_norm_elems, lemma_norm_wf};
use crate::diff::{canonicalize_forest, is_changed, lemma_unchanged_iff_canonical};
use crate::canon::canon_elems;
use crate::emit::{emit_forest, file_text};
use crate::yamlio::{ParseError, EmitError, parse_documents, parse_result_of};

verus! {

/// The forest the pipeline accepts from a file's text, if any: the parsed
/// documents, provided none holds a malformed fragment, each brought to
/// the canonical mapping key order.
pub open spec fn accepted_forest(text: Seq<char>) -> Option<Seq<NodeV>> {
    match parse_result_of(text) {
        Some(ds) => if forall|i: int| 0 <= i < ds.len() ==> !has_malformed(ds[i]) {
            Some(norm_elems(ds))
        } else {
            None
        },
        None => None,
    }
}

/// What processing one file's text produced.
pub enum Outcome {
    /// The text did not parse, or a parsed fragment had no meaning.
    ParseFailed(ParseError),
    /// The parsed forest was already canonical; nothing to write.
    AlreadyCanonical,
    /// Check mode: canonicalization would change the file.
    NeedsSorting,
    /// Write mode: the canonical text to persist in place of the file.
    Sorted(Vec<u8>),
    /// Write mode: the canonical forest could not be re-serialized; the
    /// file must be left untouched.  Emission into text cannot fail, so
    /// the pipeline is proved never to produce this; the variant keeps
    /// the error category at the boundary's shape for callers.
    EmitFailed(EmitError),
}

/// Parse one file's text into a well-formed forest: the documents are
/// moved into the model, the whole file is refused if any fragment is
/// malformed, and every mapping is brought to its canonical key order.
/// Succeeds exactly when the pipeline accepts the text, and then returns
/// exactly the accepted forest.
pub fn parse_forest(text: &str) -> (r: Result<Vec<Node>, ParseError>)
    ensures
        r is Ok <==> accepted_forest(text@) is Some,
        r matches Ok(f) ==> accepted_forest(text@) == Some(seq_view(f@)),
        r matches Ok(f) ==> forall|i: int| 0 <= i < f@.len() ==> wf(node_view(f@[i])),
{
    let docs = match parse_documents(text) {
        Ok(d) => d,
        Err(e) => {
            return Err(e);
        }
    };
    proof {
        lemma_seq_view(docs@);
    }
    let ghost ds = seq_view(docs@);
    let mut out: Vec<Node> = Vec::new();
    let mut i: usize = 0;
    while i < docs.len()
        invariant
            i <= docs@.len(),
            ds == seq_view(docs@),
            parse_result_of(text@) == Some(ds),
            ds.len() == docs@.len(),
            forall|j: int| 0 <= j < docs@.len() ==> ds[j] == node_view(docs@[j]),
            out@.len() == i,
            forall|j: int| 0 <= j < i ==> !has_malformed(ds[j]),
            forall|j: int| 0 <= j < i ==> node_view(out@[j]) == norm(ds[j]),
            forall|j: int| 0 <= j < i ==> wf(node_view(out@[j])),
        decreases docs@.len() - i,
    {
        if node_has_malformed(&docs[i]) {
            proof {
                assert(has_malformed(ds[i as int]));
                assert(accepted_forest(text@) is None);
            }
            return Err(ParseError {
                message: String::from_str("document holds a fragment without a meaning"),
            });
        }
        let d = normalize(&docs[i]);
        proof {
            lemma_norm_wf(node_view(docs@[i as int]));
        }
        out.push(d);
        i += 1;
    }
    proof {
        lemma_seq_view(out@);
        lemma_norm_elems(ds);
        assert(seq_view(out@) =~= norm_elems(ds));
        assert(accepted_forest(text@) == Some(norm_elems(ds)));
    }
    Ok(out)
}

/// The canonical form of the forest the pipeline accepts from a file's
/// text: each accepted document canonicalized, document order kept.
pub open spec fn accepted_canon(text: Seq<char>) -> Seq<NodeV>
    recommends
        accepted_forest(text) is Some,
{
    canon_elems(accepted_forest(text)->0)
}

/// Canonicalize a parsed forest and say whether that changed it.  The
/// verdict is clean exactly when every document was already canonical:
/// every sequence sorted at every nesting level.
pub fn process_forest(f: &Vec<Node>) -> (r: (bool, Vec<Node>))
    ensures
        seq_view(r.1@) == canon_elems(seq_view(f@)),
        r.0 == (seq_view(f@) != seq_view(r.1@)),
        !r.0 <==> (forall|i: int| 0 <= i < seq_view(f@).len() ==> is_canon(seq_view(f@)[i])),
{
    let c = canonicalize_forest(f);
    let ch = is_changed(f, &c);
    proof {
        lemma_unchanged_iff_canonical(seq_view(f@));
    }
    (ch, c)
}

/// The per-file pipeline on one file's text: parse, canonicalize, diff,
/// and, in write mode, re-serialize the canonical forest.  Text the
/// pipeline does not accept is a parse failure; an accepted forest that
/// is already canonical is left alone in either mode; one that is not is
/// reported in check mode, and in write mode its canonical file text is
/// produced, framed with one separator line between documents and none at
/// the end.  Emission into text cannot fail.
pub fn process_text(text: &str, write: bool) -> (r: Outcome)
    ensures
        !write ==> !(r matches Outcome::Sorted(_)),
        write ==> !(r matches Outcome::NeedsSorting),
        !(r matches Outcome::EmitFailed(_)),
        (r matches Outcome::ParseFailed(_)) <==> accepted_forest(text@) is None,
        (r matches Outcome::AlreadyCanonical) <==> (accepted_forest(text@) is Some
            && accepted_canon(text@) == accepted_forest(text@)->0),
        accepted_forest(text@) is Some && accepted_canon(text@) != accepted_forest(text@)->0
            && !write ==> r matches Outcome::NeedsSorting,
        accepted_forest(text@) is Some && accepted_canon(text@) != accepted_forest(text@)->0
            && write ==> (r matches Outcome::Sorted(b) && b@ == file_text(accepted_canon(text@))),
{
    let forest = match parse_forest(text) {
        Ok(f) => f,
        Err(e) => {
            return Outcome::ParseFailed(e);
        }
    };
    let (changed, canonical) = process_forest(&forest);
    if !changed {
        return Outcome::AlreadyCanonical;
    }
    if !write {
        return Outcome::NeedsSorting;
    }
    match emit_forest(&canonical) {
        Ok(b) => {
            proof {
                assert(b@ == file_text(seq_view(canonical@)));
            }
            Outcome::Sorted(b)
        }
        Err(e) => Outcome::EmitFailed(e),
    }
}

/// Does the file's text parse into a forest the pipeline accepts?
pub fn validate_text(text: &str) -> (r: Result<(), ParseError>)
    ensures
        r is Ok <==> accepted_forest(text@) is Some,
{
    match parse_forest(text) {
        Ok(_) => Ok(()),
        Err(e) => Err(e),
    }
}

/// A file outcome that must flip the batch failure flag: a parse failure,
/// an emit failure, or, in check mode, a file that needs sorting.
pub fn outcome_is_failure(o: &Outcome) -> (r: bool)
    ensures
        r == (o matches Outcome::ParseFailed(_) || o matches Outcome::NeedsSorting
            || o matches Outcome::EmitFailed(_)),
{
    match o {
        Outcome::ParseFailed(_) => true,
        Outcome::NeedsSorting => true,
        Outcome::EmitFailed(_) => true,
        Outcome::AlreadyCanonical => false,
        Outcome::Sorted(_) => false,
    }
}

/// The process-level failure flag, folded over the per-file flags in a
/// way no file order can change: true exactly when some file failed.
pub fn batch_failed(failures: &Vec<bool>) -> (r: bool)
    ensures
        r == (exists|i: int| 0 <= i < failures@.len() && failures@[i]),
{
    let mut i: usize = 0;
    while i < failures.len()
        invariant
            i <= failures@.len(),
            forall|j: int| 0 <= j < i ==> !failures@[j],
        decreases failures@.len() - i,
    {
        if failures[i] {
            return true;
        }
        i += 1;
    }
    false
}

} // verus!
