use vstd::prelude::*;
use crate::model::{Node, NodeV, node_view, seq_view, lemma_seq_view};
use crate::yamlio::{EmitError, emit_document, yaml_text_of};

verus! {

/// The document separator line: the three marker bytes and a newline.
pub open spec fn marker() -> Seq<u8> {
    seq![45u8, 45u8, 45u8, 10u8]
}

/// A document's emitted text without its document-start line.
pub open spec fn strip_marker_s(b: Seq<u8>) -> Seq<u8> {
    if b.len() >= 4 && b.subrange(0, 4) == marker() {
        b.skip(4)
    } else {
        b
    }
}

/// A byte string brought to end in a newline.
pub open spec fn with_newline_s(b: Seq<u8>) -> Seq<u8> {
    if b.len() > 0 && b[b.len() - 1] == 10u8 {
        b
    } else {
        b.push(10u8)
    }
}

/// One document's text as it stands in a file: the emitter's text for it
/// without the document-start line, ending in a newline.
pub open spec fn doc_text(n: NodeV) -> Seq<u8> {
    with_newline_s(strip_marker_s(yaml_text_of(n)))
}

/// The whole file text of a forest: the first document's text, then for
/// each further document the separator line followed by that document's
/// text, and no separator after the last document.
pub open spec fn file_text(ds: Seq<NodeV>) -> Seq<u8>
    decreases ds.len(),
{
    if ds.len() == 0 {
        Seq::empty()
    } else if ds.len() == 1 {
        doc_text(ds[0])
    } else {
        file_text(ds.drop_last()) + marker() + doc_text(ds.last())
    }
}

fn strip_marker(b: Vec<u8>) -> (r: Vec<u8>)
    ensures
        r@ == strip_marker_s(b@),
{
    if b.len() >= 4 && b[0] == 45 && b[1] == 45 && b[2] == 45 && b[3] == 10 {
        proof {
            assert(b@.subrange(0, 4) =~= marker());
        }
        let mut r: Vec<u8> = Vec::new();
        let mut i: usize = 4;
        while i < b.len()
            invariant
                4 <= i <= b@.len(),
                b@.len() >= 4,
                r@ == b@.subrange(4, i as int),
            decreases b@.len() - i,
        {
            r.push(b[i]);
            i += 1;
            proof {
                assert(r@ =~= b@.subrange(4, i as int));
            }
        }
        proof {
            assert(b@.subrange(4, b@.len() as int) =~= b@.skip(4));
        }
        r
    } else {
        proof {
            if b@.len() >= 4 && b@.subrange(0, 4) == marker() {
                assert(b@.subrange(0, 4)[0] == b@[0]);
                assert(b@.subrange(0, 4)[1] == b@[1]);
                assert(b@.subrange(0, 4)[2] == b@[2]);
                assert(b@.subrange(0, 4)[3] == b@[3]);
                assert(false);
            }
        }
        b
    }
}

fn with_newline(b: Vec<u8>) -> (r: Vec<u8>)
    ensures
        r@ == with_newline_s(b@),
{
    let n = b.len();
    if n > 0 && b[n - 1] == 10 {
        b
    } else {
        let mut b = b;
        b.push(10);
        b
    }
}

/// Re-serialize a forest to one file's text: each document emitted, the
/// documents joined by exactly one separator line, no trailing separator.
/// Emission into text cannot fail, so this always succeeds; the `Result`
/// keeps the emitter's error category at the boundary's shape.
pub fn emit_forest(docs: &Vec<Node>) -> (r: Result<Vec<u8>, EmitError>)
    ensures
        r is Ok,
        r matches Ok(b) ==> b@ == file_text(seq_view(docs@)),
{
    proof {
        lemma_seq_view(docs@);
    }
    let ghost sv = seq_view(docs@);
    let mut out: Vec<u8> = Vec::new();
    let mut i: usize = 0;
    while i < docs.len()
        invariant
            i <= docs@.len(),
            sv == seq_view(docs@),
            sv.len() == docs@.len(),
            forall|j: int| 0 <= j < docs@.len() ==> sv[j] == node_view(docs@[j]),
            out@ == file_text(sv.take(i as int)),
        decreases docs@.len() - i,
    {
        let d = match emit_document(&docs[i]) {
            Ok(d) => d,
            Err(e) => {
                return Err(e);
            }
        };
        let mut d = with_newline(strip_marker(d));
        let ghost dv = d@;
        proof {
            assert(dv == doc_text(sv[i as int]));
        }
        let ghost pre = out@;
        if i > 0 {
            out.push(45);
            out.push(45);
            out.push(45);
            out.push(10);
            proof {
                assert(out@ =~= pre + marker());
            }
        }
        let ghost pre2 = out@;
        out.append(&mut d);
        proof {
            assert(out@ == pre2 + dv);
        }
        i += 1;
        proof {
            let t = sv.take(i as int);
            if i == 1 {
                assert(t.len() == 1);
                assert(t[0] == sv[0]);
                assert(pre2 =~= Seq::<u8>::empty());
                assert(out@ =~= file_text(t));
            } else {
                assert(t.drop_last() =~= sv.take(i as int - 1));
                assert(t.last() == sv[i as int - 1]);
                assert(file_text(t) == file_text(t.drop_last()) + marker() + doc_text(t.last()));
                assert(out@ =~= file_text(t));
            }
        }
    }
    proof {
        assert(sv.take(sv.len() as int) =~= sv);
    }
    Ok(out)
}

} // verus!
