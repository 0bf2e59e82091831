use yamlsort::canon::canonicalize;
use yamlsort::diff::{is_changed, node_eq};
use yamlsort::norm::normalize;
use yamlsort::order::cmp_nodes;
use yamlsort::{Node, Rel};

fn ints(vals: &[i64]) -> Node {
    Node::Sequence(vals.iter().map(|v| Node::Int(*v)).collect())
}

fn key(s: &str) -> Vec<u8> {
    s.as_bytes().to_vec()
}

#[test]
fn unsorted_sequence_is_sorted_and_reported_changed() {
    let original = ints(&[3, 1, 2]);
    let canonical = canonicalize(&original);
    assert_eq!(canonical, ints(&[1, 2, 3]));
    assert!(is_changed(&vec![original], &vec![canonical]));
}

#[test]
fn mapping_values_are_canonicalized_in_place() {
    let original = Node::Mapping(vec![(key("a"), ints(&[2, 1]))]);
    let canonical = canonicalize(&original);
    assert_eq!(canonical, Node::Mapping(vec![(key("a"), ints(&[1, 2]))]));
}

#[test]
fn sorted_sequence_is_reported_unchanged() {
    let original = ints(&[1, 2, 3]);
    let canonical = canonicalize(&original);
    assert_eq!(canonical, original);
    assert!(!is_changed(&vec![original], &vec![canonical]));
}

#[test]
fn heterogeneous_sequence_sorts_by_type_then_value() {
    let original = Node::Sequence(vec![
        Node::Int(2),
        Node::Str(key("a")),
        Node::Int(1),
    ]);
    let canonical = canonicalize(&original);
    let expected = Node::Sequence(vec![
        Node::Int(1),
        Node::Int(2),
        Node::Str(key("a")),
    ]);
    assert_eq!(canonical, expected);
}

#[test]
fn canonicalization_is_idempotent_on_a_nested_document() {
    let doc = Node::Mapping(vec![
        (key("outer"), Node::Sequence(vec![
            ints(&[9, 7, 8]),
            Node::Str(key("zzz")),
            Node::Null,
            Node::Mapping(vec![(key("inner"), ints(&[5, 4]))]),
        ])),
    ]);
    let once = canonicalize(&doc);
    let twice = canonicalize(&once);
    assert_eq!(twice, once);
}

#[test]
fn canonicalization_keeps_mapping_entry_order() {
    let doc = Node::Mapping(vec![
        (key("b"), ints(&[2, 1])),
        (key("a"), Node::Int(0)),
    ]);
    let canonical = canonicalize(&doc);
    let expected = Node::Mapping(vec![
        (key("b"), ints(&[1, 2])),
        (key("a"), Node::Int(0)),
    ]);
    assert_eq!(canonical, expected);
}

#[test]
fn type_precedence_orders_kinds() {
    let by_rank = vec![
        Node::Null,
        Node::Bool(false),
        Node::Int(0),
        Node::Float(key("0.5")),
        Node::Str(key("")),
        Node::Sequence(vec![]),
        Node::Mapping(vec![]),
        Node::Malformed,
    ];
    for i in 0..by_rank.len() {
        for j in 0..by_rank.len() {
            let expected = if i < j {
                Rel::Lt
            } else if i == j {
                Rel::Eq
            } else {
                Rel::Gt
            };
            assert_eq!(cmp_nodes(&by_rank[i], &by_rank[j]), expected);
        }
    }
}

#[test]
fn order_is_antisymmetric_and_transitive_on_values() {
    let a = ints(&[1, 2]);
    let b = ints(&[1, 2, 0]);
    let c = ints(&[1, 3]);
    assert_eq!(cmp_nodes(&a, &b), Rel::Lt);
    assert_eq!(cmp_nodes(&b, &a), Rel::Gt);
    assert_eq!(cmp_nodes(&b, &c), Rel::Lt);
    assert_eq!(cmp_nodes(&a, &c), Rel::Lt);
    assert_eq!(cmp_nodes(&a, &ints(&[1, 2])), Rel::Eq);
}

#[test]
fn scalar_orders_follow_their_values() {
    assert_eq!(cmp_nodes(&Node::Bool(false), &Node::Bool(true)), Rel::Lt);
    assert_eq!(cmp_nodes(&Node::Int(-3), &Node::Int(7)), Rel::Lt);
    assert_eq!(cmp_nodes(&Node::Str(key("ab")), &Node::Str(key("b"))), Rel::Lt);
    assert_eq!(cmp_nodes(&Node::Str(key("ab")), &Node::Str(key("abc"))), Rel::Lt);
    assert_eq!(cmp_nodes(&Node::Malformed, &Node::Malformed), Rel::Eq);
}

#[test]
fn structural_equality_distinguishes_values() {
    let a = Node::Mapping(vec![(key("k"), ints(&[1, 2]))]);
    let b = Node::Mapping(vec![(key("k"), ints(&[1, 2]))]);
    let c = Node::Mapping(vec![(key("k"), ints(&[1, 3]))]);
    assert!(node_eq(&a, &b));
    assert!(!node_eq(&a, &c));
}

#[test]
fn diff_sees_a_change_in_document_count() {
    let one = vec![ints(&[1])];
    let two = vec![ints(&[1]), ints(&[2])];
    assert!(is_changed(&one, &two));
}

#[test]
fn normalization_sorts_mapping_keys() {
    let doc = Node::Mapping(vec![
        (key("b"), Node::Int(2)),
        (key("a"), Node::Int(1)),
    ]);
    let normal = normalize(&doc);
    let expected = Node::Mapping(vec![
        (key("a"), Node::Int(1)),
        (key("b"), Node::Int(2)),
    ]);
    assert_eq!(normal, expected);
}

#[test]
fn normalization_keeps_the_earliest_of_duplicate_keys() {
    let doc = Node::Mapping(vec![
        (key("k"), Node::Int(1)),
        (key("k"), Node::Int(2)),
    ]);
    let normal = normalize(&doc);
    assert_eq!(normal, Node::Mapping(vec![(key("k"), Node::Int(1))]));
}

#[test]
fn normalization_is_idempotent() {
    let doc = Node::Mapping(vec![
        (key("c"), ints(&[2, 1])),
        (key("a"), Node::Mapping(vec![
            (key("y"), Node::Int(1)),
            (key("x"), Node::Int(2)),
        ])),
    ]);
    let once = normalize(&doc);
    let twice = normalize(&once);
    assert_eq!(twice, once);
}

#[test]
fn empty_containers_pass_through() {
    assert_eq!(canonicalize(&Node::Sequence(vec![])), Node::Sequence(vec![]));
    assert_eq!(canonicalize(&Node::Mapping(vec![])), Node::Mapping(vec![]));
    assert_eq!(canonicalize(&Node::Null), Node::Null);
    assert_eq!(canonicalize(&Node::Malformed), Node::Malformed);
}

#[test]
fn equal_duplicates_survive_sorting() {
    let original = ints(&[2, 1, 2, 1]);
    let canonical = canonicalize(&original);
    assert_eq!(canonical, ints(&[1, 1, 2, 2]));
}
