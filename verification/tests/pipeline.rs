use yamlsort::emit::emit_forest;
use yamlsort::pipeline::{batch_failed, outcome_is_failure, parse_forest, process_forest, process_text, validate_text, Outcome};
use yamlsort::Node;

#[test]
fn unsorted_file_needs_sorting_in_check_mode() {
    let r = process_text("- 3\n- 1\n- 2\n", false);
    assert!(matches!(r, Outcome::NeedsSorting));
    assert!(outcome_is_failure(&r));
}

#[test]
fn unsorted_file_is_rewritten_in_write_mode() {
    let r = process_text("- 3\n- 1\n- 2\n", true);
    match r {
        Outcome::Sorted(b) => assert_eq!(b, b"- 1\n- 2\n- 3\n".to_vec()),
        other => panic!("expected sorted text, got {:?}", outcome_name(&other)),
    }
}

#[test]
fn nested_mapping_value_is_sorted() {
    let r = process_text("a:\n- 2\n- 1\n", true);
    match r {
        Outcome::Sorted(b) => assert_eq!(b, b"a:\n  - 1\n  - 2\n".to_vec()),
        other => panic!("expected sorted text, got {:?}", outcome_name(&other)),
    }
}

#[test]
fn sorted_file_is_left_alone_in_both_modes() {
    let check = process_text("- 1\n- 2\n- 3\n", false);
    assert!(matches!(check, Outcome::AlreadyCanonical));
    assert!(!outcome_is_failure(&check));
    let write = process_text("- 1\n- 2\n- 3\n", true);
    assert!(matches!(write, Outcome::AlreadyCanonical));
}

#[test]
fn two_documents_keep_one_separator_and_no_trailing_one() {
    let input = "- 2\n- 1\n---\n- 4\n- 3\n";
    let r = process_text(input, true);
    match r {
        Outcome::Sorted(b) => assert_eq!(b, b"- 1\n- 2\n---\n- 3\n- 4\n".to_vec()),
        other => panic!("expected sorted text, got {:?}", outcome_name(&other)),
    }
}

#[test]
fn malformed_text_is_a_parse_error_and_fails_the_batch() {
    let r = process_text("a: [unclosed\n- b", false);
    assert!(matches!(r, Outcome::ParseFailed(_)));
    assert!(outcome_is_failure(&r));
    let flags = vec![false, outcome_is_failure(&r), false];
    assert!(batch_failed(&flags));
}

#[test]
fn emitting_and_parsing_back_keeps_the_forest() {
    let forest = vec![
        Node::Mapping(vec![
            (b"alpha".to_vec(), Node::Sequence(vec![
                Node::Int(1),
                Node::Int(2),
                Node::Str(b"x".to_vec()),
            ])),
            (b"beta".to_vec(), Node::Bool(true)),
        ]),
        Node::Sequence(vec![Node::Null, Node::Int(7)]),
    ];
    let text = emit_forest(&forest).expect("emission should succeed");
    let text = String::from_utf8(text).expect("emitted text is valid text");
    let reparsed = parse_forest(&text).expect("emitted text parses back");
    assert_eq!(reparsed, forest);
}

#[test]
fn process_forest_reports_exactly_the_unsorted_forests() {
    let sorted = vec![Node::Sequence(vec![Node::Int(1), Node::Int(2)])];
    let (changed, canonical) = process_forest(&sorted);
    assert!(!changed);
    assert_eq!(canonical, sorted);

    let unsorted = vec![Node::Sequence(vec![Node::Int(2), Node::Int(1)])];
    let (changed, canonical) = process_forest(&unsorted);
    assert!(changed);
    assert_eq!(canonical, sorted);
}

#[test]
fn parse_normalizes_mapping_key_order() {
    let parsed = parse_forest("b: 2\na: 1\n").expect("text parses");
    let expected = vec![Node::Mapping(vec![
        (b"a".to_vec(), Node::Int(1)),
        (b"b".to_vec(), Node::Int(2)),
    ])];
    assert_eq!(parsed, expected);
}

#[test]
fn a_mapping_with_a_non_string_key_is_refused() {
    let r = parse_forest("1: a\n");
    assert!(r.is_err());
}

#[test]
fn validate_accepts_well_formed_and_refuses_malformed_text() {
    assert!(validate_text("a: 1\nb:\n- 2\n").is_ok());
    assert!(validate_text("a: [broken\n- b").is_err());
}

#[test]
fn empty_text_parses_to_an_empty_forest() {
    let parsed = parse_forest("").expect("empty text parses");
    assert_eq!(parsed, Vec::<Node>::new());
    assert!(matches!(process_text("", true), Outcome::AlreadyCanonical));
}

#[test]
fn batch_verdict_is_an_or_over_files() {
    assert!(!batch_failed(&vec![]));
    assert!(!batch_failed(&vec![false, false]));
    assert!(batch_failed(&vec![false, true]));
    assert!(batch_failed(&vec![true, false, false]));
}

#[test]
fn floats_keep_their_text_and_compare_by_it() {
    let r = process_text("- 2.5\n- 1.25\n", true);
    match r {
        Outcome::Sorted(b) => assert_eq!(b, b"- 1.25\n- 2.5\n".to_vec()),
        other => panic!("expected sorted text, got {:?}", outcome_name(&other)),
    }
}

#[test]
fn two_spellings_of_one_mapping_parse_to_one_forest() {
    let first = parse_forest("b: 1\na: 2\n").expect("text parses");
    let second = parse_forest("a: 2\nb: 1\n").expect("text parses");
    assert_eq!(first, second);
}

#[test]
fn three_documents_keep_their_order_and_separators() {
    let r = process_text("- 2\n- 1\n---\n- b\n- a\n---\nk:\n- 9\n- 8\n", true);
    match r {
        Outcome::Sorted(b) => {
            assert_eq!(b, b"- 1\n- 2\n---\n- a\n- b\n---\nk:\n  - 8\n  - 9\n".to_vec())
        }
        other => panic!("expected sorted text, got {:?}", outcome_name(&other)),
    }
}

#[test]
fn booleans_sort_false_first() {
    let r = process_text("- true\n- false\n", true);
    match r {
        Outcome::Sorted(b) => assert_eq!(b, b"- false\n- true\n".to_vec()),
        other => panic!("expected sorted text, got {:?}", outcome_name(&other)),
    }
}

fn outcome_name(o: &Outcome) -> &'static str {
    match o {
        Outcome::ParseFailed(_) => "a parse failure",
        Outcome::AlreadyCanonical => "an already-canonical verdict",
        Outcome::NeedsSorting => "a needs-sorting verdict",
        Outcome::Sorted(_) => "sorted text",
        Outcome::EmitFailed(_) => "an emit failure",
    }
}
