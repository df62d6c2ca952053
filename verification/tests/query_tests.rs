use build_deps::query_result::QueryInput;
use build_deps::query_result::QueryResult;

#[test]
fn example_query_report_parses() {
    let text = "out/foo.o:\n  input: cc\n    src/foo.c\n  outputs:\n    out/foo.o";
    let q = QueryResult::try_from_string(text, "out/foo.o").unwrap();
    assert!(!q.phony());
    assert_eq!(q.input_desc, "cc");
    assert_eq!(q.input.len(), 1);
    assert!(matches!(&q.input[0], QueryInput::Normal(p) if p == "src/foo.c"));
    assert_eq!(q.outputs, vec!["out/foo.o".to_string()]);
}

#[test]
fn phony_target_is_detected() {
    let text = "all:\n  input: phony\n    out/foo.o\n  outputs:";
    let q = QueryResult::try_from_string(text, "all").unwrap();
    assert!(q.phony());
    assert_eq!(q.outputs.len(), 0);
}

#[test]
fn implicit_and_order_only_inputs_are_distinct() {
    let text = "t:\n  input: cc\n    normal.c\n    | implicit.h\n    || order_only.stamp\n  outputs:\n    t";
    let q = QueryResult::try_from_string(text, "t").unwrap();
    assert_eq!(q.input.len(), 3);
    assert!(matches!(&q.input[0], QueryInput::Normal(p) if p == "normal.c"));
    assert!(matches!(&q.input[1], QueryInput::Implicit(p) if p == "implicit.h"));
    assert!(matches!(&q.input[2], QueryInput::OrderOnly(p) if p == "order_only.stamp"));
}

#[test]
fn mismatched_target_name_fails() {
    let text = "out/foo.o:\n  input: cc\n  outputs:\n    out/foo.o";
    assert!(QueryResult::try_from_string(text, "out/bar.o").is_err());
    assert!(QueryResult::try_from_string(text, "out/foo.o").is_ok());
}

#[test]
fn trailing_unparsed_text_fails() {
    let text = "t:\n  input: cc\n  outputs:\n    t\nleftover";
    let e = QueryResult::try_from_string(text, "t").unwrap_err();
    assert_eq!(e.line, 4);
}

#[test]
fn missing_outputs_header_fails() {
    assert!(QueryResult::try_from_string("t:\n  input: cc\n", "t").is_err());
    assert!(QueryResult::try_from_string("t:\n  input: cc\n  output:\n", "t").is_err());
}
