use source_chain::{to_string, ChainError};

/// Builds a `ChainError` whose chain of descriptions is exactly `descriptions`,
/// the top-level one first.
fn build_chain(descriptions: &[&str]) -> ChainError {
    let mut current: Option<Box<ChainError>> = None;
    for d in descriptions.iter().rev() {
        current = Some(Box::new(ChainError { description: (*d).to_string(), cause: current }));
    }
    *current.expect("at least one description")
}

#[test]
fn no_cause_returns_description_verbatim() {
    let e = build_chain(&["A"]);
    assert_eq!(to_string(&e), "A");
    let lone = build_chain(&["unknown file unknown-file.txt"]);
    assert_eq!(to_string(&lone), "unknown file unknown-file.txt");
}

#[test]
fn single_cause() {
    let e = build_chain(&["A", "B"]);
    assert_eq!(to_string(&e), "A\nCaused by:\n\tB");
}

#[test]
fn multi_level_file_error() {
    let e = build_chain(&[
        "unknown file unknown-file.txt",
        "No such file or directory (os error 2)",
    ]);
    assert_eq!(
        to_string(&e),
        "unknown file unknown-file.txt\nCaused by:\n\tNo such file or directory (os error 2)"
    );
}

#[test]
fn three_level_chain() {
    let e = build_chain(&["A", "B", "C"]);
    assert_eq!(to_string(&e), "A\nCaused by:\n\tB\n\tC");
}

#[test]
fn boxed_value_formats_like_the_concrete_one() {
    let concrete = build_chain(&["outer", "middle", "inner"]);
    let boxed: Box<ChainError> = Box::new(build_chain(&["outer", "middle", "inner"]));
    assert_eq!(to_string(&concrete), to_string(&*boxed));
}

#[test]
fn descriptions_appear_unmodified() {
    let root = "weird \"root\" {with} %s characters";
    let cause = "tab\there and newline\nthere";
    let e = build_chain(&[root, cause]);
    let report = to_string(&e);
    assert_eq!(report, format!("{}\nCaused by:\n\t{}", root, cause));
    assert_eq!(&report[..root.len()], root);
    assert_eq!(&report[report.len() - cause.len()..], cause);
}

#[test]
fn formatting_is_deterministic() {
    let first = build_chain(&["A", "B", "C"]);
    let second = build_chain(&["A", "B", "C"]);
    let once = to_string(&first);
    let twice = to_string(&first);
    let other = to_string(&second);
    assert_eq!(once, twice);
    assert_eq!(once, other);
    assert_eq!(once, "A\nCaused by:\n\tB\n\tC");
}

#[test]
fn empty_descriptions_keep_the_structure() {
    let all_empty = build_chain(&["", "", "x"]);
    assert_eq!(to_string(&all_empty), "\nCaused by:\n\t\n\tx");
    let empty_cause = build_chain(&["A", ""]);
    assert_eq!(to_string(&empty_cause), "A\nCaused by:\n\t");
    let empty_root_only = build_chain(&[""]);
    assert_eq!(to_string(&empty_root_only), "");
}
