use array_engine::editor::{button_class, next_example, runs_code, splice};
use array_engine::primitive::Primitive;

#[test]
fn splice_replaces_the_selection() {
    assert_eq!(splice("⇡10", 0, 0, "⊢"), "⊢⇡10");
    assert_eq!(splice("⇡10", 3, 3, "⊢"), "⇡10⊢");
    assert_eq!(splice("⇡10", 1, 3, "5"), "⇡5");
    assert_eq!(splice("⇡10", 3, 1, "5"), "⇡5");
    assert_eq!(splice("⇡10", 1, 9, "5"), "⇡5");
    assert_eq!(splice("⇡10", 7, 9, "+"), "⇡10+");
    assert_eq!(splice("", 0, 0, "⇌⊢"), "⇌⊢");
    assert_eq!(splice("abc", 1, 2, ""), "ac");
}

#[test]
fn examples_go_round() {
    assert_eq!(next_example(0, 7), 1);
    assert_eq!(next_example(5, 7), 6);
    assert_eq!(next_example(6, 7), 0);
    assert_eq!(next_example(0, 1), 0);
    assert_eq!(next_example(9, 7), 3);
    assert_eq!(next_example(usize::MAX, 2), 0);
}

#[test]
fn buttons_are_classed_by_what_the_glyph_takes() {
    assert_eq!(button_class(Primitive::Reduce), "modifier-button");
    assert_eq!(button_class(Primitive::Fork), "modifier-button");
    assert_eq!(button_class(Primitive::Len), "monadic-function-button");
    assert_eq!(button_class(Primitive::Dup), "monadic-function-button");
    assert_eq!(button_class(Primitive::Add), "dyadic-function-button");
    assert_eq!(button_class(Primitive::Assert), "dyadic-function-button");
}

#[test]
fn enter_with_control_or_shift_runs_the_code() {
    assert!(runs_code("Enter", true, false));
    assert!(runs_code("Enter", false, true));
    assert!(runs_code("Enter", true, true));
    assert!(!runs_code("Enter", false, false));
    assert!(!runs_code("enter", true, false));
    assert!(!runs_code("Enters", true, false));
    assert!(!runs_code("a", true, true));
    assert!(!runs_code("", false, true));
}
