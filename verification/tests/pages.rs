use array_engine::error::{CompileError, RuntimeError};
use array_engine::pages::{diagram_path, example_text, has_footnote, has_text, split_subscript};

#[test]
fn an_example_gets_its_arguments_on_every_line_of_code() {
    assert_eq!(example_text("∘", 1), "∘ 1_2_3  ");
    assert_eq!(example_text("⊟⊃+-", 2), "⊟⊃+- 1_2_3 4_5_6  ");
    assert_eq!(example_text("⊟⊓-+", 4), "⊟⊓-+ 1_2_3 4_5_6 7_8_9 10_11_12  ");
    assert_eq!(example_text("⊂", 0), "⊂  ");
    assert_eq!(example_text("", 2), "");
}

#[test]
fn a_comment_line_of_an_example_stays_as_it_is() {
    assert_eq!(example_text("# note\n⊂.", 1), "# note\n⊂. 1_2_3  ");
    assert_eq!(example_text("◌\n⋅∘", 2), "◌ 1_2_3 4_5_6  \n⋅∘ 1_2_3 4_5_6  ");
    assert_eq!(example_text("#", 3), "#");
    assert_eq!(example_text(" #", 1), " # 1_2_3  ");
}

#[test]
fn the_lines_of_an_example_end_at_line_feeds() {
    assert_eq!(example_text("a\n", 0), "a  ");
    assert_eq!(example_text("a\n\nb", 0), "a  \n  \nb  ");
    assert_eq!(example_text("\n", 0), "  ");
    assert_eq!(example_text("a\r\nb\r", 0), "a  \nb\r  ");
    assert_eq!(example_text("\r\n#x\r\n", 1), " 1_2_3  \n#x");
    let lines: Vec<&str> = "a\r\n\nb\r".lines().collect();
    assert_eq!(lines, vec!["a", "", "b\r"]);
    assert_eq!(example_text("a\r\n\nb\r", 0), "a  \n  \nb\r  ");
}

#[test]
fn six_symbols_carry_a_footnote() {
    for s in ["N", "ν", "X", "χ", "R", "ρ"] {
        assert!(has_footnote(s));
    }
    for s in ["", "I", "n", "NN", "D1", "Φ", "Ê", "x"] {
        assert!(!has_footnote(s));
    }
}

#[test]
fn a_digit_at_the_end_of_a_symbol_goes_below_the_line() {
    assert_eq!(split_subscript("D2"), ("D".to_string(), "2".to_string()));
    assert_eq!(split_subscript("Φ1"), ("Φ".to_string(), "1".to_string()));
    assert_eq!(split_subscript("B"), ("B".to_string(), String::new()));
    assert_eq!(split_subscript(""), (String::new(), String::new()));
    assert_eq!(split_subscript("7"), (String::new(), "7".to_string()));
    assert_eq!(split_subscript("2D"), ("2D".to_string(), String::new()));
    assert_eq!(split_subscript("X12"), ("X1".to_string(), "21".to_string()));
    assert_eq!(split_subscript("E٣"), ("E٣".to_string(), String::new()));
}

#[test]
fn a_diagram_lies_under_the_name_of_its_symbol() {
    assert_eq!(diagram_path("B"), "/combinators/B.svg");
    assert_eq!(diagram_path("Φ1"), "/combinators/Φ1.svg");
    assert_eq!(diagram_path(""), "/combinators/.svg");
}

#[test]
fn a_description_of_white_space_alone_says_nothing() {
    assert!(!has_text(""));
    assert!(!has_text("  \t\n\r"));
    assert!(!has_text("\u{a0}\u{2003}\u{3000}\u{85}\u{1680}\u{2028}\u{202f}\u{205f}"));
    assert!(has_text(" x "));
    assert!(has_text("\u{200b}"));
    assert!(has_text("\u{1c}"));
    for c in (0u32..0x3100).filter_map(char::from_u32) {
        assert_eq!(has_text(&c.to_string()), !c.is_whitespace());
    }
}

#[test]
fn every_failure_has_its_words() {
    assert_eq!(RuntimeError::ShapeMismatch.message(), "shape mismatch");
    assert_eq!(RuntimeError::DomainError.message(), "domain error");
    assert_eq!(RuntimeError::IndexOutOfBounds.message(), "index out of bounds");
    assert_eq!(RuntimeError::UserAssertFailed("too few".to_string()).message(), "too few");
    assert_eq!(RuntimeError::Interrupted.message(), "interrupted");
    assert_eq!(RuntimeError::StackUnderflow.message(), "stack underflow");
    assert_eq!(CompileError::UnknownIdentifier("Foo".to_string()).message(), "unknown identifier Foo");
    assert_eq!(CompileError::SignatureMismatch.message(), "signature mismatch");
    assert_eq!(CompileError::Syntax("unexpected )".to_string()).message(), "unexpected )");
}
