use array_engine::assembly::{Function, Fused, Instr, Modifier};
use array_engine::compile::{Compiler, Item, Source, Word};
use array_engine::error::RuntimeError;
use array_engine::primitive::Primitive;
use array_engine::scalar::ScalarOp;
use array_engine::signature::{compose, infer_signature, instr_signature, modifier_signature};

fn table() -> Vec<Function> {
    vec![
        Function { body: vec![Instr::Prim(Primitive::Add)], inputs: 2, outputs: 1 },
        Function { body: vec![Instr::Prim(Primitive::Dup)], inputs: 1, outputs: 2 },
        Function { body: vec![Instr::Push(0)], inputs: 0, outputs: 1 },
    ]
}

#[test]
fn signatures_compose() {
    assert_eq!(compose((0, 1), (2, 1)), Some((1, 1)));
    assert_eq!(compose((1, 3), (2, 1)), Some((1, 2)));
    assert_eq!(compose((2, 1), (1, 2)), Some((2, 2)));
    assert_eq!(compose((0, 0), (0, 0)), Some((0, 0)));
    assert_eq!(compose((usize::MAX, 0), (1, 0)), None);
    assert_eq!(compose((0, usize::MAX), (0, 1)), None);
    assert_eq!(compose((0, usize::MAX), (1, 1)), Some((0, usize::MAX)));
}

#[test]
fn instructions_have_signatures() {
    let t = table();
    assert_eq!(instr_signature(&t, Instr::Push(7)), Some((0, 1)));
    assert_eq!(instr_signature(&t, Instr::Prim(Primitive::Flip)), Some((2, 2)));
    assert_eq!(instr_signature(&t, Instr::Prim(Primitive::Fork)), None);
    assert_eq!(instr_signature(&t, Instr::Call(1)), Some((1, 2)));
    assert_eq!(instr_signature(&t, Instr::Call(3)), None);
    assert_eq!(instr_signature(&t, Instr::MakeArray(4)), Some((4, 1)));
    assert_eq!(instr_signature(&t, Instr::Fused(Fused::Last)), Some((1, 1)));
    assert_eq!(instr_signature(&t, Instr::Fused(Fused::TableOp(ScalarOp::Add))), Some((2, 1)));
    assert_eq!(instr_signature(&t, Instr::Fused(Fused::TableFork(ScalarOp::Add, ScalarOp::Sub))), Some((2, 2)));
    assert_eq!(instr_signature(&t, Instr::Fused(Fused::Dips { depth: 2, function: 0 })), Some((4, 3)));
    assert_eq!(instr_signature(&t, Instr::Fused(Fused::Transposes(0))), Some((0, 0)));
    assert_eq!(instr_signature(&t, Instr::Fused(Fused::Transposes(3))), Some((1, 1)));
}

#[test]
fn modifiers_take_their_signatures_from_their_functions() {
    let t = table();
    assert_eq!(modifier_signature(&t, Modifier::Reduce(0)), Some((1, 1)));
    assert_eq!(modifier_signature(&t, Modifier::Scan(0)), Some((1, 1)));
    assert_eq!(modifier_signature(&t, Modifier::Rows(1)), Some((1, 2)));
    assert_eq!(modifier_signature(&t, Modifier::Each(1)), Some((1, 2)));
    assert_eq!(modifier_signature(&t, Modifier::Table(0)), Some((2, 1)));
    assert_eq!(modifier_signature(&t, Modifier::Dip(0)), Some((3, 2)));
    assert_eq!(modifier_signature(&t, Modifier::Gap(2)), Some((1, 1)));
    assert_eq!(modifier_signature(&t, Modifier::Fork(0, 1)), Some((2, 3)));
    assert_eq!(modifier_signature(&t, Modifier::Bracket(0, 1)), Some((3, 3)));
    assert_eq!(modifier_signature(&t, Modifier::Try(0, 1)), Some((2, 1)));
    assert_eq!(modifier_signature(&t, Modifier::Reduce(9)), None);
    assert_eq!(modifier_signature(&t, Modifier::Fork(0, 9)), None);
}

#[test]
fn bodies_have_the_signature_of_their_instructions_in_turn() {
    let t = table();
    assert_eq!(infer_signature(&t, &vec![]), Some((0, 0)));
    let body = vec![Instr::Push(0), Instr::Prim(Primitive::Mul), Instr::Prim(Primitive::Add)];
    assert_eq!(infer_signature(&t, &body), Some((2, 1)));
    let dup = vec![Instr::Prim(Primitive::Dup), Instr::Prim(Primitive::Dup), Instr::Prim(Primitive::Pop)];
    assert_eq!(infer_signature(&t, &dup), Some((1, 2)));
    let bad = vec![Instr::Push(0), Instr::Call(5)];
    assert_eq!(infer_signature(&t, &bad), None);
    let modifier = vec![Instr::Prim(Primitive::Table)];
    assert_eq!(infer_signature(&t, &modifier), None);
}

#[test]
fn errors_say_whether_try_may_catch_them() {
    assert!(RuntimeError::DomainError.recoverable());
    assert!(RuntimeError::ShapeMismatch.recoverable());
    assert!(RuntimeError::IndexOutOfBounds.recoverable());
    assert!(RuntimeError::UserAssertFailed("m".to_string()).recoverable());
    assert!(!RuntimeError::StackUnderflow.recoverable());
    assert!(!RuntimeError::Interrupted.recoverable());
    let e = RuntimeError::UserAssertFailed("m".to_string());
    assert_eq!(e.duplicate(), e);
}

/// Words whose line takes nothing from the stack, however they nest, never
/// find the stack short.
#[test]
fn compiled_lines_that_take_nothing_never_underflow() {
    let p = Word::Prim;
    let n = Word::Number;
    let lines: Vec<Vec<Word>> = vec![
        vec![p(Primitive::Add), n(1), n(2)],
        vec![p(Primitive::First), p(Primitive::Range), n(0)],
        vec![
            Word::Modified(
                Primitive::Fork,
                vec![
                    Word::Modified(Primitive::Dip, vec![p(Primitive::Pop)]),
                    Word::Modified(Primitive::Bracket, vec![p(Primitive::Len), p(Primitive::Dup)]),
                ],
            ),
            n(1),
            n(2),
        ],
        vec![
            Word::Modified(Primitive::Rows, vec![Word::Modified(Primitive::Fork, vec![p(Primitive::Len), p(Primitive::Reverse)])]),
            Word::Array(vec![Word::Array(vec![n(1), n(2)]), Word::Array(vec![n(3), n(4)])]),
        ],
        vec![
            Word::Modified(Primitive::Try, vec![p(Primitive::Select), p(Primitive::Join)]),
            n(7),
            Word::Array(vec![n(1)]),
        ],
        vec![p(Primitive::Assert), Word::Text("no".to_string()), n(0)],
    ];
    for words in lines {
        let mut c = Compiler::new();
        c.load(&Source::Parsed(vec![Item::Words(words)]), "line.ua").unwrap();
        let code = c.finish();
        match code.run() {
            Ok(_) => {}
            Err(e) => assert_ne!(e, RuntimeError::StackUnderflow),
        }
    }
}

#[test]
fn a_fused_table_of_pairs_takes_two_values_and_leaves_one() {
    let t: Vec<Function> = Vec::new();
    assert_eq!(instr_signature(&t, Instr::Fused(Fused::TablePairs { couple: false })), Some((2, 1)));
    assert_eq!(instr_signature(&t, Instr::Fused(Fused::TablePairs { couple: true })), Some((2, 1)));
}

#[test]
fn a_fork_taken_outward_has_the_signature_of_its_modifier() {
    let t = table();
    for m in [Modifier::Rows(0), Modifier::Each(1), Modifier::Table(0), Modifier::Rows(9)] {
        assert_eq!(instr_signature(&t, Instr::Fused(Fused::Forked(m))), modifier_signature(&t, m));
    }
}
