use array_engine::assembly::{Assembly, Function, Fused, Instr, Modifier};
use array_engine::compile::{Compiler, Item, Source, Word};
use array_engine::error::{CompileError, RuntimeError};
use array_engine::machine::Machine;
use array_engine::optimize::{find_idiom, fuse_body, optimize};
use array_engine::primitive::Primitive;
use array_engine::scalar::ScalarOp;
use array_engine::value::{Elem, Kind, Value};

fn p(x: Primitive) -> Word {
    Word::Prim(x)
}

fn n(x: i64) -> Word {
    Word::Number(x)
}

fn m1(x: Primitive, f: Word) -> Word {
    Word::Modified(x, vec![f])
}

fn m2(x: Primitive, f: Word, g: Word) -> Word {
    Word::Modified(x, vec![f, g])
}

fn list(items: &[i64]) -> Word {
    Word::Array(items.iter().map(|x| Word::Number(*x)).collect())
}

fn nums(items: &[i64]) -> Value {
    Value::numbers(&items.to_vec())
}

fn num(x: i64) -> Value {
    Value::scalar(Elem::Num(x))
}

fn matrix(rows: usize, cols: usize, items: &[i64]) -> Value {
    let cells: Vec<Elem> = items.iter().map(|n| Elem::Num(*n)).collect();
    Value::new(Kind::Number, vec![rows, cols], cells).unwrap()
}

fn compiler(lines: Vec<Vec<Word>>) -> Compiler {
    let mut c = Compiler::new();
    let items: Vec<Item> = lines.into_iter().map(Item::Words).collect();
    c.load(&Source::Parsed(items), "test.ua").unwrap();
    c
}

/// Runs the lines both as compiled and after the fusion pass, checks that
/// the two runs agree, and returns the outcome.
fn run(lines: fn() -> Vec<Vec<Word>>) -> Result<Vec<Value>, RuntimeError> {
    let plain = compiler(lines()).assemble().run();
    let fused = compiler(lines()).finish().run();
    match (&plain, &fused) {
        (Ok(a), Ok(b)) => {
            assert_eq!(a.len(), b.len());
            for (x, y) in a.iter().zip(b.iter()) {
                assert!(x.same(y));
            }
        }
        (Err(a), Err(b)) => assert_eq!(a, b),
        _ => panic!("the fused run and the plain run disagree"),
    }
    fused
}

fn top(lines: fn() -> Vec<Vec<Word>>) -> Value {
    run(lines).unwrap().pop().unwrap()
}

#[test]
fn average_of_an_array() {
    let out = run(|| {
        vec![
            vec![list(&[1, 5, 8, 2])],
            vec![m1(Primitive::Reduce, p(Primitive::Add)), p(Primitive::Dup)],
            vec![p(Primitive::Len), p(Primitive::Flip)],
            vec![p(Primitive::Div)],
        ]
    })
    .unwrap();
    assert_eq!(out.len(), 1);
    assert!(out[0].same(&num(4)));
    assert_eq!(out[0].show(), "4");
}

#[test]
fn words_run_from_right_to_left() {
    let v = top(|| vec![vec![p(Primitive::Sub), n(1), n(5)]]);
    assert!(v.same(&num(4)));
    let out = run(|| vec![vec![n(1), n(2), n(3)]]).unwrap();
    assert!(out[0].same(&num(3)));
    assert!(out[2].same(&num(1)));
    let lit = top(|| vec![vec![list(&[1, 2, 3])]]);
    assert!(lit.same(&nums(&[1, 2, 3])));
}

#[test]
fn range_then_last_is_fused() {
    let lines = || vec![vec![p(Primitive::First), p(Primitive::Reverse), p(Primitive::Range), n(10)]];
    let range = top(|| vec![vec![p(Primitive::Range), n(10)]]);
    assert!(range.same(&nums(&[0, 1, 2, 3, 4, 5, 6, 7, 8, 9])));
    assert!(top(lines).same(&num(9)));
    let fused = compiler(lines()).finish();
    assert_eq!(
        fused.main().clone(),
        vec![Instr::Push(0), Instr::Prim(Primitive::Range), Instr::Fused(Fused::Last)]
    );
    let plain = compiler(lines()).assemble();
    assert_eq!(
        plain.main().clone(),
        vec![
            Instr::Push(0),
            Instr::Prim(Primitive::Range),
            Instr::Prim(Primitive::Reverse),
            Instr::Prim(Primitive::First)
        ]
    );
}

#[test]
fn select_rise_dup_is_a_sort() {
    let lines = || {
        vec![vec![p(Primitive::Select), p(Primitive::Rise), p(Primitive::Dup), list(&[3, 1, 2])]]
    };
    assert!(top(lines).same(&nums(&[1, 2, 3])));
    let fused = compiler(lines()).finish();
    assert_eq!(fused.main().last(), Some(&Instr::Fused(Fused::Sort { desc: false })));
    let falling = || {
        vec![vec![p(Primitive::Select), p(Primitive::Fall), p(Primitive::Dup), list(&[3, 1, 2])]]
    };
    assert!(top(falling).same(&nums(&[3, 2, 1])));
    assert_eq!(
        compiler(falling()).finish().main().last(),
        Some(&Instr::Fused(Fused::Sort { desc: true }))
    );
}

#[test]
fn table_of_fork_is_fork_of_tables() {
    let inner = run(|| {
        vec![vec![
            m1(Primitive::Table, m2(Primitive::Fork, p(Primitive::Add), p(Primitive::Sub))),
            list(&[1, 2, 3]),
            list(&[10, 20]),
        ]]
    })
    .unwrap();
    let outer = run(|| {
        vec![vec![
            m2(
                Primitive::Fork,
                m1(Primitive::Table, p(Primitive::Add)),
                m1(Primitive::Table, p(Primitive::Sub)),
            ),
            list(&[1, 2, 3]),
            list(&[10, 20]),
        ]]
    })
    .unwrap();
    assert_eq!(inner.len(), 2);
    assert_eq!(outer.len(), 2);
    assert!(inner[0].same(&outer[0]));
    assert!(inner[1].same(&outer[1]));
    assert!(inner[1].same(&matrix(3, 2, &[11, 21, 12, 22, 13, 23])));
    assert!(inner[0].same(&matrix(3, 2, &[9, 19, 8, 18, 7, 17])));
    for i in 0..6 {
        assert!(matches!((inner[0].cell(i), outer[0].cell(i)), (Elem::Num(a), Elem::Num(b)) if a == b));
    }
}

#[test]
fn each_idiom_is_fused_and_gives_what_it_gave() {
    let cases: Vec<(fn() -> Vec<Vec<Word>>, Fused, i64)> = vec![
        (
            || vec![vec![p(Primitive::First), p(Primitive::Rise), list(&[3, 1, 2, 1])]],
            Fused::GradeFirst { desc: false },
            1,
        ),
        (
            || vec![vec![p(Primitive::First), p(Primitive::Reverse), p(Primitive::Rise), list(&[3, 1, 3, 1])]],
            Fused::GradeLast { desc: false },
            2,
        ),
        (
            || vec![vec![p(Primitive::First), p(Primitive::Fall), list(&[3, 1, 3, 1])]],
            Fused::GradeFirst { desc: true },
            0,
        ),
        (
            || vec![vec![p(Primitive::First), p(Primitive::Reverse), p(Primitive::Fall), list(&[3, 1, 3, 1])]],
            Fused::GradeLast { desc: true },
            3,
        ),
        (
            || vec![vec![p(Primitive::First), p(Primitive::Where), list(&[0, 0, 1, 1])]],
            Fused::WhereFirst,
            2,
        ),
        (
            || vec![vec![p(Primitive::First), p(Primitive::Reverse), p(Primitive::Where), list(&[0, 1, 1, 0])]],
            Fused::WhereLast,
            2,
        ),
        (
            || vec![vec![m1(Primitive::Reduce, p(Primitive::Add)), list(&[1, 5, 8, 2])]],
            Fused::ReduceOp(ScalarOp::Add),
            16,
        ),
        (
            || vec![vec![m1(Primitive::Reduce, p(Primitive::Max)), list(&[1, 5, 8, 2])]],
            Fused::ReduceOp(ScalarOp::Max),
            8,
        ),
    ];
    for (lines, fused, want) in cases {
        assert!(top(lines).same(&num(want)));
        assert_eq!(compiler(lines()).finish().main().last(), Some(&Instr::Fused(fused)));
    }
}

#[test]
fn fused_idioms_fail_as_the_idioms_do() {
    let empty_first = run(|| vec![vec![p(Primitive::First), p(Primitive::Reverse), p(Primitive::Range), n(0)]]);
    assert_eq!(empty_first.unwrap_err(), RuntimeError::IndexOutOfBounds);
    let no_true = run(|| vec![vec![p(Primitive::First), p(Primitive::Where), list(&[0, 0])]]);
    assert_eq!(no_true.unwrap_err(), RuntimeError::IndexOutOfBounds);
    let not_a_mask = run(|| vec![vec![p(Primitive::First), p(Primitive::Where), n(1)]]);
    assert_eq!(not_a_mask.unwrap_err(), RuntimeError::DomainError);
    let nothing = run(|| vec![vec![p(Primitive::First), p(Primitive::Reverse)]]);
    assert_eq!(nothing.unwrap_err(), RuntimeError::StackUnderflow);
    let sub = run(|| vec![vec![m1(Primitive::Reduce, p(Primitive::Sub)), p(Primitive::Range), n(0)]]);
    assert_eq!(sub.unwrap_err(), RuntimeError::DomainError);
}

#[test]
fn nested_dips_are_one_dip_over_the_group() {
    let lines = || {
        vec![vec![
            m1(Primitive::Dip, m1(Primitive::Dip, m1(Primitive::Dip, Word::Func(vec![p(Primitive::Add), n(1)])))),
            n(10),
            n(20),
            n(30),
            n(40),
        ]]
    };
    let out = run(lines).unwrap();
    assert_eq!(out.len(), 4);
    assert!(out[0].same(&num(41)));
    assert!(out[1].same(&num(30)));
    assert!(out[2].same(&num(20)));
    assert!(out[3].same(&num(10)));
    let fused = compiler(lines()).finish();
    assert_eq!(fused.main().last(), Some(&Instr::Fused(Fused::Dips { depth: 3, function: 0 })));
    let short = run(|| vec![vec![m1(Primitive::Dip, m1(Primitive::Dip, p(Primitive::Pop))), n(1), n(2)]]);
    assert_eq!(short.unwrap_err(), RuntimeError::StackUnderflow);
}

#[test]
fn optimize_states_what_it_rewrites() {
    let table: Vec<Function> = vec![];
    let body = vec![
        Instr::Prim(Primitive::Dup),
        Instr::Prim(Primitive::Rise),
        Instr::Prim(Primitive::Select),
        Instr::Prim(Primitive::Reverse),
        Instr::Prim(Primitive::First),
        Instr::Prim(Primitive::Reverse),
    ];
    assert_eq!(
        fuse_body(&table, 0, &body),
        vec![
            Instr::Fused(Fused::Sort { desc: false }),
            Instr::Fused(Fused::Last),
            Instr::Prim(Primitive::Reverse)
        ]
    );
    assert_eq!(find_idiom(&table, 0, &body, 0), Some((Fused::Sort { desc: false }, 3)));
    assert_eq!(find_idiom(&table, 0, &body, 1), None);
    assert_eq!(find_idiom(&table, 0, &body, 3), Some((Fused::Last, 2)));
    assert_eq!(find_idiom(&table, 0, &body, 5), None);
    assert_eq!(fuse_body(&table, 0, &vec![]), vec![]);
    let add = vec![Function { body: vec![Instr::Prim(Primitive::Add)], inputs: 2, outputs: 1 }];
    let reduce = vec![Instr::Modifier(Modifier::Reduce(0))];
    assert_eq!(fuse_body(&add, 1, &reduce), vec![Instr::Fused(Fused::ReduceOp(ScalarOp::Add))]);
    assert_eq!(fuse_body(&add, 0, &reduce), reduce);
    let code = Assembly::new(add, reduce, vec![], vec![]);
    let opt = optimize(&code);
    assert_eq!(opt.function_count(), 1);
    assert_eq!(opt.function(0).body, vec![Instr::Prim(Primitive::Add)]);
    assert_eq!(opt.function(0).inputs, 2);
    assert_eq!(opt.main().clone(), vec![Instr::Fused(Fused::ReduceOp(ScalarOp::Add))]);
}

#[test]
fn reduce_folds_rows_from_the_first() {
    assert!(top(|| vec![vec![m1(Primitive::Reduce, p(Primitive::Sub)), list(&[1, 2, 3])]]).same(&num(2)));
    let user = || {
        vec![vec![
            m1(Primitive::Reduce, Word::Func(vec![p(Primitive::Add), p(Primitive::Mul), n(2)])),
            list(&[1, 2, 3]),
        ]]
    };
    assert!(top(user).same(&num(11)));
    let single = top(|| vec![vec![m1(Primitive::Reduce, p(Primitive::Sub)), list(&[7])]]);
    assert!(single.same(&num(7)));
    let rows = || {
        vec![vec![
            m1(Primitive::Reduce, p(Primitive::Add)),
            Word::Array(vec![list(&[1, 2]), list(&[3, 4]), list(&[5, 6])]),
        ]]
    };
    assert!(top(rows).same(&nums(&[9, 12])));
}

#[test]
fn reduce_of_no_rows_is_the_identity_or_a_domain_error() {
    let sum = top(|| vec![vec![m1(Primitive::Reduce, p(Primitive::Add)), p(Primitive::Range), n(0)]]);
    assert!(sum.same(&num(0)));
    let product = top(|| vec![vec![m1(Primitive::Reduce, p(Primitive::Mul)), p(Primitive::Range), n(0)]]);
    assert!(product.same(&num(1)));
    let least = top(|| vec![vec![m1(Primitive::Reduce, p(Primitive::Min)), p(Primitive::Range), n(0)]]);
    assert!(least.same(&num(i64::MAX)));
    let most = top(|| vec![vec![m1(Primitive::Reduce, p(Primitive::Max)), p(Primitive::Range), n(0)]]);
    assert!(most.same(&num(i64::MIN)));
    let user = run(|| {
        vec![vec![
            m1(Primitive::Reduce, Word::Func(vec![p(Primitive::Add), p(Primitive::Mul), n(2)])),
            p(Primitive::Range),
            n(0),
        ]]
    });
    assert_eq!(user.unwrap_err(), RuntimeError::DomainError);
}

#[test]
fn scan_keeps_every_accumulator() {
    let v = top(|| vec![vec![m1(Primitive::Scan, p(Primitive::Add)), list(&[1, 2, 3, 4])]]);
    assert!(v.same(&nums(&[1, 3, 6, 10])));
    let e = top(|| vec![vec![m1(Primitive::Scan, p(Primitive::Add)), p(Primitive::Range), n(0)]]);
    assert!(e.same(&nums(&[])));
}

#[test]
fn rows_each_and_table_apply_item_by_item() {
    let rows = top(|| {
        vec![vec![m1(Primitive::Rows, p(Primitive::Reverse)), Word::Array(vec![list(&[1, 2]), list(&[3, 4])])]]
    });
    assert!(rows.same(&matrix(2, 2, &[2, 1, 4, 3])));
    let each = top(|| {
        vec![vec![m1(Primitive::Each, Word::Func(vec![p(Primitive::Add), n(1)])), list(&[1, 2, 3])]]
    });
    assert!(each.same(&nums(&[2, 3, 4])));
    let each_range = run(|| vec![vec![m1(Primitive::Each, p(Primitive::Range)), list(&[1, 2])]]);
    assert_eq!(each_range.unwrap_err(), RuntimeError::ShapeMismatch);
    let table = top(|| vec![vec![m1(Primitive::Table, p(Primitive::Mul)), list(&[1, 2, 3]), list(&[10, 20])]]);
    assert!(table.same(&matrix(3, 2, &[10, 20, 20, 40, 30, 60])));
    let sub = top(|| vec![vec![m1(Primitive::Table, p(Primitive::Sub)), list(&[1, 2]), list(&[10, 20])]]);
    assert!(sub.same(&matrix(2, 2, &[9, 19, 8, 18])));
}

#[test]
fn fork_gives_both_branches_the_same_arguments() {
    let out = run(|| vec![vec![m2(Primitive::Fork, p(Primitive::Add), p(Primitive::Sub)), n(3), n(5)]]).unwrap();
    assert_eq!(out.len(), 2);
    assert!(out[0].same(&num(2)));
    assert!(out[1].same(&num(8)));
    let uneven = run(|| vec![vec![m2(Primitive::Fork, p(Primitive::Len), p(Primitive::Join)), list(&[1, 2]), list(&[3])]]).unwrap();
    assert_eq!(uneven.len(), 2);
    assert!(uneven[0].same(&nums(&[1, 2, 3])));
    assert!(uneven[1].same(&num(2)));
    let kept = run(|| vec![vec![m2(Primitive::Fork, p(Primitive::Pop), p(Primitive::Identity)), n(1), n(9)]]).unwrap();
    assert_eq!(kept.len(), 2);
    assert!(kept[0].same(&num(9)));
    assert!(kept[1].same(&num(1)));
}

#[test]
fn bracket_gives_each_branch_its_own_arguments() {
    let out = run(|| {
        vec![vec![
            m2(
                Primitive::Bracket,
                Word::Func(vec![p(Primitive::Add), n(1)]),
                Word::Func(vec![p(Primitive::Mul), n(2)]),
            ),
            n(10),
            n(20),
        ]]
    })
    .unwrap();
    assert_eq!(out.len(), 2);
    assert!(out[0].same(&num(40)));
    assert!(out[1].same(&num(11)));
}

#[test]
fn dip_and_gap() {
    let out = run(|| vec![vec![m1(Primitive::Dip, Word::Func(vec![p(Primitive::Add), n(1)])), n(10), n(20)]]).unwrap();
    assert!(out[0].same(&num(21)));
    assert!(out[1].same(&num(10)));
    let gap = run(|| vec![vec![m1(Primitive::Gap, p(Primitive::Len)), n(10), list(&[1, 2])]]).unwrap();
    assert_eq!(gap.len(), 1);
    assert!(gap[0].same(&num(2)));
}

#[test]
fn try_runs_the_fallback_on_the_stack_as_it_was() {
    let caught = run(|| {
        vec![vec![
            m2(Primitive::Try, Word::Func(vec![p(Primitive::Div), n(0)]), m1(Primitive::Gap, n(5))),
            n(7),
        ]]
    })
    .unwrap();
    assert_eq!(caught.len(), 1);
    assert!(caught[0].same(&num(5)));
    let fine = run(|| {
        vec![vec![
            m2(Primitive::Try, Word::Func(vec![p(Primitive::Div), n(2)]), m1(Primitive::Gap, n(5))),
            n(8),
        ]]
    })
    .unwrap();
    assert!(fine[0].same(&num(4)));
    let bounds = run(|| {
        vec![vec![m2(Primitive::Try, p(Primitive::First), p(Primitive::Len)), p(Primitive::Range), n(0)]]
    })
    .unwrap();
    assert_eq!(bounds.len(), 1);
    assert!(bounds[0].same(&num(0)));
    let twice = run(|| {
        vec![vec![
            m2(
                Primitive::Try,
                Word::Func(vec![p(Primitive::Add), Word::Character('a'), p(Primitive::Mul), n(2)]),
                p(Primitive::Identity),
            ),
            n(9),
        ]]
    })
    .unwrap();
    assert_eq!(twice.len(), 1);
    assert!(twice[0].same(&num(9)));
}

#[test]
fn assert_fails_the_run_with_its_message() {
    let fails = run(|| vec![vec![p(Primitive::Assert), Word::Text("too small".to_string()), p(Primitive::Gt), n(5), n(3)]]);
    assert_eq!(fails.unwrap_err(), RuntimeError::UserAssertFailed("too small".to_string()));
    let passes = run(|| vec![vec![p(Primitive::Assert), Word::Text("too small".to_string()), p(Primitive::Gt), n(2), n(3)]]).unwrap();
    assert_eq!(passes.len(), 0);
    let shown = run(|| vec![vec![p(Primitive::Assert), list(&[1, 2]), n(0)]]);
    assert_eq!(shown.unwrap_err(), RuntimeError::UserAssertFailed("[1 2]".to_string()));
    let not_scalar = run(|| vec![vec![p(Primitive::Assert), n(1), list(&[1, 1])]]);
    assert_eq!(not_scalar.unwrap_err(), RuntimeError::UserAssertFailed("1".to_string()));
    let caught = run(|| {
        vec![vec![
            m2(
                Primitive::Try,
                Word::Func(vec![p(Primitive::Assert), Word::Text("no".to_string())]),
                p(Primitive::Pop),
            ),
            n(0),
        ]]
    })
    .unwrap();
    assert_eq!(caught.len(), 0);
}

#[test]
fn runtime_failures_have_their_classes() {
    let shape = run(|| vec![vec![p(Primitive::Add), list(&[1, 2]), list(&[1, 2, 3])]]);
    assert_eq!(shape.unwrap_err(), RuntimeError::ShapeMismatch);
    let domain = run(|| vec![vec![p(Primitive::Add), Word::Character('a'), n(1)]]);
    assert_eq!(domain.unwrap_err(), RuntimeError::DomainError);
    let bounds = run(|| vec![vec![p(Primitive::Select), n(5), list(&[1, 2])]]);
    assert_eq!(bounds.unwrap_err(), RuntimeError::IndexOutOfBounds);
    let under = run(|| vec![vec![p(Primitive::Add), n(1)]]);
    assert_eq!(under.unwrap_err(), RuntimeError::StackUnderflow);
    let uneven = run(|| vec![vec![Word::Array(vec![list(&[1, 2]), list(&[3])])]]);
    assert_eq!(uneven.unwrap_err(), RuntimeError::ShapeMismatch);
}

#[test]
fn try_does_not_catch_a_malformed_assembly() {
    let f = Function { body: vec![Instr::Prim(Primitive::Add)], inputs: 0, outputs: 0 };
    let h = Function { body: vec![Instr::Push(0)], inputs: 0, outputs: 1 };
    let code = Assembly::new(
        vec![f, h],
        vec![Instr::Modifier(Modifier::Try(0, 1))],
        vec![num(1)],
        vec![],
    );
    assert_eq!(code.run().unwrap_err(), RuntimeError::StackUnderflow);
    let forward = Assembly::new(
        vec![Function { body: vec![Instr::Call(0)], inputs: 0, outputs: 0 }],
        vec![Instr::Call(0)],
        vec![],
        vec![],
    );
    assert_eq!(forward.run().unwrap_err(), RuntimeError::StackUnderflow);
    let missing = Assembly::new(vec![], vec![Instr::Push(3)], vec![], vec![]);
    assert_eq!(missing.run().unwrap_err(), RuntimeError::StackUnderflow);
    let modifier = Assembly::new(vec![], vec![Instr::Prim(Primitive::Reduce)], vec![nums(&[1])], vec![]);
    assert_eq!(modifier.run().unwrap_err(), RuntimeError::StackUnderflow);
}

#[test]
fn a_run_can_be_stepped_and_interrupted() {
    let code = compiler(vec![vec![p(Primitive::Add), n(1), n(2)]]).finish();
    let mut m = Machine::start(&code);
    assert!(!m.finished());
    m.step().unwrap();
    m.step().unwrap();
    assert!(!m.finished());
    m.step().unwrap();
    assert!(m.finished());
    let out = m.finish();
    assert_eq!(out.len(), 1);
    assert!(out[0].same(&num(3)));
    let mut cut = Machine::start(&code);
    cut.step().unwrap();
    assert_eq!(cut.interrupt(), RuntimeError::Interrupted);
    assert_eq!(code.run_within(2).unwrap_err(), RuntimeError::Interrupted);
    assert_eq!(code.run_within(0).unwrap_err(), RuntimeError::Interrupted);
    assert!(code.run_within(3).unwrap()[0].same(&num(3)));
    assert!(code.run_within(100).unwrap()[0].same(&num(3)));
    let empty = Compiler::new().finish();
    assert_eq!(empty.run_within(0).unwrap().len(), 0);
    let failing = compiler(vec![vec![p(Primitive::Add), n(1)]]).finish();
    assert_eq!(failing.run_within(5).unwrap_err(), RuntimeError::StackUnderflow);
    assert_eq!(failing.run_within(1).unwrap_err(), RuntimeError::Interrupted);
    assert!(code.run().unwrap()[0].same(&num(3)));
    assert!(code.run().unwrap()[0].same(&num(3)));
}

#[test]
fn bindings_name_functions_and_constants() {
    let mut c = Compiler::new();
    let items = vec![
        Item::Binding("Double".to_string(), vec![p(Primitive::Mul), n(2)]),
        Item::Binding("X".to_string(), vec![n(21)]),
        Item::Words(vec![Word::Ident("Double".to_string()), Word::Ident("X".to_string())]),
    ];
    c.load(&Source::Parsed(items), "bindings.ua").unwrap();
    let code = c.finish();
    assert_eq!(code.lookup(&"Double".to_string()), Some(0));
    assert_eq!(code.lookup(&"X".to_string()), Some(1));
    assert_eq!(code.lookup(&"Y".to_string()), None);
    assert_eq!(code.function(0).inputs, 1);
    assert_eq!(code.function(0).outputs, 1);
    assert_eq!(code.function(1).inputs, 0);
    assert_eq!(code.function(1).outputs, 1);
    assert_eq!(code.main().clone(), vec![Instr::Push(1), Instr::Call(0)]);
    let out = code.run().unwrap();
    assert!(out[0].same(&num(42)));
}

#[test]
fn a_later_binding_shadows_an_earlier_one() {
    let mut c = Compiler::new();
    c.load(
        &Source::Parsed(vec![
            Item::Binding("F".to_string(), vec![p(Primitive::Add), n(1)]),
            Item::Binding("F".to_string(), vec![p(Primitive::Mul), n(3)]),
            Item::Words(vec![Word::Ident("F".to_string()), n(5)]),
        ]),
        "shadow.ua",
    )
    .unwrap();
    assert!(c.finish().run().unwrap()[0].same(&num(15)));
}

#[test]
fn compile_errors_have_their_classes() {
    let mut c = Compiler::new();
    let unknown = c.load(&Source::Parsed(vec![Item::Words(vec![Word::Ident("Nope".to_string())])]), "a.ua");
    assert_eq!(unknown.unwrap_err(), CompileError::UnknownIdentifier("Nope".to_string()));
    let syntax = c.load(&Source::Failed("unexpected token".to_string()), "b.ua");
    assert_eq!(syntax.unwrap_err(), CompileError::Syntax("unexpected token".to_string()));
    let cases: Vec<Vec<Word>> = vec![
        vec![m1(Primitive::Reduce, p(Primitive::Len))],
        vec![m1(Primitive::Scan, p(Primitive::Dup))],
        vec![m1(Primitive::Table, p(Primitive::Len))],
        vec![m1(Primitive::Rows, p(Primitive::Add))],
        vec![m1(Primitive::Each, p(Primitive::Add))],
        vec![m2(Primitive::Try, p(Primitive::Add), p(Primitive::Len))],
        vec![p(Primitive::Reduce)],
        vec![Word::Modified(Primitive::Add, vec![p(Primitive::Add)])],
        vec![Word::Modified(Primitive::Fork, vec![p(Primitive::Add)])],
        vec![Word::Modified(Primitive::Reduce, vec![p(Primitive::Add), p(Primitive::Add)])],
        vec![Word::Array(vec![p(Primitive::Add), n(1)])],
        vec![m1(Primitive::Dip, p(Primitive::Dip))],
    ];
    for words in cases {
        let r = c.load(&Source::Parsed(vec![Item::Words(words)]), "c.ua");
        assert_eq!(r.unwrap_err(), CompileError::SignatureMismatch);
    }
    assert_eq!(c.finish().run().unwrap().len(), 0);
}

#[test]
fn a_failed_load_leaves_the_compiler_as_it_was() {
    let mut c = Compiler::new();
    c.load(&Source::Parsed(vec![Item::Words(vec![n(1)])]), "one.ua").unwrap();
    let bad = c.load(
        &Source::Parsed(vec![
            Item::Binding("G".to_string(), vec![p(Primitive::Add), n(2)]),
            Item::Words(vec![m1(Primitive::Reduce, p(Primitive::Add)), n(7)]),
            Item::Words(vec![Word::Ident("Missing".to_string())]),
        ]),
        "two.ua",
    );
    assert_eq!(bad.unwrap_err(), CompileError::UnknownIdentifier("Missing".to_string()));
    let again = c.load(&Source::Parsed(vec![Item::Words(vec![Word::Ident("G".to_string())])]), "three.ua");
    assert_eq!(again.unwrap_err(), CompileError::UnknownIdentifier("G".to_string()));
    c.load(&Source::Parsed(vec![Item::Words(vec![p(Primitive::Add), n(2)])]), "four.ua").unwrap();
    let code = c.assemble();
    assert_eq!(code.function_count(), 0);
    assert_eq!(code.constant_count(), 2);
    assert_eq!(
        code.main().clone(),
        vec![Instr::Push(0), Instr::Push(1), Instr::Prim(Primitive::Add)]
    );
    assert!(code.run().unwrap()[0].same(&num(3)));
}

#[test]
fn literals_become_constants() {
    let out = run(|| vec![vec![Word::Text("uiua".to_string()), Word::Character('x'), n(-3)]]).unwrap();
    assert!(out[0].same(&num(-3)));
    assert!(out[1].same(&Value::scalar(Elem::Char('x'))));
    assert!(out[2].same(&Value::text("uiua")));
    let inline = top(|| vec![vec![Word::Func(vec![p(Primitive::Add), n(1)]), n(1)]]);
    assert!(inline.same(&num(2)));
}

#[test]
fn stack_functions() {
    let dup = run(|| vec![vec![p(Primitive::Dup), n(1)]]).unwrap();
    assert_eq!(dup.len(), 2);
    let over = run(|| vec![vec![p(Primitive::Over), n(1), n(2)]]).unwrap();
    assert_eq!(over.len(), 3);
    assert!(over[2].same(&num(2)));
    assert!(over[1].same(&num(1)));
    let flip = run(|| vec![vec![p(Primitive::Flip), n(1), n(2)]]).unwrap();
    assert!(flip[0].same(&num(1)));
    assert!(flip[1].same(&num(2)));
    let pop = run(|| vec![vec![p(Primitive::Pop), n(1), n(2)]]).unwrap();
    assert_eq!(pop.len(), 1);
    assert!(pop[0].same(&num(2)));
    let id = run(|| vec![vec![p(Primitive::Identity), n(1)]]).unwrap();
    assert!(id[0].same(&num(1)));
    let couple = top(|| vec![vec![p(Primitive::Couple), n(1), n(2)]]);
    assert!(couple.same(&nums(&[1, 2])));
    let join = top(|| vec![vec![p(Primitive::Join), n(1), list(&[2, 3])]]);
    assert!(join.same(&nums(&[1, 2, 3])));
    let cpx = top(|| vec![vec![p(Primitive::Complex), n(1), n(2)]]);
    assert!(cpx.same(&Value::scalar(Elem::Cpx(2, 1))));
}

#[test]
fn scan_and_table_by_one_primitive_are_fused() {
    let scan = || vec![vec![m1(Primitive::Scan, p(Primitive::Max)), list(&[1, 5, 2, 8, 3])]];
    assert!(top(scan).same(&nums(&[1, 5, 5, 8, 8])));
    assert_eq!(
        compiler(scan()).finish().main().last(),
        Some(&Instr::Fused(Fused::ScanOp(ScalarOp::Max)))
    );
    let table = || vec![vec![m1(Primitive::Table, p(Primitive::Sub)), list(&[1, 2]), list(&[10, 20, 30])]];
    assert!(top(table).same(&matrix(2, 3, &[9, 19, 29, 8, 18, 28])));
    assert_eq!(
        compiler(table()).finish().main().last(),
        Some(&Instr::Fused(Fused::TableOp(ScalarOp::Sub)))
    );
    let user = || {
        vec![vec![
            m1(Primitive::Table, Word::Func(vec![p(Primitive::Add), p(Primitive::Mul), n(2)])),
            list(&[1, 2]),
            list(&[10, 20]),
        ]]
    };
    assert!(top(user).same(&matrix(2, 2, &[12, 22, 14, 24])));
    assert!(matches!(compiler(user()).finish().main().last(), Some(&Instr::Modifier(Modifier::Table(_)))));
}

#[test]
fn fused_table_fails_and_empties_as_the_table_does() {
    let empty = top(|| vec![vec![m1(Primitive::Table, p(Primitive::Add)), p(Primitive::Range), n(0), list(&[1, 2])]]);
    assert_eq!(empty.shape(), vec![0, 2]);
    assert_eq!(empty.kind(), Kind::Number);
    let empty_text = top(|| {
        vec![vec![m1(Primitive::Table, p(Primitive::Add)), Word::Text(String::new()), list(&[1, 2])]]
    });
    assert_eq!(empty_text.shape(), vec![0, 2]);
    assert_eq!(empty_text.kind(), Kind::Number);
    let domain = run(|| vec![vec![m1(Primitive::Table, p(Primitive::Add)), Word::Text("ab".to_string()), list(&[1, 2])]]);
    assert_eq!(domain.unwrap_err(), RuntimeError::DomainError);
    let zero = run(|| vec![vec![m1(Primitive::Table, p(Primitive::Div)), list(&[1, 0]), list(&[1, 2])]]);
    assert_eq!(zero.unwrap_err(), RuntimeError::DomainError);
    let under = run(|| vec![vec![m1(Primitive::Table, p(Primitive::Add)), list(&[1, 2])]]);
    assert_eq!(under.unwrap_err(), RuntimeError::StackUnderflow);
    let chars = top(|| {
        vec![vec![
            m1(Primitive::Table, p(Primitive::Eq)),
            Word::Text("ab".to_string()),
            Word::Text("abc".to_string()),
        ]]
    });
    assert_eq!(chars.kind(), Kind::Byte);
    assert_eq!(chars.shape(), vec![2, 3]);
    assert_eq!(chars.show(), "[[1 0 0] [0 1 0]]");
}

#[test]
fn rows_of_a_constant_repeat_it() {
    let rows = || vec![vec![m1(Primitive::Rows, m1(Primitive::Gap, n(5))), list(&[1, 2, 3])]];
    assert!(top(rows).same(&nums(&[5, 5, 5])));
    assert!(matches!(
        compiler(rows()).finish().main().last(),
        Some(&Instr::Fused(Fused::Repeat { each: false, .. }))
    ));
    let each = || {
        vec![vec![
            m1(Primitive::Each, m1(Primitive::Gap, n(7))),
            Word::Array(vec![list(&[1, 2]), list(&[3, 4])]),
        ]]
    };
    assert!(top(each).same(&matrix(2, 2, &[7, 7, 7, 7])));
    assert!(matches!(
        compiler(each()).finish().main().last(),
        Some(&Instr::Fused(Fused::Repeat { each: true, .. }))
    ));
    let text = top(|| {
        vec![vec![m1(Primitive::Rows, m1(Primitive::Gap, Word::Text("ab".to_string()))), list(&[1, 2])]]
    });
    assert_eq!(text.show(), "[\"ab\" \"ab\"]");
    let none = top(|| vec![vec![m1(Primitive::Rows, m1(Primitive::Gap, n(5))), p(Primitive::Range), n(0)]]);
    assert!(none.same(&nums(&[])));
    let missing = Assembly::new(
        vec![
            Function { body: vec![Instr::Push(9)], inputs: 0, outputs: 1 },
            Function { body: vec![Instr::Modifier(Modifier::Gap(0))], inputs: 1, outputs: 1 },
        ],
        vec![Instr::Push(0), Instr::Modifier(Modifier::Rows(1))],
        vec![nums(&[1, 2])],
        vec![],
    );
    assert_eq!(missing.run().unwrap_err(), RuntimeError::StackUnderflow);
    let fused = optimize(&missing);
    assert_eq!(
        fused.main().clone(),
        vec![Instr::Push(0), Instr::Fused(Fused::Repeat { constant: 9, each: false })]
    );
    assert_eq!(fused.run().unwrap_err(), RuntimeError::StackUnderflow);
}

#[test]
fn box_and_unbox() {
    let boxed = top(|| vec![vec![p(Primitive::Box), list(&[1, 2])]]);
    assert_eq!(boxed.kind(), Kind::Box);
    assert_eq!(boxed.rank(), 0);
    assert_eq!(boxed.show(), "□");
    let back = top(|| vec![vec![p(Primitive::Unbox), p(Primitive::Box), list(&[1, 2])]]);
    assert!(back.same(&nums(&[1, 2])));
    let plain = top(|| vec![vec![p(Primitive::Unbox), list(&[1, 2])]]);
    assert!(plain.same(&nums(&[1, 2])));
    let pair = top(|| {
        vec![vec![p(Primitive::Couple), p(Primitive::Box), list(&[1, 2]), p(Primitive::Box), Word::Text("a".to_string())]]
    });
    assert_eq!(pair.kind(), Kind::Box);
    assert_eq!(pair.shape(), vec![2]);
    assert!(matches!(pair.cell(1), Elem::Boxed(v) if v.same(&Value::text("a"))));
    let sum = run(|| vec![vec![p(Primitive::Add), n(1), p(Primitive::Box), n(2)]]);
    assert_eq!(sum.unwrap_err(), RuntimeError::DomainError);
}

#[test]
fn table_of_a_fork_of_two_primitives_is_fused() {
    let lines = || {
        vec![vec![
            m1(Primitive::Table, m2(Primitive::Fork, p(Primitive::Add), p(Primitive::Sub))),
            list(&[1, 2, 3]),
            list(&[10, 20]),
        ]]
    };
    let out = run(lines).unwrap();
    assert_eq!(out.len(), 2);
    assert!(out[0].same(&matrix(3, 2, &[9, 19, 8, 18, 7, 17])));
    assert!(out[1].same(&matrix(3, 2, &[11, 21, 12, 22, 13, 23])));
    assert_eq!(
        compiler(lines()).finish().main().last(),
        Some(&Instr::Fused(Fused::TableFork(ScalarOp::Add, ScalarOp::Sub)))
    );
    let failing = run(|| {
        vec![vec![
            m1(Primitive::Table, m2(Primitive::Fork, p(Primitive::Add), p(Primitive::Div))),
            list(&[1, 0]),
            list(&[10, 20]),
        ]]
    });
    assert_eq!(failing.unwrap_err(), RuntimeError::DomainError);
    let empty = run(|| {
        vec![vec![
            m1(Primitive::Table, m2(Primitive::Fork, p(Primitive::Eq), p(Primitive::Complex))),
            p(Primitive::Range),
            n(0),
            list(&[10, 20]),
        ]]
    })
    .unwrap();
    assert_eq!(empty.len(), 2);
    assert_eq!(empty[0].shape(), vec![0, 2]);
    assert_eq!(empty[1].kind(), Kind::Number);
}

#[test]
fn reduce_of_a_table_is_made_row_by_row() {
    let lines = || {
        vec![vec![
            m1(Primitive::Reduce, p(Primitive::Add)),
            m1(Primitive::Table, p(Primitive::Mul)),
            list(&[1, 2, 3]),
            list(&[10, 20]),
        ]]
    };
    assert!(top(lines).same(&nums(&[60, 120])));
    assert_eq!(
        compiler(lines()).finish().main().last(),
        Some(&Instr::Fused(Fused::ReduceTable(ScalarOp::Add, ScalarOp::Mul)))
    );
    let matrix_rows = || {
        vec![vec![
            m1(Primitive::Reduce, p(Primitive::Max)),
            m1(Primitive::Table, p(Primitive::Sub)),
            Word::Array(vec![list(&[1, 2]), list(&[3, 4])]),
            list(&[10, 20, 30]),
        ]]
    };
    assert!(top(matrix_rows).same(&matrix(2, 3, &[9, 19, 29, 8, 18, 28])));
    let scalar = top(|| {
        vec![vec![m1(Primitive::Reduce, p(Primitive::Add)), m1(Primitive::Table, p(Primitive::Mul)), n(2), list(&[1, 2, 3])]]
    });
    assert!(scalar.same(&num(12)));
    let no_rows = top(|| {
        vec![vec![
            m1(Primitive::Reduce, p(Primitive::Add)),
            m1(Primitive::Table, p(Primitive::Mul)),
            p(Primitive::Range),
            n(0),
            list(&[1, 2, 3]),
        ]]
    });
    assert!(no_rows.same(&nums(&[0, 0, 0])));
    let late = run(|| {
        vec![vec![
            m1(Primitive::Reduce, p(Primitive::Add)),
            m1(Primitive::Table, p(Primitive::Div)),
            list(&[1, 2, 0]),
            list(&[10, 20]),
        ]]
    });
    assert_eq!(late.unwrap_err(), RuntimeError::DomainError);
    let overflow = run(|| {
        vec![vec![
            m1(Primitive::Reduce, p(Primitive::Mul)),
            m1(Primitive::Table, p(Primitive::Mul)),
            list(&[4611686018427387904, 4611686018427387904]),
            list(&[1, 0]),
        ]]
    });
    assert_eq!(overflow.unwrap_err(), RuntimeError::DomainError);
    let under = run(|| vec![vec![m1(Primitive::Reduce, p(Primitive::Add)), m1(Primitive::Table, p(Primitive::Mul)), n(1)]]);
    assert_eq!(under.unwrap_err(), RuntimeError::StackUnderflow);
}

#[test]
fn transposes_in_a_row_are_one_move_of_axes() {
    let cube = || {
        Word::Array(vec![
            Word::Array(vec![list(&[1, 2]), list(&[3, 4]), list(&[5, 6])]),
            Word::Array(vec![list(&[7, 8]), list(&[9, 10]), list(&[11, 12])]),
        ])
    };
    let once = top(|| {
        vec![vec![
            p(Primitive::Transpose),
            Word::Array(vec![list(&[1, 2, 3]), list(&[4, 5, 6])]),
        ]]
    });
    assert!(once.same(&matrix(3, 2, &[1, 4, 2, 5, 3, 6])));
    let lines: fn() -> Vec<Vec<Word>> = || {
        vec![vec![
            p(Primitive::Transpose),
            p(Primitive::Transpose),
            Word::Array(vec![
                Word::Array(vec![list(&[1, 2]), list(&[3, 4]), list(&[5, 6])]),
                Word::Array(vec![list(&[7, 8]), list(&[9, 10]), list(&[11, 12])]),
            ]),
        ]]
    };
    let twice = top(lines);
    assert_eq!(twice.shape(), vec![2, 2, 3]);
    assert_eq!(twice.show(), "[[[1 3 5] [7 9 11]] [[2 4 6] [8 10 12]]]");
    assert_eq!(
        compiler(lines()).finish().main().last(),
        Some(&Instr::Fused(Fused::Transposes(2)))
    );
    let thrice = compiler(vec![vec![
        p(Primitive::Transpose),
        p(Primitive::Transpose),
        p(Primitive::Transpose),
        cube(),
    ]]);
    let code = thrice.finish();
    assert_eq!(code.main().last(), Some(&Instr::Fused(Fused::Transposes(3))));
    let back = code.run().unwrap().pop().unwrap();
    let plain = compiler(vec![vec![cube()]]).finish().run().unwrap().pop().unwrap();
    assert!(back.same(&plain));
    let vector = top(|| vec![vec![p(Primitive::Transpose), p(Primitive::Transpose), list(&[1, 2, 3])]]);
    assert!(vector.same(&nums(&[1, 2, 3])));
    let scalar = top(|| vec![vec![p(Primitive::Transpose), n(5)]]);
    assert!(scalar.same(&num(5)));
    let under = run(|| vec![vec![p(Primitive::Transpose), p(Primitive::Transpose)]]);
    assert_eq!(under.unwrap_err(), RuntimeError::StackUnderflow);
    let none = Assembly::new(vec![], vec![Instr::Fused(Fused::Transposes(0))], vec![], vec![]);
    assert_eq!(none.run().unwrap().len(), 0);
}

#[test]
fn rows_of_a_reduce_go_column_by_column() {
    let lines: fn() -> Vec<Vec<Word>> = || {
        vec![vec![
            m1(Primitive::Rows, m1(Primitive::Reduce, p(Primitive::Add))),
            Word::Array(vec![list(&[1, 2, 3]), list(&[4, 5, 6])]),
        ]]
    };
    assert!(top(lines).same(&nums(&[6, 15])));
    assert_eq!(
        compiler(lines()).finish().main().last(),
        Some(&Instr::Fused(Fused::RowsReduce(ScalarOp::Add)))
    );
    let cube: fn() -> Vec<Vec<Word>> = || {
        vec![vec![
            m1(Primitive::Rows, m1(Primitive::Reduce, p(Primitive::Sub))),
            Word::Array(vec![
                Word::Array(vec![list(&[1, 2]), list(&[3, 4]), list(&[5, 6])]),
                Word::Array(vec![list(&[7, 8]), list(&[9, 10]), list(&[11, 12])]),
            ]),
        ]]
    };
    assert!(top(cube).same(&matrix(2, 2, &[3, 4, 9, 10])));
    let vector = top(|| vec![vec![m1(Primitive::Rows, m1(Primitive::Reduce, p(Primitive::Add))), list(&[1, 2, 3])]]);
    assert!(vector.same(&nums(&[1, 2, 3])));
    let none = top(|| {
        vec![vec![m1(Primitive::Rows, m1(Primitive::Reduce, p(Primitive::Add))), p(Primitive::Range), n(0)]]
    });
    assert!(none.same(&nums(&[])));
    let failing = run(|| {
        vec![vec![
            m1(Primitive::Rows, m1(Primitive::Reduce, p(Primitive::Div))),
            Word::Array(vec![list(&[1, 2, 3]), list(&[4, 0, 6])]),
        ]]
    });
    assert_eq!(failing.unwrap_err(), RuntimeError::DomainError);
    let text = run(|| {
        vec![vec![
            m1(Primitive::Rows, m1(Primitive::Reduce, p(Primitive::Add))),
            Word::Array(vec![Word::Text("ab".to_string()), Word::Text("cd".to_string())]),
        ]]
    });
    assert_eq!(text.unwrap_err(), RuntimeError::DomainError);
    let user = || {
        vec![vec![
            m1(
                Primitive::Rows,
                m1(Primitive::Reduce, Word::Func(vec![p(Primitive::Add), p(Primitive::Mul), n(2)])),
            ),
            Word::Array(vec![list(&[1, 2, 3]), list(&[4, 5, 6])]),
        ]]
    };
    assert!(top(user).same(&nums(&[11, 32])));
}

#[test]
fn windows_slide_over_the_rows() {
    let w = top(|| vec![vec![p(Primitive::Windows), n(2), list(&[1, 2, 3, 4])]]);
    assert!(w.same(&matrix(3, 2, &[1, 2, 2, 3, 3, 4])));
    let whole = top(|| vec![vec![p(Primitive::Windows), n(3), list(&[1, 2, 3])]]);
    assert!(whole.same(&matrix(1, 3, &[1, 2, 3])));
    let ones = top(|| vec![vec![p(Primitive::Windows), n(1), list(&[7, 8])]]);
    assert!(ones.same(&matrix(2, 1, &[7, 8])));
    let rows = top(|| {
        vec![vec![
            p(Primitive::Windows),
            n(2),
            Word::Array(vec![list(&[1, 2]), list(&[3, 4]), list(&[5, 6])]),
        ]]
    });
    assert_eq!(rows.shape(), vec![2, 2, 2]);
    assert_eq!(rows.show(), "[[[1 2] [3 4]] [[3 4] [5 6]]]");
    let long = run(|| vec![vec![p(Primitive::Windows), n(4), list(&[1, 2, 3])]]);
    assert_eq!(long.unwrap_err(), RuntimeError::ShapeMismatch);
    let zero = run(|| vec![vec![p(Primitive::Windows), n(0), list(&[1, 2, 3])]]);
    assert_eq!(zero.unwrap_err(), RuntimeError::DomainError);
    let scalar = run(|| vec![vec![p(Primitive::Windows), n(1), n(5)]]);
    assert_eq!(scalar.unwrap_err(), RuntimeError::DomainError);
    let vector = run(|| vec![vec![p(Primitive::Windows), list(&[1, 2]), list(&[1, 2, 3])]]);
    assert_eq!(vector.unwrap_err(), RuntimeError::DomainError);
}

#[test]
fn every_window_is_reduced_without_making_it() {
    let lines: fn() -> Vec<Vec<Word>> = || {
        vec![vec![
            m1(Primitive::Rows, m1(Primitive::Reduce, p(Primitive::Add))),
            p(Primitive::Windows),
            n(3),
            list(&[1, 2, 3, 4, 5]),
        ]]
    };
    assert!(top(lines).same(&nums(&[6, 9, 12])));
    assert_eq!(
        compiler(lines()).finish().main().last(),
        Some(&Instr::Fused(Fused::WindowsReduce(ScalarOp::Add)))
    );
    let pairs = top(|| {
        vec![vec![
            m1(Primitive::Rows, m1(Primitive::Reduce, p(Primitive::Sub))),
            p(Primitive::Windows),
            n(2),
            Word::Array(vec![list(&[1, 2]), list(&[10, 20]), list(&[100, 200])]),
        ]]
    });
    assert!(pairs.same(&matrix(2, 2, &[9, 18, 90, 180])));
    let long = run(|| {
        vec![vec![
            m1(Primitive::Rows, m1(Primitive::Reduce, p(Primitive::Add))),
            p(Primitive::Windows),
            n(9),
            list(&[1, 2]),
        ]]
    });
    assert_eq!(long.unwrap_err(), RuntimeError::ShapeMismatch);
    let failing = run(|| {
        vec![vec![
            m1(Primitive::Rows, m1(Primitive::Reduce, p(Primitive::Div))),
            p(Primitive::Windows),
            n(2),
            list(&[4, 2, 0, 5]),
        ]]
    });
    assert_eq!(failing.unwrap_err(), RuntimeError::DomainError);
    let under = run(|| {
        vec![vec![m1(Primitive::Rows, m1(Primitive::Reduce, p(Primitive::Add))), p(Primitive::Windows), n(2)]]
    });
    assert_eq!(under.unwrap_err(), RuntimeError::StackUnderflow);
}

#[test]
fn rows_of_a_transpose_are_turned_in_one_pass() {
    let lines: fn() -> Vec<Vec<Word>> = || {
        vec![vec![
            m1(Primitive::Rows, p(Primitive::Transpose)),
            Word::Array(vec![
                Word::Array(vec![list(&[1, 2]), list(&[3, 4]), list(&[5, 6])]),
                Word::Array(vec![list(&[7, 8]), list(&[9, 10]), list(&[11, 12])]),
            ]),
        ]]
    };
    let out = top(lines);
    assert_eq!(out.shape(), vec![2, 2, 3]);
    assert_eq!(out.show(), "[[[1 3 5] [2 4 6]] [[7 9 11] [8 10 12]]]");
    assert_eq!(
        compiler(lines()).finish().main().last(),
        Some(&Instr::Fused(Fused::RowsTranspose))
    );
    let flat = top(|| {
        vec![vec![
            m1(Primitive::Rows, p(Primitive::Transpose)),
            Word::Array(vec![list(&[1, 2]), list(&[3, 4])]),
        ]]
    });
    assert!(flat.same(&matrix(2, 2, &[1, 2, 3, 4])));
    let vector = top(|| vec![vec![m1(Primitive::Rows, p(Primitive::Transpose)), list(&[1, 2, 3])]]);
    assert!(vector.same(&nums(&[1, 2, 3])));
    let scalar = top(|| vec![vec![m1(Primitive::Rows, p(Primitive::Transpose)), n(5)]]);
    assert!(scalar.same(&nums(&[5])));
    let none = top(|| vec![vec![m1(Primitive::Rows, p(Primitive::Transpose)), p(Primitive::Range), n(0)]]);
    assert!(none.same(&nums(&[])));
}

#[test]
fn the_first_function_of_a_fork_leaves_the_top_value() {
    let coupled = run(|| {
        vec![vec![
            p(Primitive::Couple),
            m2(Primitive::Fork, p(Primitive::Add), p(Primitive::Sub)),
            list(&[1, 2, 3]),
            list(&[4, 5, 6]),
        ]]
    })
    .unwrap();
    assert_eq!(coupled.len(), 1);
    assert!(coupled[0].same(&matrix(2, 3, &[5, 7, 9, 3, 3, 3])));
    let bracketed = run(|| {
        vec![vec![
            p(Primitive::Couple),
            m2(Primitive::Bracket, p(Primitive::Sub), p(Primitive::Add)),
            list(&[1, 2, 3]),
            list(&[4, 5, 6]),
            list(&[7, 8, 9]),
            list(&[10, 11, 12]),
        ]]
    })
    .unwrap();
    assert_eq!(bracketed.len(), 1);
    assert!(bracketed[0].same(&matrix(2, 3, &[3, 3, 3, 17, 19, 21])));
}

#[test]
fn reduce_and_scan_are_fused_by_the_operations_that_stream() {
    let main_of = |w: Word| compiler(vec![vec![w, list(&[1, 2, 3])]]).finish().main().last().cloned();
    for (prim, op) in [
        (Primitive::Add, ScalarOp::Add),
        (Primitive::Sub, ScalarOp::Sub),
        (Primitive::Mul, ScalarOp::Mul),
        (Primitive::Div, ScalarOp::Div),
        (Primitive::Mod, ScalarOp::Mod),
        (Primitive::Min, ScalarOp::Min),
        (Primitive::Max, ScalarOp::Max),
    ] {
        assert_eq!(main_of(m1(Primitive::Reduce, p(prim))), Some(Instr::Fused(Fused::ReduceOp(op))));
        assert_eq!(main_of(m1(Primitive::Scan, p(prim))), Some(Instr::Fused(Fused::ScanOp(op))));
    }
    for (prim, op) in [(Primitive::Eq, ScalarOp::Eq), (Primitive::Ne, ScalarOp::Ne)] {
        assert!(matches!(main_of(m1(Primitive::Reduce, p(prim))), Some(Instr::Modifier(Modifier::Reduce(_)))));
        assert_eq!(main_of(m1(Primitive::Scan, p(prim))), Some(Instr::Fused(Fused::ScanOp(op))));
    }
    for prim in [Primitive::Lt, Primitive::Le, Primitive::Gt, Primitive::Ge, Primitive::Complex] {
        assert!(matches!(main_of(m1(Primitive::Reduce, p(prim))), Some(Instr::Modifier(Modifier::Reduce(_)))));
        assert!(matches!(main_of(m1(Primitive::Scan, p(prim))), Some(Instr::Modifier(Modifier::Scan(_)))));
    }
    let by_less = run(|| vec![vec![m1(Primitive::Reduce, p(Primitive::Lt)), list(&[1, 2, 3])]]).unwrap();
    assert_eq!(by_less.len(), 1);
}

#[test]
fn table_by_join_or_couple_is_fused_and_puts_the_cells_side_by_side() {
    for (prim, couple) in [(Primitive::Join, false), (Primitive::Couple, true)] {
        let lines = || vec![vec![m1(Primitive::Table, p(prim)), list(&[1, 2]), list(&[10, 20, 30])]];
        let plain = compiler(lines()).assemble().run().unwrap();
        let opt = compiler(lines()).finish();
        assert_eq!(opt.main().last(), Some(&Instr::Fused(Fused::TablePairs { couple })));
        let fused = opt.run().unwrap();
        assert_eq!(fused.len(), 1);
        assert_eq!(fused[0].shape(), vec![2, 3, 2]);
        let want = Value::new(
            Kind::Number,
            vec![2, 3, 2],
            [1, 10, 1, 20, 1, 30, 2, 10, 2, 20, 2, 30].iter().map(|n| Elem::Num(*n)).collect(),
        )
        .unwrap();
        assert!(fused[0].same(&want));
        assert!(plain[0].same(&want));
    }
}

#[test]
fn table_by_join_of_two_kinds_is_outside_the_domain() {
    let mixed = run(|| vec![vec![m1(Primitive::Table, p(Primitive::Join)), Word::Text("ab".to_string()), list(&[1, 2])]]);
    assert_eq!(mixed.unwrap_err(), RuntimeError::DomainError);
    let mixed = run(|| vec![vec![m1(Primitive::Table, p(Primitive::Couple)), list(&[1, 2]), Word::Text("ab".to_string())]]);
    assert_eq!(mixed.unwrap_err(), RuntimeError::DomainError);
    let letters = run(|| {
        vec![vec![m1(Primitive::Table, p(Primitive::Couple)), Word::Text("ab".to_string()), Word::Text("xy".to_string())]]
    })
    .unwrap();
    assert_eq!(letters[0].shape(), vec![2, 2, 2]);
    assert_eq!(letters[0].kind(), Kind::Character);
    let want: Vec<char> = "axaybxby".chars().collect();
    for (i, c) in want.iter().enumerate() {
        assert!(matches!(letters[0].cell(i), Elem::Char(d) if d == c));
    }
    let none = run(|| {
        vec![vec![m1(Primitive::Table, p(Primitive::Join)), p(Primitive::Range), n(0), Word::Text("ab".to_string())]]
    })
    .unwrap();
    assert_eq!(none[0].shape(), vec![0, 2]);
    assert_eq!(none[0].count(), 0);
    assert_eq!(none[0].kind(), Kind::Number);
}

#[test]
fn negate_goes_cell_by_cell() {
    let out = run(|| vec![vec![p(Primitive::Neg), list(&[1, -2, 0])]]).unwrap();
    assert_eq!(out.len(), 1);
    assert!(out[0].same(&nums(&[-1, 2, 0])));
    let twice = run(|| vec![vec![p(Primitive::Neg), p(Primitive::Neg), list(&[1, -2, 0])]]).unwrap();
    assert!(twice[0].same(&nums(&[1, -2, 0])));
    let scalar = run(|| vec![vec![p(Primitive::Neg), n(7)]]).unwrap();
    assert!(scalar[0].same(&num(-7)));
    let none = run(|| vec![vec![p(Primitive::Neg), p(Primitive::Range), n(0)]]).unwrap();
    assert_eq!(none[0].shape(), vec![0]);
    assert_eq!(none[0].kind(), Kind::Number);
    let text = run(|| vec![vec![p(Primitive::Neg), Word::Text("ab".to_string())]]);
    assert_eq!(text.unwrap_err(), RuntimeError::DomainError);
    let boxed = run(|| vec![vec![p(Primitive::Neg), p(Primitive::Box), n(1)]]);
    assert_eq!(boxed.unwrap_err(), RuntimeError::DomainError);
    let least = run(|| vec![vec![p(Primitive::Neg), list(&[1, i64::MIN])]]);
    assert_eq!(least.unwrap_err(), RuntimeError::DomainError);
    let greatest = run(|| vec![vec![p(Primitive::Neg), n(i64::MAX)]]).unwrap();
    assert!(greatest[0].same(&num(-i64::MAX)));
}

#[test]
fn negate_keeps_the_shape_and_makes_bytes_numbers() {
    let bytes = Value::new(Kind::Byte, vec![2, 2], vec![Elem::Byte(0), Elem::Byte(1), Elem::Byte(255), Elem::Byte(7)]).unwrap();
    let r = array_engine::monadic::negate_value(&bytes).unwrap();
    assert!(r.same(&matrix(2, 2, &[0, -1, -255, -7])));
    assert_eq!(r.kind(), Kind::Number);
    let complex = Value::new(Kind::Complex, vec![2], vec![Elem::Cpx(1, -2), Elem::Cpx(0, 5)]).unwrap();
    let r = array_engine::monadic::negate_value(&complex).unwrap();
    assert!(r.same(&Value::new(Kind::Complex, vec![2], vec![Elem::Cpx(-1, 2), Elem::Cpx(0, -5)]).unwrap()));
    let edge = Value::new(Kind::Complex, vec![1], vec![Elem::Cpx(1, i64::MIN)]).unwrap();
    assert_eq!(array_engine::monadic::negate_value(&edge).unwrap_err(), RuntimeError::DomainError);
    let no_bytes = Value::new(Kind::Byte, vec![0, 3], vec![]).unwrap();
    let r = array_engine::monadic::negate_value(&no_bytes).unwrap();
    assert_eq!(r.shape(), vec![0, 3]);
    assert_eq!(r.kind(), Kind::Number);
}

#[test]
fn a_fork_of_negate_and_reverse_coupled() {
    let out = run(|| {
        vec![vec![
            p(Primitive::Couple),
            m2(Primitive::Fork, p(Primitive::Neg), p(Primitive::Reverse)),
            list(&[1, 2, 3]),
        ]]
    })
    .unwrap();
    assert_eq!(out.len(), 1);
    assert!(out[0].same(&matrix(2, 3, &[-1, -2, -3, 3, 2, 1])));
    let bracket = run(|| {
        vec![vec![
            p(Primitive::Couple),
            m2(Primitive::Bracket, p(Primitive::Neg), p(Primitive::Reverse)),
            list(&[1, 2, 3]),
            list(&[4, 5, 6]),
        ]]
    })
    .unwrap();
    assert!(bracket[0].same(&matrix(2, 3, &[-1, -2, -3, 6, 5, 4])));
}

#[test]
fn a_fork_under_rows_is_taken_outward() {
    let lines = || {
        vec![vec![
            m1(Primitive::Rows, m2(Primitive::Fork, p(Primitive::Neg), p(Primitive::Reverse))),
            Word::Array(vec![list(&[1, 2, 3]), list(&[4, 5, 6])]),
        ]]
    };
    let out = run(lines).unwrap();
    assert_eq!(out.len(), 2);
    assert!(out[1].same(&matrix(2, 3, &[-1, -2, -3, -4, -5, -6])));
    assert!(out[0].same(&matrix(2, 3, &[3, 2, 1, 6, 5, 4])));
    assert!(matches!(
        compiler(lines()).finish().main().last(),
        Some(Instr::Fused(Fused::Forked(Modifier::Rows(_))))
    ));
    assert!(matches!(
        compiler(lines()).assemble().main().last(),
        Some(Instr::Modifier(Modifier::Rows(_)))
    ));
}

#[test]
fn a_fork_under_each_and_under_table_is_taken_outward() {
    let each = || vec![vec![m1(Primitive::Each, m2(Primitive::Fork, p(Primitive::Neg), p(Primitive::Identity))), list(&[1, 2, 3])]];
    let out = run(each).unwrap();
    assert_eq!(out.len(), 2);
    assert!(out[1].same(&nums(&[-1, -2, -3])));
    assert!(out[0].same(&nums(&[1, 2, 3])));
    assert!(matches!(
        compiler(each()).finish().main().last(),
        Some(Instr::Fused(Fused::Forked(Modifier::Each(_))))
    ));
    let table = || {
        vec![vec![
            m1(Primitive::Table, m2(Primitive::Fork, p(Primitive::Add), p(Primitive::Join))),
            list(&[1, 2]),
            list(&[10, 20]),
        ]]
    };
    let out = run(table).unwrap();
    assert_eq!(out.len(), 2);
    assert!(out[1].same(&matrix(2, 2, &[11, 21, 12, 22])));
    assert_eq!(out[0].shape(), vec![2, 2, 2]);
    assert!(matches!(
        compiler(table()).finish().main().last(),
        Some(Instr::Fused(Fused::Forked(Modifier::Table(_))))
    ));
    let none = run(|| {
        vec![vec![
            m1(Primitive::Each, m2(Primitive::Fork, p(Primitive::Neg), p(Primitive::Identity))),
            p(Primitive::Range),
            n(0),
        ]]
    })
    .unwrap();
    assert_eq!(none.len(), 2);
    assert_eq!(none[0].count(), 0);
    assert_eq!(none[1].count(), 0);
}

#[test]
fn a_fork_taken_outward_fails_as_the_first_failing_item_fails() {
    let second_first = run(|| {
        vec![vec![
            m1(
                Primitive::Each,
                m2(
                    Primitive::Fork,
                    p(Primitive::Neg),
                    Word::Func(vec![p(Primitive::Select), p(Primitive::Flip), list(&[10, 20])]),
                ),
            ),
            list(&[5, i64::MIN]),
        ]]
    });
    assert_eq!(second_first.unwrap_err(), RuntimeError::IndexOutOfBounds);
    let first_first = run(|| {
        vec![vec![
            m1(
                Primitive::Each,
                m2(
                    Primitive::Fork,
                    p(Primitive::Neg),
                    Word::Func(vec![p(Primitive::Select), p(Primitive::Flip), list(&[10, 20])]),
                ),
            ),
            list(&[i64::MIN, 5]),
        ]]
    });
    assert_eq!(first_first.unwrap_err(), RuntimeError::DomainError);
    let fine = run(|| {
        vec![vec![
            m1(
                Primitive::Each,
                m2(
                    Primitive::Fork,
                    p(Primitive::Neg),
                    Word::Func(vec![p(Primitive::Select), p(Primitive::Flip), list(&[10, 20])]),
                ),
            ),
            list(&[1, 0]),
        ]]
    })
    .unwrap();
    assert!(fine[1].same(&nums(&[-1, 0])));
    assert!(fine[0].same(&nums(&[20, 10])));
}

#[test]
fn a_bracket_under_table_is_taken_outward() {
    let lines = || {
        vec![vec![
            m1(Primitive::Table, m2(Primitive::Bracket, p(Primitive::Neg), p(Primitive::Identity))),
            list(&[1, 2]),
            list(&[10, 20]),
        ]]
    };
    let out = run(lines).unwrap();
    assert_eq!(out.len(), 2);
    assert!(out[1].same(&matrix(2, 2, &[-1, -1, -2, -2])));
    assert!(out[0].same(&matrix(2, 2, &[10, 20, 10, 20])));
    assert!(matches!(
        compiler(lines()).finish().main().last(),
        Some(Instr::Fused(Fused::Forked(Modifier::Table(_))))
    ));
    let failing = run(|| {
        vec![vec![
            m1(Primitive::Table, m2(Primitive::Bracket, p(Primitive::Neg), p(Primitive::Range))),
            list(&[1, i64::MIN]),
            list(&[2, -1]),
        ]]
    });
    assert!(failing.is_err());
}
