use array_engine::compile::{Compiler, Item, Source, Word};
use array_engine::primitive::Primitive;
use array_engine::shape::checked_product;
use array_engine::value::{Elem, Value};

fn p(x: Primitive) -> Word {
    Word::Prim(x)
}

fn n(x: i64) -> Word {
    Word::Number(x)
}

fn m1(x: Primitive, f: Word) -> Word {
    Word::Modified(x, vec![f])
}

fn list(items: &[i64]) -> Word {
    Word::Array(items.iter().map(|x| Word::Number(*x)).collect())
}

/// The average of an array, line by line: the array, its sum, its length,
/// the quotient.
fn average() -> Vec<Item> {
    vec![
        Item::Words(vec![list(&[1, 5, 8, 2])]),
        Item::Words(vec![m1(Primitive::Reduce, p(Primitive::Add)), p(Primitive::Dup)]),
        Item::Words(vec![p(Primitive::Len), p(Primitive::Flip)]),
        Item::Words(vec![p(Primitive::Div)]),
    ]
}

/// For each number from two to nine, the least of its remainders by those
/// numbers.
fn remainders() -> Vec<Item> {
    vec![
        Item::Binding("N".to_string(), vec![p(Primitive::Add), n(2), p(Primitive::Range), n(8)]),
        Item::Words(vec![
            m1(Primitive::Rows, m1(Primitive::Reduce, p(Primitive::Min))),
            m1(Primitive::Table, p(Primitive::Mod)),
            Word::Ident("N".to_string()),
            Word::Ident("N".to_string()),
        ]),
    ]
}

/// Whether a word reads the same in both directions.
fn palindrome() -> Vec<Item> {
    vec![Item::Words(vec![
        m1(Primitive::Reduce, p(Primitive::Min)),
        p(Primitive::Eq),
        p(Primitive::Reverse),
        p(Primitive::Dup),
        Word::Text("racecar".to_string()),
    ])]
}

/// The running maximum of the sorted squares.
fn squares() -> Vec<Item> {
    vec![
        Item::Binding("Square".to_string(), vec![p(Primitive::Mul), p(Primitive::Dup)]),
        Item::Words(vec![
            m1(Primitive::Scan, p(Primitive::Max)),
            p(Primitive::Select),
            p(Primitive::Rise),
            p(Primitive::Dup),
            m1(Primitive::Each, Word::Ident("Square".to_string())),
            list(&[3, -4, 1]),
        ]),
    ]
}

#[test]
fn test_examples() {
    let examples: Vec<(fn() -> Vec<Item>, &str)> = vec![
        (average, "4"),
        (remainders, "[0 0 0 0 0 0 0 0]"),
        (palindrome, "1"),
        (squares, "[1 9 16]"),
    ];
    for (example, want) in examples {
        let mut compiler = Compiler::new();
        if let Err(e) = compiler.load(&Source::Parsed(example()), "example.ua") {
            panic!("Example failed:\n{e:?}");
        }
        match compiler.finish().run() {
            Ok(stack) => {
                assert_eq!(stack.len(), 1);
                assert_eq!(stack[0].show(), want);
            }
            Err(e) => panic!("Example failed:\n{e:?}"),
        }
    }
}

#[test]
fn every_value_that_a_run_leaves_has_a_shape_that_accounts_for_its_cells() {
    let programs: Vec<fn() -> Vec<Item>> = vec![average, remainders, palindrome, squares];
    for program in programs {
        let mut compiler = Compiler::new();
        compiler.load(&Source::Parsed(program()), "shape.ua").unwrap();
        for value in compiler.finish().run().unwrap() {
            assert_eq!(checked_product(&value.shape()), Some(value.count()));
            for j in 0..value.row_count() {
                let row = value.row(j);
                assert_eq!(checked_product(&row.shape()), Some(row.count()));
            }
        }
    }
    let scalar = Value::scalar(Elem::Num(1));
    assert_eq!(checked_product(&scalar.shape()), Some(scalar.count()));
}
