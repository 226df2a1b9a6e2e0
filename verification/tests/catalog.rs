use array_engine::primitive::Primitive;
use array_engine::scalar::ScalarOp;

#[test]
fn functions_have_signatures_and_modifiers_have_operands() {
    assert_eq!(Primitive::Add.signature(), Some((2, 1)));
    assert_eq!(Primitive::Dup.signature(), Some((1, 2)));
    assert_eq!(Primitive::Over.signature(), Some((2, 3)));
    assert_eq!(Primitive::Pop.signature(), Some((1, 0)));
    assert_eq!(Primitive::Assert.signature(), Some((2, 0)));
    assert_eq!(Primitive::Len.signature(), Some((1, 1)));
    assert_eq!(Primitive::Neg.signature(), Some((1, 1)));
    assert_eq!(Primitive::Select.args(), Some(2));
    assert_eq!(Primitive::Reduce.signature(), None);
    assert_eq!(Primitive::Reduce.args(), None);
    assert!(Primitive::Reduce.is_modifier());
    assert!(Primitive::Fork.is_modifier());
    assert!(!Primitive::Add.is_modifier());
    assert_eq!(Primitive::Fork.modifier_args(), 2);
    assert_eq!(Primitive::Rows.modifier_args(), 1);
    assert_eq!(Primitive::Add.modifier_args(), 0);
}

#[test]
fn pervasive_functions_name_their_operation() {
    assert!(Primitive::Add.is_pervasive());
    assert!(Primitive::Complex.is_pervasive());
    assert!(!Primitive::Join.is_pervasive());
    assert!(!Primitive::Table.is_pervasive());
    assert_eq!(Primitive::Sub.pervasive_op(), Some(ScalarOp::Sub));
    assert_eq!(Primitive::Ge.pervasive_op(), Some(ScalarOp::Ge));
    assert_eq!(Primitive::Len.pervasive_op(), None);
    assert!(ScalarOp::Lt.comparison());
    assert!(!ScalarOp::Min.comparison());
    assert!(ScalarOp::Min.boolean());
    assert!(!ScalarOp::Add.boolean());
}

#[test]
fn primitives_have_names_and_glyphs() {
    assert_eq!(Primitive::Add.name(), "add");
    assert_eq!(Primitive::Reverse.name(), "reverse");
    assert_eq!(Primitive::Reduce.name(), "reduce");
    assert_eq!(Primitive::Add.glyph(), '+');
    assert_eq!(Primitive::Reverse.glyph(), '⇌');
    assert_eq!(Primitive::Neg.glyph(), '¯');
    assert_eq!(Primitive::Neg.name(), "negate");
    assert_eq!(Primitive::Table.glyph(), '⊞');
}

#[test]
fn the_catalog_lists_every_primitive_once() {
    let all = Primitive::all();
    assert_eq!(all.len(), 45);
    for (i, p) in all.iter().enumerate() {
        for q in &all[i + 1..] {
            assert_ne!(p, q);
            assert_ne!(p.name(), q.name());
            assert_ne!(p.glyph(), q.glyph());
        }
    }
    assert!(all.contains(&Primitive::Box));
    assert!(all.contains(&Primitive::Try));
    assert_eq!(Primitive::Box.name(), "box");
    assert_eq!(Primitive::Unbox.signature(), Some((1, 1)));
}
