use lox::interner::Interner;
use std::rc::Rc;

#[test]
fn test_interner() {
    let mut interner = Interner::new();
    assert_eq!(interner.len(), 0);

    let x = "foo";
    let interned_x = interner.intern(x);
    assert!(interned_x.as_str().eq(x));
    assert_eq!(interner.len(), 1);
    assert_eq!(Rc::strong_count(&interned_x), 2);

    let y = "foo";
    let interned_y = interner.intern(y);
    assert_eq!(interner.len(), 1);
    assert_eq!(Rc::strong_count(&interned_y), 3);
    assert!(Rc::ptr_eq(&interned_x, &interned_y));

    let z = "bar";
    let interned_z = interner.intern(z);
    assert!(interned_z.as_str().eq(z));
    assert_eq!(interner.len(), 2);
}

#[test]
fn interner_default_is_empty() {
    let interner = Interner::default();
    assert_eq!(interner.len(), 0);
}

#[test]
fn interner_keeps_names_distinct() {
    let mut interner = Interner::new();
    let a = interner.intern("a");
    let b = interner.intern("b");
    let a2 = interner.intern("a");
    assert!(!Rc::ptr_eq(&a, &b));
    assert!(Rc::ptr_eq(&a, &a2));
    assert_eq!(interner.len(), 2);
}
