use cov::intern::{Interner, InvalidHandle, Symbol};

#[test]
fn test_unknown_is_handle_zero() {
    let interner = Interner::new();
    assert_eq!(interner.resolve(Symbol::unknown()), Ok("<unknown>"));
    assert_eq!(Symbol::unknown().index(), 0);
    assert_eq!(Symbol::default(), Symbol::unknown());
    assert_eq!(interner.len(), 1);
}

#[test]
fn test_intern_is_idempotent() {
    let mut interner = Interner::new();
    let a = interner.intern("hello");
    let b = interner.intern("hello");
    let c = interner.intern("world");
    assert_eq!(a, b);
    assert_ne!(a, c);
    assert_eq!(a.index(), 1);
    assert_eq!(c.index(), 2);
    assert_eq!(interner.resolve(a), Ok("hello"));
    assert_eq!(interner.resolve(c), Ok("world"));
    assert_eq!(interner.len(), 3);
}

#[test]
fn test_intern_unknown_text_gives_handle_zero() {
    let mut interner = Interner::new();
    assert_eq!(interner.intern("<unknown>"), Symbol::unknown());
    assert_eq!(interner.len(), 1);
}

#[test]
fn test_resolve_out_of_range() {
    let mut interner = Interner::new();
    let _ = interner.intern("one");
    assert_eq!(interner.resolve(Symbol(2)), Err(InvalidHandle));
    assert_eq!(interner.resolve(Symbol(usize::MAX)), Err(InvalidHandle));
}

#[test]
fn test_iter_in_insertion_order() {
    let mut interner = Interner::new();
    let s1 = interner.intern("one");
    let s2 = interner.intern("two");
    let s3 = interner.intern("three");
    let _ = interner.intern("two");
    assert_eq!(
        interner.iter(),
        vec![
            (s1, "one".to_string()),
            (s2, "two".to_string()),
            (s3, "three".to_string()),
        ]
    );
    assert_eq!(Interner::default().iter(), vec![]);
}
