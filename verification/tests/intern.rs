use wiretap::intern::StringInterner;

#[test]
fn intern_returns_same_id() {
    let mut interner = StringInterner::new();
    let (id1, def1) = interner.intern("hello");
    let (id2, def2) = interner.intern("hello");
    assert_eq!(id1, id2);
    assert!(def1.is_some());
    assert!(def2.is_none());
}

#[test]
fn intern_different_strings() {
    let mut interner = StringInterner::new();
    let (id1, _) = interner.intern("a");
    let (id2, _) = interner.intern("b");
    assert_ne!(id1, id2);
}

#[test]
fn snapshot_ordered() {
    let mut interner = StringInterner::new();
    interner.intern("c");
    interner.intern("a");
    interner.intern("b");
    let snap = interner.snapshot();
    assert_eq!(snap.len(), 3);
    assert!(snap[0].id < snap[1].id && snap[1].id < snap[2].id);
}

#[test]
fn ids_are_handed_out_in_order() {
    let mut interner = StringInterner::new();
    let (a, da) = interner.intern("x");
    let (b, db) = interner.intern("y");
    let (a2, _) = interner.intern("x");
    assert_eq!((a, b, a2), (0, 1, 0));
    let da = da.unwrap();
    assert_eq!((da.id, da.value.as_str()), (0, "x"));
    let db = db.unwrap();
    assert_eq!((db.id, db.value.as_str()), (1, "y"));
    assert_eq!(interner.len(), 2);
    let snap = interner.snapshot();
    assert_eq!(snap[0].value, "x");
    assert_eq!(snap[1].value, "y");
}

#[test]
fn empty_string_is_a_string_like_any_other() {
    let mut interner = StringInterner::new();
    let (id, def) = interner.intern("");
    assert_eq!(id, 0);
    assert_eq!(def.unwrap().value, "");
    assert!(interner.intern("").1.is_none());
}
