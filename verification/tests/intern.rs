use drip::frontend::intern::Interner;

#[test]
fn the_same_text_has_the_same_symbol() {
    let mut names = Interner::new();
    let a = names.intern("alpha");
    let b = names.intern("beta");
    assert_ne!(a, b);
    assert_eq!(names.intern("alpha"), a);
    assert_eq!(names.value(a), "alpha");
    assert_eq!(names.value(b), "beta");
    assert_eq!((a.0, b.0), (0, 1));
}

#[test]
fn symbols_stay_when_others_come() {
    let mut names = Interner::new();
    let a = names.intern("");
    for i in 0..50 {
        names.intern(&format!("n{i}"));
    }
    assert_eq!(names.value(a), "");
    assert_eq!(names.intern("n7").0, 8);
}
