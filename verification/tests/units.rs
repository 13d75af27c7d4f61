use wildflower::{Compiler, Wildcard, ESCAPE_CHAR, WILDCARD_MANY_CHAR, WILDCARD_SINGLE_CHAR};

#[test]
fn test_special_characters() {
    assert_eq!(ESCAPE_CHAR, '\\');
    assert_eq!(WILDCARD_SINGLE_CHAR, '?');
    assert_eq!(WILDCARD_MANY_CHAR, '*');
}

#[test]
fn test_wildcard_groups() {
    let w = Wildcard::single();
    assert_eq!(w.minimum, 1);
    assert!(!w.is_many);

    let w = w.push_single();
    assert_eq!(w.minimum, 2);
    assert!(!w.is_many);

    let w = w.push_many();
    assert_eq!(w.minimum, 2);
    assert!(w.is_many);

    let m = Wildcard::many();
    assert_eq!(m.minimum, 0);
    assert!(m.is_many);

    let m = m.push_single();
    assert_eq!(m.minimum, 1);
    assert!(m.is_many);

    let m = m.push_many();
    assert_eq!(m.minimum, 1);
    assert!(m.is_many);
}

#[test]
fn test_compiler_from_source() {
    let p = Compiler::from_source("h?ll*!").compile();
    assert!(p.matches("hello world!"));
    assert!(!p.matches("hell"));
    assert_eq!(p.render(), "h?ll*!".to_string());

    let q = Compiler::from_source("").compile();
    assert!(q.matches(""));
    assert!(!q.matches("x"));
    assert_eq!(q.render(), "".to_string());
}
