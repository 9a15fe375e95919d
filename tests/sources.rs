use openqasm::sources::RecursiveTokenizer;
use openqasm::tokens::TokenType;

#[test]
fn a_file_is_loaded_once() {
    let mut r = RecursiveTokenizer::new("main.qasm", "qreg q;");
    assert!(r.is_loaded("main.qasm"));
    assert!(!r.is_loaded("lib.inc"));
    assert!(!r.load("main.qasm", "creg c;"));
    assert!(r.load("lib.inc", "gate"));
    assert!(r.is_loaded("lib.inc"));
    assert!(!r.load("lib.inc", "gate"));
}

#[test]
fn latest_file_is_scanned_first() {
    let mut r = RecursiveTokenizer::new("main.qasm", "qreg q;");
    let first = r.next().unwrap().unwrap();
    assert_eq!(first.token, TokenType::Qreg);
    assert_eq!(first.filename, "main.qasm");
    assert!(r.load("lib.inc", "  gate"));
    let t = r.next().unwrap().unwrap();
    assert_eq!(t.token, TokenType::Gate);
    assert_eq!(t.filename, "lib.inc");
    assert_eq!(t.pos, 2);
    let t = r.next().unwrap().unwrap();
    assert_eq!(t.token, TokenType::Identifier("q".to_string()));
    assert_eq!(t.filename, "main.qasm");
    assert_eq!(r.next().unwrap().unwrap().token, TokenType::Semicolon);
    assert!(r.next().is_none());
    assert!(r.next().is_none());
}

#[test]
fn empty_stack_yields_nothing() {
    let mut r = RecursiveTokenizer::get_empty();
    assert!(!r.is_loaded("main.qasm"));
    assert!(r.next().is_none());
}
