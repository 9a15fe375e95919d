use openqasm::errors::TokenizeError;
use openqasm::lexer::{filter_comment, tokenize, TokenIterator, TokenResult};
use openqasm::tokens::{match_keyword_exact, Token, TokenType};

fn scan(code: &str) -> Vec<TokenResult> {
    let mut it = tokenize(code, "test.qasm");
    let mut out = Vec::new();
    while let Some(r) = it.next() {
        out.push(r);
    }
    out
}

fn kinds(code: &str) -> Vec<TokenType> {
    scan(code)
        .into_iter()
        .map(|r| r.expect("unexpected error").token)
        .collect()
}

fn spans(code: &str) -> Vec<(usize, usize)> {
    scan(code)
        .into_iter()
        .map(|r| match r {
            Ok(t) => (t.pos, t.len),
            Err(e) => (e.pos, e.len),
        })
        .collect()
}

#[test]
fn whitespace_only_is_empty() {
    assert!(scan("").is_empty());
    assert!(scan(" \t\n\r\x0c  \n").is_empty());
}

#[test]
fn end_of_input_is_sticky() {
    let mut it = tokenize("x  ", "f");
    assert!(it.next().is_some());
    assert!(it.next().is_none());
    assert!(it.next().is_none());
}

#[test]
fn identifier_carries_its_text() {
    let r = scan("foo_bar1");
    assert_eq!(r.len(), 1);
    let t = r[0].as_ref().unwrap();
    assert_eq!(t.token, TokenType::Identifier("foo_bar1".to_string()));
    assert_eq!((t.pos, t.len), (0, 8));
    assert_eq!(kinds("_q0"), vec![TokenType::Identifier("_q0".to_string())]);
}

#[test]
fn reserved_words_need_an_exact_match() {
    assert_eq!(kinds("pi"), vec![TokenType::Pi]);
    assert_eq!(kinds("pix"), vec![TokenType::Identifier("pix".to_string())]);
    assert_eq!(kinds("qreg"), vec![TokenType::Qreg]);
    assert_eq!(kinds("Qreg"), vec![TokenType::Identifier("Qreg".to_string())]);
    assert_eq!(
        kinds("OPENQASM include if U CX sqrt"),
        vec![
            TokenType::Openqasm,
            TokenType::Include,
            TokenType::If,
            TokenType::U,
            TokenType::CX,
            TokenType::Sqrt
        ]
    );
}

#[test]
fn double_equal_and_lone_equal() {
    let r = scan("==");
    assert_eq!(r.len(), 1);
    let t = r[0].as_ref().unwrap();
    assert_eq!(t.token, TokenType::DoubleEqual);
    assert_eq!((t.pos, t.len), (0, 2));
    let r = scan("=");
    assert_eq!(r.len(), 1);
    let e = r[0].as_ref().unwrap_err();
    assert_eq!((e.pos, e.len), (0, 1));
    assert_eq!(e.message(), "Unexpected character.");
    assert!(!e.is_internal());
}

#[test]
fn arrow_and_minus() {
    let r = scan("->");
    assert_eq!(r.len(), 1);
    let t = r[0].as_ref().unwrap();
    assert_eq!(t.token, TokenType::Arrow);
    assert_eq!(t.len, 2);
    assert_eq!(kinds("-"), vec![TokenType::Minus]);
    assert_eq!(
        kinds("-x"),
        vec![TokenType::Minus, TokenType::Identifier("x".to_string())]
    );
}

#[test]
fn comment_filtered_and_unfiltered() {
    let unfiltered = kinds("// hello\n42");
    assert_eq!(
        unfiltered,
        vec![TokenType::Comment(b" hello".to_vec()), TokenType::UInt(42)]
    );
    assert_eq!(spans("// hello\n42"), vec![(2, 6), (9, 2)]);
    let mut f = tokenize("// hello\n42", "f").filter_comment();
    let first = f.next().unwrap().unwrap();
    assert_eq!(first.token, TokenType::UInt(42));
    assert!(f.next().is_none());
}

#[test]
fn comment_at_end_of_input_is_flushed() {
    assert_eq!(kinds("1 //x"), vec![TokenType::UInt(1), TokenType::Comment(b"x".to_vec())]);
}

#[test]
fn filter_comment_on_results() {
    let filtered = filter_comment(scan("a // c\n= b"));
    assert_eq!(filtered.len(), 3);
    assert_eq!(
        filtered[0].as_ref().unwrap().token,
        TokenType::Identifier("a".to_string())
    );
    assert!(filtered[1].is_err());
    assert_eq!(
        filtered[2].as_ref().unwrap().token,
        TokenType::Identifier("b".to_string())
    );
}

#[test]
fn numbers() {
    assert_eq!(kinds("42"), vec![TokenType::UInt(42)]);
    assert_eq!(kinds("3.5"), vec![TokenType::Real("3.5".to_string())]);
    assert_eq!(kinds("3."), vec![TokenType::Real("3.".to_string())]);
    assert_eq!(
        kinds("12abc"),
        vec![TokenType::UInt(12), TokenType::Identifier("abc".to_string())]
    );
    assert_eq!(
        kinds("3.5 + 2"),
        vec![
            TokenType::Real("3.5".to_string()),
            TokenType::Plus,
            TokenType::UInt(2)
        ]
    );
}

#[test]
fn largest_integer_and_overflow() {
    let max = usize::MAX.to_string();
    assert_eq!(kinds(&max), vec![TokenType::UInt(usize::MAX)]);
    let too_big = "99999999999999999999999999";
    let r = scan(too_big);
    assert_eq!(r.len(), 1);
    let e = r[0].as_ref().unwrap_err();
    assert!(e.is_internal());
    assert_eq!((e.pos, e.len), (0, too_big.len()));
    assert_eq!(e.message(), "Integer literal out of range.");
}

#[test]
fn string_literal_excludes_quotes() {
    let r = scan("include \"qelib1.inc\";");
    let t = r[1].as_ref().unwrap();
    assert_eq!(t.token, TokenType::StringLiteral("qelib1.inc".to_string()));
    assert_eq!((t.pos, t.len), (9, 10));
    assert_eq!(r[2].as_ref().unwrap().token, TokenType::Semicolon);
    assert_eq!(kinds("\"h\u{e9}llo\""), vec![TokenType::StringLiteral("h\u{e9}llo".to_string())]);
}

#[test]
fn unterminated_string_is_an_error_at_the_quote() {
    let r = scan("x \"abc");
    assert_eq!(r.len(), 2);
    let e = r[1].as_ref().unwrap_err();
    assert_eq!((e.pos, e.len), (2, 1));
    assert_eq!(e.message(), "Unterminated string literal.");
}

#[test]
fn invalid_utf8_in_string() {
    let mut it = TokenIterator::from_bytes(vec![b'"', 0xff, b'"', b'1'], "bin.qasm");
    let e = it.next().unwrap().unwrap_err();
    assert_eq!((e.pos, e.len), (0, 1));
    assert_eq!(e.message(), "Invalid UTF-8 in string literal.");
    let t = it.next().unwrap().unwrap();
    assert_eq!(t.token, TokenType::UInt(1));
    assert_eq!(t.pos, 3);
    assert!(it.next().is_none());
}

#[test]
fn unexpected_characters_resume_after_the_byte() {
    let r = scan("a @ b");
    assert_eq!(r.len(), 3);
    let e = r[1].as_ref().unwrap_err();
    assert_eq!((e.pos, e.len), (2, 1));
    assert_eq!(e.filename, "test.qasm");
    // a two-byte character outside a string gives one error per byte
    let r = scan("\u{e9}");
    assert_eq!(r.len(), 2);
    assert!(r.iter().all(|x| x.is_err()));
}

#[test]
fn punctuation_and_brackets() {
    assert_eq!(
        kinds("+*/^,;(){}[]"),
        vec![
            TokenType::Plus,
            TokenType::Times,
            TokenType::Devide,
            TokenType::Power,
            TokenType::Comma,
            TokenType::Semicolon,
            TokenType::LParen,
            TokenType::RParen,
            TokenType::LBrace,
            TokenType::RBrace,
            TokenType::LSqBracket,
            TokenType::RSqBracket
        ]
    );
}

#[test]
fn spans_and_skipped_bytes_rebuild_the_source() {
    let code = "OPENQASM 2.0;\ninclude \"qelib1.inc\";\n// note\nqreg q[2];\n  CX q[0],q[1]; ";
    let bytes = code.as_bytes();
    let mut rebuilt: Vec<u8> = Vec::new();
    let mut at = 0;
    for r in scan(code) {
        let t = r.expect("no errors expected");
        let skipped = &bytes[at..t.pos];
        let trimmed: Vec<u8> = skipped
            .iter()
            .copied()
            .skip_while(|b| b.is_ascii_whitespace())
            .collect();
        assert!(trimmed.is_empty() || trimmed == b"\"" || trimmed == b"//");
        rebuilt.extend_from_slice(skipped);
        rebuilt.extend_from_slice(&bytes[t.pos..t.pos + t.len]);
        at = t.pos + t.len;
        let after = match t.token {
            TokenType::StringLiteral(_) | TokenType::Comment(_) => 1,
            _ => 0,
        };
        rebuilt.extend_from_slice(&bytes[at..at + after]);
        at += after;
    }
    assert!(bytes[at..].iter().all(|b| b.is_ascii_whitespace()));
    rebuilt.extend_from_slice(&bytes[at..]);
    assert_eq!(rebuilt, bytes);
}

#[test]
fn fresh_scans_agree() {
    let code = "gate h a { U(pi/2,0,pi) a; } = \"x";
    let a = spans(code);
    let b = spans(code);
    assert_eq!(a, b);
    let ka: Vec<String> = scan(code).iter().map(|r| format!("{:?}", r)).collect();
    let kb: Vec<String> = scan(code).iter().map(|r| format!("{:?}", r)).collect();
    assert_eq!(ka, kb);
}

#[test]
fn tokens_carry_the_filename() {
    let mut it = TokenIterator::new("qreg", "main.qasm");
    let t = it.next().unwrap().unwrap();
    assert_eq!(t.filename, "main.qasm");
    assert!(!t.is_comment());
    assert!(t.is_include() == false);
}

#[test]
fn token_predicates() {
    let inc = Token {
        token: TokenType::Include,
        filename: "f".to_string(),
        pos: 0,
        len: 7,
    };
    assert!(inc.is_include());
    assert!(!inc.is_comment());
    let c = Token {
        token: TokenType::Comment(vec![b'a']),
        filename: "f".to_string(),
        pos: 2,
        len: 1,
    };
    assert!(c.is_comment());
    assert!(!c.is_include());
}

#[test]
fn keyword_table_is_exact() {
    assert_eq!(match_keyword_exact(b"measure"), Some(TokenType::Measure));
    assert_eq!(match_keyword_exact(b"=="), Some(TokenType::DoubleEqual));
    assert_eq!(match_keyword_exact(b"->"), Some(TokenType::Arrow));
    assert_eq!(match_keyword_exact(b"]"), Some(TokenType::RSqBracket));
    assert_eq!(match_keyword_exact(b"measur"), None);
    assert_eq!(match_keyword_exact(b"measures"), None);
    assert_eq!(match_keyword_exact(b"="), None);
    assert_eq!(match_keyword_exact(b""), None);
}

#[test]
fn error_constructors() {
    let e = TokenizeError::new("f.qasm".to_string(), 3, 2, "bad".to_string());
    assert_eq!((e.pos, e.len), (3, 2));
    assert_eq!(e.filename, "f.qasm");
    assert_eq!(e.message(), "bad");
    assert!(!e.is_internal());
    let i = TokenizeError::internal("f.qasm".to_string(), 0, 1, "broken".to_string());
    assert!(i.is_internal());
}

