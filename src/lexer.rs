//! The tokenizer: a cursor over a source buffer that yields one token or
//! error per call, each proved to be the step that the model in `scan` takes.
use vstd::prelude::*;
use vstd::string::StringSliceAdditionalSpecFns;
use vstd::utf8::{valid_utf8, decode_utf8, pop_first_scalar};
use crate::chars::{is_digit, is_alpha, is_word};
use crate::chars::{space_byte, digit_byte, alpha_byte, word_byte, punct_byte};
use crate::errors::TokenizeError;
use crate::scan::{
    Fault, Lexeme, Scan, fault_text, ascii_text, skip_space, word_end, digits_end, find_byte,
    digits_value, scan_number, scan_word, scan_string, scan_comment, scan_punct, scan_lexeme,
    scan_at, scan_all, followed_by, scan_from, without_comments, lemma_without_comments_step,
    lemma_scan_lexeme_bounds, lemma_scan_at_bounds, lemma_skip_space, lemma_word_end,
    lemma_digits_end, lemma_find_byte,
    QUOTE, DOT, SLASH, EQUALS, HYPHEN, GREATER, UNDERSCORE, NEWLINE,
};
use crate::tokens::{Token, TokenType, match_keyword_exact};

verus! {

pub type TokenResult = Result<Token, TokenizeError>;

/// Relies on `String::from_utf8`: it succeeds exactly on valid UTF-8, and the
/// string then holds the characters that the bytes encode.
#[verifier::external_body]
fn string_from_utf8(bytes: Vec<u8>) -> (r: Option<String>)
    ensures
        r is Some <==> valid_utf8(bytes@),
        r matches Some(s) ==> s@ == decode_utf8(bytes@),
{
    String::from_utf8(bytes).ok()
}

/// ASCII bytes are valid UTF-8 and decode to the characters of the same codes.
pub proof fn lemma_ascii_decode(s: Seq<u8>)
    requires
        forall|i: int| 0 <= i < s.len() ==> #[trigger] s[i] <= 0x7f,
    ensures
        valid_utf8(s),
        decode_utf8(s) == ascii_text(s),
    decreases s.len(),
{
    if s.len() > 0 {
        let b = s[0];
        assert(b & 0x7f == b) by (bit_vector)
            requires
                b <= 0x7f,
        ;
        let rest = s.subrange(1, s.len() as int);
        assert(pop_first_scalar(s) =~= rest);
        lemma_ascii_decode(rest);
        assert(decode_utf8(s) =~= ascii_text(s));
    }
}

/// A run of digits never loses value as it grows.
proof fn lemma_digits_value_grows(code: Seq<u8>, p: int, i: int, j: int)
    requires
        0 <= p <= i <= j <= code.len(),
    ensures
        digits_value(code.subrange(p, i)) <= digits_value(code.subrange(p, j)),
    decreases j - i,
{
    if i < j {
        lemma_digits_value_grows(code, p, i, j - 1);
        assert(code.subrange(p, j).drop_last() =~= code.subrange(p, j - 1));
    }
}

/// The result handed out agrees with the model's step `s`, for source file `file`.
pub open spec fn agrees(r: TokenResult, s: Scan, file: Seq<char>) -> bool {
    match r {
        Ok(t) => {
            &&& s.item == Lexeme::Token(t.token@)
            &&& t.pos == s.pos
            &&& t.len == s.len
            &&& t.filename@ == file
        },
        Err(e) => {
            &&& s.item is Fault
            &&& e.pos == s.pos
            &&& e.len == s.len
            &&& e.filename@ == file
            &&& e.errstr@ == fault_text(s.item->Fault_0)
            &&& e.internal == (s.item->Fault_0 == Fault::IntegerOverflow)
        },
    }
}

fn copy_range(code: &Vec<u8>, a: usize, b: usize) -> (r: Vec<u8>)
    requires
        a <= b <= code@.len(),
    ensures
        r@ == code@.subrange(a as int, b as int),
{
    let mut r: Vec<u8> = Vec::new();
    let mut i: usize = a;
    while i < b
        invariant
            a <= i <= b <= code@.len(),
            r@ == code@.subrange(a as int, i as int),
        decreases b - i,
    {
        r.push(code[i]);
        i += 1;
        assert(r@ =~= code@.subrange(a as int, i as int));
    }
    r
}

/// A result that holds a comment token.
pub open spec fn is_comment_result(r: TokenResult) -> bool {
    r matches Ok(t) && t.token is Comment
}

/// Removes the comment tokens from a sequence of results; errors and all
/// other tokens stay, in order.
pub fn filter_comment(results: Vec<TokenResult>) -> (r: Vec<TokenResult>)
    ensures
        r@ == results@.filter(|x: TokenResult| !is_comment_result(x)),
{
    let ghost all = results@;
    let mut out: Vec<TokenResult> = Vec::new();
    let mut rest = results;
    let mut i: usize = 0;
    let n = rest.len();
    while i < n
        invariant
            n == all.len(),
            i <= n,
            rest@ == all.subrange(i as int, n as int),
            out@ == all.subrange(0, i as int).filter(|x: TokenResult| !is_comment_result(x)),
        decreases n - i,
    {
        let x = rest.remove(0);
        assert(x == all[i as int]);
        assert(rest@ =~= all.subrange(i + 1, n as int));
        assert(all.subrange(0, i + 1).drop_last() =~= all.subrange(0, i as int));
        proof {
            reveal(Seq::filter);
        }
        let comment = match &x {
            Ok(t) => t.is_comment(),
            Err(_) => false,
        };
        assert(all.subrange(0, i + 1).last() == x);
        assert(comment == is_comment_result(x));
        if !comment {
            out.push(x);
        }
        i += 1;
    }
    assert(all.subrange(0, n as int) =~= all);
    out
}

/// A token cursor that passes over comments.
#[derive(Debug)]
pub struct CommentFilter {
    inner: TokenIterator,
}

impl CommentFilter {
    /// The source bytes being scanned.
    pub closed spec fn source(&self) -> Seq<u8> {
        self.inner.source()
    }

    /// The name that tokens and errors carry.
    pub closed spec fn file(&self) -> Seq<char> {
        self.inner.file()
    }

    /// The byte offset at which the next step starts.
    pub closed spec fn position(&self) -> int {
        self.inner.position()
    }

    /// The next result that is not a comment token; `None` once none is left.
    pub fn next(&mut self) -> (r: Option<TokenResult>)
        ensures
            final(self).source() == old(self).source(),
            final(self).file() == old(self).file(),
            ({
                let rest = without_comments(scan_from(old(self).source(), old(self).position()));
                &&& rest.len() == 0 ==> r is None
                &&& rest.len() > 0 ==> (r matches Some(res) && agrees(res, rest[0], old(self).file()))
                &&& without_comments(scan_from(final(self).source(), final(self).position()))
                    == if rest.len() == 0 {
                    rest
                } else {
                    rest.drop_first()
                }
            }),
    {
        let ghost code = self.inner.source();
        let ghost file = self.inner.file();
        let ghost rest = without_comments(scan_from(code, self.inner.position()));
        proof {
            use_type_invariant(&self.inner);
        }
        loop
            invariant
                self.inner.source() == code,
                self.inner.file() == file,
                code == old(self).source(),
                file == old(self).file(),
                rest == without_comments(scan_from(old(self).source(), old(self).position())),
                0 <= self.inner.position() <= code.len(),
                without_comments(scan_from(code, self.inner.position())) == rest,
            decreases code.len() - self.inner.position(),
        {
            let ghost before = self.inner.position();
            let r = self.inner.next();
            proof {
                lemma_scan_at_bounds(code, before);
                lemma_without_comments_step(code, before);
                lemma_without_comments_step(code, self.inner.position());
            }
            match r {
                None => {
                    return None;
                },
                Some(res) => {
                    let comment = match &res {
                        Ok(t) => t.is_comment(),
                        Err(_) => false,
                    };
                    if !comment {
                        return Some(res);
                    }
                },
            }
        }
    }
}

/// Scanning is deterministic: two scans of the same source take the same
/// steps, and two results that agree with the same step have the same kind,
/// offset and length (and, for errors, the same message).
pub proof fn lemma_scans_agree(
    a: Seq<u8>,
    b: Seq<u8>,
    i: int,
    r1: TokenResult,
    r2: TokenResult,
    file: Seq<char>,
)
    requires
        a == b,
        0 <= i < scan_all(a).len(),
        agrees(r1, scan_all(a)[i], file),
        agrees(r2, scan_all(b)[i], file),
    ensures
        scan_all(a) == scan_all(b),
        r1 is Ok <==> r2 is Ok,
        match (r1, r2) {
            (Ok(t1), Ok(t2)) => t1.token@ == t2.token@ && t1.pos == t2.pos && t1.len == t2.len,
            (Err(e1), Err(e2)) => e1.pos == e2.pos && e1.len == e2.len && e1.errstr@ == e2.errstr@,
            _ => true,
        },
{
}

/// A cursor over one source buffer: each call of `next` scans one lexeme.
#[derive(Debug)]
pub struct TokenIterator {
    code: Vec<u8>,
    filename: String,
    pos: usize,
}

/// Starts scanning `code` from its first byte; `filename` names it in every
/// token and error.
pub fn tokenize(code: &str, filename: &str) -> (r: TokenIterator)
    ensures
        r.source() == code.spec_bytes(),
        r.file() == filename@,
        r.position() == 0,
{
    let bytes = code.as_bytes();
    let mut v: Vec<u8> = Vec::new();
    let mut i: usize = 0;
    while i < bytes.len()
        invariant
            0 <= i <= bytes@.len(),
            v@ == bytes@.subrange(0, i as int),
        decreases bytes@.len() - i,
    {
        v.push(bytes[i]);
        i += 1;
        assert(v@ =~= bytes@.subrange(0, i as int));
    }
    assert(v@ =~= bytes@);
    TokenIterator::from_bytes(v, filename)
}

impl TokenIterator {
    #[verifier::type_invariant]
    spec fn in_bounds(&self) -> bool {
        self.pos <= self.code@.len()
    }

    /// The source bytes being scanned.
    pub closed spec fn source(&self) -> Seq<u8> {
        self.code@
    }

    /// The name that tokens and errors carry.
    pub closed spec fn file(&self) -> Seq<char> {
        self.filename@
    }

    /// The byte offset at which the next step starts.
    pub closed spec fn position(&self) -> int {
        self.pos as int
    }

    /// The same scan with comment tokens passed over.
    pub fn filter_comment(self) -> (r: CommentFilter)
        ensures
            r.source() == self.source(),
            r.file() == self.file(),
            r.position() == self.position(),
    {
        CommentFilter { inner: self }
    }

    /// Starts scanning a buffer of bytes in an ASCII-compatible encoding.
    pub fn from_bytes(code: Vec<u8>, filename: &str) -> (r: TokenIterator)
        ensures
            r.source() == code@,
            r.file() == filename@,
            r.position() == 0,
    {
        TokenIterator { code, filename: filename.to_owned(), pos: 0 }
    }

    pub fn new(code: &str, filename: &str) -> (r: TokenIterator)
        ensures
            r.source() == code.spec_bytes(),
            r.file() == filename@,
            r.position() == 0,
    {
        tokenize(code, filename)
    }

    /// A number starting at `p`: digits, and when a dot follows, a real literal.
    fn lex_number(&self, p: usize) -> (r: (TokenResult, usize))
        requires
            p < self.code@.len(),
            is_digit(self.code@[p as int]),
        ensures
            agrees(r.0, scan_number(self.code@, p as int), self.filename@),
            r.1 == scan_number(self.code@, p as int).next,
    {
        let ghost code = self.code@;
        let n = self.code.len();
        let mut e = p;
        while e < n && digit_byte(self.code[e])
            invariant
                p <= e <= n == code.len(),
                code == self.code@,
                digits_end(code, e as int) == digits_end(code, p as int),
            decreases n - e,
        {
            e += 1;
        }
        proof {
            lemma_digits_end(code, p as int);
        }
        if e < n && self.code[e] == DOT {
            let mut f = e + 1;
            while f < n && digit_byte(self.code[f])
                invariant
                    e + 1 <= f <= n == code.len(),
                    code == self.code@,
                    digits_end(code, f as int) == digits_end(code, e + 1),
                decreases n - f,
            {
                f += 1;
            }
            proof {
                lemma_digits_end(code, e + 1);
            }
            let text = copy_range(&self.code, p, f);
            proof {
                assert forall|i: int| 0 <= i < text@.len() implies #[trigger] text@[i] <= 0x7f by {
                    assert(text@[i] == code[p + i]);
                }
                lemma_ascii_decode(text@);
            }
            match string_from_utf8(text) {
                Some(s) => (self.token(TokenType::Real(s), p, f - p), f),
                None => {
                    proof {
                        assert(false);
                    }
                    (self.error(Fault::UnexpectedCharacter, p, 1), f)
                },
            }
        } else {
            let mut v: usize = 0;
            let mut i: usize = p;
            while i < e
                invariant
                    p <= i <= e <= n == code.len(),
                    code == self.code@,
                    e == digits_end(code, p as int),
                    !(e < code.len() && code[e as int] == DOT),
                    forall|j: int| p <= j < e ==> is_digit(#[trigger] code[j]),
                    v as nat == digits_value(code.subrange(p as int, i as int)),
                decreases e - i,
            {
                let d = (self.code[i] - 0x30) as usize;
                assert(code.subrange(p as int, i + 1).drop_last() =~= code.subrange(p as int, i as int));
                assert(digits_value(code.subrange(p as int, i + 1)) == v * 10 + d);
                if v > (usize::MAX - d) / 10 {
                    assert(v * 10 + d > usize::MAX) by (nonlinear_arith)
                        requires
                            v > (usize::MAX - d) / 10,
                            d <= 9,
                    ;
                    proof {
                        lemma_digits_value_grows(code, p as int, i + 1, e as int);
                    }
                    return (self.error(Fault::IntegerOverflow, p, e - p), e);
                }
                assert(v * 10 + d <= usize::MAX) by (nonlinear_arith)
                    requires
                        v <= (usize::MAX - d) / 10,
                        d <= 9,
                ;
                v = v * 10 + d;
                i += 1;
            }
            (self.token(TokenType::UInt(v), p, e - p), e)
        }
    }

    /// A maximal identifier run at `p`: a reserved word or an identifier.
    fn lex_word(&self, p: usize) -> (r: (TokenResult, usize))
        requires
            p < self.code@.len(),
            is_alpha(self.code@[p as int]) || self.code@[p as int] == UNDERSCORE,
        ensures
            agrees(r.0, scan_word(self.code@, p as int), self.filename@),
            r.1 == scan_word(self.code@, p as int).next,
    {
        let ghost code = self.code@;
        let n = self.code.len();
        let mut e = p;
        while e < n && word_byte(self.code[e])
            invariant
                p <= e <= n == code.len(),
                code == self.code@,
                word_end(code, e as int) == word_end(code, p as int),
            decreases n - e,
        {
            e += 1;
        }
        proof {
            lemma_word_end(code, p as int);
        }
        let w = copy_range(&self.code, p, e);
        match match_keyword_exact(w.as_slice()) {
            Some(k) => (self.token(k, p, e - p), e),
            None => {
                proof {
                    assert forall|i: int| 0 <= i < w@.len() implies #[trigger] w@[i] <= 0x7f by {
                        assert(w@[i] == code[p + i]);
                        assert(is_word(code[p + i]));
                    }
                    lemma_ascii_decode(w@);
                }
                match string_from_utf8(w) {
                    Some(s) => (self.token(TokenType::Identifier(s), p, e - p), e),
                    None => {
                        proof {
                            assert(false);
                        }
                        (self.error(Fault::UnexpectedCharacter, p, 1), e)
                    },
                }
            },
        }
    }

    /// The first position at or after `i` that holds `b`, or the end.
    fn find(&self, i: usize, b: u8) -> (r: usize)
        requires
            i <= self.code@.len(),
        ensures
            r == find_byte(self.code@, i as int, b),
    {
        let ghost code = self.code@;
        let n = self.code.len();
        let mut j = i;
        while j < n && self.code[j] != b
            invariant
                i <= j <= n == code.len(),
                code == self.code@,
                find_byte(code, j as int, b) == find_byte(code, i as int, b),
            decreases n - j,
        {
            j += 1;
        }
        j
    }

    /// A string literal whose opening quote is at `p`.
    fn lex_string(&self, p: usize) -> (r: (TokenResult, usize))
        requires
            p < self.code@.len(),
            self.code@[p as int] == QUOTE,
        ensures
            agrees(r.0, scan_string(self.code@, p as int), self.filename@),
            r.1 == scan_string(self.code@, p as int).next,
    {
        let n = self.code.len();
        let q = self.find(p + 1, QUOTE);
        proof {
            lemma_find_byte(self.code@, p + 1, QUOTE);
        }
        if q >= n {
            return (self.error(Fault::UnterminatedString, p, 1), n);
        }
        let body = copy_range(&self.code, p + 1, q);
        match string_from_utf8(body) {
            Some(s) => (self.token(TokenType::StringLiteral(s), p + 1, q - p - 1), q + 1),
            None => (self.error(Fault::InvalidUtf8, p, 1), q + 1),
        }
    }

    /// A comment whose text starts at `p`, just after its `//`.
    fn lex_comment(&self, p: usize) -> (r: (TokenResult, usize))
        requires
            p <= self.code@.len(),
        ensures
            agrees(r.0, scan_comment(self.code@, p as int), self.filename@),
            r.1 == scan_comment(self.code@, p as int).next,
    {
        let n = self.code.len();
        let e = self.find(p, NEWLINE);
        proof {
            lemma_find_byte(self.code@, p as int, NEWLINE);
        }
        let text = copy_range(&self.code, p, e);
        let next = if e < n {
            e + 1
        } else {
            e
        };
        (self.token(TokenType::Comment(text), p, e - p), next)
    }

    /// Whether the byte after `p` exists and is `b`.
    fn next_is(&self, p: usize, b: u8) -> (r: bool)
        requires
            p < self.code@.len(),
        ensures
            r == followed_by(self.code@, p as int, b),
    {
        let n = self.code.len();
        p + 1 < n && self.code[p + 1] == b
    }

    /// A lexeme that starts with the punctuation byte at `p`.
    fn lex_punct(&self, p: usize) -> (r: (TokenResult, usize))
        requires
            p < self.code@.len(),
        ensures
            agrees(r.0, scan_punct(self.code@, p as int), self.filename@),
            r.1 == scan_punct(self.code@, p as int).next,
    {
        let n = self.code.len();
        let b = self.code[p];
        if b == EQUALS {
            if self.next_is(p, EQUALS) {
                (self.token(TokenType::DoubleEqual, p, 2), p + 2)
            } else {
                (self.error(Fault::UnexpectedCharacter, p, 1), p + 1)
            }
        } else if b == HYPHEN {
            if self.next_is(p, GREATER) {
                (self.token(TokenType::Arrow, p, 2), p + 2)
            } else {
                (self.token(TokenType::Minus, p, 1), p + 1)
            }
        } else if b == SLASH {
            if self.next_is(p, SLASH) {
                self.lex_comment(p + 2)
            } else {
                (self.token(TokenType::Devide, p, 1), p + 1)
            }
        } else if b == QUOTE {
            self.lex_string(p)
        } else {
            let one = [b];
            assert(one@ =~= seq![b]);
            match match_keyword_exact(one.as_slice()) {
                Some(k) => (self.token(k, p, 1), p + 1),
                None => (self.error(Fault::UnexpectedCharacter, p, 1), p + 1),
            }
        }
    }

    /// The lexeme at `p`, a position that holds no whitespace.
    fn lex_at(&self, p: usize) -> (r: (TokenResult, usize))
        requires
            p < self.code@.len(),
        ensures
            agrees(r.0, scan_lexeme(self.code@, p as int), self.filename@),
            r.1 == scan_lexeme(self.code@, p as int).next,
    {
        reveal(scan_lexeme);
        let n = self.code.len();
        let b = self.code[p];
        if digit_byte(b) {
            self.lex_number(p)
        } else if alpha_byte(b) || b == UNDERSCORE {
            self.lex_word(p)
        } else if punct_byte(b) {
            self.lex_punct(p)
        } else {
            (self.error(Fault::UnexpectedCharacter, p, 1), p + 1)
        }
    }

    /// Scans the next lexeme: a token, or an error for the span it rejects.
    /// Whitespace is skipped; once only whitespace remains the result is
    /// `None`, and it stays `None` on every later call.
    pub fn next(&mut self) -> (r: Option<TokenResult>)
        ensures
            final(self).source() == old(self).source(),
            final(self).file() == old(self).file(),
            final(self).position() <= final(self).source().len(),
            match scan_at(old(self).source(), old(self).position()) {
                None => r is None && scan_at(final(self).source(), final(self).position()) is None,
                Some(s) => {
                    &&& r matches Some(res) && agrees(res, s, old(self).file())
                    &&& final(self).position() == s.next
                },
            },
    {
        let ghost code = self.code@;
        proof {
            use_type_invariant(&*self);
            lemma_skip_space(code, self.pos as int);
        }
        let ghost start = self.pos as int;
        let n = self.code.len();
        let mut p = self.pos;
        while p < n && space_byte(self.code[p])
            invariant
                start <= p,
                code == self.code@,
                n == code.len(),
                skip_space(code, p as int) == skip_space(code, start),
            decreases n - p,
        {
            p += 1;
        }
        if p >= n {
            self.pos = p;
            return None;
        }
        let (res, next) = self.lex_at(p);
        proof {
            lemma_scan_lexeme_bounds(code, p as int);
        }
        self.pos = next;
        Some(res)
    }

    fn token(&self, token: TokenType, pos: usize, len: usize) -> (r: TokenResult)
        ensures
            r matches Ok(t) && t.token == token && t.pos == pos && t.len == len && t.filename@
                == self.filename@,
    {
        Ok(Token { token, filename: self.filename.clone(), pos, len })
    }

    fn error(&self, f: Fault, pos: usize, len: usize) -> (r: TokenResult)
        ensures
            r matches Err(e) && e.pos == pos && e.len == len && e.filename@ == self.filename@
                && e.errstr@ == fault_text(f) && e.internal == (f == Fault::IntegerOverflow),
    {
        let text = match f {
            Fault::UnexpectedCharacter => "Unexpected character.",
            Fault::InvalidUtf8 => "Invalid UTF-8 in string literal.",
            Fault::UnterminatedString => "Unterminated string literal.",
            Fault::IntegerOverflow => "Integer literal out of range.",
        };
        let file = self.filename.clone();
        match f {
            Fault::IntegerOverflow => Err(TokenizeError::internal(file, pos, len, text.to_owned())),
            _ => Err(TokenizeError::new(file, pos, len, text.to_owned())),
        }
    }
}

} // verus!
