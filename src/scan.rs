//! The mathematical model of the tokenizer: from a source buffer and a
//! position, the next lexeme, its span, and where scanning resumes.
use vstd::prelude::*;
use vstd::utf8::{valid_utf8, decode_utf8};
use crate::chars::{is_space, is_digit, is_alpha, is_word, is_punct};
use crate::tokens::{Kind, TokenType, keyword_kind};

verus! {

pub const QUOTE: u8 = 0x22;

pub const DOT: u8 = 0x2e;

pub const SLASH: u8 = 0x2f;

pub const EQUALS: u8 = 0x3d;

pub const HYPHEN: u8 = 0x2d;

pub const GREATER: u8 = 0x3e;

pub const UNDERSCORE: u8 = 0x5f;

pub const NEWLINE: u8 = 0x0a;

/// Why a span of source text was rejected.
#[derive(Debug, Clone, Copy, PartialEq, Eq, Structural)]
pub enum Fault {
    /// A byte that cannot start a token, or `=` without a second `=`.
    UnexpectedCharacter,
    /// A string literal whose bytes are not valid UTF-8.
    InvalidUtf8,
    /// A string literal without its closing quote.
    UnterminatedString,
    /// A digit run whose value does not fit in `usize` (an internal error).
    IntegerOverflow,
}

/// The message that an error of each fault carries.
pub open spec fn fault_text(f: Fault) -> Seq<char> {
    match f {
        Fault::UnexpectedCharacter => "Unexpected character."@,
        Fault::InvalidUtf8 => "Invalid UTF-8 in string literal."@,
        Fault::UnterminatedString => "Unterminated string literal."@,
        Fault::IntegerOverflow => "Integer literal out of range."@,
    }
}

/// What one scanning step produces.
pub enum Lexeme {
    Token(Kind),
    Fault(Fault),
}

/// One scanning step: the lexeme, its span `[pos, pos + len)`, and the
/// position at which the following step starts.
pub struct Scan {
    pub item: Lexeme,
    pub pos: nat,
    pub len: nat,
    pub next: nat,
}

/// ASCII bytes read as characters.
pub open spec fn ascii_text(s: Seq<u8>) -> Seq<char> {
    s.map_values(|b: u8| b as char)
}

/// The first position at or after `i` that does not hold whitespace.
pub open spec fn skip_space(code: Seq<u8>, i: int) -> int
    decreases code.len() - i,
{
    if 0 <= i < code.len() && is_space(code[i]) {
        skip_space(code, i + 1)
    } else {
        i
    }
}

/// The end of the maximal run of identifier bytes that starts at `i`.
pub open spec fn word_end(code: Seq<u8>, i: int) -> int
    decreases code.len() - i,
{
    if 0 <= i < code.len() && is_word(code[i]) {
        word_end(code, i + 1)
    } else {
        i
    }
}

/// The end of the maximal run of digits that starts at `i`.
pub open spec fn digits_end(code: Seq<u8>, i: int) -> int
    decreases code.len() - i,
{
    if 0 <= i < code.len() && is_digit(code[i]) {
        digits_end(code, i + 1)
    } else {
        i
    }
}

/// The first position at or after `i` that holds `b`, or the end of `code`.
pub open spec fn find_byte(code: Seq<u8>, i: int, b: u8) -> int
    decreases code.len() - i,
{
    if 0 <= i < code.len() && code[i] != b {
        find_byte(code, i + 1, b)
    } else if i < code.len() {
        i
    } else {
        code.len() as int
    }
}

/// The value of a run of decimal digits.
pub open spec fn digits_value(s: Seq<u8>) -> nat
    decreases s.len(),
{
    if s.len() == 0 {
        0
    } else {
        digits_value(s.drop_last()) * 10 + (s.last() - 0x30) as nat
    }
}

pub open spec fn token_at(kind: Kind, pos: int, len: int, next: int) -> Scan {
    Scan { item: Lexeme::Token(kind), pos: pos as nat, len: len as nat, next: next as nat }
}

pub open spec fn fault_at(f: Fault, pos: int, next: int) -> Scan {
    Scan { item: Lexeme::Fault(f), pos: pos as nat, len: 1, next: next as nat }
}

/// A number: an integer literal, or a real literal when a dot follows the digits.
pub open spec fn scan_number(code: Seq<u8>, p: int) -> Scan {
    let e = digits_end(code, p);
    if e < code.len() && code[e] == DOT {
        let f = digits_end(code, e + 1);
        token_at(Kind::Real(ascii_text(code.subrange(p, f))), p, f - p, f)
    } else if digits_value(code.subrange(p, e)) <= usize::MAX {
        token_at(Kind::UInt(digits_value(code.subrange(p, e))), p, e - p, e)
    } else {
        Scan { item: Lexeme::Fault(Fault::IntegerOverflow), pos: p as nat, len: (e - p) as nat, next: e as nat }
    }
}

/// A maximal identifier run: a reserved spelling, or else an identifier.
pub open spec fn scan_word(code: Seq<u8>, p: int) -> Scan {
    let e = word_end(code, p);
    let w = code.subrange(p, e);
    match keyword_kind(w) {
        Some(k) => token_at(Kind::Fixed(k), p, e - p, e),
        None => token_at(Kind::Identifier(ascii_text(w)), p, e - p, e),
    }
}

/// A string literal whose opening quote is at `p`.
pub open spec fn scan_string(code: Seq<u8>, p: int) -> Scan {
    let q = find_byte(code, p + 1, QUOTE);
    if q >= code.len() {
        fault_at(Fault::UnterminatedString, p, code.len() as int)
    } else if valid_utf8(code.subrange(p + 1, q)) {
        token_at(Kind::StringLiteral(decode_utf8(code.subrange(p + 1, q))), p + 1, q - p - 1, q + 1)
    } else {
        fault_at(Fault::InvalidUtf8, p, q + 1)
    }
}

/// A comment whose text starts at `p`, just after its `//`.
pub open spec fn scan_comment(code: Seq<u8>, p: int) -> Scan {
    let e = find_byte(code, p, NEWLINE);
    let next = if e < code.len() { e + 1 } else { e };
    token_at(Kind::Comment(code.subrange(p, e)), p, e - p, next)
}

/// True when the byte after `p` exists and is `b`.
pub open spec fn followed_by(code: Seq<u8>, p: int, b: u8) -> bool {
    p + 1 < code.len() && code[p + 1] == b
}

/// A lexeme that starts with a punctuation byte.
pub open spec fn scan_punct(code: Seq<u8>, p: int) -> Scan {
    let b = code[p];
    if b == EQUALS {
        if followed_by(code, p, EQUALS) {
            token_at(Kind::Fixed(TokenType::DoubleEqual), p, 2, p + 2)
        } else {
            fault_at(Fault::UnexpectedCharacter, p, p + 1)
        }
    } else if b == HYPHEN {
        if followed_by(code, p, GREATER) {
            token_at(Kind::Fixed(TokenType::Arrow), p, 2, p + 2)
        } else {
            token_at(Kind::Fixed(TokenType::Minus), p, 1, p + 1)
        }
    } else if b == SLASH {
        if followed_by(code, p, SLASH) {
            scan_comment(code, p + 2)
        } else {
            token_at(Kind::Fixed(TokenType::Devide), p, 1, p + 1)
        }
    } else if b == QUOTE {
        scan_string(code, p)
    } else {
        match keyword_kind(seq![b]) {
            Some(k) => token_at(Kind::Fixed(k), p, 1, p + 1),
            None => fault_at(Fault::UnexpectedCharacter, p, p + 1),
        }
    }
}

/// The lexeme that starts at `p`, a position that holds no whitespace.
#[verifier::opaque]
pub open spec fn scan_lexeme(code: Seq<u8>, p: int) -> Scan {
    let b = code[p];
    if is_digit(b) {
        scan_number(code, p)
    } else if is_alpha(b) || b == UNDERSCORE {
        scan_word(code, p)
    } else if is_punct(b) {
        scan_punct(code, p)
    } else {
        fault_at(Fault::UnexpectedCharacter, p, p + 1)
    }
}

/// The step taken from position `pos`: whitespace is skipped, and nothing is
/// produced once only whitespace remains.
pub open spec fn scan_at(code: Seq<u8>, pos: int) -> Option<Scan> {
    let p = skip_space(code, pos);
    if 0 <= p < code.len() {
        Some(scan_lexeme(code, p))
    } else {
        None
    }
}

pub proof fn lemma_skip_space(code: Seq<u8>, i: int)
    requires
        0 <= i,
    ensures
        i <= skip_space(code, i),
        i <= code.len() ==> skip_space(code, i) <= code.len(),
        i > code.len() ==> skip_space(code, i) == i,
        forall|j: int| i <= j < skip_space(code, i) ==> is_space(#[trigger] code[j]),
        skip_space(code, i) < code.len() ==> !is_space(code[skip_space(code, i)]),
    decreases code.len() - i,
{
    if 0 <= i < code.len() && is_space(code[i]) {
        lemma_skip_space(code, i + 1);
    }
}

pub proof fn lemma_word_end(code: Seq<u8>, i: int)
    requires
        0 <= i <= code.len(),
    ensures
        i <= word_end(code, i) <= code.len(),
        forall|j: int| i <= j < word_end(code, i) ==> is_word(#[trigger] code[j]),
        word_end(code, i) < code.len() ==> !is_word(code[word_end(code, i)]),
    decreases code.len() - i,
{
    if 0 <= i < code.len() && is_word(code[i]) {
        lemma_word_end(code, i + 1);
    }
}

pub proof fn lemma_digits_end(code: Seq<u8>, i: int)
    requires
        0 <= i <= code.len(),
    ensures
        i <= digits_end(code, i) <= code.len(),
        forall|j: int| i <= j < digits_end(code, i) ==> is_digit(#[trigger] code[j]),
        digits_end(code, i) < code.len() ==> !is_digit(code[digits_end(code, i)]),
    decreases code.len() - i,
{
    if 0 <= i < code.len() && is_digit(code[i]) {
        lemma_digits_end(code, i + 1);
    }
}

pub proof fn lemma_find_byte(code: Seq<u8>, i: int, b: u8)
    requires
        0 <= i,
    ensures
        i <= code.len() ==> i <= find_byte(code, i, b),
        find_byte(code, i, b) <= code.len(),
        forall|j: int| i <= j < find_byte(code, i, b) ==> #[trigger] code[j] != b,
        find_byte(code, i, b) < code.len() ==> code[find_byte(code, i, b)] == b,
    decreases code.len() - i,
{
    if 0 <= i < code.len() && code[i] != b {
        lemma_find_byte(code, i + 1, b);
    }
}

/// Every lexeme lies within the source, and the following step starts after it.
pub proof fn lemma_scan_lexeme_bounds(code: Seq<u8>, p: int)
    requires
        0 <= p < code.len(),
    ensures
        p <= scan_lexeme(code, p).pos,
        scan_lexeme(code, p).pos + scan_lexeme(code, p).len <= scan_lexeme(code, p).next,
        p < scan_lexeme(code, p).next <= code.len(),
{
    reveal(scan_lexeme);
    lemma_digits_end(code, p);
    lemma_word_end(code, p);
    if p + 2 <= code.len() {
        lemma_find_byte(code, p + 2, NEWLINE);
    }
    lemma_find_byte(code, p + 1, QUOTE);
    let e = digits_end(code, p);
    if e < code.len() {
        lemma_digits_end(code, e + 1);
    }
}

/// A step from `pos` starts at or after `pos` and strictly advances.
pub proof fn lemma_scan_at_bounds(code: Seq<u8>, pos: int)
    requires
        0 <= pos,
    ensures
        scan_at(code, pos) matches Some(s) ==> {
            &&& pos <= s.pos
            &&& (s.pos + s.len) as int <= s.next <= code.len()
            &&& pos < s.next
        },
{
    lemma_skip_space(code, pos);
    let p = skip_space(code, pos);
    if 0 <= p < code.len() {
        lemma_scan_lexeme_bounds(code, p);
    }
}

/// Every step from `pos` on, in order, until only whitespace remains.
pub open spec fn scan_from(code: Seq<u8>, pos: int) -> Seq<Scan>
    decreases code.len() - pos,
    via scan_from_decreases
{
    match scan_at(code, pos) {
        Some(s) => seq![s] + scan_from(code, s.next as int),
        None => seq![],
    }
}

#[via_fn]
proof fn scan_from_decreases(code: Seq<u8>, pos: int) {
    if pos >= 0 {
        lemma_scan_at_bounds(code, pos);
    }
}

/// A step that produced a comment token.
pub open spec fn is_comment_step(s: Scan) -> bool {
    s.item matches Lexeme::Token(Kind::Comment(_))
}

/// The steps that are not comments, in order.
pub open spec fn without_comments(steps: Seq<Scan>) -> Seq<Scan> {
    steps.filter(|s: Scan| !is_comment_step(s))
}

/// One step of the comment-free scan: a comment is passed over, anything else
/// comes first.
pub proof fn lemma_without_comments_step(code: Seq<u8>, pos: int)
    ensures
        scan_at(code, pos) is None ==> without_comments(scan_from(code, pos)) == Seq::<Scan>::empty(),
        scan_at(code, pos) matches Some(s) ==> without_comments(scan_from(code, pos)) == if is_comment_step(s) {
            without_comments(scan_from(code, s.next as int))
        } else {
            seq![s] + without_comments(scan_from(code, s.next as int))
        },
{
    match scan_at(code, pos) {
        Some(s) => {
            scan_from(code, s.next as int).lemma_filter_prepend(s, |s: Scan| !is_comment_step(s));
            if is_comment_step(s) {
                assert(Seq::<Scan>::empty() + without_comments(scan_from(code, s.next as int))
                    =~= without_comments(scan_from(code, s.next as int)));
            }
        },
        None => {
            reveal(Seq::filter);
        },
    }
}

/// The whole scan of a source buffer, from its first byte.
pub open spec fn scan_all(code: Seq<u8>) -> Seq<Scan> {
    scan_from(code, 0)
}

/// A source made only of whitespace scans to no lexeme at all.
pub proof fn lemma_whitespace_scans_empty(code: Seq<u8>)
    requires
        forall|i: int| 0 <= i < code.len() ==> is_space(#[trigger] code[i]),
    ensures
        scan_all(code) == Seq::<Scan>::empty(),
{
    lemma_skip_space(code, 0);
    if skip_space(code, 0) < code.len() {
        assert(is_space(code[skip_space(code, 0)]));
    }
}

/// A run of identifier bytes that starts with a letter or underscore and is
/// no reserved spelling scans to one identifier token that carries exactly
/// those bytes as text.
pub proof fn lemma_identifier_scan(w: Seq<u8>)
    requires
        w.len() > 0,
        is_alpha(w[0]) || w[0] == UNDERSCORE,
        forall|i: int| 0 <= i < w.len() ==> is_word(#[trigger] w[i]),
        keyword_kind(w) is None,
    ensures
        scan_all(w) == seq![token_at(Kind::Identifier(ascii_text(w)), 0, w.len() as int, w.len() as int)],
{
    reveal(scan_lexeme);
    lemma_skip_space(w, 0);
    lemma_word_end(w, 0);
    if word_end(w, 0) < w.len() {
        assert(is_word(w[word_end(w, 0)]));
    }
    assert(w.subrange(0, w.len() as int) =~= w);
    let s = token_at(Kind::Identifier(ascii_text(w)), 0, w.len() as int, w.len() as int);
    assert(scan_at(w, 0) == Some(s));
    lemma_skip_space(w, w.len() as int);
    assert(scan_from(w, w.len() as int) == Seq::<Scan>::empty());
    assert(scan_all(w) =~= seq![s]);
}

/// Bytes that are all whitespace.
pub open spec fn all_space(b: Seq<u8>) -> bool {
    forall|i: int| 0 <= i < b.len() ==> is_space(#[trigger] b[i])
}

/// What may be skipped before a token: whitespace, then at most one opening
/// delimiter (the quote of a string literal or the `//` of a comment).
pub open spec fn skipped_before(b: Seq<u8>) -> bool {
    exists|k: int|
        0 <= k <= b.len() && all_space(#[trigger] b.subrange(0, k)) && {
            let d = b.subrange(k, b.len() as int);
            d == Seq::<u8>::empty() || d == seq![QUOTE] || d == seq![SLASH, SLASH]
        }
}

/// What may be skipped after a token: nothing, the closing quote of a string
/// literal, or the line feed that ends a comment.
pub open spec fn skipped_after(b: Seq<u8>) -> bool {
    b == Seq::<u8>::empty() || b == seq![QUOTE] || b == seq![NEWLINE]
}

/// The source rebuilt from `pos` on: for each step, the bytes skipped before
/// it, its span, and the bytes skipped after it; then the trailing whitespace.
pub open spec fn rebuild(code: Seq<u8>, pos: int) -> Seq<u8>
    decreases code.len() - pos,
    via rebuild_decreases
{
    match scan_at(code, pos) {
        Some(s) => code.subrange(pos, s.pos as int) + code.subrange(s.pos as int, (s.pos + s.len) as int)
            + code.subrange((s.pos + s.len) as int, s.next as int) + rebuild(code, s.next as int),
        None => code.subrange(pos, code.len() as int),
    }
}

#[via_fn]
proof fn rebuild_decreases(code: Seq<u8>, pos: int) {
    if pos >= 0 {
        lemma_scan_at_bounds(code, pos);
    }
}

/// Every step from `pos` on skips only what `skipped_before` and
/// `skipped_after` allow, and only whitespace follows the last one.
pub open spec fn skips_only_layout(code: Seq<u8>, pos: int) -> bool
    decreases code.len() - pos,
    via layout_decreases
{
    match scan_at(code, pos) {
        Some(s) => skipped_before(code.subrange(pos, s.pos as int)) && skipped_after(
            code.subrange((s.pos + s.len) as int, s.next as int),
        ) && skips_only_layout(code, s.next as int),
        None => all_space(code.subrange(pos, code.len() as int)),
    }
}

#[via_fn]
proof fn layout_decreases(code: Seq<u8>, pos: int) {
    if pos >= 0 {
        lemma_scan_at_bounds(code, pos);
    }
}

proof fn lemma_step_layout(code: Seq<u8>, pos: int)
    requires
        0 <= pos <= code.len(),
        scan_at(code, pos) matches Some(s) && s.item is Token,
    ensures
        ({
            let s = scan_at(code, pos)->Some_0;
            skipped_before(code.subrange(pos, s.pos as int)) && skipped_after(
                code.subrange((s.pos + s.len) as int, s.next as int),
            )
        }),
{
    reveal(scan_lexeme);
    let s = scan_at(code, pos)->Some_0;
    lemma_skip_space(code, pos);
    let p = skip_space(code, pos);
    lemma_scan_lexeme_bounds(code, p);
    let lead = code.subrange(pos, s.pos as int);
    let k = p - pos;
    assert(all_space(lead.subrange(0, k)));
    let b = code[p];
    if is_punct(b) && !is_digit(b) && !(is_alpha(b) || b == UNDERSCORE) && b == SLASH && followed_by(code, p, SLASH) {
        lemma_find_byte(code, p + 2, NEWLINE);
        assert(lead.subrange(k, lead.len() as int) =~= seq![SLASH, SLASH]);
        let e = find_byte(code, p + 2, NEWLINE);
        if e < code.len() {
            assert(code.subrange((s.pos + s.len) as int, s.next as int) =~= seq![NEWLINE]);
        } else {
            assert(code.subrange((s.pos + s.len) as int, s.next as int) =~= Seq::<u8>::empty());
        }
    } else if is_punct(b) && !is_digit(b) && !(is_alpha(b) || b == UNDERSCORE) && b == QUOTE {
        lemma_find_byte(code, p + 1, QUOTE);
        assert(lead.subrange(k, lead.len() as int) =~= seq![QUOTE]);
        assert(code.subrange((s.pos + s.len) as int, s.next as int) =~= seq![QUOTE]);
    } else {
        assert(s.pos == p);
        lemma_word_end(code, p);
        lemma_digits_end(code, p);
        if is_digit(b) {
            let e = digits_end(code, p);
            if e < code.len() && code[e] == DOT {
                lemma_digits_end(code, e + 1);
            }
        }
        assert(s.next == s.pos + s.len);
        assert(lead.subrange(k, lead.len() as int) =~= Seq::<u8>::empty());
        assert(code.subrange((s.pos + s.len) as int, s.next as int) =~= Seq::<u8>::empty());
    }
}

proof fn lemma_round_trip_from(code: Seq<u8>, pos: int)
    requires
        0 <= pos <= code.len(),
        forall|i: int|
            0 <= i < scan_from(code, pos).len() ==> (#[trigger] scan_from(code, pos)[i]).item is Token,
    ensures
        rebuild(code, pos) == code.subrange(pos, code.len() as int),
        skips_only_layout(code, pos),
    decreases code.len() - pos,
{
    lemma_scan_at_bounds(code, pos);
    lemma_skip_space(code, pos);
    match scan_at(code, pos) {
        Some(s) => {
            assert(scan_from(code, pos)[0] == s);
            lemma_step_layout(code, pos);
            let rest = scan_from(code, s.next as int);
            assert forall|i: int| 0 <= i < rest.len() implies (#[trigger] rest[i]).item is Token by {
                assert(scan_from(code, pos)[i + 1] == rest[i]);
            }
            lemma_round_trip_from(code, s.next as int);
            assert(rebuild(code, pos) =~= code.subrange(pos, code.len() as int));
        },
        None => {
            let p = skip_space(code, pos);
            assert forall|i: int| 0 <= i < code.len() - pos implies is_space(
                #[trigger] code.subrange(pos, code.len() as int)[i],
            ) by {
                assert(code.subrange(pos, code.len() as int)[i] == code[pos + i]);
            }
        },
    }
}

/// Round trip: when every step yields a token, the source is exactly the
/// concatenation, in order, of each token's span with the bytes skipped
/// around it, and those skipped bytes are only whitespace, the quotes of a
/// string literal, and the `//` and closing line feed of a comment.
pub proof fn lemma_round_trip(code: Seq<u8>)
    requires
        forall|i: int| 0 <= i < scan_all(code).len() ==> (#[trigger] scan_all(code)[i]).item is Token,
    ensures
        rebuild(code, 0) == code,
        skips_only_layout(code, 0),
{
    assert forall|i: int| 0 <= i < scan_from(code, 0).len() implies (#[trigger] scan_from(
        code,
        0,
    )[i]).item is Token by {
        assert(scan_all(code)[i] == scan_from(code, 0)[i]);
    }
    lemma_round_trip_from(code, 0);
    assert(code.subrange(0, code.len() as int) =~= code);
}

/// A string literal left open at the end of the source is reported as an
/// error at the offset of its opening quote, and scanning resumes at the end.
pub proof fn lemma_unterminated_string(code: Seq<u8>, pos: int, p: int)
    requires
        0 <= pos <= p < code.len(),
        forall|i: int| pos <= i < p ==> is_space(#[trigger] code[i]),
        code[p] == QUOTE,
        forall|i: int| p < i < code.len() ==> #[trigger] code[i] != QUOTE,
    ensures
        scan_at(code, pos) == Some(fault_at(Fault::UnterminatedString, p, code.len() as int)),
{
    reveal(scan_lexeme);
    lemma_skip_from(code, pos, p);
    lemma_find_byte(code, p + 1, QUOTE);
    if find_byte(code, p + 1, QUOTE) < code.len() {
        assert(code[find_byte(code, p + 1, QUOTE)] == QUOTE);
    }
}

/// Whitespace from `pos` up to a byte that is not whitespace is skipped.
proof fn lemma_skip_from(code: Seq<u8>, pos: int, p: int)
    requires
        0 <= pos <= p < code.len(),
        forall|i: int| pos <= i < p ==> is_space(#[trigger] code[i]),
        !is_space(code[p]),
    ensures
        skip_space(code, pos) == p,
    decreases p - pos,
{
    if pos < p {
        lemma_skip_from(code, pos + 1, p);
    }
}

} // verus!
