use vstd::prelude::*;

use crate::number::{fits_i64, Number};
use crate::text::string_from_chars;

verus! {

/// The kinds of token that the scanner produces.
#[derive(Clone, Copy, Debug, PartialEq, Eq, Structural)]
pub enum TokenType {
    Fps,
    FpsEnd,
    Semicolon,
    Colon,
    OpenParen,
    CloseParen,
    OpenBrace,
    CloseBrace,
    Plus,
    Minus,
    Star,
    Slash,
    Equal,
    EqualEqual,
    Bang,
    BangEqual,
    Greater,
    GreaterEqual,
    Less,
    LessEqual,
    True,
    False,
    Null,
    Range,
    RangeEqual,
    Identifer,
    StringLiteral,
    Number,
    Declaration,
    If,
    Else,
    For,
    While,
    And,
    Or,
    It,
    Print,
    Println,
    Comment,
    Whitespace,
    Eol,
    Eof,
}

/// The value that a token carries besides its text.
#[derive(Debug, PartialEq)]
pub enum LiteralValue {
    Number(Number),
    StringValue(String),
    Identifier(String),
    Keyword(String),
    Fps(usize),
    Bounds(usize, usize),
}

/// One scanned token: its kind, its text, what it carries, and where it
/// ended in the input.
#[derive(Debug, PartialEq)]
pub struct Token {
    pub token_type: TokenType,
    pub lexeme: String,
    pub literal: Option<LiteralValue>,
    pub line: usize,
    pub pos: usize,
}

impl Clone for LiteralValue {
    fn clone(&self) -> (r: Self)
        ensures
            r == *self,
    {
        match self {
            LiteralValue::Number(n) => LiteralValue::Number(*n),
            LiteralValue::StringValue(s) => LiteralValue::StringValue(s.clone()),
            LiteralValue::Identifier(s) => LiteralValue::Identifier(s.clone()),
            LiteralValue::Keyword(s) => LiteralValue::Keyword(s.clone()),
            LiteralValue::Fps(n) => LiteralValue::Fps(*n),
            LiteralValue::Bounds(a, b) => LiteralValue::Bounds(*a, *b),
        }
    }
}

impl Clone for Token {
    fn clone(&self) -> (r: Self)
        ensures
            r == *self,
    {
        let literal = match &self.literal {
            Some(l) => Some(l.clone()),
            None => None,
        };
        Token {
            token_type: self.token_type,
            lexeme: self.lexeme.clone(),
            literal,
            line: self.line,
            pos: self.pos,
        }
    }
}

impl Token {
    pub fn new(
        token_type: TokenType,
        lexeme: String,
        literal: Option<LiteralValue>,
        line: usize,
        pos: usize,
    ) -> (r: Token)
        ensures
            r.token_type == token_type,
            r.lexeme == lexeme,
            r.literal == literal,
            r.line == line,
            r.pos == pos,
    {
        Token { token_type, lexeme, literal, line, pos }
    }
}

/// What can go wrong while scanning source text.
#[derive(Debug, PartialEq)]
pub enum LexerError {
    /// A character that starts no token, and the line it is on.
    UnrecognizedChar(char, usize),
    /// A range without a digit after its dots, and the line.
    Range(usize),
    /// The input ended while looking for one of the given characters;
    /// what was consumed, and the line.
    UnterminatedConsumption(Vec<char>, String, usize),
    /// A number or frame count too large to hold, and the line.
    NumberOutOfRange(usize),
}

/// Whether `c` has the Unicode `Alphabetic` property.
pub uninterp spec fn alphabetic(c: char) -> bool;

/// Whether `c` is alphabetic or numeric in the Unicode sense.
pub uninterp spec fn alphanumeric(c: char) -> bool;

/// Relies on `char::is_alphabetic`: the Unicode `Alphabetic` property of `c`.
#[verifier::external_body]
fn is_alphabetic(c: char) -> (r: bool)
    ensures
        r == alphabetic(c),
{
    c.is_alphabetic()
}

/// Relies on `char::is_alphanumeric`: whether `c` is alphabetic or numeric.
#[verifier::external_body]
fn is_alphanumeric(c: char) -> (r: bool)
    ensures
        r == alphanumeric(c),
{
    c.is_alphanumeric()
}

pub open spec fn is_digit(c: char) -> bool {
    '0' <= c <= '9'
}

pub open spec fn digit_value(c: char) -> int {
    (c as u32) - ('0' as u32)
}

/// The value of a run of decimal digits.
pub open spec fn digits_value(s: Seq<char>) -> nat
    decreases s.len(),
{
    if s.len() == 0 {
        0
    } else {
        (digits_value(s.drop_last()) * 10 + digit_value(s.last())) as nat
    }
}

/// The value in millionths of a fraction written with the digits `s`:
/// its first six digits, padded with zeros.
pub open spec fn fraction_units(s: Seq<char>) -> nat
    decreases 6 - s.len(),
{
    if s.len() >= 6 {
        digits_value(s.take(6))
    } else {
        fraction_units(s.push('0'))
    }
}

/// The number written `whole.frac`, when it fits.
pub open spec fn decimal_value(whole: Seq<char>, frac: Seq<char>) -> Option<Number> {
    let u = digits_value(whole) * 1000000 + fraction_units(frac);
    if fits_i64(u as int) {
        Some(Number { units: u as i64 })
    } else {
        None
    }
}

/// The token kind of a keyword, if `s` is one.
pub open spec fn keyword(s: Seq<char>) -> Option<TokenType> {
    if s == seq!['l', 'e', 't'] {
        Some(TokenType::Declaration)
    } else if s == seq!['i', 't'] {
        Some(TokenType::It)
    } else if s == seq!['i', 'f'] {
        Some(TokenType::If)
    } else if s == seq!['e', 'l', 's', 'e'] {
        Some(TokenType::Else)
    } else if s == seq!['f', 'o', 'r'] {
        Some(TokenType::For)
    } else if s == seq!['w', 'h', 'i', 'l', 'e'] {
        Some(TokenType::While)
    } else if s == seq!['p', 'r', 'i', 'n', 't'] {
        Some(TokenType::Print)
    } else if s == seq!['p', 'r', 'i', 'n', 't', 'l', 'n'] {
        Some(TokenType::Println)
    } else if s == seq!['t', 'r', 'u', 'e'] {
        Some(TokenType::True)
    } else if s == seq!['f', 'a', 'l', 's', 'e'] {
        Some(TokenType::False)
    } else if s == seq!['n', 'u', 'l', 'l'] {
        Some(TokenType::Null)
    } else {
        None
    }
}

fn chars_eq(v: &Vec<char>, w: &[char]) -> (r: bool)
    ensures
        r == (v@ == w@),
{
    if v.len() != w.len() {
        return false;
    }
    let mut i: usize = 0;
    while i < v.len()
        invariant
            i <= v.len(),
            v.len() == w@.len(),
            forall|j: int| 0 <= j < i ==> v@[j] == w@[j],
        decreases v.len() - i,
    {
        if v[i] != w[i] {
            return false;
        }
        i = i + 1;
    }
    assert(v@ =~= w@);
    true
}

/// The token kind of a keyword, if the characters spell one.
pub fn keyword_type(v: &Vec<char>) -> (r: Option<TokenType>)
    ensures
        r == keyword(v@),
{
    if chars_eq(v, &['l', 'e', 't']) {
        Some(TokenType::Declaration)
    } else if chars_eq(v, &['i', 't']) {
        Some(TokenType::It)
    } else if chars_eq(v, &['i', 'f']) {
        Some(TokenType::If)
    } else if chars_eq(v, &['e', 'l', 's', 'e']) {
        Some(TokenType::Else)
    } else if chars_eq(v, &['f', 'o', 'r']) {
        Some(TokenType::For)
    } else if chars_eq(v, &['w', 'h', 'i', 'l', 'e']) {
        Some(TokenType::While)
    } else if chars_eq(v, &['p', 'r', 'i', 'n', 't']) {
        Some(TokenType::Print)
    } else if chars_eq(v, &['p', 'r', 'i', 'n', 't', 'l', 'n']) {
        Some(TokenType::Println)
    } else if chars_eq(v, &['t', 'r', 'u', 'e']) {
        Some(TokenType::True)
    } else if chars_eq(v, &['f', 'a', 'l', 's', 'e']) {
        Some(TokenType::False)
    } else if chars_eq(v, &['n', 'u', 'l', 'l']) {
        Some(TokenType::Null)
    } else {
        None
    }
}

/// The value of a run of digits, when it is at most `bound`.
fn bounded_digits_value(s: &Vec<char>, bound: u64) -> (r: Option<u64>)
    requires
        forall|j: int| 0 <= j < s@.len() ==> is_digit(s@[j]),
    ensures
        digits_value(s@) <= bound <==> r is Some,
        r matches Some(v) ==> v == digits_value(s@),
{
    let mut acc: u64 = 0;
    let mut i: usize = 0;
    while i < s.len()
        invariant
            i <= s.len(),
            forall|j: int| 0 <= j < s@.len() ==> is_digit(s@[j]),
            acc == digits_value(s@.take(i as int)),
            acc <= bound,
        decreases s.len() - i,
    {
        proof {
            assert(s@.take(i + 1).drop_last() =~= s@.take(i as int));
        }
        let d = (s[i] as u32 - '0' as u32) as u64;
        if d > bound || acc > (bound - d) / 10 {
            proof {
                assert(acc * 10 + d > bound) by (nonlinear_arith)
                    requires
                        d > bound || acc > (bound - d) / 10,
                        d <= 9,
                        acc <= bound,
                ;
                lemma_digits_prefix_bound(s@, i as int + 1);
            }
            return None;
        }
        assert(acc * 10 + d <= bound) by (nonlinear_arith)
            requires
                acc <= (bound - d) / 10,
                d <= bound,
        ;
        acc = acc * 10 + d;
        i = i + 1;
    }
    assert(s@.take(s.len() as int) =~= s@);
    Some(acc)
}

/// A longer run of digits is worth at least as much as its prefix.
proof fn lemma_digits_prefix_bound(s: Seq<char>, k: int)
    requires
        0 <= k <= s.len(),
        forall|j: int| 0 <= j < s.len() ==> is_digit(s[j]),
    ensures
        digits_value(s.take(k)) <= digits_value(s),
    decreases s.len() - k,
{
    if k < s.len() {
        lemma_digits_prefix_bound(s, k + 1);
        assert(s.take(k + 1).drop_last() =~= s.take(k));
    } else {
        assert(s.take(k) =~= s);
    }
}

/// The number written with the integral digits `whole` and fractional
/// digits `frac`, when it fits.
pub fn decimal_number(whole: &Vec<char>, frac: &Vec<char>) -> (r: Option<Number>)
    requires
        forall|j: int| 0 <= j < whole@.len() ==> is_digit(whole@[j]),
        forall|j: int| 0 <= j < frac@.len() ==> is_digit(frac@[j]),
    ensures
        r == decimal_value(whole@, frac@),
{
    let mut six: Vec<char> = Vec::new();
    let mut i: usize = 0;
    while i < 6
        invariant
            i <= 6,
            six@.len() == i,
            forall|j: int| 0 <= j < frac@.len() ==> is_digit(frac@[j]),
            forall|j: int| 0 <= j < i ==> six@[j] == if j < frac@.len() { frac@[j] } else { '0' },
        decreases 6 - i,
    {
        if i < frac.len() {
            six.push(frac[i]);
        } else {
            six.push('0');
        }
        i = i + 1;
    }
    proof {
        lemma_fraction_units(frac@, six@);
        assert forall|j: int| 0 <= j < six@.len() implies is_digit(six@[j]) by {}
    }
    let f = match bounded_digits_value(&six, 999999) {
        Some(f) => f,
        None => {
            proof {
                assert forall|j: int| 0 <= j < six@.len() implies is_digit(six@[j]) by {}
                lemma_six_digits_bound(six@);
                reveal_with_fuel(pow10, 7);
            }
            return None;
        },
    };
    match bounded_digits_value(whole, 9223372036854) {
        None => {
            assert(digits_value(whole@) * 1000000 + fraction_units(frac@) > i64::MAX);
            None
        },
        Some(w) => {
            let u: u64 = w * 1000000 + f;
            if u > i64::MAX as u64 {
                None
            } else {
                Some(Number { units: u as i64 })
            }
        },
    }
}

proof fn lemma_six_digits_bound(s: Seq<char>)
    requires
        forall|j: int| 0 <= j < s.len() ==> is_digit(s[j]),
    ensures
        digits_value(s) < pow10(s.len()),
    decreases s.len(),
{
    if s.len() > 0 {
        lemma_six_digits_bound(s.drop_last());
        assert(is_digit(s.last()));
    }
}

pub open spec fn pow10(n: nat) -> nat
    decreases n,
{
    if n == 0 {
        1
    } else {
        10 * pow10((n - 1) as nat)
    }
}

proof fn lemma_fraction_units(frac: Seq<char>, six: Seq<char>)
    requires
        six.len() == 6,
        forall|j: int| 0 <= j < 6 ==> six[j] == if j < frac.len() { frac[j] } else { '0' },
    ensures
        fraction_units(frac) == digits_value(six),
    decreases 6 - frac.len(),
{
    if frac.len() >= 6 {
        assert(frac.take(6) =~= six);
    } else {
        lemma_fraction_units(frac.push('0'), six);
    }
}

/// End of the run of decimal digits that starts at `i`.
pub open spec fn digits_end(s: Seq<char>, i: int) -> int
    decreases s.len() - i,
{
    if 0 <= i < s.len() && is_digit(s[i]) {
        digits_end(s, i + 1)
    } else {
        i
    }
}

/// End of the run of alphanumeric characters that starts at `i`.
pub open spec fn word_end(s: Seq<char>, i: int) -> int
    decreases s.len() - i,
{
    if 0 <= i < s.len() && alphanumeric(s[i]) {
        word_end(s, i + 1)
    } else {
        i
    }
}

/// Index of the first character at or after `i` that is one of `stops`,
/// or -1 when the input ends first.
pub open spec fn stop_at(s: Seq<char>, i: int, stops: Seq<char>) -> int
    decreases s.len() - i,
{
    if i < 0 || i >= s.len() {
        -1
    } else if stops.contains(s[i]) {
        i
    } else {
        stop_at(s, i + 1, stops)
    }
}

proof fn lemma_stop_at(s: Seq<char>, i: int, stops: Seq<char>)
    requires
        0 <= i,
    ensures
        stop_at(s, i, stops) >= 0 ==> i <= stop_at(s, i, stops) < s.len(),
        stop_at(s, i, stops) >= -1,
    decreases s.len() - i,
{
    if i < s.len() && !stops.contains(s[i]) {
        lemma_stop_at(s, i + 1, stops);
    }
}

proof fn lemma_digits_end(s: Seq<char>, i: int)
    requires
        0 <= i <= s.len(),
    ensures
        i <= digits_end(s, i) <= s.len(),
        forall|j: int| i <= j < digits_end(s, i) ==> is_digit(#[trigger] s[j]),
    decreases s.len() - i,
{
    if i < s.len() && is_digit(s[i]) {
        lemma_digits_end(s, i + 1);
    }
}

proof fn lemma_word_end(s: Seq<char>, i: int)
    requires
        0 <= i <= s.len(),
    ensures
        i <= word_end(s, i) <= s.len(),
    decreases s.len() - i,
{
    if i < s.len() && alphanumeric(s[i]) {
        lemma_word_end(s, i + 1);
    }
}

/// What a token carries besides its text.
pub ghost enum Meaning {
    Num(Number),
    Text(Seq<char>),
    Ident(Seq<char>),
    Word(Seq<char>),
    Frames(nat),
    Span(nat, nat),
}

/// Whether a token's carried value is the one described.
pub open spec fn literal_means(l: Option<LiteralValue>, m: Option<Meaning>) -> bool {
    match (l, m) {
        (None, None) => true,
        (Some(LiteralValue::Number(n)), Some(Meaning::Num(k))) => n == k,
        (Some(LiteralValue::StringValue(x)), Some(Meaning::Text(t))) => x@ == t,
        (Some(LiteralValue::Identifier(x)), Some(Meaning::Ident(t))) => x@ == t,
        (Some(LiteralValue::Keyword(x)), Some(Meaning::Word(t))) => x@ == t,
        (Some(LiteralValue::Fps(n)), Some(Meaning::Frames(k))) => n == k,
        (Some(LiteralValue::Bounds(a, b)), Some(Meaning::Span(x, y))) => a == x && b == y,
        _ => false,
    }
}

/// What the scanner finds at position `i` of the input.
pub ghost enum Lexed {
    /// The input ends here.
    End,
    /// A blank, skipped.
    Space { next: int },
    /// A line end, skipped.
    Newline { next: int },
    /// A token, ending before `next`.
    Found { kind: TokenType, text: Seq<char>, meaning: Option<Meaning>, next: int },
    /// Nothing valid starts here.
    Fail,
}

pub open spec fn plain(kind: TokenType, s: Seq<char>, i: int, next: int) -> Lexed {
    Lexed::Found { kind, text: s.subrange(i, next), meaning: None, next }
}

/// A one- or two-character operator: `two` when `second` follows.
pub open spec fn pair(s: Seq<char>, i: int, second: char, two: TokenType, one: TokenType) -> Lexed {
    if i + 1 < s.len() && s[i + 1] == second {
        plain(two, s, i, i + 2)
    } else {
        plain(one, s, i, i + 1)
    }
}

/// A number or a range that starts with the digit at `i`.
pub open spec fn lex_number(s: Seq<char>, i: int) -> Lexed {
    let k = digits_end(s, i + 1);
    let whole = s.subrange(i, k);
    if k + 1 < s.len() && s[k] == '.' && s[k + 1] == '.' {
        let inclusive = k + 2 < s.len() && s[k + 2] == '=';
        let u = if inclusive {
            k + 3
        } else {
            k + 2
        };
        let e = digits_end(s, u);
        if e == u || digits_value(whole) > 4294967295 || digits_value(s.subrange(u, e)) > 4294967295 {
            Lexed::Fail
        } else {
            Lexed::Found {
                kind: if inclusive {
                    TokenType::RangeEqual
                } else {
                    TokenType::Range
                },
                text: s.subrange(i, e),
                meaning: Some(Meaning::Span(digits_value(whole), digits_value(s.subrange(u, e)))),
                next: e,
            }
        }
    } else {
        let dotted = k < s.len() && s[k] == '.';
        let f0 = if dotted {
            k + 1
        } else {
            k
        };
        let f1 = if dotted {
            digits_end(s, k + 1)
        } else {
            k
        };
        match decimal_value(whole, s.subrange(f0, f1)) {
            Some(n) => Lexed::Found {
                kind: TokenType::Number,
                text: s.subrange(i, f1),
                meaning: Some(Meaning::Num(n)),
                next: f1,
            },
            None => Lexed::Fail,
        }
    }
}

/// An identifier or keyword that starts with the letter at `i`.
pub open spec fn lex_word(s: Seq<char>, i: int) -> Lexed {
    let k = word_end(s, i + 1);
    let text = s.subrange(i, k);
    match keyword(text) {
        Some(kind) => Lexed::Found { kind, text, meaning: Some(Meaning::Word(text)), next: k },
        None => Lexed::Found { kind: TokenType::Identifer, text, meaning: Some(Meaning::Ident(text)), next: k },
    }
}

/// `#`, `#n` or `##`, starting at `i`.
pub open spec fn lex_marker(s: Seq<char>, i: int) -> Lexed {
    if i + 1 < s.len() && s[i + 1] == '#' {
        plain(TokenType::FpsEnd, s, i, i + 2)
    } else {
        let k = digits_end(s, i + 1);
        if k == i + 1 {
            Lexed::Found { kind: TokenType::Fps, text: s.subrange(i, k), meaning: Some(Meaning::Frames(1)), next: k }
        } else if digits_value(s.subrange(i + 1, k)) <= usize::MAX {
            Lexed::Found {
                kind: TokenType::Fps,
                text: s.subrange(i, k),
                meaning: Some(Meaning::Frames(digits_value(s.subrange(i + 1, k)))),
                next: k,
            }
        } else {
            Lexed::Fail
        }
    }
}

/// The lexical grammar: what starts at position `i` of `s`.
pub open spec fn lex_at(s: Seq<char>, i: int) -> Lexed {
    if i < 0 || i >= s.len() {
        Lexed::End
    } else {
        let c = s[i];
        if c == ' ' || c == '\t' || c == '\r' {
            Lexed::Space { next: i + 1 }
        } else if c == '\n' {
            Lexed::Newline { next: i + 1 }
        } else if c == '+' {
            plain(TokenType::Plus, s, i, i + 1)
        } else if c == '-' {
            plain(TokenType::Minus, s, i, i + 1)
        } else if c == '*' {
            plain(TokenType::Star, s, i, i + 1)
        } else if c == '/' {
            if i + 1 < s.len() && s[i + 1] == '/' {
                let k = stop_at(s, i + 2, seq!['\n', '\r']);
                if k < 0 {
                    Lexed::Fail
                } else {
                    Lexed::Found { kind: TokenType::Comment, text: s.subrange(i + 2, k), meaning: None, next: k }
                }
            } else {
                plain(TokenType::Slash, s, i, i + 1)
            }
        } else if c == ':' {
            plain(TokenType::Colon, s, i, i + 1)
        } else if c == ';' {
            plain(TokenType::Semicolon, s, i, i + 1)
        } else if c == '(' {
            plain(TokenType::OpenParen, s, i, i + 1)
        } else if c == ')' {
            plain(TokenType::CloseParen, s, i, i + 1)
        } else if c == '{' {
            plain(TokenType::OpenBrace, s, i, i + 1)
        } else if c == '}' {
            plain(TokenType::CloseBrace, s, i, i + 1)
        } else if c == '#' {
            lex_marker(s, i)
        } else if c == '=' {
            pair(s, i, '=', TokenType::EqualEqual, TokenType::Equal)
        } else if c == '!' {
            pair(s, i, '=', TokenType::BangEqual, TokenType::Bang)
        } else if c == '>' {
            pair(s, i, '=', TokenType::GreaterEqual, TokenType::Greater)
        } else if c == '<' {
            pair(s, i, '=', TokenType::LessEqual, TokenType::Less)
        } else if c == '&' && i + 1 < s.len() && s[i + 1] == '&' {
            plain(TokenType::And, s, i, i + 2)
        } else if c == '|' && i + 1 < s.len() && s[i + 1] == '|' {
            plain(TokenType::Or, s, i, i + 2)
        } else if c == '"' {
            let k = stop_at(s, i + 1, seq!['"']);
            if k < 0 {
                Lexed::Fail
            } else {
                Lexed::Found {
                    kind: TokenType::StringLiteral,
                    text: s.subrange(i + 1, k),
                    meaning: Some(Meaning::Text(s.subrange(i + 1, k))),
                    next: k + 1,
                }
            }
        } else if is_digit(c) {
            lex_number(s, i)
        } else if alphabetic(c) {
            lex_word(s, i)
        } else {
            Lexed::Fail
        }
    }
}

/// Whether `t` is the token that `l` describes, read on line `line`, with
/// the scanner left at `after`.
pub open spec fn found(l: Lexed, t: Token, line: usize, after: int) -> bool {
    match l {
        Lexed::Found { kind, text, meaning, next } => {
            &&& t.token_type == kind
            &&& t.lexeme@ == text
            &&& literal_means(t.literal, meaning)
            &&& t.line == line
            &&& t.pos == next
            &&& after == next
        },
        _ => false,
    }
}

/// Whether the scanner's answer `r` is what `l` describes.
pub open spec fn delivered(l: Lexed, r: Result<Token, LexerError>, line: usize, after: int) -> bool {
    match l {
        Lexed::End => false,
        Lexed::Fail => r is Err,
        Lexed::Space { next } => r matches Ok(t) && t.token_type == TokenType::Whitespace && after == next,
        Lexed::Newline { next } => r matches Ok(t) && t.token_type == TokenType::Eol && after == next,
        Lexed::Found { .. } => r matches Ok(t) && found(l, t, line, after),
    }
}

/// A token as the lexical grammar describes it: kind, text, carried value,
/// the line it was read on and the position just after it.
pub ghost struct Shape {
    pub kind: TokenType,
    pub text: Seq<char>,
    pub meaning: Option<Meaning>,
    pub line: int,
    pub pos: int,
}

pub open spec fn shape_of(t: Token, sh: Shape) -> bool {
    &&& t.token_type == sh.kind
    &&& t.lexeme@ == sh.text
    &&& literal_means(t.literal, sh.meaning)
    &&& t.line == sh.line
    &&& t.pos == sh.pos
}

/// The tokens of `s` from position `i` on, read from line `line`; `None`
/// when something there does not scan. Blanks are skipped and line ends
/// counted.
pub open spec fn scan_from(s: Seq<char>, i: int, line: int) -> Option<Seq<Shape>>
    decreases s.len() - i,
{
    if i < 0 || i >= s.len() {
        Some(Seq::empty())
    } else {
        match lex_at(s, i) {
            Lexed::End => Some(Seq::empty()),
            Lexed::Fail => None,
            Lexed::Space { next } => if next > i {
                scan_from(s, next, line)
            } else {
                None
            },
            Lexed::Newline { next } => if next > i {
                scan_from(s, next, if line < usize::MAX { line + 1 } else { line })
            } else {
                None
            },
            Lexed::Found { kind, text, meaning, next } => if i < next <= s.len() {
                match scan_from(s, next, line) {
                    Some(rest) => Some(seq![Shape { kind, text, meaning, line, pos: next }] + rest),
                    None => None,
                }
            } else {
                None
            },
        }
    }
}

/// The scanner: turns source text into tokens.
pub struct FpsInput {
    input: Vec<char>,
    pub tokens: Vec<Token>,
    start: usize,
    current: usize,
    line: usize,
}

impl FpsInput {
    pub closed spec fn wf(&self) -> bool {
        &&& self.start <= self.current <= self.input.len()
        &&& self.line >= 1
    }

    pub closed spec fn text(&self) -> Seq<char> {
        self.input@
    }

    pub closed spec fn scanned(&self) -> Seq<Token> {
        self.tokens@
    }

    pub closed spec fn position(&self) -> int {
        self.current as int
    }

    /// A scanner at the start of `input`, with no tokens yet.
    pub fn new(input: &str) -> (r: FpsInput)
        ensures
            r.wf(),
            r.text() == input@,
            r.position() == 0,
            r.line_no() == 1,
            r.scanned().len() == 0,
    {
        let mut chars: Vec<char> = Vec::new();
        crate::text::push_str_chars(&mut chars, input);
        assert(chars@ =~= input@);
        FpsInput { input: chars, tokens: Vec::new(), start: 0, current: 0, line: 1 }
    }

    /// The scanned tokens, taken out of the scanner.
    pub fn into_tokens(self) -> (r: Vec<Token>)
        ensures
            r@ == self.scanned(),
    {
        self.tokens
    }

    fn peek(&self) -> (r: Option<char>)
        requires
            self.wf(),
        ensures
            self.current < self.input.len() ==> r == Some(self.input@[self.current as int]),
            self.current >= self.input.len() ==> r is None,
    {
        if self.current < self.input.len() {
            Some(self.input[self.current])
        } else {
            None
        }
    }

    fn is_next_char_match(&self, ch: char) -> (r: bool)
        requires
            self.wf(),
        ensures
            r == (self.current < self.input.len() && self.input@[self.current as int] == ch),
    {
        match self.peek() {
            Some(next) => next == ch,
            None => false,
        }
    }

    /// The input between two positions, as a string.
    fn slice(&self, from: usize, to: usize) -> (r: String)
        requires
            from <= to <= self.input.len(),
        ensures
            r@ == self.input@.subrange(from as int, to as int),
    {
        let mut v: Vec<char> = Vec::new();
        let mut i = from;
        while i < to
            invariant
                from <= i <= to,
                to <= self.input.len(),
                v@ == self.input@.subrange(from as int, i as int),
            decreases to - i,
        {
            v.push(self.input[i]);
            i = i + 1;
            assert(v@ =~= self.input@.subrange(from as int, i as int));
        }
        string_from_chars(&v)
    }

    fn slice_chars(&self, from: usize, to: usize) -> (r: Vec<char>)
        requires
            from <= to <= self.input.len(),
        ensures
            r@ == self.input@.subrange(from as int, to as int),
    {
        let mut v: Vec<char> = Vec::new();
        let mut i = from;
        while i < to
            invariant
                from <= i <= to,
                to <= self.input.len(),
                v@ == self.input@.subrange(from as int, i as int),
            decreases to - i,
        {
            v.push(self.input[i]);
            i = i + 1;
            assert(v@ =~= self.input@.subrange(from as int, i as int));
        }
        v
    }

    fn create_token(&self, token_type: TokenType, lexeme: String, literal: Option<LiteralValue>) -> (r: Token)
        ensures
            r.token_type == token_type,
            r.lexeme == lexeme,
            r.literal == literal,
            r.line == self.line,
            r.pos == self.current,
    {
        Token::new(token_type, lexeme, literal, self.line, self.current)
    }

    /// Consumes characters up to, not including, the first one in `stop`;
    /// fails if the input ends first.
    #[verifier::loop_isolation(false)]
    fn consume_until(&mut self, stop: Vec<char>) -> (r: Result<String, LexerError>)
        requires
            old(self).wf(),
        ensures
            final(self).wf(),
            final(self).input == old(self).input,
            final(self).tokens == old(self).tokens,
            final(self).start == old(self).start,
            final(self).line == old(self).line,
            final(self).current >= old(self).current,
            r is Ok <==> stop_at(old(self).input@, old(self).current as int, stop@) >= 0,
            r matches Ok(t) ==> final(self).current == stop_at(old(self).input@, old(self).current as int, stop@)
                && t@ == old(self).input@.subrange(old(self).current as int, final(self).current as int),
            r is Ok ==> final(self).current < final(self).input.len(),
    {
        proof {
            lemma_stop_at(self.input@, self.current as int, stop@);
        }
        let from = self.current;
        while self.current < self.input.len()
            invariant
                self.wf(),
                self.input == old(self).input,
                self.tokens == old(self).tokens,
                self.start == old(self).start,
                self.line == old(self).line,
                from == old(self).current,
                from <= self.current,
                stop_at(self.input@, from as int, stop@) == stop_at(self.input@, self.current as int, stop@),
            decreases self.input.len() - self.current,
        {
            let next = self.input[self.current];
            let mut k: usize = 0;
            while k < stop.len()
                invariant
                    k <= stop.len(),
                    forall|j: int| 0 <= j < k ==> stop@[j] != next,
                decreases stop.len() - k,
            {
                if stop[k] == next {
                    assert(stop@[k as int] == next);
                    assert(stop@.contains(next));
                    return Ok(self.slice(from, self.current));
                }
                k = k + 1;
            }
            assert(!stop@.contains(next));
            self.current = self.current + 1;
        }
        let consumed = self.slice(from, self.current);
        Err(LexerError::UnterminatedConsumption(stop, consumed, self.line))
    }

    /// Consumes a run of decimal digits and returns them.
    fn consume_digits(&mut self) -> (r: Vec<char>)
        requires
            old(self).wf(),
        ensures
            final(self).wf(),
            final(self).input == old(self).input,
            final(self).tokens == old(self).tokens,
            final(self).start == old(self).start,
            final(self).line == old(self).line,
            final(self).current == old(self).current + r@.len(),
            forall|j: int| 0 <= j < r@.len() ==> is_digit(#[trigger] r@[j]),
            final(self).current == digits_end(old(self).input@, old(self).current as int),
            r@ == old(self).input@.subrange(old(self).current as int, final(self).current as int),
    {
        let mut digits: Vec<char> = Vec::new();
        while self.current < self.input.len() && '0' <= self.input[self.current] && self.input[self.current] <= '9'
            invariant
                self.wf(),
                self.input == old(self).input,
                self.tokens == old(self).tokens,
                self.start == old(self).start,
                self.line == old(self).line,
                self.current == old(self).current + digits@.len(),
                forall|j: int| 0 <= j < digits@.len() ==> is_digit(#[trigger] digits@[j]),
                digits_end(self.input@, old(self).current as int) == digits_end(self.input@, self.current as int),
                digits@ == self.input@.subrange(old(self).current as int, self.current as int),
            decreases self.input.len() - self.current,
        {
            digits.push(self.input[self.current]);
            self.current = self.current + 1;
            assert(digits@ =~= self.input@.subrange(old(self).current as int, self.current as int));
        }
        digits
    }

    /// The text of the token being scanned.
    fn lexeme(&self) -> (r: String)
        requires
            self.wf(),
        ensures
            r@ == self.input@.subrange(self.start as int, self.current as int),
    {
        self.slice(self.start, self.current)
    }

    /// A token whose text is exactly what was scanned for it.
    fn simple_token(&self, token_type: TokenType) -> (r: Token)
        requires
            self.wf(),
        ensures
            r.token_type == token_type,
            r.literal is None,
            r.lexeme@ == self.input@.subrange(self.start as int, self.current as int),
            r.line == self.line,
            r.pos == self.current,
    {
        self.create_token(token_type, self.lexeme(), None)
    }

    /// A one- or two-character operator: `two` when `second` follows,
    /// `one` otherwise.
    fn operator(&mut self, second: char, two: TokenType, one: TokenType) -> (r: Token)
        requires
            old(self).wf(),
            old(self).current == old(self).start + 1,
        ensures
            final(self).wf(),
            final(self).input == old(self).input,
            final(self).tokens == old(self).tokens,
            final(self).start == old(self).start,
            final(self).line == old(self).line,
            final(self).current >= old(self).current,
            found(pair(old(self).input@, old(self).start as int, second, two, one), r, old(self).line, final(self).current as int),
    {
        if self.is_next_char_match(second) {
            self.current = self.current + 1;
            self.simple_token(two)
        } else {
            self.simple_token(one)
        }
    }

    /// Scans the token, blank or line end that starts at the current position.
    fn tokenzine(&mut self) -> (r: Result<Token, LexerError>)
        requires
            old(self).wf(),
            old(self).start == old(self).current,
            old(self).current < old(self).input.len(),
        ensures
            final(self).wf(),
            final(self).input == old(self).input,
            final(self).tokens == old(self).tokens,
            final(self).start == old(self).start,
            final(self).line == old(self).line,
            r is Ok ==> final(self).current > old(self).current,
            delivered(lex_at(old(self).input@, old(self).current as int), r, old(self).line, final(self).current as int),
    {
        let ghost s = self.input@;
        let ghost i = self.current as int;
        let ch = self.input[self.current];
        self.current = self.current + 1;
        assert(ch == s[i] && self.start == i && self.current == i + 1);
        let token = if ch == ' ' || ch == '\t' || ch == '\r' {
            self.simple_token(TokenType::Whitespace)
        } else if ch == '\n' {
            self.simple_token(TokenType::Eol)
        } else if ch == '+' {
            self.simple_token(TokenType::Plus)
        } else if ch == '-' {
            self.simple_token(TokenType::Minus)
        } else if ch == '*' {
            self.simple_token(TokenType::Star)
        } else if ch == '/' {
            if self.is_next_char_match('/') {
                self.current = self.current + 1;
                let stops = vec!['\n', '\r'];
                assert(stops@ =~= seq!['\n', '\r']);
                let comment = match self.consume_until(stops) {
                    Ok(c) => c,
                    Err(e) => return Err(e),
                };
                self.create_token(TokenType::Comment, comment, None)
            } else {
                self.simple_token(TokenType::Slash)
            }
        } else if ch == ':' {
            self.simple_token(TokenType::Colon)
        } else if ch == ';' {
            self.simple_token(TokenType::Semicolon)
        } else if ch == '(' {
            self.simple_token(TokenType::OpenParen)
        } else if ch == ')' {
            self.simple_token(TokenType::CloseParen)
        } else if ch == '{' {
            self.simple_token(TokenType::OpenBrace)
        } else if ch == '}' {
            self.simple_token(TokenType::CloseBrace)
        } else if ch == '#' {
            if self.is_next_char_match('#') {
                self.current = self.current + 1;
                self.simple_token(TokenType::FpsEnd)
            } else {
                let digits = self.consume_digits();
                proof {
                    lemma_digits_end(s, i + 1);
                }
                if digits.len() == 0 {
                    self.create_token(TokenType::Fps, self.lexeme(), Some(LiteralValue::Fps(1)))
                } else {
                    match bounded_digits_value(&digits, usize::MAX as u64) {
                        Some(n) => self.create_token(TokenType::Fps, self.lexeme(), Some(LiteralValue::Fps(n as usize))),
                        None => return Err(LexerError::NumberOutOfRange(self.line)),
                    }
                }
            }
        } else if ch == '=' {
            self.operator('=', TokenType::EqualEqual, TokenType::Equal)
        } else if ch == '!' {
            self.operator('=', TokenType::BangEqual, TokenType::Bang)
        } else if ch == '>' {
            self.operator('=', TokenType::GreaterEqual, TokenType::Greater)
        } else if ch == '<' {
            self.operator('=', TokenType::LessEqual, TokenType::Less)
        } else if ch == '&' && self.is_next_char_match('&') {
            self.current = self.current + 1;
            self.simple_token(TokenType::And)
        } else if ch == '|' && self.is_next_char_match('|') {
            self.current = self.current + 1;
            self.simple_token(TokenType::Or)
        } else if ch == '"' {
            let stops = vec!['"'];
            assert(stops@ =~= seq!['"']);
            let text = match self.consume_until(stops) {
                Ok(t) => t,
                Err(e) => return Err(e),
            };
            self.current = self.current + 1;
            let value = text.clone();
            self.create_token(TokenType::StringLiteral, text, Some(LiteralValue::StringValue(value)))
        } else {
            proof {
                assert(lex_at(s, i) == if is_digit(ch) {
                    lex_number(s, i)
                } else if alphabetic(ch) {
                    lex_word(s, i)
                } else {
                    Lexed::Fail
                });
            }
            match self.match_default(ch) {
                Ok(t) => t,
                Err(e) => return Err(e),
            }
        };
        Ok(token)
    }

    /// Scans a number, a range, an identifier or a keyword that starts
    /// with `ch`, which was just consumed.
    fn match_default(&mut self, ch: char) -> (r: Result<Token, LexerError>)
        requires
            old(self).wf(),
            old(self).current == old(self).start + 1,
            ch == old(self).input@[old(self).start as int],
        ensures
            final(self).wf(),
            final(self).input == old(self).input,
            final(self).tokens == old(self).tokens,
            final(self).start == old(self).start,
            final(self).line == old(self).line,
            final(self).current >= old(self).current,
            ({
                let l = if is_digit(ch) {
                    lex_number(old(self).input@, old(self).start as int)
                } else if alphabetic(ch) {
                    lex_word(old(self).input@, old(self).start as int)
                } else {
                    Lexed::Fail
                };
                &&& l is Found || l is Fail
                &&& l is Fail ==> r is Err
                &&& l is Found ==> (r matches Ok(t) && found(l, t, old(self).line, final(self).current as int))
            }),
    {
        let ghost s = self.input@;
        let ghost i = self.start as int;
        if '0' <= ch && ch <= '9' {
            let mut whole: Vec<char> = vec![ch];
            let rest = self.consume_digits();
            let ghost k = self.current as int;
            proof {
                lemma_digits_end(s, i + 1);
            }
            let mut m: usize = 0;
            while m < rest.len()
                invariant
                    m <= rest.len(),
                    whole@ == seq![ch] + rest@.subrange(0, m as int),
                    is_digit(ch),
                    forall|j: int| 0 <= j < rest@.len() ==> is_digit(#[trigger] rest@[j]),
                decreases rest.len() - m,
            {
                whole.push(rest[m]);
                m = m + 1;
                assert(whole@ =~= seq![ch] + rest@.subrange(0, m as int));
            }
            assert(rest@.subrange(0, rest@.len() as int) =~= rest@);
            assert(whole@ =~= s.subrange(i, k));
            assert forall|j: int| 0 <= j < whole@.len() implies is_digit(whole@[j]) by {
                if j > 0 {
                    assert(whole@[j] == rest@[j - 1]);
                }
            }
            let dots = self.current < self.input.len() && self.input.len() - self.current >= 2 && self.input[self.current] == '.'
                && self.input[self.current + 1] == '.';
            if dots {
                self.current = self.current + 2;
                let inclusive = self.is_next_char_match('=');
                if inclusive {
                    self.current = self.current + 1;
                }
                let ghost u = self.current as int;
                let upper = self.consume_digits();
                proof {
                    lemma_digits_end(s, u);
                }
                if upper.len() == 0 {
                    return Err(LexerError::Range(self.line));
                }
                let a = match bounded_digits_value(&whole, 4294967295) {
                    Some(a) => a,
                    None => return Err(LexerError::NumberOutOfRange(self.line)),
                };
                let b = match bounded_digits_value(&upper, 4294967295) {
                    Some(b) => b,
                    None => return Err(LexerError::NumberOutOfRange(self.line)),
                };
                let kind = if inclusive { TokenType::RangeEqual } else { TokenType::Range };
                Ok(self.create_token(kind, self.lexeme(), Some(LiteralValue::Bounds(a as usize, b as usize))))
            } else {
                let dotted = self.is_next_char_match('.');
                let frac = if dotted {
                    self.current = self.current + 1;
                    let f = self.consume_digits();
                    proof {
                        lemma_digits_end(s, k + 1);
                    }
                    f
                } else {
                    assert(s.subrange(k, k) =~= Seq::<char>::empty());
                    Vec::new()
                };
                match decimal_number(&whole, &frac) {
                    Some(n) => Ok(self.create_token(TokenType::Number, self.lexeme(), Some(LiteralValue::Number(n)))),
                    None => Err(LexerError::NumberOutOfRange(self.line)),
                }
            }
        } else if is_alphabetic(ch) {
            self.consume_identifier();
            proof {
                lemma_word_end(s, i + 1);
            }
            let text = self.slice_chars(self.start, self.current);
            let id = self.lexeme();
            let name = id.clone();
            match keyword_type(&text) {
                Some(kind) => Ok(self.create_token(kind, id, Some(LiteralValue::Keyword(name)))),
                None => Ok(self.create_token(TokenType::Identifer, id, Some(LiteralValue::Identifier(name)))),
            }
        } else {
            Err(LexerError::UnrecognizedChar(ch, self.line))
        }
    }

    pub closed spec fn line_no(&self) -> int {
        self.line as int
    }

    /// Scans the rest of the input by the lexical grammar (`scan_from`),
    /// appending its tokens and then an end-of-input token; fails exactly
    /// when something in the input does not scan.
    pub fn scan_tokens(&mut self) -> (r: Result<(), LexerError>)
        requires
            old(self).wf(),
        ensures
            final(self).wf(),
            final(self).text() == old(self).text(),
            scan_from(old(self).text(), old(self).position(), old(self).line_no()) is None ==> r is Err,
            scan_from(old(self).text(), old(self).position(), old(self).line_no()) matches Some(shapes) ==> {
                let n0 = old(self).scanned().len();
                &&& r is Ok
                &&& final(self).scanned().len() == n0 + shapes.len() + 1
                &&& final(self).scanned().subrange(0, n0 as int) == old(self).scanned()
                &&& forall|k: int| 0 <= k < shapes.len() ==> shape_of(#[trigger] final(self).scanned()[n0 + k], shapes[k])
                &&& final(self).scanned().last().token_type == TokenType::Eof
                &&& final(self).scanned().last().pos == old(self).text().len()
            },
    {
        let ghost n0 = self.tokens@.len();
        let ghost s = self.input@;
        let ghost full = scan_from(s, self.current as int, self.line as int);
        let ghost mut done: Seq<Shape> = Seq::empty();
        while self.current < self.input.len()
            invariant
                self.wf(),
                self.input@ == s,
                s == old(self).input@,
                n0 == old(self).tokens@.len(),
                full == scan_from(old(self).input@, old(self).current as int, old(self).line as int),
                self.tokens@.len() == n0 + done.len(),
                self.tokens@.subrange(0, n0 as int) == old(self).tokens@,
                forall|k: int| 0 <= k < done.len() ==> shape_of(#[trigger] self.tokens@[n0 + k], done[k]),
                full == match scan_from(s, self.current as int, self.line as int) {
                    Some(rest) => Some(done + rest),
                    None => None::<Seq<Shape>>,
                },
            decreases self.input.len() - self.current,
        {
            self.start = self.current;
            let ghost i = self.current as int;
            let ghost line0 = self.line as int;
            let token = match self.tokenzine() {
                Ok(t) => t,
                Err(e) => {
                    return Err(e);
                },
            };
            if token.token_type == TokenType::Whitespace {
                assert(lex_at(s, i) is Space);
            } else if token.token_type == TokenType::Eol {
                assert(lex_at(s, i) is Newline);
                if self.line < usize::MAX {
                    self.line = self.line + 1;
                }
            } else {
                let ghost l = lex_at(s, i);
                assert(l is Found);
                let ghost sh = Shape { kind: l->kind, text: l->text, meaning: l->meaning, line: line0, pos: l->Found_next };
                let ghost before = self.tokens@;
                let ghost old_done = done;
                self.tokens.push(token);
                proof {
                    done = done.push(sh);
                    assert(self.tokens@.subrange(0, n0 as int) =~= before.subrange(0, n0 as int));
                    assert forall|k: int| 0 <= k < done.len() implies shape_of(#[trigger] self.tokens@[n0 + k], done[k]) by {
                        if k < old_done.len() {
                            assert(self.tokens@[n0 + k] == before[n0 + k]);
                        }
                    }
                    let rest = scan_from(s, l->Found_next, line0);
                    if rest is Some {
                        assert(old_done + (seq![sh] + rest->0) =~= done + rest->0);
                    }
                }
            }
        }
        proof {
            if full is Some {
                assert(done + Seq::<Shape>::empty() =~= done);
            }
        }
        let ghost before = self.tokens@;
        let eof = self.create_token(TokenType::Eof, String::new(), None);
        self.tokens.push(eof);
        proof {
            assert(self.tokens@.subrange(0, n0 as int) =~= before.subrange(0, n0 as int));
            assert forall|k: int| 0 <= k < done.len() implies shape_of(#[trigger] self.tokens@[n0 + k], done[k]) by {
                assert(self.tokens@[n0 + k] == before[n0 + k]);
            }
        }
        Ok(())
    }

    /// Consumes the rest of an identifier.
    fn consume_identifier(&mut self)
        requires
            old(self).wf(),
        ensures
            final(self).wf(),
            final(self).input == old(self).input,
            final(self).tokens == old(self).tokens,
            final(self).start == old(self).start,
            final(self).line == old(self).line,
            final(self).current >= old(self).current,
            final(self).current == word_end(old(self).input@, old(self).current as int),
    {
        while self.current < self.input.len() && is_alphanumeric(self.input[self.current])
            invariant
                self.wf(),
                self.input == old(self).input,
                self.tokens == old(self).tokens,
                self.start == old(self).start,
                self.line == old(self).line,
                self.current >= old(self).current,
                word_end(self.input@, old(self).current as int) == word_end(self.input@, self.current as int),
            decreases self.input.len() - self.current,
        {
            self.current = self.current + 1;
        }
    }
}

} // verus!
