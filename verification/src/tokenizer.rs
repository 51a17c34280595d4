//! The tokenizer: turns source text into a sequence of spanned tokens.
//!
//! Matching is longest-first; at equal length a float literal beats an
//! integer literal, which beats a bare key, and the keywords `null`, `true`
//! and `false` beat a key only when they are not a prefix of a longer word.
//! Spaces, tabs and `#`-to-end-of-line comments are discarded; a newline is
//! a token of its own, since it separates values. Tokenization halts at the
//! first unrecognized character, unterminated or malformed literal.

use vstd::prelude::*;
use vstd::string::StringExecFns;

use crate::utils::decode_escapes;
use crate::utils::is_digit;
use crate::utils::spec_decode;
use crate::utils::string_from_chars;
use crate::make_err;
use crate::ErrorReason;
use crate::ParseError;
use crate::Span;
use crate::SpecError;

verus! {

/// A lexical unit of MAML source text. A float is kept as its lexeme.
#[derive(Debug, Clone, PartialEq)]
pub enum Token {
    Null,
    True,
    False,
    Float(String),
    Int(i64),
    String(String),
    RawString(String),
    Key(String),
    LBracket,
    RBracket,
    LBrace,
    RBrace,
    Colon,
    Comma,
    Newline,
}

/// Mathematical model of a [`Token`].
#[verifier::ext_equal]
pub enum SpecToken {
    Null,
    True,
    False,
    Float(Seq<char>),
    Int(int),
    Str(Seq<char>),
    RawStr(Seq<char>),
    Key(Seq<char>),
    LBracket,
    RBracket,
    LBrace,
    RBrace,
    Colon,
    Comma,
    Newline,
}

impl View for Token {
    type V = SpecToken;

    open spec fn view(&self) -> SpecToken {
        match self {
            Token::Null => SpecToken::Null,
            Token::True => SpecToken::True,
            Token::False => SpecToken::False,
            Token::Float(s) => SpecToken::Float(s@),
            Token::Int(n) => SpecToken::Int(*n as int),
            Token::String(s) => SpecToken::Str(s@),
            Token::RawString(s) => SpecToken::RawStr(s@),
            Token::Key(s) => SpecToken::Key(s@),
            Token::LBracket => SpecToken::LBracket,
            Token::RBracket => SpecToken::RBracket,
            Token::LBrace => SpecToken::LBrace,
            Token::RBrace => SpecToken::RBrace,
            Token::Colon => SpecToken::Colon,
            Token::Comma => SpecToken::Comma,
            Token::Newline => SpecToken::Newline,
        }
    }
}

/// A token together with the character span it came from.
#[verifier::ext_equal]
pub struct SpannedTok {
    pub tok: SpecToken,
    pub start: int,
    pub end: int,
}

/// Model of a materialized token list.
pub open spec fn toks_view(v: Seq<(Token, Span)>) -> Seq<SpannedTok> {
    Seq::new(
        v.len(),
        |i: int|
            SpannedTok {
                tok: v[i].0@,
                start: v[i].1.start as int,
                end: v[i].1.end as int,
            },
    )
}

/// `x` clamped into `[lo, hi]` (used to state scan progress syntactically,
/// so that termination of the scan is immediate).
pub open spec fn step_idx(x: int, lo: int, hi: int) -> int {
    if x < lo {
        lo
    } else if x > hi {
        hi
    } else {
        x
    }
}

// --- character classes and scans ---
pub open spec fn is_word_start(c: char) -> bool {
    ('a' <= c && c <= 'z') || ('A' <= c && c <= 'Z') || c == '_' || c == '-'
}

pub open spec fn is_word_char(c: char) -> bool {
    is_word_start(c) || is_digit(c)
}

pub open spec fn is_control(c: char) -> bool {
    (c as u32) < 0x20
}

/// First index at or after `j` that does not hold a word character.
pub open spec fn word_end(s: Seq<char>, j: int) -> int
    decreases s.len() - j,
{
    if j < 0 || j >= s.len() || !is_word_char(s[j]) {
        j
    } else {
        word_end(s, j + 1)
    }
}

/// First index at or after `j` that does not hold a decimal digit.
pub open spec fn digit_end(s: Seq<char>, j: int) -> int
    decreases s.len() - j,
{
    if j < 0 || j >= s.len() || !is_digit(s[j]) {
        j
    } else {
        digit_end(s, j + 1)
    }
}

/// First index at or after `j` that holds a newline, or the end of input.
pub open spec fn line_end(s: Seq<char>, j: int) -> int
    decreases s.len() - j,
{
    if j < 0 || j >= s.len() || s[j] == '\n' {
        j
    } else {
        line_end(s, j + 1)
    }
}

/// Outcome of scanning a quoted string body from inside the quotes.
pub enum QScan {
    /// Index of the closing quote.
    Close(int),
    /// Index of an unescaped control character.
    Ctrl(int),
    /// No closing quote before the end of input.
    NoClose,
}

/// Scan a quoted string body from `j` for the closing quote, skipping over
/// escape pairs.
pub open spec fn quote_scan(s: Seq<char>, j: int) -> QScan
    decreases s.len() - j,
{
    if j < 0 || j >= s.len() {
        QScan::NoClose
    } else if s[j] == '"' {
        QScan::Close(j)
    } else if is_control(s[j]) {
        QScan::Ctrl(j)
    } else if s[j] == '\\' {
        if j + 1 >= s.len() {
            QScan::NoClose
        } else {
            quote_scan(s, j + 2)
        }
    } else {
        quote_scan(s, j + 1)
    }
}

/// First index at or after `j` where `"""` occurs, or -1 if there is none.
pub open spec fn triple_end(s: Seq<char>, j: int) -> int
    decreases s.len() - j,
{
    if j < 0 || j + 3 > s.len() {
        -1
    } else if s[j] == '"' && s[j + 1] == '"' && s[j + 2] == '"' {
        j
    } else {
        triple_end(s, j + 1)
    }
}

/// A raw string drops one leading line terminator, so the opening `"""` can
/// sit alone on its own line.
pub open spec fn strip_lead_nl(c: Seq<char>) -> Seq<char> {
    if c.len() >= 1 && c[0] == '\n' {
        c.subrange(1, c.len() as int)
    } else if c.len() >= 2 && c[0] == '\r' && c[1] == '\n' {
        c.subrange(2, c.len() as int)
    } else {
        c
    }
}

/// End of an exponent part (`[eE][+-]?digits`) starting at `p`, or `p`
/// itself if no complete exponent starts there.
pub open spec fn exp_end(s: Seq<char>, p: int) -> int {
    if 0 <= p < s.len() && (s[p] == 'e' || s[p] == 'E') {
        let q = if p + 1 < s.len() && (s[p + 1] == '+' || s[p + 1] == '-') {
            p + 2
        } else {
            p + 1
        };
        if q < s.len() && is_digit(s[q]) {
            digit_end(s, q)
        } else {
            p
        }
    } else {
        p
    }
}

/// Outcome of matching a numeric literal at one position.
pub enum NumScan {
    /// No number starts here.
    NoNum,
    /// An integer literal ends (exclusively) here.
    IntTo(int),
    /// A float literal (fraction and/or exponent) ends here.
    FloatTo(int),
}

/// Longest match of `-?(0|[1-9][0-9]*)` with an optional fraction and/or
/// exponent at `i`; a fraction needs at least one digit after the dot, and
/// only a complete exponent is taken.
pub open spec fn num_scan(s: Seq<char>, i: int) -> NumScan {
    let j = if 0 <= i < s.len() && s[i] == '-' {
        i + 1
    } else {
        i
    };
    if j >= s.len() || !is_digit(s[j]) {
        NumScan::NoNum
    } else {
        let k = if s[j] == '0' {
            j + 1
        } else {
            digit_end(s, j)
        };
        if k + 1 < s.len() && s[k] == '.' && is_digit(s[k + 1]) {
            NumScan::FloatTo(exp_end(s, digit_end(s, k + 1)))
        } else {
            let e = exp_end(s, k);
            if e > k {
                NumScan::FloatTo(e)
            } else {
                NumScan::IntTo(k)
            }
        }
    }
}

/// Value of the decimal digits `s[i..e]`, most significant first.
pub open spec fn dec_val(s: Seq<char>, i: int, e: int) -> nat
    decreases e - i,
{
    if i >= e {
        0
    } else {
        dec_val(s, i, e - 1) * 10 + (s[e - 1] as u32 - '0' as u32) as nat
    }
}

pub open spec fn is_kw(w: Seq<char>, a: char, b: char, c: char, d: char) -> bool {
    w.len() == 4 && w[0] == a && w[1] == b && w[2] == c && w[3] == d
}

/// The token a bare word denotes: one of the three keywords, or a key.
pub open spec fn word_token(w: Seq<char>) -> SpecToken {
    if is_kw(w, 'n', 'u', 'l', 'l') {
        SpecToken::Null
    } else if is_kw(w, 't', 'r', 'u', 'e') {
        SpecToken::True
    } else if w.len() == 5 && w[0] == 'f' && w[1] == 'a' && w[2] == 'l' && w[3] == 's' && w[4]
        == 'e' {
        SpecToken::False
    } else {
        SpecToken::Key(w)
    }
}

/// Outcome of scanning one token.
pub enum TScan {
    /// The token and the index just past it.
    Tok(SpecToken, int),
    /// A lexer error.
    ErrAt(SpecError),
}

pub open spec fn lex_err(reason: ErrorReason, start: int, end: int, msg: Seq<char>) -> TScan {
    TScan::ErrAt(SpecError { start, end, reason, msg })
}

/// The token starting at position `i`, which must hold neither whitespace
/// nor a comment.
pub open spec fn spec_token_at(s: Seq<char>, i: int) -> TScan {
    let c = s[i];
    if c == '\n' {
        TScan::Tok(SpecToken::Newline, i + 1)
    } else if c == '[' {
        TScan::Tok(SpecToken::LBracket, i + 1)
    } else if c == ']' {
        TScan::Tok(SpecToken::RBracket, i + 1)
    } else if c == '{' {
        TScan::Tok(SpecToken::LBrace, i + 1)
    } else if c == '}' {
        TScan::Tok(SpecToken::RBrace, i + 1)
    } else if c == ':' {
        TScan::Tok(SpecToken::Colon, i + 1)
    } else if c == ',' {
        TScan::Tok(SpecToken::Comma, i + 1)
    } else if c == '"' {
        if i + 2 < s.len() && s[i + 1] == '"' && s[i + 2] == '"' {
            let k = triple_end(s, i + 3);
            if k < 0 {
                lex_err(
                    ErrorReason::UnterminatedLiteral,
                    i,
                    s.len() as int,
                    "unterminated raw string"@,
                )
            } else {
                TScan::Tok(SpecToken::RawStr(strip_lead_nl(s.subrange(i + 3, k))), k + 3)
            }
        } else {
            match quote_scan(s, i + 1) {
                QScan::Close(q) => match spec_decode(s.subrange(i + 1, q), 0, Seq::empty()) {
                    Some(t) => TScan::Tok(SpecToken::Str(t), q + 1),
                    None => lex_err(
                        ErrorReason::MalformedEscape,
                        i,
                        q + 1,
                        "malformed escape sequence in string"@,
                    ),
                },
                QScan::Ctrl(p) => lex_err(
                    ErrorReason::Unexpected,
                    p,
                    p + 1,
                    "unescaped control character in string"@,
                ),
                QScan::NoClose => lex_err(
                    ErrorReason::UnterminatedLiteral,
                    i,
                    s.len() as int,
                    "unterminated string"@,
                ),
            }
        }
    } else if is_digit(c) || is_word_start(c) {
        let wl = if is_word_start(c) {
            word_end(s, i) - i
        } else {
            digit_end(s, i) - i
        };
        match num_scan(s, i) {
            NumScan::FloatTo(e) => {
                if wl > e - i {
                    TScan::Tok(SpecToken::Key(s.subrange(i, i + wl)), i + wl)
                } else {
                    TScan::Tok(SpecToken::Float(s.subrange(i, e)), e)
                }
            },
            NumScan::IntTo(k) => {
                if wl > k - i {
                    TScan::Tok(SpecToken::Key(s.subrange(i, i + wl)), i + wl)
                } else {
                    let neg = s[i] == '-';
                    let mag = dec_val(s, if neg { i + 1 } else { i }, k);
                    let bound: int = if neg { 0x8000000000000000 } else { 0x7fffffffffffffff };
                    if mag > bound {
                        lex_err(
                            ErrorReason::IntegerOverflow,
                            i,
                            k,
                            "integer literal out of 64-bit range"@,
                        )
                    } else {
                        TScan::Tok(
                            SpecToken::Int(if neg { -(mag as int) } else { mag as int }),
                            k,
                        )
                    }
                }
            },
            NumScan::NoNum => TScan::Tok(word_token(s.subrange(i, i + wl)), i + wl),
        }
    } else {
        lex_err(ErrorReason::Unexpected, i, i + 1, "unrecognized character"@)
    }
}

/// Tokenization of `s[i..]` onto the already-produced tokens `acc`: the
/// ordered token list, or the first lexer error.
pub open spec fn spec_lex(s: Seq<char>, i: int, acc: Seq<SpannedTok>) -> Result<
    Seq<SpannedTok>,
    SpecError,
>
    decreases s.len() - i,
{
    if i < 0 || i >= s.len() {
        Ok(acc)
    } else if s[i] == ' ' || s[i] == '\t' {
        spec_lex(s, i + 1, acc)
    } else if s[i] == '#' {
        spec_lex(s, step_idx(line_end(s, i), i + 1, s.len() as int), acc)
    } else {
        match spec_token_at(s, i) {
            TScan::Tok(t, e) => spec_lex(
                s,
                step_idx(e, i + 1, s.len() as int),
                acc.push(SpannedTok { tok: t, start: i, end: e }),
            ),
            TScan::ErrAt(err) => Err(err),
        }
    }
}

/// The tokenization of a whole text.
pub open spec fn spec_tokenize(s: Seq<char>) -> Result<Seq<SpannedTok>, SpecError> {
    spec_lex(s, 0, Seq::empty())
}


// --- exec character classes ---
fn is_digit_x(c: char) -> (b: bool)
    ensures
        b == is_digit(c),
{
    '0' <= c && c <= '9'
}

fn is_word_start_x(c: char) -> (b: bool)
    ensures
        b == is_word_start(c),
{
    ('a' <= c && c <= 'z') || ('A' <= c && c <= 'Z') || c == '_' || c == '-'
}

fn is_word_char_x(c: char) -> (b: bool)
    ensures
        b == is_word_char(c),
{
    is_word_start_x(c) || is_digit_x(c)
}

// --- scan-end characterization lemmas ---
proof fn lemma_word_end_is(s: Seq<char>, j: int, e: int)
    requires
        0 <= j <= e <= s.len(),
        forall|k: int| j <= k < e ==> is_word_char(s[k]),
        e == s.len() || !is_word_char(s[e]),
    ensures
        word_end(s, j) == e,
    decreases e - j,
{
    if j < e {
        lemma_word_end_is(s, j + 1, e);
    }
}

proof fn lemma_digit_end_is(s: Seq<char>, j: int, e: int)
    requires
        0 <= j <= e <= s.len(),
        forall|k: int| j <= k < e ==> is_digit(s[k]),
        e == s.len() || !is_digit(s[e]),
    ensures
        digit_end(s, j) == e,
    decreases e - j,
{
    if j < e {
        lemma_digit_end_is(s, j + 1, e);
    }
}

proof fn lemma_line_end_is(s: Seq<char>, j: int, e: int)
    requires
        0 <= j <= e <= s.len(),
        forall|k: int| j <= k < e ==> s[k] != '\n',
        e == s.len() || s[e] == '\n',
    ensures
        line_end(s, j) == e,
    decreases e - j,
{
    if j < e {
        lemma_line_end_is(s, j + 1, e);
    }
}

// --- exec scans ---
fn scan_word_end(v: &Vec<char>, j: usize) -> (e: usize)
    requires
        j <= v@.len(),
    ensures
        j <= e <= v@.len(),
        e == word_end(v@, j as int),
        forall|k: int| j <= k < e ==> is_word_char(v@[k]),
        j < v@.len() && is_word_char(v@[j as int]) ==> e > j,
{
    let n: usize = v.len();
    let mut e: usize = j;
    while e < n && is_word_char_x(v[e])
        invariant
            j <= e <= n,
            n == v@.len(),
            forall|k: int| j <= k < e ==> is_word_char(v@[k]),
        decreases n - e,
    {
        e = e + 1;
    }
    proof {
        lemma_word_end_is(v@, j as int, e as int);
    }
    e
}

fn scan_digit_end(v: &Vec<char>, j: usize) -> (e: usize)
    requires
        j <= v@.len(),
    ensures
        j <= e <= v@.len(),
        e == digit_end(v@, j as int),
        forall|k: int| j <= k < e ==> is_digit(v@[k]),
        j < v@.len() && is_digit(v@[j as int]) ==> e > j,
{
    let n: usize = v.len();
    let mut e: usize = j;
    while e < n && is_digit_x(v[e])
        invariant
            j <= e <= n,
            n == v@.len(),
            forall|k: int| j <= k < e ==> is_digit(v@[k]),
        decreases n - e,
    {
        e = e + 1;
    }
    proof {
        lemma_digit_end_is(v@, j as int, e as int);
    }
    e
}

fn scan_line_end(v: &Vec<char>, j: usize) -> (e: usize)
    requires
        j <= v@.len(),
    ensures
        j <= e <= v@.len(),
        e == line_end(v@, j as int),
{
    let n: usize = v.len();
    let mut e: usize = j;
    while e < n && v[e] != '\n'
        invariant
            j <= e <= n,
            n == v@.len(),
            forall|k: int| j <= k < e ==> v@[k] != '\n',
        decreases n - e,
    {
        e = e + 1;
    }
    proof {
        lemma_line_end_is(v@, j as int, e as int);
    }
    e
}

/// Exec mirror of [`exp_end`].
fn scan_exp_end(v: &Vec<char>, p: usize) -> (e: usize)
    requires
        p <= v@.len(),
    ensures
        p <= e <= v@.len(),
        e == exp_end(v@, p as int),
{
    let n: usize = v.len();
    if p < n && (v[p] == 'e' || v[p] == 'E') {
        let q: usize = if p + 1 < n && (v[p + 1] == '+' || v[p + 1] == '-') {
            p + 2
        } else {
            p + 1
        };
        if q < n && is_digit_x(v[q]) {
            scan_digit_end(v, q)
        } else {
            p
        }
    } else {
        p
    }
}

/// Exec outcome of [`quote_scan`].
enum QuoteScan {
    Close(usize),
    Ctrl(usize),
    NoClose,
}

fn scan_quote(v: &Vec<char>, j: usize) -> (r: QuoteScan)
    requires
        j <= v@.len(),
    ensures
        match r {
            QuoteScan::Close(q) => quote_scan(v@, j as int) == QScan::Close(q as int) && j <= q
                < v@.len(),
            QuoteScan::Ctrl(p) => quote_scan(v@, j as int) == QScan::Ctrl(p as int) && j <= p
                < v@.len(),
            QuoteScan::NoClose => quote_scan(v@, j as int) == QScan::NoClose,
        },
{
    let n: usize = v.len();
    let mut cur: usize = j;
    loop
        invariant
            j <= cur <= n,
            n == v@.len(),
            quote_scan(v@, j as int) == quote_scan(v@, cur as int),
        decreases n - cur,
    {
        if cur >= n {
            return QuoteScan::NoClose;
        }
        let c = v[cur];
        if c == '"' {
            return QuoteScan::Close(cur);
        }
        if (c as u32) < 0x20 {
            return QuoteScan::Ctrl(cur);
        }
        if c == '\\' {
            if cur + 1 >= n {
                return QuoteScan::NoClose;
            }
            cur = cur + 2;
        } else {
            cur = cur + 1;
        }
    }
}

fn scan_triple(v: &Vec<char>, j: usize) -> (r: Option<usize>)
    requires
        j <= v@.len(),
    ensures
        match r {
            Some(k) => triple_end(v@, j as int) == k as int && j <= k && k + 3 <= v@.len(),
            None => triple_end(v@, j as int) == -1,
        },
{
    let n: usize = v.len();
    let mut cur: usize = j;
    loop
        invariant
            j <= cur <= n,
            n == v@.len(),
            triple_end(v@, j as int) == triple_end(v@, cur as int),
        decreases n - cur,
    {
        if n - cur < 3 {
            return None;
        }
        if v[cur] == '"' && v[cur + 1] == '"' && v[cur + 2] == '"' {
            return Some(cur);
        }
        cur = cur + 1;
    }
}

/// Copy `v[a..b]` into a fresh vector.
fn copy_range(v: &Vec<char>, a: usize, b: usize) -> (r: Vec<char>)
    requires
        a <= b <= v@.len(),
    ensures
        r@ == v@.subrange(a as int, b as int),
{
    let mut r: Vec<char> = Vec::new();
    let mut k: usize = a;
    while k < b
        invariant
            a <= k <= b <= v@.len(),
            r@ == v@.subrange(a as int, k as int),
        decreases b - k,
    {
        r.push(v[k]);
        proof {
            assert(r@ =~= v@.subrange(a as int, k + 1));
        }
        k = k + 1;
    }
    r
}

/// Relation between the digit magnitude scanned so far and the whole
/// literal: more digits never shrink the value.
proof fn lemma_dec_val_monotone(s: Seq<char>, i: int, j: int, e: int)
    requires
        i <= j <= e,
    ensures
        dec_val(s, i, e) >= dec_val(s, i, j),
    decreases e - j,
{
    if j < e {
        lemma_dec_val_monotone(s, i, j, e - 1);
        assert(dec_val(s, i, e) == dec_val(s, i, e - 1) * 10 + (s[e - 1] as u32
            - '0' as u32) as nat);
        assert(dec_val(s, i, e - 1) * 10 >= dec_val(s, i, e - 1)) by (nonlinear_arith);
    }
}

/// Scan one token starting at `i`, which holds neither whitespace, a
/// comment, nor a newline-free skip character.
fn scan_token(v: &Vec<char>, i: usize) -> (r: Result<(Token, usize), ParseError>)
    requires
        i < v@.len(),
        v@[i as int] != ' ' && v@[i as int] != '\t' && v@[i as int] != '#',
    ensures
        match r {
            Ok((t, e)) => spec_token_at(v@, i as int) == TScan::Tok(t@, e as int) && i < e
                <= v@.len(),
            Err(pe) => spec_token_at(v@, i as int) == TScan::ErrAt(pe@) && 0 <= pe@.start
                <= pe@.end <= v@.len(),
        },
{
    let n: usize = v.len();
    let c = v[i];
    if c == '\n' {
        Ok((Token::Newline, i + 1))
    } else if c == '[' {
        Ok((Token::LBracket, i + 1))
    } else if c == ']' {
        Ok((Token::RBracket, i + 1))
    } else if c == '{' {
        Ok((Token::LBrace, i + 1))
    } else if c == '}' {
        Ok((Token::RBrace, i + 1))
    } else if c == ':' {
        Ok((Token::Colon, i + 1))
    } else if c == ',' {
        Ok((Token::Comma, i + 1))
    } else if c == '"' {
        if n - i > 2 && v[i + 1] == '"' && v[i + 2] == '"' {
            match scan_triple(v, i + 3) {
                None => Err(
                    make_err(ErrorReason::UnterminatedLiteral, i, n, "unterminated raw string"),
                ),
                Some(k) => {
                    let cstart: usize = if k > i + 3 && v[i + 3] == '\n' {
                        i + 4
                    } else if k > i + 4 && v[i + 3] == '\r' && v[i + 4] == '\n' {
                        i + 5
                    } else {
                        i + 3
                    };
                    let content = copy_range(v, cstart, k);
                    proof {
                        assert(content@ =~= strip_lead_nl(v@.subrange(i + 3, k as int)));
                    }
                    Ok((Token::RawString(string_from_chars(&content)), k + 3))
                },
            }
        } else {
            match scan_quote(v, i + 1) {
                QuoteScan::Close(q) => {
                    let content = copy_range(v, i + 1, q);
                    match decode_escapes(&content) {
                        Some(out) => Ok((Token::String(string_from_chars(&out)), q + 1)),
                        None => Err(
                            make_err(
                                ErrorReason::MalformedEscape,
                                i,
                                q + 1,
                                "malformed escape sequence in string",
                            ),
                        ),
                    }
                },
                QuoteScan::Ctrl(p) => Err(
                    make_err(
                        ErrorReason::Unexpected,
                        p,
                        p + 1,
                        "unescaped control character in string",
                    ),
                ),
                QuoteScan::NoClose => Err(
                    make_err(ErrorReason::UnterminatedLiteral, i, n, "unterminated string"),
                ),
            }
        }
    } else if is_digit_x(c) || is_word_start_x(c) {
        let we: usize = if is_word_start_x(c) {
            scan_word_end(v, i)
        } else {
            scan_digit_end(v, i)
        };
        let wl: usize = we - i;
        // longest numeric match
        let neg = c == '-';
        let j: usize = if neg {
            i + 1
        } else {
            i
        };
        let has_num = j < n && is_digit_x(v[j]);
        if !has_num {
            // a bare word (possibly a keyword)
            word_or_keyword(v, i, we)
        } else {
            let k: usize = if v[j] == '0' {
                j + 1
            } else {
                scan_digit_end(v, j)
            };
            let mut is_float = false;
            let mut e: usize = k;
            if n - k > 1 && v[k] == '.' && is_digit_x(v[k + 1]) {
                let f = scan_digit_end(v, k + 1);
                e = scan_exp_end(v, f);
                is_float = true;
            } else {
                let ex = scan_exp_end(v, k);
                if ex > k {
                    e = ex;
                    is_float = true;
                }
            }
            if is_float {
                if wl > e - i {
                    word_or_keyword(v, i, we)
                } else {
                    let lexeme = copy_range(v, i, e);
                    Ok((Token::Float(string_from_chars(&lexeme)), e))
                }
            } else {
                if wl > k - i {
                    word_or_keyword(v, i, we)
                } else {
                    // decimal magnitude, with early overflow detection
                    let bound: u64 = if neg {
                        0x8000000000000000
                    } else {
                        0x7fffffffffffffff
                    };
                    let mut mag: u64 = 0;
                    let mut big = false;
                    let mut d: usize = j;
                    while d < k
                        invariant
                            j <= d <= k <= n,
                            n == v@.len(),
                            bound == 0x8000000000000000 || bound == 0x7fffffffffffffff,
                            forall|x: int| j <= x < k ==> is_digit(v@[x]),
                            !big ==> mag == dec_val(v@, j as int, d as int) && mag <= bound,
                            big ==> dec_val(v@, j as int, d as int) > bound,
                        decreases k - d,
                    {
                        proof {
                            assert(is_digit(v@[d as int]));
                        }
                        let dig: u64 = (v[d] as u32 - '0' as u32) as u64;
                        proof {
                            assert(dig <= 9);
                            assert(dig <= bound);
                            assert(dec_val(v@, j as int, d + 1) == dec_val(v@, j as int, d as int)
                                * 10 + dig);
                        }
                        if !big {
                            if mag > (bound - dig) / 10 {
                                big = true;
                                proof {
                                    assert(mag * 10 >= ((bound - dig) / 10 + 1) * 10)
                                        by (nonlinear_arith)
                                        requires
                                            mag >= (bound - dig) / 10 + 1,
                                    ;
                                    assert(((bound - dig) / 10) * 10 + 10 > (bound - dig) as int);
                                    assert(dec_val(v@, j as int, d + 1) > bound);
                                }
                            } else {
                                proof {
                                    assert(mag * 10 <= ((bound - dig) / 10) * 10)
                                        by (nonlinear_arith)
                                        requires
                                            mag <= (bound - dig) / 10,
                                    ;
                                    assert(((bound - dig) / 10) * 10 <= (bound - dig) as int);
                                }
                                mag = mag * 10 + dig;
                            }
                        } else {
                            proof {
                                lemma_dec_val_monotone(v@, j as int, d as int, d + 1);
                            }
                        }
                        d = d + 1;
                    }
                    if big || mag > bound {
                        proof {
                            lemma_dec_val_monotone(v@, j as int, d as int, k as int);
                        }
                        Err(
                            make_err(
                                ErrorReason::IntegerOverflow,
                                i,
                                k,
                                "integer literal out of 64-bit range",
                            ),
                        )
                    } else {
                        let value: i64 = if neg {
                            if mag == 0x8000000000000000 {
                                i64::MIN
                            } else {
                                -(mag as i64)
                            }
                        } else {
                            mag as i64
                        };
                        Ok((Token::Int(value), k))
                    }
                }
            }
        }
    } else {
        Err(make_err(ErrorReason::Unexpected, i, i + 1, "unrecognized character"))
    }
}

/// Build the token for the bare word `v[i..e]`: a keyword or a key.
fn word_or_keyword(v: &Vec<char>, i: usize, e: usize) -> (r: Result<(Token, usize), ParseError>)
    requires
        i < e <= v@.len(),
    ensures
        r is Ok && r->Ok_0.0@ == word_token(v@.subrange(i as int, e as int)) && r->Ok_0.1 == e,
{
    let w = copy_range(v, i, e);
    let len: usize = e - i;
    let t: Token = if len == 4 && w[0] == 'n' && w[1] == 'u' && w[2] == 'l' && w[3] == 'l' {
        Token::Null
    } else if len == 4 && w[0] == 't' && w[1] == 'r' && w[2] == 'u' && w[3] == 'e' {
        Token::True
    } else if len == 5 && w[0] == 'f' && w[1] == 'a' && w[2] == 'l' && w[3] == 's' && w[4] == 'e' {
        Token::False
    } else {
        Token::Key(string_from_chars(&w))
    };
    Ok((t, e))
}

/// Tokenize a whole text: the ordered token list with spans, or the first
/// lexer error.
pub fn tokenize(s: &str) -> (r: Result<Vec<(Token, Span)>, ParseError>)
    ensures
        match r {
            Ok(ts) => spec_tokenize(s@) == Ok::<Seq<SpannedTok>, SpecError>(toks_view(ts@)),
            Err(e) => spec_tokenize(s@) == Err::<Seq<SpannedTok>, SpecError>(e@) && 0 <= e@.start
                <= e@.end <= s@.len(),
        },
{
    let v = crate::utils::chars_vec(s);
    let n: usize = v.len();
    let mut out: Vec<(Token, Span)> = Vec::new();
    let mut pos: usize = 0;
    proof {
        assert(toks_view(out@) =~= Seq::<SpannedTok>::empty());
    }
    loop
        invariant
            pos <= n,
            n == v@.len(),
            v@ == s@,
            spec_tokenize(s@) == spec_lex(s@, pos as int, toks_view(out@)),
        decreases n - pos,
    {
        if pos == n {
            return Ok(out);
        }
        let c = v[pos];
        if c == ' ' || c == '\t' {
            pos = pos + 1;
        } else if c == '#' {
            let le = scan_line_end(&v, pos + 1);
            proof {
                assert(line_end(v@, pos as int) == line_end(v@, pos + 1));
                assert(step_idx(line_end(s@, pos as int), pos + 1, s@.len() as int) == le as int);
            }
            pos = le;
        } else {
            match scan_token(&v, pos) {
                Ok((t, e)) => {
                    let ghost old_toks = toks_view(out@);
                    let ghost st = SpannedTok { tok: t@, start: pos as int, end: e as int };
                    out.push((t, Span { start: pos, end: e }));
                    proof {
                        assert(toks_view(out@) =~= old_toks.push(st));
                        assert(step_idx(e as int, pos + 1, s@.len() as int) == e as int);
                    }
                    pos = e;
                },
                Err(pe) => {
                    return Err(pe);
                },
            }
        }
    }
}


/// What [`Token::describe`] renders for each token.
pub open spec fn spec_describe(t: SpecToken) -> Seq<char> {
    match t {
        SpecToken::Null => "null"@,
        SpecToken::True => "true"@,
        SpecToken::False => "false"@,
        SpecToken::Float(s) => s,
        SpecToken::Int(n) => if n < 0 {
            "-"@ + crate::utils::dec_seq((-n) as nat)
        } else {
            crate::utils::dec_seq(n as nat)
        },
        SpecToken::Str(s) => "\""@ + s + "\""@,
        SpecToken::RawStr(s) => "\"\"\""@ + s + "\"\"\""@,
        SpecToken::Key(s) => s,
        SpecToken::LBracket => "["@,
        SpecToken::RBracket => "]"@,
        SpecToken::LBrace => "{"@,
        SpecToken::RBrace => "}"@,
        SpecToken::Colon => ":"@,
        SpecToken::Comma => ","@,
        SpecToken::Newline => "\\n"@,
    }
}

impl Token {
    /// A short rendering of the token, as it would appear in source text,
    /// for use in diagnostics.
    pub fn describe(&self) -> (r: String)
        ensures
            r@ == spec_describe(self@),
    {
        match self {
            Token::Null => String::from_str("null"),
            Token::True => String::from_str("true"),
            Token::False => String::from_str("false"),
            Token::Float(s) => s.clone(),
            Token::Int(n) => {
                if *n < 0 {
                    let mag: u64 = ((-(*n + 1)) as u64) + 1;
                    proof {
                        assert(mag == -(*n as int));
                    }
                    let digits = crate::utils::u64_to_dec(mag);
                    String::from_str("-").concat(digits.as_str())
                } else {
                    crate::utils::u64_to_dec(*n as u64)
                }
            },
            Token::String(s) => {
                let q = String::from_str("\"").concat(s.as_str());
                q.concat("\"")
            },
            Token::RawString(s) => {
                let q = String::from_str("\"\"\"").concat(s.as_str());
                q.concat("\"\"\"")
            },
            Token::Key(s) => s.clone(),
            Token::LBracket => String::from_str("["),
            Token::RBracket => String::from_str("]"),
            Token::LBrace => String::from_str("{"),
            Token::RBrace => String::from_str("}"),
            Token::Colon => String::from_str(":"),
            Token::Comma => String::from_str(","),
            Token::Newline => String::from_str("\\n"),
        }
    }
}


// --- laws about the lexer ---
proof fn lemma_quote_scan_no_close(s: Seq<char>, j: int)
    requires
        0 <= j,
        forall|x: int| j <= x < s.len() ==> s[x] != '"',
    ensures
        match quote_scan(s, j) {
            QScan::Close(q) => false,
            QScan::Ctrl(p) => p >= j,
            QScan::NoClose => true,
        },
    decreases s.len() - j,
{
    if j < s.len() {
        if s[j] == '"' {
        } else if is_control(s[j]) {
        } else if s[j] == '\\' {
            if j + 1 < s.len() {
                lemma_quote_scan_no_close(s, j + 2);
            }
        } else {
            lemma_quote_scan_no_close(s, j + 1);
        }
    }
}

/// Law: a quoted string whose opening quote is never closed — no further
/// `"` occurs — makes tokenization fail with a lexer error whose span
/// starts at or after the opening quote; it never yields a token list.
pub proof fn lemma_unterminated_string(s: Seq<char>, i: int, acc: Seq<SpannedTok>)
    requires
        0 <= i < s.len(),
        s[i] == '"',
        forall|x: int| i < x < s.len() ==> s[x] != '"',
    ensures
        spec_lex(s, i, acc) is Err,
        spec_lex(s, i, acc)->Err_0.start >= i,
{
    if i + 2 < s.len() {
        assert(s[i + 1] != '"');
    }
    lemma_quote_scan_no_close(s, i + 1);
}

/// Law: a text that is exactly one integer literal either tokenizes to the
/// one Int token carrying the literal's mathematical value, when that value
/// fits in a signed 64-bit integer, or fails with an IntegerOverflow error;
/// the value is never truncated or wrapped.
pub proof fn lemma_int_literal_exact(s: Seq<char>)
    requires
        s.len() >= 1,
        s[0] == '-' ==> s.len() >= 2,
        forall|x: int| (if s[0] == '-' { 1int } else { 0int }) <= x < s.len() ==> is_digit(s[x]),
        s[if s[0] == '-' {
            1int
        } else {
            0int
        }] == '0' ==> s.len() == (if s[0] == '-' {
            2int
        } else {
            1int
        }),
    ensures
        ({
            let dstart: int = if s[0] == '-' {
                1int
            } else {
                0int
            };
            let neg = s[0] == '-';
            let mag = dec_val(s, dstart, s.len() as int) as int;
            let bound: int = if neg {
                0x8000000000000000
            } else {
                0x7fffffffffffffff
            };
            if mag > bound {
                spec_tokenize(s) is Err && spec_tokenize(s)->Err_0.reason
                    == ErrorReason::IntegerOverflow
            } else {
                spec_tokenize(s) == Ok::<Seq<SpannedTok>, SpecError>(
                    seq![
                        SpannedTok {
                            tok: SpecToken::Int(if neg { -mag } else { mag }),
                            start: 0,
                            end: s.len() as int,
                        },
                    ],
                )
            }
        }),
{
    let n = s.len() as int;
    let dstart: int = if s[0] == '-' {
        1int
    } else {
        0int
    };
    let neg = s[0] == '-';
    assert(is_digit(s[dstart]));
    assert(!(s[0] == ' ' || s[0] == '\t' || s[0] == '#'));
    lemma_digit_end_is(s, dstart, n);
    assert forall|x: int| 0 <= x < n implies is_word_char(s[x]) by {
        if x < dstart {
            assert(s[x] == '-');
        }
    }
    lemma_word_end_is(s, 0, n);
    let k: int = if s[dstart] == '0' {
        dstart + 1
    } else {
        digit_end(s, dstart)
    };
    assert(k == n);
    assert(exp_end(s, k) == k);
    assert(num_scan(s, 0) == NumScan::IntTo(n));
    let wl: int = if is_word_start(s[0]) {
        word_end(s, 0) - 0
    } else {
        digit_end(s, 0) - 0
    };
    if !is_word_start(s[0]) {
        lemma_digit_end_is(s, 0, n);
    }
    assert(wl == n);
    let mag = dec_val(s, dstart, n) as int;
    let bound: int = if neg {
        0x8000000000000000
    } else {
        0x7fffffffffffffff
    };
    if mag > bound {
        assert(spec_token_at(s, 0) == lex_err(
            ErrorReason::IntegerOverflow,
            0,
            n,
            "integer literal out of 64-bit range"@,
        ));
        assert(spec_lex(s, 0, Seq::empty()) is Err);
    } else {
        let st = SpannedTok {
            tok: SpecToken::Int(if neg { -mag } else { mag }),
            start: 0,
            end: n,
        };
        assert(spec_token_at(s, 0) == TScan::Tok(st.tok, n));
        assert(step_idx(n, 1, n) == n);
        assert(spec_lex(s, 0, Seq::empty()) == spec_lex(s, n, Seq::empty().push(st)));
        assert(spec_tokenize(s) == Ok::<Seq<SpannedTok>, SpecError>(Seq::empty().push(st)));
        assert(Seq::empty().push(st) =~= seq![st]);
    }
}


/// A text that is exactly one bare word — word characters only, none of
/// them a digit — tokenizes to the one token that word denotes.
pub proof fn lemma_word_literal(s: Seq<char>)
    requires
        s.len() >= 1,
        is_word_start(s[0]),
        forall|x: int| 0 <= x < s.len() ==> is_word_char(#[trigger] s[x]),
        forall|x: int| 0 <= x < s.len() ==> !is_digit(#[trigger] s[x]),
    ensures
        spec_tokenize(s) == Ok::<Seq<SpannedTok>, SpecError>(
            seq![SpannedTok { tok: word_token(s), start: 0, end: s.len() as int }],
        ),
{
    let n = s.len() as int;
    lemma_word_end_is(s, 0, n);
    assert(num_scan(s, 0) == NumScan::NoNum);
    assert(s.subrange(0, n) =~= s);
    let st = SpannedTok { tok: word_token(s), start: 0, end: n };
    assert(spec_token_at(s, 0) == TScan::Tok(word_token(s), n));
    assert(step_idx(n, 1, n) == n);
    assert(spec_lex(s, 0, Seq::empty()) == spec_lex(s, n, Seq::empty().push(st)));
    assert(Seq::empty().push(st) =~= seq![st]);
}


proof fn lemma_triple_end_is(s: Seq<char>, j: int, e: int)
    requires
        0 <= j <= e,
        e + 3 <= s.len(),
        forall|k: int| j <= k < e ==> s[k] != '"',
        s[e] == '"' && s[e + 1] == '"' && s[e + 2] == '"',
    ensures
        triple_end(s, j) == e,
    decreases e - j,
{
    if j < e {
        lemma_triple_end_is(s, j + 1, e);
    }
}

/// Law: a triple-quoted string whose content starts with a newline loses
/// exactly that one leading newline: for any quote-free content `c`
/// beginning with a newline, tokenizing `"""` + `c` + `"""` yields the one
/// raw-string token carrying `c` without its first character.
pub proof fn lemma_raw_string_strips_newline(c: Seq<char>)
    requires
        c.len() >= 1,
        c[0] == '\n',
        forall|x: int| 0 <= x < c.len() ==> #[trigger] c[x] != '"',
    ensures
        ({
            let s = "\"\"\""@ + c + "\"\"\""@;
            spec_tokenize(s) == Ok::<Seq<SpannedTok>, SpecError>(
                seq![
                    SpannedTok {
                        tok: SpecToken::RawStr(c.subrange(1, c.len() as int)),
                        start: 0,
                        end: s.len() as int,
                    },
                ],
            )
        }),
{
    reveal_strlit("\"\"\"");
    let s = "\"\"\""@ + c + "\"\"\""@;
    let m = c.len() as int;
    assert(s.len() == m + 6);
    assert(s[0] == '"' && s[1] == '"' && s[2] == '"');
    assert(forall|k: int| 3 <= k < m + 3 ==> #[trigger] s[k] == c[k - 3]);
    assert(s[m + 3] == '"' && s[m + 4] == '"' && s[m + 5] == '"');
    lemma_triple_end_is(s, 3, m + 3);
    let content = s.subrange(3, m + 3);
    assert(content =~= c);
    assert(strip_lead_nl(content) == c.subrange(1, m));
    let st = SpannedTok {
        tok: SpecToken::RawStr(c.subrange(1, m)),
        start: 0,
        end: m + 6,
    };
    assert(spec_token_at(s, 0) == TScan::Tok(st.tok, m + 6));
    assert(step_idx(m + 6, 1, m + 6) == m + 6);
    assert(spec_lex(s, 0, Seq::empty()) == spec_lex(s, m + 6, Seq::empty().push(st)));
    assert(Seq::empty().push(st) =~= seq![st]);
}


proof fn lemma_quote_scan_run(s: Seq<char>, a: int, b: int)
    requires
        0 <= a <= b <= s.len(),
        forall|k: int|
            a <= k < b ==> #[trigger] s[k] != '"' && !is_control(s[k]) && s[k] != '\\',
    ensures
        quote_scan(s, a) == quote_scan(s, b),
    decreases b - a,
{
    if a < b {
        lemma_quote_scan_run(s, a + 1, b);
    }
}

/// Scanning a quoted string body that is the escaping of some text finds
/// the closing quote exactly at its end.
pub proof fn lemma_quote_scan_escaped(s: Seq<char>, p: int, sc: Seq<char>, i: int)
    requires
        0 <= i <= sc.len(),
        0 <= p,
        p + crate::esc_text(sc, i, Seq::empty()).len() < s.len(),
        forall|k: int|
            0 <= k < crate::esc_text(sc, i, Seq::empty()).len() ==> #[trigger] s[p + k]
                == crate::esc_text(sc, i, Seq::empty())[k],
        s[p + crate::esc_text(sc, i, Seq::empty()).len()] == '"',
    ensures
        quote_scan(s, p) == QScan::Close(p + crate::esc_text(sc, i, Seq::empty()).len()),
    decreases sc.len() - i,
{
    reveal_strlit("\\\"");
    reveal_strlit("\\\\");
    reveal_strlit("\\n");
    reveal_strlit("\\r");
    reveal_strlit("\\t");
    reveal_strlit("\\b");
    reveal_strlit("\\f");
    reveal_strlit("\\u{");
    reveal_strlit("}");
    let cur = crate::esc_text(sc, i, Seq::empty());
    if i == sc.len() {
        assert(cur.len() == 0);
        assert(s[p] == '"');
    } else {
        let c = sc[i];
        let e = crate::esc_char(c);
        crate::lemma_esc_text_factor(sc, i + 1, e);
        let rest = crate::esc_text(sc, i + 1, Seq::empty());
        assert(cur == e + rest);
        let ln = e.len() as int;
        assert(forall|k: int| 0 <= k < ln ==> #[trigger] cur[k] == e[k]);
        assert(forall|k: int| 0 <= k < rest.len() ==> #[trigger] cur[ln + k] == rest[k]);
        assert forall|k: int| 0 <= k < rest.len() implies #[trigger] s[p + ln + k] == rest[k] by {
            assert(s[p + (ln + k)] == cur[ln + k]);
        }
        assert(s[p + ln + rest.len()] == '"') by {
            assert(p + ln + rest.len() == p + cur.len());
        }
        if c == '"' || c == '\\' || c == '\n' || c == '\r' || c == '\t' || c == '\u{8}' || c
            == '\u{c}' {
            assert(s[p + 0] == e[0] && s[p + 1] == e[1]);
            assert(s[p] == '\\');
            assert(!is_control('\\') && '\\' != '"');
            assert(p + 1 < s.len());
            lemma_quote_scan_escaped(s, p + 2, sc, i + 1);
            assert(quote_scan(s, p) == quote_scan(s, p + 2));
        } else if (c as u32) < 0x20 {
            let code = (c as u32) as nat;
            let hx = crate::utils::hex_seq(code);
            crate::utils::lemma_hex_seq_shape(code);
            let hl = hx.len() as int;
            assert(e == "\\u{"@ + hx + "}"@);
            assert(ln == hl + 4);
            assert(forall|k: int| 0 <= k < 3 ==> #[trigger] e[k] == "\\u{"@[k]);
            assert forall|k: int| 0 <= k < hl implies #[trigger] e[3 + k] == hx[k] by {
                assert(("\\u{"@ + hx)[3 + k] == hx[k]);
                assert(e[3 + k] == ("\\u{"@ + hx)[3 + k]);
            }
            assert(e[3 + hl] == '}') by {
                assert(e[3 + hl] == "}"@[0]);
            }
            assert(s[p + 0] == '\\');
            assert(s[p] == '\\');
            assert(p + 1 < s.len());
            assert forall|k: int|
                p + 2 <= k < p + ln implies #[trigger] s[k] != '"' && !is_control(s[k]) && s[k]
                != '\\' by {
                assert(s[p + (k - p)] == e[k - p]);
                if k - p == 2 {
                    assert(e[2] == '{');
                } else if k - p == 3 + hl {
                    assert(e[3 + hl] == '}');
                } else {
                    assert(e[3 + (k - p - 3)] == hx[k - p - 3]);
                    assert(crate::utils::is_hex_digit(hx[k - p - 3]));
                }
            }
            lemma_quote_scan_run(s, p + 2, p + ln);
            lemma_quote_scan_escaped(s, p + ln, sc, i + 1);
            assert(quote_scan(s, p) == quote_scan(s, p + 2));
        } else {
            assert(e =~= seq![c]);
            assert(s[p + 0] == e[0]);
            assert(s[p] == c);
            assert(c != '"' && !is_control(c) && c != '\\');
            lemma_quote_scan_escaped(s, p + 1, sc, i + 1);
            assert(quote_scan(s, p) == quote_scan(s, p + 1));
        }
    }
}


/// A quoted string literal written by the serializer tokenizes to the one
/// string token carrying exactly the original text.
pub proof fn lemma_string_literal(sc: Seq<char>)
    ensures
        ({
            let s = "\""@ + crate::esc_text(sc, 0, Seq::empty()) + "\""@;
            spec_tokenize(s) == Ok::<Seq<SpannedTok>, SpecError>(
                seq![SpannedTok { tok: SpecToken::Str(sc), start: 0, end: s.len() as int }],
            )
        }),
{
    reveal_strlit("\"");
    reveal_strlit("\\\"");
    reveal_strlit("\\\\");
    reveal_strlit("\\n");
    reveal_strlit("\\r");
    reveal_strlit("\\t");
    reveal_strlit("\\b");
    reveal_strlit("\\f");
    reveal_strlit("\\u{");
    let e = crate::esc_text(sc, 0, Seq::empty());
    let s = "\""@ + e + "\""@;
    let m = e.len() as int;
    assert(s.len() == m + 2);
    assert(s[0] == '"');
    assert(forall|k: int| 0 <= k < m ==> #[trigger] s[1 + k] == e[k]);
    assert(s[1 + m] == '"');
    if m >= 1 {
        assert(s[0int + 2] == s[2int]);
        // the body never starts with a quote, so this is no raw string
        crate::lemma_esc_text_factor(sc, 1, crate::esc_char(sc[0]));
        assert(e[0] == crate::esc_char(sc[0])[0]);
        assert(e[0] != '"');
        assert(s[1int + 0] == e[0int]);
        assert(s[1] != '"');
    }
    lemma_quote_scan_escaped(s, 1, sc, 0);
    assert(quote_scan(s, 1) == QScan::Close(1 + m));
    let sub = s.subrange(1, 1 + m);
    assert(sub =~= e);
    assert(sub.subrange(0, sub.len() as int) =~= e);
    crate::lemma_decode_escaped(sc, 0, sub, 0, Seq::empty());
    assert(Seq::empty() + sc.subrange(0, sc.len() as int) =~= sc);
    assert(crate::utils::spec_decode(sub, 0, Seq::empty()) == Some(sc));
    let st = SpannedTok { tok: SpecToken::Str(sc), start: 0, end: m + 2 };
    assert(spec_token_at(s, 0) == TScan::Tok(SpecToken::Str(sc), m + 2));
    assert(step_idx(m + 2, 1, m + 2) == m + 2);
    assert(spec_lex(s, 0, Seq::empty()) == spec_lex(s, m + 2, Seq::empty().push(st)));
    assert(Seq::empty().push(st) =~= seq![st]);
}

} // verus!
