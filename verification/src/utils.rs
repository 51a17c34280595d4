//! Escape-sequence decoding for quoted strings, and the small trusted
//! bridges between `str`/`String` and verified character vectors.

use vstd::prelude::*;
use vstd::string::StringExecFns;

use crate::tokenizer::dec_val;
use vstd::std_specs::iter::IteratorSpec;

verus! {

// --- character classes ---
pub open spec fn is_digit(c: char) -> bool {
    '0' <= c && c <= '9'
}

pub open spec fn is_hex_digit(c: char) -> bool {
    ('0' <= c && c <= '9') || ('a' <= c && c <= 'f') || ('A' <= c && c <= 'F')
}

/// Numeric value of one hex digit.
pub open spec fn hex_digit_val(c: char) -> nat
    recommends
        is_hex_digit(c),
{
    if '0' <= c && c <= '9' {
        (c as u32 - '0' as u32) as nat
    } else if 'a' <= c && c <= 'f' {
        (c as u32 - 'a' as u32 + 10) as nat
    } else {
        (c as u32 - 'A' as u32 + 10) as nat
    }
}

/// A Unicode scalar value: any code point except the surrogate range.
pub open spec fn is_scalar_value(v: nat) -> bool {
    v < 0xD800 || (0xE000 <= v && v <= 0x10FFFF)
}

/// First index at or after `j` that does not hold a hex digit.
pub open spec fn hex_run_end(s: Seq<char>, j: int) -> int
    decreases s.len() - j,
{
    if j < 0 || j >= s.len() || !is_hex_digit(s[j]) {
        j
    } else {
        hex_run_end(s, j + 1)
    }
}

/// Value of the hex digits `s[i..e]`, most significant first.
pub open spec fn hex_val(s: Seq<char>, i: int, e: int) -> nat
    decreases e - i,
{
    if i >= e {
        0
    } else {
        hex_val(s, i, e - 1) * 16 + hex_digit_val(s[e - 1])
    }
}

/// What one simple (single-character) escape denotes.
pub open spec fn simple_escape(c: char) -> Option<char> {
    match c {
        '\\' => Some('\\'),
        '/' => Some('/'),
        '"' => Some('"'),
        'b' => Some('\u{8}'),
        'f' => Some('\u{c}'),
        'n' => Some('\n'),
        'r' => Some('\r'),
        't' => Some('\t'),
        _ => None,
    }
}

/// Decoding of the escaped string body `s[i..]` onto the already-decoded
/// prefix `acc`: `None` on an incomplete or unknown escape, on anything but
/// one to six hex digits inside `\u{..}`, and on a code point that is no
/// Unicode scalar value.
pub open spec fn spec_decode(s: Seq<char>, i: int, acc: Seq<char>) -> Option<Seq<char>>
    decreases s.len() - i,
{
    if i < 0 || i >= s.len() {
        Some(acc)
    } else if s[i] != '\\' {
        spec_decode(s, i + 1, acc.push(s[i]))
    } else if i + 1 >= s.len() {
        None
    } else if s[i + 1] == 'u' {
        if i + 2 >= s.len() || s[i + 2] != '{' {
            None
        } else {
            let h0 = hex_run_end(s, i + 3);
            let h = if h0 < i + 3 {
                i + 3
            } else {
                h0
            };
            if h >= s.len() || s[h] != '}' {
                None
            } else if h - (i + 3) < 1 || h - (i + 3) > 6 {
                None
            } else {
                let code = hex_val(s, i + 3, h);
                if is_scalar_value(code) {
                    spec_decode(s, h + 1, acc.push(code as char))
                } else {
                    None
                }
            }
        }
    } else {
        match simple_escape(s[i + 1]) {
            Some(c) => spec_decode(s, i + 2, acc.push(c)),
            None => None,
        }
    }
}

// --- trusted bridges to std ---
/// The characters of the string, in order, as a vector.
pub fn chars_vec(s: &str) -> (r: Vec<char>)
    ensures
        r@ == s@,
{
    let mut it = s.chars();
    let mut r: Vec<char> = Vec::new();
    loop
        invariant
            it.obeys_prophetic_iter_laws(),
            IteratorSpec::decrease(&it) is Some,
            r@ + it.remaining() == s@,
        decreases IteratorSpec::decrease(&it)->0,
    {
        let next = it.next();
        match next {
            Some(c) => {
                r.push(c);
            },
            None => {
                return r;
            },
        }
    }
}

/// Relies on `String`'s `FromIterator<char>` impl: collecting characters
/// builds the string of exactly those characters, in order.
#[verifier::external_body]
pub fn string_from_chars(v: &Vec<char>) -> (r: String)
    ensures
        r@ == v@,
{
    v.iter().collect()
}

/// Relies on `char::from_u32`: it returns `Some` exactly for Unicode scalar
/// values, and the returned character is that code point.
#[verifier::external_body]
pub fn char_from_u32(v: u32) -> (r: Option<char>)
    ensures
        r == if is_scalar_value(v as nat) {
            Some(v as char)
        } else {
            None::<char>
        },
{
    char::from_u32(v)
}

// --- verified decoding ---
/// Exec mirror of [`is_hex_digit`]/[`hex_digit_val`].
fn hex_digit_of(c: char) -> (r: Option<u32>)
    ensures
        r is Some <==> is_hex_digit(c),
        r is Some ==> r->0 == hex_digit_val(c) && r->0 < 16,
{
    if '0' <= c && c <= '9' {
        Some(c as u32 - '0' as u32)
    } else if 'a' <= c && c <= 'f' {
        Some(c as u32 - 'a' as u32 + 10)
    } else if 'A' <= c && c <= 'F' {
        Some(c as u32 - 'A' as u32 + 10)
    } else {
        None
    }
}

pub(crate) proof fn lemma_hex_run_end_is(s: Seq<char>, j: int, h: int)
    requires
        0 <= j <= h <= s.len(),
        forall|k: int| j <= k < h ==> is_hex_digit(s[k]),
        h == s.len() || !is_hex_digit(s[h]),
    ensures
        hex_run_end(s, j) == h,
    decreases h - j,
{
    if j < h {
        lemma_hex_run_end_is(s, j + 1, h);
    }
}

proof fn lemma_hex_val_bound(s: Seq<char>, i: int, e: int)
    requires
        i <= e,
        forall|k: int| i <= k < e ==> is_hex_digit(s[k]),
    ensures
        hex_val(s, i, e) < pow16((e - i) as nat),
    decreases e - i,
{
    if i < e {
        lemma_hex_val_bound(s, i, e - 1);
        assert(hex_digit_val(s[e - 1]) < 16);
        assert(hex_val(s, i, e - 1) * 16 + 15 < pow16((e - i - 1) as nat) * 16) by (nonlinear_arith)
            requires
                hex_val(s, i, e - 1) < pow16((e - i - 1) as nat),
        ;
        assert(pow16((e - i) as nat) == 16 * pow16((e - i - 1) as nat));
        assert(hex_val(s, i, e) == hex_val(s, i, e - 1) * 16 + hex_digit_val(s[e - 1]));
        assert(hex_val(s, i, e) <= hex_val(s, i, e - 1) * 16 + 15);
    } else {
        assert(hex_val(s, i, e) == 0);
        assert(pow16((e - i) as nat) == 1);
    }
}

pub open spec fn pow16(n: nat) -> nat
    decreases n,
{
    if n == 0 {
        1
    } else {
        16 * pow16((n - 1) as nat)
    }
}

/// Decode the escape sequences in `v`, the body of a quoted string literal.
pub fn decode_escapes(v: &Vec<char>) -> (r: Option<Vec<char>>)
    ensures
        match r {
            Some(out) => spec_decode(v@, 0, Seq::empty()) == Some(out@),
            None => spec_decode(v@, 0, Seq::empty()) is None,
        },
{
    let n: usize = v.len();
    let mut out: Vec<char> = Vec::new();
    let mut i: usize = 0;
    loop
        invariant
            i <= n,
            n == v@.len(),
            spec_decode(v@, 0, Seq::empty()) == spec_decode(v@, i as int, out@),
        decreases n - i,
    {
        if i == n {
            return Some(out);
        }
        let c = v[i];
        if c != '\\' {
            out.push(c);
            i = i + 1;
        } else {
            if i + 1 >= n {
                return None;
            }
            let e = v[i + 1];
            if e == 'u' {
                if i + 2 >= n || v[i + 2] != '{' {
                    return None;
                }
                // find the end of the hex-digit run
                let mut h: usize = i + 3;
                while h < n && hex_digit_of(v[h]).is_some()
                    invariant
                        i + 3 <= h <= n,
                        n == v@.len(),
                        forall|k: int| i + 3 <= k < h ==> is_hex_digit(v@[k]),
                    decreases n - h,
                {
                    h = h + 1;
                }
                proof {
                    lemma_hex_run_end_is(v@, i + 3, h as int);
                }
                if h >= n || v[h] != '}' {
                    return None;
                }
                let digits: usize = h - (i + 3);
                if digits < 1 || digits > 6 {
                    return None;
                }
                // value of the run
                let mut code: u32 = 0;
                let mut j: usize = i + 3;
                while j < h
                    invariant
                        i + 3 <= j <= h <= n,
                        n == v@.len(),
                        h - (i + 3) <= 6,
                        forall|k: int| i + 3 <= k < h ==> is_hex_digit(v@[k]),
                        code == hex_val(v@, i + 3, j as int),
                        code < 0x1000000,
                    decreases h - j,
                {
                    proof {
                        lemma_hex_val_bound(v@, i + 3, j + 1);
                        reveal_with_fuel(pow16, 7);
                        assert(pow16(6) == 0x1000000);
                        assert(pow16((j + 1 - (i + 3)) as nat) <= pow16(6)) by {
                            lemma_pow16_le((j + 1 - (i + 3)) as nat, 6);
                        }
                    }
                    let d = hex_digit_of(v[j]).unwrap();
                    code = code * 16 + d;
                    j = j + 1;
                }
                match char_from_u32(code) {
                    Some(ch) => {
                        out.push(ch);
                        i = h + 1;
                    },
                    None => {
                        return None;
                    },
                }
            } else {
                let dec: Option<char> = match e {
                    '\\' => Some('\\'),
                    '/' => Some('/'),
                    '"' => Some('"'),
                    'b' => Some('\u{8}'),
                    'f' => Some('\u{c}'),
                    'n' => Some('\n'),
                    'r' => Some('\r'),
                    't' => Some('\t'),
                    _ => None,
                };
                match dec {
                    Some(ch) => {
                        out.push(ch);
                        i = i + 2;
                    },
                    None => {
                        return None;
                    },
                }
            }
        }
    }
}

proof fn lemma_pow16_le(a: nat, b: nat)
    requires
        a <= b,
    ensures
        pow16(a) <= pow16(b),
    decreases b,
{
    if a < b && b > 0 {
        lemma_pow16_le(a, (b - 1) as nat);
        assert(pow16(b) == 16 * pow16((b - 1) as nat));
    }
}

/// Decode the escape sequences in the body of a quoted string literal
/// (the text between the quotes): `None` exactly when the body holds a
/// malformed escape or one denoting no Unicode scalar value.
pub fn parse_string(s: &str) -> (r: Option<String>)
    ensures
        match r {
            Some(t) => spec_decode(s@, 0, Seq::empty()) == Some(t@),
            None => spec_decode(s@, 0, Seq::empty()) is None,
        },
{
    let chars = chars_vec(s);
    match decode_escapes(&chars) {
        Some(out) => Some(string_from_chars(&out)),
        None => None,
    }
}


// --- decimal rendering (for diagnostics) ---
/// The character of one decimal digit.
pub open spec fn digit_char(d: nat) -> char
    recommends
        d < 10,
{
    (('0' as u32) + d) as char
}

/// Decimal digits of `n`, most significant first.
pub open spec fn dec_seq(n: nat) -> Seq<char>
    decreases n,
{
    if n < 10 {
        seq![digit_char(n)]
    } else {
        dec_seq(n / 10).push(digit_char(n % 10))
    }
}

/// Render `n` in decimal.
pub fn u64_to_dec(n: u64) -> (r: String)
    ensures
        r@ == dec_seq(n as nat),
    decreases n,
{
    let d: char = match n % 10 {
        0 => '0',
        1 => '1',
        2 => '2',
        3 => '3',
        4 => '4',
        5 => '5',
        6 => '6',
        7 => '7',
        8 => '8',
        _ => '9',
    };
    proof {
        assert(d == digit_char((n % 10) as nat));
    }
    if n < 10 {
        let mut v: Vec<char> = Vec::new();
        v.push(d);
        proof {
            assert(v@ =~= dec_seq(n as nat));
        }
        string_from_chars(&v)
    } else {
        let mut s = u64_to_dec(n / 10);
        let mut v: Vec<char> = Vec::new();
        v.push(d);
        let tail = string_from_chars(&v);
        s.append(tail.as_str());
        proof {
            assert(s@ =~= dec_seq(n as nat));
        }
        s
    }
}


/// The lowercase character of one hex digit.
pub open spec fn hex_char(d: nat) -> char
    recommends
        d < 16,
{
    if d < 10 {
        (('0' as u32) + d) as char
    } else {
        (('a' as u32) + (d - 10)) as char
    }
}

/// Lowercase hex digits of `n`, most significant first.
pub open spec fn hex_seq(n: nat) -> Seq<char>
    decreases n,
{
    if n < 16 {
        seq![hex_char(n)]
    } else {
        hex_seq(n / 16).push(hex_char(n % 16))
    }
}

/// Render `n` in lowercase hex.
pub fn u32_to_hex(n: u32) -> (r: String)
    ensures
        r@ == hex_seq(n as nat),
    decreases n,
{
    let d: char = match n % 16 {
        0 => '0',
        1 => '1',
        2 => '2',
        3 => '3',
        4 => '4',
        5 => '5',
        6 => '6',
        7 => '7',
        8 => '8',
        9 => '9',
        10 => 'a',
        11 => 'b',
        12 => 'c',
        13 => 'd',
        14 => 'e',
        _ => 'f',
    };
    proof {
        assert(d == hex_char((n % 16) as nat));
    }
    if n < 16 {
        let mut v: Vec<char> = Vec::new();
        v.push(d);
        proof {
            assert(v@ =~= hex_seq(n as nat));
        }
        string_from_chars(&v)
    } else {
        let mut s = u32_to_hex(n / 16);
        let mut v: Vec<char> = Vec::new();
        v.push(d);
        let t = string_from_chars(&v);
        s.append(t.as_str());
        proof {
            assert(s@ =~= hex_seq(n as nat));
        }
        s
    }
}


// --- facts about decimal rendering, for the round-trip law ---
/// Shape of a rendered decimal: digits only, no leading zero except for 0
/// itself.
pub proof fn lemma_dec_seq_shape(n: nat)
    ensures
        dec_seq(n).len() >= 1,
        forall|i: int| 0 <= i < dec_seq(n).len() ==> is_digit(#[trigger] dec_seq(n)[i]),
        n >= 10 ==> dec_seq(n)[0] != '0',
        n < 10 ==> dec_seq(n).len() == 1,
        dec_seq(n)[0] == '0' ==> n == 0,
    decreases n,
{
    if n < 10 {
        assert(dec_seq(n) == seq![digit_char(n)]);
        assert(is_digit(digit_char(n)));
    } else {
        lemma_dec_seq_shape(n / 10);
        let p = dec_seq(n / 10);
        assert(dec_seq(n) == p.push(digit_char(n % 10)));
        assert(is_digit(digit_char(n % 10)));
        assert(dec_seq(n)[0] == p[0]);
        if n / 10 < 10 {
            assert(p[0] == digit_char(n / 10));
            assert(n / 10 >= 1);
        }
    }
}

/// The value read from equal digit runs is equal, wherever they sit.
pub proof fn lemma_dec_val_shift(s1: Seq<char>, o1: int, s2: Seq<char>, o2: int, m: int)
    requires
        m >= 0,
        forall|k: int| 0 <= k < m ==> #[trigger] s1[o1 + k] == s2[o2 + k],
    ensures
        dec_val(s1, o1, o1 + m) == dec_val(s2, o2, o2 + m),
    decreases m,
{
    if m > 0 {
        lemma_dec_val_shift(s1, o1, s2, o2, m - 1);
        assert(s1[o1 + (m - 1)] == s2[o2 + (m - 1)]);
    }
}

/// Reading back a rendered decimal yields the number.
pub proof fn lemma_dec_val_inverse(n: nat)
    ensures
        dec_val(dec_seq(n), 0, dec_seq(n).len() as int) == n,
    decreases n,
{
    let s = dec_seq(n);
    if n < 10 {
        assert(s == seq![digit_char(n)]);
        assert(dec_val(s, 0, 1) == dec_val(s, 0, 0) * 10 + (s[0] as u32 - '0' as u32) as nat);
        assert((digit_char(n) as u32 - '0' as u32) as nat == n);
    } else {
        lemma_dec_val_inverse(n / 10);
        let p = dec_seq(n / 10);
        assert(s == p.push(digit_char(n % 10)));
        let len = s.len() as int;
        assert(dec_val(s, 0, len) == dec_val(s, 0, len - 1) * 10 + (s[len - 1] as u32
            - '0' as u32) as nat);
        assert(forall|k: int| 0 <= k < p.len() ==> #[trigger] s[0 + k] == p[0 + k]);
        lemma_dec_val_shift(s, 0, p, 0, p.len() as int);
        assert(dec_val(s, 0, len - 1) == dec_val(p, 0, p.len() as int));
        assert(s[len - 1] == digit_char(n % 10));
        assert((digit_char(n % 10) as u32 - '0' as u32) as nat == n % 10);
        assert(n / 10 * 10 + n % 10 == n) by {
            vstd::arithmetic::div_mod::lemma_fundamental_div_mod(n as int, 10);
        }
    }
}


// --- facts about hex rendering, for the round-trip law ---
pub proof fn lemma_hex_seq_shape(n: nat)
    ensures
        hex_seq(n).len() >= 1,
        forall|i: int| 0 <= i < hex_seq(n).len() ==> is_hex_digit(#[trigger] hex_seq(n)[i]),
        n < 16 ==> hex_seq(n).len() == 1,
        n < 256 ==> hex_seq(n).len() <= 2,
    decreases n,
{
    if n < 16 {
        assert(hex_seq(n) == seq![hex_char(n)]);
        assert(is_hex_digit(hex_char(n)));
    } else {
        lemma_hex_seq_shape(n / 16);
        assert(hex_seq(n) == hex_seq(n / 16).push(hex_char(n % 16)));
        assert(is_hex_digit(hex_char(n % 16)));
    }
}

/// The value read from equal hex-digit runs is equal, wherever they sit.
pub proof fn lemma_hex_val_shift(s1: Seq<char>, o1: int, s2: Seq<char>, o2: int, m: int)
    requires
        m >= 0,
        forall|k: int| 0 <= k < m ==> #[trigger] s1[o1 + k] == s2[o2 + k],
    ensures
        hex_val(s1, o1, o1 + m) == hex_val(s2, o2, o2 + m),
    decreases m,
{
    if m > 0 {
        lemma_hex_val_shift(s1, o1, s2, o2, m - 1);
        assert(s1[o1 + (m - 1)] == s2[o2 + (m - 1)]);
    }
}

/// Reading back a rendered hex number yields the number.
pub proof fn lemma_hex_val_inverse(n: nat)
    ensures
        hex_val(hex_seq(n), 0, hex_seq(n).len() as int) == n,
    decreases n,
{
    let s = hex_seq(n);
    if n < 16 {
        assert(s == seq![hex_char(n)]);
        assert(hex_val(s, 0, 1) == hex_val(s, 0, 0) * 16 + hex_digit_val(s[0]));
        assert(hex_digit_val(hex_char(n)) == n);
    } else {
        lemma_hex_val_inverse(n / 16);
        let p = hex_seq(n / 16);
        assert(s == p.push(hex_char(n % 16)));
        let len = s.len() as int;
        assert(hex_val(s, 0, len) == hex_val(s, 0, len - 1) * 16 + hex_digit_val(s[len - 1]));
        assert(forall|k: int| 0 <= k < p.len() ==> #[trigger] s[0 + k] == p[0 + k]);
        lemma_hex_val_shift(s, 0, p, 0, p.len() as int);
        assert(s[len - 1] == hex_char(n % 16));
        assert(hex_digit_val(hex_char(n % 16)) == n % 16);
        assert(n / 16 * 16 + n % 16 == n) by {
            vstd::arithmetic::div_mod::lemma_fundamental_div_mod(n as int, 16);
        }
    }
}

} // verus!
