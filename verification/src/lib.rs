//! A verified parser for MAML, a JSON-superset configuration format with
//! comments, unquoted object keys, newline-or-comma separators, triple-quoted
//! raw strings and `\u{...}` escapes.
//!
//! The pipeline is: source text -> [`tokenizer::tokenize`] -> token sequence
//! -> [`parser::parser`] -> a [`MamlValue`] plus a list of [`ParseError`]s.
//! [`from_str`] and [`parse_with_report`] wrap the pipeline and render the
//! errors as human-readable, source-annotated reports.

use vstd::prelude::*;
use vstd::string::StringExecFns;

pub mod parser;
pub mod render;
pub mod tokenizer;
pub mod utils;

pub use parser::from_str;
pub use parser::parse_with_report;

verus! {

/// Maximum nesting depth of arrays and objects the parser accepts; deeper
/// input is rejected with an error rather than risking unbounded recursion.
pub const MAX_DEPTH: usize = 128;

/// The parsed tree. A float literal is kept as its source text, so that the
/// tree itself stays within the fragment the verifier can reason about;
/// callers convert the lexeme when they need an IEEE value. An object keeps
/// its members in insertion order; keys are unique within one object, and a
/// duplicate key in the source replaces the value of the earlier member
/// (last key wins).
#[derive(Debug, PartialEq)]
pub enum MamlValue {
    Null,
    Bool(bool),
    Int(i64),
    Float(String),
    String(String),
    Array(Vec<MamlValue>),
    Object(Vec<(String, MamlValue)>),
}

/// Mathematical model of a parsed tree: what a [`MamlValue`] denotes.
#[verifier::ext_equal]
pub enum SpecValue {
    Null,
    Bool(bool),
    Int(int),
    Float(Seq<char>),
    Str(Seq<char>),
    Array(Seq<SpecValue>),
    Object(Seq<(Seq<char>, SpecValue)>),
}

impl MamlValue {
    /// Model of a sequence of array elements.
    pub open spec fn arr_view(s: Seq<MamlValue>) -> Seq<SpecValue>
        decreases s,
    {
        if s.len() == 0 {
            Seq::empty()
        } else {
            Self::arr_view(s.drop_last()).push(s.last()@)
        }
    }

    /// Model of a sequence of object members.
    pub open spec fn obj_view(s: Seq<(String, MamlValue)>) -> Seq<(Seq<char>, SpecValue)>
        decreases s,
    {
        if s.len() == 0 {
            Seq::empty()
        } else {
            Self::obj_view(s.drop_last()).push((s.last().0@, s.last().1@))
        }
    }

    pub proof fn lemma_arr_view(s: Seq<MamlValue>)
        ensures
            Self::arr_view(s).len() == s.len(),
            forall|i: int| 0 <= i < s.len() ==> Self::arr_view(s)[i] == s[i]@,
        decreases s,
    {
        if s.len() > 0 {
            let rest = s.drop_last();
            Self::lemma_arr_view(rest);
            assert(Self::arr_view(s) == Self::arr_view(rest).push(s.last()@));
            assert forall|i: int| 0 <= i < s.len() implies Self::arr_view(s)[i] == s[i]@ by {
                if i < s.len() - 1 {
                    assert(Self::arr_view(rest).push(s.last()@)[i] == Self::arr_view(rest)[i]);
                    assert(rest[i] == s[i]);
                }
            }
        }
    }

    pub proof fn lemma_obj_view(s: Seq<(String, MamlValue)>)
        ensures
            Self::obj_view(s).len() == s.len(),
            forall|i: int| 0 <= i < s.len() ==> Self::obj_view(s)[i] == (s[i].0@, s[i].1@),
        decreases s,
    {
        if s.len() > 0 {
            let rest = s.drop_last();
            Self::lemma_obj_view(rest);
            assert(Self::obj_view(s) == Self::obj_view(rest).push((s.last().0@, s.last().1@)));
            assert forall|i: int| 0 <= i < s.len() implies Self::obj_view(s)[i] == (
                s[i].0@,
                s[i].1@,
            ) by {
                if i < s.len() - 1 {
                    assert(Self::obj_view(rest).push((s.last().0@, s.last().1@))[i]
                        == Self::obj_view(rest)[i]);
                    assert(rest[i] == s[i]);
                }
            }
        }
    }
}

impl View for MamlValue {
    type V = SpecValue;

    open spec fn view(&self) -> SpecValue
        decreases self,
    {
        match self {
            MamlValue::Null => SpecValue::Null,
            MamlValue::Bool(b) => SpecValue::Bool(*b),
            MamlValue::Int(n) => SpecValue::Int(*n as int),
            MamlValue::Float(s) => SpecValue::Float(s@),
            MamlValue::String(s) => SpecValue::Str(s@),
            MamlValue::Array(a) => SpecValue::Array(Self::arr_view(a@)),
            MamlValue::Object(m) => SpecValue::Object(Self::obj_view(m@)),
        }
    }
}

/// A half-open range of character offsets into the source text, attached to
/// tokens and diagnostics.
#[derive(Debug, Clone, Copy, PartialEq, Eq, Structural)]
pub struct Span {
    pub start: usize,
    pub end: usize,
}

/// The closed set of reasons a parse can fail.
#[derive(Debug, Clone, Copy, PartialEq, Eq, Structural)]
pub enum ErrorReason {
    /// A token (or character) that cannot start or continue the construct
    /// being parsed.
    Unexpected,
    /// A specific set of tokens was expected; the message names it.
    Expected,
    /// A malformed escape sequence, or one denoting no Unicode scalar value.
    MalformedEscape,
    /// A quoted or triple-quoted string with no closing delimiter.
    UnterminatedLiteral,
    /// An integer literal outside the signed 64-bit range.
    IntegerOverflow,
}

/// A structured diagnostic: where, why, and a human-readable message.
#[derive(Debug, Clone)]
pub struct ParseError {
    pub span: Span,
    pub reason: ErrorReason,
    pub message: String,
}

/// Mathematical model of a [`ParseError`].
#[verifier::ext_equal]
pub struct SpecError {
    pub start: int,
    pub end: int,
    pub reason: ErrorReason,
    pub msg: Seq<char>,
}

impl View for ParseError {
    type V = SpecError;

    open spec fn view(&self) -> SpecError {
        SpecError {
            start: self.span.start as int,
            end: self.span.end as int,
            reason: self.reason,
            msg: self.message@,
        }
    }
}

/// The models of a list of diagnostics.
pub open spec fn errors_view(v: Seq<ParseError>) -> Seq<SpecError> {
    Seq::new(v.len(), |i: int| v[i]@)
}

/// Build a diagnostic with a fixed message.
pub(crate) fn make_err(reason: ErrorReason, start: usize, end: usize, msg: &str) -> (r: ParseError)
    ensures
        r@ == (SpecError { start: start as int, end: end as int, reason, msg: msg@ }),
{
    ParseError { span: Span { start, end }, reason, message: msg.to_owned() }
}


// --- serialization back to text ---
/// How one character is written inside a quoted string: itself, a named
/// escape, or a `\u{..}` escape for the remaining control characters, so
/// that the output re-parses to the same string.
pub open spec fn esc_char(c: char) -> Seq<char> {
    if c == '"' {
        "\\\""@
    } else if c == '\\' {
        "\\\\"@
    } else if c == '\n' {
        "\\n"@
    } else if c == '\r' {
        "\\r"@
    } else if c == '\t' {
        "\\t"@
    } else if c == '\u{8}' {
        "\\b"@
    } else if c == '\u{c}' {
        "\\f"@
    } else if (c as u32) < 0x20 {
        "\\u{"@ + crate::utils::hex_seq((c as u32) as nat) + "}"@
    } else {
        seq![c]
    }
}

/// The escaped body of a quoted string, written onto `acc`.
pub open spec fn esc_text(s: Seq<char>, i: int, acc: Seq<char>) -> Seq<char>
    decreases s.len() - i,
{
    if i < 0 || i >= s.len() {
        acc
    } else {
        esc_text(s, i + 1, acc + esc_char(s[i]))
    }
}

/// The canonical text of a value: valid MAML and valid JSON (floats keep
/// their lexeme; object keys are quoted and escaped).
pub open spec fn spec_text(v: SpecValue) -> Seq<char>
    decreases v, 0int,
{
    match v {
        SpecValue::Null => "null"@,
        SpecValue::Bool(b) => if b {
            "true"@
        } else {
            "false"@
        },
        SpecValue::Int(n) => if n < 0 {
            "-"@ + crate::utils::dec_seq((-n) as nat)
        } else {
            crate::utils::dec_seq(n as nat)
        },
        SpecValue::Float(s) => s,
        SpecValue::Str(s) => "\""@ + esc_text(s, 0, Seq::empty()) + "\""@,
        SpecValue::Array(vs) => arr_text(vs, 0, "["@) + "]"@,
        SpecValue::Object(ms) => obj_text(ms, 0, "{"@) + "}"@,
    }
}

/// The elements of an array from `i` on, written onto `acc`.
pub open spec fn arr_text(vs: Seq<SpecValue>, i: int, acc: Seq<char>) -> Seq<char>
    decreases vs, vs.len() - i,
{
    if i < 0 || i >= vs.len() {
        acc
    } else {
        let sep: Seq<char> = if i == 0 {
            Seq::empty()
        } else {
            ", "@
        };
        arr_text(vs, i + 1, acc + sep + spec_text(vs[i]))
    }
}

/// The members of an object from `i` on, written onto `acc`.
pub open spec fn obj_text(ms: Seq<(Seq<char>, SpecValue)>, i: int, acc: Seq<char>) -> Seq<char>
    decreases ms, ms.len() - i,
{
    if i < 0 || i >= ms.len() {
        acc
    } else {
        let sep: Seq<char> = if i == 0 {
            Seq::empty()
        } else {
            ", "@
        };
        obj_text(
            ms,
            i + 1,
            acc + sep + "\""@ + esc_text(ms[i].0, 0, Seq::empty()) + "\": "@ + spec_text(ms[i].1),
        )
    }
}


/// Escape the body of a quoted string for serialization.
fn escape_body(s: &String) -> (r: String)
    ensures
        r@ == esc_text(s@, 0, Seq::empty()),
{
    let v = crate::utils::chars_vec(s.as_str());
    let n: usize = v.len();
    let mut out: Vec<char> = Vec::new();
    let mut i: usize = 0;
    while i < n
        invariant
            i <= n,
            n == v@.len(),
            v@ == s@,
            esc_text(s@, 0, Seq::empty()) == esc_text(s@, i as int, out@),
        decreases n - i,
    {
        proof {
            reveal_strlit("\\\"");
            reveal_strlit("\\\\");
            reveal_strlit("\\n");
            reveal_strlit("\\r");
            reveal_strlit("\\t");
            reveal_strlit("\\b");
            reveal_strlit("\\f");
            reveal_strlit("\\u{");
            reveal_strlit("}");
        }
        let c = v[i];
        let ghost before = out@;
        if c == '"' {
            out.push('\\');
            out.push('"');
        } else if c == '\\' {
            out.push('\\');
            out.push('\\');
        } else if c == '\n' {
            out.push('\\');
            out.push('n');
        } else if c == '\r' {
            out.push('\\');
            out.push('r');
        } else if c == '\t' {
            out.push('\\');
            out.push('t');
        } else if c == '\u{8}' {
            out.push('\\');
            out.push('b');
        } else if c == '\u{c}' {
            out.push('\\');
            out.push('f');
        } else if (c as u32) < 0x20 {
            out.push('\\');
            out.push('u');
            out.push('{');
            let hex = crate::utils::u32_to_hex(c as u32);
            let mut hv = crate::utils::chars_vec(hex.as_str());
            out.append(&mut hv);
            out.push('}');
        } else {
            out.push(c);
        }
        proof {
            assert(out@ =~= before + esc_char(v@[i as int]));
        }
        i = i + 1;
    }
    crate::utils::string_from_chars(&out)
}

impl MamlValue {
    /// Serialize the tree back to text. The output is valid MAML and valid
    /// JSON, except that a float literal is written back exactly as it was
    /// read.
    #[verifier::loop_isolation(false)]
    pub fn to_text(&self) -> (r: String)
        ensures
            r@ == spec_text(self@),
        decreases self, 0int,
    {
        match self {
            MamlValue::Null => String::from_str("null"),
            MamlValue::Bool(b) => {
                if *b {
                    String::from_str("true")
                } else {
                    String::from_str("false")
                }
            },
            MamlValue::Int(n) => {
                if *n < 0 {
                    let mag: u64 = ((-(*n + 1)) as u64) + 1;
                    proof {
                        assert(mag == -(*n as int));
                    }
                    let digits = crate::utils::u64_to_dec(mag);
                    String::from_str("-").concat(digits.as_str())
                } else {
                    crate::utils::u64_to_dec(*n as u64)
                }
            },
            MamlValue::Float(s) => s.clone(),
            MamlValue::String(s) => {
                let mut r = String::from_str("\"");
                let body = escape_body(s);
                r.append(body.as_str());
                r.append("\"");
                r
            },
            MamlValue::Array(a) => {
                let ghost av = Self::arr_view(a@);
                proof {
                    Self::lemma_arr_view(a@);
                }
                let n: usize = a.len();
                let mut r = String::from_str("[");
                let mut i: usize = 0;
                while i < n
                    invariant
                        i <= n,
                        n == a@.len(),
                        av == Self::arr_view(a@),
                        av.len() == n,
                        forall|x: int| 0 <= x < n ==> av[x] == a@[x]@,
                        arr_text(av, 0, "["@) == arr_text(av, i as int, r@),
                    decreases n - i,
                {
                    if i > 0 {
                        r.append(", ");
                    }
                    let piece = a[i].to_text();
                    r.append(piece.as_str());
                    i = i + 1;
                }
                r.append("]");
                r
            },
            MamlValue::Object(m) => {
                let ghost mv = Self::obj_view(m@);
                proof {
                    Self::lemma_obj_view(m@);
                }
                let n: usize = m.len();
                let mut r = String::from_str("{");
                let mut i: usize = 0;
                while i < n
                    invariant
                        i <= n,
                        n == m@.len(),
                        mv == Self::obj_view(m@),
                        mv.len() == n,
                        forall|x: int| 0 <= x < n ==> mv[x] == (m@[x].0@, m@[x].1@),
                        obj_text(mv, 0, "{"@) == obj_text(mv, i as int, r@),
                    decreases n - i,
                {
                    if i > 0 {
                        r.append(", ");
                    }
                    r.append("\"");
                    let key = escape_body(&m[i].0);
                    r.append(key.as_str());
                    r.append("\": ");
                    let piece = m[i].1.to_text();
                    r.append(piece.as_str());
                    i = i + 1;
                }
                r.append("}");
                r
            },
        }
    }
}


impl MamlValue {
    /// Look up a key in an object: the value of the member carrying it,
    /// `None` for a missing key or on anything that is not an object.
    pub fn get(&self, key: &str) -> (r: Option<&MamlValue>)
        ensures
            ({
                match self@ {
                    SpecValue::Object(ms) => match r {
                        Some(v) => crate::parser::obj_lookup(ms, key@) == Some(v@),
                        None => crate::parser::obj_lookup(ms, key@) is None,
                    },
                    _ => r is None,
                }
            }),
    {
        match self {
            MamlValue::Object(m) => {
                let ghost ms = Self::obj_view(m@);
                proof {
                    Self::lemma_obj_view(m@);
                }
                let k = String::from_str(key);
                let n: usize = m.len();
                let mut i: usize = 0;
                while i < n && !(m[i].0 == k)
                    invariant
                        i <= n,
                        n == m@.len(),
                        k@ == key@,
                        ms == Self::obj_view(m@),
                        ms.len() == n,
                        forall|x: int| 0 <= x < n ==> ms[x] == (m@[x].0@, m@[x].1@),
                        forall|x: int| 0 <= x < i ==> ms[x].0 != key@,
                    decreases n - i,
                {
                    i = i + 1;
                }
                if i < n {
                    proof {
                        crate::parser::lemma_obj_lookup_found(ms, key@, i as int);
                    }
                    Some(&m[i].1)
                } else {
                    proof {
                        crate::parser::lemma_obj_lookup_absent(ms, key@);
                    }
                    None
                }
            },
            _ => None,
        }
    }
}


// --- the escaping is decoded back exactly (round-trip direction) ---
pub proof fn lemma_esc_text_factor(sc: Seq<char>, i: int, acc: Seq<char>)
    ensures
        esc_text(sc, i, acc) == acc + esc_text(sc, i, Seq::empty()),
    decreases sc.len() - i,
{
    if 0 <= i < sc.len() {
        lemma_esc_text_factor(sc, i + 1, acc + esc_char(sc[i]));
        lemma_esc_text_factor(sc, i + 1, Seq::empty() + esc_char(sc[i]));
        assert(Seq::empty() + esc_char(sc[i]) =~= esc_char(sc[i]));
        assert(acc + esc_char(sc[i]) + esc_text(sc, i + 1, Seq::empty()) =~= acc + (esc_char(sc[i])
            + esc_text(sc, i + 1, Seq::empty())));
    } else {
        assert(acc + Seq::<char>::empty() =~= acc);
    }
}

/// Decoding the escaped text of `sc[i..]` appends exactly `sc[i..]`.
pub proof fn lemma_decode_escaped(sc: Seq<char>, i: int, s: Seq<char>, p: int, acc: Seq<char>)
    requires
        0 <= i <= sc.len(),
        0 <= p <= s.len(),
        s.subrange(p, s.len() as int) == esc_text(sc, i, Seq::empty()),
    ensures
        crate::utils::spec_decode(s, p, acc) == Some(acc + sc.subrange(i, sc.len() as int)),
    decreases sc.len() - i,
{
    reveal_strlit("\\\"");
    reveal_strlit("\\\\");
    reveal_strlit("\\n");
    reveal_strlit("\\r");
    reveal_strlit("\\t");
    reveal_strlit("\\b");
    reveal_strlit("\\f");
    reveal_strlit("\\u{");
    reveal_strlit("}");
    let whole = s.subrange(p, s.len() as int);
    if i == sc.len() {
        assert(whole.len() == 0);
        assert(p == s.len());
        assert(acc + sc.subrange(i, sc.len() as int) =~= acc);
    } else {
        let c = sc[i];
        let e = esc_char(c);
        lemma_esc_text_factor(sc, i + 1, e);
        let rest = esc_text(sc, i + 1, Seq::empty());
        assert(whole == e + rest);
        let ln = e.len() as int;
        assert(whole.len() == ln + rest.len());
        assert(forall|k: int| 0 <= k < ln ==> #[trigger] whole[k] == e[k]);
        assert(forall|k: int| 0 <= k < whole.len() ==> #[trigger] whole[k] == s[p + k]);
        assert forall|k: int| 0 <= k < ln implies #[trigger] s[p + k] == e[k] by {
            assert(whole[k] == s[p + k]);
        }
        assert(s.subrange(p + ln, s.len() as int) =~= rest) by {
            assert forall|k: int| 0 <= k < rest.len() implies #[trigger] s.subrange(
                p + ln,
                s.len() as int,
            )[k] == rest[k] by {
                assert(s.subrange(p + ln, s.len() as int)[k] == s[p + ln + k]);
                assert(whole[ln + k] == s[p + (ln + k)]);
                assert(whole[ln + k] == rest[k]);
            }
        }
        if c == '"' || c == '\\' || c == '\n' || c == '\r' || c == '\t' || c == '\u{8}' || c
            == '\u{c}' {
            assert(ln == 2);
            assert(s[p + 0] == e[0] && s[p + 1] == e[1]);
            assert(e[0] == '\\');
            assert(crate::utils::simple_escape(e[1]) == Some(c));
            assert(p + 1 < s.len());
            assert(s[p] == '\\' && s[p + 1] != 'u');
            lemma_decode_escaped(sc, i + 1, s, p + 2, acc.push(c));
            assert(acc.push(c) + sc.subrange(i + 1, sc.len() as int) =~= acc + sc.subrange(
                i,
                sc.len() as int,
            ));
        } else if (c as u32) < 0x20 {
            let code = (c as u32) as nat;
            let hx = crate::utils::hex_seq(code);
            crate::utils::lemma_hex_seq_shape(code);
            let hl = hx.len() as int;
            assert(e == "\\u{"@ + hx + "}"@);
            assert(ln == hl + 4);
            assert(forall|k: int| 0 <= k < 3 ==> #[trigger] e[k] == "\\u{"@[k]);
            assert forall|k: int| 0 <= k < hl implies #[trigger] e[3 + k] == hx[k] by {
                assert(("\\u{"@ + hx)[3 + k] == hx[k]);
                assert(e[3 + k] == ("\\u{"@ + hx)[3 + k]);
            }
            assert(e[3 + hl] == '}') by {
                assert(e[3 + hl] == "}"@[0]);
            }
            assert(s[p + 0] == '\\' && s[p + 1] == 'u' && s[p + 2] == '{');
            assert(s[p] == '\\');
            assert forall|k: int|
                p + 3 <= k < p + 3 + hl implies crate::utils::is_hex_digit(#[trigger] s[k]) by {
                assert(s[p + (k - p)] == e[k - p]);
                assert(e[3 + (k - p - 3)] == hx[k - p - 3]);
            }
            assert forall|k: int| 0 <= k < hl implies #[trigger] s[p + 3 + k] == hx[k] by {
                assert(s[p + (3 + k)] == e[3 + k]);
            }
            assert(s[p + (3 + hl)] == e[3 + hl]);
            assert(s[p + 3 + hl] == '}');
            assert(!crate::utils::is_hex_digit('}'));
            crate::utils::lemma_hex_run_end_is(s, p + 3, p + 3 + hl);
            crate::utils::lemma_hex_val_shift(s, p + 3, hx, 0, hl);
            crate::utils::lemma_hex_val_inverse(code);
            assert(crate::utils::hex_val(s, p + 3, p + 3 + hl) == code);
            assert(1 <= hl <= 6);
            assert(crate::utils::is_scalar_value(code));
            assert((code as char) == c) by {
                vstd::utf8::char_u32_cast(c, c as u32);
                assert(code as u32 == c as u32);
            }
            assert(p + 3 + hl + 1 == p + ln);
            lemma_decode_escaped(sc, i + 1, s, p + ln, acc.push(c));
            assert(acc.push(c) + sc.subrange(i + 1, sc.len() as int) =~= acc + sc.subrange(
                i,
                sc.len() as int,
            ));
        } else {
            assert(e =~= seq![c]);
            assert(s[p + 0] == e[0]);
            assert(s[p] == c && c != '\\');
            lemma_decode_escaped(sc, i + 1, s, p + 1, acc.push(c));
            assert(acc.push(c) + sc.subrange(i + 1, sc.len() as int) =~= acc + sc.subrange(
                i,
                sc.len() as int,
            ));
        }
    }
}

} // verus!
