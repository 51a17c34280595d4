//! The value parser: a recursive-descent grammar over the token sequence,
//! with local error recovery.
//!
//! Grammar: a value is `null`, `true`, `false`, a number, a string, an
//! array `[ ... ]` or an object `{ ... }`. Elements and members are
//! separated by one comma or by newlines (at most one comma per
//! separation); a trailing separator before the closing delimiter is
//! allowed, and newlines may pad the inside of the delimiters and the top
//! level. Object keys are quoted strings or bare keys; a duplicate key
//! replaces the value of the earlier member and keeps its place (last key
//! wins). On a malformed array or object body the parser skips forward,
//! balancing delimiters, to the matching closing delimiter, substitutes an
//! empty array or object, records one error spanning the region, and
//! resumes with the siblings; nesting is limited to [`crate::MAX_DEPTH`].

use vstd::prelude::*;
use vstd::pervasive::VecAdditionalExecFns;
use vstd::string::StringExecFns;

use crate::errors_view;
use crate::spec_text;
use crate::utils::dec_seq;
use crate::tokenizer::spec_describe;
use crate::tokenizer::step_idx;
use crate::tokenizer::toks_view;
use crate::tokenizer::SpannedTok;
use crate::tokenizer::SpecToken;
use crate::tokenizer::Token;
use crate::ErrorReason;
use crate::MamlValue;
use crate::ParseError;
use crate::Span;
use crate::SpecError;
use crate::SpecValue;

verus! {

/// Where an end-of-input diagnostic points: just after the last token.
pub open spec fn eof_at(ts: Seq<SpannedTok>) -> int {
    if ts.len() == 0 {
        0
    } else {
        ts[ts.len() - 1].end
    }
}

/// First index at or after `i` whose token is not a newline.
pub open spec fn skip_nl(ts: Seq<SpannedTok>, i: int) -> int
    decreases ts.len() - i,
{
    if i < 0 || i >= ts.len() || !(ts[i].tok is Newline) {
        i
    } else {
        skip_nl(ts, i + 1)
    }
}

/// Insert a member, replacing the value of an existing equal key in place
/// (last key wins), else appending.
pub open spec fn obj_insert(
    ms: Seq<(Seq<char>, SpecValue)>,
    k: Seq<char>,
    v: SpecValue,
) -> Seq<(Seq<char>, SpecValue)>
    decreases ms.len(),
{
    if ms.len() == 0 {
        seq![(k, v)]
    } else if ms[0].0 == k {
        seq![(k, v)] + ms.subrange(1, ms.len() as int)
    } else {
        seq![ms[0]] + obj_insert(ms.subrange(1, ms.len() as int), k, v)
    }
}

/// Index just after the closing delimiter `close` that matches an already
/// open one, scanning from `j` at nesting level `depth` and balancing both
/// bracket kinds, or -1 when the input ends first or the match is the
/// wrong kind of delimiter.
pub open spec fn skip_bal(ts: Seq<SpannedTok>, j: int, depth: int, close: SpecToken) -> int
    decreases ts.len() - j,
{
    if j < 0 || j >= ts.len() {
        -1
    } else {
        let t = ts[j].tok;
        if t is LBracket || t is LBrace {
            skip_bal(ts, j + 1, depth + 1, close)
        } else if t is RBracket || t is RBrace {
            if depth <= 1 {
                if t == close {
                    j + 1
                } else {
                    -1
                }
            } else {
                skip_bal(ts, j + 1, depth - 1, close)
            }
        } else {
            skip_bal(ts, j + 1, depth, close)
        }
    }
}

pub open spec fn perr(reason: ErrorReason, start: int, end: int, msg: Seq<char>) -> SpecError {
    SpecError { start, end, reason, msg }
}

/// The error recorded for a recovered malformed region `ts[open..after)`.
pub open spec fn region_err(ts: Seq<SpannedTok>, open: int, after: int, msg: Seq<char>) -> SpecError {
    perr(ErrorReason::Unexpected, ts[open].start, ts[after - 1].end, msg)
}

/// Outcome of parsing one value: the value, the index after it, and the
/// diagnostics recorded so far; or a failure, with the diagnostics
/// recorded before it.
pub enum PRes {
    Good { v: SpecValue, next: int, errs: Seq<SpecError> },
    Bad { err: SpecError, errs: Seq<SpecError> },
}

/// Outcome of parsing the elements of an array (`next` is the index just
/// after the closing bracket).
pub enum ARes {
    Good { vs: Seq<SpecValue>, next: int, errs: Seq<SpecError> },
    Bad { err: SpecError, errs: Seq<SpecError> },
}

/// Outcome of parsing the members of an object.
pub enum ORes {
    Good { ms: Seq<(Seq<char>, SpecValue)>, next: int, errs: Seq<SpecError> },
    Bad { err: SpecError, errs: Seq<SpecError> },
}

/// Parse one value at `i` with `d` nesting levels left.
pub open spec fn spec_value(ts: Seq<SpannedTok>, i: int, d: int, errs: Seq<SpecError>) -> PRes
    decreases d, ts.len() - i, 0int,
{
    if i < 0 || i >= ts.len() {
        PRes::Bad { err: perr(ErrorReason::Expected, eof_at(ts), eof_at(ts), "expected a value"@), errs }
    } else {
        let t = ts[i].tok;
        match t {
            SpecToken::Null => PRes::Good { v: SpecValue::Null, next: i + 1, errs },
            SpecToken::True => PRes::Good { v: SpecValue::Bool(true), next: i + 1, errs },
            SpecToken::False => PRes::Good { v: SpecValue::Bool(false), next: i + 1, errs },
            SpecToken::Int(n) => PRes::Good { v: SpecValue::Int(n), next: i + 1, errs },
            SpecToken::Float(s) => PRes::Good { v: SpecValue::Float(s), next: i + 1, errs },
            SpecToken::Str(s) => PRes::Good { v: SpecValue::Str(s), next: i + 1, errs },
            SpecToken::RawStr(s) => PRes::Good { v: SpecValue::Str(s), next: i + 1, errs },
            SpecToken::LBracket => {
                if d <= 0 {
                    PRes::Bad {
                        err: perr(
                            ErrorReason::Unexpected,
                            ts[i].start,
                            ts[i].end,
                            "maximum nesting depth exceeded"@,
                        ),
                        errs,
                    }
                } else {
                    match spec_elems(ts, i + 1, d - 1, Seq::empty(), errs) {
                        ARes::Good { vs, next, errs: e2 } => PRes::Good {
                            v: SpecValue::Array(vs),
                            next,
                            errs: e2,
                        },
                        ARes::Bad { err, errs: e2 } => {
                            let sk = skip_bal(ts, i + 1, 1, SpecToken::RBracket);
                            if sk >= 0 {
                                PRes::Good {
                                    v: SpecValue::Array(Seq::empty()),
                                    next: sk,
                                    errs: e2.push(region_err(ts, i, sk, "malformed array body"@)),
                                }
                            } else {
                                PRes::Bad { err, errs: e2 }
                            }
                        },
                    }
                }
            },
            SpecToken::LBrace => {
                if d <= 0 {
                    PRes::Bad {
                        err: perr(
                            ErrorReason::Unexpected,
                            ts[i].start,
                            ts[i].end,
                            "maximum nesting depth exceeded"@,
                        ),
                        errs,
                    }
                } else {
                    match spec_members(ts, i + 1, d - 1, Seq::empty(), errs) {
                        ORes::Good { ms, next, errs: e2 } => PRes::Good {
                            v: SpecValue::Object(ms),
                            next,
                            errs: e2,
                        },
                        ORes::Bad { err, errs: e2 } => {
                            let sk = skip_bal(ts, i + 1, 1, SpecToken::RBrace);
                            if sk >= 0 {
                                PRes::Good {
                                    v: SpecValue::Object(Seq::empty()),
                                    next: sk,
                                    errs: e2.push(region_err(ts, i, sk, "malformed object body"@)),
                                }
                            } else {
                                PRes::Bad { err, errs: e2 }
                            }
                        },
                    }
                }
            },
            _ => PRes::Bad {
                err: perr(
                    ErrorReason::Unexpected,
                    ts[i].start,
                    ts[i].end,
                    "unexpected token "@ + spec_describe(t),
                ),
                errs,
            },
        }
    }
}

/// Parse array elements from `j` (just after `[` or a separator) up to and
/// including the closing `]`.
pub open spec fn spec_elems(
    ts: Seq<SpannedTok>,
    j: int,
    d: int,
    vs: Seq<SpecValue>,
    errs: Seq<SpecError>,
) -> ARes
    decreases d, ts.len() - j, 1int,
{
    let m0 = step_idx(skip_nl(ts, j), j, ts.len() as int);
    if m0 >= ts.len() {
        ARes::Bad {
            err: perr(ErrorReason::Expected, eof_at(ts), eof_at(ts), "expected a value or ']'"@),
            errs,
        }
    } else if ts[m0].tok is RBracket {
        ARes::Good { vs, next: m0 + 1, errs }
    } else {
        match spec_value(ts, m0, d, errs) {
            PRes::Bad { err, errs: e1 } => ARes::Bad { err, errs: e1 },
            PRes::Good { v, next, errs: e1 } => {
                let k = step_idx(next, m0 + 1, ts.len() as int);
                let m = step_idx(skip_nl(ts, k), k, ts.len() as int);
                let vs1 = vs.push(v);
                if m >= ts.len() {
                    ARes::Bad {
                        err: perr(
                            ErrorReason::Expected,
                            eof_at(ts),
                            eof_at(ts),
                            "expected ',' or ']'"@,
                        ),
                        errs: e1,
                    }
                } else if ts[m].tok is RBracket {
                    ARes::Good { vs: vs1, next: m + 1, errs: e1 }
                } else if ts[m].tok is Comma {
                    spec_elems(ts, m + 1, d, vs1, e1)
                } else if m > k {
                    spec_elems(ts, m, d, vs1, e1)
                } else {
                    ARes::Bad {
                        err: perr(
                            ErrorReason::Expected,
                            ts[m].start,
                            ts[m].end,
                            "expected ',' or ']'"@,
                        ),
                        errs: e1,
                    }
                }
            },
        }
    }
}

/// Parse object members from `j` (just after `{` or a separator) up to and
/// including the closing `}`.
pub open spec fn spec_members(
    ts: Seq<SpannedTok>,
    j: int,
    d: int,
    ms: Seq<(Seq<char>, SpecValue)>,
    errs: Seq<SpecError>,
) -> ORes
    decreases d, ts.len() - j, 1int,
{
    let m0 = step_idx(skip_nl(ts, j), j, ts.len() as int);
    if m0 >= ts.len() {
        ORes::Bad {
            err: perr(ErrorReason::Expected, eof_at(ts), eof_at(ts), "expected a key or '}'"@),
            errs,
        }
    } else if ts[m0].tok is RBrace {
        ORes::Good { ms, next: m0 + 1, errs }
    } else {
        let key = match ts[m0].tok {
            SpecToken::Str(s) => Some(s),
            SpecToken::Key(s) => Some(s),
            _ => None,
        };
        match key {
            None => ORes::Bad {
                err: perr(
                    ErrorReason::Expected,
                    ts[m0].start,
                    ts[m0].end,
                    "expected an object key"@,
                ),
                errs,
            },
            Some(k) => {
                if m0 + 1 >= ts.len() || !(ts[m0 + 1].tok is Colon) {
                    ORes::Bad {
                        err: if m0 + 1 >= ts.len() {
                            perr(ErrorReason::Expected, eof_at(ts), eof_at(ts), "expected ':'"@)
                        } else {
                            perr(
                                ErrorReason::Expected,
                                ts[m0 + 1].start,
                                ts[m0 + 1].end,
                                "expected ':'"@,
                            )
                        },
                        errs,
                    }
                } else {
                    match spec_value(ts, m0 + 2, d, errs) {
                        PRes::Bad { err, errs: e1 } => ORes::Bad { err, errs: e1 },
                        PRes::Good { v, next, errs: e1 } => {
                            let k2 = step_idx(next, m0 + 3, ts.len() as int);
                            let m = step_idx(skip_nl(ts, k2), k2, ts.len() as int);
                            let ms1 = obj_insert(ms, k, v);
                            if m >= ts.len() {
                                ORes::Bad {
                                    err: perr(
                                        ErrorReason::Expected,
                                        eof_at(ts),
                                        eof_at(ts),
                                        "expected ',' or '}'"@,
                                    ),
                                    errs: e1,
                                }
                            } else if ts[m].tok is RBrace {
                                ORes::Good { ms: ms1, next: m + 1, errs: e1 }
                            } else if ts[m].tok is Comma {
                                spec_members(ts, m + 1, d, ms1, e1)
                            } else if m > k2 {
                                spec_members(ts, m, d, ms1, e1)
                            } else {
                                ORes::Bad {
                                    err: perr(
                                        ErrorReason::Expected,
                                        ts[m].start,
                                        ts[m].end,
                                        "expected ',' or '}'"@,
                                    ),
                                    errs: e1,
                                }
                            }
                        },
                    }
                }
            },
        }
    }
}

/// Parse a whole token sequence: the root value if one parses, and the
/// diagnostics. A top-level failure or trailing input yields no value; a
/// value recovered from malformed regions is returned together with the
/// recorded diagnostics.
pub open spec fn spec_parse_tokens(ts: Seq<SpannedTok>) -> (Option<SpecValue>, Seq<SpecError>) {
    let i0 = step_idx(skip_nl(ts, 0), 0, ts.len() as int);
    match spec_value(ts, i0, crate::MAX_DEPTH as int, Seq::empty()) {
        PRes::Bad { err, errs } => (None, errs.push(err)),
        PRes::Good { v, next, errs } => {
            let m = step_idx(skip_nl(ts, next), next, ts.len() as int);
            if m < ts.len() {
                (
                    None,
                    errs.push(
                        perr(
                            ErrorReason::Unexpected,
                            ts[m].start,
                            ts[m].end,
                            "unexpected trailing input"@,
                        ),
                    ),
                )
            } else {
                (Some(v), errs)
            }
        },
    }
}


// --- exec parsing ---
/// Exec mirror of [`eof_at`].
fn eof_pos(ts: &Vec<(Token, Span)>) -> (p: usize)
    ensures
        p as int == eof_at(toks_view(ts@)),
{
    if ts.len() == 0 {
        0
    } else {
        ts[ts.len() - 1].1.end
    }
}

/// Exec mirror of [`skip_nl`] (clamped form).
fn skip_newlines(ts: &Vec<(Token, Span)>, i: usize) -> (r: usize)
    requires
        i <= ts@.len(),
    ensures
        i <= r <= ts@.len(),
        r as int == skip_nl(toks_view(ts@), i as int),
        r as int == step_idx(skip_nl(toks_view(ts@), i as int), i as int, ts@.len() as int),
{
    let n: usize = ts.len();
    let mut cur: usize = i;
    while cur < n && matches!(ts[cur].0, Token::Newline)
        invariant
            i <= cur <= n,
            n == ts@.len(),
            skip_nl(toks_view(ts@), i as int) == skip_nl(toks_view(ts@), cur as int),
        decreases n - cur,
    {
        cur = cur + 1;
    }
    cur
}

/// Exec mirror of [`skip_bal`], entered one level inside an opened
/// delimiter; `want_bracket` selects `]` over `}` as the matching close.
fn skip_balanced(ts: &Vec<(Token, Span)>, j: usize, want_bracket: bool) -> (r: Option<usize>)
    requires
        j <= ts@.len(),
    ensures
        ({
            let close = if want_bracket {
                SpecToken::RBracket
            } else {
                SpecToken::RBrace
            };
            match r {
                Some(p) => skip_bal(toks_view(ts@), j as int, 1, close) == p as int && j < p
                    <= ts@.len(),
                None => skip_bal(toks_view(ts@), j as int, 1, close) == -1,
            }
        }),
{
    let ghost close = if want_bracket {
        SpecToken::RBracket
    } else {
        SpecToken::RBrace
    };
    let n: usize = ts.len();
    let mut cur: usize = j;
    let mut depth: u128 = 1;
    loop
        invariant
            j <= cur <= n,
            n == ts@.len(),
            1 <= depth <= 1 + (cur - j),
            close == (if want_bracket {
                SpecToken::RBracket
            } else {
                SpecToken::RBrace
            }),
            skip_bal(toks_view(ts@), j as int, 1, close) == skip_bal(
                toks_view(ts@),
                cur as int,
                depth as int,
                close,
            ),
        decreases n - cur,
    {
        if cur >= n {
            return None;
        }
        match ts[cur].0 {
            Token::LBracket => {
                depth = depth + 1;
            },
            Token::LBrace => {
                depth = depth + 1;
            },
            Token::RBracket => {
                if depth == 1 {
                    if want_bracket {
                        return Some(cur + 1);
                    } else {
                        return None;
                    }
                }
                depth = depth - 1;
            },
            Token::RBrace => {
                if depth == 1 {
                    if !want_bracket {
                        return Some(cur + 1);
                    } else {
                        return None;
                    }
                }
                depth = depth - 1;
            },
            _ => {},
        }
        cur = cur + 1;
    }
}

// --- last-key-wins insertion ---
proof fn lemma_obj_insert_found(ms: Seq<(Seq<char>, SpecValue)>, k: Seq<char>, v: SpecValue, idx: int)
    requires
        0 <= idx < ms.len(),
        ms[idx].0 == k,
        forall|x: int| 0 <= x < idx ==> ms[x].0 != k,
    ensures
        obj_insert(ms, k, v) =~= ms.update(idx, (k, v)),
    decreases ms.len(),
{
    if idx == 0 {
        assert(obj_insert(ms, k, v) == seq![(k, v)] + ms.subrange(1, ms.len() as int));
    } else {
        let rest = ms.subrange(1, ms.len() as int);
        lemma_obj_insert_found(rest, k, v, idx - 1);
        assert(obj_insert(ms, k, v) == seq![ms[0]] + obj_insert(rest, k, v));
        assert(obj_insert(ms, k, v) =~= ms.update(idx, (k, v)));
    }
}

proof fn lemma_obj_insert_absent(ms: Seq<(Seq<char>, SpecValue)>, k: Seq<char>, v: SpecValue)
    requires
        forall|x: int| 0 <= x < ms.len() ==> ms[x].0 != k,
    ensures
        obj_insert(ms, k, v) =~= ms.push((k, v)),
    decreases ms.len(),
{
    if ms.len() > 0 {
        let rest = ms.subrange(1, ms.len() as int);
        lemma_obj_insert_absent(rest, k, v);
        assert(obj_insert(ms, k, v) == seq![ms[0]] + obj_insert(rest, k, v));
        assert(obj_insert(ms, k, v) =~= ms.push((k, v)));
    }
}

/// Insert a member into an object under construction: a duplicate key
/// replaces the value of the earlier member in place (last key wins).
fn insert_member(ms: &mut Vec<(String, MamlValue)>, key: String, v: MamlValue)
    ensures
        MamlValue::obj_view(final(ms)@) == obj_insert(MamlValue::obj_view(old(ms)@), key@, v@),
{
    let n: usize = ms.len();
    let ghost gms = MamlValue::obj_view(ms@);
    proof {
        MamlValue::lemma_obj_view(ms@);
    }
    let mut idx: usize = 0;
    while idx < n && !(ms[idx].0 == key)
        invariant
            0 <= idx <= n,
            n == ms@.len(),
            gms == MamlValue::obj_view(ms@),
            gms.len() == n,
            forall|x: int| 0 <= x < idx ==> gms[x].0 != key@,
            forall|x: int| 0 <= x < n ==> gms[x] == (ms@[x].0@, ms@[x].1@),
        decreases n - idx,
    {
        proof {
            assert(gms[idx as int].0 == ms@[idx as int].0@);
        }
        idx = idx + 1;
    }
    if idx < n {
        proof {
            assert(gms[idx as int].0 == key@);
            lemma_obj_insert_found(gms, key@, v@, idx as int);
        }
        ms.set(idx, (key, v));
        proof {
            MamlValue::lemma_obj_view(ms@);
            assert(MamlValue::obj_view(ms@) =~= gms.update(idx as int, (key@, v@)));
        }
    } else {
        proof {
            lemma_obj_insert_absent(gms, key@, v@);
        }
        ms.push((key, v));
        proof {
            MamlValue::lemma_obj_view(ms@);
            assert(MamlValue::obj_view(ms@) =~= gms.push((key@, v@)));
        }
    }
}

/// Parse one value at `i` with `d` nesting levels left, appending the
/// diagnostics of recovered regions to `errs`.
fn parse_value(
    ts: &Vec<(Token, Span)>,
    i: usize,
    d: usize,
    errs: &mut Vec<ParseError>,
) -> (r: Result<(MamlValue, usize), ParseError>)
    ensures
        match spec_value(toks_view(ts@), i as int, d as int, errors_view(old(errs)@)) {
            PRes::Good { v, next, errs: es } => r is Ok && r->Ok_0.0@ == v && r->Ok_0.1 as int
                == next && errors_view(final(errs)@) == es && i < r->Ok_0.1 <= ts@.len(),
            PRes::Bad { err, errs: es } => r is Err && r->Err_0@ == err && errors_view(
                final(errs)@,
            ) == es,
        },
    decreases d, 0int,
{
    let n: usize = ts.len();
    if i >= n {
        let p = eof_pos(ts);
        return Err(crate::make_err(ErrorReason::Expected, p, p, "expected a value"));
    }
    let sp = ts[i].1;
    match &ts[i].0 {
        Token::Null => Ok((MamlValue::Null, i + 1)),
        Token::True => Ok((MamlValue::Bool(true), i + 1)),
        Token::False => Ok((MamlValue::Bool(false), i + 1)),
        Token::Int(v) => Ok((MamlValue::Int(*v), i + 1)),
        Token::Float(s) => Ok((MamlValue::Float(s.clone()), i + 1)),
        Token::String(s) => Ok((MamlValue::String(s.clone()), i + 1)),
        Token::RawString(s) => Ok((MamlValue::String(s.clone()), i + 1)),
        Token::LBracket => {
            if d == 0 {
                Err(
                    crate::make_err(
                        ErrorReason::Unexpected,
                        sp.start,
                        sp.end,
                        "maximum nesting depth exceeded",
                    ),
                )
            } else {
                match parse_array_body(ts, i, d - 1, errs) {
                    Ok((vals, next)) => Ok((MamlValue::Array(vals), next)),
                    Err(e) => match skip_balanced(ts, i + 1, true) {
                        Some(p) => {
                            let ghost before = errors_view(errs@);
                            errs.push(
                                crate::make_err(
                                    ErrorReason::Unexpected,
                                    sp.start,
                                    ts[p - 1].1.end,
                                    "malformed array body",
                                ),
                            );
                            proof {
                                assert(errors_view(errs@) =~= before.push(
                                    region_err(toks_view(ts@), i as int, p as int, "malformed array body"@),
                                ));
                                assert(MamlValue::arr_view(Seq::<MamlValue>::empty())
                                    =~= Seq::<SpecValue>::empty());
                            }
                            let empty_vec: Vec<MamlValue> = Vec::new();
                            Ok((MamlValue::Array(empty_vec), p))
                        },
                        None => Err(e),
                    },
                }
            }
        },
        Token::LBrace => {
            if d == 0 {
                Err(
                    crate::make_err(
                        ErrorReason::Unexpected,
                        sp.start,
                        sp.end,
                        "maximum nesting depth exceeded",
                    ),
                )
            } else {
                match parse_object_body(ts, i, d - 1, errs) {
                    Ok((members, next)) => Ok((MamlValue::Object(members), next)),
                    Err(e) => match skip_balanced(ts, i + 1, false) {
                        Some(p) => {
                            let ghost before = errors_view(errs@);
                            errs.push(
                                crate::make_err(
                                    ErrorReason::Unexpected,
                                    sp.start,
                                    ts[p - 1].1.end,
                                    "malformed object body",
                                ),
                            );
                            proof {
                                assert(errors_view(errs@) =~= before.push(
                                    region_err(toks_view(ts@), i as int, p as int, "malformed object body"@),
                                ));
                                assert(MamlValue::obj_view(Seq::<(String, MamlValue)>::empty())
                                    =~= Seq::<(Seq<char>, SpecValue)>::empty());
                            }
                            let empty_vec: Vec<(String, MamlValue)> = Vec::new();
                            Ok((MamlValue::Object(empty_vec), p))
                        },
                        None => Err(e),
                    },
                }
            }
        },
        _ => {
            let desc = ts[i].0.describe();
            let mut m = String::from_str("unexpected token ");
            m.append(desc.as_str());
            Err(ParseError { span: sp, reason: ErrorReason::Unexpected, message: m })
        },
    }
}

/// Parse the elements of the array opened at `ts[open]`, through the
/// closing bracket.
fn parse_array_body(
    ts: &Vec<(Token, Span)>,
    open: usize,
    d: usize,
    errs: &mut Vec<ParseError>,
) -> (r: Result<(Vec<MamlValue>, usize), ParseError>)
    requires
        open < ts@.len(),
    ensures
        match spec_elems(
            toks_view(ts@),
            open + 1,
            d as int,
            Seq::empty(),
            errors_view(old(errs)@),
        ) {
            ARes::Good { vs, next, errs: es } => r is Ok && MamlValue::arr_view(r->Ok_0.0@) == vs
                && r->Ok_0.1 as int == next && errors_view(final(errs)@) == es && open < r->Ok_0.1
                <= ts@.len(),
            ARes::Bad { err, errs: es } => r is Err && r->Err_0@ == err && errors_view(
                final(errs)@,
            ) == es,
        },
    decreases d, 1int,
{
    let n: usize = ts.len();
    let ghost tv = toks_view(ts@);
    let mut vals: Vec<MamlValue> = Vec::new();
    let mut cur: usize = open + 1;
    let ghost e0 = errors_view(errs@);
    proof {
        assert(MamlValue::arr_view(vals@) =~= Seq::<SpecValue>::empty());
    }
    loop
        invariant
            open + 1 <= cur <= n,
            n == ts@.len(),
            tv == toks_view(ts@),
            e0 == errors_view(old(errs)@),
            spec_elems(tv, open + 1, d as int, Seq::empty(), e0) == spec_elems(
                tv,
                cur as int,
                d as int,
                MamlValue::arr_view(vals@),
                errors_view(errs@),
            ),
        decreases n - cur,
    {
        let m0 = skip_newlines(ts, cur);
        if m0 >= n {
            let p = eof_pos(ts);
            return Err(
                crate::make_err(ErrorReason::Expected, p, p, "expected a value or ']'"),
            );
        }
        if matches!(ts[m0].0, Token::RBracket) {
            return Ok((vals, m0 + 1));
        }
        match parse_value(ts, m0, d, errs) {
            Err(e) => {
                return Err(e);
            },
            Ok((v, next)) => {
                let m = skip_newlines(ts, next);
                let ghost old_vals = vals@;
                vals.push(v);
                proof {
                    assert(vals@.drop_last() =~= old_vals);
                    assert(MamlValue::arr_view(vals@) == MamlValue::arr_view(old_vals).push(
                        vals@.last()@,
                    ));
                }
                if m >= n {
                    let p = eof_pos(ts);
                    return Err(
                        crate::make_err(ErrorReason::Expected, p, p, "expected ',' or ']'"),
                    );
                }
                if matches!(ts[m].0, Token::RBracket) {
                    return Ok((vals, m + 1));
                }
                if matches!(ts[m].0, Token::Comma) {
                    cur = m + 1;
                } else if m > next {
                    cur = m;
                } else {
                    return Err(
                        crate::make_err(
                            ErrorReason::Expected,
                            ts[m].1.start,
                            ts[m].1.end,
                            "expected ',' or ']'",
                        ),
                    );
                }
            },
        }
    }
}

/// Parse the members of the object opened at `ts[open]`, through the
/// closing brace.
fn parse_object_body(
    ts: &Vec<(Token, Span)>,
    open: usize,
    d: usize,
    errs: &mut Vec<ParseError>,
) -> (r: Result<(Vec<(String, MamlValue)>, usize), ParseError>)
    requires
        open < ts@.len(),
    ensures
        match spec_members(
            toks_view(ts@),
            open + 1,
            d as int,
            Seq::empty(),
            errors_view(old(errs)@),
        ) {
            ORes::Good { ms, next, errs: es } => r is Ok && MamlValue::obj_view(r->Ok_0.0@) == ms
                && r->Ok_0.1 as int == next && errors_view(final(errs)@) == es && open < r->Ok_0.1
                <= ts@.len(),
            ORes::Bad { err, errs: es } => r is Err && r->Err_0@ == err && errors_view(
                final(errs)@,
            ) == es,
        },
    decreases d, 1int,
{
    let n: usize = ts.len();
    let ghost tv = toks_view(ts@);
    let mut members: Vec<(String, MamlValue)> = Vec::new();
    let mut cur: usize = open + 1;
    let ghost e0 = errors_view(errs@);
    proof {
        assert(MamlValue::obj_view(members@) =~= Seq::<(Seq<char>, SpecValue)>::empty());
    }
    loop
        invariant
            open + 1 <= cur <= n,
            n == ts@.len(),
            tv == toks_view(ts@),
            e0 == errors_view(old(errs)@),
            spec_members(tv, open + 1, d as int, Seq::empty(), e0) == spec_members(
                tv,
                cur as int,
                d as int,
                MamlValue::obj_view(members@),
                errors_view(errs@),
            ),
        decreases n - cur,
    {
        let m0 = skip_newlines(ts, cur);
        if m0 >= n {
            let p = eof_pos(ts);
            return Err(
                crate::make_err(ErrorReason::Expected, p, p, "expected a key or '}'"),
            );
        }
        if matches!(ts[m0].0, Token::RBrace) {
            return Ok((members, m0 + 1));
        }
        let key: Option<String> = match &ts[m0].0 {
            Token::String(s) => Some(s.clone()),
            Token::Key(s) => Some(s.clone()),
            _ => None,
        };
        match key {
            None => {
                return Err(
                    crate::make_err(
                        ErrorReason::Expected,
                        ts[m0].1.start,
                        ts[m0].1.end,
                        "expected an object key",
                    ),
                );
            },
            Some(k) => {
                if m0 + 1 >= n {
                    let p = eof_pos(ts);
                    return Err(crate::make_err(ErrorReason::Expected, p, p, "expected ':'"));
                }
                if !matches!(ts[m0 + 1].0, Token::Colon) {
                    return Err(
                        crate::make_err(
                            ErrorReason::Expected,
                            ts[m0 + 1].1.start,
                            ts[m0 + 1].1.end,
                            "expected ':'",
                        ),
                    );
                }
                match parse_value(ts, m0 + 2, d, errs) {
                    Err(e) => {
                        return Err(e);
                    },
                    Ok((v, next)) => {
                        let m = skip_newlines(ts, next);
                        insert_member(&mut members, k, v);
                        if m >= n {
                            let p = eof_pos(ts);
                            return Err(
                                crate::make_err(
                                    ErrorReason::Expected,
                                    p,
                                    p,
                                    "expected ',' or '}'",
                                ),
                            );
                        }
                        if matches!(ts[m].0, Token::RBrace) {
                            return Ok((members, m + 1));
                        }
                        if matches!(ts[m].0, Token::Comma) {
                            cur = m + 1;
                        } else if m > next {
                            cur = m;
                        } else {
                            return Err(
                                crate::make_err(
                                    ErrorReason::Expected,
                                    ts[m].1.start,
                                    ts[m].1.end,
                                    "expected ',' or '}'",
                                ),
                            );
                        }
                    },
                }
            },
        }
    }
}

/// Parse a token sequence into a value and a list of diagnostics. A value
/// comes back together with diagnostics when malformed regions were
/// recovered; a top-level failure yields no value.
pub fn parser(tokens: &Vec<(Token, Span)>) -> (r: (Option<MamlValue>, Vec<ParseError>))
    ensures
        ({
            let pr = spec_parse_tokens(toks_view(tokens@));
            (match r.0 {
                Some(v) => pr.0 == Some(v@),
                None => pr.0 is None,
            }) && errors_view(r.1@) == pr.1
        }),
{
    let mut errs: Vec<ParseError> = Vec::new();
    proof {
        assert(errors_view(errs@) =~= Seq::<SpecError>::empty());
    }
    let i0 = skip_newlines(tokens, 0);
    match parse_value(tokens, i0, crate::MAX_DEPTH, &mut errs) {
        Err(e) => {
            let ghost before = errors_view(errs@);
            let ghost ge = e@;
            errs.push(e);
            proof {
                assert(errors_view(errs@) =~= before.push(ge));
            }
            (None, errs)
        },
        Ok((v, next)) => {
            let m = skip_newlines(tokens, next);
            if m < tokens.len() {
                let ghost before = errors_view(errs@);
                errs.push(
                    crate::make_err(
                        ErrorReason::Unexpected,
                        tokens[m].1.start,
                        tokens[m].1.end,
                        "unexpected trailing input",
                    ),
                );
                proof {
                    let tv = toks_view(tokens@);
                    assert(errors_view(errs@) =~= before.push(
                        perr(
                            ErrorReason::Unexpected,
                            tv[m as int].start,
                            tv[m as int].end,
                            "unexpected trailing input"@,
                        ),
                    ));
                }
                (None, errs)
            } else {
                (Some(v), errs)
            }
        },
    }
}


/// The message of a fatal lexer error, as [`from_str`] reports it.
pub open spec fn lex_error_text(start: int, end: int) -> Seq<char> {
    "Lexer error at "@ + crate::utils::dec_seq(start as nat) + ".."@ + crate::utils::dec_seq(
        end as nat,
    )
}

/// What [`from_str`] returns for a given text: the parsed tree, or the
/// rendered diagnostic text.
pub open spec fn spec_from_str(s: Seq<char>) -> Result<SpecValue, Seq<char>> {
    match crate::tokenizer::spec_tokenize(s) {
        Err(e) => Err(lex_error_text(e.start, e.end)),
        Ok(ts) => {
            let pr = spec_parse_tokens(ts);
            if pr.1.len() == 0 {
                match pr.0 {
                    Some(v) => Ok(v),
                    None => Err("Unexpected parsing failure"@),
                }
            } else {
                Err(crate::render::spec_reports("<input>"@, s, pr.1, 0, Seq::empty()))
            }
        },
    }
}

fn lex_error_message(start: usize, end: usize) -> (r: String)
    ensures
        r@ == lex_error_text(start as int, end as int),
{
    let mut m = String::from_str("Lexer error at ");
    let a = crate::utils::u64_to_dec(start as u64);
    m.append(a.as_str());
    m.append("..");
    let b = crate::utils::u64_to_dec(end as u64);
    m.append(b.as_str());
    m
}

/// Parse a MAML text into a value tree. On any failure the error text
/// holds either the lexer error position or one source-annotated report
/// per recorded diagnostic.
pub fn from_str(input: &str) -> (r: Result<MamlValue, String>)
    ensures
        match spec_from_str(input@) {
            Ok(v) => r is Ok && r->Ok_0@ == v,
            Err(m) => r is Err && r->Err_0@ == m,
        },
{
    match crate::tokenizer::tokenize(input) {
        Err(e) => Err(lex_error_message(e.span.start, e.span.end)),
        Ok(ts) => {
            let (val, errs) = parser(&ts);
            if errs.len() == 0 {
                match val {
                    Some(v) => Ok(v),
                    None => Err(String::from_str("Unexpected parsing failure")),
                }
            } else {
                Err(crate::render::render_errors("<input>", input, &errs))
            }
        },
    }
}

/// What [`parse_with_report`] returns: the parsed tree when the parse is
/// clean, and otherwise no value and the rendered report, annotated with
/// the source name.
pub open spec fn spec_parse_with_report(name: Seq<char>, s: Seq<char>) -> (
    Option<SpecValue>,
    Seq<char>,
) {
    match crate::tokenizer::spec_tokenize(s) {
        Err(e) => (None, lex_error_text(e.start, e.end)),
        Ok(ts) => {
            let pr = spec_parse_tokens(ts);
            if pr.1.len() == 0 {
                match pr.0 {
                    Some(v) => (Some(v), Seq::empty()),
                    None => (None, "Unexpected parsing failure"@),
                }
            } else {
                (None, crate::render::spec_reports(name, s, pr.1, 0, Seq::empty()))
            }
        },
    }
}

/// Parse with detailed error reporting: on failure the returned text holds
/// one source-annotated report per diagnostic, under the supplied source
/// name, for the caller to print; it is empty exactly when a value comes
/// back.
pub fn parse_with_report(filename: &str, input: &str) -> (r: (Option<MamlValue>, String))
    ensures
        ({
            let pr = spec_parse_with_report(filename@, input@);
            (match r.0 {
                Some(v) => pr.0 == Some(v@),
                None => pr.0 is None,
            }) && r.1@ == pr.1
        }),
{
    match crate::tokenizer::tokenize(input) {
        Err(e) => (None, lex_error_message(e.span.start, e.span.end)),
        Ok(ts) => {
            let (val, errs) = parser(&ts);
            if errs.len() == 0 {
                match val {
                    Some(v) => (Some(v), String::new()),
                    None => (None, String::from_str("Unexpected parsing failure")),
                }
            } else {
                (None, crate::render::render_errors(filename, input, &errs))
            }
        },
    }
}


// --- laws about duplicate keys ---
/// Key lookup in an object model: the value of the first member carrying
/// the key.
pub open spec fn obj_lookup(ms: Seq<(Seq<char>, SpecValue)>, k: Seq<char>) -> Option<SpecValue>
    decreases ms.len(),
{
    if ms.len() == 0 {
        None
    } else if ms[0].0 == k {
        Some(ms[0].1)
    } else {
        obj_lookup(ms.subrange(1, ms.len() as int), k)
    }
}

pub open spec fn obj_keys_unique(ms: Seq<(Seq<char>, SpecValue)>) -> bool {
    forall|i: int, j: int| 0 <= i < j < ms.len() ==> ms[i].0 != ms[j].0
}

/// Law: duplicate object keys are resolved deterministically and last key
/// wins. Inserting a member, the operation every parsed object is built
/// from, makes the key map to the new value, leaves every other key as it
/// was, and keeps the keys unique.
pub proof fn lemma_last_key_wins(ms: Seq<(Seq<char>, SpecValue)>, k: Seq<char>, v: SpecValue)
    requires
        obj_keys_unique(ms),
    ensures
        obj_lookup(obj_insert(ms, k, v), k) == Some(v),
        forall|k2: Seq<char>| k2 != k ==> obj_lookup(obj_insert(ms, k, v), k2) == obj_lookup(
            ms,
            k2,
        ),
        obj_keys_unique(obj_insert(ms, k, v)),
        forall|j: int|
            0 <= j < obj_insert(ms, k, v).len() ==> obj_insert(ms, k, v)[j].0 == k || (exists|i: int|
                0 <= i < ms.len() && ms[i].0 == #[trigger] obj_insert(ms, k, v)[j].0),
    decreases ms.len(),
{
    let res = obj_insert(ms, k, v);
    if ms.len() == 0 {
        assert(res =~= seq![(k, v)]);
        assert forall|k2: Seq<char>| k2 != k implies obj_lookup(res, k2) == obj_lookup(
            ms,
            k2,
        ) by {
            assert(res.subrange(1, res.len() as int) =~= Seq::<(Seq<char>, SpecValue)>::empty());
            assert(obj_lookup(res, k2) == obj_lookup(res.subrange(1, res.len() as int), k2));
        }
    } else {
        let rest = ms.subrange(1, ms.len() as int);
        assert(forall|i: int| 0 <= i < rest.len() ==> rest[i] == ms[i + 1]);
        if ms[0].0 == k {
            assert(res == seq![(k, v)] + rest);
            assert(res[0] == (k, v));
            assert(res.subrange(1, res.len() as int) =~= rest);
            assert forall|k2: Seq<char>| k2 != k implies obj_lookup(res, k2) == obj_lookup(
                ms,
                k2,
            ) by {
                assert(obj_lookup(res, k2) == obj_lookup(rest, k2));
                assert(obj_lookup(ms, k2) == obj_lookup(rest, k2));
            }
            assert forall|i: int, j: int| 0 <= i < j < res.len() implies res[i].0 != res[j].0 by {
                if i == 0 {
                    assert(res[j] == ms[j]);
                    assert(ms[0].0 != ms[j].0);
                } else {
                    assert(res[i] == ms[i] && res[j] == ms[j]);
                }
            }
        } else {
            assert(obj_keys_unique(rest));
            lemma_last_key_wins(rest, k, v);
            let sub = obj_insert(rest, k, v);
            assert(res == seq![ms[0]] + sub);
            assert(res[0] == ms[0]);
            assert(res.subrange(1, res.len() as int) =~= sub);
            assert(obj_lookup(res, k) == obj_lookup(sub, k));
            assert forall|k2: Seq<char>| k2 != k implies obj_lookup(res, k2) == obj_lookup(
                ms,
                k2,
            ) by {
                if k2 == ms[0].0 {
                    assert(obj_lookup(res, k2) == Some(ms[0].1));
                    assert(obj_lookup(ms, k2) == Some(ms[0].1));
                } else {
                    assert(obj_lookup(res, k2) == obj_lookup(sub, k2));
                    assert(obj_lookup(ms, k2) == obj_lookup(rest, k2));
                }
            }
            assert forall|i: int, j: int| 0 <= i < j < res.len() implies res[i].0 != res[j].0 by {
                if i == 0 {
                    assert(res[j].0 == sub[j - 1].0);
                    if sub[j - 1].0 == k {
                        assert(ms[0].0 != k);
                    } else {
                        let w = choose|w: int|
                            0 <= w < rest.len() && rest[w].0 == sub[j - 1].0;
                        assert(ms[w + 1].0 == sub[j - 1].0);
                        assert(ms[0].0 != ms[w + 1].0);
                    }
                } else {
                    assert(res[i].0 == sub[i - 1].0 && res[j].0 == sub[j - 1].0);
                }
            }
            assert forall|j: int|
                0 <= j < res.len() implies res[j].0 == k || (exists|i: int|
                    0 <= i < ms.len() && ms[i].0 == #[trigger] res[j].0) by {
                if j == 0 {
                    assert(ms[0].0 == res[0].0);
                } else {
                    assert(res[j].0 == sub[j - 1].0);
                    if sub[j - 1].0 != k {
                        let w = choose|w: int|
                            0 <= w < rest.len() && rest[w].0 == sub[j - 1].0;
                        assert(ms[w + 1].0 == res[j].0);
                    }
                }
            }
        }
    }
}


pub proof fn lemma_obj_lookup_found(
    ms: Seq<(Seq<char>, SpecValue)>,
    k: Seq<char>,
    idx: int,
)
    requires
        0 <= idx < ms.len(),
        ms[idx].0 == k,
        forall|x: int| 0 <= x < idx ==> ms[x].0 != k,
    ensures
        obj_lookup(ms, k) == Some(ms[idx].1),
    decreases ms.len(),
{
    if idx > 0 {
        let rest = ms.subrange(1, ms.len() as int);
        assert(forall|i: int| 0 <= i < rest.len() ==> rest[i] == ms[i + 1]);
        lemma_obj_lookup_found(rest, k, idx - 1);
    }
}

pub proof fn lemma_obj_lookup_absent(ms: Seq<(Seq<char>, SpecValue)>, k: Seq<char>)
    requires
        forall|x: int| 0 <= x < ms.len() ==> ms[x].0 != k,
    ensures
        obj_lookup(ms, k) is None,
    decreases ms.len(),
{
    if ms.len() > 0 {
        let rest = ms.subrange(1, ms.len() as int);
        assert(forall|i: int| 0 <= i < rest.len() ==> rest[i] == ms[i + 1]);
        lemma_obj_lookup_absent(rest, k);
    }
}


/// Law (round trip, integer case): serializing an integer value and
/// re-parsing the text yields that value back, with no diagnostics.
pub proof fn lemma_round_trip_int(n: i64)
    ensures
        spec_from_str(spec_text(SpecValue::Int(n as int))) == Ok::<SpecValue, Seq<char>>(
            SpecValue::Int(n as int),
        ),
{
    let s = spec_text(SpecValue::Int(n as int));
    let st = SpannedTok {
        tok: SpecToken::Int(n as int),
        start: 0,
        end: s.len() as int,
    };
    if n >= 0 {
        let d = dec_seq(n as nat);
        assert(s == d);
        crate::utils::lemma_dec_seq_shape(n as nat);
        crate::utils::lemma_dec_val_inverse(n as nat);
        assert(s[0] != '-') by {
            assert(crate::utils::is_digit(s[0]));
        }
        crate::tokenizer::lemma_int_literal_exact(s);
        assert(crate::tokenizer::dec_val(s, 0, s.len() as int) == n);
        assert(crate::tokenizer::spec_tokenize(s) == Ok::<Seq<SpannedTok>, SpecError>(seq![st]));
    } else {
        let mag = (-(n as int)) as nat;
        let d = dec_seq(mag);
        crate::utils::lemma_dec_seq_shape(mag);
        crate::utils::lemma_dec_val_inverse(mag);
        reveal_strlit("-");
        assert(s == "-"@ + d);
        assert(s.len() == 1 + d.len());
        assert(s[0] == '-');
        assert(forall|x: int| 1 <= x < s.len() ==> #[trigger] s[x] == d[x - 1]);
        assert(forall|x: int| 1 <= x < s.len() ==> crate::utils::is_digit(#[trigger] s[x]));
        assert(s[1] == d[0]);
        assert(s[1] == '0' ==> mag == 0);
        assert(mag >= 1);
        assert(forall|k: int| 0 <= k < d.len() ==> #[trigger] s[1 + k] == d[0 + k]);
        crate::utils::lemma_dec_val_shift(s, 1, d, 0, d.len() as int);
        assert(crate::tokenizer::dec_val(s, 1, s.len() as int) == mag);
        crate::tokenizer::lemma_int_literal_exact(s);
        assert(mag <= 0x8000000000000000);
        assert(crate::tokenizer::spec_tokenize(s) == Ok::<Seq<SpannedTok>, SpecError>(seq![st]));
    }
    // one Int token parses to the one value, cleanly
    let ts = seq![st];
    assert(skip_nl(ts, 0) == 0);
    assert(step_idx(0, 0, 1) == 0);
    assert(spec_value(ts, 0, crate::MAX_DEPTH as int, Seq::empty()) == PRes::Good {
        v: SpecValue::Int(n as int),
        next: 1,
        errs: Seq::empty(),
    });
    assert(skip_nl(ts, 1) == 1);
    assert(spec_parse_tokens(ts) == (Some(SpecValue::Int(n as int)), Seq::<SpecError>::empty()));
}


/// A token sequence of one non-newline value token parses to that value,
/// cleanly.
proof fn lemma_one_token_parse(st: SpannedTok, v: SpecValue)
    requires
        !(st.tok is Newline),
        spec_value(seq![st], 0, crate::MAX_DEPTH as int, Seq::empty()) == (PRes::Good {
            v,
            next: 1,
            errs: Seq::<SpecError>::empty(),
        }),
    ensures
        spec_parse_tokens(seq![st]) == (Some(v), Seq::<SpecError>::empty()),
{
    let ts = seq![st];
    assert(skip_nl(ts, 0) == 0);
    assert(step_idx(0, 0, 1) == 0);
    assert(skip_nl(ts, 1) == 1);
}

/// Law: each of the literals `null`, `true` and `false` parses to exactly
/// the corresponding value, with no diagnostics.
pub proof fn lemma_literals_parse_exact()
    ensures
        spec_from_str("null"@) == Ok::<SpecValue, Seq<char>>(SpecValue::Null),
        spec_from_str("true"@) == Ok::<SpecValue, Seq<char>>(SpecValue::Bool(true)),
        spec_from_str("false"@) == Ok::<SpecValue, Seq<char>>(SpecValue::Bool(false)),
{
    reveal_strlit("null");
    reveal_strlit("true");
    reveal_strlit("false");
    let s1 = "null"@;
    crate::tokenizer::lemma_word_literal(s1);
    assert(crate::tokenizer::word_token(s1) == SpecToken::Null);
    lemma_one_token_parse(
        SpannedTok { tok: SpecToken::Null, start: 0, end: 4 },
        SpecValue::Null,
    );
    let s2 = "true"@;
    crate::tokenizer::lemma_word_literal(s2);
    assert(crate::tokenizer::word_token(s2) == SpecToken::True);
    lemma_one_token_parse(
        SpannedTok { tok: SpecToken::True, start: 0, end: 4 },
        SpecValue::Bool(true),
    );
    let s3 = "false"@;
    crate::tokenizer::lemma_word_literal(s3);
    assert(crate::tokenizer::word_token(s3) == SpecToken::False);
    lemma_one_token_parse(
        SpannedTok { tok: SpecToken::False, start: 0, end: 5 },
        SpecValue::Bool(false),
    );
}


/// Law (round trip, string case): serializing a string value and
/// re-parsing the text yields that value back, with no diagnostics.
pub proof fn lemma_round_trip_string(sc: Seq<char>)
    ensures
        spec_from_str(spec_text(SpecValue::Str(sc))) == Ok::<SpecValue, Seq<char>>(
            SpecValue::Str(sc),
        ),
{
    let s = spec_text(SpecValue::Str(sc));
    assert(s == "\""@ + crate::esc_text(sc, 0, Seq::empty()) + "\""@);
    crate::tokenizer::lemma_string_literal(sc);
    let st = SpannedTok { tok: SpecToken::Str(sc), start: 0, end: s.len() as int };
    lemma_one_token_parse(st, SpecValue::Str(sc));
}


/// Law (round trip, scalar cases): re-parsing the serialization of any
/// null, boolean, 64-bit integer, string, or float value yields an equal
/// value with no diagnostics. An integer must lie in the signed 64-bit
/// range, as every parsed integer does; a float lexeme must itself
/// tokenize as one float literal, as every parsed float lexeme does.
/// Arrays and objects are exercised by tests; their round trip is not
/// proved here.
pub proof fn lemma_round_trip_value(v: SpecValue)
    requires
        !(v is Array) && !(v is Object),
        v is Int ==> -0x8000000000000000 <= v->Int_0 <= 0x7fffffffffffffff,
        v is Float ==> crate::tokenizer::spec_tokenize(v->Float_0) == Ok::<
            Seq<SpannedTok>,
            SpecError,
        >(
            seq![
                SpannedTok {
                    tok: SpecToken::Float(v->Float_0),
                    start: 0,
                    end: v->Float_0.len() as int,
                },
            ],
        ),
    ensures
        spec_from_str(spec_text(v)) == Ok::<SpecValue, Seq<char>>(v),
{
    match v {
        SpecValue::Null => {
            lemma_literals_parse_exact();
        },
        SpecValue::Bool(b) => {
            lemma_literals_parse_exact();
        },
        SpecValue::Int(n) => {
            let m: i64 = n as i64;
            lemma_round_trip_int(m);
        },
        SpecValue::Str(sc) => {
            lemma_round_trip_string(sc);
        },
        SpecValue::Float(s) => {
            let st = SpannedTok {
                tok: SpecToken::Float(s),
                start: 0,
                end: s.len() as int,
            };
            lemma_one_token_parse(st, SpecValue::Float(s));
        },
        _ => {},
    }
}


// --- the data-model invariant: keys unique in every object of a parse ---
/// Every object anywhere in the tree keeps its keys unique.
pub open spec fn keys_unique_tree(v: SpecValue) -> bool
    decreases v, 0int,
{
    match v {
        SpecValue::Array(vs) => keys_unique_arr(vs, 0),
        SpecValue::Object(ms) => obj_keys_unique(ms) && keys_unique_obj(ms, 0),
        _ => true,
    }
}

pub open spec fn keys_unique_arr(vs: Seq<SpecValue>, i: int) -> bool
    decreases vs, vs.len() - i,
{
    if i < 0 || i >= vs.len() {
        true
    } else {
        keys_unique_tree(vs[i]) && keys_unique_arr(vs, i + 1)
    }
}

pub open spec fn keys_unique_obj(ms: Seq<(Seq<char>, SpecValue)>, i: int) -> bool
    decreases ms, ms.len() - i,
{
    if i < 0 || i >= ms.len() {
        true
    } else {
        keys_unique_tree(ms[i].1) && keys_unique_obj(ms, i + 1)
    }
}

proof fn lemma_keys_unique_arr_push(vs: Seq<SpecValue>, i: int, v: SpecValue)
    requires
        keys_unique_arr(vs, i),
        keys_unique_tree(v),
    ensures
        keys_unique_arr(vs.push(v), i),
    decreases vs.len() - i,
{
    if 0 <= i < vs.len() {
        lemma_keys_unique_arr_push(vs, i + 1, v);
        assert(vs.push(v)[i] == vs[i]);
    } else if i == vs.len() {
        assert(vs.push(v)[i] == v);
        assert(keys_unique_arr(vs.push(v), i + 1));
    }
}

proof fn lemma_keys_unique_obj_insert(
    ms: Seq<(Seq<char>, SpecValue)>,
    k: Seq<char>,
    v: SpecValue,
)
    requires
        keys_unique_obj(ms, 0),
        keys_unique_tree(v),
    ensures
        keys_unique_obj(obj_insert(ms, k, v), 0),
{
    let res = obj_insert(ms, k, v);
    if ms.len() == 0 {
        assert(res =~= seq![(k, v)]);
        assert(keys_unique_obj(res, res.len() as int));
        assert(keys_unique_obj(res, 1));
    } else {
        // relate positions of the result to those of ms and to v
        lemma_obj_insert_values(ms, k, v);
        lemma_keys_unique_obj_everywhere(ms, 0);
        lemma_keys_unique_obj_from(res, 0, ms, k, v);
    }
}

/// Every value in `obj_insert(ms, k, v)` is `v` or a value of `ms`.
proof fn lemma_obj_insert_values(ms: Seq<(Seq<char>, SpecValue)>, k: Seq<char>, v: SpecValue)
    ensures
        forall|j: int|
            0 <= j < obj_insert(ms, k, v).len() ==> #[trigger] obj_insert(ms, k, v)[j].1 == v || (
            exists|w: int| 0 <= w < ms.len() && ms[w].1 == obj_insert(ms, k, v)[j].1),
    decreases ms.len(),
{
    let res = obj_insert(ms, k, v);
    if ms.len() == 0 {
        assert(res =~= seq![(k, v)]);
    } else if ms[0].0 == k {
        assert forall|j: int|
            0 <= j < res.len() implies #[trigger] res[j].1 == v || (exists|w: int|
            0 <= w < ms.len() && ms[w].1 == res[j].1) by {
            if j > 0 {
                assert(res[j] == ms.subrange(1, ms.len() as int)[j - 1]);
                assert(ms[j].1 == res[j].1);
            }
        }
    } else {
        let rest = ms.subrange(1, ms.len() as int);
        lemma_obj_insert_values(rest, k, v);
        let sub = obj_insert(rest, k, v);
        assert(res == seq![ms[0]] + sub);
        assert forall|j: int|
            0 <= j < res.len() implies #[trigger] res[j].1 == v || (exists|w: int|
            0 <= w < ms.len() && ms[w].1 == res[j].1) by {
            if j == 0 {
                assert(ms[0].1 == res[0].1);
            } else {
                assert(res[j].1 == sub[j - 1].1);
                if sub[j - 1].1 != v {
                    let w = choose|w: int| 0 <= w < rest.len() && rest[w].1 == sub[j - 1].1;
                    assert(ms[w + 1].1 == res[j].1);
                }
            }
        }
    }
}

/// The positional form and the pointwise form of the member invariant agree.
proof fn lemma_keys_unique_obj_everywhere(ms: Seq<(Seq<char>, SpecValue)>, i: int)
    requires
        keys_unique_obj(ms, i),
        0 <= i <= ms.len(),
    ensures
        forall|j: int| i <= j < ms.len() ==> keys_unique_tree(#[trigger] ms[j].1),
    decreases ms.len() - i,
{
    if i < ms.len() {
        lemma_keys_unique_obj_everywhere(ms, i + 1);
    }
}

proof fn lemma_keys_unique_obj_from(
    res: Seq<(Seq<char>, SpecValue)>,
    i: int,
    ms: Seq<(Seq<char>, SpecValue)>,
    k: Seq<char>,
    v: SpecValue,
)
    requires
        0 <= i,
        res == obj_insert(ms, k, v),
        keys_unique_tree(v),
        forall|j: int| 0 <= j < ms.len() ==> keys_unique_tree(#[trigger] ms[j].1),
        forall|j: int|
            0 <= j < res.len() ==> #[trigger] res[j].1 == v || (exists|w: int|
                0 <= w < ms.len() && ms[w].1 == res[j].1),
    ensures
        keys_unique_obj(res, i),
    decreases res.len() - i,
{
    if 0 <= i < res.len() {
        assert(keys_unique_tree(res[i].1));
        lemma_keys_unique_obj_from(res, i + 1, ms, k, v);
    }
}


/// Law (data-model invariant): any value the grammar yields keeps object
/// keys unique, in every object of the tree.
pub proof fn lemma_value_keys_unique(ts: Seq<SpannedTok>, i: int, d: int, errs: Seq<SpecError>)
    ensures
        spec_value(ts, i, d, errs) matches PRes::Good { v, .. } ==> keys_unique_tree(v),
    decreases d, ts.len() - i, 0int,
{
    if 0 <= i < ts.len() {
        match ts[i].tok {
            SpecToken::LBracket => {
                if d > 0 {
                    lemma_elems_keys_unique(ts, i + 1, d - 1, Seq::empty(), errs);
                    assert(keys_unique_arr(Seq::empty(), 0));
                }
            },
            SpecToken::LBrace => {
                if d > 0 {
                    lemma_members_keys_unique(ts, i + 1, d - 1, Seq::empty(), errs);
                    assert(keys_unique_obj(Seq::empty(), 0));
                }
            },
            _ => {},
        }
    }
}

proof fn lemma_elems_keys_unique(
    ts: Seq<SpannedTok>,
    j: int,
    d: int,
    vs: Seq<SpecValue>,
    errs: Seq<SpecError>,
)
    requires
        keys_unique_arr(vs, 0),
    ensures
        spec_elems(ts, j, d, vs, errs) matches ARes::Good { vs: out, .. } ==> keys_unique_arr(
            out,
            0,
        ),
    decreases d, ts.len() - j, 1int,
{
    let m0 = step_idx(skip_nl(ts, j), j, ts.len() as int);
    if m0 < ts.len() && !(ts[m0].tok is RBracket) {
        lemma_value_keys_unique(ts, m0, d, errs);
        match spec_value(ts, m0, d, errs) {
            PRes::Good { v, next, errs: e1 } => {
                let k = step_idx(next, m0 + 1, ts.len() as int);
                let m = step_idx(skip_nl(ts, k), k, ts.len() as int);
                let vs1 = vs.push(v);
                lemma_keys_unique_arr_push(vs, 0, v);
                if m < ts.len() {
                    if ts[m].tok is Comma {
                        lemma_elems_keys_unique(ts, m + 1, d, vs1, e1);
                    } else if !(ts[m].tok is RBracket) && m > k {
                        lemma_elems_keys_unique(ts, m, d, vs1, e1);
                    }
                }
            },
            PRes::Bad { .. } => {},
        }
    }
}

proof fn lemma_members_keys_unique(
    ts: Seq<SpannedTok>,
    j: int,
    d: int,
    ms: Seq<(Seq<char>, SpecValue)>,
    errs: Seq<SpecError>,
)
    requires
        obj_keys_unique(ms),
        keys_unique_obj(ms, 0),
    ensures
        spec_members(ts, j, d, ms, errs) matches ORes::Good { ms: out, .. } ==> obj_keys_unique(
            out,
        ) && keys_unique_obj(out, 0),
    decreases d, ts.len() - j, 1int,
{
    let m0 = step_idx(skip_nl(ts, j), j, ts.len() as int);
    if m0 < ts.len() && !(ts[m0].tok is RBrace) {
        let key = match ts[m0].tok {
            SpecToken::Str(s) => Some(s),
            SpecToken::Key(s) => Some(s),
            _ => None,
        };
        match key {
            None => {},
            Some(k) => {
                if !(m0 + 1 >= ts.len() || !(ts[m0 + 1].tok is Colon)) {
                    lemma_value_keys_unique(ts, m0 + 2, d, errs);
                    match spec_value(ts, m0 + 2, d, errs) {
                        PRes::Bad { .. } => {},
                        PRes::Good { v, next, errs: e1 } => {
                            let k2 = step_idx(next, m0 + 3, ts.len() as int);
                            let m = step_idx(skip_nl(ts, k2), k2, ts.len() as int);
                            let ms1 = obj_insert(ms, k, v);
                            lemma_last_key_wins(ms, k, v);
                            lemma_keys_unique_obj_insert(ms, k, v);
                            if m < ts.len() {
                                if ts[m].tok is Comma {
                                    lemma_members_keys_unique(ts, m + 1, d, ms1, e1);
                                } else if !(ts[m].tok is RBrace) && m > k2 {
                                    lemma_members_keys_unique(ts, m, d, ms1, e1);
                                }
                            }
                        },
                    }
                }
            },
        }
    }
}

/// Law: every tree [`from_str`] returns keeps object keys unique, in every
/// object of the tree.
pub proof fn lemma_from_str_keys_unique(s: Seq<char>)
    ensures
        spec_from_str(s) matches Ok(v) ==> keys_unique_tree(v),
{
    match crate::tokenizer::spec_tokenize(s) {
        Err(_) => {},
        Ok(ts) => {
            let i0 = step_idx(skip_nl(ts, 0), 0, ts.len() as int);
            lemma_value_keys_unique(ts, i0, crate::MAX_DEPTH as int, Seq::empty());
        },
    }
}

} // verus!
