//! Rendering of diagnostics as human-readable, source-annotated reports.
//! This is a pure formatting layer over the parser's error list; the
//! rendering itself is delegated to the `ariadne` crate.

use vstd::prelude::*;
use vstd::string::StrSliceExecFns;
use vstd::string::StringExecFns;

use crate::errors_view;
use crate::ErrorReason;
use crate::ParseError;
use crate::SpecError;

verus! {

/// What one rendered report looks like; the text depends on the arguments
/// alone.
pub uninterp spec fn report_text(
    name: Seq<char>,
    src: Seq<char>,
    start: int,
    end: int,
    msg: Seq<char>,
    note: Seq<char>,
) -> Seq<char>;

/// Relies on `ariadne::Report::write` (ariadne 0.6): builds one error
/// report over `src` (named `name`) with a single labelled character span
/// and renders it into a buffer. The report is configured without color:
/// colored fragments would go through a process-global styling switch, so
/// only the plain rendering is a function of the arguments alone.
/// `ariadne::Label::new` panics on a backwards span, so one is excluded
/// here.
#[verifier::external_body]
fn render_report(name: &str, src: &str, start: usize, end: usize, msg: &str, note: &str) -> (r:
    String)
    requires
        start <= end,
    ensures
        r@ == report_text(name@, src@, start as int, end as int, msg@, note@),
{
    let mut buf: Vec<u8> = Vec::new();
    let _ = ariadne::Report::build(ariadne::ReportKind::Error, (name, start..end))
        .with_config(ariadne::Config::default().with_color(false))
        .with_message(msg)
        .with_label(ariadne::Label::new((name, start..end)).with_message(note))
        .finish()
        .write((name, ariadne::Source::from(src)), &mut buf);
    String::from_utf8_lossy(&buf).to_string()
}

/// The fixed label text of each failure reason.
pub open spec fn reason_text(r: ErrorReason) -> Seq<char> {
    match r {
        ErrorReason::Unexpected => "unexpected token"@,
        ErrorReason::Expected => "expected one of the tokens named here"@,
        ErrorReason::MalformedEscape => "malformed escape"@,
        ErrorReason::UnterminatedLiteral => "unterminated literal"@,
        ErrorReason::IntegerOverflow => "integer overflow"@,
    }
}

fn reason_label(r: ErrorReason) -> (s: String)
    ensures
        s@ == reason_text(r),
{
    match r {
        ErrorReason::Unexpected => String::from_str("unexpected token"),
        ErrorReason::Expected => String::from_str("expected one of the tokens named here"),
        ErrorReason::MalformedEscape => String::from_str("malformed escape"),
        ErrorReason::UnterminatedLiteral => String::from_str("unterminated literal"),
        ErrorReason::IntegerOverflow => String::from_str("integer overflow"),
    }
}

/// A diagnostic span clamped into the source, so that a report can always
/// be rendered: the end first into `[0, len]`, then the start up to the
/// end.
pub open spec fn clamp_span(start: int, end: int, len: int) -> (int, int) {
    let e = if end > len {
        len
    } else if end < 0 {
        0
    } else {
        end
    };
    let s = if start > e {
        e
    } else if start < 0 {
        0
    } else {
        start
    };
    (s, e)
}

/// The concatenation of the reports of `errs[i..]`, rendered onto `acc`.
pub open spec fn spec_reports(
    name: Seq<char>,
    src: Seq<char>,
    errs: Seq<SpecError>,
    i: int,
    acc: Seq<char>,
) -> Seq<char>
    decreases errs.len() - i,
{
    if i < 0 || i >= errs.len() {
        acc
    } else {
        let sp = clamp_span(errs[i].start, errs[i].end, src.len() as int);
        spec_reports(
            name,
            src,
            errs,
            i + 1,
            acc + report_text(name, src, sp.0, sp.1, errs[i].msg, reason_text(errs[i].reason)),
        )
    }
}

/// Render every recorded diagnostic, in order, as one report text.
pub fn render_errors(name: &str, src: &str, errs: &Vec<ParseError>) -> (r: String)
    ensures
        r@ == spec_reports(name@, src@, errors_view(errs@), 0, Seq::empty()),
{
    let len: usize = src.unicode_len();
    let mut out = String::new();
    let mut i: usize = 0;
    let n: usize = errs.len();
    while i < n
        invariant
            i <= n,
            n == errs@.len(),
            len == src@.len(),
            spec_reports(name@, src@, errors_view(errs@), 0, Seq::empty()) == spec_reports(
                name@,
                src@,
                errors_view(errs@),
                i as int,
                out@,
            ),
        decreases n - i,
    {
        let e = &errs[i];
        let end: usize = if e.span.end > len {
            len
        } else {
            e.span.end
        };
        let start: usize = if e.span.start > end {
            end
        } else {
            e.span.start
        };
        let note = reason_label(e.reason);
        let piece = render_report(name, src, start, end, e.message.as_str(), note.as_str());
        out.append(piece.as_str());
        i = i + 1;
    }
    out
}

} // verus!
