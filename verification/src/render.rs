//! What the harness shows: the progress of a run, the title and the details
//! of each case, and the report at the end.
//!
//! Everything is rendered to bytes, which the caller writes to its output as
//! they are. A target that understands control sequences gets colours and a
//! progress line that is rewritten in place; any other target gets plain
//! lines. Which of the two a target is, the caller says with `ansi`.

use vstd::prelude::*;
use vstd::string::*;
use vstd::utf8::encode_utf8;
use crate::decimal::{lemma_pow10_bound, lemma_pow10_step, pow10, ZERO};
use crate::errors::JudgeError;
use crate::outcome::{ExitStatus, Outcome, OutcomeView};
use crate::schedule::{CaseResultView, JudgeReportView};
use crate::scheduler::{CaseResult, JudgeReport};
use crate::setup::Step;
use crate::text::LF;

verus! {

/// The byte of the space.
pub const SPACE: u8 = 32;

/// The byte of the minus sign.
pub const MINUS: u8 = 45;

/// The colour of what went well.
pub const GREEN: u8 = 10;

/// The colour of what went wrong.
pub const RED: u8 = 9;

/// The colour of notices.
pub const YELLOW: u8 = 11;

/// The colour of headings.
pub const MAGENTA: u8 = 13;

/// The bytes of `s`.
pub open spec fn text(s: &str) -> Seq<u8> {
    s.spec_bytes()
}

/// `n` in decimal notation, without leading zeros.
pub open spec fn decimal(n: nat) -> Seq<u8>
    decreases n,
{
    if n < 10 {
        seq![(ZERO + n) as u8]
    } else {
        decimal(n / 10).push((ZERO + n % 10) as u8)
    }
}

/// `n` spaces.
pub open spec fn spaces(n: nat) -> Seq<u8> {
    Seq::new(n, |i: int| SPACE)
}

/// `body` in the given colour, in bold or not; on a target without control
/// sequences, `body` as it is.
pub open spec fn styled(ansi: bool, color: Option<u8>, bold: bool, body: Seq<u8>) -> Seq<u8> {
    if ansi {
        (match color {
            Some(c) => text("\x1b[38;5;") + decimal(c as nat) + text("m"),
            None => Seq::empty(),
        }) + (if bold {
            text("\x1b[1m")
        } else {
            Seq::empty()
        }) + body + text("\x1b[0m")
    } else {
        body
    }
}

/// The number of decimal digits of `n`; zero has one digit.
pub open spec fn digit_count(n: nat) -> nat
    decreases n,
{
    if n < 10 {
        1
    } else {
        1 + digit_count(n / 10)
    }
}

/// A number is written with as many bytes as it has digits.
pub proof fn lemma_decimal_len(n: nat)
    ensures
        decimal(n).len() == digit_count(n),
    decreases n,
{
    if n >= 10 {
        lemma_decimal_len(n / 10);
    }
}

/// Counts the decimal digits of `n`.
pub fn num_digits(n: usize) -> (r: usize)
    ensures
        r == digit_count(n as nat),
        1 <= r <= 20,
{
    let mut rest: usize = n;
    let mut r: usize = 1;
    let ghost mut scale: nat = 1;
    while rest > 9
        invariant
            1 <= r <= 20,
            r + digit_count(rest as nat) == 1 + digit_count(n as nat),
            scale == pow10((r - 1) as nat),
            rest * scale <= n,
        decreases rest,
    {
        proof {
            lemma_pow10_step((r - 1) as nat);
            assert(10 * scale <= n && (rest / 10) * (10 * scale) <= n) by (nonlinear_arith)
                requires
                    rest >= 10,
                    scale >= 1,
                    rest * scale <= n,
            ;
            lemma_pow10_bound(r as nat, n as nat);
            scale = 10 * scale;
        }
        rest = rest / 10;
        r = r + 1;
    }
    r
}

/// Appends the bytes of `s`.
fn push_text(out: &mut Vec<u8>, s: &str)
    ensures
        final(out)@ == old(out)@ + text(s),
{
    out.extend_from_slice(s.as_bytes());
}

/// Appends `bytes`.
fn push_bytes(out: &mut Vec<u8>, bytes: &Vec<u8>)
    ensures
        final(out)@ == old(out)@ + bytes@,
{
    out.extend_from_slice(bytes.as_slice());
}

/// Appends `n` in decimal notation.
fn push_decimal(out: &mut Vec<u8>, n: u64)
    ensures
        final(out)@ == old(out)@ + decimal(n as nat),
    decreases n,
{
    if n >= 10 {
        push_decimal(out, n / 10);
    }
    out.push(ZERO + (n % 10) as u8);
    assert(out@ =~= old(out)@ + decimal(n as nat));
}

/// Appends `n` spaces.
fn push_spaces(out: &mut Vec<u8>, n: usize)
    ensures
        final(out)@ == old(out)@ + spaces(n as nat),
{
    let mut i: usize = 0;
    assert(out@ =~= old(out)@ + spaces(0));
    while i < n
        invariant
            i <= n,
            out@ == old(out)@ + spaces(i as nat),
        decreases n - i,
    {
        out.push(SPACE);
        i = i + 1;
        assert(out@ =~= old(out)@ + spaces(i as nat));
    }
}

/// Appends `body` in the given style.
fn push_styled(out: &mut Vec<u8>, ansi: bool, color: Option<u8>, bold: bool, body: &Vec<u8>)
    ensures
        final(out)@ == old(out)@ + styled(ansi, color, bold, body@),
{
    if ansi {
        match color {
            Some(c) => {
                push_text(out, "\x1b[38;5;");
                push_decimal(out, c as u64);
                push_text(out, "m");
            },
            None => {},
        }
        if bold {
            push_text(out, "\x1b[1m");
        }
        push_bytes(out, body);
        push_text(out, "\x1b[0m");
    } else {
        push_bytes(out, body);
    }
    assert(out@ =~= old(out)@ + styled(ansi, color, bold, body@));
}

/// `n` and the word that goes with it: `singular` for none and for one,
/// `plural` for more.
pub open spec fn counted(n: nat, singular: Seq<u8>, plural: Seq<u8>) -> Seq<u8> {
    decimal(n) + seq![SPACE] + if n > 1 {
        plural
    } else {
        singular
    }
}

/// Appends `n` and the word that goes with it.
fn push_counted(out: &mut Vec<u8>, n: usize, singular: &str, plural: &str)
    ensures
        final(out)@ == old(out)@ + counted(n as nat, text(singular), text(plural)),
{
    push_decimal(out, n as u64);
    out.push(SPACE);
    if n > 1 {
        push_text(out, plural);
    } else {
        push_text(out, singular);
    }
    assert(out@ =~= old(out)@ + counted(n as nat, text(singular), text(plural)));
}

/// A size in bytes for a reader, with a line feed behind it: in bytes under
/// one KiB, else in the largest of KiB, MiB and GiB that it reaches, with
/// one place behind the point. The place counts in steps of 103 of the next
/// smaller unit and is cut off, not rounded.
pub open spec fn size_text(size: nat) -> Seq<u8> {
    let gib = size / 0x4000_0000;
    let mib = size / 0x10_0000 % 0x400;
    let kib = size / 0x400 % 0x400;
    let b = size % 0x400;
    if gib > 0 {
        decimal(gib) + text(".") + decimal(mib / 103) + text("GiB\n")
    } else if mib > 0 {
        decimal(mib) + text(".") + decimal(kib / 103) + text("MiB\n")
    } else if kib > 0 {
        decimal(kib) + text(".") + decimal(b / 103) + text("KiB\n")
    } else {
        decimal(b) + text("B\n")
    }
}

/// The notice of a size: [`size_text`] in bold yellow.
pub open spec fn size_notice(size: nat, ansi: bool) -> Seq<u8> {
    styled(ansi, Some(YELLOW), true, size_text(size))
}

/// Renders `size` for a reader.
fn size_bytes(size: usize) -> (r: Vec<u8>)
    ensures
        r@ == size_text(size as nat),
{
    let size = size as u64;
    let gib = size / 0x4000_0000;
    let mib = size / 0x10_0000 % 0x400;
    let kib = size / 0x400 % 0x400;
    let b = size % 0x400;
    let mut out: Vec<u8> = Vec::new();
    if gib > 0 {
        push_decimal(&mut out, gib);
        push_text(&mut out, ".");
        push_decimal(&mut out, mib / 103);
        push_text(&mut out, "GiB\n");
    } else if mib > 0 {
        push_decimal(&mut out, mib);
        push_text(&mut out, ".");
        push_decimal(&mut out, kib / 103);
        push_text(&mut out, "MiB\n");
    } else if kib > 0 {
        push_decimal(&mut out, kib);
        push_text(&mut out, ".");
        push_decimal(&mut out, b / 103);
        push_text(&mut out, "KiB\n");
    } else {
        push_decimal(&mut out, b);
        push_text(&mut out, "B\n");
    }
    assert(out@ =~= size_text(size as nat));
    out
}

/// Renders the notice of a size: the size for a reader and a line feed, in
/// bold yellow where the target has colours.
pub fn writeln_size(size: usize, ansi: bool) -> (r: Vec<u8>)
    ensures
        r@ == size_notice(size as nat, ansi),
{
    let body = size_bytes(size);
    let mut out: Vec<u8> = Vec::new();
    push_styled(&mut out, ansi, Some(YELLOW), true, &body);
    assert(out@ =~= size_notice(size as nat, ansi));
    out
}

/// What is shown of `content` under a limit of `limit` bytes: all of it if it
/// fits or there is no limit; else its first `limit` bytes, three dots, and
/// the notice of the size of what was left out.
pub open spec fn excerpt(content: Seq<u8>, limit: Option<usize>, ansi: bool) -> Seq<u8> {
    if limit is Some && content.len() > limit->0 {
        content.take(limit->0 as int) + text("... ") + size_notice(
            (content.len() - limit->0) as nat,
            ansi,
        )
    } else {
        content
    }
}

/// Appends what is shown of `content` under `limit`.
fn push_excerpt(out: &mut Vec<u8>, content: &Vec<u8>, limit: Option<usize>, ansi: bool)
    ensures
        final(out)@ == old(out)@ + excerpt(content@, limit, ansi),
{
    let cut = match limit {
        Some(l) => l < content.len(),
        None => false,
    };
    if cut {
        let shown = limit.unwrap();
        let mut i: usize = 0;
        assert(out@ =~= old(out)@ + content@.take(0));
        while i < shown
            invariant
                i <= shown < content.len(),
                out@ == old(out)@ + content@.take(i as int),
            decreases shown - i,
        {
            out.push(content[i]);
            i = i + 1;
            assert(out@ =~= old(out)@ + content@.take(i as int));
        }
        push_text(out, "... ");
        let notice = writeln_size(content.len() - shown, ansi);
        push_bytes(out, &notice);
        assert(out@ =~= old(out)@ + excerpt(content@, limit, ansi));
    } else {
        push_bytes(out, content);
    }
}

/// Renders what is shown of `content` under a limit of `limit` bytes.
pub fn print_excerpt(content: &Vec<u8>, limit: Option<usize>, ansi: bool) -> (r: Vec<u8>)
    ensures
        r@ == excerpt(content@, limit, ansi),
{
    let mut out: Vec<u8> = Vec::new();
    push_excerpt(&mut out, content, limit, ansi);
    assert(out@ =~= excerpt(content@, limit, ansi));
    out
}

/// Under a limit, an excerpt holds no more bytes of the content than the
/// limit allows: it begins with the first bytes of the content, as many as
/// the limit or the whole content, and all that follows is the notice.
pub proof fn law_excerpt_keeps_to_the_limit(content: Seq<u8>, limit: usize, ansi: bool)
    ensures
        content.len() <= limit ==> excerpt(content, Some(limit), ansi) == content,
        content.len() > limit ==> excerpt(content, Some(limit), ansi) == content.take(limit as int)
            + (text("... ") + size_notice((content.len() - limit) as nat, ansi)),
        content.len() > limit ==> content.take(limit as int).len() == limit,
{
    if content.len() > limit {
        assert(content.take(limit as int) + text("... ") + size_notice(
            (content.len() - limit) as nat,
            ansi,
        ) =~= content.take(limit as int) + (text("... ") + size_notice(
            (content.len() - limit) as nat,
            ansi,
        )));
    }
}

/// A heading of the details: the word and a line feed, in bold magenta.
pub open spec fn heading(word: Seq<u8>, ansi: bool) -> Seq<u8> {
    styled(ansi, Some(MAGENTA), true, word + seq![LF])
}

/// A text of the details: `EMPTY` in bold yellow if there is none, else its
/// excerpt, with a line feed behind it if it is shown in full and does not
/// end with one.
pub open spec fn block(content: Seq<u8>, limit: Option<usize>, ansi: bool) -> Seq<u8> {
    if content.len() == 0 {
        styled(ansi, Some(YELLOW), true, text("EMPTY\n"))
    } else if limit is Some && content.len() > limit->0 {
        excerpt(content, limit, ansi)
    } else if content.last() == LF {
        content
    } else {
        content.push(LF)
    }
}

/// How a process ended, for a reader.
pub open spec fn status_text(status: ExitStatus) -> Seq<u8> {
    match status {
        ExitStatus::Code(code) => text("code ") + if code < 0 {
            seq![MINUS] + decimal((-code) as nat)
        } else {
            decimal(code as nat)
        },
        ExitStatus::Signal => text("signal"),
        ExitStatus::Unavailable => text("unavailable"),
    }
}

/// The details of a failure: both texts of a wrong answer, what the tester
/// said of a rejected interaction, the status of a run-time error, the time
/// that a case took beyond its limit. Texts are shown under `limit`. An
/// accepted or interrupted case has no details.
pub open spec fn details(outcome: OutcomeView, limit: Option<usize>, ansi: bool) -> Seq<u8> {
    match outcome {
        OutcomeView::Accepted => Seq::empty(),
        OutcomeView::Interrupted => Seq::empty(),
        OutcomeView::WrongAnswer { actual, expected } => heading(text("expected:"), ansi) + block(
            expected,
            limit,
            ansi,
        ) + heading(text("actual:"), ansi) + block(actual, limit, ansi),
        OutcomeView::Rejected { tester_status, diagnostic } => heading(text("status:"), ansi)
            + status_text(tester_status) + seq![LF] + heading(text("tester:"), ansi) + block(
            diagnostic,
            limit,
            ansi,
        ),
        OutcomeView::RuntimeError { exit_status } => heading(text("status:"), ansi) + status_text(
            exit_status,
        ) + seq![LF],
        OutcomeView::TimeLimitExceeded { elapsed } => heading(text("elapsed:"), ansi) + decimal(
            elapsed as nat,
        ) + text("ms\n"),
    }
}

/// Appends a heading.
fn push_heading(out: &mut Vec<u8>, word: &str, ansi: bool)
    ensures
        final(out)@ == old(out)@ + heading(text(word), ansi),
{
    let mut line: Vec<u8> = Vec::new();
    push_text(&mut line, word);
    line.push(LF);
    assert(line@ =~= text(word) + seq![LF]);
    push_styled(out, ansi, Some(MAGENTA), true, &line);
}

/// Appends a text of the details.
fn push_block(out: &mut Vec<u8>, content: &Vec<u8>, limit: Option<usize>, ansi: bool)
    ensures
        final(out)@ == old(out)@ + block(content@, limit, ansi),
{
    let len = content.len();
    if len == 0 {
        let mut word: Vec<u8> = Vec::new();
        push_text(&mut word, "EMPTY\n");
        assert(word@ =~= text("EMPTY\n"));
        push_styled(out, ansi, Some(YELLOW), true, &word);
        return ;
    }
    let cut = match limit {
        Some(l) => l < len,
        None => false,
    };
    if cut {
        push_excerpt(out, content, limit, ansi);
    } else if content[len - 1] == LF {
        push_bytes(out, content);
    } else {
        push_bytes(out, content);
        out.push(LF);
        assert(out@ =~= old(out)@ + content@.push(LF));
    }
}

/// Appends how a process ended.
fn push_status(out: &mut Vec<u8>, status: ExitStatus)
    ensures
        final(out)@ == old(out)@ + status_text(status),
{
    match status {
        ExitStatus::Code(code) => {
            push_text(out, "code ");
            if code < 0 {
                out.push(MINUS);
                push_decimal(out, (-(code as i64)) as u64);
            } else {
                push_decimal(out, code as u64);
            }
        },
        ExitStatus::Signal => {
            push_text(out, "signal");
        },
        ExitStatus::Unavailable => {
            push_text(out, "unavailable");
        },
    }
    assert(out@ =~= old(out)@ + status_text(status));
}

/// Renders the details of `outcome`, its texts under a limit of `limit`
/// bytes each.
pub fn print_details(outcome: &Outcome, limit: Option<usize>, ansi: bool) -> (r: Vec<u8>)
    ensures
        r@ == details(outcome@, limit, ansi),
{
    let mut out: Vec<u8> = Vec::new();
    match outcome {
        Outcome::Accepted => {},
        Outcome::Interrupted => {},
        Outcome::WrongAnswer { actual, expected } => {
            push_heading(&mut out, "expected:", ansi);
            push_block(&mut out, expected, limit, ansi);
            push_heading(&mut out, "actual:", ansi);
            push_block(&mut out, actual, limit, ansi);
        },
        Outcome::Rejected { tester_status, diagnostic } => {
            push_heading(&mut out, "status:", ansi);
            push_status(&mut out, *tester_status);
            out.push(LF);
            push_heading(&mut out, "tester:", ansi);
            push_block(&mut out, diagnostic, limit, ansi);
        },
        Outcome::RuntimeError { exit_status } => {
            push_heading(&mut out, "status:", ansi);
            push_status(&mut out, *exit_status);
            out.push(LF);
        },
        Outcome::TimeLimitExceeded { elapsed } => {
            push_heading(&mut out, "elapsed:", ansi);
            push_decimal(&mut out, *elapsed);
            push_text(&mut out, "ms\n");
        },
    }
    assert(out@ =~= details(outcome@, limit, ansi));
    out
}

/// The status word of a verdict.
pub open spec fn status_word(outcome: OutcomeView) -> Seq<u8> {
    match outcome {
        OutcomeView::Accepted => text("Accepted"),
        OutcomeView::WrongAnswer { .. } => text("Wrong Answer"),
        OutcomeView::Rejected { .. } => text("Wrong Answer"),
        OutcomeView::RuntimeError { .. } => text("Runtime Error"),
        OutcomeView::TimeLimitExceeded { .. } => text("Time Limit Exceeded"),
        OutcomeView::Interrupted => text("Interrupted"),
    }
}

/// How far the number of a title is indented: in a column, by as many
/// places as `i` has fewer digits than `n`.
pub open spec fn title_indent(i: nat, n: nat, align: Option<usize>) -> nat {
    if align is Some && digit_count(n) > digit_count(i) {
        (digit_count(n) - digit_count(i)) as nat
    } else {
        0
    }
}

/// How far the status word stands from the name: one place, and in a column
/// as many more as the name is narrower than the column.
pub open spec fn title_gap(width: nat, align: Option<usize>) -> nat {
    if align is Some && align->0 > width {
        (align->0 - width + 1) as nat
    } else {
        1
    }
}

/// The number and the name of a title: `i/n (name)` in bold.
pub open spec fn title_head(i: nat, n: nat, name: Seq<u8>, ansi: bool) -> Seq<u8> {
    styled(ansi, None, true, decimal(i) + text("/") + decimal(n) + text(" (") + name + text(")"))
}

/// The status word of a title and a line feed, in the colour of the verdict.
pub open spec fn title_word(outcome: OutcomeView, ansi: bool) -> Seq<u8> {
    styled(ansi, Some(outcome.color()), false, status_word(outcome) + seq![LF])
}

/// The title of a case: `i/n (name)` in bold, then the status word in the
/// colour of the verdict, and a line feed. With `align`, titles stand in a
/// column: the numbers flush right, the status words behind names of that
/// width.
pub open spec fn title(
    outcome: OutcomeView,
    i: nat,
    n: nat,
    name: Seq<u8>,
    width: nat,
    align: Option<usize>,
    ansi: bool,
) -> Seq<u8> {
    spaces(title_indent(i, n, align)) + title_head(i, n, name, ansi) + spaces(
        title_gap(width, align),
    ) + title_word(outcome, ansi)
}

/// Appends the status word of `outcome`.
fn push_status_word(out: &mut Vec<u8>, outcome: &Outcome)
    ensures
        final(out)@ == old(out)@ + status_word(outcome@),
{
    match outcome {
        Outcome::Accepted => push_text(out, "Accepted"),
        Outcome::WrongAnswer { .. } => push_text(out, "Wrong Answer"),
        Outcome::Rejected { .. } => push_text(out, "Wrong Answer"),
        Outcome::RuntimeError { .. } => push_text(out, "Runtime Error"),
        Outcome::TimeLimitExceeded { .. } => push_text(out, "Time Limit Exceeded"),
        Outcome::Interrupted => push_text(out, "Interrupted"),
    }
}

/// Appends the number and the name of a title, in bold.
fn push_title_head(out: &mut Vec<u8>, i: usize, n: usize, name: &str, ansi: bool)
    ensures
        final(out)@ == old(out)@ + title_head(i as nat, n as nat, text(name), ansi),
{
    let mut head: Vec<u8> = Vec::new();
    push_decimal(&mut head, i as u64);
    push_text(&mut head, "/");
    push_decimal(&mut head, n as u64);
    push_text(&mut head, " (");
    push_text(&mut head, name);
    push_text(&mut head, ")");
    assert(head@ =~= decimal(i as nat) + text("/") + decimal(n as nat) + text(" (") + text(name)
        + text(")"));
    push_styled(out, ansi, None, true, &head);
}

/// Appends the spaces between the name and the status word of a title.
fn push_title_gap(out: &mut Vec<u8>, width: usize, align: Option<usize>)
    ensures
        final(out)@ == old(out)@ + spaces(title_gap(width as nat, align)),
{
    match align {
        Some(column) => {
            if column > width {
                push_spaces(out, column - width);
            }
        },
        None => {},
    }
    out.push(SPACE);
    assert(out@ =~= old(out)@ + spaces(title_gap(width as nat, align)));
}

/// Appends the status word of a title, in the colour of the verdict.
fn push_title_word(out: &mut Vec<u8>, outcome: &Outcome, ansi: bool)
    ensures
        final(out)@ == old(out)@ + title_word(outcome@, ansi),
{
    let mut word: Vec<u8> = Vec::new();
    push_status_word(&mut word, outcome);
    word.push(LF);
    assert(word@ =~= status_word(outcome@) + seq![LF]);
    push_styled(out, ansi, Some(outcome.color()), false, &word);
}

/// Appends the title of a case.
fn push_title(
    out: &mut Vec<u8>,
    outcome: &Outcome,
    i: usize,
    n: usize,
    name: &str,
    width: usize,
    align: Option<usize>,
    ansi: bool,
)
    ensures
        final(out)@ == old(out)@ + title(
            outcome@,
            i as nat,
            n as nat,
            text(name),
            width as nat,
            align,
            ansi,
        ),
{
    let digits_n = num_digits(n);
    let digits_i = num_digits(i);
    let indent = if align.is_some() && digits_n > digits_i {
        digits_n - digits_i
    } else {
        0
    };
    let ghost indented = spaces(title_indent(i as nat, n as nat, align));
    let ghost head = title_head(i as nat, n as nat, text(name), ansi);
    let ghost gap = spaces(title_gap(width as nat, align));
    let ghost word = title_word(outcome@, ansi);
    push_spaces(out, indent);
    push_title_head(out, i, n, name, ansi);
    push_title_gap(out, width, align);
    push_title_word(out, outcome, ansi);
    assert(out@ == old(out)@ + indented + head + gap + word);
    assert(old(out)@ + indented + head + gap + word =~= old(out)@ + (indented + head + gap
        + word));
}

/// Renders the title of the `i`th of `n` cases: its name, which takes
/// `width` columns when shown, and the status word of its verdict.
pub fn print_title(
    outcome: &Outcome,
    i: usize,
    n: usize,
    name: &str,
    width: usize,
    align: Option<usize>,
    ansi: bool,
) -> (r: Vec<u8>)
    ensures
        r@ == title(outcome@, i as nat, n as nat, text(name), width as nat, align, ansi),
{
    let mut out: Vec<u8> = Vec::new();
    push_title(&mut out, outcome, i, n, name, width, align, ansi);
    assert(out@ =~= title(outcome@, i as nat, n as nat, text(name), width as nat, align, ansi));
    out
}

/// In a column the numbers of the titles end at the same place: the indent
/// of a title and the digits of its number are together as wide as the
/// digits of the number of cases.
pub proof fn law_titles_are_flush(i: nat, n: nat, column: usize)
    requires
        i <= n,
    ensures
        title_indent(i, n, Some(column)) + decimal(i).len() == decimal(n).len(),
{
    lemma_decimal_len(i);
    lemma_decimal_len(n);
    lemma_digit_count_mono(i, n);
}

/// A larger number has no fewer digits.
pub proof fn lemma_digit_count_mono(a: nat, b: nat)
    requires
        a <= b,
    ensures
        digit_count(a) <= digit_count(b),
    decreases b,
{
    if a >= 10 {
        lemma_digit_count_mono(a / 10, b / 10);
    }
}

/// The line that says how far a run has come.
pub open spec fn progress_text(finished: nat, total: nat, failures: nat) -> Seq<u8> {
    decimal(finished) + text("/") + decimal(total) + seq![SPACE] + (if finished > 1 {
        text("tests")
    } else {
        text("test")
    }) + text(" finished (") + counted(failures, text("failure"), text("failures")) + text(")")
}

/// The colour of the progress line: green while nothing has failed, then
/// red.
pub open spec fn progress_color(failures: nat) -> u8 {
    if failures == 0 {
        GREEN
    } else {
        RED
    }
}

/// What is written when a run begins: the progress line with nothing
/// finished, and a line feed unless the line can be rewritten in place.
pub open spec fn progress_begin(total: nat, ansi: bool) -> Seq<u8> {
    progress_text(0, total, 0) + if ansi {
        Seq::<u8>::empty()
    } else {
        seq![LF]
    }
}

/// What is written when an outcome has come in. Where the line can be
/// rewritten in place, the cursor goes to the first column and the line is
/// cleared before the new progress line is written in its colour; elsewhere
/// the progress line is written as a line of its own.
pub open spec fn progress_update(finished: nat, total: nat, failures: nat, ansi: bool) -> Seq<u8> {
    if ansi {
        text("\x1b[0G\x1b[2K") + styled(
            true,
            Some(progress_color(failures)),
            false,
            progress_text(finished, total, failures),
        )
    } else {
        progress_text(finished, total, failures) + seq![LF]
    }
}

/// What is written when a run is over: a line feed where the progress line
/// was rewritten in place, to leave it standing.
pub open spec fn progress_end(ansi: bool) -> Seq<u8> {
    if ansi {
        seq![LF]
    } else {
        Seq::<u8>::empty()
    }
}

/// Renders the progress line.
fn progress_bytes(finished: usize, total: usize, failures: usize) -> (r: Vec<u8>)
    ensures
        r@ == progress_text(finished as nat, total as nat, failures as nat),
{
    let mut out: Vec<u8> = Vec::new();
    push_decimal(&mut out, finished as u64);
    push_text(&mut out, "/");
    push_decimal(&mut out, total as u64);
    out.push(SPACE);
    if finished > 1 {
        push_text(&mut out, "tests");
    } else {
        push_text(&mut out, "test");
    }
    push_text(&mut out, " finished (");
    push_counted(&mut out, failures, "failure", "failures");
    push_text(&mut out, ")");
    assert(out@ =~= progress_text(finished as nat, total as nat, failures as nat));
    out
}

/// Renders what is written when a run of `total` cases begins.
pub fn print_progress_begin(total: usize, ansi: bool) -> (r: Vec<u8>)
    ensures
        r@ == progress_begin(total as nat, ansi),
{
    let mut out = progress_bytes(0, total, 0);
    if !ansi {
        out.push(LF);
    }
    assert(out@ =~= progress_begin(total as nat, ansi));
    out
}

/// Renders what is written when an outcome has come in: `finished` of
/// `total` cases have reported, `failures` of them failures.
pub fn print_progress(finished: usize, total: usize, failures: usize, ansi: bool) -> (r: Vec<u8>)
    ensures
        r@ == progress_update(finished as nat, total as nat, failures as nat, ansi),
{
    let line = progress_bytes(finished, total, failures);
    let mut out: Vec<u8> = Vec::new();
    if ansi {
        push_text(&mut out, "\x1b[0G\x1b[2K");
        let color = if failures == 0 {
            GREEN
        } else {
            RED
        };
        push_styled(&mut out, true, Some(color), false, &line);
    } else {
        push_bytes(&mut out, &line);
        out.push(LF);
    }
    assert(out@ =~= progress_update(finished as nat, total as nat, failures as nat, ansi));
    out
}

/// Renders what is written when a run is over.
pub fn print_progress_end(ansi: bool) -> (r: Vec<u8>)
    ensures
        r@ == progress_end(ansi),
{
    let mut out: Vec<u8> = Vec::new();
    if ansi {
        out.push(LF);
    }
    assert(out@ =~= progress_end(ansi));
    out
}

/// The largest of `widths`, or zero if there are none.
pub open spec fn max_width(widths: Seq<usize>) -> usize
    decreases widths.len(),
{
    if widths.len() == 0 {
        0
    } else if widths.last() > max_width(widths.drop_last()) {
        widths.last()
    } else {
        max_width(widths.drop_last())
    }
}

/// The width at `index`, or zero if there is none.
pub open spec fn width_at(widths: Seq<usize>, index: nat) -> usize {
    if index < widths.len() {
        widths[index as int]
    } else {
        0
    }
}

/// Finds the largest of `widths`.
fn widest(widths: &Vec<usize>) -> (r: usize)
    ensures
        r == max_width(widths@),
{
    let mut r: usize = 0;
    let mut i: usize = 0;
    assert(widths@.take(0).len() == 0);
    while i < widths.len()
        invariant
            i <= widths.len(),
            r == max_width(widths@.take(i as int)),
        decreases widths.len() - i,
    {
        assert(widths@.take(i + 1).drop_last() == widths@.take(i as int));
        if widths[i] > r {
            r = widths[i];
        }
        i = i + 1;
    }
    assert(widths@.take(i as int) == widths@);
    r
}

/// The line that closes a report: that the run was interrupted and how far
/// it had come; else, if nothing has failed, that all has passed; else
/// nothing.
pub open spec fn closing_line(report: JudgeReportView) -> Seq<u8> {
    if report.interrupted {
        text("Interrupted after ") + counted(report.outcomes.len(), text("test"), text("tests"))
            + text(" of ") + decimal(report.total) + text(".\n")
    } else if report.failures == 0 {
        text("All of the ") + counted(report.total, text("test"), text("tests")) + text(
            " passed.\n",
        )
    } else {
        Seq::empty()
    }
}

/// The part of a report on one case. Where nothing has failed it is the
/// title, in a column with the others. Else it is an empty line, the title
/// and the details, so that a failure is found at a glance.
pub open spec fn report_row(
    entry: CaseResultView,
    report: JudgeReportView,
    widths: Seq<usize>,
    limit: Option<usize>,
    ansi: bool,
) -> Seq<u8> {
    if report.failures == 0 {
        title(
            entry.outcome,
            entry.index + 1,
            report.total,
            encode_utf8(entry.name),
            width_at(widths, entry.index) as nat,
            Some(max_width(widths)),
            ansi,
        )
    } else {
        seq![LF] + title(
            entry.outcome,
            entry.index + 1,
            report.total,
            encode_utf8(entry.name),
            width_at(widths, entry.index) as nat,
            None,
            ansi,
        ) + details(entry.outcome, limit, ansi)
    }
}

/// The parts of a report on its first `count` cases, in their order.
pub open spec fn report_rows(
    report: JudgeReportView,
    widths: Seq<usize>,
    limit: Option<usize>,
    ansi: bool,
    count: nat,
) -> Seq<u8>
    decreases count,
{
    if count == 0 {
        Seq::empty()
    } else {
        report_rows(report, widths, limit, ansi, (count - 1) as nat) + report_row(
            report.outcomes[count - 1],
            report,
            widths,
            limit,
            ansi,
        )
    }
}

/// A report as it is shown: a part on each case in the order of the report,
/// and the closing line.
pub open spec fn report_text(
    report: JudgeReportView,
    widths: Seq<usize>,
    limit: Option<usize>,
    ansi: bool,
) -> Seq<u8> {
    report_rows(report, widths, limit, ansi, report.outcomes.len()) + closing_line(report)
}

/// Appends the closing line of `report`.
fn push_closing_line(out: &mut Vec<u8>, report: &JudgeReport)
    ensures
        final(out)@ == old(out)@ + closing_line(report@),
{
    if report.interrupted {
        push_text(out, "Interrupted after ");
        push_counted(out, report.outcomes.len(), "test", "tests");
        push_text(out, " of ");
        push_decimal(out, report.total as u64);
        push_text(out, ".\n");
    } else if report.failures == 0 {
        push_text(out, "All of the ");
        push_counted(out, report.total, "test", "tests");
        push_text(out, " passed.\n");
    }
    assert(out@ =~= old(out)@ + closing_line(report@));
}

/// Appends the part of `report` on `entry`.
fn push_report_row(
    out: &mut Vec<u8>,
    entry: &CaseResult,
    report: &JudgeReport,
    widths: &Vec<usize>,
    column: usize,
    limit: Option<usize>,
    ansi: bool,
)
    requires
        entry.index < usize::MAX,
        column == max_width(widths@),
    ensures
        final(out)@ == old(out)@ + report_row(entry@, report@, widths@, limit, ansi),
{
    let width = if entry.index < widths.len() {
        widths[entry.index]
    } else {
        0
    };
    if report.failures == 0 {
        push_title(
            out,
            &entry.outcome,
            entry.index + 1,
            report.total,
            entry.name.as_str(),
            width,
            Some(column),
            ansi,
        );
    } else {
        out.push(LF);
        push_title(
            out,
            &entry.outcome,
            entry.index + 1,
            report.total,
            entry.name.as_str(),
            width,
            None,
            ansi,
        );
        let block = print_details(&entry.outcome, limit, ansi);
        push_bytes(out, &block);
        assert(out@ =~= old(out)@ + report_row(entry@, report@, widths@, limit, ansi));
    }
}

/// Renders `report`. `widths` holds, by the place of each case in the suite,
/// the columns that its name takes when shown; `limit` is the number of
/// bytes up to which a text of the details is shown.
pub fn print_report(report: &JudgeReport, widths: &Vec<usize>, limit: Option<usize>, ansi: bool) -> (r:
    Vec<u8>)
    requires
        forall|i: int| 0 <= i < report.outcomes@.len() ==> (#[trigger] report.outcomes@[i]).index
            < usize::MAX,
    ensures
        r@ == report_text(report@, widths@, limit, ansi),
{
    let column = widest(widths);
    let mut out: Vec<u8> = Vec::new();
    let mut i: usize = 0;
    assert(out@ =~= report_rows(report@, widths@, limit, ansi, 0));
    while i < report.outcomes.len()
        invariant
            i <= report.outcomes@.len(),
            column == max_width(widths@),
            forall|k: int|
                0 <= k < report.outcomes@.len() ==> (#[trigger] report.outcomes@[k]).index
                    < usize::MAX,
            out@ == report_rows(report@, widths@, limit, ansi, i as nat),
        decreases report.outcomes@.len() - i,
    {
        assert(report@.outcomes[i as int] == report.outcomes@[i as int]@);
        push_report_row(&mut out, &report.outcomes[i], report, widths, column, limit, ansi);
        i = i + 1;
    }
    push_closing_line(&mut out, report);
    out
}

/// A step of the setup, for a reader.
pub open spec fn step_text(step: Step) -> Seq<u8> {
    match step {
        Step::TranspileTester(_) => text("transpilation of a tester"),
        Step::CompileTester(_) => text("compilation of a tester"),
        Step::TranspileSolver => text("transpilation"),
        Step::CompileSolver => text("compilation"),
    }
}

/// What is said of a failure, in one line.
pub open spec fn error_text(error: JudgeError) -> Seq<u8> {
    match error {
        JudgeError::IndexOutOfBounds { len, index } => text("Index out of bounds: the suite has ")
            + counted(len as nat, text("test"), text("tests")) + text(" but the index is ")
            + decimal(index as nat) + seq![LF],
        JudgeError::ExpectedSimple => text("Expected a simple test\n"),
        JudgeError::TestFailed { failures, total } => decimal(failures as nat) + text("/")
            + decimal(total as nat) + seq![SPACE] + (if failures > 1 {
            text("tests")
        } else {
            text("test")
        }) + text(" failed\n"),
        JudgeError::Interrupted => text("Interrupted\n"),
        JudgeError::SetupFailed { step, status } => text("The ") + step_text(step) + text(
            " ended abnormally: ",
        ) + status_text(status) + seq![LF],
    }
}

/// Renders what is said of `error`.
pub fn print_error(error: &JudgeError) -> (r: Vec<u8>)
    ensures
        r@ == error_text(*error),
{
    let mut out: Vec<u8> = Vec::new();
    match error {
        JudgeError::IndexOutOfBounds { len, index } => {
            push_text(&mut out, "Index out of bounds: the suite has ");
            push_counted(&mut out, *len, "test", "tests");
            push_text(&mut out, " but the index is ");
            push_decimal(&mut out, *index as u64);
            out.push(LF);
        },
        JudgeError::ExpectedSimple => {
            push_text(&mut out, "Expected a simple test\n");
        },
        JudgeError::TestFailed { failures, total } => {
            push_decimal(&mut out, *failures as u64);
            push_text(&mut out, "/");
            push_decimal(&mut out, *total as u64);
            out.push(SPACE);
            if *failures > 1 {
                push_text(&mut out, "tests");
            } else {
                push_text(&mut out, "test");
            }
            push_text(&mut out, " failed\n");
        },
        JudgeError::Interrupted => {
            push_text(&mut out, "Interrupted\n");
        },
        JudgeError::SetupFailed { step, status } => {
            push_text(&mut out, "The ");
            match step {
                Step::TranspileTester(_) => push_text(&mut out, "transpilation of a tester"),
                Step::CompileTester(_) => push_text(&mut out, "compilation of a tester"),
                Step::TranspileSolver => push_text(&mut out, "transpilation"),
                Step::CompileSolver => push_text(&mut out, "compilation"),
            }
            push_text(&mut out, " ended abnormally: ");
            push_status(&mut out, *status);
            out.push(LF);
        },
    }
    assert(out@ =~= error_text(*error));
    out
}

} // verus!
