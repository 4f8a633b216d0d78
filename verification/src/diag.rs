//! Diagnostics: errors and warnings collected during compilation.

use vstd::prelude::*;
use vstd::string::StrSliceExecFns;
use crate::render::{label_lines, pieces_view, split_lines};
use crate::span::Span;
use crate::text::{bytes_of, dec_nat, fmt_u64, lemma_decode_bytes, push_char, push_str, string_of};

verus! {

#[derive(Debug, Clone, Copy, PartialEq, Eq, Structural)]
pub enum Severity {
    Warning,
    Error,
}

impl Severity {
    /// The lower-case name used when printing diagnostics.
    pub fn as_str(&self) -> (r: &'static str)
        ensures
            r@ == severity_name(*self),
    {
        match self {
            Severity::Warning => "warning",
            Severity::Error => "error",
        }
    }
}

pub open spec fn severity_name(s: Severity) -> Seq<char> {
    match s {
        Severity::Warning => "warning"@,
        Severity::Error => "error"@,
    }
}

#[derive(Debug, Clone)]
pub struct Diagnostic {
    pub severity: Severity,
    pub message: String,
    pub span: Option<Span>,
    pub note: Option<String>,
    pub help: Option<String>,
}

/// The value of a diagnostic, with its texts as character sequences.
pub struct DiagV {
    pub severity: Severity,
    pub message: Seq<char>,
    pub span: Option<Span>,
    pub note: Option<Seq<char>>,
    pub help: Option<Seq<char>>,
}

pub open spec fn opt_str_view(o: Option<String>) -> Option<Seq<char>> {
    match o {
        Some(s) => Some(s@),
        None => None,
    }
}

impl View for Diagnostic {
    type V = DiagV;

    open spec fn view(&self) -> DiagV {
        DiagV {
            severity: self.severity,
            message: self.message@,
            span: self.span,
            note: opt_str_view(self.note),
            help: opt_str_view(self.help),
        }
    }
}

/// A diagnostic with a message, an optional span and no note or help.
pub open spec fn dg(severity: Severity, message: Seq<char>, span: Option<Span>) -> DiagV {
    DiagV { severity, message, span, note: None, help: None }
}

/// An error with a span and a help text.
pub open spec fn dg_help(message: Seq<char>, span: Span, help: Seq<char>) -> DiagV {
    DiagV { severity: Severity::Error, message, span: Some(span), note: None, help: Some(help) }
}

impl Diagnostic {
    pub fn error(message: String) -> (r: Self)
        ensures
            r@ == dg(Severity::Error, message@, None),
    {
        Self { severity: Severity::Error, message, span: None, note: None, help: None }
    }

    pub fn warning(message: String) -> (r: Self)
        ensures
            r@ == dg(Severity::Warning, message@, None),
    {
        Self { severity: Severity::Warning, message, span: None, note: None, help: None }
    }

    pub fn with_span(self, span: Span) -> (r: Self)
        ensures
            r@ == (DiagV { span: Some(span), ..self@ }),
    {
        let mut s = self;
        s.span = Some(span);
        s
    }

    pub fn with_note(self, note: String) -> (r: Self)
        ensures
            r@ == (DiagV { note: Some(note@), ..self@ }),
    {
        let mut s = self;
        s.note = Some(note);
        s
    }

    pub fn with_help(self, help: String) -> (r: Self)
        ensures
            r@ == (DiagV { help: Some(help@), ..self@ }),
    {
        let mut s = self;
        s.help = Some(help);
        s
    }
}

/// Collects diagnostics during compilation.
#[derive(Debug)]
pub struct DiagEngine {
    pub diagnostics: Vec<Diagnostic>,
    pub strict: bool,
}

/// The values of a sequence of diagnostics.
pub open spec fn diags_view(s: Seq<Diagnostic>) -> Seq<DiagV> {
    s.map_values(|d: Diagnostic| d@)
}

impl View for DiagEngine {
    type V = Seq<DiagV>;

    open spec fn view(&self) -> Seq<DiagV> {
        diags_view(self.diagnostics@)
    }
}

/// Whether a diagnostic counts as failing: every error, and warnings in
/// strict mode.
pub open spec fn is_failing(d: DiagV, strict: bool) -> bool {
    d.severity == Severity::Error || (strict && d.severity == Severity::Warning)
}

/// Number of diagnostics of a given severity.
pub open spec fn count_sev(s: Seq<DiagV>, sev: Severity) -> nat
    decreases s.len(),
{
    if s.len() == 0 {
        0
    } else {
        count_sev(s.drop_last(), sev) + if s.last().severity == sev {
            1nat
        } else {
            0nat
        }
    }
}

impl Default for DiagEngine {
    fn default() -> (r: Self)
        ensures
            r@ == Seq::<DiagV>::empty(),
            !r.strict,
    {
        DiagEngine { diagnostics: Vec::new(), strict: false }
    }
}

impl DiagEngine {
    pub fn new() -> (r: Self)
        ensures
            r@ == Seq::<DiagV>::empty(),
            !r.strict,
    {
        let r = DiagEngine { diagnostics: Vec::new(), strict: false };
        assert(r@ =~= Seq::<DiagV>::empty());
        r
    }

    pub fn with_strict(self, strict: bool) -> (r: Self)
        ensures
            r@ == self@,
            r.strict == strict,
    {
        let mut s = self;
        s.strict = strict;
        s
    }

    pub fn emit(&mut self, diag: Diagnostic)
        ensures
            final(self)@ == old(self)@.push(diag@),
            final(self).strict == old(self).strict,
    {
        self.diagnostics.push(diag);
        assert(self@ =~= old(self)@.push(diag@));
    }

    pub fn error(&mut self, message: String)
        ensures
            final(self)@ == old(self)@.push(dg(Severity::Error, message@, None)),
            final(self).strict == old(self).strict,
    {
        self.emit(Diagnostic::error(message));
    }

    pub fn error_at(&mut self, span: Span, message: String)
        ensures
            final(self)@ == old(self)@.push(dg(Severity::Error, message@, Some(span))),
            final(self).strict == old(self).strict,
    {
        self.emit(Diagnostic::error(message).with_span(span));
    }

    pub fn warn(&mut self, message: String)
        ensures
            final(self)@ == old(self)@.push(dg(Severity::Warning, message@, None)),
            final(self).strict == old(self).strict,
    {
        self.emit(Diagnostic::warning(message));
    }

    pub fn warn_at(&mut self, span: Span, message: String)
        ensures
            final(self)@ == old(self)@.push(dg(Severity::Warning, message@, Some(span))),
            final(self).strict == old(self).strict,
    {
        self.emit(Diagnostic::warning(message).with_span(span));
    }

    /// True when some diagnostic is an error, or a warning in strict mode.
    pub fn has_errors(&self) -> (r: bool)
        ensures
            r == exists|i: int| 0 <= i < self@.len() && is_failing(#[trigger] self@[i], self.strict),
    {
        let mut i: usize = 0;
        while i < self.diagnostics.len()
            invariant
                i <= self.diagnostics@.len(),
                forall|j: int| 0 <= j < i ==> !is_failing(#[trigger] self@[j], self.strict),
            decreases self.diagnostics@.len() - i,
        {
            let d = &self.diagnostics[i];
            let failing = match d.severity {
                Severity::Error => true,
                Severity::Warning => self.strict,
            };
            if failing {
                assert(is_failing(self@[i as int], self.strict));
                return true;
            }
            i = i + 1;
        }
        false
    }

    pub fn error_count(&self) -> (r: usize)
        ensures
            r == count_sev(self@, Severity::Error),
    {
        self.count_of(Severity::Error)
    }

    pub fn warning_count(&self) -> (r: usize)
        ensures
            r == count_sev(self@, Severity::Warning),
    {
        self.count_of(Severity::Warning)
    }

    fn count_of(&self, sev: Severity) -> (r: usize)
        ensures
            r == count_sev(self@, sev),
    {
        let mut n: usize = 0;
        let mut i: usize = 0;
        while i < self.diagnostics.len()
            invariant
                i <= self.diagnostics@.len(),
                n == count_sev(self@.subrange(0, i as int), sev),
                n <= i,
            decreases self.diagnostics@.len() - i,
        {
            assert(self@.subrange(0, i + 1).drop_last() =~= self@.subrange(0, i as int));
            if self.diagnostics[i].severity == sev {
                n = n + 1;
            }
            i = i + 1;
        }
        assert(self@.subrange(0, i as int) =~= self@);
        n
    }
}

/// Every diagnostic is either an error or a warning, so the two counts add
/// up to the number of diagnostics.
pub proof fn lemma_counts_partition(s: Seq<DiagV>)
    ensures
        count_sev(s, Severity::Error) + count_sev(s, Severity::Warning) == s.len(),
    decreases s.len(),
{
    if s.len() > 0 {
        lemma_counts_partition(s.drop_last());
    }
}

/// A count is positive exactly when some diagnostic has that severity.
pub proof fn lemma_count_positive(s: Seq<DiagV>, sev: Severity)
    ensures
        (count_sev(s, sev) > 0) == (exists|i: int| 0 <= i < s.len() && #[trigger] s[i].severity == sev),
    decreases s.len(),
{
    if s.len() > 0 {
        lemma_count_positive(s.drop_last(), sev);
        if count_sev(s.drop_last(), sev) > 0 {
            let i = choose|i: int| 0 <= i < s.drop_last().len() && #[trigger] s.drop_last()[i].severity == sev;
            assert(s[i].severity == sev);
        }
        if exists|i: int| 0 <= i < s.len() && #[trigger] s[i].severity == sev {
            let i = choose|i: int| 0 <= i < s.len() && #[trigger] s[i].severity == sev;
            if i < s.len() - 1 {
                assert(s.drop_last()[i].severity == sev);
            }
        }
    }
}

/// Outside strict mode the engine has errors exactly when the error count is
/// positive; in strict mode, exactly when there is any diagnostic at all.
pub proof fn lemma_has_errors_counts(e: DiagEngine)
    ensures
        !e.strict ==> ((exists|i: int| 0 <= i < e@.len() && is_failing(#[trigger] e@[i], e.strict))
            == (count_sev(e@, Severity::Error) > 0)),
        e.strict ==> ((exists|i: int| 0 <= i < e@.len() && is_failing(#[trigger] e@[i], e.strict))
            == (e@.len() > 0)),
{
    lemma_count_positive(e@, Severity::Error);
    if !e.strict {
        if exists|i: int| 0 <= i < e@.len() && is_failing(#[trigger] e@[i], e.strict) {
            let i = choose|i: int| 0 <= i < e@.len() && is_failing(#[trigger] e@[i], e.strict);
            assert(e@[i].severity == Severity::Error);
        }
        if count_sev(e@, Severity::Error) > 0 {
            let i = choose|i: int| 0 <= i < e@.len() && #[trigger] e@[i].severity == Severity::Error;
            assert(is_failing(e@[i], e.strict));
        }
    } else {
        if e@.len() > 0 {
            assert(is_failing(e@[0], e.strict));
        }
    }
}

// ---- Diagnostic reports ----

/// A piece without one trailing carriage return.
pub open spec fn strip_cr(p: Seq<char>) -> Seq<char> {
    if p.len() > 0 && p.last() == '\r' {
        p.drop_last()
    } else {
        p
    }
}

/// The lines of a text as `str::lines` gives them: split at `\n`, a `\r`
/// right before a `\n` dropped, and no empty last line after a final line
/// ending.
pub open spec fn text_lines(s: Seq<char>) -> Seq<Seq<char>> {
    let parts = split_lines(s);
    let body = parts.drop_last().map_values(|p: Seq<char>| strip_cr(p));
    if parts.last().len() == 0 {
        body
    } else {
        body.push(parts.last())
    }
}

/// The lines of `source`.
pub fn source_lines(source: &str) -> (r: Vec<&str>)
    ensures
        pieces_view(r@) == text_lines(source@),
{
    let parts = label_lines(source);
    let ghost pv = pieces_view(parts@);
    proof {
        crate::render::lemma_split_lines_len(source@);
    }
    let mut out: Vec<&str> = Vec::new();
    let n = parts.len();
    let mut i: usize = 0;
    while i + 1 < n
        invariant
            n == parts@.len(),
            n >= 1,
            pv == pieces_view(parts@),
            pv == split_lines(source@),
            i + 1 <= n,
            pieces_view(out@) == pv.subrange(0, i as int).map_values(|p: Seq<char>| strip_cr(p)),
        decreases n - i,
    {
        let p = parts[i];
        let len = p.unicode_len();
        let piece = if len > 0 && p.get_char(len - 1) == '\r' {
            let q = p.substring_char(0, len - 1);
            assert(q@ =~= p@.drop_last());
            q
        } else {
            p
        };
        assert(p@ == pv[i as int]);
        assert(piece@ == strip_cr(pv[i as int]));
        let ghost before = pieces_view(out@);
        out.push(piece);
        assert(pieces_view(out@) =~= before.push(piece@));
        assert(pv.subrange(0, i + 1).map_values(|p: Seq<char>| strip_cr(p)) =~= pv.subrange(0, i as int).map_values(|p: Seq<char>| strip_cr(p)).push(strip_cr(pv[i as int])));
        i = i + 1;
    }
    let last = parts[n - 1];
    assert(pv.subrange(0, i as int) =~= pv.drop_last());
    if !last.is_empty() {
        out.push(last);
    }
    assert(pieces_view(out@) =~= text_lines(source@));
    out
}

pub open spec fn repeated(c: char, n: nat) -> Seq<char> {
    Seq::new(n, |i: int| c)
}

fn push_repeated(out: &mut String, c: char, n: usize)
    ensures
        final(out)@ == old(out)@ + repeated(c, n as nat),
{
    let ghost start = out@;
    let mut i: usize = 0;
    while i < n
        invariant
            i <= n,
            out@ == start + repeated(c, i as nat),
        decreases n - i,
    {
        push_char(out, c);
        i = i + 1;
        assert(out@ =~= start + repeated(c, i as nat));
    }
}

/// One printed line.
pub open spec fn ln(s: Seq<char>) -> Seq<char> {
    s + seq!['\n']
}

/// The source line under a diagnostic with a row of carets below the
/// reported range (at least one caret, and no more than the line holds
/// from the column on); nothing when the line is not in the source.
pub open spec fn snippet(sp: Span, source: Seq<char>) -> Seq<char> {
    let lines = text_lines(source);
    let idx: int = if sp.line >= 1 { sp.line - 1 } else { 0 };
    if idx < lines.len() {
        let text = lines[idx];
        let n = dec_nat(sp.line as nat);
        let col0: int = if sp.col >= 1 { sp.col - 1 } else { 0 };
        let blen = bytes_of(text).len() as int;
        let avail: int = if blen >= col0 { blen - col0 } else { 0 };
        let width: int = if sp.end > sp.start {
            let w = if sp.end - sp.start <= avail { sp.end - sp.start } else { avail };
            if w >= 1 { w } else { 1 }
        } else {
            1
        };
        snippet_rows(n, text, col0 as nat, width as nat)
    } else {
        Seq::empty()
    }
}

/// The report of a diagnostic: `file:line:col: severity: message`, the
/// source snippet when there is a span, then the note and the help.
pub open spec fn diag_text(d: DiagV, source: Seq<char>, filename: Seq<char>) -> Seq<char> {
    let loc = match d.span {
        Some(sp) => filename + ":"@ + dec_nat(sp.line as nat) + ":"@ + dec_nat(sp.col as nat) + ": "@,
        None => filename + ": "@,
    };
    ln(loc + severity_name(d.severity) + ": "@ + d.message) + (match d.span {
        Some(sp) => snippet(sp, source),
        None => Seq::empty(),
    }) + (match d.note {
        Some(n) => ln("  note: "@ + n),
        None => Seq::empty(),
    }) + (match d.help {
        Some(h) => ln("  help: "@ + h),
        None => Seq::empty(),
    })
}

/// The three snippet rows: the numbered source line, a caret row under the
/// gutter, and the caret row under the reported column.
pub open spec fn snippet_rows(n: Seq<char>, text: Seq<char>, col0: nat, width: nat) -> Seq<char> {
    ln(" "@ + n + " | "@ + text) + ln(" "@ + repeated(' ', n.len()) + " | "@ + repeated('^', width))
        + ln(repeated(' ', (n.len() + 3) as nat) + repeated(' ', col0) + repeated('^', width))
}

fn push_snippet_rows(out: &mut String, n: &str, text: &str, col0: usize, width: usize)
    ensures
        final(out)@ == old(out)@ + snippet_rows(n@, text@, col0 as nat, width as nat),
{
    let nlen = n.unicode_len();
    let ghost start = out@;
    push_str(out, " ");
    push_str(out, n);
    push_str(out, " | ");
    push_str(out, text);
    push_char(out, '\n');
    let ghost a = out@;
    push_str(out, " ");
    push_repeated(out, ' ', nlen);
    push_str(out, " | ");
    push_repeated(out, '^', width);
    push_char(out, '\n');
    let ghost b = out@;
    push_repeated(out, ' ', nlen);
    push_repeated(out, ' ', 3);
    push_repeated(out, ' ', col0);
    push_repeated(out, '^', width);
    push_char(out, '\n');
    proof {
        assert(repeated(' ', nlen as nat) + repeated(' ', 3) =~= repeated(' ', (n@.len() + 3) as nat));
        assert(out@ =~= start + snippet_rows(n@, text@, col0 as nat, width as nat));
    }
}

fn push_snippet(out: &mut String, sp: Span, source: &str)
    ensures
        final(out)@ == old(out)@ + snippet(sp, source@),
{
    let lines = source_lines(source);
    let idx: usize = if sp.line >= 1 { (sp.line - 1) as usize } else { 0 };
    if idx < lines.len() {
        let text = lines[idx];
        assert(text@ == text_lines(source@)[idx as int]);
        let n = fmt_u64(sp.line as u64);
        let col0: usize = if sp.col >= 1 { (sp.col - 1) as usize } else { 0 };
        let blen = text.as_bytes().len();
        proof {
            lemma_decode_bytes(text@);
        }
        let avail: usize = if blen >= col0 { blen - col0 } else { 0 };
        let width: usize = if sp.end > sp.start {
            let w = if sp.end - sp.start <= avail { sp.end - sp.start } else { avail };
            if w >= 1 { w } else { 1 }
        } else {
            1
        };
        push_snippet_rows(out, n.as_str(), text, col0, width);
    } else {
        assert(out@ =~= old(out)@ + snippet(sp, source@));
    }
}

impl Diagnostic {
    /// The text that reporting this diagnostic prints, for source `source`
    /// read from `filename`.
    pub fn report(&self, source: &str, filename: &str) -> (r: String)
        ensures
            r@ == diag_text(self@, source@, filename@),
    {
        let mut out = string_of(filename);
        match self.span {
            Some(sp) => {
                push_str(&mut out, ":");
                let l = fmt_u64(sp.line as u64);
                push_str(&mut out, l.as_str());
                push_str(&mut out, ":");
                let c = fmt_u64(sp.col as u64);
                push_str(&mut out, c.as_str());
                push_str(&mut out, ": ");
            },
            None => {
                push_str(&mut out, ": ");
            },
        }
        push_str(&mut out, self.severity.as_str());
        push_str(&mut out, ": ");
        push_str(&mut out, self.message.as_str());
        push_char(&mut out, '\n');
        let ghost a = out@;
        if let Some(sp) = self.span {
            push_snippet(&mut out, sp, source);
        }
        let ghost b = out@;
        if let Some(note) = &self.note {
            push_str(&mut out, "  note: ");
            push_str(&mut out, note.as_str());
            push_char(&mut out, '\n');
        }
        let ghost c = out@;
        if let Some(help) = &self.help {
            push_str(&mut out, "  help: ");
            push_str(&mut out, help.as_str());
            push_char(&mut out, '\n');
        }
        assert(out@ =~= diag_text(self@, source@, filename@));
        out
    }
}

/// The reports of all diagnostics, one after another.
pub open spec fn diags_text(s: Seq<DiagV>, source: Seq<char>, filename: Seq<char>) -> Seq<char>
    decreases s.len(),
{
    if s.len() == 0 {
        Seq::empty()
    } else {
        diags_text(s.drop_last(), source, filename) + diag_text(s.last(), source, filename)
    }
}

impl DiagEngine {
    /// The text that reporting every diagnostic prints, in order.
    pub fn report_all(&self, source: &str, filename: &str) -> (r: String)
        ensures
            r@ == diags_text(self@, source@, filename@),
    {
        let mut out = String::new();
        let mut i: usize = 0;
        assert(self@.subrange(0, 0) =~= Seq::<DiagV>::empty());
        while i < self.diagnostics.len()
            invariant
                i <= self@.len(),
                self@.len() == self.diagnostics@.len(),
                out@ == diags_text(self@.subrange(0, i as int), source@, filename@),
            decreases self.diagnostics@.len() - i,
        {
            let t = self.diagnostics[i].report(source, filename);
            push_str(&mut out, t.as_str());
            proof {
                let post = self@.subrange(0, i + 1);
                assert(post.drop_last() =~= self@.subrange(0, i as int));
                assert(post.last() == self.diagnostics@[i as int]@);
            }
            i = i + 1;
        }
        assert(self@.subrange(0, i as int) =~= self@);
        out
    }
}

/// A diagnostic's report opens with one line `file:line:col: error: message`
/// (or `warning`), without the line and column when it has no span; its
/// note and help come last, each on a line of its own.
pub proof fn lemma_report_head(d: DiagV, source: Seq<char>, filename: Seq<char>)
    ensures
        ({
            let word = if d.severity == Severity::Error { "error"@ } else { "warning"@ };
            let head = match d.span {
                Some(sp) => ln(filename + ":"@ + dec_nat(sp.line as nat) + ":"@ + dec_nat(sp.col as nat) + ": "@
                    + word + ": "@ + d.message),
                None => ln(filename + ": "@ + word + ": "@ + d.message),
            };
            let t = diag_text(d, source, filename);
            let tail = (match d.note {
                Some(n) => ln("  note: "@ + n),
                None => Seq::empty(),
            }) + (match d.help {
                Some(h) => ln("  help: "@ + h),
                None => Seq::empty(),
            });
            &&& head.len() + tail.len() <= t.len()
            &&& t.subrange(0, head.len() as int) == head
            &&& t.subrange(t.len() - tail.len(), t.len() as int) == tail
        }),
{
    let word = if d.severity == Severity::Error { "error"@ } else { "warning"@ };
    let loc = match d.span {
        Some(sp) => filename + ":"@ + dec_nat(sp.line as nat) + ":"@ + dec_nat(sp.col as nat) + ": "@,
        None => filename + ": "@,
    };
    let head = ln(loc + word + ": "@ + d.message);
    let mid = match d.span {
        Some(sp) => snippet(sp, source),
        None => Seq::<char>::empty(),
    };
    let tail = (match d.note {
        Some(n) => ln("  note: "@ + n),
        None => Seq::<char>::empty(),
    }) + (match d.help {
        Some(h) => ln("  help: "@ + h),
        None => Seq::<char>::empty(),
    });
    let t = diag_text(d, source, filename);
    assert(severity_name(d.severity) == word);
    assert(t =~= head + mid + tail);
    match d.span {
        Some(sp) => {
            assert(head =~= ln(filename + ":"@ + dec_nat(sp.line as nat) + ":"@ + dec_nat(sp.col as nat) + ": "@ + word + ": "@ + d.message));
        },
        None => {
            assert(head =~= ln(filename + ": "@ + word + ": "@ + d.message));
        },
    }
    assert(t.subrange(0, head.len() as int) =~= head);
    assert(t.subrange(t.len() - tail.len(), t.len() as int) =~= tail);
}

} // verus!
