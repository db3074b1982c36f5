//! What a compilation has to say to its user, by the file that it is said
//! of.

use crate::name_map::{compare_names, lemma_name_order_total, NameOrder};
use crate::summon_io::{HostError, HostErrorKind};
use crate::text::{append_number, decimal};
use vstd::prelude::*;
use vstd::string::StringExecFns;

verus! {

/// How grave a diagnostic is.
#[derive(Debug, Clone, Copy, PartialEq, Eq, Structural)]
pub enum DiagnosticLevel {
    Lint,
    Error,
    InternalError,
    CompilerDebug,
}

/// A stretch of a text, from the position `lo` up to the position `hi`.
#[derive(Debug, Clone, Copy, PartialEq, Eq, Structural)]
pub struct Span {
    pub lo: u32,
    pub hi: u32,
}

/// One thing said of a stretch of a file.
#[derive(Debug, Clone)]
pub struct Diagnostic {
    pub level: DiagnosticLevel,
    pub message: String,
    pub span: Span,
}

/// The path of a file.
#[derive(Debug, Clone)]
pub struct ResolvedPath {
    pub path: String,
}

/// The diagnostics of a compilation, by the path of the file that they are
/// said of.
#[derive(Debug, Clone)]
pub struct DiagnosticsByPath(pub Vec<(ResolvedPath, Vec<Diagnostic>)>);

/// What a [`Diagnostic`] holds.
pub struct DiagnosticView {
    pub level: DiagnosticLevel,
    pub message: Seq<char>,
    pub span: Span,
}

impl View for Diagnostic {
    type V = DiagnosticView;

    open spec fn view(&self) -> DiagnosticView {
        DiagnosticView { level: self.level, message: self.message@, span: self.span }
    }
}

/// The diagnostics of one file: its path, and what is said of it.
pub type FileDiagnostics = (Seq<char>, Seq<DiagnosticView>);

impl View for DiagnosticsByPath {
    type V = Seq<FileDiagnostics>;

    open spec fn view(&self) -> Seq<FileDiagnostics> {
        self.0@.map_values(
            |e: (ResolvedPath, Vec<Diagnostic>)| (e.0.path@, e.1@.map_values(|d: Diagnostic| d@)),
        )
    }
}

/// The first position at or after `from` with the path `path`, if there is
/// one.
pub open spec fn first_with_path(entries: Seq<FileDiagnostics>, path: Seq<char>, from: int) -> Option<
    int,
>
    decreases entries.len() - from,
{
    if from < 0 || from >= entries.len() {
        None
    } else if entries[from].0 == path {
        Some(from)
    } else {
        first_with_path(entries, path, from + 1)
    }
}

/// The first position with a path, where there is one, is a position with
/// that path.
pub proof fn lemma_first_with_path(entries: Seq<FileDiagnostics>, path: Seq<char>, from: int)
    requires
        0 <= from,
    ensures
        first_with_path(entries, path, from) is Some ==> from <= first_with_path(
            entries,
            path,
            from,
        )->0 < entries.len() && entries[first_with_path(entries, path, from)->0].0 == path,
    decreases entries.len() - from,
{
    if from < entries.len() && entries[from].0 != path {
        lemma_first_with_path(entries, path, from + 1);
    }
}

/// The diagnostics with one more for the file at `path`: added to those of
/// the first entry with that path, or as a new entry after all others.
pub open spec fn with_diagnostic(
    entries: Seq<FileDiagnostics>,
    path: Seq<char>,
    diagnostic: DiagnosticView,
) -> Seq<FileDiagnostics> {
    match first_with_path(entries, path, 0) {
        Some(i) => entries.update(i, (entries[i].0, entries[i].1.push(diagnostic))),
        None => entries.push((path, seq![diagnostic])),
    }
}

/// Whether a level is that of an error.
pub open spec fn is_error_level(level: DiagnosticLevel) -> bool {
    level == DiagnosticLevel::Error || level == DiagnosticLevel::InternalError
}

impl ResolvedPath {
    /// Whether the path is that of a file: the path `(str)` stands for a
    /// text that was handed over as it is, and every other for a file.
    pub open spec fn spec_names_a_file(&self) -> bool {
        self.path@ != "(str)"@
    }

    /// Whether the path is that of a file.
    pub fn names_a_file(&self) -> (r: bool)
        ensures
            r == self.spec_names_a_file(),
    {
        match compare_names(self.path.as_str(), "(str)") {
            NameOrder::Same => false,
            _ => {
                proof {
                    lemma_name_order_total(self.path@, self.path@);
                }
                true
            },
        }
    }
}

/// The diagnostic for an error that the program was told of while it ran:
/// it has the message of the error and no place in a file; an internal
/// error stays one, every other is an error.
pub open spec fn host_diagnostic(err: HostError) -> DiagnosticView {
    DiagnosticView {
        level: if err.kind == HostErrorKind::InternalError {
            DiagnosticLevel::InternalError
        } else {
            DiagnosticLevel::Error
        },
        message: err.message@,
        span: Span { lo: 0, hi: 0 },
    }
}

impl Diagnostic {
    /// The diagnostic for an error that the program was told of while it
    /// ran: an internal error stays one, every other is an error.
    pub fn from_host_error(err: &HostError) -> (d: Diagnostic)
        ensures
            d@ == host_diagnostic(*err),
            d.level == if err.kind == HostErrorKind::InternalError {
                DiagnosticLevel::InternalError
            } else {
                DiagnosticLevel::Error
            },
            d.message@ == err.message@,
            d.span == (Span { lo: 0, hi: 0 }),
    {
        Diagnostic {
            level: match err.kind {
                HostErrorKind::InternalError => DiagnosticLevel::InternalError,
                _ => DiagnosticLevel::Error,
            },
            message: err.message.clone(),
            span: Span { lo: 0, hi: 0 },
        }
    }
}

impl DiagnosticsByPath {
    /// Whether a diagnostic of one of the levels that `wanted` holds is
    /// among these.
    pub open spec fn has_level(&self, wanted: spec_fn(DiagnosticLevel) -> bool) -> bool {
        exists|i: int, j: int|
            0 <= i < self.0@.len() && 0 <= j < self.0@[i].1@.len() && wanted(
                (#[trigger] self.0@[i].1@[j]).level,
            )
    }

    /// Whether a diagnostic of the level `Error` or `InternalError` is
    /// among these.
    pub open spec fn spec_has_errors(&self) -> bool {
        self.has_level(|l: DiagnosticLevel| is_error_level(l))
    }

    /// Whether a diagnostic of the level `InternalError` is among these.
    pub open spec fn spec_has_internal_errors(&self) -> bool {
        self.has_level(|l: DiagnosticLevel| l == DiagnosticLevel::InternalError)
    }

    /// Whether a diagnostic of the level `Error` or `InternalError` is
    /// among these.
    pub fn has_errors(&self) -> (r: bool)
        ensures
            r == self.spec_has_errors(),
    {
        let mut i: usize = 0;
        while i < self.0.len()
            invariant
                i <= self.0@.len(),
                forall|a: int, b: int|
                    0 <= a < i && 0 <= b < self.0@[a].1@.len() ==> !is_error_level(
                        (#[trigger] self.0@[a].1@[b]).level,
                    ),
            decreases self.0@.len() - i,
        {
            let list = &self.0[i].1;
            let mut j: usize = 0;
            while j < list.len()
                invariant
                    j <= list@.len(),
                    i < self.0@.len(),
                    *list == self.0@[i as int].1,
                    forall|b: int| 0 <= b < j ==> !is_error_level((#[trigger] list@[b]).level),
                decreases list@.len() - j,
            {
                match list[j].level {
                    DiagnosticLevel::Lint => {},
                    DiagnosticLevel::Error | DiagnosticLevel::InternalError => {
                        assert(is_error_level(self.0@[i as int].1@[j as int].level));
                        return true;
                    },
                    DiagnosticLevel::CompilerDebug => {},
                }
                j += 1;
            }
            i += 1;
        }
        false
    }

    /// Whether a diagnostic of the level `InternalError` is among these.
    pub fn has_internal_errors(&self) -> (r: bool)
        ensures
            r == self.spec_has_internal_errors(),
    {
        let mut i: usize = 0;
        while i < self.0.len()
            invariant
                i <= self.0@.len(),
                forall|a: int, b: int|
                    0 <= a < i && 0 <= b < self.0@[a].1@.len() ==> (
                    #[trigger] self.0@[a].1@[b]).level != DiagnosticLevel::InternalError,
            decreases self.0@.len() - i,
        {
            let list = &self.0[i].1;
            let mut j: usize = 0;
            while j < list.len()
                invariant
                    j <= list@.len(),
                    i < self.0@.len(),
                    *list == self.0@[i as int].1,
                    forall|b: int|
                        0 <= b < j ==> (#[trigger] list@[b]).level
                            != DiagnosticLevel::InternalError,
                decreases list@.len() - j,
            {
                match list[j].level {
                    DiagnosticLevel::InternalError => {
                        assert(self.0@[i as int].1@[j as int].level
                            == DiagnosticLevel::InternalError);
                        return true;
                    },
                    _ => {},
                }
                j += 1;
            }
            i += 1;
        }
        false
    }

    /// The exit code of a compilation with these diagnostics: one if an
    /// error is among them, else zero.
    pub fn exit_code(&self) -> (code: i32)
        ensures
            code == if self.spec_has_errors() {
                1i32
            } else {
                0i32
            },
    {
        if self.has_errors() {
            1
        } else {
            0
        }
    }

    /// Adds a diagnostic for the file at `path`: to the diagnostics of the
    /// first entry with that path, or as a new entry after all others.
    pub fn add(&mut self, path: &String, diagnostic: Diagnostic)
        ensures
            final(self)@ == with_diagnostic(old(self)@, path@, diagnostic@),
            final(self).spec_has_errors() == (old(self).spec_has_errors() || is_error_level(
                diagnostic.level,
            )),
            final(self).spec_has_internal_errors() == (old(self).spec_has_internal_errors()
                || diagnostic.level == DiagnosticLevel::InternalError),
            final(self).0@.len() >= old(self).0@.len(),
    {
        let ghost before = self.0@;
        let ghost views = self@;
        let ghost level = diagnostic.level;
        let ghost added = diagnostic@;
        let mut i: usize = 0;
        while i < self.0.len()
            invariant
                i <= self.0@.len(),
                self.0@ == before,
                views == self@,
                first_with_path(views, path@, 0) == first_with_path(views, path@, i as int),
            ensures
                i <= self.0@.len(),
                self.0@ == before,
                first_with_path(views, path@, 0) == if i < before.len() {
                    Some(i as int)
                } else {
                    None
                },
            decreases self.0@.len() - i,
        {
            assert(views[i as int].0 == self.0@[i as int].0.path@);
            if self.0[i].0.path == *path {
                break ;
            }
            i += 1;
        }
        if i < self.0.len() {
            let ghost old_list = before[i as int].1@;
            let mut list = clone_diagnostics(&self.0[i].1);
            let entry_path = ResolvedPath { path: self.0[i].0.path.clone() };
            list.push(diagnostic);
            self.0.set(i, (entry_path, list));
            proof {
                let after = self.0@;
                let n = before[i as int].1@.len() as int;
                assert(self@ =~= with_diagnostic(views, path@, added)) by {
                    let target = with_diagnostic(views, path@, added);
                    assert forall|k: int| 0 <= k < after.len() implies self@[k] == target[k] by {
                        if k == i {
                            assert(after[k].1@.map_values(|d: Diagnostic| d@) =~= views[k].1.push(
                                added,
                            )) by {
                                let m = after[k].1@.map_values(|d: Diagnostic| d@);
                                assert forall|b: int| 0 <= b < m.len() implies m[b] == views[k].1.push(
                                    added,
                                )[b] by {
                                    if b < n {
                                        assert(views[k].1[b] == old_list[b]@);
                                    }
                                }
                            }
                        } else {
                            assert(after[k] == before[k]);
                        }
                    }
                }
                assert forall|wanted: spec_fn(DiagnosticLevel) -> bool|
                    self.has_level(wanted) == (old(self).has_level(wanted) || wanted(level)) by {
                    if old(self).has_level(wanted) {
                        let (a, b) = choose|a: int, b: int|
                            0 <= a < before.len() && 0 <= b < before[a].1@.len() && wanted(
                                (#[trigger] before[a].1@[b]).level,
                            );
                        if a == i {
                            assert(after[a].1@[b].level == before[a].1@[b].level);
                        } else {
                            assert(after[a] == before[a]);
                        }
                        assert(wanted(after[a].1@[b].level));
                    }
                    if wanted(level) {
                        assert(wanted(after[i as int].1@[n].level));
                    }
                    if self.has_level(wanted) {
                        let (a, b) = choose|a: int, b: int|
                            0 <= a < after.len() && 0 <= b < after[a].1@.len() && wanted(
                                (#[trigger] after[a].1@[b]).level,
                            );
                        if a == i {
                            if b < n {
                                assert(after[a].1@[b].level == before[a].1@[b].level);
                                assert(wanted(before[a].1@[b].level));
                            }
                        } else {
                            assert(after[a] == before[a]);
                            assert(wanted(before[a].1@[b].level));
                        }
                    }
                }
            }
        } else {
            let mut list: Vec<Diagnostic> = Vec::new();
            list.push(diagnostic);
            self.0.push((ResolvedPath { path: path.clone() }, list));
            proof {
                let after = self.0@;
                let n = before.len() as int;
                assert(self@ =~= with_diagnostic(views, path@, added)) by {
                    let target = with_diagnostic(views, path@, added);
                    assert forall|k: int| 0 <= k < after.len() implies self@[k] == target[k] by {
                        if k < n {
                            assert(after[k] == before[k]);
                        } else {
                            assert(after[k].1@.map_values(|d: Diagnostic| d@) =~= seq![added]);
                        }
                    }
                }
                assert forall|wanted: spec_fn(DiagnosticLevel) -> bool|
                    self.has_level(wanted) == (old(self).has_level(wanted) || wanted(level)) by {
                    if old(self).has_level(wanted) {
                        let (a, b) = choose|a: int, b: int|
                            0 <= a < before.len() && 0 <= b < before[a].1@.len() && wanted(
                                (#[trigger] before[a].1@[b]).level,
                            );
                        assert(after[a] == before[a]);
                        assert(wanted(after[a].1@[b].level));
                    }
                    if wanted(level) {
                        assert(wanted(after[n].1@[0].level));
                    }
                    if self.has_level(wanted) {
                        let (a, b) = choose|a: int, b: int|
                            0 <= a < after.len() && 0 <= b < after[a].1@.len() && wanted(
                                (#[trigger] after[a].1@[b]).level,
                            );
                        if a < n {
                            assert(after[a] == before[a]);
                            assert(wanted(before[a].1@[b].level));
                        }
                    }
                }
            }
        }
    }
}

/// A copy of a list of diagnostics.
fn clone_diagnostics(list: &Vec<Diagnostic>) -> (r: Vec<Diagnostic>)
    ensures
        r@.len() == list@.len(),
        forall|i: int| 0 <= i < list@.len() ==> (#[trigger] r@[i])@ == list@[i]@,
        forall|i: int| 0 <= i < list@.len() ==> (#[trigger] r@[i]).level == list@[i].level,
        forall|i: int| 0 <= i < list@.len() ==> (#[trigger] r@[i]).message@ == list@[i].message@,
        forall|i: int| 0 <= i < list@.len() ==> (#[trigger] r@[i]).span == list@[i].span,
{
    let mut r: Vec<Diagnostic> = Vec::new();
    let mut i: usize = 0;
    while i < list.len()
        invariant
            i <= list@.len(),
            r@.len() == i,
            forall|k: int| 0 <= k < i ==> (#[trigger] r@[k]).level == list@[k].level,
            forall|k: int| 0 <= k < i ==> (#[trigger] r@[k]).message@ == list@[k].message@,
            forall|k: int| 0 <= k < i ==> (#[trigger] r@[k]).span == list@[k].span,
        decreases list@.len() - i,
    {
        r.push(
            Diagnostic {
                level: list[i].level,
                message: list[i].message.clone(),
                span: list[i].span,
            },
        );
        i += 1;
    }
    r
}

/// The line and the column that counting has reached after the first `n`
/// characters of a text: both begin at one, a line feed begins a new line,
/// and counting stops at the largest number that there is.
pub open spec fn line_col_after(text: Seq<char>, n: int) -> (u32, u32)
    decreases n,
{
    if n <= 0 {
        (1, 1)
    } else {
        let (line, col) = line_col_after(text, n - 1);
        if text[n - 1] == '\n' {
            (
                if line < u32::MAX {
                    (line + 1) as u32
                } else {
                    line
                },
                1,
            )
        } else {
            (
                line,
                if col < u32::MAX {
                    (col + 1) as u32
                } else {
                    col
                },
            )
        }
    }
}

/// The line and the column of the character at position `pos` of a text,
/// both counted from one; of the end of the text where it is shorter.
pub fn pos_to_line_col(text: &str, pos: u32) -> (r: (u32, u32))
    ensures
        r == line_col_after(
            text@,
            if pos <= text@.len() {
                pos as int
            } else {
                text@.len() as int
            },
        ),
{
    let chars = crate::text::str_chars(text);
    let mut line: u32 = 1;
    let mut col: u32 = 1;
    let mut i: usize = 0;
    while i < chars.len() && i < pos as usize
        invariant
            i <= chars@.len(),
            i <= pos,
            chars@ == text@,
            (line, col) == line_col_after(text@, i as int),
        decreases chars@.len() - i,
    {
        if chars[i] == '\n' {
            if line < u32::MAX {
                line += 1;
            }
            col = 1;
        } else if col < u32::MAX {
            col += 1;
        }
        i += 1;
    }
    (line, col)
}

/// The name of a level, as a report shows it.
pub open spec fn level_name(level: DiagnosticLevel) -> Seq<char> {
    match level {
        DiagnosticLevel::Lint => "Lint"@,
        DiagnosticLevel::Error => "Error"@,
        DiagnosticLevel::InternalError => "InternalError"@,
        DiagnosticLevel::CompilerDebug => "CompilerDebug"@,
    }
}

/// The line and the column that a report shows for the position `pos`:
/// those of the position in the text of the file, or zero and zero where
/// the file has no text to look at.
pub open spec fn shown_position(text: Option<Seq<char>>, pos: u32) -> (u32, u32) {
    match text {
        Some(t) => line_col_after(
            t,
            if pos <= t.len() {
                pos as int
            } else {
                t.len() as int
            },
        ),
        None => (0, 0),
    }
}

/// The line of a report for one diagnostic: the file as it is shown, the
/// line and the column where the diagnostic begins, its level and its
/// message.
pub open spec fn report_line(shown: Seq<char>, text: Option<Seq<char>>, d: DiagnosticView) -> Seq<
    char,
> {
    let (line, col) = shown_position(text, d.span.lo);
    shown + ":"@ + decimal(line as nat) + ":"@ + decimal(col as nat) + ": "@ + level_name(d.level)
        + ": "@ + d.message + "\n"@
}

/// The lines of a report for the first `n` diagnostics of a file.
pub open spec fn report_lines(
    shown: Seq<char>,
    text: Option<Seq<char>>,
    ds: Seq<DiagnosticView>,
    n: int,
) -> Seq<char>
    decreases n,
{
    if n <= 0 {
        Seq::empty()
    } else {
        report_lines(shown, text, ds, n - 1) + report_line(shown, text, ds[n - 1])
    }
}

/// How many of the first `n` diagnostics are errors.
pub open spec fn count_errors(ds: Seq<DiagnosticView>, n: int) -> nat
    decreases n,
{
    if n <= 0 {
        0
    } else {
        count_errors(ds, n - 1) + if is_error_level(ds[n - 1].level) {
            1nat
        } else {
            0nat
        }
    }
}

/// The report on the diagnostics of one file: a line for each of them, in
/// their order, and after an empty line the number of the errors where
/// there is one.
pub open spec fn spec_file_report(
    shown: Seq<char>,
    text: Option<Seq<char>>,
    ds: Seq<DiagnosticView>,
) -> Seq<char> {
    let lines = report_lines(shown, text, ds, ds.len() as int);
    let errors = count_errors(ds, ds.len() as int);
    if errors > 0 {
        lines + "\nFailed with "@ + decimal(errors) + " error(s)\n"@
    } else {
        lines
    }
}

/// The text of an optional string.
pub open spec fn text_view(text: Option<&str>) -> Option<Seq<char>> {
    match text {
        Some(t) => Some(t@),
        None => None,
    }
}

/// The name of a level, as a report shows it.
pub fn level_text(level: DiagnosticLevel) -> (r: &'static str)
    ensures
        r@ == level_name(level),
{
    match level {
        DiagnosticLevel::Lint => "Lint",
        DiagnosticLevel::Error => "Error",
        DiagnosticLevel::InternalError => "InternalError",
        DiagnosticLevel::CompilerDebug => "CompilerDebug",
    }
}

/// Appends the line of a report for one diagnostic.
fn append_report_line(out: &mut String, shown: &str, text: Option<&str>, d: &Diagnostic)
    ensures
        final(out)@ == old(out)@ + report_line(shown@, text_view(text), d@),
{
    let ghost before = out@;
    let (line, col) = match text {
        Some(t) => pos_to_line_col(t, d.span.lo),
        None => (0, 0),
    };
    out.append(shown);
    out.append(":");
    append_number(out, line as usize);
    out.append(":");
    append_number(out, col as usize);
    out.append(": ");
    out.append(level_text(d.level));
    out.append(": ");
    out.append(d.message.as_str());
    out.append("\n");
    assert(out@ =~= before + report_line(shown@, text_view(text), d@));
}

/// The report on the diagnostics of one file, which is shown as `shown`
/// and whose text, where there is one to look at, is `text`.
pub fn file_report(shown: &str, text: Option<&str>, diagnostics: &Vec<Diagnostic>) -> (r: String)
    ensures
        r@ == spec_file_report(
            shown@,
            text_view(text),
            diagnostics@.map_values(|d: Diagnostic| d@),
        ),
{
    let ghost ds = diagnostics@.map_values(|d: Diagnostic| d@);
    let ghost tv = text_view(text);
    let mut out = String::new();
    let mut errors: usize = 0;
    let mut i: usize = 0;
    assert(out@ =~= report_lines(shown@, tv, ds, 0));
    while i < diagnostics.len()
        invariant
            i <= diagnostics@.len(),
            ds == diagnostics@.map_values(|d: Diagnostic| d@),
            tv == text_view(text),
            out@ == report_lines(shown@, tv, ds, i as int),
            errors == count_errors(ds, i as int),
            errors <= i,
        decreases diagnostics@.len() - i,
    {
        let d = &diagnostics[i];
        assert(ds[i as int] == d@);
        append_report_line(&mut out, shown, text, d);
        match d.level {
            DiagnosticLevel::Error | DiagnosticLevel::InternalError => {
                errors += 1;
            },
            _ => {},
        }
        i += 1;
    }
    if errors > 0 {
        out.append("\nFailed with ");
        append_number(&mut out, errors);
        out.append(" error(s)\n");
    }
    out
}

} // verus!
