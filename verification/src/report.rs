//! Command-line diagnostics: arguments, records and exit codes.

use ropey::Rope;
use vstd::prelude::*;
use vstd::string::*;

use crate::checks::{Diagnostic, DiagnosticView, Severity};
use crate::convert::{locate, offset_to_position, Position, PositionEnc};
use crate::numbers::{decimal, to_decimal};
use crate::rope::rope_text;
use crate::text::{blen, cat5, cat7, first_char, same, string_views};

verus! {

/// The least severe diagnostic that makes a check fail.
#[derive(Debug, Clone, Copy, PartialEq, Eq, Structural)]
pub enum FailOn {
    Error,
    Warning,
    Hint,
}

/// What to check, and how.
#[derive(Debug)]
pub struct CheckArgs {
    pub json: bool,
    pub fail_on: FailOn,
    pub base_roots: Vec<String>,
    /// The name that standard input goes by.
    pub stdin_name: String,
    /// Files and directories.
    pub targets: Vec<String>,
    /// Whether standard input is checked.
    pub stdin: bool,
}

#[verifier::ext_equal]
pub struct ArgsView {
    pub json: bool,
    pub fail_on: FailOn,
    pub base_roots: Seq<Seq<char>>,
    pub stdin_name: Seq<char>,
    pub targets: Seq<Seq<char>>,
    pub stdin: bool,
}

impl View for CheckArgs {
    type V = ArgsView;

    open spec fn view(&self) -> ArgsView {
        ArgsView {
            json: self.json,
            fail_on: self.fail_on,
            base_roots: string_views(self.base_roots@),
            stdin_name: self.stdin_name@,
            targets: string_views(self.targets@),
            stdin: self.stdin,
        }
    }
}

/// What is wrong with the arguments.
#[derive(Debug)]
pub enum ArgError {
    /// There is no such option.
    Unknown(String),
    /// The option needs a value.
    MissingValue(String),
    /// There is no such severity.
    BadLevel(String),
    /// Nothing is to be checked.
    NoTarget,
    /// Standard input is named twice.
    SecondStdin,
}

pub enum ArgErrorView {
    Unknown(Seq<char>),
    MissingValue(Seq<char>),
    BadLevel(Seq<char>),
    NoTarget,
    SecondStdin,
}

impl View for ArgError {
    type V = ArgErrorView;

    open spec fn view(&self) -> ArgErrorView {
        match self {
            ArgError::Unknown(text) => ArgErrorView::Unknown(text@),
            ArgError::MissingValue(text) => ArgErrorView::MissingValue(text@),
            ArgError::BadLevel(text) => ArgErrorView::BadLevel(text@),
            ArgError::NoTarget => ArgErrorView::NoTarget,
            ArgError::SecondStdin => ArgErrorView::SecondStdin,
        }
    }
}

/// The severity of a name.
pub open spec fn level_of(name: Seq<char>) -> Option<FailOn> {
    if name == "error"@ {
        Some(FailOn::Error)
    } else if name == "warning"@ {
        Some(FailOn::Warning)
    } else if name == "hint"@ {
        Some(FailOn::Hint)
    } else {
        None
    }
}

/// Whether an option takes a value.
pub open spec fn takes_value(arg: Seq<char>) -> bool {
    arg == "--fail-on"@ || arg == "--base-root"@ || arg == "--stdin-filename"@
}

/// The arguments from `i` on, behind what `state` holds.
pub open spec fn args_from(args: Seq<Seq<char>>, i: int, state: ArgsView) -> Result<
    ArgsView,
    ArgErrorView,
>
    decreases args.len() - i,
{
    if i < 0 || i >= args.len() {
        if state.targets.len() == 0 && !state.stdin {
            Err(ArgErrorView::NoTarget)
        } else {
            Ok(state)
        }
    } else {
        let arg = args[i];
        if takes_value(arg) && i + 1 >= args.len() {
            Err(ArgErrorView::MissingValue(arg))
        } else if arg == "--fail-on"@ {
            match level_of(args[i + 1]) {
                Some(fail_on) => args_from(args, i + 2, ArgsView { fail_on, ..state }),
                None => Err(ArgErrorView::BadLevel(args[i + 1])),
            }
        } else if arg == "--base-root"@ {
            args_from(
                args,
                i + 2,
                ArgsView { base_roots: state.base_roots.push(args[i + 1]), ..state },
            )
        } else if arg == "--stdin-filename"@ {
            args_from(args, i + 2, ArgsView { stdin_name: args[i + 1], ..state })
        } else if arg == "--json"@ {
            args_from(args, i + 1, ArgsView { json: true, ..state })
        } else if arg == "-"@ {
            if state.stdin {
                Err(ArgErrorView::SecondStdin)
            } else {
                args_from(args, i + 1, ArgsView { stdin: true, ..state })
            }
        } else if arg.len() > 0 && arg[0] == '-' {
            Err(ArgErrorView::Unknown(arg))
        } else {
            args_from(args, i + 1, ArgsView { targets: state.targets.push(arg), ..state })
        }
    }
}

/// Without arguments: errors fail, and standard input is called `<stdin>`.
pub open spec fn default_args() -> ArgsView {
    ArgsView {
        json: false,
        fail_on: FailOn::Error,
        base_roots: Seq::empty(),
        stdin_name: "<stdin>"@,
        targets: Seq::empty(),
        stdin: false,
    }
}

fn read_level(name: &str) -> (out: Option<FailOn>)
    ensures
        out == level_of(name@),
{
    if same(name, "error") {
        Some(FailOn::Error)
    } else if same(name, "warning") {
        Some(FailOn::Warning)
    } else if same(name, "hint") {
        Some(FailOn::Hint)
    } else {
        None
    }
}

/// Read the arguments of a check.
pub fn parse_check_args(args: &Vec<String>) -> (out: Result<CheckArgs, ArgError>)
    ensures
        match out {
            Ok(parsed) => args_from(string_views(args@), 0, default_args()) == Ok::<
                ArgsView,
                ArgErrorView,
            >(parsed@),
            Err(error) => args_from(string_views(args@), 0, default_args()) == Err::<
                ArgsView,
                ArgErrorView,
            >(error@),
        },
{
    let ghost all = string_views(args@);
    let mut out = CheckArgs {
        json: false,
        fail_on: FailOn::Error,
        base_roots: Vec::new(),
        stdin_name: "<stdin>".to_string(),
        targets: Vec::new(),
        stdin: false,
    };
    let mut i: usize = 0;
    assert(out@ =~= default_args());
    while i < args.len()
        invariant
            i <= args.len(),
            all == string_views(args@),
            args_from(all, 0, default_args()) == args_from(all, i as int, out@),
        decreases args.len() - i,
    {
        let ghost state = out@;
        let arg = &args[i];
        assert(all[i as int] == arg@);
        let valued = same(arg, "--fail-on") || same(arg, "--base-root") || same(
            arg,
            "--stdin-filename",
        );
        let left: usize = args.len() - i;
        if valued {
            if left < 2 {
                return Err(ArgError::MissingValue(arg.clone()));
            }
            let value = &args[i + 1];
            assert(all[i + 1] == value@);
            if same(arg, "--fail-on") {
                match read_level(value) {
                    Some(fail_on) => {
                        out.fail_on = fail_on;
                        assert(out@ =~= (ArgsView { fail_on, ..state }));
                    },
                    None => {
                        return Err(ArgError::BadLevel(value.clone()));
                    },
                }
            } else if same(arg, "--base-root") {
                out.base_roots.push(value.clone());
                assert(string_views(out.base_roots@) =~= state.base_roots.push(value@));
            } else {
                out.stdin_name = value.clone();
            }
            i += 2;
        } else if same(arg, "--json") {
            out.json = true;
            i += 1;
        } else if same(arg, "-") {
            if out.stdin {
                return Err(ArgError::SecondStdin);
            }
            out.stdin = true;
            i += 1;
        } else {
            if let Some('-') = first_char(arg) {
                return Err(ArgError::Unknown(arg.clone()));
            }
            out.targets.push(arg.clone());
            assert(string_views(out.targets@) =~= state.targets.push(arg@));
            i += 1;
        }
    }
    assert(string_views(out.targets@).len() == out.targets@.len());
    if out.targets.len() == 0 && !out.stdin {
        return Err(ArgError::NoTarget);
    }
    Ok(out)
}

// ---------------------------------------------------------------------------
// Results
// ---------------------------------------------------------------------------
/// Whether a diagnostic makes a check fail.
pub open spec fn is_failure(severity: Severity, fail_on: FailOn) -> bool {
    match fail_on {
        FailOn::Error => severity == Severity::Error,
        FailOn::Warning => severity == Severity::Error || severity == Severity::Warning,
        FailOn::Hint => true,
    }
}

fn fails(severity: Severity, fail_on: FailOn) -> (yes: bool)
    ensures
        yes == is_failure(severity, fail_on),
{
    match fail_on {
        FailOn::Error => severity == Severity::Error,
        FailOn::Warning => severity == Severity::Error || severity == Severity::Warning,
        FailOn::Hint => true,
    }
}

/// The exit code of a check: one if a diagnostic makes it fail.
pub fn exit_code(severities: &Vec<Severity>, fail_on: FailOn) -> (code: u8)
    ensures
        code == if exists|i: int|
            0 <= i < severities.len() && is_failure(#[trigger] severities[i], fail_on) {
            1u8
        } else {
            0u8
        },
{
    let mut i: usize = 0;
    while i < severities.len()
        invariant
            i <= severities.len(),
            forall|j: int| 0 <= j < i ==> !is_failure(#[trigger] severities[j], fail_on),
        decreases severities.len() - i,
    {
        if fails(severities[i], fail_on) {
            return 1;
        }
        i += 1;
    }
    0
}

/// What a severity is called.
pub open spec fn severity_name(severity: Severity) -> Seq<char> {
    match severity {
        Severity::Error => "error"@,
        Severity::Warning => "warning"@,
        Severity::Hint => "hint"@,
    }
}

/// What a severity is called.
pub fn severity_text(severity: Severity) -> (out: &'static str)
    ensures
        out@ == severity_name(severity),
{
    match severity {
        Severity::Error => "error",
        Severity::Warning => "warning",
        Severity::Hint => "hint",
    }
}

/// A line and a column, both counted from one.
pub open spec fn shown_position(pos: Position) -> (int, int) {
    (pos.line + 1, pos.character + 1)
}

/// The record of a diagnostic: where it starts, how severe it is, and what it
/// says.
pub open spec fn record_text(file: Seq<char>, text: Seq<char>, diagnostic: DiagnosticView) -> Seq<
    char,
> {
    let (line, column) = shown_position(
        locate(text, diagnostic.span.start as int, PositionEnc::Utf32),
    );
    file + ":"@ + decimal(line as nat) + ":"@ + decimal(column as nat) + ": "@ + severity_name(
        diagnostic.severity,
    ) + ("["@ + diagnostic.code + "]: "@ + diagnostic.message)
}

/// The record of a diagnostic.
pub fn write_record(file: &str, rope: &Rope, diagnostic: &Diagnostic) -> (out: String)
    requires
        blen(rope_text(*rope)) <= u32::MAX,
    ensures
        out@ == record_text(file@, rope_text(*rope), diagnostic.view()),
{
    let pos = offset_to_position(rope, diagnostic.span.start);
    let mut out = cat7(
        file,
        ":",
        &to_decimal(pos.line as u128 + 1),
        ":",
        &to_decimal(pos.character as u128 + 1),
        ": ",
        severity_text(diagnostic.severity),
    );
    let mut rest = crate::text::cat3("[", diagnostic.code, "]: ");
    rest.append(&diagnostic.message);
    out.append(&rest);
    out
}

/// How many of the first `n` diagnostics are of a severity.
pub open spec fn count_severity(severities: Seq<Severity>, severity: Severity, n: nat) -> nat
    decreases n,
{
    if n == 0 {
        0
    } else {
        count_severity(severities, severity, (n - 1) as nat) + if severities[n - 1] == severity {
            1nat
        } else {
            0nat
        }
    }
}

fn count(severities: &Vec<Severity>, severity: Severity) -> (out: usize)
    ensures
        out == count_severity(severities@, severity, severities@.len()),
{
    let mut out: usize = 0;
    let mut i: usize = 0;
    while i < severities.len()
        invariant
            i <= severities.len(),
            out <= i,
            out == count_severity(severities@, severity, i as nat),
        decreases severities.len() - i,
    {
        if severities[i] == severity {
            out += 1;
        }
        i += 1;
    }
    out
}

/// The last line of a report.
pub open spec fn summary_text(severities: Seq<Severity>) -> Seq<char> {
    let n = severities.len();
    decimal(count_severity(severities, Severity::Error, n)) + " error(s), "@ + decimal(
        count_severity(severities, Severity::Warning, n),
    ) + " warning(s), "@ + decimal(count_severity(severities, Severity::Hint, n)) + " hint(s)"@
}

/// The last line of a report.
pub fn write_summary(severities: &Vec<Severity>) -> (out: String)
    ensures
        out@ == summary_text(severities@),
{
    let mut out = cat5(
        &to_decimal(count(severities, Severity::Error) as u128),
        " error(s), ",
        &to_decimal(count(severities, Severity::Warning) as u128),
        " warning(s), ",
        &to_decimal(count(severities, Severity::Hint) as u128),
    );
    out.append(" hint(s)");
    out
}

/// Law: a stricter threshold never turns a failure into a success.
pub proof fn stricter_thresholds_fail_more(severity: Severity)
    ensures
        is_failure(severity, FailOn::Error) ==> is_failure(severity, FailOn::Warning),
        is_failure(severity, FailOn::Warning) ==> is_failure(severity, FailOn::Hint),
{
}

} // verus!
