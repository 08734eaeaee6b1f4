//! The decisions of the `lint` command: what to read, what to report, how to exit.
use vstd::prelude::*;
use crate::analyze::{opt_view, public_diagnostics, public_of, Diagnostic, DiagnosticSeverity};
use vstd::string::StringExecFns;
use crate::diagnostics::{FileResult, LintResult};
use crate::text::chars_of;
use crate::utf16::{chars_before, char_utf8_width, lemma_chars_before_bound, utf8_len, utf8_width};

verus! {

/// Options of linting.
pub struct LintOptions {
    pub strict: bool,
}

/// The arguments of the `lint` command.
pub struct LintArgs {
    /// Lint an inline gram expression
    pub expression: Option<String>,
    /// Output diagnostics as machine-readable JSON
    pub json: bool,
    /// Output the parse tree as an s-expression
    pub tree: bool,
    /// Treat warnings as errors (exit non-zero on any diagnostic)
    pub strict: bool,
    /// Files, directories, or paths to lint (omit to read from stdin)
    pub paths: Vec<String>,
}

/// One linted source: where it came from, its text and its findings.
pub struct SourceResult {
    pub path: String,
    pub source: String,
    pub diags: Vec<Diagnostic>,
}

/// What the `lint` command does with its arguments.
#[derive(Clone, Copy, Debug, PartialEq, Eq, Structural)]
pub enum LintPlan {
    /// `--tree` with more than one path: refused.
    TreeTooManyInputs,
    /// Print the parse tree of the inline expression.
    TreeOfExpression,
    /// Print the parse tree of standard input.
    TreeOfStdin,
    /// Print the parse tree of the one path given.
    TreeOfFile,
    /// Lint the inline expression.
    LintExpression,
    /// Lint standard input.
    LintStdin,
    /// Lint the files given, and the `.gram` files in the directories given.
    LintPaths,
}

/// The plan for arguments with `--tree` set or not, an inline expression or not, and
/// `n_paths` paths.
pub open spec fn plan_of(tree: bool, has_expression: bool, n_paths: nat) -> LintPlan {
    if tree {
        if n_paths > 1 {
            LintPlan::TreeTooManyInputs
        } else if has_expression {
            LintPlan::TreeOfExpression
        } else if n_paths == 0 {
            LintPlan::TreeOfStdin
        } else {
            LintPlan::TreeOfFile
        }
    } else if has_expression {
        LintPlan::LintExpression
    } else if n_paths == 0 {
        LintPlan::LintStdin
    } else {
        LintPlan::LintPaths
    }
}

/// What the `lint` command does with `args`.
pub fn plan(args: &LintArgs) -> (p: LintPlan)
    ensures
        p == plan_of(args.tree, args.expression is Some, args.paths.len() as nat),
{
    let has_expression = match &args.expression {
        Some(_) => true,
        None => false,
    };
    if args.tree {
        if args.paths.len() > 1 {
            LintPlan::TreeTooManyInputs
        } else if has_expression {
            LintPlan::TreeOfExpression
        } else if args.paths.len() == 0 {
            LintPlan::TreeOfStdin
        } else {
            LintPlan::TreeOfFile
        }
    } else if has_expression {
        LintPlan::LintExpression
    } else if args.paths.len() == 0 {
        LintPlan::LintStdin
    } else {
        LintPlan::LintPaths
    }
}

/// The name a single linted input goes by in reports: `-e` for the inline expression, `-`
/// for standard input; none for the other plans, whose inputs are named by their paths.
pub open spec fn input_label_of(p: LintPlan) -> Option<Seq<char>> {
    match p {
        LintPlan::LintExpression => Some("-e"@),
        LintPlan::LintStdin => Some("-"@),
        _ => None,
    }
}

/// The name a single linted input goes by in reports.
pub fn input_label(p: LintPlan) -> (r: Option<String>)
    ensures
        opt_view(r) == input_label_of(p),
{
    match p {
        LintPlan::LintExpression => Some(String::from_str("-e")),
        LintPlan::LintStdin => Some(String::from_str("-")),
        _ => None,
    }
}

/// With an inline expression and no `--tree`, the expression alone is linted, under the name
/// `-e`, whatever paths are given; `--json` and `--strict` play no part in the choice.
pub proof fn law_expression_overrides_paths(n_paths: nat)
    ensures
        plan_of(false, true, n_paths) == LintPlan::LintExpression,
        input_label_of(plan_of(false, true, n_paths)) == Some("-e"@),
{
}

/// With `--tree`, nothing is linted: the plan prints a parse tree or refuses the arguments,
/// whatever else is given; `--json` and `--strict` play no part in the choice.
pub proof fn law_tree_prints_no_lint(has_expression: bool, n_paths: nat)
    ensures
        match plan_of(true, has_expression, n_paths) {
            LintPlan::TreeTooManyInputs | LintPlan::TreeOfExpression | LintPlan::TreeOfStdin
            | LintPlan::TreeOfFile => true,
            _ => false,
        },
        input_label_of(plan_of(true, has_expression, n_paths)) is None,
{
}

/// Some source of `results` has a finding of severity `sev`.
pub open spec fn has_severity(results: Seq<SourceResult>, sev: DiagnosticSeverity) -> bool {
    exists|i: int, j: int|
        0 <= i < results.len() && 0 <= j < results[i].diags.len() && (
        #[trigger] results[i].diags[j]).severity == sev
}

/// Whether some source of `results` has a finding of severity `sev`.
pub fn any_with_severity(results: &Vec<SourceResult>, sev: DiagnosticSeverity) -> (r: bool)
    ensures
        r == has_severity(results@, sev),
{
    let mut i: usize = 0;
    while i < results.len()
        invariant
            i <= results.len(),
            forall|a: int, b: int|
                0 <= a < i && 0 <= b < results@[a].diags.len() ==> (
                #[trigger] results@[a].diags[b]).severity != sev,
        decreases results.len() - i,
    {
        let mut j: usize = 0;
        while j < results[i].diags.len()
            invariant
                i < results.len(),
                j <= results@[i as int].diags.len(),
                forall|a: int, b: int|
                    0 <= a < i && 0 <= b < results@[a].diags.len() ==> (
                    #[trigger] results@[a].diags[b]).severity != sev,
                forall|b: int| 0 <= b < j ==> (#[trigger] results@[i as int].diags[b]).severity != sev,
            decreases results@[i as int].diags.len() - j,
        {
            if results[i].diags[j].severity == sev {
                assert(results@[i as int].diags[j as int].severity == sev);
                assert(has_severity(results@, sev));
                return true;
            }
            j += 1;
        }
        i += 1;
    }
    false
}

/// The exit code of a lint run that read all its sources: 1 when a finding is an error, or
/// with `strict` when one is a warning; 0 otherwise.
pub open spec fn exit_code_of(results: Seq<SourceResult>, strict: bool) -> i32 {
    if has_severity(results, DiagnosticSeverity::Error) || (strict && has_severity(
        results,
        DiagnosticSeverity::Warning,
    )) {
        1
    } else {
        0
    }
}

/// The exit code of a lint run that read all its sources.
pub fn exit_code(results: &Vec<SourceResult>, strict: bool) -> (c: i32)
    ensures
        c == exit_code_of(results@, strict),
{
    let has_errors = any_with_severity(results, DiagnosticSeverity::Error);
    let has_warnings = any_with_severity(results, DiagnosticSeverity::Warning);
    if has_errors || (strict && has_warnings) {
        1
    } else {
        0
    }
}

/// What a public file result holds, as mathematical values.
pub open spec fn file_result_matches(f: FileResult, r: SourceResult) -> bool {
    &&& f.path@ == r.path@
    &&& f.diagnostics.len() == r.diags.len()
    &&& forall|i: int|
        0 <= i < r.diags.len() ==> (#[trigger] f.diagnostics[i])@ == public_of(
            r.source@,
            r.diags[i]@,
        )
}

/// The public result of one linted source: its path and its findings as public diagnostics.
pub fn to_file_result(r: &SourceResult) -> (f: FileResult)
    ensures
        file_result_matches(f, *r),
{
    let diagnostics = public_diagnostics(r.source.as_str(), &r.diags);
    FileResult { path: r.path.clone(), diagnostics }
}

/// The machine-readable report of a lint run: schema version 1, the tool's name, and one file
/// result per source, in order.
pub fn lint_result(tool: String, results: &Vec<SourceResult>) -> (l: LintResult)
    ensures
        l.schema_version == 1,
        l.tool@ == tool@,
        l.files.len() == results.len(),
        forall|i: int| 0 <= i < results.len() ==> file_result_matches(#[trigger] l.files[i], results[i]),
{
    let mut files: Vec<FileResult> = Vec::new();
    for i in 0..results.len()
        invariant
            files.len() == i,
            forall|j: int| 0 <= j < i ==> file_result_matches(#[trigger] files[j], results[j]),
    {
        files.push(to_file_result(&results[i]));
    }
    LintResult { schema_version: 1, tool, files }
}

/// The index of the character of `s` that byte offset `byte` falls in (the number of
/// characters when `byte` is at or past the end).
pub fn byte_to_char(s: &str, byte: usize) -> (r: usize)
    ensures
        r == chars_before(s@, byte as int),
{
    let v = chars_of(s);
    let ghost t = v@;
    let n = v.len();
    let mut k: usize = 0;
    let mut used: usize = 0;
    assert(t.skip(0) == t);
    while k < n && char_utf8_width(v[k]) <= byte - used
        invariant
            n == v.len(),
            t == v@,
            k <= n,
            used <= byte,
            chars_before(t, byte as int) == k + chars_before(t.skip(k as int), byte - used),
        decreases n - k,
    {
        proof {
            assert(t.skip(k as int).drop_first() == t.skip(k + 1));
            assert(t.skip(k as int)[0] == t[k as int]);
        }
        used = used + char_utf8_width(v[k]);
        k = k + 1;
    }
    k
}

/// The character span that the pretty report underlines for `d` in `source`: from the
/// character of its start to the character of its end, but at least one character long
/// (the end is at least the start plus one, saturated at `usize::MAX`).
pub fn report_span(source: &str, d: &Diagnostic) -> (r: (usize, usize))
    ensures
        r.0 == chars_before(source@, d.start_byte as int),
        r.1 == vstd::math::max(
            chars_before(source@, d.end_byte as int) as int,
            if r.0 < usize::MAX { r.0 + 1 } else { r.0 as int },
        ),
{
    let start = byte_to_char(source, d.start_byte);
    let end = byte_to_char(source, d.end_byte);
    let floor = if start < usize::MAX {
        start + 1
    } else {
        start
    };
    if end > floor {
        (start, end)
    } else {
        (start, floor)
    }
}

/// Without `--tree` and without an inline expression, standard input is linted exactly when
/// no path is given; any non-empty list of paths is linted path by path.
pub proof fn law_paths_or_stdin(n_paths: nat)
    ensures
        plan_of(false, false, n_paths) == LintPlan::LintStdin <==> n_paths == 0,
        n_paths > 0 ==> plan_of(false, false, n_paths) == LintPlan::LintPaths,
{
}

/// A lint run with an error finding fails whether or not `--strict` is given; `--strict` only
/// adds failures (for warnings) and never removes one; without findings the run succeeds.
pub proof fn law_exit_code_errors_always_fail(results: Seq<SourceResult>, strict: bool)
    ensures
        has_severity(results, DiagnosticSeverity::Error) ==> exit_code_of(results, strict) == 1,
        exit_code_of(results, false) == 1 ==> exit_code_of(results, true) == 1,
        exit_code_of(results, false) == 1 <==> has_severity(results, DiagnosticSeverity::Error),
        has_severity(results, DiagnosticSeverity::Warning) ==> exit_code_of(results, true) == 1,
        !has_severity(results, DiagnosticSeverity::Error) && !has_severity(
            results,
            DiagnosticSeverity::Warning,
        ) ==> exit_code_of(results, strict) == 0,
        exit_code_of(results, strict) == 0 || exit_code_of(results, strict) == 1,
{
}

/// `utf8_len` of a sequence with one character in front.
proof fn lemma_utf8_len_prepend(c: char, t: Seq<char>)
    ensures
        utf8_len(seq![c] + t) == utf8_width(c) + utf8_len(t),
    decreases t.len(),
{
    if t.len() > 0 {
        lemma_utf8_len_prepend(c, t.drop_last());
        assert((seq![c] + t).drop_last() == seq![c] + t.drop_last());
        assert((seq![c] + t).last() == t.last());
        assert(utf8_len(seq![c] + t) == utf8_len(seq![c] + t.drop_last()) + utf8_width(t.last()));
    } else {
        assert(seq![c] + t == seq![c]);
        assert(seq![c].drop_last() == Seq::<char>::empty());
        assert(utf8_len(Seq::<char>::empty()) == 0);
        assert(utf8_len(seq![c]) == utf8_width(c));
    }
}

/// At the byte offset where the `k`-th character starts, `byte_to_char` gives `k`: offsets
/// and character indices agree on character boundaries.
pub proof fn law_byte_to_char_at_boundary(s: Seq<char>, k: int)
    requires
        0 <= k <= s.len(),
    ensures
        chars_before(s, utf8_len(s.take(k)) as int) == k,
    decreases k,
{
    if k == 0 {
        assert(s.take(0) == Seq::<char>::empty());
    } else {
        let r = s.drop_first();
        law_byte_to_char_at_boundary(r, k - 1);
        assert(s.take(k) == seq![s[0]] + r.take(k - 1));
        lemma_utf8_len_prepend(s[0], r.take(k - 1));
    }
}

/// `byte_to_char` never decreases as the offset grows, and never exceeds the number of
/// characters.
pub proof fn law_byte_to_char_monotone(s: Seq<char>, b1: int, b2: int)
    requires
        b1 <= b2,
    ensures
        chars_before(s, b1) <= chars_before(s, b2),
        chars_before(s, b2) <= s.len(),
    decreases s.len(),
{
    lemma_chars_before_bound(s, b2);
    if s.len() > 0 && utf8_width(s[0]) <= b1 {
        law_byte_to_char_monotone(s.drop_first(), b1 - utf8_width(s[0]), b2 - utf8_width(s[0]));
    }
}

} // verus!
