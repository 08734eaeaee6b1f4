use gram_data::analyze::{Diagnostic, DiagnosticSeverity};
use gram_data::diagnostics::Severity;
use gram_data::lint::{
    byte_to_char, exit_code, input_label, lint_result, plan, report_span, to_file_result, LintArgs, LintOptions,
    LintPlan, SourceResult,
};

fn args(expression: Option<&str>, tree: bool, n_paths: usize) -> LintArgs {
    LintArgs {
        expression: expression.map(|s| s.to_string()),
        json: false,
        tree,
        strict: false,
        paths: (0..n_paths).map(|i| format!("f{i}.gram")).collect(),
    }
}

fn diag(start: usize, end: usize, severity: DiagnosticSeverity) -> Diagnostic {
    Diagnostic {
        start_byte: start,
        end_byte: end,
        message: "m".to_string(),
        severity,
        code: Some("c".to_string()),
    }
}

fn result(diags: Vec<Diagnostic>) -> SourceResult {
    SourceResult { path: "p.gram".to_string(), source: "(a)\n(b)".to_string(), diags }
}

#[test]
fn plan_follows_arguments() {
    assert_eq!(plan(&args(None, true, 2)), LintPlan::TreeTooManyInputs);
    assert_eq!(plan(&args(Some("(a)"), true, 2)), LintPlan::TreeTooManyInputs);
    assert_eq!(plan(&args(Some("(a)"), true, 1)), LintPlan::TreeOfExpression);
    assert_eq!(plan(&args(None, true, 0)), LintPlan::TreeOfStdin);
    assert_eq!(plan(&args(None, true, 1)), LintPlan::TreeOfFile);
    assert_eq!(plan(&args(Some("(a)"), false, 3)), LintPlan::LintExpression);
    assert_eq!(plan(&args(None, false, 0)), LintPlan::LintStdin);
    assert_eq!(plan(&args(None, false, 2)), LintPlan::LintPaths);
}

#[test]
fn exit_code_table() {
    let clean = vec![result(vec![])];
    assert_eq!(exit_code(&clean, false), 0);
    assert_eq!(exit_code(&clean, true), 0);
    let warn = vec![result(vec![]), result(vec![diag(0, 1, DiagnosticSeverity::Warning)])];
    assert_eq!(exit_code(&warn, false), 0);
    assert_eq!(exit_code(&warn, true), 1);
    let err = vec![result(vec![diag(0, 1, DiagnosticSeverity::Warning), diag(1, 2, DiagnosticSeverity::Error)])];
    assert_eq!(exit_code(&err, false), 1);
    assert_eq!(exit_code(&err, true), 1);
    assert_eq!(exit_code(&vec![], true), 0);
}

#[test]
fn byte_offsets_to_char_indices() {
    let s = "aé漢😀b";
    assert_eq!(byte_to_char(s, 0), 0);
    assert_eq!(byte_to_char(s, 1), 1);
    assert_eq!(byte_to_char(s, 2), 1);
    assert_eq!(byte_to_char(s, 3), 2);
    assert_eq!(byte_to_char(s, 5), 2);
    assert_eq!(byte_to_char(s, 6), 3);
    assert_eq!(byte_to_char(s, 9), 3);
    assert_eq!(byte_to_char(s, 10), 4);
    assert_eq!(byte_to_char(s, 11), 5);
    assert_eq!(byte_to_char(s, 1000), 5);
    assert_eq!(byte_to_char("", 3), 0);
}

#[test]
fn byte_to_char_matches_std_on_boundaries() {
    let s = "(ä)-[:K]->(ß😀)\n";
    for (k, (b, _)) in s.char_indices().enumerate() {
        assert_eq!(byte_to_char(s, b), k);
    }
    assert_eq!(byte_to_char(s, s.len()), s.chars().count());
}

#[test]
fn report_span_is_at_least_one_char() {
    let src = "(a)é(b)";
    assert_eq!(report_span(src, &diag(1, 1, DiagnosticSeverity::Error)), (1, 2));
    assert_eq!(report_span(src, &diag(0, 3, DiagnosticSeverity::Error)), (0, 3));
    assert_eq!(report_span(src, &diag(3, 5, DiagnosticSeverity::Error)), (3, 4));
    assert_eq!(report_span(src, &diag(8, 8, DiagnosticSeverity::Error)), (7, 8));
}

#[test]
fn file_result_and_report() {
    let r = SourceResult {
        path: "x.gram".to_string(),
        source: "(a)\n(((".to_string(),
        diags: vec![diag(4, 7, DiagnosticSeverity::Error)],
    };
    let f = to_file_result(&r);
    assert_eq!(f.path, "x.gram");
    assert_eq!(f.diagnostics.len(), 1);
    assert_eq!(f.diagnostics[0].severity, Severity::Error);
    assert_eq!(f.diagnostics[0].range.start.line, 1);
    assert_eq!(f.diagnostics[0].range.start.character, 0);
    assert_eq!(f.diagnostics[0].range.end.line, 1);
    assert_eq!(f.diagnostics[0].range.end.character, 3);
    let l = lint_result("gram/0.3.9".to_string(), &vec![r]);
    assert_eq!(l.schema_version, 1);
    assert_eq!(l.tool, "gram/0.3.9");
    assert_eq!(l.files.len(), 1);
    assert_eq!(l.files[0].diagnostics[0].rule, "c");
}

#[test]
fn lint_options_hold_strictness() {
    let o = LintOptions { strict: true };
    assert!(o.strict);
}

#[test]
fn input_labels() {
    assert_eq!(input_label(LintPlan::LintExpression).as_deref(), Some("-e"));
    assert_eq!(input_label(LintPlan::LintStdin).as_deref(), Some("-"));
    assert_eq!(input_label(LintPlan::LintPaths), None);
    assert_eq!(input_label(LintPlan::TreeOfExpression), None);
    let mut a = args(Some("(a)"), false, 4);
    a.json = true;
    a.strict = true;
    assert_eq!(plan(&a), LintPlan::LintExpression);
    let mut t = args(None, true, 1);
    t.json = true;
    t.strict = true;
    assert_eq!(plan(&t), LintPlan::TreeOfFile);
}
