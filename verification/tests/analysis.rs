use gram_data::analyze::{
    analyze_tree, collect_syntax_errors, ranges_hold, public_diagnostics, sort_by_range,
    to_public, Diagnostic, DiagnosticSeverity, SyntaxNode,
};
use gram_data::diagnostics::Severity;
use gram_data::utf16::byte_to_line_col;

fn leaf(kind: &str, is_error: bool, is_missing: bool, start: usize, end: usize) -> SyntaxNode {
    SyntaxNode {
        kind: kind.to_string(),
        is_error,
        is_missing,
        start_byte: start,
        end_byte: end,
        children: vec![],
    }
}

fn diag(start: usize, end: usize, message: &str) -> Diagnostic {
    Diagnostic {
        start_byte: start,
        end_byte: end,
        message: message.to_string(),
        severity: DiagnosticSeverity::Warning,
        code: None,
    }
}

#[test]
fn syntax_errors_in_preorder() {
    let source = "(((";
    let mut inner = leaf("ERROR", true, false, 1, 3);
    inner.children.push(leaf(")", false, true, 3, 3));
    let root = SyntaxNode {
        kind: "gram_pattern".to_string(),
        is_error: false,
        is_missing: false,
        start_byte: 0,
        end_byte: 3,
        children: vec![inner, leaf("node", false, false, 0, 1)],
    };
    let mut out = Vec::new();
    collect_syntax_errors(&root, source, &mut out);
    assert_eq!(out.len(), 2);
    assert_eq!(out[0].message, "unexpected: \"((\"");
    assert_eq!(out[0].code.as_deref(), Some("syntax-error"));
    assert_eq!(out[0].severity, DiagnosticSeverity::Error);
    assert_eq!((out[0].start_byte, out[0].end_byte), (1, 3));
    assert_eq!(out[1].message, "expected )");
    assert_eq!(out[1].code.as_deref(), Some("missing-node"));
    assert_eq!((out[1].start_byte, out[1].end_byte), (3, 3));
}

#[test]
fn error_text_is_escaped() {
    let source = "\"a\tb\"";
    let root = leaf("ERROR", true, false, 0, source.len());
    let mut out = Vec::new();
    collect_syntax_errors(&root, source, &mut out);
    assert_eq!(out[0].message, format!("unexpected: {:?}", source));
}

#[test]
fn error_inside_a_character_is_invalid_syntax() {
    let source = "é";
    let root = leaf("ERROR", true, false, 0, 1);
    let mut out = Vec::new();
    collect_syntax_errors(&root, source, &mut out);
    assert_eq!(out.len(), 1);
    assert_eq!(out[0].message, "invalid syntax");
}

#[test]
fn error_ranges_checked() {
    assert!(ranges_hold(&leaf("ERROR", true, false, 0, 3), "abc"));
    assert!(!ranges_hold(&leaf("ERROR", true, false, 0, 4), "abc"));
    assert!(!ranges_hold(&leaf("ERROR", true, false, 2, 1), "abc"));
    assert!(!ranges_hold(&leaf("x", false, true, 5, 9), ""));
    assert!(ranges_hold(&leaf(")", false, true, 3, 3), "abc"));
    let mut root = leaf("x", false, false, 0, 3);
    root.children.push(leaf("ERROR", true, false, 0, 9));
    assert!(!ranges_hold(&root, "abc"));
}

#[test]
fn sort_is_stable_by_range() {
    let ds = vec![
        diag(5, 6, "a"),
        diag(1, 4, "b"),
        diag(5, 6, "c"),
        diag(1, 2, "d"),
        diag(1, 4, "e"),
        diag(0, 9, "f"),
    ];
    let sorted = sort_by_range(ds);
    let msgs: Vec<&str> = sorted.iter().map(|d| d.message.as_str()).collect();
    assert_eq!(msgs, vec!["f", "d", "b", "e", "a", "c"]);
}

#[test]
fn analyze_tree_sorts_findings() {
    let source = "(a) ((";
    let root = SyntaxNode {
        kind: "gram_pattern".to_string(),
        is_error: false,
        is_missing: false,
        start_byte: 0,
        end_byte: 6,
        children: vec![leaf("ERROR", true, false, 4, 6), leaf(")", false, true, 2, 2)],
    };
    let ds = analyze_tree(&root, source);
    assert_eq!(ds.len(), 2);
    assert_eq!(ds[0].start_byte, 2);
    assert_eq!(ds[1].start_byte, 4);
}

#[test]
fn positions_count_utf16_units() {
    let s = "a😀b\nxé\r\ny";
    let p = byte_to_line_col(s, 0);
    assert_eq!((p.line, p.character), (0, 0));
    let p = byte_to_line_col(s, 5);
    assert_eq!((p.line, p.character), (0, 3));
    let p = byte_to_line_col(s, 3);
    assert_eq!((p.line, p.character), (0, 1));
    let p = byte_to_line_col(s, 7);
    assert_eq!((p.line, p.character), (1, 0));
    let p = byte_to_line_col(s, 8);
    assert_eq!((p.line, p.character), (1, 1));
    let p = byte_to_line_col(s, 11);
    assert_eq!((p.line, p.character), (1, 3));
    let p = byte_to_line_col(s, 12);
    assert_eq!((p.line, p.character), (2, 0));
    let p = byte_to_line_col(s, 99);
    assert_eq!((p.line, p.character), (2, 1));
}

#[test]
fn public_form_of_findings() {
    let source = "x\n((";
    let d = Diagnostic {
        start_byte: 2,
        end_byte: 4,
        message: "unexpected".to_string(),
        severity: DiagnosticSeverity::Error,
        code: Some("syntax-error".to_string()),
    };
    let p = to_public(source, &d);
    assert_eq!(p.severity, Severity::Error);
    assert_eq!(p.rule, "syntax-error");
    assert_eq!(p.message, "unexpected");
    assert_eq!(p.code.as_deref(), Some("syntax-error"));
    assert_eq!((p.range.start.line, p.range.start.character), (1, 0));
    assert_eq!((p.range.end.line, p.range.end.character), (1, 2));
    let w = diag(0, 1, "w");
    let all = public_diagnostics(source, &vec![d, w]);
    assert_eq!(all.len(), 2);
    assert_eq!(all[1].severity, Severity::Warning);
    assert_eq!(all[1].rule, "");
    assert_eq!(all[1].code, None);
}

#[test]
fn findings_lie_within_the_source() {
    let source = "(a)-[";
    let root = SyntaxNode {
        kind: "gram_pattern".to_string(),
        is_error: false,
        is_missing: false,
        start_byte: 0,
        end_byte: source.len(),
        children: vec![leaf("]", false, true, 5, 5), leaf("ERROR", true, false, 3, 5)],
    };
    assert!(ranges_hold(&root, source));
    let ds = analyze_tree(&root, source);
    assert_eq!(ds.len(), 2);
    for d in &ds {
        assert!(d.start_byte <= d.end_byte && d.end_byte <= source.len());
    }
    assert_eq!(ds[0].message, "unexpected: \"-[\"");
    assert_eq!(ds[1].message, "expected ]");
}
