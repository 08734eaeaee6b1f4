//! Diagnostics of gram sources by byte offsets, and their conversion to LSP positions.
use vstd::prelude::*;
use crate::diagnostics::{Position, Range, Severity};
use crate::diagnostics;
use crate::utf16::{byte_to_line_col, lsp_position};
use vstd::utf8::{decode_utf8, valid_utf8};
use vstd::string::{StringExecFns, StringSliceAdditionalSpecFns};
use vstd::slice::slice_subrange;

verus! {

/// How serious an analysis finding is.
#[derive(Clone, Copy, Debug, PartialEq, Eq, Structural)]
pub enum DiagnosticSeverity {
    Error,
    Warning,
}

/// A finding of the analysis, located by byte offsets into the analysed source.
#[derive(Debug)]
pub struct Diagnostic {
    pub start_byte: usize,
    pub end_byte: usize,
    pub message: String,
    pub severity: DiagnosticSeverity,
    pub code: Option<String>,
}

/// What a `Diagnostic` holds, as mathematical values.
pub struct DiagnosticView {
    pub start_byte: usize,
    pub end_byte: usize,
    pub message: Seq<char>,
    pub severity: DiagnosticSeverity,
    pub code: Option<Seq<char>>,
}

/// The view of an optional string.
pub open spec fn opt_view(o: Option<String>) -> Option<Seq<char>> {
    match o {
        Some(s) => Some(s@),
        None => None,
    }
}

impl View for Diagnostic {
    type V = DiagnosticView;

    open spec fn view(&self) -> DiagnosticView {
        DiagnosticView {
            start_byte: self.start_byte,
            end_byte: self.end_byte,
            message: self.message@,
            severity: self.severity,
            code: opt_view(self.code),
        }
    }
}

/// The views of a sequence of diagnostics.
pub open spec fn views(ds: Seq<Diagnostic>) -> Seq<DiagnosticView> {
    ds.map_values(|d: Diagnostic| d@)
}

/// What a public diagnostic holds, as mathematical values.
pub struct PublicView {
    pub severity: Severity,
    pub rule: Seq<char>,
    pub message: Seq<char>,
    pub range: Range,
    pub code: Option<Seq<char>>,
}

impl View for diagnostics::Diagnostic {
    type V = PublicView;

    open spec fn view(&self) -> PublicView {
        PublicView {
            severity: self.severity,
            rule: self.rule@,
            message: self.message@,
            range: self.range,
            code: opt_view(self.code),
        }
    }
}

/// The public severity of an analysis severity.
pub open spec fn public_severity(s: DiagnosticSeverity) -> Severity {
    match s {
        DiagnosticSeverity::Error => Severity::Error,
        DiagnosticSeverity::Warning => Severity::Warning,
    }
}

/// The public form of `d`, a finding in `source`: its byte offsets become LSP positions, its
/// rule is its code (empty when it has none).
pub open spec fn public_of(source: Seq<char>, d: DiagnosticView) -> PublicView {
    PublicView {
        severity: public_severity(d.severity),
        rule: match d.code {
            Some(c) => c,
            None => seq![],
        },
        message: d.message,
        range: Range {
            start: lsp_position(source, d.start_byte as int),
            end: lsp_position(source, d.end_byte as int),
        },
        code: d.code,
    }
}

/// A copy of an optional string.
fn clone_opt(o: &Option<String>) -> (r: Option<String>)
    ensures
        opt_view(r) == opt_view(*o),
{
    match o {
        Some(s) => Some(s.clone()),
        None => None,
    }
}

/// The LSP positions of the byte offsets `start` and `end` of `source`.
pub fn byte_range_to_lsp_range(source: &str, start: usize, end: usize) -> (r: (Position, Position))
    ensures
        r.0 == lsp_position(source@, start as int),
        r.1 == lsp_position(source@, end as int),
{
    (byte_to_line_col(source, start), byte_to_line_col(source, end))
}

/// Convert an analysis finding to the public diagnostic, using the full source for the
/// conversion of byte offsets to positions.
pub fn to_public(source: &str, d: &Diagnostic) -> (r: diagnostics::Diagnostic)
    ensures
        r@ == public_of(source@, d@),
{
    let (s, e) = byte_range_to_lsp_range(source, d.start_byte, d.end_byte);
    let rule = match &d.code {
        Some(c) => c.clone(),
        None => String::new(),
    };
    diagnostics::Diagnostic {
        severity: match d.severity {
            DiagnosticSeverity::Error => Severity::Error,
            DiagnosticSeverity::Warning => Severity::Warning,
        },
        rule,
        message: d.message.clone(),
        range: Range { start: s, end: e },
        code: clone_opt(&d.code),
    }
}

/// The public forms of the findings `ds` in `source`, in the same order.
pub fn public_diagnostics(source: &str, ds: &Vec<Diagnostic>) -> (r: Vec<diagnostics::Diagnostic>)
    ensures
        r.len() == ds.len(),
        forall|i: int| 0 <= i < ds.len() ==> #[trigger] r[i]@ == public_of(source@, ds[i]@),
{
    let mut r: Vec<diagnostics::Diagnostic> = Vec::new();
    for i in 0..ds.len()
        invariant
            r.len() == i,
            forall|j: int| 0 <= j < i ==> #[trigger] r[j]@ == public_of(source@, ds[j]@),
    {
        r.push(to_public(source, &ds[i]));
    }
    r
}


/// A node of a gram syntax tree, with what the analysis reads of it.
pub struct SyntaxNode {
    /// The grammar's name for the node.
    pub kind: String,
    /// The parser could not make sense of this part of the source.
    pub is_error: bool,
    /// The parser supplied this node, which the source lacks.
    pub is_missing: bool,
    /// Byte offset where the node starts in the source.
    pub start_byte: usize,
    /// Byte offset where the node ends in the source.
    pub end_byte: usize,
    /// The node's children, in source order.
    pub children: Vec<SyntaxNode>,
}

/// What `format!("{:?}", s)` prints for a string whose characters are `s`: the string
/// quoted, with escapes.
pub uninterp spec fn str_debug(s: Seq<char>) -> Seq<char>;

/// The string that `format!("{:?}", s)` prints.
#[verifier::external_body]
fn debug_str(s: &str) -> (r: String)
    ensures
        r@ == str_debug(s@),
{
    format!("{:?}", s)
}

/// The string whose UTF-8 encoding is `bytes`, when `bytes` is valid UTF-8 (`str::from_utf8`).
#[verifier::external_body]
fn utf8_text(bytes: &[u8]) -> (r: Option<&str>)
    ensures
        r is Some <==> valid_utf8(bytes@),
        r matches Some(t) ==> t@ == decode_utf8(bytes@),
{
    std::str::from_utf8(bytes).ok()
}

/// The text of `node` in a source encoded as `bytes`, when that slice is valid UTF-8.
pub open spec fn node_text(node: SyntaxNode, bytes: Seq<u8>) -> Option<Seq<char>> {
    let b = bytes.subrange(node.start_byte as int, node.end_byte as int);
    if valid_utf8(b) {
        Some(decode_utf8(b))
    } else {
        None
    }
}

/// The finding about `node` itself: an error node is unexpected text (or invalid syntax,
/// when its bytes are not UTF-8), a missing node is an expected kind.
pub open spec fn own_syntax_error(node: SyntaxNode, bytes: Seq<u8>) -> Seq<DiagnosticView> {
    if node.is_error {
        seq![
            DiagnosticView {
                start_byte: node.start_byte,
                end_byte: node.end_byte,
                message: match node_text(node, bytes) {
                    Some(t) => "unexpected: "@ + str_debug(t),
                    None => "invalid syntax"@,
                },
                severity: DiagnosticSeverity::Error,
                code: Some("syntax-error"@),
            },
        ]
    } else if node.is_missing {
        seq![
            DiagnosticView {
                start_byte: node.start_byte,
                end_byte: node.end_byte,
                message: "expected "@ + node.kind@,
                severity: DiagnosticSeverity::Error,
                code: Some("missing-node"@),
            },
        ]
    } else {
        seq![]
    }
}

/// The syntax findings of the tree under `node`, in pre-order.
pub open spec fn syntax_errors(node: SyntaxNode, bytes: Seq<u8>) -> Seq<DiagnosticView>
    decreases node, 1int,
{
    own_syntax_error(node, bytes) + syntax_errors_all(node.children@, bytes)
}

/// The syntax findings of the trees `nodes`, one after the other.
pub open spec fn syntax_errors_all(nodes: Seq<SyntaxNode>, bytes: Seq<u8>) -> Seq<DiagnosticView>
    decreases nodes, 0int,
{
    if nodes.len() == 0 {
        seq![]
    } else {
        syntax_errors_all(nodes.drop_last(), bytes) + syntax_errors(nodes.last(), bytes)
    }
}


/// Every node under `node` lies within the first `len` bytes, with its start before its end,
/// as every node of a parse of a source of `len` bytes does.
pub open spec fn ranges_ok(node: SyntaxNode, len: int) -> bool
    decreases node, 1int,
{
    &&& node.start_byte <= node.end_byte <= len
    &&& ranges_ok_all(node.children@, len)
}

/// `ranges_ok` of each of `nodes`.
pub open spec fn ranges_ok_all(nodes: Seq<SyntaxNode>, len: int) -> bool
    decreases nodes, 0int,
{
    if nodes.len() == 0 {
        true
    } else {
        ranges_ok_all(nodes.drop_last(), len) && ranges_ok(nodes.last(), len)
    }
}

/// Each node of a list meets `ranges_ok` when the list does.
proof fn lemma_ranges_ok_each(nodes: Seq<SyntaxNode>, len: int, i: int)
    requires
        ranges_ok_all(nodes, len),
        0 <= i < nodes.len(),
    ensures
        ranges_ok(nodes[i], len),
    decreases nodes.len(),
{
    if i < nodes.len() - 1 {
        lemma_ranges_ok_each(nodes.drop_last(), len, i);
    }
}

/// Whether every node under `node` lies within `source`, with its start before its end.
pub fn ranges_hold(node: &SyntaxNode, source: &str) -> (r: bool)
    ensures
        r == ranges_ok(*node, source.spec_bytes().len() as int),
    decreases node,
{
    let len = source.as_bytes().len();
    if !(node.start_byte <= node.end_byte && node.end_byte <= len) {
        return false;
    }
    let ghost kids = node.children@;
    assert(kids.take(0) == Seq::<SyntaxNode>::empty());
    let mut i: usize = 0;
    while i < node.children.len()
        invariant
            i <= kids.len(),
            kids == node.children@,
            len == source.spec_bytes().len(),
            ranges_ok_all(kids.take(i as int), len as int),
        decreases kids.len() - i,
    {
        assert(kids.take(i + 1).drop_last() == kids.take(i as int));
        assert(kids.take(i + 1).last() == kids[i as int]);
        if !ranges_hold(&node.children[i], source) {
            proof {
                lemma_ranges_ok_prefix(kids, len as int, i as int);
            }
            return false;
        }
        i += 1;
    }
    assert(kids.take(kids.len() as int) == kids);
    true
}

/// A list whose `k`-th node fails `ranges_ok` fails `ranges_ok_all`.
proof fn lemma_ranges_ok_prefix(nodes: Seq<SyntaxNode>, len: int, k: int)
    requires
        0 <= k < nodes.len(),
        !ranges_ok(nodes[k], len),
    ensures
        !ranges_ok_all(nodes, len),
{
    if ranges_ok_all(nodes, len) {
        lemma_ranges_ok_each(nodes, len, k);
    }
}

/// `d` lies within the first `len` bytes, with its start before its end.
pub open spec fn in_source(d: DiagnosticView, len: int) -> bool {
    d.start_byte <= d.end_byte <= len
}

/// Every finding about a tree within the source lies within the source.
proof fn lemma_syntax_errors_in_source(node: SyntaxNode, bytes: Seq<u8>, len: int)
    requires
        ranges_ok(node, len),
    ensures
        forall|i: int|
            0 <= i < syntax_errors(node, bytes).len() ==> in_source(
                #[trigger] syntax_errors(node, bytes)[i],
                len,
            ),
    decreases node, 1int,
{
    lemma_syntax_errors_all_in_source(node.children@, bytes, len);
    let own = own_syntax_error(node, bytes);
    let rest = syntax_errors_all(node.children@, bytes);
    assert forall|i: int| 0 <= i < (own + rest).len() implies in_source(#[trigger] (own + rest)[i], len) by {
        if i >= own.len() {
            assert((own + rest)[i] == rest[i - own.len()]);
        }
    }
}

/// Every finding about trees within the source lies within the source.
proof fn lemma_syntax_errors_all_in_source(nodes: Seq<SyntaxNode>, bytes: Seq<u8>, len: int)
    requires
        ranges_ok_all(nodes, len),
    ensures
        forall|i: int|
            0 <= i < syntax_errors_all(nodes, bytes).len() ==> in_source(
                #[trigger] syntax_errors_all(nodes, bytes)[i],
                len,
            ),
    decreases nodes, 0int,
{
    if nodes.len() > 0 {
        lemma_syntax_errors_all_in_source(nodes.drop_last(), bytes, len);
        lemma_syntax_errors_in_source(nodes.last(), bytes, len);
        let a = syntax_errors_all(nodes.drop_last(), bytes);
        let b = syntax_errors(nodes.last(), bytes);
        assert forall|i: int| 0 <= i < (a + b).len() implies in_source(#[trigger] (a + b)[i], len) by {
            if i >= a.len() {
                assert((a + b)[i] == b[i - a.len()]);
            }
        }
    }
}

/// Every syntax finding, for an error node or for a missing node, is an error: its severity is
/// `Error` and its code is `syntax-error` or `missing-node`.
pub proof fn law_syntax_findings_are_errors(node: SyntaxNode, bytes: Seq<u8>)
    ensures
        forall|i: int|
            0 <= i < syntax_errors(node, bytes).len() ==> (#[trigger] syntax_errors(node, bytes)[i]).severity
                == DiagnosticSeverity::Error && (syntax_errors(node, bytes)[i].code == Some(
                "syntax-error"@) || syntax_errors(node, bytes)[i].code == Some("missing-node"@)),
    decreases node, 1int,
{
    lemma_syntax_findings_all_are_errors(node.children@, bytes);
    let own = own_syntax_error(node, bytes);
    let rest = syntax_errors_all(node.children@, bytes);
    assert forall|i: int| 0 <= i < (own + rest).len() implies (#[trigger] (own + rest)[i]).severity
        == DiagnosticSeverity::Error && ((own + rest)[i].code == Some("syntax-error"@) || (own
        + rest)[i].code == Some("missing-node"@)) by {
        if i >= own.len() {
            assert((own + rest)[i] == rest[i - own.len()]);
        }
    }
}

/// Every syntax finding about a list of trees is an error.
proof fn lemma_syntax_findings_all_are_errors(nodes: Seq<SyntaxNode>, bytes: Seq<u8>)
    ensures
        forall|i: int|
            0 <= i < syntax_errors_all(nodes, bytes).len() ==> (#[trigger] syntax_errors_all(nodes, bytes)[i]).severity
                == DiagnosticSeverity::Error && (syntax_errors_all(nodes, bytes)[i].code == Some(
                "syntax-error"@) || syntax_errors_all(nodes, bytes)[i].code == Some("missing-node"@)),
    decreases nodes, 0int,
{
    if nodes.len() > 0 {
        lemma_syntax_findings_all_are_errors(nodes.drop_last(), bytes);
        law_syntax_findings_are_errors(nodes.last(), bytes);
        let a = syntax_errors_all(nodes.drop_last(), bytes);
        let b = syntax_errors(nodes.last(), bytes);
        assert forall|i: int| 0 <= i < (a + b).len() implies (#[trigger] (a + b)[i]).severity
            == DiagnosticSeverity::Error && ((a + b)[i].code == Some("syntax-error"@) || (a
            + b)[i].code == Some("missing-node"@)) by {
            if i >= a.len() {
                assert((a + b)[i] == b[i - a.len()]);
            }
        }
    }
}

/// The public range's start depends on the start offset alone and its end on the end offset
/// alone: two findings with the same end offset get the same end position, whatever their
/// starts, and the end's line is the number of newlines before the end offset.
pub proof fn law_public_range_ends(source: Seq<char>, d1: DiagnosticView, d2: DiagnosticView)
    ensures
        d1.end_byte == d2.end_byte ==> public_of(source, d1).range.end == public_of(
            source,
            d2,
        ).range.end,
        d1.start_byte == d2.start_byte ==> public_of(source, d1).range.start == public_of(
            source,
            d2,
        ).range.start,
        public_of(source, d1).range.end.line == crate::utf16::saturate(
            crate::utf16::newline_count(
                source.take(crate::utf16::chars_before(source, d1.end_byte as int) as int),
            ),
        ),
        public_of(source, d1).range.start.line == crate::utf16::saturate(
            crate::utf16::newline_count(
                source.take(crate::utf16::chars_before(source, d1.start_byte as int) as int),
            ),
        ),
{
}

/// Append to `out` the syntax findings of the tree under `node`, in pre-order: one for each
/// error node and one for each missing node.
pub fn collect_syntax_errors(node: &SyntaxNode, source: &str, out: &mut Vec<Diagnostic>)
    requires
        ranges_ok(*node, source.spec_bytes().len() as int),
    ensures
        views(final(out)@) == views(old(out)@) + syntax_errors(*node, source.spec_bytes()),
        forall|i: int|
            old(out).len() <= i < final(out).len() ==> in_source(
                #[trigger] final(out)@[i]@,
                source.spec_bytes().len() as int,
            ),
    decreases node,
{
    let ghost bytes = source.spec_bytes();
    let ghost start = views(out@);
    if node.is_error {
        let all = source.as_bytes();
        let sub = slice_subrange(all, node.start_byte, node.end_byte);
        let message = match utf8_text(sub) {
            Some(t) => {
                let mut m = String::from_str("unexpected: ");
                let d = debug_str(t);
                m.append(d.as_str());
                m
            },
            None => String::from_str("invalid syntax"),
        };
        let d = Diagnostic {
            start_byte: node.start_byte,
            end_byte: node.end_byte,
            message,
            severity: DiagnosticSeverity::Error,
            code: Some(String::from_str("syntax-error")),
        };
        let ghost before = out@;
        out.push(d);
        assert(views(out@) == views(before).push(d@));
    } else if node.is_missing {
        let mut m = String::from_str("expected ");
        m.append(node.kind.as_str());
        let d = Diagnostic {
            start_byte: node.start_byte,
            end_byte: node.end_byte,
            message: m,
            severity: DiagnosticSeverity::Error,
            code: Some(String::from_str("missing-node")),
        };
        let ghost before = out@;
        out.push(d);
        assert(views(out@) == views(before).push(d@));
    }
    assert(views(out@) == start + own_syntax_error(*node, bytes));
    let ghost kids = node.children@;
    assert(kids.take(0) == Seq::<SyntaxNode>::empty());
    let mut i: usize = 0;
    while i < node.children.len()
        invariant
            i <= kids.len(),
            kids == node.children@,
            bytes == source.spec_bytes(),
            ranges_ok_all(kids, bytes.len() as int),
            views(out@) == start + own_syntax_error(*node, bytes) + syntax_errors_all(
                kids.take(i as int),
                bytes,
            ),
        decreases kids.len() - i,
    {
        proof {
            lemma_ranges_ok_each(kids, bytes.len() as int, i as int);
            assert(kids.take(i + 1).drop_last() == kids.take(i as int));
            assert(kids.take(i + 1).last() == kids[i as int]);
        }
        collect_syntax_errors(&node.children[i], source, out);
        i += 1;
    }
    assert(kids.take(kids.len() as int) == kids);
    proof {
        lemma_syntax_errors_in_source(*node, bytes, bytes.len() as int);
        let errs = syntax_errors(*node, bytes);
        assert forall|i: int| start.len() <= i < out.len() implies in_source(
            #[trigger] out@[i]@,
            bytes.len() as int,
        ) by {
            assert(views(out@)[i] == out@[i]@);
            assert(views(out@)[i] == errs[i - start.len()]);
        }
    }
}


/// `a` comes no later than `b` in the order of `(start_byte, end_byte)`.
pub open spec fn range_le(a: DiagnosticView, b: DiagnosticView) -> bool {
    a.start_byte < b.start_byte || (a.start_byte == b.start_byte && a.end_byte <= b.end_byte)
}

/// The findings are in the order of `(start_byte, end_byte)`.
pub open spec fn sorted_by_range(ds: Seq<DiagnosticView>) -> bool {
    forall|i: int, j: int| 0 <= i < j < ds.len() ==> range_le(#[trigger] ds[i], #[trigger] ds[j])
}

/// The findings located at exactly the byte range from `start` to `end`.
pub open spec fn at_range(start: usize, end: usize) -> spec_fn(DiagnosticView) -> bool {
    |d: DiagnosticView| d.start_byte == start && d.end_byte == end
}

/// `r` is `ds` stably sorted by `(start_byte, end_byte)`: in that order, with the findings at
/// each range in the order `ds` has them.
pub open spec fn stably_sorted_from(r: Seq<DiagnosticView>, ds: Seq<DiagnosticView>) -> bool {
    &&& sorted_by_range(r)
    &&& forall|start: usize, end: usize| #[trigger] r.filter(at_range(start, end)) == ds.filter(at_range(start, end))
}

/// Filtering a sequence with one element inserted.
proof fn lemma_filter_insert(a: Seq<DiagnosticView>, p: int, x: DiagnosticView, f: spec_fn(DiagnosticView) -> bool)
    requires
        0 <= p <= a.len(),
    ensures
        a.insert(p, x).filter(f) == a.take(p).filter(f) + seq![x].filter(f) + a.skip(p).filter(f),
        a.filter(f) == a.take(p).filter(f) + a.skip(p).filter(f),
        seq![x].filter(f) == (if f(x) { seq![x] } else { Seq::<DiagnosticView>::empty() }),
{
    assert(a.insert(p, x) == a.take(p) + seq![x] + a.skip(p));
    assert(a == a.take(p) + a.skip(p));
    Seq::filter_distributes_over_add(a.take(p) + seq![x], a.skip(p), f);
    Seq::filter_distributes_over_add(a.take(p), seq![x], f);
    Seq::filter_distributes_over_add(a.take(p), a.skip(p), f);
    reveal_with_fuel(Seq::filter, 2);
    assert(seq![x].drop_last() == Seq::<DiagnosticView>::empty());
}

/// Filtering a prefix one element longer.
proof fn lemma_filter_take_next(a: Seq<DiagnosticView>, k: int, f: spec_fn(DiagnosticView) -> bool)
    requires
        0 <= k < a.len(),
    ensures
        a.take(k + 1).filter(f) == (if f(a[k]) { a.take(k).filter(f).push(a[k]) } else { a.take(k).filter(f) }),
{
    reveal(Seq::filter);
    assert(a.take(k + 1).drop_last() == a.take(k));
}

/// `x` is one of the elements of `s`.
pub open spec fn occurs_in(x: DiagnosticView, s: Seq<DiagnosticView>) -> bool {
    exists|j: int| 0 <= j < s.len() && s[j] == x
}

/// The findings `ds`, stably sorted by `(start_byte, end_byte)`.
pub fn sort_by_range(ds: Vec<Diagnostic>) -> (r: Vec<Diagnostic>)
    ensures
        r.len() == ds.len(),
        stably_sorted_from(views(r@), views(ds@)),
        forall|i: int| 0 <= i < r.len() ==> occurs_in(#[trigger] views(r@)[i], views(ds@)),
{
    let ghost orig = views(ds@);
    assert(orig.len() == ds.len());
    let mut rest = ds;
    let mut r: Vec<Diagnostic> = Vec::new();
    let mut k: usize = 0;
    assert(orig.skip(0) == orig);
    assert forall|start: usize, end: usize| #[trigger] views(r@).filter(at_range(start, end)) == orig.take(0).filter(at_range(start, end)) by {
        reveal(Seq::filter);
        assert(views(r@) == Seq::<DiagnosticView>::empty());
        assert(orig.take(0) == Seq::<DiagnosticView>::empty());
    }
    while rest.len() > 0
        invariant
            k <= orig.len() <= usize::MAX,
            r.len() == k,
            forall|i: int| 0 <= i < r.len() ==> exists|j: int| 0 <= j < k && #[trigger] views(r@)[i] == orig[j],
            views(rest@) == orig.skip(k as int),
            sorted_by_range(views(r@)),
            forall|start: usize, end: usize| #[trigger] views(r@).filter(at_range(start, end)) == orig.take(k as int).filter(at_range(start, end)),
        decreases rest.len(),
    {
        let ghost before_rest = rest@;
        let x = rest.remove(0);
        proof {
            assert(x@ == views(before_rest)[0]);
            assert(views(rest@) == views(before_rest).drop_first());
            assert(orig.skip(k as int).drop_first() == orig.skip(k + 1));
            assert(orig[k as int] == x@);
        }
        let mut p = r.len();
        while p > 0 && (r[p - 1].start_byte > x.start_byte || (r[p - 1].start_byte == x.start_byte
            && r[p - 1].end_byte > x.end_byte))
            invariant
                p <= r.len(),
                forall|j: int| p <= j < r.len() ==> !range_le(#[trigger] views(r@)[j], x@),
            decreases p,
        {
            p -= 1;
        }
        let ghost old_r = views(r@);
        proof {
            assert forall|j: int| 0 <= j < p implies range_le(#[trigger] old_r[j], x@) by {
                if j < p - 1 {
                    assert(range_le(old_r[j], old_r[p - 1]));
                }
            }
        }
        r.insert(p, x);
        proof {
            let nr = views(r@);
            assert(nr == old_r.insert(p as int, x@));
            assert forall|i: int| 0 <= i < nr.len() implies exists|j: int| 0 <= j < k + 1 && #[trigger] nr[i] == orig[j] by {
                if i < p {
                    assert(nr[i] == old_r[i]);
                } else if i == p {
                    assert(nr[i] == orig[k as int]);
                } else {
                    assert(nr[i] == old_r[i - 1]);
                }
            }
            assert forall|i: int, j: int| 0 <= i < j < nr.len() implies range_le(#[trigger] nr[i], #[trigger] nr[j]) by {
                if j < p {
                } else if j == p {
                } else if i < p {
                    assert(range_le(old_r[i], x@));
                    assert(!range_le(old_r[j - 1], x@));
                } else if i == p {
                    assert(!range_le(old_r[j - 1], x@));
                } else {
                    assert(range_le(old_r[i - 1], old_r[j - 1]));
                }
            }
            assert forall|start: usize, end: usize| #[trigger] nr.filter(at_range(start, end)) == orig.take(k + 1).filter(at_range(start, end)) by {
                let f = at_range(start, end);
                lemma_filter_insert(old_r, p as int, x@, f);
                lemma_filter_take_next(orig, k as int, f);
                if f(x@) {
                    assert forall|j: int| 0 <= j < old_r.skip(p as int).len() implies !f(old_r.skip(p as int)[j]) by {
                        assert(!range_le(old_r[p + j], x@));
                    }
                    old_r.skip(p as int).lemma_all_neg_filter_empty(f);
                    assert(old_r.skip(p as int).filter(f) == Seq::<DiagnosticView>::empty());
                    assert(old_r.take(p as int).filter(f) + seq![x@] + Seq::<DiagnosticView>::empty() == (old_r.take(p as int).filter(f) + Seq::<DiagnosticView>::empty()).push(x@));
                } else {
                    assert(old_r.take(p as int).filter(f) + Seq::<DiagnosticView>::empty() + old_r.skip(p as int).filter(f) == old_r.take(p as int).filter(f) + old_r.skip(p as int).filter(f));
                }
            }
        }
        k += 1;
    }
    assert(orig.skip(k as int).len() == 0);
    assert(orig.take(k as int) == orig);
    assert forall|i: int| 0 <= i < r.len() implies occurs_in(#[trigger] views(r@)[i], orig) by {
        let j = choose|j: int| 0 <= j < k && #[trigger] views(r@)[i] == orig[j];
        assert(views(r@)[i] == orig[j]);
    }
    r
}


/// The syntax findings of the tree under `root`, a parse of `source`, stably sorted by
/// `(start_byte, end_byte)`.
pub fn analyze_tree(root: &SyntaxNode, source: &str) -> (r: Vec<Diagnostic>)
    requires
        ranges_ok(*root, source.spec_bytes().len() as int),
    ensures
        stably_sorted_from(views(r@), syntax_errors(*root, source.spec_bytes())),
        forall|i: int| 0 <= i < r.len() ==> in_source(#[trigger] r@[i]@, source.spec_bytes().len() as int),
{
    let mut diags: Vec<Diagnostic> = Vec::new();
    collect_syntax_errors(root, source, &mut diags);
    assert(views(diags@) == syntax_errors(*root, source.spec_bytes()));
    let ghost collected = diags@;
    let r = sort_by_range(diags);
    assert forall|i: int| 0 <= i < r.len() implies in_source(#[trigger] r@[i]@, source.spec_bytes().len() as int) by {
        assert(views(r@)[i] == r@[i]@);
        assert(occurs_in(views(r@)[i], views(collected)));
        let j = choose|j: int| 0 <= j < views(collected).len() && views(collected)[j] == views(r@)[i];
        assert(views(collected)[j] == collected[j]@);
        assert(in_source(collected[j]@, source.spec_bytes().len() as int));
    }
    r
}

} // verus!
