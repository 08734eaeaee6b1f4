//! Extraction of ` ```gram ` and ` ~~~gram ` fenced blocks from Markdown documents.
use vstd::prelude::*;
use crate::text::{
    chars_of, line_end, lines, push_char, strip_cr, trim, trim_range,
    first_line_len,
};

verus! {

/// One fenced gram block of a Markdown document.
pub struct Snippet {
    /// The extracted gram source text (fence delimiters excluded).
    pub source: String,
    /// 0-based line number of the opening fence (` ```gram `) in the host document.
    pub fence_start_line: usize,
}

/// What a `Snippet` holds, as mathematical values.
pub struct SnippetView {
    pub source: Seq<char>,
    pub fence_start_line: nat,
}

impl View for Snippet {
    type V = SnippetView;

    open spec fn view(&self) -> SnippetView {
        SnippetView { source: self.source@, fence_start_line: self.fence_start_line as nat }
    }
}

/// `t` starts with three copies of `c`.
pub open spec fn has_fence_prefix(t: Seq<char>, c: char) -> bool {
    t.len() >= 3 && t[0] == c && t[1] == c && t[2] == c
}

/// `t` is the word `gram`, in any mix of ASCII upper and lower case.
pub open spec fn is_gram_tag(t: Seq<char>) -> bool {
    &&& t.len() == 4
    &&& (t[0] == 'g' || t[0] == 'G')
    &&& (t[1] == 'r' || t[1] == 'R')
    &&& (t[2] == 'a' || t[2] == 'A')
    &&& (t[3] == 'm' || t[3] == 'M')
}

/// A trimmed line opens a gram block: ` ``` ` or `~~~`, then `gram` (ASCII case-insensitive),
/// with optional whitespace between and after.
pub open spec fn opens_gram_fence(t: Seq<char>) -> bool {
    ||| has_fence_prefix(t, '`') && is_gram_tag(trim(t.skip(3)))
    ||| has_fence_prefix(t, '~') && is_gram_tag(trim(t.skip(3)))
}

/// A trimmed line closes a block: it starts with ` ``` ` or `~~~` and holds nothing but
/// backticks and tildes, at least three of them.
pub open spec fn closes_fence(t: Seq<char>) -> bool {
    &&& has_fence_prefix(t, '`') || has_fence_prefix(t, '~')
    &&& forall|i: int| 0 <= i < t.len() ==> t[i] == '`' || t[i] == '~'
    &&& t.len() >= 3
}

/// The state of a scan over the lines of a document.
pub struct ScanState {
    /// Blocks closed so far.
    pub snippets: Seq<SnippetView>,
    /// Whether a block is open.
    pub in_fence: bool,
    /// Line of the fence that opened the current block.
    pub fence_start: nat,
    /// Lines of the current block so far, each followed by `'\n'`.
    pub buf: Seq<char>,
}

/// The scan before any line.
pub open spec fn initial_scan() -> ScanState {
    ScanState { snippets: seq![], in_fence: false, fence_start: 0, buf: seq![] }
}

/// The scan after reading `line`, the document's line number `line_no`.
pub open spec fn scan_step(st: ScanState, line: Seq<char>, line_no: nat) -> ScanState {
    let t = trim(line);
    if !st.in_fence {
        if opens_gram_fence(t) {
            ScanState { snippets: st.snippets, in_fence: true, fence_start: line_no, buf: seq![] }
        } else {
            st
        }
    } else if closes_fence(t) {
        ScanState {
            snippets: st.snippets.push(SnippetView { source: st.buf, fence_start_line: st.fence_start }),
            in_fence: false,
            fence_start: st.fence_start,
            buf: st.buf,
        }
    } else {
        ScanState {
            snippets: st.snippets,
            in_fence: true,
            fence_start: st.fence_start,
            buf: st.buf + line + seq!['\n'],
        }
    }
}

/// The scan after reading the lines `ls`, numbered from 0.
pub open spec fn scan_lines(ls: Seq<Seq<char>>) -> ScanState
    decreases ls.len(),
{
    if ls.len() == 0 {
        initial_scan()
    } else {
        scan_step(scan_lines(ls.drop_last()), ls.last(), (ls.len() - 1) as nat)
    }
}

/// The gram blocks of the Markdown document `doc`, in document order.
pub open spec fn snippets_of(doc: Seq<char>) -> Seq<SnippetView> {
    scan_lines(lines(doc)).snippets
}

/// Whether `v[x..y]` is `gram` in any ASCII case.
fn gram_tag_in(v: &Vec<char>, x: usize, y: usize) -> (r: bool)
    requires
        x <= y <= v.len(),
    ensures
        r == is_gram_tag(v@.subrange(x as int, y as int)),
{
    if y - x != 4 {
        return false;
    }
    let c0 = v[x];
    let c1 = v[x + 1];
    let c2 = v[x + 2];
    let c3 = v[x + 3];
    (c0 == 'g' || c0 == 'G') && (c1 == 'r' || c1 == 'R') && (c2 == 'a' || c2 == 'A') && (c3 == 'm'
        || c3 == 'M')
}

/// Whether `v[a..b]` opens a gram block.
fn fence_open_in(v: &Vec<char>, a: usize, b: usize) -> (r: bool)
    requires
        a <= b <= v.len(),
    ensures
        r == opens_gram_fence(v@.subrange(a as int, b as int)),
{
    let ghost t = v@.subrange(a as int, b as int);
    if b - a < 3 {
        return false;
    }
    let c0 = v[a];
    if (c0 == '`' || c0 == '~') && v[a + 1] == c0 && v[a + 2] == c0 {
        let (x, y) = trim_range(v, a + 3, b);
        assert(t.skip(3) == v@.subrange(a + 3, b as int));
        gram_tag_in(v, x, y)
    } else {
        false
    }
}

/// Whether `v[a..b]` closes a block.
fn fence_close_in(v: &Vec<char>, a: usize, b: usize) -> (r: bool)
    requires
        a <= b <= v.len(),
    ensures
        r == closes_fence(v@.subrange(a as int, b as int)),
{
    let ghost t = v@.subrange(a as int, b as int);
    if b - a < 3 {
        return false;
    }
    let c0 = v[a];
    if !((c0 == '`' || c0 == '~') && v[a + 1] == c0 && v[a + 2] == c0) {
        return false;
    }
    let mut k = a;
    while k < b
        invariant
            a <= k <= b <= v.len(),
            t == v@.subrange(a as int, b as int),
            forall|i: int| 0 <= i < k - a ==> t[i] == '`' || t[i] == '~',
        decreases b - k,
    {
        if v[k] != '`' && v[k] != '~' {
            assert(t[k - a] == v@[k as int]);
            return false;
        }
        k += 1;
    }
    true
}

/// Whether a trimmed line opens a gram block: ` ```gram ` or `~~~gram`, the tag in any ASCII
/// case and optionally surrounded by whitespace.
pub fn is_gram_fence_open(trimmed: &str) -> (r: bool)
    ensures
        r == opens_gram_fence(trimmed@),
{
    let v = chars_of(trimmed);
    assert(v@.subrange(0, v@.len() as int) == v@);
    fence_open_in(&v, 0, v.len())
}

/// Whether a trimmed line closes a block: a line of only backticks and tildes (3 or more)
/// that starts with ` ``` ` or `~~~`.
pub fn is_fence_close(trimmed: &str) -> (r: bool)
    ensures
        r == closes_fence(trimmed@),
{
    let v = chars_of(trimmed);
    assert(v@.subrange(0, v@.len() as int) == v@);
    fence_close_in(&v, 0, v.len())
}

/// The first line of `v[pos..]` and what follows it.
proof fn lemma_lines_step(s: Seq<char>, pos: int, j: int)
    requires
        0 <= pos < j <= s.len() || (0 <= pos == j < s.len()),
        j - pos == first_line_len(s.skip(pos)),
        j < s.len() ==> s[j] == '\n',
    ensures
        j < s.len() ==> lines(s.skip(pos)) == seq![strip_cr(s.subrange(pos, j))] + lines(
            s.skip(j + 1),
        ),
        j == s.len() ==> lines(s.skip(pos)) == seq![s.subrange(pos, j)],
{
    let r = s.skip(pos);
    assert(r.len() > 0);
    if j < s.len() {
        assert(r.take(j - pos) == s.subrange(pos, j));
        assert(r.skip(j - pos + 1) == s.skip(j + 1));
    } else {
        assert(r == s.subrange(pos, j));
    }
}

/// Extract all ` ```gram ` fenced blocks from a Markdown document.
pub fn extract_snippets(doc_source: &str) -> (res: Vec<Snippet>)
    ensures
        res.len() == snippets_of(doc_source@).len(),
        forall|i: int| 0 <= i < res.len() ==> #[trigger] res[i]@ == snippets_of(doc_source@)[i],
{
    let v = chars_of(doc_source);
    let n = v.len();
    let mut snippets: Vec<Snippet> = Vec::new();
    let mut in_fence = false;
    let mut fence_start: usize = 0;
    let mut buf = String::new();
    let mut pos: usize = 0;
    let mut line_no: usize = 0;
    let ghost mut done: Seq<Seq<char>> = seq![];
    assert(v@.skip(0) == v@);
    while pos < n
        invariant
            n == v.len(),
            v@ == doc_source@,
            pos <= n,
            line_no <= pos,
            line_no == done.len(),
            lines(v@) == done + lines(v@.skip(pos as int)),
            scan_lines(done).in_fence == in_fence,
            scan_lines(done).fence_start == fence_start,
            scan_lines(done).buf == buf@,
            scan_lines(done).snippets.len() == snippets.len(),
            forall|i: int|
                0 <= i < snippets.len() ==> #[trigger] snippets[i]@ == scan_lines(done).snippets[i],
        decreases n - pos,
    {
        let j = line_end(&v, pos);
        let le: usize;
        let next: usize;
        if j < n {
            le = if j > pos && v[j - 1] == '\r' {
                j - 1
            } else {
                j
            };
            next = j + 1;
        } else {
            le = n;
            next = n;
        }
        let ghost line = v@.subrange(pos as int, le as int);
        proof {
            lemma_lines_step(v@, pos as int, j as int);
            if j < n {
                let l = v@.subrange(pos as int, j as int);
                if j > pos && v@[j - 1] == '\r' {
                    assert(strip_cr(l) == l.drop_last());
                    assert(l.drop_last() == line);
                } else {
                    assert(strip_cr(l) == line);
                }
            }
            assert(lines(v@) == done.push(line) + lines(v@.skip(next as int)));
            assert(done.push(line).drop_last() == done);
        }
        let (ta, tb) = trim_range(&v, pos, le);
        if !in_fence {
            if fence_open_in(&v, ta, tb) {
                in_fence = true;
                fence_start = line_no;
                buf = String::new();
            }
        } else if fence_close_in(&v, ta, tb) {
            snippets.push(Snippet { source: buf.clone(), fence_start_line: fence_start });
            in_fence = false;
        } else {
            let ghost old_buf = buf@;
            let mut k = pos;
            while k < le
                invariant
                    pos <= k <= le <= n == v.len(),
                    buf@ == old_buf + v@.subrange(pos as int, k as int),
                decreases le - k,
            {
                push_char(&mut buf, v[k]);
                assert(v@.subrange(pos as int, k + 1) == v@.subrange(pos as int, k as int).push(
                    v@[k as int],
                ));
                k += 1;
            }
            push_char(&mut buf, '\n');
        }
        proof {
            done = done.push(line);
        }
        pos = next;
        line_no = line_no + 1;
    }
    assert(v@.skip(pos as int).len() == 0);
    assert(done + seq![] == done);
    snippets
}


/// The lines `ls`, each followed by `'\n'`, one after the other.
pub open spec fn join_lines(ls: Seq<Seq<char>>) -> Seq<char>
    decreases ls.len(),
{
    if ls.len() == 0 {
        seq![]
    } else {
        join_lines(ls.drop_last()) + ls.last() + seq!['\n']
    }
}

/// `ls[f]` opens a gram block and `ls[c]` is the first line after it that closes a block.
pub open spec fn fenced_block(ls: Seq<Seq<char>>, f: int, c: int) -> bool {
    &&& 0 <= f < c < ls.len()
    &&& opens_gram_fence(trim(ls[f]))
    &&& closes_fence(trim(ls[c]))
    &&& forall|k: int| f < k < c ==> !closes_fence(trim(#[trigger] ls[k]))
}

/// Lines, numbered from 0, at which the scan of `ls` closed a block.
spec fn close_lines(ls: Seq<Seq<char>>) -> Seq<int>
    decreases ls.len(),
{
    if ls.len() == 0 {
        seq![]
    } else {
        let prev = close_lines(ls.drop_last());
        if scan_lines(ls.drop_last()).in_fence && closes_fence(trim(ls.last())) {
            prev.push(ls.len() - 1)
        } else {
            prev
        }
    }
}

/// The scan closed as many blocks as it recorded closing lines, each a fenced block
/// whose lines between the fences form its source.
spec fn inv_blocks(ls: Seq<Seq<char>>) -> bool {
    let st = scan_lines(ls);
    let cs = close_lines(ls);
    &&& cs.len() == st.snippets.len()
    &&& forall|i: int|
        0 <= i < cs.len() ==> fenced_block(ls, st.snippets[i].fence_start_line as int, #[trigger] cs[i])
            && st.snippets[i].source == join_lines(
            ls.subrange(st.snippets[i].fence_start_line as int + 1, cs[i]),
        )
}

/// Each recorded block closes before any later one opens.
spec fn inv_order(ls: Seq<Seq<char>>) -> bool {
    let st = scan_lines(ls);
    let cs = close_lines(ls);
    forall|i: int, j: int|
        0 <= i < j < cs.len() ==> #[trigger] cs[i] < #[trigger] st.snippets[j].fence_start_line
}

/// An open block starts at an opening fence, has no closing line yet, holds the lines read
/// since, and starts after every closed block.
spec fn inv_open(ls: Seq<Seq<char>>) -> bool {
    let st = scan_lines(ls);
    let cs = close_lines(ls);
    st.in_fence ==> {
        &&& st.fence_start < ls.len()
        &&& opens_gram_fence(trim(ls[st.fence_start as int]))
        &&& forall|k: int| st.fence_start < k < ls.len() ==> !closes_fence(trim(#[trigger] ls[k]))
        &&& st.buf == join_lines(ls.subrange(st.fence_start as int + 1, ls.len() as int))
        &&& forall|i: int| 0 <= i < cs.len() ==> #[trigger] cs[i] < st.fence_start
    }
}

/// Every opening fence read so far started a block, lies inside a closed block, or lies in
/// the open block.
spec fn inv_complete(ls: Seq<Seq<char>>) -> bool {
    let st = scan_lines(ls);
    let cs = close_lines(ls);
    forall|k: int|
        0 <= k < ls.len() && opens_gram_fence(trim(#[trigger] ls[k])) ==> {
            ||| exists|i: int| 0 <= i < cs.len() && (#[trigger] st.snippets[i]).fence_start_line == k
            ||| exists|i: int|
                0 <= i < cs.len() && st.snippets[i].fence_start_line < k < #[trigger] cs[i]
            ||| st.in_fence && st.fence_start <= k
        }
}

/// A line that opens a gram block does not close one.
proof fn lemma_open_not_close(t: Seq<char>)
    requires
        opens_gram_fence(t),
    ensures
        !closes_fence(t),
{
    let r = t.skip(3);
    crate::text::lemma_ws_bounds(r);
    crate::text::lemma_ws_bounds(crate::text::trim_start(r));
    let a = crate::text::leading_ws(r) as int;
    let ts = crate::text::trim_start(r);
    assert(trim(r)[0] == ts[0]);
    assert(ts[0] == r[a]);
    assert(r[a] == t[3 + a]);
}

/// Extending the lines keeps a fenced block of the shorter ones.
proof fn lemma_fenced_block_extend(ls: Seq<Seq<char>>, x: Seq<char>, f: int, c: int)
    requires
        fenced_block(ls, f, c),
    ensures
        fenced_block(ls.push(x), f, c),
{
    assert forall|k: int| f < k < c implies !closes_fence(trim(#[trigger] ls.push(x)[k])) by {
        assert(ls.push(x)[k] == ls[k]);
    }
}

/// The scan of any lines meets the invariants above.
proof fn lemma_scan_inv(ls: Seq<Seq<char>>)
    ensures
        inv_blocks(ls),
        inv_order(ls),
        inv_open(ls),
        inv_complete(ls),
    decreases ls.len(),
{
    if ls.len() == 0 {
        return;
    }
    let p = ls.drop_last();
    let x = ls.last();
    let n = p.len() as int;
    lemma_scan_inv(p);
    assert(p.push(x) == ls);
    let st0 = scan_lines(p);
    let cs0 = close_lines(p);
    let st = scan_lines(ls);
    let cs = close_lines(ls);
    assert(st == scan_step(st0, x, n as nat));
    if opens_gram_fence(trim(x)) {
        lemma_open_not_close(trim(x));
    }
    let closing = st0.in_fence && closes_fence(trim(x));
    assert(closing ==> cs == cs0.push(n));
    assert(!closing ==> cs == cs0);
    assert(st.snippets.len() >= st0.snippets.len());
    assert forall|i: int| 0 <= i < cs0.len() implies cs[i] == cs0[i] && st.snippets[i]
        == st0.snippets[i] by {}
    // Old blocks stay blocks of the longer lines.
    assert forall|i: int| 0 <= i < cs0.len() implies fenced_block(
        ls,
        st.snippets[i].fence_start_line as int,
        #[trigger] cs[i],
    ) && st.snippets[i].source == join_lines(
        ls.subrange(st.snippets[i].fence_start_line as int + 1, cs[i]),
    ) by {
        let f = st0.snippets[i].fence_start_line as int;
        assert(fenced_block(p, f, cs0[i]));
        lemma_fenced_block_extend(p, x, f, cs0[i]);
        assert(ls.subrange(f + 1, cs0[i]) == p.subrange(f + 1, cs0[i]));
    }
    if closing {
        let fs = st0.fence_start as int;
        assert forall|k: int| fs < k < n + 1 - 1 implies !closes_fence(trim(#[trigger] ls[k])) by {
            assert(ls[k] == p[k]);
        }
        assert(ls[fs] == p[fs]);
        assert(ls[n] == x);
        assert(fenced_block(ls, fs, n));
        assert(ls.subrange(fs + 1, n) == p.subrange(fs + 1, n));
        assert(st.snippets[n as int - n + cs0.len()] == SnippetView {
            source: st0.buf,
            fence_start_line: st0.fence_start,
        });
    }
    // The open block, if any.
    assert forall|i: int| 0 <= i < cs0.len() implies #[trigger] cs0[i] < n by {
        assert(fenced_block(p, st0.snippets[i].fence_start_line as int, cs0[i]));
    }
    if !st0.in_fence && opens_gram_fence(trim(x)) {
        assert(ls[n] == x);
        assert(ls.subrange(n + 1, n + 1) == Seq::<Seq<char>>::empty());
    } else if st0.in_fence && !closing {
        let fs = st0.fence_start as int;
        assert(ls[fs] == p[fs]);
        assert forall|k: int| fs < k < ls.len() implies !closes_fence(trim(#[trigger] ls[k])) by {
            if k < n {
                assert(ls[k] == p[k]);
            }
        }
        let sub = ls.subrange(fs + 1, n + 1);
        assert(sub.drop_last() == p.subrange(fs + 1, n));
        assert(sub.last() == x);
    }
    // Every opening fence is accounted for.
    assert forall|k: int| 0 <= k < ls.len() && opens_gram_fence(trim(#[trigger] ls[k])) implies {
        ||| exists|i: int| 0 <= i < cs.len() && (#[trigger] st.snippets[i]).fence_start_line == k
        ||| exists|i: int| 0 <= i < cs.len() && st.snippets[i].fence_start_line < k < #[trigger] cs[i]
        ||| st.in_fence && st.fence_start <= k
    } by {
        if k < n {
            assert(ls[k] == p[k]);
            assert(opens_gram_fence(trim(p[k])));
            if exists|i: int| 0 <= i < cs0.len() && (#[trigger] st0.snippets[i]).fence_start_line == k {
                let i = choose|i: int| 0 <= i < cs0.len() && (#[trigger] st0.snippets[i]).fence_start_line == k;
                assert(st.snippets[i] == st0.snippets[i]);
            } else if exists|i: int|
                0 <= i < cs0.len() && st0.snippets[i].fence_start_line < k < #[trigger] cs0[i] {
                let i = choose|i: int|
                    0 <= i < cs0.len() && st0.snippets[i].fence_start_line < k < #[trigger] cs0[i];
                assert(st.snippets[i] == st0.snippets[i]);
                assert(cs[i] == cs0[i]);
            } else {
                assert(st0.in_fence && st0.fence_start <= k);
                if closing {
                    let j = cs0.len() as int;
                    assert(st.snippets[j].fence_start_line == st0.fence_start);
                    assert(cs[j] == n);
                    if st0.fence_start == k {
                        assert(st.snippets[j].fence_start_line == k);
                    } else {
                        assert(st.snippets[j].fence_start_line < k < cs[j]);
                    }
                }
            }
        } else {
            assert(ls[k] == x);
        }
    }
}


/// Each extracted snippet is a fenced block of the document: its line opens a gram fence, a
/// later line is the first after it to close a fence, and its source is the lines between
/// the two fences, each followed by a newline.
pub proof fn law_snippet_is_fenced_block(doc: Seq<char>, i: int)
    requires
        0 <= i < snippets_of(doc).len(),
    ensures
        exists|c: int|
            fenced_block(lines(doc), snippets_of(doc)[i].fence_start_line as int, c)
                && snippets_of(doc)[i].source == join_lines(
                lines(doc).subrange(snippets_of(doc)[i].fence_start_line as int + 1, c),
            ),
{
    let ls = lines(doc);
    lemma_scan_inv(ls);
    let c = close_lines(ls)[i];
    assert(fenced_block(ls, snippets_of(doc)[i].fence_start_line as int, c));
}

/// In a document none of whose lines ends with `'\r'`, the lines of a snippet's source are
/// exactly the document's lines between its opening and closing fences: line `j` of the
/// source is line `fence_start_line + 1 + j` of the document.
pub proof fn law_snippet_lines_are_document_lines(doc: Seq<char>, i: int)
    requires
        0 <= i < snippets_of(doc).len(),
        forall|k: int|
            0 <= k < lines(doc).len() ==> !((#[trigger] lines(doc)[k]).len() > 0 && lines(doc)[k].last()
                == '\r'),
    ensures
        exists|c: int|
            fenced_block(lines(doc), snippets_of(doc)[i].fence_start_line as int, c) && lines(
                snippets_of(doc)[i].source,
            ) == lines(doc).subrange(snippets_of(doc)[i].fence_start_line as int + 1, c),
{
    let ls = lines(doc);
    let f = snippets_of(doc)[i].fence_start_line as int;
    law_snippet_is_fenced_block(doc, i);
    let c = choose|c: int|
        fenced_block(ls, f, c) && snippets_of(doc)[i].source == join_lines(ls.subrange(f + 1, c));
    let block = ls.subrange(f + 1, c);
    crate::text::lemma_lines_no_newline(doc);
    assert forall|j: int| 0 <= j < block.len() implies crate::text::no_newline(#[trigger] block[j]) by {
        assert(block[j] == ls[f + 1 + j]);
    }
    assert forall|j: int| 0 <= j < block.len() implies !((#[trigger] block[j]).len() > 0 && block[j].last() == '\r') by {
        assert(block[j] == ls[f + 1 + j]);
    }
    crate::text::lemma_lines_join(block);
}

/// Snippets come in document order: the block of an earlier snippet closes before the fence
/// of a later one opens.
pub proof fn law_snippets_in_order(doc: Seq<char>, i: int, j: int)
    requires
        0 <= i < j < snippets_of(doc).len(),
    ensures
        exists|c: int|
            fenced_block(lines(doc), snippets_of(doc)[i].fence_start_line as int, c) && c
                < snippets_of(doc)[j].fence_start_line,
{
    let ls = lines(doc);
    lemma_scan_inv(ls);
    let cs = close_lines(ls);
    assert(fenced_block(ls, snippets_of(doc)[i].fence_start_line as int, cs[i]));
    assert(cs[i] < scan_lines(ls).snippets[j].fence_start_line);
}

/// No fenced gram block is missed: a line that opens a gram fence starts a snippet, lies
/// inside the block of one, or has no closing fence after it.
pub proof fn law_every_closed_block_extracted(doc: Seq<char>, k: int)
    requires
        0 <= k < lines(doc).len(),
        opens_gram_fence(trim(lines(doc)[k])),
    ensures
        (exists|i: int|
            0 <= i < snippets_of(doc).len() && (#[trigger] snippets_of(doc)[i]).fence_start_line
                == k) || (exists|i: int, c: int|
            0 <= i < snippets_of(doc).len() && #[trigger] fenced_block(
                lines(doc),
                snippets_of(doc)[i].fence_start_line as int,
                c,
            ) && snippets_of(doc)[i].fence_start_line < k < c) || (forall|j: int|
            k < j < lines(doc).len() ==> !closes_fence(trim(#[trigger] lines(doc)[j]))),
{
    let ls = lines(doc);
    lemma_scan_inv(ls);
    let st = scan_lines(ls);
    let cs = close_lines(ls);
    if exists|i: int| 0 <= i < cs.len() && (#[trigger] st.snippets[i]).fence_start_line == k {
        let i = choose|i: int| 0 <= i < cs.len() && (#[trigger] st.snippets[i]).fence_start_line == k;
        assert(snippets_of(doc)[i].fence_start_line == k);
    } else if exists|i: int|
        0 <= i < cs.len() && st.snippets[i].fence_start_line < k < #[trigger] cs[i] {
        let i = choose|i: int|
            0 <= i < cs.len() && st.snippets[i].fence_start_line < k < #[trigger] cs[i];
        assert(fenced_block(ls, st.snippets[i].fence_start_line as int, cs[i]));
        assert(fenced_block(lines(doc), snippets_of(doc)[i].fence_start_line as int, cs[i]));
    } else {
        assert(st.in_fence && st.fence_start <= k);
        assert forall|j: int| k < j < lines(doc).len() implies !closes_fence(
            trim(#[trigger] lines(doc)[j]),
        ) by {
            assert(st.fence_start < j);
        }
    }
}


/// Scan `a` and scan `b` agree, line numbers of `a` being `n` more than those of `b`.
spec fn shifted(a: ScanState, b: ScanState, n: nat) -> bool {
    &&& a.in_fence == b.in_fence
    &&& a.buf == b.buf
    &&& a.in_fence ==> a.fence_start == b.fence_start + n
    &&& a.snippets.len() == b.snippets.len()
    &&& forall|i: int|
        0 <= i < a.snippets.len() ==> (#[trigger] a.snippets[i]).source == b.snippets[i].source
            && a.snippets[i].fence_start_line == b.snippets[i].fence_start_line + n
}

/// Lines none of which opens a gram block leave the scan where it started.
proof fn lemma_scan_without_fences(ls: Seq<Seq<char>>)
    requires
        forall|i: int| 0 <= i < ls.len() ==> !opens_gram_fence(trim(#[trigger] ls[i])),
    ensures
        scan_lines(ls) == initial_scan(),
    decreases ls.len(),
{
    if ls.len() > 0 {
        let p = ls.drop_last();
        assert forall|i: int| 0 <= i < p.len() implies !opens_gram_fence(trim(#[trigger] p[i])) by {
            assert(p[i] == ls[i]);
        }
        lemma_scan_without_fences(p);
        assert(!opens_gram_fence(trim(ls[ls.len() - 1])));
    }
}

/// Scanning `b` after lines that leave the scan where it started is scanning `b` alone,
/// with line numbers shifted by the number of those lines.
proof fn lemma_scan_shift(a: Seq<Seq<char>>, b: Seq<Seq<char>>)
    requires
        scan_lines(a) == initial_scan(),
    ensures
        shifted(scan_lines(a + b), scan_lines(b), a.len()),
    decreases b.len(),
{
    if b.len() == 0 {
        assert(a + b == a);
    } else {
        let bp = b.drop_last();
        lemma_scan_shift(a, bp);
        assert((a + b).drop_last() == a + bp);
        assert((a + b).last() == b.last());
        let s1 = scan_lines(a + bp);
        let s2 = scan_lines(bp);
        let t1 = scan_lines(a + b);
        let t2 = scan_lines(b);
        assert(t1 == scan_step(s1, b.last(), (a.len() + b.len() - 1) as nat));
        assert(t2 == scan_step(s2, b.last(), (b.len() - 1) as nat));
        if s1.in_fence && closes_fence(trim(b.last())) {
            assert forall|i: int| 0 <= i < t1.snippets.len() implies (#[trigger] t1.snippets[i]).source
                == t2.snippets[i].source && t1.snippets[i].fence_start_line
                == t2.snippets[i].fence_start_line + a.len() by {
                if i < s1.snippets.len() {
                    assert(t1.snippets[i] == s1.snippets[i]);
                    assert(t2.snippets[i] == s2.snippets[i]);
                }
            }
        }
    }
}

/// Lines in front of a document that open no gram block change nothing but the line numbers:
/// the snippets are the same, with the same sources, and each fence line moves down by the
/// number of lines put in front.
pub proof fn law_prefix_without_fences_shifts_lines(p: Seq<char>, d: Seq<char>)
    requires
        p.len() == 0 || p.last() == '\n',
        forall|i: int| 0 <= i < lines(p).len() ==> !opens_gram_fence(trim(#[trigger] lines(p)[i])),
    ensures
        snippets_of(p + d).len() == snippets_of(d).len(),
        forall|k: int|
            0 <= k < snippets_of(d).len() ==> (#[trigger] snippets_of(p + d)[k]).source
                == snippets_of(d)[k].source && snippets_of(p + d)[k].fence_start_line
                == snippets_of(d)[k].fence_start_line + lines(p).len(),
{
    crate::text::lemma_lines_concat(p, d);
    lemma_scan_without_fences(lines(p));
    lemma_scan_shift(lines(p), lines(d));
}

} // verus!
