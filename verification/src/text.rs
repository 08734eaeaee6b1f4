//! Character-level views of strings: lines, trimming and whitespace.
use vstd::prelude::*;

verus! {

/// Unicode's `White_Space` property, the set of characters that `char::is_whitespace`
/// accepts: U+0009..U+000D, U+0020, U+0085, U+00A0, U+1680, U+2000..U+200A,
/// U+2028, U+2029, U+202F, U+205F and U+3000.
pub open spec fn is_white_space(c: char) -> bool {
    ||| ('\u{9}' <= c && c <= '\u{d}')
    ||| c == ' '
    ||| c == '\u{85}'
    ||| c == '\u{a0}'
    ||| c == '\u{1680}'
    ||| ('\u{2000}' <= c && c <= '\u{200a}')
    ||| c == '\u{2028}'
    ||| c == '\u{2029}'
    ||| c == '\u{202f}'
    ||| c == '\u{205f}'
    ||| c == '\u{3000}'
}

/// Number of whitespace characters at the front of `s`.
pub open spec fn leading_ws(s: Seq<char>) -> nat
    decreases s.len(),
{
    if s.len() > 0 && is_white_space(s[0]) {
        1 + leading_ws(s.drop_first())
    } else {
        0
    }
}

/// Number of whitespace characters at the end of `s`.
pub open spec fn trailing_ws(s: Seq<char>) -> nat
    decreases s.len(),
{
    if s.len() > 0 && is_white_space(s.last()) {
        1 + trailing_ws(s.drop_last())
    } else {
        0
    }
}

/// `s` without its leading whitespace.
pub open spec fn trim_start(s: Seq<char>) -> Seq<char> {
    s.skip(leading_ws(s) as int)
}

/// `s` without its trailing whitespace.
pub open spec fn trim_end(s: Seq<char>) -> Seq<char> {
    s.take(s.len() - trailing_ws(s))
}

/// `s` without leading and trailing whitespace (what `str::trim` returns).
pub open spec fn trim(s: Seq<char>) -> Seq<char> {
    trim_end(trim_start(s))
}

/// Number of characters of `s` before its first `'\n'` (all of them when there is none).
pub open spec fn first_line_len(s: Seq<char>) -> nat
    decreases s.len(),
{
    if s.len() == 0 || s[0] == '\n' {
        0
    } else {
        1 + first_line_len(s.drop_first())
    }
}

/// `l` without one trailing `'\r'`.
pub open spec fn strip_cr(l: Seq<char>) -> Seq<char> {
    if l.len() > 0 && l.last() == '\r' {
        l.drop_last()
    } else {
        l
    }
}

/// The lines of `s`, as `str::lines` yields them: split at each `'\n'`, a `'\r'` directly
/// before a `'\n'` dropped with it, no empty line after a final `'\n'`, and a final
/// unterminated line kept as it is.
pub open spec fn lines(s: Seq<char>) -> Seq<Seq<char>>
    decreases s.len(),
{
    if s.len() == 0 {
        seq![]
    } else {
        let k = first_line_len(s);
        if k >= s.len() {
            seq![s]
        } else {
            seq![strip_cr(s.take(k as int))] + lines(s.skip(k as int + 1))
        }
    }
}

/// `first_line_len(s)` is at most the length, and no `'\n'` comes before it.
pub proof fn lemma_first_line_len_bound(s: Seq<char>)
    ensures
        first_line_len(s) <= s.len(),
        forall|i: int| 0 <= i < first_line_len(s) ==> s[i] != '\n',
    decreases s.len(),
{
    if s.len() > 0 && s[0] != '\n' {
        lemma_first_line_len_bound(s.drop_first());
        assert forall|i: int| 0 <= i < first_line_len(s) implies s[i] != '\n' by {
            if i > 0 {
                assert(s[i] == s.drop_first()[i - 1]);
            }
        }
    }
}

/// `t` holds no `'\n'`.
pub open spec fn no_newline(t: Seq<char>) -> bool {
    forall|i: int| 0 <= i < t.len() ==> t[i] != '\n'
}

/// No line of `s` holds a `'\n'`.
pub proof fn lemma_lines_no_newline(s: Seq<char>)
    ensures
        forall|i: int| 0 <= i < lines(s).len() ==> no_newline(#[trigger] lines(s)[i]),
    decreases s.len(),
{
    if s.len() > 0 {
        lemma_first_line_len_bound(s);
        let k = first_line_len(s) as int;
        if k < s.len() {
            let rest = s.skip(k + 1);
            lemma_lines_no_newline(rest);
            let first = strip_cr(s.take(k));
            assert(no_newline(first)) by {
                assert forall|i: int| 0 <= i < first.len() implies first[i] != '\n' by {
                    assert(first[i] == s[i]);
                }
            }
            let ls = seq![first] + lines(rest);
            assert forall|i: int| 0 <= i < ls.len() implies no_newline(#[trigger] ls[i]) by {
                if i > 0 {
                    assert(ls[i] == lines(rest)[i - 1]);
                }
            }
        }
    }
}

/// A line with no `'\n'`, followed by `'\n'`, is its only line, when it does not end with
/// `'\r'`.
proof fn lemma_lines_single(t: Seq<char>)
    requires
        no_newline(t),
        !(t.len() > 0 && t.last() == '\r'),
    ensures
        lines(t + seq!['\n']) == seq![t],
    decreases t.len(),
{
    let u = t + seq!['\n'];
    lemma_first_line_len_of_line(t);
    assert(u.take(t.len() as int) == t);
    assert(strip_cr(t) == t);
    assert(u.skip(t.len() as int + 1) == Seq::<char>::empty());
    assert(lines(Seq::<char>::empty()) == Seq::<Seq<char>>::empty());
    assert(lines(u) == seq![strip_cr(u.take(t.len() as int))] + lines(u.skip(t.len() as int + 1)));
    assert(seq![t] + Seq::<Seq<char>>::empty() == seq![t]);
}

/// In a line with no `'\n'`, followed by `'\n'`, the first line is the whole line.
proof fn lemma_first_line_len_of_line(t: Seq<char>)
    requires
        no_newline(t),
    ensures
        first_line_len(t + seq!['\n']) == t.len(),
    decreases t.len(),
{
    let u = t + seq!['\n'];
    if t.len() > 0 {
        assert(u[0] == t[0]);
        assert(u.drop_first() == t.drop_first() + seq!['\n']);
        lemma_first_line_len_of_line(t.drop_first());
    } else {
        assert(u[0] == '\n');
    }
}

/// Lines without `'\n'` and without a final `'\r'`, each followed by `'\n'`, split back into
/// the same lines.
pub proof fn lemma_lines_join(ls: Seq<Seq<char>>)
    requires
        forall|i: int| 0 <= i < ls.len() ==> no_newline(#[trigger] ls[i]),
        forall|i: int| 0 <= i < ls.len() ==> !((#[trigger] ls[i]).len() > 0 && ls[i].last() == '\r'),
    ensures
        lines(crate::markdown::join_lines(ls)) == ls,
    decreases ls.len(),
{
    if ls.len() == 0 {
        assert(lines(Seq::<char>::empty()) == Seq::<Seq<char>>::empty());
    } else {
        let p = ls.drop_last();
        let t = ls.last();
        assert forall|i: int| 0 <= i < p.len() implies no_newline(#[trigger] p[i]) by {
            assert(p[i] == ls[i]);
        }
        assert forall|i: int| 0 <= i < p.len() implies !((#[trigger] p[i]).len() > 0 && p[i].last() == '\r') by {
            assert(p[i] == ls[i]);
        }
        lemma_lines_join(p);
        let jp = crate::markdown::join_lines(p);
        if p.len() > 0 {
            assert(jp.last() == '\n');
        }
        assert(crate::markdown::join_lines(ls) == jp + (t + seq!['\n']));
        lemma_lines_concat(jp, t + seq!['\n']);
        lemma_lines_single(t);
        assert(p + seq![t] == ls);
    }
}

/// A line that ends before the end of `p` ends at the same place in `p + d`.
pub proof fn lemma_first_line_len_concat(p: Seq<char>, d: Seq<char>)
    requires
        first_line_len(p) < p.len(),
    ensures
        first_line_len(p + d) == first_line_len(p),
    decreases p.len(),
{
    if p[0] != '\n' {
        assert((p + d)[0] == p[0]);
        assert((p + d).drop_first() == p.drop_first() + d);
        lemma_first_line_len_concat(p.drop_first(), d);
    } else {
        assert((p + d)[0] == p[0]);
    }
}

/// In text that ends with `'\n'`, the first line ends before the end.
pub proof fn lemma_first_line_len_newline(p: Seq<char>)
    requires
        p.len() > 0,
        p.last() == '\n',
    ensures
        first_line_len(p) < p.len(),
    decreases p.len(),
{
    if p[0] != '\n' {
        assert(p.drop_first().last() == p.last());
        lemma_first_line_len_newline(p.drop_first());
    }
}

/// The lines of text ending with `'\n'` (or empty) followed by more text are the lines of
/// the one followed by the lines of the other.
pub proof fn lemma_lines_concat(p: Seq<char>, d: Seq<char>)
    requires
        p.len() == 0 || p.last() == '\n',
    ensures
        lines(p + d) == lines(p) + lines(d),
    decreases p.len(),
{
    if p.len() == 0 {
        assert(p + d == d);
        assert(lines(p) == Seq::<Seq<char>>::empty());
        assert(Seq::<Seq<char>>::empty() + lines(d) == lines(d));
    } else {
        lemma_first_line_len_newline(p);
        let k = first_line_len(p) as int;
        lemma_first_line_len_concat(p, d);
        let rest = p.skip(k + 1);
        assert((p + d).take(k) == p.take(k));
        assert((p + d).skip(k + 1) == rest + d);
        if rest.len() > 0 {
            assert(rest.last() == p.last());
        }
        lemma_lines_concat(rest, d);
        assert(lines(p + d) == seq![strip_cr(p.take(k))] + lines(rest + d));
        assert(lines(p) == seq![strip_cr(p.take(k))] + lines(rest));
        assert(seq![strip_cr(p.take(k))] + (lines(rest) + lines(d)) == (seq![strip_cr(p.take(k))]
            + lines(rest)) + lines(d));
    }
}

/// Whitespace counts never exceed the length.
pub proof fn lemma_ws_bounds(s: Seq<char>)
    ensures
        leading_ws(s) <= s.len(),
        trailing_ws(s) <= s.len(),
    decreases s.len(),
{
    if s.len() > 0 {
        lemma_ws_bounds(s.drop_first());
        lemma_ws_bounds(s.drop_last());
    }
}

/// Whether `c` has Unicode's `White_Space` property (what `char::is_whitespace` answers).
pub fn char_is_whitespace(c: char) -> (r: bool)
    ensures
        r == is_white_space(c),
{
    ('\u{9}' <= c && c <= '\u{d}') || c == ' ' || c == '\u{85}' || c == '\u{a0}' || c == '\u{1680}'
        || ('\u{2000}' <= c && c <= '\u{200a}') || c == '\u{2028}' || c == '\u{2029}' || c
        == '\u{202f}' || c == '\u{205f}' || c == '\u{3000}'
}

/// Appends `c` to `s`.
#[verifier::external_body]
pub(crate) fn push_char(s: &mut String, c: char)
    ensures
        final(s)@ == old(s)@.push(c),
{
    s.push(c)
}

/// The characters of `s`, in order.
pub fn chars_of(s: &str) -> (v: Vec<char>)
    ensures
        v@ == s@,
{
    let mut v: Vec<char> = Vec::new();
    for c in it: s.chars()
        invariant
            v@ == it.seq().take(it.index() as int),
    {
        v.push(c);
    }
    v
}

/// Bounds `(a, b)` such that `v[a..b]` is `v[lo..hi]` trimmed of whitespace at both ends.
pub fn trim_range(v: &Vec<char>, lo: usize, hi: usize) -> (r: (usize, usize))
    requires
        lo <= hi <= v.len(),
    ensures
        lo <= r.0 <= r.1 <= hi,
        v@.subrange(r.0 as int, r.1 as int) == trim(v@.subrange(lo as int, hi as int)),
{
    let ghost s = v@.subrange(lo as int, hi as int);
    let mut a = lo;
    while a < hi && char_is_whitespace(v[a])
        invariant
            lo <= a <= hi <= v.len(),
            s == v@.subrange(lo as int, hi as int),
            leading_ws(s) == (a - lo) + leading_ws(v@.subrange(a as int, hi as int)),
        decreases hi - a,
    {
        assert(v@.subrange(a as int, hi as int).drop_first() == v@.subrange(a + 1, hi as int));
        a += 1;
    }
    assert(leading_ws(v@.subrange(a as int, hi as int)) == 0);
    assert(trim_start(s) == v@.subrange(a as int, hi as int));
    let ghost t = v@.subrange(a as int, hi as int);
    let mut b = hi;
    while b > a && char_is_whitespace(v[b - 1])
        invariant
            lo <= a <= b <= hi <= v.len(),
            t == v@.subrange(a as int, hi as int),
            trailing_ws(t) == (hi - b) + trailing_ws(v@.subrange(a as int, b as int)),
        decreases b - a,
    {
        assert(v@.subrange(a as int, b as int).drop_last() == v@.subrange(a as int, b - 1));
        b -= 1;
    }
    assert(trailing_ws(v@.subrange(a as int, b as int)) == 0);
    assert(trim_end(t) == v@.subrange(a as int, b as int));
    (a, b)
}

/// Index of the first `'\n'` at or after `pos` in `v`, or `v.len()` when there is none.
pub fn line_end(v: &Vec<char>, pos: usize) -> (j: usize)
    requires
        pos <= v.len(),
    ensures
        pos <= j <= v.len(),
        j - pos == first_line_len(v@.skip(pos as int)),
        j < v.len() ==> v@[j as int] == '\n',
        forall|k: int| pos <= k < j ==> v@[k] != '\n',
{
    let mut j = pos;
    while j < v.len() && v[j] != '\n'
        invariant
            pos <= j <= v.len(),
            first_line_len(v@.skip(pos as int)) == (j - pos) + first_line_len(v@.skip(j as int)),
            forall|k: int| pos <= k < j ==> v@[k] != '\n',
        decreases v.len() - j,
    {
        assert(v@.skip(j as int).drop_first() == v@.skip(j + 1));
        j += 1;
    }
    j
}

} // verus!
