//! Byte offsets into UTF-8 text, and the line / UTF-16 column positions of the LSP wire format.
use vstd::prelude::*;
use crate::diagnostics::Position;
use crate::text::chars_of;

verus! {

/// Number of bytes of `c` in UTF-8.
pub open spec fn utf8_width(c: char) -> nat {
    if (c as u32) < 0x80 {
        1
    } else if (c as u32) < 0x800 {
        2
    } else if (c as u32) < 0x10000 {
        3
    } else {
        4
    }
}

/// Number of 16-bit code units of `c` in UTF-16.
pub open spec fn utf16_width(c: char) -> nat {
    if (c as u32) < 0x10000 {
        1
    } else {
        2
    }
}

/// Number of bytes of `s` in UTF-8.
pub open spec fn utf8_len(s: Seq<char>) -> nat
    decreases s.len(),
{
    if s.len() == 0 {
        0
    } else {
        utf8_len(s.drop_last()) + utf8_width(s.last())
    }
}

/// Number of 16-bit code units of `s` in UTF-16.
pub open spec fn utf16_len(s: Seq<char>) -> nat
    decreases s.len(),
{
    if s.len() == 0 {
        0
    } else {
        utf16_len(s.drop_last()) + utf16_width(s.last())
    }
}

/// Number of leading characters of `s` whose UTF-8 encoding fits in the first `b` bytes:
/// the index of the character that byte offset `b` falls in, or `s.len()` past the end.
pub open spec fn chars_before(s: Seq<char>, b: int) -> nat
    decreases s.len(),
{
    if s.len() == 0 || utf8_width(s[0]) > b {
        0
    } else {
        1 + chars_before(s.drop_first(), b - utf8_width(s[0]))
    }
}

/// Number of `'\n'` in `s`.
pub open spec fn newline_count(s: Seq<char>) -> nat
    decreases s.len(),
{
    if s.len() == 0 {
        0
    } else {
        newline_count(s.drop_last()) + if s.last() == '\n' {
            1nat
        } else {
            0nat
        }
    }
}

/// The characters of `s` after its last `'\n'` (all of them when there is none).
pub open spec fn last_line(s: Seq<char>) -> Seq<char>
    decreases s.len(),
{
    if s.len() == 0 {
        s
    } else if s.last() == '\n' {
        seq![]
    } else {
        last_line(s.drop_last()).push(s.last())
    }
}

/// `n`, or `u32::MAX` when `n` does not fit in a `u32`.
pub open spec fn saturate(n: nat) -> u32 {
    if n < u32::MAX {
        n as u32
    } else {
        u32::MAX
    }
}

/// The LSP position of byte offset `b` of `s`: its 0-based line, and its column in UTF-16
/// code units from the start of that line, each saturated at `u32::MAX`.
pub open spec fn lsp_position(s: Seq<char>, b: int) -> Position {
    let pre = s.take(chars_before(s, b) as int);
    Position { line: saturate(newline_count(pre)), character: saturate(utf16_len(last_line(pre))) }
}

/// The UTF-8 width of a character is the length of its UTF-8 encoding.
pub proof fn law_utf8_width_is_encoding_length(c: char)
    ensures
        utf8_width(c) == vstd::utf8::encode_utf8(seq![c]).len(),
{
    assert(seq![c].drop_first() == Seq::<char>::empty());
    assert(vstd::utf8::encode_utf8(seq![c]) == vstd::utf8::encode_scalar(c as u32) + vstd::utf8::encode_utf8(Seq::<char>::empty()));
    assert(vstd::utf8::is_scalar(c as u32));
}

/// A character takes two UTF-16 code units exactly when it takes four UTF-8 bytes (it lies
/// outside the Basic Multilingual Plane); every other character takes one code unit.
pub proof fn law_utf16_width(c: char)
    ensures
        utf16_width(c) == 2 <==> utf8_width(c) == 4,
        utf16_width(c) == 1 <==> utf8_width(c) < 4,
{
}

/// On a line of characters that each take one UTF-16 code unit, the LSP column of a byte
/// offset is the number of characters before it (saturated at `u32::MAX`).
pub proof fn law_column_counts_bmp_characters(s: Seq<char>, b: int)
    requires
        forall|i: int| 0 <= i < s.len() ==> #[trigger] s[i] != '\n',
        forall|i: int| 0 <= i < s.len() ==> utf8_width(#[trigger] s[i]) < 4,
    ensures
        lsp_position(s, b).line == 0,
        lsp_position(s, b).character == saturate(chars_before(s, b)),
{
    lemma_chars_before_bound(s, b);
    let pre = s.take(chars_before(s, b) as int);
    lemma_single_line_prefix(pre);
}

/// A line of characters without `'\n'` that each take one UTF-16 code unit has no newline,
/// is its own last line, and has as many code units as characters.
proof fn lemma_single_line_prefix(pre: Seq<char>)
    requires
        forall|i: int| 0 <= i < pre.len() ==> #[trigger] pre[i] != '\n',
        forall|i: int| 0 <= i < pre.len() ==> utf8_width(#[trigger] pre[i]) < 4,
    ensures
        newline_count(pre) == 0,
        last_line(pre) == pre,
        utf16_len(pre) == pre.len(),
    decreases pre.len(),
{
    if pre.len() > 0 {
        let q = pre.drop_last();
        assert forall|i: int| 0 <= i < q.len() implies #[trigger] q[i] != '\n' by {
            assert(q[i] == pre[i]);
        }
        assert forall|i: int| 0 <= i < q.len() implies utf8_width(#[trigger] q[i]) < 4 by {
            assert(q[i] == pre[i]);
        }
        lemma_single_line_prefix(q);
        assert(pre.last() == pre[pre.len() - 1]);
        assert(q.push(pre.last()) == pre);
    }
}

/// `chars_before` counts at most all the characters.
pub proof fn lemma_chars_before_bound(s: Seq<char>, b: int)
    ensures
        chars_before(s, b) <= s.len(),
    decreases s.len(),
{
    if s.len() > 0 && utf8_width(s[0]) <= b {
        lemma_chars_before_bound(s.drop_first(), b - utf8_width(s[0]));
    }
}

/// `chars_before` over `s` is `k` plus `chars_before` over what follows the first `k`
/// characters, when those fit in `b` bytes.
proof fn lemma_chars_before_skip(s: Seq<char>, b: int, k: int)
    requires
        0 <= k < s.len(),
        utf8_len(s.take(k)) + utf8_width(s[k]) <= b,
        chars_before(s, b) == k + chars_before(s.skip(k), b - utf8_len(s.take(k))),
    ensures
        chars_before(s, b) == (k + 1) + chars_before(s.skip(k + 1), b - utf8_len(s.take(k + 1))),
{
    assert(s.take(k + 1).drop_last() == s.take(k));
    assert(s.skip(k).drop_first() == s.skip(k + 1));
}

/// The UTF-8 width of `c`.
pub fn char_utf8_width(c: char) -> (w: usize)
    ensures
        w == utf8_width(c),
{
    let u = c as u32;
    if u < 0x80 {
        1
    } else if u < 0x800 {
        2
    } else if u < 0x10000 {
        3
    } else {
        4
    }
}

/// The UTF-16 width of `c`.
pub fn char_utf16_width(c: char) -> (w: u32)
    ensures
        w == utf16_width(c),
{
    if (c as u32) < 0x10000 {
        1
    } else {
        2
    }
}

/// `a + b`, or `u32::MAX` when the sum does not fit.
fn saturating_add_u32(a: u32, b: u32) -> (r: u32)
    ensures
        r == saturate((a + b) as nat),
{
    if a <= u32::MAX - b {
        a + b
    } else {
        u32::MAX
    }
}

/// The LSP position (0-based line, UTF-16 column) of byte offset `byte` of `source`. An offset
/// inside a character counts as the start of that character; one past the end, as the end.
pub fn byte_to_line_col(source: &str, byte: usize) -> (p: Position)
    ensures
        p == lsp_position(source@, byte as int),
{
    let v = chars_of(source);
    let ghost s = v@;
    let n = v.len();
    let mut k: usize = 0;
    let mut used: usize = 0;
    let mut line: u32 = 0;
    let mut col: u32 = 0;
    assert(s.skip(0) == s);
    assert(s.take(0) == Seq::<char>::empty());
    while k < n && char_utf8_width(v[k]) <= byte - used
        invariant
            n == v.len(),
            s == v@,
            k <= n,
            used <= byte,
            used == utf8_len(s.take(k as int)),
            chars_before(s, byte as int) == k + chars_before(s.skip(k as int), byte - used),
            line == saturate(newline_count(s.take(k as int))),
            col == saturate(utf16_len(last_line(s.take(k as int)))),
        decreases n - k,
    {
        let c = v[k];
        proof {
            lemma_chars_before_skip(s, byte as int, k as int);
            assert(s.take(k + 1).drop_last() == s.take(k as int));
            assert(s.take(k + 1).last() == c);
        }
        proof {
            let t = s.take(k + 1);
            assert(newline_count(t) == newline_count(s.take(k as int)) + if c == '\n' {
                1nat
            } else {
                0nat
            });
            if c != '\n' {
                let ll = last_line(s.take(k as int));
                assert(last_line(t) == ll.push(c));
                assert(ll.push(c).drop_last() == ll);
                assert(utf16_len(ll.push(c)) == utf16_len(ll) + utf16_width(c));
            } else {
                assert(last_line(t).len() == 0);
            }
        }
        if c == '\n' {
            line = saturating_add_u32(line, 1);
            col = 0;
        } else {
            col = saturating_add_u32(col, char_utf16_width(c));
        }
        used = used + char_utf8_width(c);
        k = k + 1;
    }
    assert(chars_before(s.skip(k as int), byte - used) == 0);
    Position { line, character: col }
}

} // verus!
