//! Minimal markdown to HTML renderer for help content.
//!
//! Supports `## / ### / ####` headings, blank-line paragraphs, `- ` / `* ` bullet lists,
//! `**bold**`, `*italic*`, and `[text](url)` links. Everything else is plain text. All input
//! is HTML-escaped before tags are emitted.
use vstd::prelude::*;
use vstd::string::StringSliceAdditionalSpecFns;
use crate::text::{
    chars_of, string_from_chars, push_str, push_chars, is_whitespace, is_ws, trim_start, trim_end, lines, lines_of,
    find_char, lemma_find_char_bounds, lemma_lines_step, strip_cr,
};
use crate::numbers::{dec, push_decimal};

verus! {

/// The escape of one character in text.
pub open spec fn escape_text_char(c: char) -> Seq<char> {
    if c == '&' {
        "&amp;"@
    } else if c == '<' {
        "&lt;"@
    } else if c == '>' {
        "&gt;"@
    } else {
        seq![c]
    }
}

/// The escape of one character in an attribute value.
pub open spec fn escape_attr_char(c: char) -> Seq<char> {
    if c == '&' {
        "&amp;"@
    } else if c == '"' {
        "&quot;"@
    } else if c == '<' {
        "&lt;"@
    } else if c == '>' {
        "&gt;"@
    } else {
        seq![c]
    }
}

/// `s` with `& < >` escaped.
pub open spec fn escape_text(s: Seq<char>) -> Seq<char>
    decreases s.len(),
{
    if s.len() == 0 {
        Seq::empty()
    } else {
        escape_text(s.drop_last()) + escape_text_char(s.last())
    }
}

/// `s` with `& " < >` escaped.
pub open spec fn escape_attr_text(s: Seq<char>) -> Seq<char>
    decreases s.len(),
{
    if s.len() == 0 {
        Seq::empty()
    } else {
        escape_attr_text(s.drop_last()) + escape_attr_char(s.last())
    }
}

/// Position of the first `**` at or after `p`.
pub open spec fn find_double_star(s: Seq<char>, p: int) -> Option<int>
    decreases s.len() - p,
{
    if p < 0 || p + 1 >= s.len() {
        None
    } else if s[p] == '*' && s[p + 1] == '*' {
        Some(p)
    } else {
        find_double_star(s, p + 1)
    }
}

/// Position of the first `c` at or after `p`.
pub open spec fn find_from(s: Seq<char>, p: int, c: char) -> Option<int>
    decreases s.len() - p,
{
    if p < 0 || p >= s.len() {
        None
    } else if s[p] == c {
        Some(p)
    } else {
        find_from(s, p + 1, c)
    }
}

pub proof fn lemma_find_double_star(s: Seq<char>, p: int)
    ensures
        find_double_star(s, p) matches Some(q) ==> p <= q && q + 1 < s.len() && s[q] == '*' && s[q + 1] == '*',
    decreases s.len() - p,
{
    if !(p < 0 || p + 1 >= s.len()) && !(s[p] == '*' && s[p + 1] == '*') {
        lemma_find_double_star(s, p + 1);
    }
}

pub proof fn lemma_find_from(s: Seq<char>, p: int, c: char)
    ensures
        find_from(s, p, c) matches Some(q) ==> p <= q < s.len() && s[q] == c,
    decreases s.len() - p,
{
    if !(p < 0 || p >= s.len()) && s[p] != c {
        lemma_find_from(s, p + 1, c);
    }
}

/// The inline markup of `s` from position `i`: `**bold**`, `*italic*` and `[text](url)`;
/// every other character escaped.
pub open spec fn inline_from(s: Seq<char>, i: int) -> Seq<char>
    decreases s.len() - i,
{
    if i < 0 || i >= s.len() {
        Seq::empty()
    } else if s[i] == '*' && i + 1 < s.len() && s[i + 1] == '*' && find_double_star(s, i + 2) is Some {
        proof {
            lemma_find_double_star(s, i + 2);
        }
        let end = find_double_star(s, i + 2)->0;
        "<strong>"@ + escape_text(s.subrange(i + 2, end)) + "</strong>"@ + inline_from(s, end + 2)
    } else if s[i] == '*' && find_from(s, i + 1, '*') is Some && find_from(s, i + 1, '*')->0 > i + 1 {
        proof {
            lemma_find_from(s, i + 1, '*');
        }
        let end = find_from(s, i + 1, '*')->0;
        "<em>"@ + escape_text(s.subrange(i + 1, end)) + "</em>"@ + inline_from(s, end + 1)
    } else if s[i] == '[' && find_from(s, i + 1, ']') is Some && find_from(s, i + 1, ']')->0 + 1 < s.len()
        && s[find_from(s, i + 1, ']')->0 + 1] == '(' && find_from(s, find_from(s, i + 1, ']')->0 + 2, ')') is Some {
        proof {
            lemma_find_from(s, i + 1, ']');
            lemma_find_from(s, find_from(s, i + 1, ']')->0 + 2, ')');
        }
        let cb = find_from(s, i + 1, ']')->0;
        let cp = find_from(s, cb + 2, ')')->0;
        "<a href=\""@ + escape_attr_text(s.subrange(cb + 2, cp)) + "\">"@ + escape_text(s.subrange(i + 1, cb))
            + "</a>"@ + inline_from(s, cp + 1)
    } else {
        escape_text_char(s[i]) + inline_from(s, i + 1)
    }
}

/// The inline markup of `s`.
pub open spec fn inline(s: Seq<char>) -> Seq<char> {
    inline_from(s, 0)
}

/// Number of leading `#` of `s`.
pub open spec fn hashes(s: Seq<char>) -> int
    decreases s.len(),
{
    if s.len() > 0 && s[0] == '#' {
        1 + hashes(s.drop_first())
    } else {
        0
    }
}

/// A heading line: one to four `#` (after leading whitespace) and a space; the level is
/// shifted by one (`##` gives `h3`), `h1` being the page's own title.
pub open spec fn heading_of(line: Seq<char>) -> Option<(int, Seq<char>)> {
    let t = trim_start(line);
    let l = hashes(t);
    if 1 <= l <= 4 && l < t.len() && t[l] == ' ' {
        Some((l + 1, t.skip(l + 1)))
    } else {
        None
    }
}

/// A list item line: the text after a leading `- ` or `* `.
pub open spec fn list_item(t: Seq<char>) -> Option<Seq<char>> {
    if t.len() >= 2 && t[0] == '-' && t[1] == ' ' {
        Some(t.skip(2))
    } else if t.len() >= 2 && t[0] == '*' && t[1] == ' ' {
        Some(t.skip(2))
    } else {
        None
    }
}

/// A line (trimmed at its end) that continues a paragraph.
pub open spec fn continues_paragraph(t: Seq<char>) -> bool {
    !(t.len() == 0 || heading_of(t) is Some || (t.len() >= 2 && (t[0] == '-' || t[0] == '*') && t[1] == ' '))
}

/// Number of lines from `k` on that continue a paragraph.
pub open spec fn paragraph_len(ls: Seq<Seq<char>>, k: int) -> int
    decreases ls.len() - k,
{
    if 0 <= k < ls.len() && continues_paragraph(trim_end(ls[k])) {
        1 + paragraph_len(ls, k + 1)
    } else {
        0
    }
}

/// Lines `k..k+n`, each trimmed at its end and preceded by a space.
pub open spec fn joined(ls: Seq<Seq<char>>, k: int, n: int) -> Seq<char>
    decreases n,
{
    if n <= 0 {
        Seq::empty()
    } else {
        joined(ls, k, n - 1) + " "@ + trim_end(ls[k + n - 1])
    }
}

pub open spec fn close_list(in_list: bool) -> Seq<char> {
    if in_list {
        "</ul>"@
    } else {
        Seq::empty()
    }
}

pub proof fn lemma_paragraph_len(ls: Seq<Seq<char>>, k: int)
    ensures
        0 <= paragraph_len(ls, k),
        0 <= k ==> k + paragraph_len(ls, k) <= ls.len() || paragraph_len(ls, k) == 0,
    decreases ls.len() - k,
{
    if 0 <= k < ls.len() && continues_paragraph(trim_end(ls[k])) {
        lemma_paragraph_len(ls, k + 1);
    }
}

/// The HTML of lines `k..`, a list being open when `in_list`.
#[verifier::opaque]
pub open spec fn blocks_from(ls: Seq<Seq<char>>, k: int, in_list: bool) -> Seq<char>
    decreases ls.len() - k,
{
    if k < 0 || k >= ls.len() {
        close_list(in_list)
    } else {
        let t = trim_end(ls[k]);
        if t.len() == 0 {
            close_list(in_list) + blocks_from(ls, k + 1, false)
        } else if heading_of(t) is Some {
            let (level, rest) = heading_of(t)->0;
            close_list(in_list) + "<h"@ + dec(level as nat) + ">"@ + inline(rest) + "</h"@ + dec(level as nat) + ">"@
                + blocks_from(ls, k + 1, false)
        } else if list_item(t) is Some {
            (if in_list { Seq::empty() } else { "<ul>"@ }) + "<li>"@ + inline(list_item(t)->0) + "</li>"@
                + blocks_from(ls, k + 1, true)
        } else {
            proof {
                lemma_paragraph_len(ls, k + 1);
            }
            let n = paragraph_len(ls, k + 1);
            close_list(in_list) + "<p>"@ + inline(t + joined(ls, k + 1, n)) + "</p>"@ + blocks_from(ls, k + 1 + n, false)
        }
    }
}


pub(crate) proof fn lemma_blocks_end(ls: Seq<Seq<char>>, in_list: bool)
    ensures
        blocks_from(ls, ls.len() as int, in_list) == close_list(in_list),
{
    reveal(blocks_from);
}

pub(crate) proof fn lemma_blocks_blank(ls: Seq<Seq<char>>, k: int, in_list: bool)
    requires
        0 <= k < ls.len(),
        trim_end(ls[k]).len() == 0,
    ensures
        blocks_from(ls, k, in_list) == close_list(in_list) + blocks_from(ls, k + 1, false),
{
    reveal(blocks_from);
}

pub(crate) proof fn lemma_blocks_heading(ls: Seq<Seq<char>>, k: int, in_list: bool, level: int, rest: Seq<char>)
    requires
        0 <= k < ls.len(),
        trim_end(ls[k]).len() > 0,
        heading_of(trim_end(ls[k])) == Some((level, rest)),
    ensures
        blocks_from(ls, k, in_list) == close_list(in_list) + "<h"@ + dec(level as nat) + ">"@ + inline(rest) + "</h"@
            + dec(level as nat) + ">"@ + blocks_from(ls, k + 1, false),
{
    reveal(blocks_from);
}

pub(crate) proof fn lemma_blocks_item(ls: Seq<Seq<char>>, k: int, in_list: bool)
    requires
        0 <= k < ls.len(),
        trim_end(ls[k]).len() > 0,
        heading_of(trim_end(ls[k])) is None,
        list_item(trim_end(ls[k])) is Some,
    ensures
        blocks_from(ls, k, in_list) == (if in_list { Seq::empty() } else { "<ul>"@ }) + "<li>"@ + inline(
            list_item(trim_end(ls[k]))->0,
        ) + "</li>"@ + blocks_from(ls, k + 1, true),
{
    reveal(blocks_from);
}

pub(crate) proof fn lemma_blocks_paragraph(ls: Seq<Seq<char>>, k: int, in_list: bool)
    requires
        0 <= k < ls.len(),
        trim_end(ls[k]).len() > 0,
        heading_of(trim_end(ls[k])) is None,
        list_item(trim_end(ls[k])) is None,
    ensures
        blocks_from(ls, k, in_list) == close_list(in_list) + "<p>"@ + inline(
            trim_end(ls[k]) + joined(ls, k + 1, paragraph_len(ls, k + 1)),
        ) + "</p>"@ + blocks_from(ls, k + 1 + paragraph_len(ls, k + 1), false),
{
    reveal(blocks_from);
}

/// The HTML of a markdown text.
pub open spec fn markdown(src: Seq<char>) -> Seq<char> {
    blocks_from(lines(src), 0, false)
}

/// No character of the UTF-8 `bytes` starts strictly between `from` and `to`, all of which
/// lie before `len`.
pub open spec fn no_boundary_between(bytes: Seq<u8>, len: int, from: int, to: int) -> bool {
    forall|j: int| from < j < to ==> j < len && !#[trigger] vstd::utf8::is_char_boundary(bytes, j)
}

/// The first position after `from` where a character of `s` starts, or the end of `s` (or
/// `from + 1` when that is already past the end), counted in bytes of UTF-8.
pub fn next_char_boundary(s: &str, from: usize) -> (r: usize)
    requires
        from < usize::MAX,
    ensures
        r > from,
        r >= s.len() || vstd::utf8::is_char_boundary(s.spec_bytes(), r as int),
        no_boundary_between(s.spec_bytes(), s.len() as int, from as int, r as int),
{
    let n = s.len();
    let mut i = from + 1;
    while i < n && !s.is_char_boundary(i)
        invariant
            from < i,
            n == s.len(),
            no_boundary_between(s.spec_bytes(), n as int, from as int, i as int),
        decreases n - i,
    {
        i = i + 1;
    }
    i
}

pub(crate) fn escape(s: &[char]) -> (out: Vec<char>)
    ensures
        out@ == escape_text(s@),
{
    let mut out: Vec<char> = Vec::new();
    let mut i: usize = 0;
    assert(s@.take(0) =~= Seq::<char>::empty());
    while i < s.len()
        invariant
            i <= s.len(),
            out@ == escape_text(s@.take(i as int)),
        decreases s.len() - i,
    {
        let c = s[i];
        if c == '&' {
            push_str(&mut out, "&amp;");
        } else if c == '<' {
            push_str(&mut out, "&lt;");
        } else if c == '>' {
            push_str(&mut out, "&gt;");
        } else {
            out.push(c);
        }
        assert(s@.take(i + 1).drop_last() =~= s@.take(i as int));
        assert(out@ =~= escape_text(s@.take(i + 1)));
        i = i + 1;
    }
    assert(s@.take(s.len() as int) =~= s@);
    out
}

fn escape_attr(s: &[char]) -> (out: Vec<char>)
    ensures
        out@ == escape_attr_text(s@),
{
    let mut out: Vec<char> = Vec::new();
    let mut i: usize = 0;
    assert(s@.take(0) =~= Seq::<char>::empty());
    while i < s.len()
        invariant
            i <= s.len(),
            out@ == escape_attr_text(s@.take(i as int)),
        decreases s.len() - i,
    {
        let c = s[i];
        if c == '&' {
            push_str(&mut out, "&amp;");
        } else if c == '"' {
            push_str(&mut out, "&quot;");
        } else if c == '<' {
            push_str(&mut out, "&lt;");
        } else if c == '>' {
            push_str(&mut out, "&gt;");
        } else {
            out.push(c);
        }
        assert(s@.take(i + 1).drop_last() =~= s@.take(i as int));
        assert(out@ =~= escape_attr_text(s@.take(i + 1)));
        i = i + 1;
    }
    assert(s@.take(s.len() as int) =~= s@);
    out
}

/// `s[a..b]` as a new vector.
fn sub_chars(s: &[char], a: usize, b: usize) -> (r: Vec<char>)
    requires
        a <= b <= s.len(),
    ensures
        r@ == s@.subrange(a as int, b as int),
{
    let mut r: Vec<char> = Vec::new();
    let mut i: usize = a;
    while i < b
        invariant
            a <= i <= b <= s.len(),
            r@ == s@.subrange(a as int, i as int),
        decreases b - i,
    {
        r.push(s[i]);
        i = i + 1;
        assert(r@ =~= s@.subrange(a as int, i as int));
    }
    r
}

/// Position of `needle` (one or two characters) in `s` at or after `from`.
fn find(s: &[char], from: usize, needle: &[char]) -> (r: Option<usize>)
    requires
        needle.len() == 1 || (needle.len() == 2 && needle[0] == '*' && needle[1] == '*'),
    ensures
        needle.len() == 1 ==> match r {
            Some(q) => find_from(s@, from as int, needle[0]) == Some(q as int),
            None => find_from(s@, from as int, needle[0]) is None,
        },
        needle.len() == 2 ==> match r {
            Some(q) => find_double_star(s@, from as int) == Some(q as int),
            None => find_double_star(s@, from as int) is None,
        },
{
    let mut p: usize = from;
    while p < s.len()
        invariant
            from <= p,
            needle.len() == 1 ==> find_from(s@, from as int, needle[0]) == find_from(s@, p as int, needle[0]),
            needle.len() == 2 ==> find_double_star(s@, from as int) == find_double_star(s@, p as int),
            needle.len() == 1 || (needle.len() == 2 && needle[0] == '*' && needle[1] == '*'),
        decreases s.len() - p,
    {
        if needle.len() == 1 {
            if s[p] == needle[0] {
                return Some(p);
            }
        } else {
            if p + 1 < s.len() && s[p] == '*' && s[p + 1] == '*' {
                return Some(p);
            }
        }
        p = p + 1;
    }
    None
}

/// Renders inline markup: `**bold**`, `*italic*`, `[text](url)`; everything else is escaped.
fn render_inline(s: &[char]) -> (out: Vec<char>)
    ensures
        out@ == inline(s@),
{
    let star2 = ['*', '*'];
    let star = ['*'];
    let close_bracket_c = [']'];
    let close_paren_c = [')'];
    let mut out: Vec<char> = Vec::new();
    let mut i: usize = 0;
    while i < s.len()
        invariant
            i <= s.len(),
            star2@ == seq!['*', '*'],
            star@ == seq!['*'],
            close_bracket_c@ == seq![']'],
            close_paren_c@ == seq![')'],
            out@ + inline_from(s@, i as int) == inline(s@),
        decreases s.len() - i,
    {
        let ghost before = out@;
        if s[i] == '*' && i + 1 < s.len() && s[i + 1] == '*' {
            if let Some(end) = find(s, i + 2, star2.as_slice()) {
                proof {
                    lemma_find_double_star(s@, i + 2);
                }
                push_str(&mut out, "<strong>");
                let inner = sub_chars(s, i + 2, end);
                let e = escape(inner.as_slice());
                push_chars(&mut out, e.as_slice());
                push_str(&mut out, "</strong>");
                assert(out@ + inline_from(s@, end + 2) =~= before + inline_from(s@, i as int));
                i = end + 2;
                continue;
            }
        }
        if s[i] == '*' {
            if let Some(end) = find(s, i + 1, star.as_slice()) {
                if end > i + 1 {
                    proof {
                        lemma_find_from(s@, i + 1, '*');
                    }
                    push_str(&mut out, "<em>");
                    let inner = sub_chars(s, i + 1, end);
                    let e = escape(inner.as_slice());
                    push_chars(&mut out, e.as_slice());
                    push_str(&mut out, "</em>");
                    assert(out@ + inline_from(s@, end + 1) =~= before + inline_from(s@, i as int));
                    i = end + 1;
                    continue;
                }
            }
        }
        if s[i] == '[' {
            if let Some(cb) = find(s, i + 1, close_bracket_c.as_slice()) {
                proof {
                    lemma_find_from(s@, i + 1, ']');
                }
                if cb + 1 < s.len() && s[cb + 1] == '(' {
                    if let Some(cp) = find(s, cb + 2, close_paren_c.as_slice()) {
                        proof {
                            lemma_find_from(s@, cb + 2, ')');
                        }
                        let text = sub_chars(s, i + 1, cb);
                        let url = sub_chars(s, cb + 2, cp);
                        push_str(&mut out, "<a href=\"");
                        let a = escape_attr(url.as_slice());
                        push_chars(&mut out, a.as_slice());
                        push_str(&mut out, "\">");
                        let t = escape(text.as_slice());
                        push_chars(&mut out, t.as_slice());
                        push_str(&mut out, "</a>");
                        assert(out@ + inline_from(s@, cp + 1) =~= before + inline_from(s@, i as int));
                        i = cp + 1;
                        continue;
                    }
                }
            }
        }
        let one = sub_chars(s, i, i + 1);
        assert(one@ =~= seq![s@[i as int]]);
        let e = escape(one.as_slice());
        assert(escape_text(seq![s@[i as int]]) =~= escape_text_char(s@[i as int])) by {
            let one_c = seq![s@[i as int]];
            assert(one_c.drop_last() =~= Seq::<char>::empty());
            assert(one_c.last() == s@[i as int]);
            assert(escape_text(one_c) == escape_text(one_c.drop_last()) + escape_text_char(one_c.last()));
            assert(escape_text(Seq::<char>::empty()) == Seq::<char>::empty());
        }
        push_chars(&mut out, e.as_slice());
        assert(out@ + inline_from(s@, i + 1) =~= before + inline_from(s@, i as int));
        i = i + 1;
    }
    assert(out@ =~= inline(s@));
    out
}

/// The heading level and text of a heading line.
fn heading(line: &[char]) -> (r: Option<(usize, Vec<char>)>)
    ensures
        match r {
            Some((l, rest)) => heading_of(line@) == Some((l as int, rest@)),
            None => heading_of(line@) is None,
        },
{
    let mut a: usize = 0;
    while a < line.len() && is_whitespace(line[a])
        invariant
            a <= line.len(),
            forall|k: int| 0 <= k < a ==> is_ws(line@[k]),
        decreases line.len() - a,
    {
        a = a + 1;
    }
    proof {
        crate::text::lemma_trim_start_skip(line@, a as int);
    }
    let t = sub_chars(line, a, line.len());
    assert(trim_start(line@) == t@) by {
        assert(line@.subrange(a as int, line@.len() as int) =~= t@);
        if t@.len() > 0 {
            assert(!is_ws(t@[0]));
        }
    }
    let mut l: usize = 0;
    assert(t@.skip(0) =~= t@);
    while l < t.len() && t[l] == '#'
        invariant
            l <= t.len(),
            hashes(t@) == l + hashes(t@.skip(l as int)),
        decreases t.len() - l,
    {
        assert(t@.skip(l as int).drop_first() =~= t@.skip(l + 1));
        l = l + 1;
    }
    proof {
        assert(t@.skip(0) =~= t@);
    }
    assert(hashes(t@) == l);
    if 1 <= l && l <= 4 && l < t.len() && t[l] == ' ' {
        let rest = sub_chars(t.as_slice(), l + 1, t.len());
        assert(rest@ =~= t@.skip(l + 1));
        Some((l + 1, rest))
    } else {
        None
    }
}

/// `line` without its trailing whitespace.
fn trim_end_of(line: &[char]) -> (t: Vec<char>)
    ensures
        t@ == trim_end(line@),
{
    let mut b: usize = line.len();
    while b > 0 && is_whitespace(line[b - 1])
        invariant
            b <= line.len(),
            forall|k: int| b <= k < line.len() ==> is_ws(line@[k]),
        decreases b,
    {
        b = b - 1;
    }
    proof {
        crate::text::lemma_trim_end_skip(line@, b as int);
    }
    let t = sub_chars(line, 0, b);
    proof {
        let u = line@.subrange(0, b as int);
        assert(u =~= t@);
        if u.len() > 0 {
            assert(!is_ws(u.last()));
        }
    }
    t
}

fn is_list_start(t: &[char]) -> (b: bool)
    ensures
        b == (t@.len() >= 2 && (t@[0] == '-' || t@[0] == '*') && t@[1] == ' '),
{
    t.len() >= 2 && (t[0] == '-' || t[0] == '*') && t[1] == ' '
}

proof fn lemma_joined_step(ls: Seq<Seq<char>>, k: int, n: int)
    requires
        n >= 0,
    ensures
        joined(ls, k, n + 1) == joined(ls, k, n) + " "@ + trim_end(ls[k + n]),
{
}

/// Renders the paragraph starting at line `k` (trimmed `t`) and the lines that continue it;
/// returns the line after it.
fn render_paragraph(ls: &Vec<Vec<char>>, k: usize, t: &Vec<char>, out: &mut Vec<char>) -> (next: usize)
    requires
        k < ls.len(),
        t@ == trim_end(ls@[k as int]@),
    ensures
        k < next <= ls.len(),
        next == k + 1 + paragraph_len(ls@.map_values(|l: Vec<char>| l@), k + 1),
        final(out)@ == old(out)@ + "<p>"@ + inline(t@ + joined(ls@.map_values(|l: Vec<char>| l@), k + 1, next - (k + 1)))
            + "</p>"@,
{
    let ghost lv = ls@.map_values(|l: Vec<char>| l@);
    let mut para: Vec<char> = Vec::new();
    push_chars(&mut para, t.as_slice());
    let ghost tv = t@;
    let mut j: usize = k + 1;
    while j < ls.len()
        invariant_except_break
            paragraph_len(lv, k + 1) == (j - (k + 1)) + paragraph_len(lv, j as int),
        invariant
            k + 1 <= j <= ls.len(),
            lv == ls@.map_values(|l: Vec<char>| l@),
            para@ == tv + joined(lv, k + 1, j - (k + 1)),
        ensures
            paragraph_len(lv, k + 1) == j - (k + 1),
        decreases ls.len() - j,
    {
        assert(lv[j as int] == ls@[j as int]@);
        let pt = trim_end_of(ls[j].as_slice());
        let is_heading = heading(pt.as_slice()).is_some();
        if pt.len() == 0 || is_heading || is_list_start(pt.as_slice()) {
            assert(!continues_paragraph(trim_end(lv[j as int])));
            break;
        }
        push_str(&mut para, " ");
        push_chars(&mut para, pt.as_slice());
        proof {
            lemma_joined_step(lv, k + 1, j - (k + 1));
        }
        assert(para@ =~= tv + joined(lv, k + 1, j + 1 - (k + 1)));
        j = j + 1;
    }
    push_str(out, "<p>");
    let inner = render_inline(para.as_slice());
    push_chars(out, inner.as_slice());
    push_str(out, "</p>");
    j
}

/// Renders the block starting at line `k`; returns the next line and whether a list is open.
fn render_block(ls: &Vec<Vec<char>>, k: usize, in_list: bool, out: &mut Vec<char>) -> (r: (usize, bool))
    requires
        k < ls.len(),
    ensures
        k < r.0 <= ls.len(),
        final(out)@ + blocks_from(ls@.map_values(|l: Vec<char>| l@), r.0 as int, r.1) == old(out)@ + blocks_from(
            ls@.map_values(|l: Vec<char>| l@),
            k as int,
            in_list,
        ),
{
    let ghost lv = ls@.map_values(|l: Vec<char>| l@);
    let ghost before = out@;
    assert(lv[k as int] == ls@[k as int]@);
    let t = trim_end_of(ls[k].as_slice());
    if t.len() == 0 {
        if in_list {
            push_str(out, "</ul>");
        }
        proof {
            lemma_blocks_blank(lv, k as int, in_list);
        }
        assert(out@ + blocks_from(lv, k + 1, false) =~= before + blocks_from(lv, k as int, in_list));
        return (k + 1, false);
    }
    if let Some((level, rest)) = heading(t.as_slice()) {
        proof {
            lemma_blocks_heading(lv, k as int, in_list, level as int, rest@);
        }
        if in_list {
            push_str(out, "</ul>");
        }
        push_str(out, "<h");
        push_decimal(out, level as u64);
        push_str(out, ">");
        let inner = render_inline(rest.as_slice());
        push_chars(out, inner.as_slice());
        push_str(out, "</h");
        push_decimal(out, level as u64);
        push_str(out, ">");
        assert(out@ + blocks_from(lv, k + 1, false) =~= before + blocks_from(lv, k as int, in_list));
        return (k + 1, false);
    }
    if is_list_start(t.as_slice()) {
        proof {
            lemma_blocks_item(lv, k as int, in_list);
        }
        if !in_list {
            push_str(out, "<ul>");
        }
        push_str(out, "<li>");
        let rest = sub_chars(t.as_slice(), 2, t.len());
        assert(rest@ =~= t@.skip(2));
        let inner = render_inline(rest.as_slice());
        push_chars(out, inner.as_slice());
        push_str(out, "</li>");
        assert(out@ + blocks_from(lv, k + 1, true) =~= before + blocks_from(lv, k as int, in_list));
        return (k + 1, true);
    }
    if in_list {
        push_str(out, "</ul>");
    }
    let ghost mid = out@;
    let next = render_paragraph(ls, k, &t, out);
    proof {
        lemma_paragraph_len(lv, k + 1);
        lemma_blocks_paragraph(lv, k as int, in_list);
    }
    assert(out@ + blocks_from(lv, next as int, false) =~= before + blocks_from(lv, k as int, in_list));
    (next, false)
}

/// Renders markdown as HTML.
pub fn render(src: &str) -> (html: String)
    ensures
        html@ == markdown(src@),
{
    let chars = chars_of(src);
    let ls = lines_of(chars.as_slice());
    let ghost lv = ls@.map_values(|l: Vec<char>| l@);
    let mut out: Vec<char> = Vec::new();
    let mut in_list = false;
    let mut k: usize = 0;
    while k < ls.len()
        invariant
            k <= ls.len(),
            lv == ls@.map_values(|l: Vec<char>| l@),
            lv == lines(src@),
            out@ + blocks_from(lv, k as int, in_list) == markdown(src@),
        decreases ls.len() - k,
    {
        let (next, open) = render_block(&ls, k, in_list, &mut out);
        k = next;
        in_list = open;
    }
    proof {
        lemma_blocks_end(lv, in_list);
    }
    if in_list {
        push_str(&mut out, "</ul>");
    }
    assert(out@ =~= markdown(src@));
    string_from_chars(out.as_slice())
}

/// A line (trimmed at its end) that starts with `- ` or `* `.
pub open spec fn is_bullet_line(t: Seq<char>) -> bool {
    t.len() >= 2 && (t[0] == '-' || t[0] == '*') && t[1] == ' '
}

/// A line that starts (after leading whitespace) with one to four `#` and a space.
pub open spec fn is_heading_line(t: Seq<char>) -> bool {
    let u = trim_start(t);
    exists|l: int| 1 <= l <= 4 && l < u.len() && u[l] == ' ' && forall|q: int| 0 <= q < l ==> #[trigger] u[q] == '#'
}

proof fn lemma_hashes(u: Seq<char>, l: int)
    requires
        0 <= l < u.len(),
        u[l] != '#',
        forall|q: int| 0 <= q < l ==> #[trigger] u[q] == '#',
    ensures
        hashes(u) == l,
    decreases l,
{
    if l > 0 {
        assert forall|q: int| 0 <= q < l - 1 implies #[trigger] u.drop_first()[q] == '#' by {
            assert(u.drop_first()[q] == u[q + 1]);
        }
        lemma_hashes(u.drop_first(), l - 1);
    }
}

proof fn lemma_hashes_prefix(u: Seq<char>)
    ensures
        0 <= hashes(u) <= u.len(),
        forall|q: int| 0 <= q < hashes(u) ==> #[trigger] u[q] == '#',
    decreases u.len(),
{
    if u.len() > 0 && u[0] == '#' {
        lemma_hashes_prefix(u.drop_first());
        assert forall|q: int| 0 <= q < hashes(u) implies #[trigger] u[q] == '#' by {
            if q > 0 {
                assert(u[q] == u.drop_first()[q - 1]);
            }
        }
    }
}

/// The line shapes the renderer recognises.
proof fn lemma_line_kinds(t: Seq<char>)
    ensures
        is_heading_line(t) ==> heading_of(t) is Some,
        is_bullet_line(t) ==> list_item(t) is Some && heading_of(t) is None,
        is_heading_line(t) || is_bullet_line(t) ==> t.len() > 0 && !continues_paragraph(t),
        heading_of(t) is Some ==> is_heading_line(t),
        list_item(t) is Some ==> is_bullet_line(t),
        t.len() > 0 && !is_heading_line(t) && !is_bullet_line(t) ==> continues_paragraph(t),
{
    let u = trim_start(t);
    lemma_hashes_prefix(u);
    if heading_of(t) is Some {
        let l = hashes(u);
        assert(forall|q: int| 0 <= q < l ==> #[trigger] u[q] == '#');
    }
    if is_heading_line(t) {
        let l = choose|l: int| 1 <= l <= 4 && l < u.len() && u[l] == ' ' && forall|q: int| 0 <= q < l ==> #[trigger] u[q] == '#';
        lemma_hashes(u, l);
        if t.len() == 0 {
            assert(u.len() == 0);
        }
    }
    if is_bullet_line(t) {
        assert(u == t);
        assert(hashes(u) == 0);
    }
}

proof fn lemma_paragraph_len_shift(la: Seq<Seq<char>>, lb: Seq<Seq<char>>, j: int)
    requires
        0 <= j,
    ensures
        paragraph_len(la + lb, la.len() + j) == paragraph_len(lb, j),
    decreases lb.len() - j,
{
    if j < lb.len() {
        assert((la + lb)[la.len() + j] == lb[j]);
        lemma_paragraph_len_shift(la, lb, j + 1);
    }
}

proof fn lemma_joined_shift(la: Seq<Seq<char>>, lb: Seq<Seq<char>>, j: int, n: int)
    requires
        0 <= j,
        0 <= n,
        j + n <= lb.len(),
    ensures
        joined(la + lb, la.len() + j, n) == joined(lb, j, n),
    decreases n,
{
    if n > 0 {
        lemma_joined_shift(la, lb, j, n - 1);
        assert((la + lb)[la.len() + j + n - 1] == lb[j + n - 1]);
    }
}

/// The rendering of the lines after `la` does not depend on `la`.
proof fn lemma_blocks_shift(la: Seq<Seq<char>>, lb: Seq<Seq<char>>, j: int, s: bool)
    requires
        0 <= j,
    ensures
        blocks_from(la + lb, la.len() + j, s) == blocks_from(lb, j, s),
    decreases lb.len() - j,
{
    reveal(blocks_from);
    if j < lb.len() {
        assert((la + lb)[la.len() + j] == lb[j]);
        let t = trim_end(lb[j]);
        lemma_blocks_shift(la, lb, j + 1, false);
        lemma_blocks_shift(la, lb, j + 1, true);
        if t.len() > 0 && heading_of(t) is None && list_item(t) is None {
            lemma_paragraph_len(lb, j + 1);
            lemma_paragraph_len_shift(la, lb, j + 1);
            let n = paragraph_len(lb, j + 1);
            lemma_joined_shift(la, lb, j + 1, n);
            lemma_blocks_shift(la, lb, j + 1 + n, false);
        }
    }
}

proof fn lemma_paragraph_len_prefix(la: Seq<Seq<char>>, lb: Seq<Seq<char>>, j: int)
    requires
        0 <= j <= la.len(),
        lb.len() > 0,
        !continues_paragraph(trim_end(lb[0])),
    ensures
        paragraph_len(la + lb, j) == paragraph_len(la, j),
    decreases la.len() - j,
{
    if j < la.len() {
        assert((la + lb)[j] == la[j]);
        lemma_paragraph_len_prefix(la, lb, j + 1);
    } else {
        assert((la + lb)[j] == lb[0]);
    }
}

proof fn lemma_joined_prefix(la: Seq<Seq<char>>, lb: Seq<Seq<char>>, k: int, n: int)
    requires
        0 <= k,
        0 <= n,
        k + n <= la.len(),
    ensures
        joined(la + lb, k, n) == joined(la, k, n),
    decreases n,
{
    if n > 0 {
        lemma_joined_prefix(la, lb, k, n - 1);
        assert((la + lb)[k + n - 1] == la[k + n - 1]);
    }
}

proof fn lemma_blocks_concat_base(la: Seq<Seq<char>>, lb: Seq<Seq<char>>, s: bool)
    requires
        lb.len() > 0,
        trim_end(lb[0]).len() == 0 || is_heading_line(trim_end(lb[0])) || (is_bullet_line(trim_end(lb[0])) && !s),
    ensures
        blocks_from(la + lb, la.len() as int, s) == blocks_from(la, la.len() as int, s) + blocks_from(lb, 0, false),
{
    let ls = la + lb;
    let i = la.len() as int;
    let t0 = trim_end(lb[0]);
    lemma_line_kinds(t0);
    assert(ls[i] == lb[0]);
    lemma_blocks_shift(la, lb, 1, false);
    lemma_blocks_shift(la, lb, 1, true);
    lemma_blocks_end(la, s);
    assert(close_list(false) == Seq::<char>::empty());
    if t0.len() == 0 {
        lemma_blocks_blank(ls, i, s);
        lemma_blocks_blank(lb, 0, false);
        assert(blocks_from(ls, i, s) =~= close_list(s) + blocks_from(lb, 0, false));
    } else if heading_of(t0) is Some {
        let (level, rest) = heading_of(t0)->0;
        lemma_blocks_heading(ls, i, s, level, rest);
        lemma_blocks_heading(lb, 0, false, level, rest);
        assert(blocks_from(ls, i, s) =~= close_list(s) + blocks_from(lb, 0, false));
    } else {
        lemma_blocks_item(ls, i, s);
        lemma_blocks_item(lb, 0, false);
        assert(blocks_from(ls, i, s) =~= close_list(s) + blocks_from(lb, 0, false));
    }
}

/// Lines that start a block of their own (a heading, or a bullet when no list is open) end
/// what comes before them: the rendering splits there.
proof fn lemma_blocks_concat(la: Seq<Seq<char>>, lb: Seq<Seq<char>>, i: int, s: bool)
    requires
        0 <= i <= la.len(),
        lb.len() > 0,
        trim_end(lb[0]).len() == 0 || is_heading_line(trim_end(lb[0])) || (is_bullet_line(trim_end(lb[0])) && (la.len()
            == 0 || !is_bullet_line(trim_end(la.last()))) && (i == la.len() ==> !s)),
    ensures
        blocks_from(la + lb, i, s) == blocks_from(la, i, s) + blocks_from(lb, 0, false),
    decreases la.len() - i,
{
    let ls = la + lb;
    let t0 = trim_end(lb[0]);
    lemma_line_kinds(t0);
    assert(!continues_paragraph(t0));
    if i == la.len() {
        lemma_blocks_concat_base(la, lb, s);
    } else {
        assert(ls[i] == la[i]);
        let t = trim_end(la[i]);
        let rb = blocks_from(lb, 0, false);
        if t.len() == 0 {
            lemma_blocks_blank(la, i, s);
            lemma_blocks_blank(ls, i, s);
            lemma_blocks_concat(la, lb, i + 1, false);
            assert(blocks_from(ls, i, s) =~= blocks_from(la, i, s) + rb);
        } else if heading_of(t) is Some {
            let (level, rest) = heading_of(t)->0;
            lemma_blocks_heading(la, i, s, level, rest);
            lemma_blocks_heading(ls, i, s, level, rest);
            lemma_blocks_concat(la, lb, i + 1, false);
            assert(blocks_from(ls, i, s) =~= blocks_from(la, i, s) + rb);
        } else if list_item(t) is Some {
            if i + 1 == la.len() {
                assert(la.last() == la[i]);
                lemma_line_kinds(t);
            }
            lemma_blocks_item(la, i, s);
            lemma_blocks_item(ls, i, s);
            lemma_blocks_concat(la, lb, i + 1, true);
            assert(blocks_from(ls, i, s) =~= blocks_from(la, i, s) + rb);
        } else {
            lemma_paragraph_len(la, i + 1);
            lemma_paragraph_len_prefix(la, lb, i + 1);
            let n = paragraph_len(la, i + 1);
            lemma_joined_prefix(la, lb, i + 1, n);
            lemma_blocks_paragraph(la, i, s);
            lemma_blocks_paragraph(ls, i, s);
            lemma_blocks_concat(la, lb, i + 1 + n, false);
            assert(blocks_from(ls, i, s) =~= blocks_from(la, i, s) + rb);
        }
    }
}

/// Lines of text joined by a newline: the lines of each.
proof fn lemma_lines_concat(a: Seq<char>, b: Seq<char>)
    requires
        a.len() > 0,
        a.last() != '\n',
        a.last() != '\r',
    ensures
        lines(a + seq!['\n'] + b) == lines(a) + lines(b),
        lines(a).len() > 0,
    decreases a.len(),
{
    let i = find_char(a, '\n');
    lemma_find_char_bounds(a, '\n');
    if i < a.len() {
        let a0 = a.take(i);
        let a1 = a.skip(i + 1);
        assert(a =~= a0 + seq!['\n'] + a1);
        assert(a1.len() > 0 && a1.last() == a.last());
        lemma_lines_step(a0, a1);
        lemma_lines_concat(a1, b);
        lemma_lines_step(a0, a1 + seq!['\n'] + b);
        assert(a0 + seq!['\n'] + (a1 + seq!['\n'] + b) =~= a + seq!['\n'] + b);
        assert(seq![strip_cr(a0)] + (lines(a1) + lines(b)) =~= seq![strip_cr(a0)] + lines(a1) + lines(b));
    } else {
        lemma_lines_step(a, b);
        assert(strip_cr(a) == a);
    }
}

/// A heading line, or a bullet line after a line that is not one, starts a block of its own:
/// the text before it renders as it would alone, and no paragraph swallows the line. So a
/// heading always becomes a heading element and a bullet an item of a list, also right after
/// a paragraph line.
pub proof fn lemma_markdown_split(a: Seq<char>, b: Seq<char>)
    requires
        a.len() > 0,
        a.last() != '\n',
        a.last() != '\r',
        b.len() > 0,
        is_heading_line(trim_end(lines(b)[0])) || (is_bullet_line(trim_end(lines(b)[0])) && !is_bullet_line(
            trim_end(lines(a).last()),
        )),
    ensures
        markdown(a + seq!['\n'] + b) == markdown(a) + markdown(b),
{
    lemma_lines_concat(a, b);
    let lb = lines(b);
    if lb.len() == 0 {
        assert(lb[0] == lb[0]);
    }
    lemma_lines_nonempty(b);
    lemma_blocks_concat(lines(a), lines(b), 0, false);
}

proof fn lemma_lines_nonempty(b: Seq<char>)
    requires
        b.len() > 0,
    ensures
        lines(b).len() > 0,
{
    let i = find_char(b, '\n');
    lemma_find_char_bounds(b, '\n');
}

/// A bullet line alone renders as a list of one item holding its text.
pub proof fn lemma_markdown_bullet(c: char, x: Seq<char>)
    requires
        c == '-' || c == '*',
        forall|k: int| 0 <= k < x.len() ==> #[trigger] x[k] != '\n',
        trim_end(x).len() > 0,
    ensures
        markdown(seq![c, ' '] + x) == "<ul>"@ + "<li>"@ + inline(trim_end(x)) + "</li>"@ + "</ul>"@,
{
    reveal(blocks_from);
    let line = seq![c, ' '] + x;
    lemma_lines_step(line, Seq::empty());
    assert forall|k: int| 0 <= k < line.len() implies line[k] != '\n' by {
        if k >= 2 {
            assert(line[k] == x[k - 2]);
        }
    }
    let t = trim_end(line);
    lemma_trim_end_concat(seq![c, ' '], x);
    assert(t == seq![c, ' '] + trim_end(x));
    assert(is_bullet_line(t));
    lemma_line_kinds(t);
    assert(t.skip(2) =~= trim_end(x));
    let ls = lines(line);
    assert(ls == seq![line]);
    assert(blocks_from(ls, 1, true) == close_list(true));
    assert(markdown(line) =~= "<ul>"@ + "<li>"@ + inline(trim_end(x)) + "</li>"@ + "</ul>"@);
}

proof fn lemma_trim_end_concat(a: Seq<char>, x: Seq<char>)
    requires
        trim_end(x).len() > 0,
    ensures
        trim_end(a + x) == a + trim_end(x),
    decreases x.len(),
{
    if x.len() > 0 && is_ws(x.last()) {
        assert((a + x).drop_last() =~= a + x.drop_last());
        lemma_trim_end_concat(a, x.drop_last());
    } else {
        assert((a + x).last() == x.last());
    }
}

/// A heading line alone (`l` times `#`, a space, the title) renders as a heading of level
/// `l + 1` holding its title.
pub proof fn lemma_markdown_heading(l: int, x: Seq<char>)
    requires
        1 <= l <= 4,
        forall|k: int| 0 <= k < x.len() ==> #[trigger] x[k] != '\n',
        trim_end(x).len() > 0,
    ensures
        markdown(Seq::new(l as nat, |q: int| '#') + seq![' '] + x) == "<h"@ + dec((l + 1) as nat) + ">"@ + inline(
            trim_end(x),
        ) + "</h"@ + dec((l + 1) as nat) + ">"@,
{
    reveal(blocks_from);
    let h = Seq::new(l as nat, |q: int| '#') + seq![' '];
    let line = h + x;
    assert forall|k: int| 0 <= k < line.len() implies line[k] != '\n' by {
        if k > l {
            assert(line[k] == x[k - l - 1]);
        }
    }
    lemma_lines_step(line, Seq::empty());
    let t = trim_end(line);
    lemma_trim_end_concat(h, x);
    assert(trim_start(t) == t);
    assert(t[l] == ' ');
    lemma_hashes(t, l);
    assert(t.skip(l + 1) =~= trim_end(x));
    let ls = lines(line);
    assert(ls == seq![line]);
    assert(blocks_from(ls, 1, false) == close_list(false));
    assert(markdown(line) =~= "<h"@ + dec((l + 1) as nat) + ">"@ + inline(trim_end(x)) + "</h"@ + dec((l + 1) as nat)
        + ">"@);
}

/// A blank line ends every block: the text before it and the text after it render as they
/// would alone.
pub proof fn lemma_markdown_blank_line(a: Seq<char>, b: Seq<char>)
    requires
        a.len() > 0,
        a.last() != '\n',
        a.last() != '\r',
    ensures
        markdown(a + seq!['\n', '\n'] + b) == markdown(a) + markdown(b),
{
    let nb = seq!['\n'] + b;
    assert(a + seq!['\n', '\n'] + b =~= a + seq!['\n'] + nb);
    lemma_lines_concat(a, nb);
    lemma_lines_step(Seq::<char>::empty(), b);
    assert(Seq::<char>::empty() + seq!['\n'] + b =~= nb);
    let e = Seq::<char>::empty();
    assert(strip_cr(e) == e);
    let lb = seq![e] + lines(b);
    assert(lines(nb) == lb);
    assert(trim_end(lb[0]).len() == 0);
    lemma_blocks_concat(lines(a), lb, 0, false);
    lemma_blocks_blank(lb, 0, false);
    lemma_blocks_shift(seq![e], lines(b), 0, false);
    assert(close_list(false) + blocks_from(lb, 1, false) =~= blocks_from(lines(b), 0, false));
}

/// Two lines that are neither blank, nor headings, nor bullets form one paragraph: their texts
/// joined by a space.
pub proof fn lemma_markdown_paragraph(x: Seq<char>, y: Seq<char>)
    requires
        forall|k: int| 0 <= k < x.len() ==> #[trigger] x[k] != '\n',
        forall|k: int| 0 <= k < y.len() ==> #[trigger] y[k] != '\n',
        trim_end(x).len() > 0,
        trim_end(y).len() > 0,
        x.last() != '\r',
        !is_heading_line(trim_end(x)) && !is_bullet_line(trim_end(x)),
        !is_heading_line(trim_end(y)) && !is_bullet_line(trim_end(y)),
    ensures
        markdown(x + seq!['\n'] + y) == "<p>"@ + inline(trim_end(x) + " "@ + trim_end(y)) + "</p>"@,
{
    lemma_lines_step(x, y);
    lemma_lines_step(y, Seq::empty());
    assert(y + seq!['\n'] + Seq::<char>::empty() =~= y + seq!['\n']);
    lemma_lines_nonempty(y);
    let ls = seq![x, y];
    assert(strip_cr(x) == x);
    lemma_y_line(y);
    assert(lines(x + seq!['\n'] + y) == ls);
    lemma_line_kinds(trim_end(x));
    lemma_line_kinds(trim_end(y));
    lemma_blocks_paragraph(ls, 0, false);
    assert(paragraph_len(ls, 2) == 0);
    assert(paragraph_len(ls, 1) == 1);
    assert(joined(ls, 1, 0) == Seq::<char>::empty());
    assert(joined(ls, 1, 1) == Seq::<char>::empty() + " "@ + trim_end(y));
    lemma_blocks_end(ls, false);
    assert(ls[0] == x);
    assert(trim_end(ls[0]) + joined(ls, 1, paragraph_len(ls, 1)) =~= trim_end(x) + " "@ + trim_end(y));
    assert(blocks_from(ls, 2, false) == Seq::<char>::empty());
    assert(close_list(false) == Seq::<char>::empty());
    assert(markdown(x + seq!['\n'] + y) =~= "<p>"@ + inline(trim_end(x) + " "@ + trim_end(y)) + "</p>"@);
}

proof fn lemma_y_line(y: Seq<char>)
    requires
        forall|k: int| 0 <= k < y.len() ==> #[trigger] y[k] != '\n',
        y.len() > 0,
    ensures
        lines(y) == seq![y],
{
    lemma_lines_step(y, Seq::empty());
}

} // verus!
