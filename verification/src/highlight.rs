//! Syntax highlighting, as HTML, of the editor text and of mail templates.
use vstd::prelude::*;
use crate::markdown::{escape, escape_text, find_from, lemma_find_from};
use crate::templates::{scan_template, scan, span_view, spans_consistent, is_known, TemplateSpan};
use crate::text::{
    chars_of, string_from_chars, push_str, push_chars, trim, trim_chars, find_char, find_in, lemma_find_char_bounds,
    is_ws, trim_start, trim_end,
};
use crate::editor::lemma_trim_end_shape;

verus! {

/// The pieces of `s` between newlines (`str::split('\n')`).
pub open spec fn split_lines(s: Seq<char>) -> Seq<Seq<char>>
    decreases s.len(),
{
    let i = find_char(s, '\n');
    if i < s.len() {
        proof {
            lemma_find_char_bounds(s, '\n');
        }
        seq![s.take(i)] + split_lines(s.skip(i + 1))
    } else {
        seq![s]
    }
}

pub open spec fn is_ascii_digit(c: char) -> bool {
    '0' <= c && c <= '9'
}

/// Number of ASCII digits from position `i` on.
pub open spec fn digits_from(s: Seq<char>, i: int) -> int
    decreases s.len() - i,
{
    if 0 <= i < s.len() && is_ascii_digit(s[i]) {
        1 + digits_from(s, i + 1)
    } else {
        0
    }
}

pub proof fn lemma_digits_from(s: Seq<char>, i: int)
    requires
        0 <= i,
    ensures
        0 <= digits_from(s, i),
        i + digits_from(s, i) <= s.len() || digits_from(s, i) == 0,
        0 <= i < s.len() && is_ascii_digit(s[i]) ==> digits_from(s, i) >= 1,
    decreases s.len() - i,
{
    if 0 <= i < s.len() && is_ascii_digit(s[i]) {
        lemma_digits_from(s, i + 1);
    }
}

/// `s` in a span of the given class.
pub open spec fn span_of(class: Seq<char>, s: Seq<char>) -> Seq<char> {
    "<span class=\""@ + class + "\">"@ + escape_text(s) + "</span>"@
}

/// The highlighting of a data line from position `i`: quoted strings, numbers, and a
/// comment running to the end of the line.
pub open spec fn data_line_from(s: Seq<char>, i: int) -> Seq<char>
    decreases s.len() - i,
{
    if i < 0 || i >= s.len() {
        Seq::empty()
    } else if s[i] == '"' && find_from(s, i + 1, '"') is Some {
        proof {
            lemma_find_from(s, i + 1, '"');
        }
        let end = find_from(s, i + 1, '"')->0;
        span_of("hl-string"@, s.subrange(i, end + 1)) + data_line_from(s, end + 1)
    } else if s[i] == '%' || s[i] == '#' {
        span_of("hl-comment"@, s.skip(i))
    } else if is_ascii_digit(s[i]) {
        proof {
            lemma_digits_from(s, i);
        }
        let n = digits_from(s, i);
        span_of("hl-number"@, s.subrange(i, i + n)) + data_line_from(s, i + n)
    } else {
        escape_text(seq![s[i]]) + data_line_from(s, i + 1)
    }
}

/// The highlighting of one line of the editor text.
pub open spec fn highlighted_line(line: Seq<char>) -> Seq<char> {
    let t = trim(line);
    if t.len() > 0 && (t[0] == '%' || t[0] == '#') {
        span_of("hl-comment"@, line)
    } else if t.len() > 0 && t[0] == '[' {
        span_of("hl-section"@, line)
    } else {
        data_line_from(line, 0)
    }
}

/// The highlighted lines, separated by newlines.
pub open spec fn joined_lines(ls: Seq<Seq<char>>) -> Seq<char>
    decreases ls.len(),
{
    if ls.len() == 0 {
        Seq::empty()
    } else if ls.len() == 1 {
        highlighted_line(ls[0])
    } else {
        joined_lines(ls.drop_last()) + "\n"@ + highlighted_line(ls.last())
    }
}

fn push_span(out: &mut Vec<char>, class: &str, s: &[char])
    ensures
        final(out)@ == old(out)@ + span_of(class@, s@),
{
    push_str(out, "<span class=\"");
    push_str(out, class);
    push_str(out, "\">");
    let e = escape(s);
    push_chars(out, e.as_slice());
    push_str(out, "</span>");
    assert(out@ =~= old(out)@ + span_of(class@, s@));
}

/// `s[a..b]` as a new vector.
fn part(s: &[char], a: usize, b: usize) -> (r: Vec<char>)
    requires
        a <= b <= s.len(),
    ensures
        r@ == s@.subrange(a as int, b as int),
{
    let mut r: Vec<char> = Vec::new();
    let mut i: usize = a;
    while i < b
        invariant
            a <= i <= b <= s.len(),
            r@ == s@.subrange(a as int, i as int),
        decreases b - i,
    {
        r.push(s[i]);
        i = i + 1;
        assert(r@ =~= s@.subrange(a as int, i as int));
    }
    r
}

/// Highlights a data line: quoted strings, numbers and a trailing comment.
fn highlight_data_line(html: &mut Vec<char>, line: &[char])
    ensures
        final(html)@ == old(html)@ + data_line_from(line@, 0),
{
    let s = line;
    let ghost start = html@;
    let mut i: usize = 0;
    while i < s.len()
        invariant_except_break
            html@ + data_line_from(s@, i as int) == start + data_line_from(s@, 0),
        invariant
            i <= s.len(),
        ensures
            html@ == start + data_line_from(s@, 0),
        decreases s.len() - i,
    {
        let ghost before = html@;
        let c = s[i];
        if c == '"' {
            let mut j: usize = i + 1;
            let mut found = false;
            while j < s.len()
                invariant_except_break
                    i + 1 <= j <= s.len(),
                    !found,
                    find_from(s@, i + 1, '"') == find_from(s@, j as int, '"'),
                invariant
                    i < s.len(),
                ensures
                    found ==> i + 1 <= j < s.len() && find_from(s@, i + 1, '"') == Some(j as int),
                    !found ==> find_from(s@, i + 1, '"') is None,
                decreases s.len() - j,
            {
                if s[j] == '"' {
                    found = true;
                    break;
                }
                j = j + 1;
            }
            if found {
                let quoted = part(s, i, j + 1);
                push_span(html, "hl-string", quoted.as_slice());
                assert(html@ + data_line_from(s@, j + 1) =~= before + data_line_from(s@, i as int));
                i = j + 1;
                continue;
            }
        }
        if c == '%' || c == '#' {
            let rest = part(s, i, s.len());
            assert(rest@ =~= s@.skip(i as int));
            push_span(html, "hl-comment", rest.as_slice());
            assert(html@ =~= before + data_line_from(s@, i as int));
            assert(data_line_from(s@, s.len() as int) == Seq::<char>::empty());
            break;
        }
        if '0' <= c && c <= '9' {
            let mut k: usize = i;
            while k < s.len() && '0' <= s[k] && s[k] <= '9'
                invariant
                    i <= k <= s.len(),
                    digits_from(s@, i as int) == (k - i) + digits_from(s@, k as int),
                decreases s.len() - k,
            {
                k = k + 1;
            }
            let num = part(s, i, k);
            push_span(html, "hl-number", num.as_slice());
            assert(html@ + data_line_from(s@, k as int) =~= before + data_line_from(s@, i as int));
            i = k;
            continue;
        }
        let one = part(s, i, i + 1);
        assert(one@ =~= seq![s@[i as int]]);
        let e = escape(one.as_slice());
        push_chars(html, e.as_slice());
        assert(html@ + data_line_from(s@, i + 1) =~= before + data_line_from(s@, i as int));
        i = i + 1;
    }
}

fn highlight_line(html: &mut Vec<char>, line: &[char])
    ensures
        final(html)@ == old(html)@ + highlighted_line(line@),
{
    let t = trim_chars(line);
    if t.len() > 0 && (t[0] == '%' || t[0] == '#') {
        push_span(html, "hl-comment", line);
    } else if t.len() > 0 && t[0] == '[' {
        push_span(html, "hl-section", line);
    } else {
        highlight_data_line(html, line);
    }
}

/// Produces highlighted HTML from the editor text: comment lines, section headers, and on
/// data lines quoted strings, numbers and trailing comments.
pub fn highlight(text: &str) -> (html: String)
    ensures
        html@ == joined_lines(split_lines(text@)),
{
    let s = chars_of(text);
    let mut out: Vec<char> = Vec::new();
    let mut i: usize = 0;
    let ghost mut done: Seq<Seq<char>> = Seq::empty();
    assert(s@.skip(0) =~= s@);
    loop
        invariant_except_break
            split_lines(s@) == done + split_lines(s@.skip(i as int)),
            done.len() == 0 ==> out@ == Seq::<char>::empty(),
            done.len() > 0 ==> out@ == joined_lines(done) + "\n"@,
        invariant
            i <= s.len(),
            s@ == text@,
        ensures
            out@ == joined_lines(split_lines(s@)),
        decreases s.len() - i,
    {
        let ghost rest = s@.skip(i as int);
        let mut j: usize = i;
        while j < s.len() && s[j] != '\n'
            invariant
                i <= j <= s.len(),
                forall|k: int| i <= k < j ==> s@[k] != '\n',
            decreases s.len() - j,
        {
            j = j + 1;
        }
        proof {
            crate::text::lemma_find_char(rest, '\n', j - i);
            assert(rest.take(j - i) =~= s@.subrange(i as int, j as int));
        }
        let line = part(s.as_slice(), i, j);
        let ghost before = out@;
        highlight_line(&mut out, line.as_slice());
        proof {
            let d2 = done.push(line@);
            if done.len() > 0 {
                assert(d2.drop_last() =~= done);
                assert(joined_lines(d2) == joined_lines(done) + "\n"@ + highlighted_line(line@));
                assert(out@ =~= joined_lines(d2));
            } else {
                assert(joined_lines(d2) == highlighted_line(line@));
                assert(out@ =~= joined_lines(d2));
            }
        }
        if j < s.len() {
            let ghost joined_before = out@;
            out.push('\n');
            proof {
                reveal_strlit("\n");
            }
            assert(out@ =~= joined_before + "\n"@);
            proof {
                assert(rest.skip(j - i + 1) =~= s@.skip(j + 1));
                assert(split_lines(rest) == seq![line@] + split_lines(s@.skip(j + 1)));
                assert(done + (seq![line@] + split_lines(s@.skip(j + 1))) =~= done.push(line@) + split_lines(
                    s@.skip(j + 1),
                ));
                done = done.push(line@);
            }
            i = j + 1;
        } else {
            proof {
                assert(rest.take(j - i) =~= rest);
                assert(split_lines(rest) == seq![line@]);
                assert(done + seq![line@] =~= done.push(line@));
            }
            break;
        }
    }
    string_from_chars(out.as_slice())
}

/// The highlighting of template spans: known variables in a span, everything escaped.
pub open spec fn template_html(spans: Seq<(bool, Seq<char>)>) -> Seq<char>
    decreases spans.len(),
{
    if spans.len() == 0 {
        Seq::empty()
    } else {
        let sp = spans.last();
        template_html(spans.drop_last()) + if !sp.0 {
            escape_text(sp.1)
        } else if is_known(sp.1) {
            span_of("hl-variable"@, seq!['$'] + sp.1)
        } else {
            escape_text(seq!['$'] + sp.1)
        }
    }
}

/// Produces highlighted HTML for a mail template: known `$name` tokens in a `hl-variable`
/// span, everything else escaped plain text.
pub fn highlight_template(text: &str) -> (html: String)
    ensures
        html@ == template_html(scan(text@, Seq::empty())),
{
    let spans = scan_template(text);
    let ghost sv = spans@.map_values(|t: TemplateSpan| span_view(t));
    let mut out: Vec<char> = Vec::new();
    let mut i: usize = 0;
    while i < spans.len()
        invariant
            i <= spans.len(),
            sv == spans@.map_values(|t: TemplateSpan| span_view(t)),
            spans_consistent(spans@),
            out@ == template_html(sv.take(i as int)),
        decreases spans.len() - i,
    {
        assert(sv.take(i + 1).drop_last() =~= sv.take(i as int));
        assert(sv.take(i + 1).last() == span_view(spans@[i as int]));
        match &spans[i] {
            TemplateSpan::Text(t) => {
                let c = chars_of(t.as_str());
                let e = escape(c.as_slice());
                push_chars(&mut out, e.as_slice());
            },
            TemplateSpan::Var { raw, known, .. } => {
                let c = chars_of(raw.as_str());
                if *known {
                    push_span(&mut out, "hl-variable", c.as_slice());
                } else {
                    let e = escape(c.as_slice());
                    push_chars(&mut out, e.as_slice());
                }
            },
        }
        i = i + 1;
    }
    assert(sv.take(spans.len() as int) =~= sv);
    string_from_chars(out.as_slice())
}

proof fn lemma_find_from_none(s: Seq<char>, j: int, ch: char)
    requires
        0 <= j,
        forall|k: int| j <= k < s.len() ==> #[trigger] s[k] != ch,
    ensures
        find_from(s, j, ch) is None,
    decreases s.len() - j,
{
    if j < s.len() {
        lemma_find_from_none(s, j + 1, ch);
    }
}

/// Looking for `ch` from `j` in `p` followed by `c` finds what looking in `p` finds, when `p`
/// has it from there or `c` does not.
proof fn lemma_find_from_prefix(p: Seq<char>, c: Seq<char>, j: int, ch: char)
    requires
        0 <= j <= p.len(),
        find_from(p, j, ch) is Some || forall|k: int| 0 <= k < c.len() ==> #[trigger] c[k] != ch,
    ensures
        find_from(p + c, j, ch) == find_from(p, j, ch),
    decreases p.len() - j,
{
    if j == p.len() {
        assert forall|k: int| j <= k < (p + c).len() implies #[trigger] (p + c)[k] != ch by {
            assert((p + c)[k] == c[k - j]);
        }
        lemma_find_from_none(p + c, j, ch);
    } else {
        assert((p + c)[j] == p[j]);
        if p[j] != ch {
            lemma_find_from_prefix(p, c, j + 1, ch);
        }
    }
}

proof fn lemma_digits_prefix(p: Seq<char>, c: Seq<char>, j: int)
    requires
        0 <= j <= p.len(),
        c.len() > 0,
        !is_ascii_digit(c[0]),
    ensures
        digits_from(p + c, j) == digits_from(p, j),
    decreases p.len() - j,
{
    if j < p.len() {
        assert((p + c)[j] == p[j]);
        lemma_digits_prefix(p, c, j + 1);
    } else {
        assert((p + c)[j] == c[0]);
    }
}

/// The highlighting of a data line, with a comment after it.
proof fn lemma_data_line_comment(p: Seq<char>, c: Seq<char>, i: int)
    requires
        0 <= i <= p.len(),
        c.len() > 0,
        c[0] == '%' || c[0] == '#',
        forall|k: int| 0 <= k < p.len() ==> #[trigger] p[k] != '%' && p[k] != '#',
        (forall|k: int| 0 <= k < c.len() ==> #[trigger] c[k] != '"') || (forall|k: int| 0 <= k < p.len() ==> #[trigger] p[k]
            != '"'),
    ensures
        data_line_from(p + c, i) == data_line_from(p, i) + span_of("hl-comment"@, c),
    decreases p.len() - i,
{
    let s = p + c;
    let cm = span_of("hl-comment"@, c);
    if i == p.len() {
        assert(s[i] == c[0]);
        assert(s.skip(i) =~= c);
        assert(data_line_from(p, i) + cm =~= cm);
    } else {
        assert(s[i] == p[i]);
        if p[i] == '"' && find_from(p, i + 1, '"') is Some {
            lemma_find_from_prefix(p, c, i + 1, '"');
            lemma_find_from(p, i + 1, '"');
            let end = find_from(p, i + 1, '"')->0;
            lemma_data_line_comment(p, c, end + 1);
            assert(s.subrange(i, end + 1) =~= p.subrange(i, end + 1));
            assert(data_line_from(s, i) =~= data_line_from(p, i) + cm);
        } else if p[i] == '"' {
            assert(!(forall|k: int| 0 <= k < p.len() ==> #[trigger] p[k] != '"'));
            lemma_find_from_prefix(p, c, i + 1, '"');
            lemma_data_line_comment(p, c, i + 1);
            assert(data_line_from(s, i) =~= data_line_from(p, i) + cm);
        } else if is_ascii_digit(p[i]) {
            lemma_digits_prefix(p, c, i);
            lemma_digits_from(p, i);
            let n = digits_from(p, i);
            lemma_data_line_comment(p, c, i + n);
            assert(s.subrange(i, i + n) =~= p.subrange(i, i + n));
            assert(data_line_from(s, i) =~= data_line_from(p, i) + cm);
        } else {
            lemma_data_line_comment(p, c, i + 1);
            assert(data_line_from(s, i) =~= data_line_from(p, i) + cm);
        }
    }
}

proof fn lemma_trim_start_first(s: Seq<char>)
    ensures
        trim_start(s).len() > 0 ==> !is_ws(trim_start(s)[0]),
    decreases s.len(),
{
    if s.len() > 0 && is_ws(s[0]) {
        lemma_trim_start_first(s.drop_first());
    }
}

proof fn lemma_trim_start_concat(p: Seq<char>, c: Seq<char>)
    requires
        trim_start(p).len() > 0,
    ensures
        trim_start(p + c) == trim_start(p) + c,
    decreases p.len(),
{
    if p.len() > 0 && is_ws(p[0]) {
        assert((p + c).drop_first() =~= p.drop_first() + c);
        lemma_trim_start_concat(p.drop_first(), c);
    } else {
        assert((p + c)[0] == p[0]);
    }
}

/// Trimming keeps the first character that is not whitespace.
proof fn lemma_trim_first(u: Seq<char>)
    requires
        u.len() > 0,
        !is_ws(u[0]),
    ensures
        trim_end(u).len() > 0,
        trim_end(u)[0] == u[0],
{
    lemma_trim_end_shape(u);
    if trim_end(u).len() == 0 {
        assert(is_ws(u[0]));
    }
}

/// On a data line (one whose first character that is not whitespace is none of `%`, `#`,
/// `[`), a comment starting with `%` or `#` after text without either is highlighted as one
/// comment span running to the end of the line, and the text before it is highlighted as it
/// would be alone; this holds when a quote of the text cannot reach into the comment (the
/// comment has no `"`, or the text has none).
pub proof fn lemma_highlight_comment(p: Seq<char>, c: Seq<char>)
    requires
        trim(p).len() > 0,
        trim(p)[0] != '[',
        c.len() > 0,
        c[0] == '%' || c[0] == '#',
        forall|k: int| 0 <= k < p.len() ==> #[trigger] p[k] != '%' && p[k] != '#',
        (forall|k: int| 0 <= k < c.len() ==> #[trigger] c[k] != '"') || (forall|k: int| 0 <= k < p.len() ==> #[trigger] p[k]
            != '"'),
    ensures
        highlighted_line(p + c) == highlighted_line(p) + span_of("hl-comment"@, c),
{
    assert(trim_start(p).len() > 0);
    lemma_trim_start_first(p);
    lemma_trim_start_concat(p, c);
    lemma_trim_first(trim_start(p));
    lemma_trim_first(trim_start(p) + c);
    let t = trim(p);
    lemma_trim_end_shape(trim_start(p));
    lemma_trim_start_skip_shape(p);
    assert(t[0] != '%' && t[0] != '#');
    lemma_data_line_comment(p, c, 0);
}

proof fn lemma_trim_start_skip_shape(p: Seq<char>)
    ensures
        forall|k: int| 0 <= k < trim_start(p).len() ==> #[trigger] trim_start(p)[k] == p[k + p.len() - trim_start(p).len()],
        trim_start(p).len() <= p.len(),
    decreases p.len(),
{
    if p.len() > 0 && is_ws(p[0]) {
        lemma_trim_start_skip_shape(p.drop_first());
    }
}

/// A one-line text: a data line followed by a comment, as `lemma_highlight_comment` says.
pub proof fn lemma_highlight_text_comment(p: Seq<char>, c: Seq<char>)
    requires
        trim(p).len() > 0,
        trim(p)[0] != '[',
        c.len() > 0,
        c[0] == '%' || c[0] == '#',
        forall|k: int| 0 <= k < p.len() ==> #[trigger] p[k] != '%' && p[k] != '#' && p[k] != '\n',
        forall|k: int| 0 <= k < c.len() ==> #[trigger] c[k] != '"' && c[k] != '\n',
    ensures
        joined_lines(split_lines(p + c)) == highlighted_line(p) + span_of("hl-comment"@, c),
{
    let s = p + c;
    assert forall|k: int| 0 <= k < s.len() implies s[k] != '\n' by {
        if k >= p.len() {
            assert(s[k] == c[k - p.len()]);
        }
    }
    lemma_find_char_none(s);
    assert(split_lines(s) == seq![s]);
    lemma_highlight_comment(p, c);
}

proof fn lemma_find_char_none(s: Seq<char>)
    requires
        forall|k: int| 0 <= k < s.len() ==> s[k] != '\n',
    ensures
        find_char(s, '\n') == s.len(),
    decreases s.len(),
{
    if s.len() > 0 {
        assert forall|k: int| 0 <= k < s.drop_first().len() implies s.drop_first()[k] != '\n' by {
            assert(s.drop_first()[k] == s[k + 1]);
        }
        lemma_find_char_none(s.drop_first());
    }
}

proof fn lemma_find_from_shift(x: Seq<char>, r: Seq<char>, j: int, ch: char)
    requires
        0 <= j,
    ensures
        find_from(x + r, x.len() + j, ch) == (match find_from(r, j, ch) {
            Some(q) => Some(x.len() + q),
            None => None::<int>,
        }),
    decreases r.len() - j,
{
    if j < r.len() {
        assert((x + r)[x.len() + j] == r[j]);
        lemma_find_from_shift(x, r, j + 1, ch);
    }
}

proof fn lemma_digits_shift(x: Seq<char>, r: Seq<char>, j: int)
    requires
        0 <= j,
    ensures
        digits_from(x + r, x.len() + j) == digits_from(r, j),
    decreases r.len() - j,
{
    if j < r.len() {
        assert((x + r)[x.len() + j] == r[j]);
        lemma_digits_shift(x, r, j + 1);
    }
}

/// The highlighting of what follows `x` does not depend on `x`.
proof fn lemma_data_line_shift(x: Seq<char>, r: Seq<char>, j: int)
    requires
        0 <= j,
    ensures
        data_line_from(x + r, x.len() + j) == data_line_from(r, j),
    decreases r.len() - j,
{
    let s = x + r;
    let i = x.len() + j;
    if j < r.len() {
        assert(s[i] == r[j]);
        lemma_find_from_shift(x, r, j + 1, '"');
        lemma_find_from(r, j + 1, '"');
        if r[j] == '"' && find_from(r, j + 1, '"') is Some {
            let end = find_from(r, j + 1, '"')->0;
            lemma_data_line_shift(x, r, end + 1);
            assert(s.subrange(i, x.len() + end + 1) =~= r.subrange(j, end + 1));
        } else if r[j] == '%' || r[j] == '#' {
            assert(s.skip(i) =~= r.skip(j));
        } else if is_ascii_digit(r[j]) {
            lemma_digits_shift(x, r, j);
            lemma_digits_from(r, j);
            let n = digits_from(r, j);
            lemma_data_line_shift(x, r, j + n);
            assert(s.subrange(i, i + n) =~= r.subrange(j, j + n));
        } else {
            lemma_data_line_shift(x, r, j + 1);
        }
    }
}

/// A quoted string (with no quote inside) at the start of a data line is one string span;
/// the rest of the line is highlighted as it would be alone.
pub proof fn lemma_highlight_string(q: Seq<char>, r: Seq<char>)
    requires
        forall|k: int| 0 <= k < q.len() ==> #[trigger] q[k] != '"',
    ensures
        data_line_from(seq!['"'] + q + seq!['"'] + r, 0) == span_of("hl-string"@, seq!['"'] + q + seq!['"'])
            + data_line_from(r, 0),
{
    let x = seq!['"'] + q + seq!['"'];
    let s = x + r;
    assert forall|k: int| 1 <= k < 1 + q.len() implies s[k] != '"' by {
        assert(s[k] == q[k - 1]);
    }
    assert(s[1 + q.len() as int] == '"');
    lemma_find_from_first(s, 1, 1 + q.len() as int, '"');
    lemma_data_line_shift(x, r, 0);
    assert(s.subrange(0, x.len() as int) =~= x);
}

proof fn lemma_find_from_first(s: Seq<char>, j: int, e: int, ch: char)
    requires
        0 <= j <= e < s.len(),
        s[e] == ch,
        forall|k: int| j <= k < e ==> s[k] != ch,
    ensures
        find_from(s, j, ch) == Some(e),
    decreases e - j,
{
    if j < e {
        lemma_find_from_first(s, j + 1, e, ch);
    }
}

proof fn lemma_digits_exact(s: Seq<char>, j: int, e: int)
    requires
        0 <= j <= e <= s.len(),
        forall|k: int| j <= k < e ==> #[trigger] is_ascii_digit(s[k]),
        e == s.len() || !is_ascii_digit(s[e]),
    ensures
        digits_from(s, j) == e - j,
    decreases e - j,
{
    if j < e {
        lemma_digits_exact(s, j + 1, e);
    }
}

/// A run of digits at the start of a data line, not followed by another digit, is one number
/// span; the rest of the line is highlighted as it would be alone.
pub proof fn lemma_highlight_number(d: Seq<char>, r: Seq<char>)
    requires
        d.len() > 0,
        forall|k: int| 0 <= k < d.len() ==> #[trigger] is_ascii_digit(d[k]),
        r.len() == 0 || !is_ascii_digit(r[0]),
    ensures
        data_line_from(d + r, 0) == span_of("hl-number"@, d) + data_line_from(r, 0),
{
    let s = d + r;
    assert forall|k: int| 0 <= k < d.len() implies #[trigger] is_ascii_digit(s[k]) by {
        assert(s[k] == d[k]);
    }
    if r.len() > 0 {
        assert(s[d.len() as int] == r[0]);
    }
    lemma_digits_exact(s, 0, d.len() as int);
    assert(s[0] == d[0]);
    lemma_data_line_shift(d, r, 0);
    assert(s.subrange(0, d.len() as int) =~= d);
}

} // verus!
