//! What the library writes as HTML is safe to put into a page or a mail: escaped text holds
//! no markup, and in the help pages and the mails' bodies every `<` opens one of the tags
//! the library itself writes, so no markup of the source text gets through.
use vstd::prelude::*;
use crate::markdown::{
    escape_text, escape_text_char, escape_attr_text, escape_attr_char, inline_from, find_double_star, find_from,
    lemma_find_double_star, lemma_find_from, blocks_from, close_list, heading_of, list_item, paragraph_len, joined,
    hashes, markdown, lemma_paragraph_len, lemma_blocks_end, lemma_blocks_blank, lemma_blocks_heading,
    lemma_blocks_item, lemma_blocks_paragraph,
};
use crate::numbers::{dec, digit_char};
use crate::text::{trim_end, trim, find_char, lemma_find_char, lemma_find_char_bounds};
use crate::highlight::{
    split_lines, span_of, data_line_from, highlighted_line, joined_lines, is_ascii_digit, digits_from, lemma_digits_from,
};
use crate::templates::{
    escape_char, escaped, paragraphs, find_blank, lemma_find_blank_bounds, trim_newlines, line_breaks, html_paragraphs,
};

verus! {

/// `t` occurs in `s` at position `i`.
pub open spec fn starts_at(s: Seq<char>, i: int, t: Seq<char>) -> bool {
    0 <= i && i + t.len() <= s.len() && s.subrange(i, i + t.len()) == t
}

/// The tags the renderer writes.
pub open spec fn own_tags() -> Seq<Seq<char>> {
    seq![
        "<h2>"@, "<h3>"@, "<h4>"@, "<h5>"@, "</h2>"@, "</h3>"@, "</h4>"@, "</h5>"@,
        "<p>"@, "</p>"@, "<ul>"@, "</ul>"@, "<li>"@, "</li>"@,
        "<strong>"@, "</strong>"@, "<em>"@, "</em>"@, "<a href=\""@, "</a>"@,
    ]
}

/// Every `<` of `s` opens one of `tags`.
pub open spec fn tags_only(s: Seq<char>, tags: Seq<Seq<char>>) -> bool {
    forall|i: int|
        0 <= i < s.len() && #[trigger] s[i] == '<' ==> exists|t: Seq<char>|
            tags.contains(t) && #[trigger] starts_at(s, i, t)
}

/// Every `<` of `s` opens one of the renderer's tags.
pub open spec fn only_own_tags(s: Seq<char>) -> bool {
    tags_only(s, own_tags())
}

/// `c` occurs nowhere in `s`.
pub open spec fn without(s: Seq<char>, c: char) -> bool {
    forall|i: int| 0 <= i < s.len() ==> #[trigger] s[i] != c
}

proof fn lemma_without_tags(s: Seq<char>, tags: Seq<Seq<char>>)
    requires
        without(s, '<'),
    ensures
        tags_only(s, tags),
{
}

proof fn lemma_concat_tags(a: Seq<char>, b: Seq<char>, tags: Seq<Seq<char>>)
    requires
        tags_only(a, tags),
        tags_only(b, tags),
    ensures
        tags_only(a + b, tags),
{
    let s = a + b;
    assert forall|i: int| 0 <= i < s.len() && #[trigger] s[i] == '<' implies exists|t: Seq<char>|
        tags.contains(t) && #[trigger] starts_at(s, i, t) by {
        if i < a.len() {
            assert(a[i] == '<');
            let t = choose|t: Seq<char>| tags.contains(t) && #[trigger] starts_at(a, i, t);
            assert(s.subrange(i, i + t.len()) =~= a.subrange(i, i + t.len()));
            assert(starts_at(s, i, t));
        } else {
            let j = i - a.len();
            assert(b[j] == '<');
            let t = choose|t: Seq<char>| tags.contains(t) && #[trigger] starts_at(b, j, t);
            assert(s.subrange(i, i + t.len()) =~= b.subrange(j, j + t.len()));
            assert(starts_at(s, i, t));
        }
    }
}

/// The entities that escaping writes.
pub open spec fn entities() -> Seq<Seq<char>> {
    seq!["&amp;"@, "&lt;"@, "&gt;"@, "&quot;"@]
}

/// Every `&` of `s` starts one of the escaping's entities.
pub open spec fn amps_escape(s: Seq<char>) -> bool {
    forall|i: int|
        0 <= i < s.len() && #[trigger] s[i] == '&' ==> exists|t: Seq<char>|
            entities().contains(t) && #[trigger] starts_at(s, i, t)
}

/// `t` ends in `s` at position `i`.
pub open spec fn ends_at(s: Seq<char>, i: int, t: Seq<char>) -> bool {
    0 <= i + 1 - t.len() && i < s.len() && s.subrange(i + 1 - t.len(), i + 1) == t
}

/// The endings of the renderer's tags: each tag but the link's opening, and the `">` that
/// closes the link's opening after its address.
pub open spec fn tag_ends() -> Seq<Seq<char>> {
    seq![
        "<h2>"@, "<h3>"@, "<h4>"@, "<h5>"@, "</h2>"@, "</h3>"@, "</h4>"@, "</h5>"@,
        "<p>"@, "</p>"@, "<ul>"@, "</ul>"@, "<li>"@, "</li>"@,
        "<strong>"@, "</strong>"@, "<em>"@, "</em>"@, "\">"@, "</a>"@,
    ]
}

/// Every `>` of `s` ends one of the renderer's tags.
pub open spec fn gts_close(s: Seq<char>) -> bool {
    forall|i: int|
        0 <= i < s.len() && #[trigger] s[i] == '>' ==> exists|t: Seq<char>|
            tag_ends().contains(t) && #[trigger] ends_at(s, i, t)
}

/// HTML in which every `<` opens one of the renderer's tags, every `>` ends one, and every
/// `&` starts an entity.
pub open spec fn html_clean(s: Seq<char>) -> bool {
    only_own_tags(s) && gts_close(s) && amps_escape(s)
}

proof fn lemma_concat(a: Seq<char>, b: Seq<char>)
    requires
        html_clean(a),
        html_clean(b),
    ensures
        html_clean(a + b),
{
    lemma_concat_tags(a, b, own_tags());
    let s = a + b;
    assert forall|i: int| 0 <= i < s.len() && #[trigger] s[i] == '&' implies exists|t: Seq<char>|
        entities().contains(t) && #[trigger] starts_at(s, i, t) by {
        if i < a.len() {
            assert(a[i] == '&');
            let t = choose|t: Seq<char>| entities().contains(t) && #[trigger] starts_at(a, i, t);
            assert(s.subrange(i, i + t.len()) =~= a.subrange(i, i + t.len()));
            assert(starts_at(s, i, t));
        } else {
            let j = i - a.len();
            assert(b[j] == '&');
            let t = choose|t: Seq<char>| entities().contains(t) && #[trigger] starts_at(b, j, t);
            assert(s.subrange(i, i + t.len()) =~= b.subrange(j, j + t.len()));
            assert(starts_at(s, i, t));
        }
    }
    assert forall|i: int| 0 <= i < s.len() && #[trigger] s[i] == '>' implies exists|t: Seq<char>|
        tag_ends().contains(t) && #[trigger] ends_at(s, i, t) by {
        if i < a.len() {
            assert(a[i] == '>');
            let t = choose|t: Seq<char>| tag_ends().contains(t) && #[trigger] ends_at(a, i, t);
            assert(s.subrange(i + 1 - t.len(), i + 1) =~= a.subrange(i + 1 - t.len(), i + 1));
            assert(ends_at(s, i, t));
        } else {
            let j = i - a.len();
            assert(b[j] == '>');
            let t = choose|t: Seq<char>| tag_ends().contains(t) && #[trigger] ends_at(b, j, t);
            assert(s.subrange(i + 1 - t.len(), i + 1) =~= b.subrange(j + 1 - t.len(), j + 1));
            assert(ends_at(s, i, t));
        }
    }
}

/// Text without `<` or `>` whose `&`s start entities.
proof fn lemma_text_clean(s: Seq<char>)
    requires
        without(s, '<'),
        without(s, '>'),
        amps_escape(s),
    ensures
        html_clean(s),
{
    lemma_without_tags(s, own_tags());
}

proof fn lemma_tag_ends(k: int)
    requires
        0 <= k < 20,
    ensures
        k != 18 ==> tag_ends()[k] == own_tags()[k],
        tag_ends()[18] == "\">"@,
        tag_ends().len() == 20,
        own_tags().len() == 20,
{
}

/// One of the renderer's tags, alone.
proof fn lemma_tag(k: int)
    requires
        0 <= k < own_tags().len(),
    ensures
        html_clean(own_tags()[k]),
{
    reveal_strlit("<h2>");
    reveal_strlit("<h3>");
    reveal_strlit("<h4>");
    reveal_strlit("<h5>");
    reveal_strlit("</h2>");
    reveal_strlit("</h3>");
    reveal_strlit("</h4>");
    reveal_strlit("</h5>");
    reveal_strlit("<p>");
    reveal_strlit("</p>");
    reveal_strlit("<ul>");
    reveal_strlit("</ul>");
    reveal_strlit("<li>");
    reveal_strlit("</li>");
    reveal_strlit("<strong>");
    reveal_strlit("</strong>");
    reveal_strlit("<em>");
    reveal_strlit("</em>");
    reveal_strlit("<a href=\"");
    reveal_strlit("</a>");
    reveal_strlit("\">");
    lemma_tag_ends(k);
    let t = own_tags()[k];
    assert forall|i: int| 0 <= i < t.len() && #[trigger] t[i] == '<' implies exists|u: Seq<char>|
        own_tags().contains(u) && #[trigger] starts_at(t, i, u) by {
        assert(i == 0);
        assert(t.subrange(0, t.len() as int) =~= t);
        assert(own_tags().contains(t));
        assert(starts_at(t, 0, t));
    }
    assert forall|i: int| 0 <= i < t.len() && #[trigger] t[i] == '>' implies exists|u: Seq<char>|
        tag_ends().contains(u) && #[trigger] ends_at(t, i, u) by {
        assert(k != 18);
        assert(i == t.len() - 1);
        assert(t.subrange(0, t.len() as int) =~= t);
        assert(tag_ends()[k] == t);
        assert(tag_ends().contains(t));
        assert(ends_at(t, i, t));
    }
    assert forall|i: int| 0 <= i < t.len() && #[trigger] t[i] == '&' implies exists|u: Seq<char>|
        entities().contains(u) && #[trigger] starts_at(t, i, u) by {
        assert(false);
    }
}

/// The `">` that ends a link's opening.
proof fn lemma_link_end()
    ensures
        html_clean("\">"@),
{
    reveal_strlit("\">");
    lemma_tag_ends(18);
    let t = "\">"@;
    assert forall|i: int| 0 <= i < t.len() && #[trigger] t[i] == '>' implies exists|u: Seq<char>|
        tag_ends().contains(u) && #[trigger] ends_at(t, i, u) by {
        assert(i == 1);
        assert(t.subrange(0, 2) =~= t);
        assert(tag_ends()[18] == t);
        assert(tag_ends().contains(t));
        assert(ends_at(t, i, t));
    }
    lemma_without_tags(t, own_tags());
}

proof fn lemma_escape_text(s: Seq<char>)
    ensures
        without(escape_text(s), '<'),
    decreases s.len(),
{
    if s.len() > 0 {
        lemma_escape_text(s.drop_last());
        reveal_strlit("&amp;");
        reveal_strlit("&lt;");
        reveal_strlit("&gt;");
        let a = escape_text(s.drop_last());
        let b = escape_text_char(s.last());
        assert(without(b, '<'));
        assert forall|i: int| 0 <= i < (a + b).len() implies #[trigger] (a + b)[i] != '<' by {
            if i >= a.len() {
                assert((a + b)[i] == b[i - a.len()]);
            }
        }
    }
}

proof fn lemma_entity(k: int)
    requires
        0 <= k < 4,
    ensures
        html_clean(entities()[k]),
        without(entities()[k], '"'),
        entities()[k].len() > 0,
        entities()[k][0] == '&',
{
    reveal_strlit("&amp;");
    reveal_strlit("&lt;");
    reveal_strlit("&gt;");
    reveal_strlit("&quot;");
    let t = entities()[k];
    assert forall|i: int| 0 <= i < t.len() && #[trigger] t[i] == '&' implies exists|u: Seq<char>|
        entities().contains(u) && #[trigger] starts_at(t, i, u) by {
        assert(i == 0);
        assert(t.subrange(0, t.len() as int) =~= t);
        assert(entities().contains(t));
        assert(starts_at(t, 0, t));
    }
    lemma_without_tags(t, own_tags());
}

proof fn lemma_escape_char_clean(c: char)
    ensures
        html_clean(escape_text_char(c)),
{
    if c == '&' {
        lemma_entity(0);
    } else if c == '<' {
        lemma_entity(1);
    } else if c == '>' {
        lemma_entity(2);
    } else {
        lemma_text_clean(seq![c]);
    }
}

proof fn lemma_escape_attr_char_clean(c: char)
    ensures
        html_clean(escape_attr_char(c)),
        without(escape_attr_char(c), '"'),
{
    if c == '&' {
        lemma_entity(0);
    } else if c == '"' {
        lemma_entity(3);
    } else if c == '<' {
        lemma_entity(1);
    } else if c == '>' {
        lemma_entity(2);
    } else {
        lemma_text_clean(seq![c]);
    }
}

/// Escaped text is clean HTML with no tag in it.
proof fn lemma_escape_text_clean(s: Seq<char>)
    ensures
        html_clean(escape_text(s)),
        without(escape_text(s), '<'),
        without(escape_text(s), '>'),
    decreases s.len(),
{
    if s.len() == 0 {
        lemma_text_clean(Seq::<char>::empty());
    } else {
        lemma_escape_text_clean(s.drop_last());
        lemma_escape_char_clean(s.last());
        lemma_concat(escape_text(s.drop_last()), escape_text_char(s.last()));
        reveal_strlit("&amp;");
        reveal_strlit("&lt;");
        reveal_strlit("&gt;");
        let a = escape_text(s.drop_last());
        let b = escape_text_char(s.last());
        assert forall|i: int| 0 <= i < (a + b).len() implies #[trigger] (a + b)[i] != '<' && (a + b)[i] != '>' by {
            if i >= a.len() {
                assert((a + b)[i] == b[i - a.len()]);
            }
        }
    }
}

/// An escaped attribute value is clean HTML with no tag and no double quote in it: it cannot
/// end the attribute.
pub proof fn lemma_escape_attr_clean(s: Seq<char>)
    ensures
        html_clean(escape_attr_text(s)),
        without(escape_attr_text(s), '"'),
        without(escape_attr_text(s), '<'),
        without(escape_attr_text(s), '>'),
    decreases s.len(),
{
    if s.len() == 0 {
        lemma_text_clean(Seq::<char>::empty());
    } else {
        lemma_escape_attr_clean(s.drop_last());
        lemma_escape_attr_char_clean(s.last());
        lemma_concat(escape_attr_text(s.drop_last()), escape_attr_char(s.last()));
        reveal_strlit("&amp;");
        reveal_strlit("&lt;");
        reveal_strlit("&gt;");
        reveal_strlit("&quot;");
        let a = escape_attr_text(s.drop_last());
        let b = escape_attr_char(s.last());
        assert forall|i: int| 0 <= i < (a + b).len() implies #[trigger] (a + b)[i] != '<' && (a + b)[i] != '>'
            && (a + b)[i] != '"' by {
            if i >= a.len() {
                assert((a + b)[i] == b[i - a.len()]);
            }
        }
    }
}

/// The inline markup writes clean HTML: no markup of the text gets through.
proof fn lemma_inline_from(s: Seq<char>, i: int)
    ensures
        html_clean(inline_from(s, i)),
    decreases s.len() - i,
{
    if i < 0 || i >= s.len() {
    } else if s[i] == '*' && i + 1 < s.len() && s[i + 1] == '*' && find_double_star(s, i + 2) is Some {
        lemma_find_double_star(s, i + 2);
        let end = find_double_star(s, i + 2)->0;
        lemma_inline_from(s, end + 2);
        lemma_tag(14);
        lemma_tag(15);
        lemma_escape_text_clean(s.subrange(i + 2, end));
        lemma_concat("<strong>"@, escape_text(s.subrange(i + 2, end)));
        lemma_concat("<strong>"@ + escape_text(s.subrange(i + 2, end)), "</strong>"@);
        lemma_concat("<strong>"@ + escape_text(s.subrange(i + 2, end)) + "</strong>"@, inline_from(s, end + 2));
    } else if s[i] == '*' && find_from(s, i + 1, '*') is Some && find_from(s, i + 1, '*')->0 > i + 1 {
        lemma_find_from(s, i + 1, '*');
        let end = find_from(s, i + 1, '*')->0;
        lemma_inline_from(s, end + 1);
        lemma_tag(16);
        lemma_tag(17);
        lemma_escape_text_clean(s.subrange(i + 1, end));
        lemma_concat("<em>"@, escape_text(s.subrange(i + 1, end)));
        lemma_concat("<em>"@ + escape_text(s.subrange(i + 1, end)), "</em>"@);
        lemma_concat("<em>"@ + escape_text(s.subrange(i + 1, end)) + "</em>"@, inline_from(s, end + 1));
    } else if s[i] == '[' && find_from(s, i + 1, ']') is Some && find_from(s, i + 1, ']')->0 + 1 < s.len()
        && s[find_from(s, i + 1, ']')->0 + 1] == '(' && find_from(s, find_from(s, i + 1, ']')->0 + 2, ')') is Some {
        lemma_find_from(s, i + 1, ']');
        let cb = find_from(s, i + 1, ']')->0;
        lemma_find_from(s, cb + 2, ')');
        let cp = find_from(s, cb + 2, ')')->0;
        lemma_inline_from(s, cp + 1);
        lemma_tag(18);
        lemma_tag(19);
        reveal_strlit("\">");
        let url = escape_attr_text(s.subrange(cb + 2, cp));
        let text = escape_text(s.subrange(i + 1, cb));
        lemma_escape_attr_clean(s.subrange(cb + 2, cp));
        lemma_escape_text_clean(s.subrange(i + 1, cb));
        lemma_link_end();
        let a = "<a href=\""@;
        lemma_concat(a, url);
        lemma_concat(a + url, "\">"@);
        lemma_concat(a + url + "\">"@, text);
        lemma_concat(a + url + "\">"@ + text, "</a>"@);
        lemma_concat(a + url + "\">"@ + text + "</a>"@, inline_from(s, cp + 1));
    } else {
        lemma_inline_from(s, i + 1);
        lemma_escape_char_clean(s[i]);
        lemma_concat(escape_text_char(s[i]), inline_from(s, i + 1));
    }
}

/// The heading tags of levels 2 to 5.
proof fn lemma_heading_tags(level: int)
    requires
        2 <= level <= 5,
    ensures
        html_clean("<h"@ + dec(level as nat) + ">"@),
        html_clean("</h"@ + dec(level as nat) + ">"@),
{
    reveal_strlit("<h");
    reveal_strlit("</h");
    reveal_strlit(">");
    reveal_strlit("<h2>");
    reveal_strlit("<h3>");
    reveal_strlit("<h4>");
    reveal_strlit("<h5>");
    reveal_strlit("</h2>");
    reveal_strlit("</h3>");
    reveal_strlit("</h4>");
    reveal_strlit("</h5>");
    let d = digit_char(level);
    assert(dec(level as nat) == seq![d]);
    assert(d as int == 48 + level) by {
        assert(((48 + level) as u8) as int == 48 + level);
    }
    let k = level - 2;
    lemma_tag(k);
    lemma_tag(k + 4);
    if level == 2 {
        assert(d == '2');
        assert("<h"@ + dec(level as nat) + ">"@ =~= own_tags()[k]);
        assert("</h"@ + dec(level as nat) + ">"@ =~= own_tags()[k + 4]);
    } else if level == 3 {
        assert(d == '3');
        assert("<h"@ + dec(level as nat) + ">"@ =~= own_tags()[k]);
        assert("</h"@ + dec(level as nat) + ">"@ =~= own_tags()[k + 4]);
    } else if level == 4 {
        assert(d == '4');
        assert("<h"@ + dec(level as nat) + ">"@ =~= own_tags()[k]);
        assert("</h"@ + dec(level as nat) + ">"@ =~= own_tags()[k + 4]);
    } else {
        assert(d == '5');
        assert("<h"@ + dec(level as nat) + ">"@ =~= own_tags()[k]);
        assert("</h"@ + dec(level as nat) + ">"@ =~= own_tags()[k + 4]);
    }
}

proof fn lemma_close_list(in_list: bool)
    ensures
        html_clean(close_list(in_list)),
{
    lemma_tag(11);
    if !in_list {
        lemma_text_clean(Seq::<char>::empty());
    }
}

proof fn lemma_heading_level(t: Seq<char>)
    requires
        heading_of(t) is Some,
    ensures
        2 <= (heading_of(t)->0).0 <= 5,
{
}

/// The blocks are clean HTML.
proof fn lemma_blocks(ls: Seq<Seq<char>>, k: int, in_list: bool)
    ensures
        html_clean(blocks_from(ls, k, in_list)),
    decreases ls.len() - k,
{
    lemma_close_list(in_list);
    if k < 0 || k >= ls.len() {
        reveal(blocks_from);
    } else {
        let t = trim_end(ls[k]);
        if t.len() == 0 {
            lemma_blocks_blank(ls, k, in_list);
            lemma_blocks(ls, k + 1, false);
            lemma_concat(close_list(in_list), blocks_from(ls, k + 1, false));
        } else if heading_of(t) is Some {
            let (level, rest) = heading_of(t)->0;
            lemma_heading_level(t);
            lemma_blocks_heading(ls, k, in_list, level, rest);
            lemma_blocks(ls, k + 1, false);
            lemma_heading_tags(level);
            lemma_inline_from(rest, 0);
            let open = "<h"@ + dec(level as nat) + ">"@;
            let close = "</h"@ + dec(level as nat) + ">"@;
            lemma_concat(close_list(in_list), open);
            lemma_concat(close_list(in_list) + open, crate::markdown::inline(rest));
            lemma_concat(close_list(in_list) + open + crate::markdown::inline(rest), close);
            lemma_concat(close_list(in_list) + open + crate::markdown::inline(rest) + close, blocks_from(ls, k + 1, false));
            assert(close_list(in_list) + "<h"@ + dec(level as nat) + ">"@ + crate::markdown::inline(rest) + "</h"@ + dec(level as nat)
                + ">"@ + blocks_from(ls, k + 1, false) =~= close_list(in_list) + open + crate::markdown::inline(rest) + close
                + blocks_from(ls, k + 1, false));
        } else if list_item(t) is Some {
            lemma_blocks_item(ls, k, in_list);
            lemma_blocks(ls, k + 1, true);
            lemma_tag(10);
            lemma_tag(12);
            lemma_tag(13);
            let start: Seq<char> = if in_list { Seq::empty() } else { "<ul>"@ };
            if in_list {
                lemma_text_clean(Seq::<char>::empty());
            }
            let item = list_item(t)->0;
            lemma_inline_from(item, 0);
            lemma_concat(start, "<li>"@);
            lemma_concat(start + "<li>"@, crate::markdown::inline(item));
            lemma_concat(start + "<li>"@ + crate::markdown::inline(item), "</li>"@);
            lemma_concat(start + "<li>"@ + crate::markdown::inline(item) + "</li>"@, blocks_from(ls, k + 1, true));
        } else {
            lemma_blocks_paragraph(ls, k, in_list);
            lemma_paragraph_len(ls, k + 1);
            let n = paragraph_len(ls, k + 1);
            lemma_blocks(ls, k + 1 + n, false);
            lemma_tag(8);
            lemma_tag(9);
            let body = t + joined(ls, k + 1, n);
            lemma_inline_from(body, 0);
            lemma_concat(close_list(in_list), "<p>"@);
            lemma_concat(close_list(in_list) + "<p>"@, crate::markdown::inline(body));
            lemma_concat(close_list(in_list) + "<p>"@ + crate::markdown::inline(body), "</p>"@);
            lemma_concat(close_list(in_list) + "<p>"@ + crate::markdown::inline(body) + "</p>"@, blocks_from(ls, k + 1 + n, false));
        }
    }
}

/// What the help renderer writes is safe to put into a page: every `<` in its output opens
/// one of its own tags (headings, paragraphs, lists, bold, italics and links), every `>` ends
/// one of them, and every `&` starts an entity, because the source text is escaped before any
/// tag is written (a link's address is escaped as an attribute value, see
/// `lemma_escape_attr_clean`).
pub proof fn lemma_markdown_safe(src: Seq<char>)
    ensures
        only_own_tags(markdown(src)),
        gts_close(markdown(src)),
        amps_escape(markdown(src)),
{
    lemma_blocks(crate::text::lines(src), 0, false);
}

/// Escaping leaves none of the characters that HTML gives a meaning to (`< > " '`), and
/// `&` only to start an escape: escaped text cannot open a tag or close an attribute.
pub proof fn lemma_escaped_safe(s: Seq<char>)
    ensures
        without(escaped(s), '<'),
        without(escaped(s), '>'),
        without(escaped(s), '"'),
        without(escaped(s), '\''),
    decreases s.len(),
{
    if s.len() > 0 {
        lemma_escaped_safe(s.drop_last());
        reveal_strlit("&amp;");
        reveal_strlit("&lt;");
        reveal_strlit("&gt;");
        reveal_strlit("&quot;");
        reveal_strlit("&#x27;");
        let a = escaped(s.drop_last());
        let b = escape_char(s.last());
        assert forall|i: int| 0 <= i < (a + b).len() implies #[trigger] (a + b)[i] != '<' && (a + b)[i] != '>'
            && (a + b)[i] != '"' && (a + b)[i] != '\'' by {
            if i >= a.len() {
                assert((a + b)[i] == b[i - a.len()]);
            }
        }
    }
}

/// The tags of a mail's HTML body.
pub open spec fn mail_tags() -> Seq<Seq<char>> {
    seq!["<p>"@, "</p>"@, "<br/>"@]
}

proof fn lemma_mail_tag(k: int)
    requires
        0 <= k < 3,
    ensures
        tags_only(mail_tags()[k], mail_tags()),
{
    let t = mail_tags()[k];
    assert forall|i: int| 0 <= i < t.len() && #[trigger] t[i] == '<' implies exists|u: Seq<char>|
        mail_tags().contains(u) && #[trigger] starts_at(t, i, u) by {
        reveal_strlit("<p>");
        reveal_strlit("</p>");
        reveal_strlit("<br/>");
        assert(i == 0);
        assert(t.subrange(0, t.len() as int) =~= t);
        assert(mail_tags().contains(t));
        assert(starts_at(t, 0, t));
    }
}

proof fn lemma_paragraphs_without(s: Seq<char>)
    requires
        without(s, '<'),
    ensures
        forall|k: int| 0 <= k < paragraphs(s).len() ==> without(#[trigger] paragraphs(s)[k], '<'),
    decreases s.len(),
{
    lemma_find_blank_bounds(s);
    let i = find_blank(s);
    if i < s.len() {
        let rest = s.skip(i + 2);
        assert forall|k: int| 0 <= k < rest.len() implies #[trigger] rest[k] != '<' by {
            assert(rest[k] == s[k + i + 2]);
        }
        lemma_paragraphs_without(rest);
        assert forall|k: int| 0 <= k < paragraphs(s).len() implies without(#[trigger] paragraphs(s)[k], '<') by {
            if k == 0 {
                assert(paragraphs(s)[0] == s.take(i));
            } else {
                assert(paragraphs(s)[k] == paragraphs(rest)[k - 1]);
            }
        }
    }
}

proof fn lemma_trim_newlines_without(s: Seq<char>)
    requires
        without(s, '<'),
    ensures
        without(trim_newlines(s), '<'),
    decreases s.len(),
{
    if s.len() > 0 && s[0] == '\n' {
        assert forall|k: int| 0 <= k < s.drop_first().len() implies #[trigger] s.drop_first()[k] != '<' by {
            assert(s.drop_first()[k] == s[k + 1]);
        }
        lemma_trim_newlines_without(s.drop_first());
    } else if s.len() > 0 && s.last() == '\n' {
        assert forall|k: int| 0 <= k < s.drop_last().len() implies #[trigger] s.drop_last()[k] != '<' by {
            assert(s.drop_last()[k] == s[k]);
        }
        lemma_trim_newlines_without(s.drop_last());
    }
}

proof fn lemma_line_breaks(s: Seq<char>)
    requires
        without(s, '<'),
    ensures
        tags_only(line_breaks(s), mail_tags()),
    decreases s.len(),
{
    if s.len() == 0 {
        lemma_without_tags(Seq::<char>::empty(), mail_tags());
    } else {
        assert forall|k: int| 0 <= k < s.drop_last().len() implies #[trigger] s.drop_last()[k] != '<' by {
            assert(s.drop_last()[k] == s[k]);
        }
        lemma_line_breaks(s.drop_last());
        if s.last() == '\n' {
            lemma_mail_tag(2);
            lemma_concat_tags(line_breaks(s.drop_last()), "<br/>"@, mail_tags());
        } else {
            assert(s.last() == s[s.len() - 1]);
            lemma_without_tags(seq![s.last()], mail_tags());
            lemma_concat_tags(line_breaks(s.drop_last()), seq![s.last()], mail_tags());
        }
    }
}

proof fn lemma_html_paragraphs(ps: Seq<Seq<char>>)
    requires
        forall|k: int| 0 <= k < ps.len() ==> without(#[trigger] ps[k], '<'),
    ensures
        tags_only(html_paragraphs(ps), mail_tags()),
    decreases ps.len(),
{
    if ps.len() == 0 {
        lemma_without_tags(Seq::<char>::empty(), mail_tags());
    } else {
        assert forall|k: int| 0 <= k < ps.drop_last().len() implies without(#[trigger] ps.drop_last()[k], '<') by {
            assert(ps.drop_last()[k] == ps[k]);
        }
        lemma_html_paragraphs(ps.drop_last());
        assert(without(ps[ps.len() - 1], '<'));
        lemma_trim_newlines_without(ps.last());
        let q = line_breaks(trim_newlines(ps.last()));
        lemma_line_breaks(trim_newlines(ps.last()));
        if q.len() > 0 {
            lemma_mail_tag(0);
            lemma_mail_tag(1);
            lemma_concat_tags("<p>"@, q, mail_tags());
            lemma_concat_tags("<p>"@ + q, "</p>"@, mail_tags());
            lemma_concat_tags(html_paragraphs(ps.drop_last()), "<p>"@ + q + "</p>"@, mail_tags());
        } else {
            lemma_without_tags(Seq::<char>::empty(), mail_tags());
            lemma_concat_tags(html_paragraphs(ps.drop_last()), Seq::<char>::empty(), mail_tags());
        }
    }
}

/// A mail's HTML body made from its text is safe: every `<` in it opens a paragraph tag or a
/// line break, because the text is escaped first.
pub proof fn lemma_mail_html_safe(text: Seq<char>)
    ensures
        tags_only(html_paragraphs(paragraphs(escaped(text))), mail_tags()),
{
    lemma_escaped_safe(text);
    lemma_paragraphs_without(escaped(text));
    lemma_html_paragraphs(paragraphs(escaped(text)));
}

/// `s` with every tag (from a `<` to the next `>`) taken out.
pub open spec fn strip_tags(s: Seq<char>) -> Seq<char>
    decreases s.len(),
{
    if s.len() == 0 {
        Seq::empty()
    } else if s[0] == '<' {
        let j = find_char(s, '>');
        if j < s.len() {
            proof {
                lemma_find_char_bounds(s, '>');
            }
            strip_tags(s.skip(j + 1))
        } else {
            Seq::empty()
        }
    } else {
        seq![s[0]] + strip_tags(s.drop_first())
    }
}

proof fn lemma_strip_plain(e: Seq<char>, rest: Seq<char>)
    requires
        without(e, '<'),
    ensures
        strip_tags(e + rest) == e + strip_tags(rest),
    decreases e.len(),
{
    if e.len() == 0 {
        assert(e + rest =~= rest);
    } else {
        assert((e + rest)[0] == e[0]);
        assert((e + rest).drop_first() =~= e.drop_first() + rest);
        lemma_strip_plain(e.drop_first(), rest);
        assert(e =~= seq![e[0]] + e.drop_first());
        assert(seq![e[0]] + (e.drop_first() + strip_tags(rest)) =~= e + strip_tags(rest));
    }
}

proof fn lemma_strip_tag(inner: Seq<char>, rest: Seq<char>)
    requires
        without(inner, '>'),
    ensures
        strip_tags(seq!['<'] + inner + seq!['>'] + rest) == strip_tags(rest),
{
    let t = seq!['<'] + inner + seq!['>'] + rest;
    let j: int = inner.len() as int + 1;
    assert forall|k: int| 0 <= k < j implies t[k] != '>' by {
        if k > 0 {
            assert(t[k] == inner[k - 1]);
        }
    }
    lemma_find_char(t, '>', j);
    assert(t.skip(j + 1) =~= rest);
}

pub proof fn lemma_escape_text_concat(a: Seq<char>, b: Seq<char>)
    ensures
        escape_text(a + b) == escape_text(a) + escape_text(b),
    decreases b.len(),
{
    if b.len() == 0 {
        assert(a + b =~= a);
        assert(escape_text(a) + escape_text(b) =~= escape_text(a));
    } else {
        lemma_escape_text_concat(a, b.drop_last());
        assert((a + b).drop_last() =~= a + b.drop_last());
        assert((a + b).last() == b.last());
        assert(escape_text(a) + (escape_text(b.drop_last()) + escape_text_char(b.last())) =~= escape_text(a)
            + escape_text(b.drop_last()) + escape_text_char(b.last()));
    }
}

/// A span of a class without `>`, taken out of its tags, is the escaped text.
proof fn lemma_strip_span(class: Seq<char>, x: Seq<char>, rest: Seq<char>)
    requires
        without(class, '>'),
    ensures
        strip_tags(span_of(class, x) + rest) == escape_text(x) + strip_tags(rest),
{
    reveal_strlit("<span class=\"");
    reveal_strlit("\">");
    reveal_strlit("</span>");
    let open_inner = "<span class=\""@.drop_first() + class + seq!['"'];
    let close_inner = "</span>"@.drop_first().drop_last();
    assert forall|k: int| 0 <= k < open_inner.len() implies #[trigger] open_inner[k] != '>' by {
        if k >= 12 && k < 12 + class.len() {
            assert(open_inner[k] == class[k - 12]);
        }
    }
    assert(without(close_inner, '>'));
    lemma_escape_text(x);
    let tail = seq!['<'] + close_inner + seq!['>'] + rest;
    assert(span_of(class, x) + rest =~= seq!['<'] + open_inner + seq!['>'] + (escape_text(x) + tail));
    lemma_strip_tag(open_inner, escape_text(x) + tail);
    lemma_strip_plain(escape_text(x), tail);
    lemma_strip_tag(close_inner, rest);
}

proof fn lemma_escape_skip(s: Seq<char>, i: int, j: int)
    requires
        0 <= i <= j <= s.len(),
    ensures
        escape_text(s.skip(i)) == escape_text(s.subrange(i, j)) + escape_text(s.skip(j)),
{
    assert(s.skip(i) =~= s.subrange(i, j) + s.skip(j));
    lemma_escape_text_concat(s.subrange(i, j), s.skip(j));
}

/// A highlighted data line, taken out of its tags, is the escaped line.
proof fn lemma_strip_data_line(s: Seq<char>, i: int, rest: Seq<char>)
    requires
        0 <= i <= s.len(),
    ensures
        strip_tags(data_line_from(s, i) + rest) == escape_text(s.skip(i)) + strip_tags(rest),
    decreases s.len() - i,
{
    reveal_strlit("hl-string");
    reveal_strlit("hl-comment");
    reveal_strlit("hl-number");
    if i >= s.len() {
        assert(data_line_from(s, i) + rest =~= rest);
        assert(s.skip(i) =~= Seq::<char>::empty());
        assert(escape_text(Seq::<char>::empty()) + strip_tags(rest) =~= strip_tags(rest));
    } else if s[i] == '"' && find_from(s, i + 1, '"') is Some {
        lemma_find_from(s, i + 1, '"');
        let end = find_from(s, i + 1, '"')->0;
        lemma_strip_data_line(s, end + 1, rest);
        lemma_strip_span("hl-string"@, s.subrange(i, end + 1), data_line_from(s, end + 1) + rest);
        assert(data_line_from(s, i) + rest =~= span_of("hl-string"@, s.subrange(i, end + 1)) + (data_line_from(s, end + 1)
            + rest));
        lemma_escape_skip(s, i, end + 1);
    } else if s[i] == '%' || s[i] == '#' {
        lemma_strip_span("hl-comment"@, s.skip(i), rest);
    } else if is_ascii_digit(s[i]) {
        lemma_digits_from(s, i);
        let n = digits_from(s, i);
        lemma_strip_data_line(s, i + n, rest);
        lemma_strip_span("hl-number"@, s.subrange(i, i + n), data_line_from(s, i + n) + rest);
        assert(data_line_from(s, i) + rest =~= span_of("hl-number"@, s.subrange(i, i + n)) + (data_line_from(s, i + n)
            + rest));
        lemma_escape_skip(s, i, i + n);
    } else {
        lemma_strip_data_line(s, i + 1, rest);
        let e = escape_text(seq![s[i]]);
        lemma_escape_text(seq![s[i]]);
        lemma_strip_plain(e, data_line_from(s, i + 1) + rest);
        assert(data_line_from(s, i) + rest =~= e + (data_line_from(s, i + 1) + rest));
        lemma_escape_skip(s, i, i + 1);
        assert(s.subrange(i, i + 1) =~= seq![s[i]]);
    }
}

/// A highlighted line, taken out of its tags, is the escaped line.
proof fn lemma_strip_line(line: Seq<char>, rest: Seq<char>)
    ensures
        strip_tags(highlighted_line(line) + rest) == escape_text(line) + strip_tags(rest),
{
    reveal_strlit("hl-comment");
    reveal_strlit("hl-section");
    let t = trim(line);
    if t.len() > 0 && (t[0] == '%' || t[0] == '#') {
        lemma_strip_span("hl-comment"@, line, rest);
    } else if t.len() > 0 && t[0] == '[' {
        lemma_strip_span("hl-section"@, line, rest);
    } else {
        lemma_strip_data_line(line, 0, rest);
        assert(line.skip(0) =~= line);
    }
}

/// Lines joined by newlines (`[a, b]` gives `a\nb`).
pub open spec fn join_newlines(ls: Seq<Seq<char>>) -> Seq<char>
    decreases ls.len(),
{
    if ls.len() == 0 {
        Seq::empty()
    } else if ls.len() == 1 {
        ls[0]
    } else {
        join_newlines(ls.drop_last()) + seq!['\n'] + ls.last()
    }
}

proof fn lemma_join_front(x: Seq<char>, r: Seq<Seq<char>>)
    requires
        r.len() > 0,
    ensures
        join_newlines(seq![x] + r) == x + seq!['\n'] + join_newlines(r),
        joined_lines(seq![x] + r) == highlighted_line(x) + "\n"@ + joined_lines(r),
    decreases r.len(),
{
    let t = seq![x] + r;
    if r.len() == 1 {
        assert(t.drop_last() =~= seq![x]);
        assert(join_newlines(seq![x]) == x);
        assert(joined_lines(seq![x]) == highlighted_line(x));
    } else {
        lemma_join_front(x, r.drop_last());
        assert(t.drop_last() =~= seq![x] + r.drop_last());
        assert(t.last() == r.last());
        assert(join_newlines(t) =~= x + seq!['\n'] + join_newlines(r));
        assert(joined_lines(t) =~= highlighted_line(x) + "\n"@ + joined_lines(r));
    }
}

proof fn lemma_split_join(s: Seq<char>)
    ensures
        split_lines(s).len() > 0,
        join_newlines(split_lines(s)) == s,
    decreases s.len(),
{
    let i = find_char(s, '\n');
    lemma_find_char_bounds(s, '\n');
    if i < s.len() {
        lemma_split_join(s.skip(i + 1));
        lemma_join_front(s.take(i), split_lines(s.skip(i + 1)));
        assert(s.take(i) + seq!['\n'] + s.skip(i + 1) =~= s);
    }
}

proof fn lemma_strip_joined(ls: Seq<Seq<char>>, rest: Seq<char>)
    requires
        ls.len() > 0,
    ensures
        strip_tags(joined_lines(ls) + rest) == escape_text(join_newlines(ls)) + strip_tags(rest),
    decreases ls.len(),
{
    reveal_strlit("\n");
    if ls.len() == 1 {
        lemma_strip_line(ls[0], rest);
    } else {
        let x = ls[0];
        let r = ls.drop_first();
        assert(ls =~= seq![x] + r);
        lemma_join_front(x, r);
        lemma_strip_joined(r, rest);
        assert(without(seq!['\n'], '<'));
        lemma_strip_plain(seq!['\n'], joined_lines(r) + rest);
        lemma_strip_line(x, seq!['\n'] + (joined_lines(r) + rest));
        assert(joined_lines(ls) + rest =~= highlighted_line(x) + (seq!['\n'] + (joined_lines(r) + rest)));
        lemma_escape_text_concat(x, seq!['\n']);
        lemma_escape_text_concat(x + seq!['\n'], join_newlines(r));
        assert(escape_text(seq!['\n']) =~= seq!['\n']) by {
            assert(seq!['\n'].drop_last() =~= Seq::<char>::empty());
            assert(escape_text(Seq::<char>::empty()) == Seq::<char>::empty());
            assert(escape_text_char('\n') == seq!['\n']);
            assert(escape_text(seq!['\n']) == escape_text(Seq::<char>::empty()) + escape_text_char('\n'));
        }
    }
}

/// The highlighted editor text, taken out of its tags, is the escaped text: highlighting
/// only wraps pieces of the text in spans.
pub proof fn lemma_highlight_strips_to_text(text: Seq<char>)
    ensures
        strip_tags(joined_lines(split_lines(text))) == escape_text(text),
{
    lemma_split_join(text);
    lemma_strip_joined(split_lines(text), Seq::empty());
    assert(joined_lines(split_lines(text)) + Seq::<char>::empty() =~= joined_lines(split_lines(text)));
    assert(strip_tags(Seq::<char>::empty()) == Seq::<char>::empty());
    assert(escape_text(text) + Seq::<char>::empty() =~= escape_text(text));
}

} // verus!
