//! The decisions of the web pages, apart from their rendering: reading the mail list of a new
//! event, the results to mail, error lines, and the key in the page address.
use vstd::prelude::*;
use crate::model::ResultEntry;
use crate::lang::{Lang, spec_from_code, tag_prefix, lower};
use crate::parse::{ParseError, ParseWarning, quoted, parse_quoted_string};
use crate::text::{
    chars_of, chars_eq, string_from_chars, push_str, push_chars, trim, trim_chars, lines, lines_of, is_ws,
};
use crate::numbers::{dec, push_decimal};

verus! {

/// Whether `c` separates mails in a list: a comma, a newline or a semicolon.
pub open spec fn is_mail_separator(c: char) -> bool {
    c == ',' || c == '\n' || c == ';'
}

/// The pieces of `s` between separators, in order (`str::split` on separators).
pub open spec fn split_on_separators(s: Seq<char>) -> Seq<Seq<char>>
    decreases s.len(),
{
    if s.len() == 0 {
        seq![Seq::empty()]
    } else {
        let rest = split_on_separators(s.drop_last());
        if is_mail_separator(s.last()) {
            rest.push(Seq::empty())
        } else {
            rest.update(rest.len() - 1, rest.last().push(s.last()))
        }
    }
}

proof fn lemma_split_nonempty(s: Seq<char>)
    ensures
        split_on_separators(s).len() >= 1,
    decreases s.len(),
{
    if s.len() > 0 {
        lemma_split_nonempty(s.drop_last());
    }
}

/// The trimmed, non-empty pieces.
pub open spec fn mails_of(pieces: Seq<Seq<char>>) -> Seq<Seq<char>>
    decreases pieces.len(),
{
    if pieces.len() == 0 {
        Seq::empty()
    } else {
        let rest = mails_of(pieces.drop_last());
        let t = trim(pieces.last());
        if t.len() > 0 {
            rest.push(t)
        } else {
            rest
        }
    }
}

/// The mails of a list separated by commas, newlines or semicolons, trimmed, empty ones left out.
pub fn split_emails(s: &str) -> (r: Vec<String>)
    ensures
        r@.map_values(|m: String| m@) == mails_of(split_on_separators(s@)),
{
    let c = chars_of(s);
    let mut done: Vec<String> = Vec::new();
    let mut cur: Vec<char> = Vec::new();
    let ghost mut pieces: Seq<Seq<char>> = Seq::empty();
    let mut i: usize = 0;
    assert(c@.take(0) =~= Seq::<char>::empty());
    while i < c.len()
        invariant
            i <= c.len(),
            c@ == s@,
            split_on_separators(c@.take(i as int)) == pieces.push(cur@),
            done@.map_values(|m: String| m@) == mails_of(pieces),
        decreases c.len() - i,
    {
        assert(c@.take(i + 1).drop_last() =~= c@.take(i as int));
        assert(c@.take(i + 1).last() == c@[i as int]);
        if c[i] == ',' || c[i] == '\n' || c[i] == ';' {
            let t = trim_chars(cur.as_slice());
            let ghost before = done@.map_values(|m: String| m@);
            if t.len() > 0 {
                done.push(string_from_chars(t.as_slice()));
                assert(done@.map_values(|m: String| m@) =~= before.push(t@));
            }
            proof {
                assert(pieces.push(cur@).drop_last() =~= pieces);
                pieces = pieces.push(cur@);
            }
            cur = Vec::new();
            assert(split_on_separators(c@.take(i + 1)) =~= pieces.push(cur@));
        } else {
            let ghost old_cur = cur@;
            cur.push(c[i]);
            assert(split_on_separators(c@.take(i + 1)) =~= pieces.push(cur@)) by {
                let r = split_on_separators(c@.take(i as int));
                assert(r == pieces.push(old_cur));
                assert(r.update(r.len() - 1, r.last().push(c@[i as int])) =~= pieces.push(cur@));
            }
        }
        i = i + 1;
    }
    assert(c@.take(c.len() as int) =~= c@);
    let t = trim_chars(cur.as_slice());
    let ghost before = done@.map_values(|m: String| m@);
    if t.len() > 0 {
        done.push(string_from_chars(t.as_slice()));
        assert(done@.map_values(|m: String| m@) =~= before.push(t@));
    }
    assert(pieces.push(cur@).drop_last() =~= pieces);
    done
}

/// The `(mail, slot)` of each result line: after a `[results]` line, each line (trimmed, not a
/// `%` comment) that starts with a quoted mail followed by a quoted slot name.
pub open spec fn result_entries(ls: Seq<Seq<char>>, in_results: bool) -> Seq<(Seq<char>, Seq<char>)>
    decreases ls.len(),
{
    if ls.len() == 0 {
        Seq::empty()
    } else {
        let t = trim(ls[0]);
        if t == "[results]"@ {
            result_entries(ls.drop_first(), true)
        } else if !in_results || t.len() == 0 || t[0] == '%' {
            result_entries(ls.drop_first(), in_results)
        } else {
            match quoted(t) {
                Some((mail, rest)) => match quoted(rest) {
                    Some((slot, _)) => seq![(mail, slot)] + result_entries(ls.drop_first(), in_results),
                    None => result_entries(ls.drop_first(), in_results),
                },
                None => result_entries(ls.drop_first(), in_results),
            }
        }
    }
}

/// The results to mail, read from the results text.
pub fn extract_results(text: &str) -> (r: Vec<ResultEntry>)
    ensures
        r@.map_values(|e: ResultEntry| (e.mail@, e.slot@)) == result_entries(lines(text@), false),
{
    let c = chars_of(text);
    let ls = lines_of(c.as_slice());
    let ghost lv = ls@.map_values(|l: Vec<char>| l@);
    let header = chars_of("[results]");
    let mut entries: Vec<ResultEntry> = Vec::new();
    let mut in_results = false;
    let mut k: usize = 0;
    assert(lv.skip(0) =~= lv);
    while k < ls.len()
        invariant
            k <= ls.len(),
            lv == ls@.map_values(|l: Vec<char>| l@),
            lv == lines(text@),
            header@ == "[results]"@,
            result_entries(lv, false) == entries@.map_values(|e: ResultEntry| (e.mail@, e.slot@)) + result_entries(
                lv.skip(k as int),
                in_results,
            ),
        decreases ls.len() - k,
    {
        let ghost rest = lv.skip(k as int);
        assert(rest[0] == ls@[k as int]@);
        assert(rest.drop_first() =~= lv.skip(k + 1));
        let t = trim_chars(ls[k].as_slice());
        if chars_eq(t.as_slice(), header.as_slice()) {
            in_results = true;
            k = k + 1;
            continue;
        }
        if !in_results || t.len() == 0 || t[0] == '%' {
            k = k + 1;
            continue;
        }
        let line = string_from_chars(t.as_slice());
        if let Some((mail, rest_str)) = parse_quoted_string(line.as_str()) {
            if let Some((slot, _)) = parse_quoted_string(rest_str) {
                let ghost before = entries@.map_values(|e: ResultEntry| (e.mail@, e.slot@));
                entries.push(ResultEntry { mail: String::from_str(mail), slot: String::from_str(slot) });
                assert(entries@.map_values(|e: ResultEntry| (e.mail@, e.slot@)) =~= before.push((mail@, slot@)));
                assert(before.push((mail@, slot@)) + result_entries(lv.skip(k + 1), in_results) =~= before + (seq![
                    (mail@, slot@),
                ] + result_entries(lv.skip(k + 1), in_results)));
            }
        }
        k = k + 1;
    }
    assert(lv.skip(ls.len() as int) =~= Seq::<Seq<char>>::empty());
    assert(entries@.map_values(|e: ResultEntry| (e.mail@, e.slot@)) + Seq::<(Seq<char>, Seq<char>)>::empty()
        =~= entries@.map_values(|e: ResultEntry| (e.mail@, e.slot@)));
    entries
}

/// How an error is shown: `Line <n>: <message>`, lines counted from 1.
pub open spec fn error_text(line: int, message: Seq<char>) -> Seq<char> {
    "Line "@ + dec((line + 1) as nat) + ": "@ + message
}

/// The text shown for a parse error.
pub fn error_line(e: &ParseError) -> (s: String)
    requires
        e.line < usize::MAX,
    ensures
        s@ == error_text(e.line as int, e.message@),
{
    let mut v: Vec<char> = Vec::new();
    push_str(&mut v, "Line ");
    push_decimal(&mut v, (e.line + 1) as u64);
    push_str(&mut v, ": ");
    push_str(&mut v, e.message.as_str());
    string_from_chars(v.as_slice())
}

/// The text shown for a parse warning, as for an error.
pub fn warning_line(w: &ParseWarning) -> (s: String)
    requires
        w.line < usize::MAX,
    ensures
        s@ == error_text(w.line as int, w.message@),
{
    let mut v: Vec<char> = Vec::new();
    push_str(&mut v, "Line ");
    push_decimal(&mut v, (w.line + 1) as u64);
    push_str(&mut v, ": ");
    push_str(&mut v, w.message.as_str());
    string_from_chars(v.as_slice())
}

/// `s` without its leading `c` characters.
pub open spec fn trim_leading(s: Seq<char>, c: char) -> Seq<char>
    decreases s.len(),
{
    if s.len() > 0 && s[0] == c {
        trim_leading(s.drop_first(), c)
    } else {
        s
    }
}

fn trim_leading_chars(s: &[char], c: char) -> (r: Vec<char>)
    ensures
        r@ == trim_leading(s@, c),
{
    let mut a: usize = 0;
    assert(s@.skip(0) =~= s@);
    while a < s.len() && s[a] == c
        invariant
            a <= s.len(),
            trim_leading(s@, c) == trim_leading(s@.skip(a as int), c),
        decreases s.len() - a,
    {
        assert(s@.skip(a as int).drop_first() =~= s@.skip(a + 1));
        a = a + 1;
    }
    let mut r: Vec<char> = Vec::new();
    let mut k: usize = a;
    while k < s.len()
        invariant
            a <= k <= s.len(),
            r@ == s@.subrange(a as int, k as int),
        decreases s.len() - k,
    {
        r.push(s[k]);
        k = k + 1;
        assert(r@ =~= s@.subrange(a as int, k as int));
    }
    assert(s@.skip(a as int) =~= r@);
    r
}

/// The key in the page address: the query (`?key`) without its leading `?`, or else the
/// fragment (`#key`) without its leading `#`.
pub fn page_key(search: &str, hash: &str) -> (key: String)
    ensures
        key@ == (if trim_leading(search@, '?').len() > 0 {
            trim_leading(search@, '?')
        } else {
            trim_leading(hash@, '#')
        }),
{
    let s = chars_of(search);
    let from_search = trim_leading_chars(s.as_slice(), '?');
    if from_search.len() > 0 {
        string_from_chars(from_search.as_slice())
    } else {
        let h = chars_of(hash);
        let from_hash = trim_leading_chars(h.as_slice(), '#');
        string_from_chars(from_hash.as_slice())
    }
}

/// The pieces of `s` between occurrences of `c` (`str::split(c)`).
pub open spec fn split_char(s: Seq<char>, c: char) -> Seq<Seq<char>>
    decreases s.len(),
{
    if s.len() == 0 {
        seq![Seq::empty()]
    } else {
        let rest = split_char(s.drop_last(), c);
        if s.last() == c {
            rest.push(Seq::empty())
        } else {
            rest.update(rest.len() - 1, rest.last().push(s.last()))
        }
    }
}

/// The language named by the first `lang=xx` part that names one.
pub open spec fn lang_in_parts(parts: Seq<Seq<char>>) -> Option<Lang>
    decreases parts.len(),
{
    if parts.len() == 0 {
        None
    } else {
        let p = parts[0];
        if p.len() >= 5 && p.take(5) == "lang="@ && spec_from_code(p.skip(5)) is Some {
            spec_from_code(p.skip(5))
        } else {
            lang_in_parts(parts.drop_first())
        }
    }
}

/// The language of the first browser tag that names one.
pub open spec fn lang_in_tags(tags: Seq<&str>) -> Option<Lang>
    decreases tags.len(),
{
    if tags.len() == 0 {
        None
    } else {
        let l = spec_from_code(tag_prefix(tags[0]@).map_values(|c: char| lower(c)));
        if l is Some {
            l
        } else {
            lang_in_tags(tags.drop_first())
        }
    }
}

/// The language to show: a `lang=xx` in the query string, else the stored choice, else the
/// first browser language the application knows, else English.
pub open spec fn chosen_lang(search: Seq<char>, stored: Option<&str>, tags: Seq<&str>) -> Lang {
    match lang_in_parts(split_char(trim_leading(search, '?'), '&')) {
        Some(l) => l,
        None => match (match stored {
            Some(s) => spec_from_code(s@),
            None => None,
        }) {
            Some(l) => l,
            None => match lang_in_tags(tags) {
                Some(l) => l,
                None => Lang::En,
            },
        },
    }
}

fn split_char_exec(s: &[char], c: char) -> (r: Vec<Vec<char>>)
    ensures
        r@.map_values(|p: Vec<char>| p@) == split_char(s@, c),
{
    let mut done: Vec<Vec<char>> = Vec::new();
    let mut cur: Vec<char> = Vec::new();
    let mut i: usize = 0;
    assert(s@.take(0) =~= Seq::<char>::empty());
    assert(done@.map_values(|p: Vec<char>| p@).push(cur@) =~= seq![Seq::<char>::empty()]);
    while i < s.len()
        invariant
            i <= s.len(),
            split_char(s@.take(i as int), c) == done@.map_values(|p: Vec<char>| p@).push(cur@),
        decreases s.len() - i,
    {
        assert(s@.take(i + 1).drop_last() =~= s@.take(i as int));
        assert(s@.take(i + 1).last() == s@[i as int]);
        let ghost before = done@.map_values(|p: Vec<char>| p@);
        let ghost old_cur = cur@;
        if s[i] == c {
            let piece = cur;
            done.push(piece);
            cur = Vec::new();
            assert(done@.map_values(|p: Vec<char>| p@) =~= before.push(old_cur));
            assert(split_char(s@.take(i + 1), c) =~= done@.map_values(|p: Vec<char>| p@).push(cur@));
        } else {
            cur.push(s[i]);
            assert(split_char(s@.take(i + 1), c) =~= done@.map_values(|p: Vec<char>| p@).push(cur@)) by {
                let r = split_char(s@.take(i as int), c);
                assert(r == before.push(old_cur));
                assert(r.update(r.len() - 1, r.last().push(s@[i as int])) =~= before.push(cur@));
            }
        }
        i = i + 1;
    }
    assert(s@.take(s.len() as int) =~= s@);
    let ghost before = done@.map_values(|p: Vec<char>| p@);
    let ghost last = cur@;
    done.push(cur);
    assert(done@.map_values(|p: Vec<char>| p@) =~= before.push(last));
    done
}

/// Chooses the language to show from the page's query string, the stored choice and the
/// browser's languages (in order of preference).
pub fn choose_lang(search: &str, stored: Option<&str>, tags: &[&str]) -> (l: Lang)
    ensures
        l == chosen_lang(search@, stored, tags@),
{
    let s = chars_of(search);
    let q = trim_leading_chars(s.as_slice(), '?');
    let parts = split_char_exec(q.as_slice(), '&');
    let ghost pv = parts@.map_values(|p: Vec<char>| p@);
    let prefix = chars_of("lang=");
    let mut k: usize = 0;
    assert(pv.skip(0) =~= pv);
    while k < parts.len()
        invariant
            k <= parts.len(),
            pv == parts@.map_values(|p: Vec<char>| p@),
            pv == split_char(trim_leading(search@, '?'), '&'),
            prefix@ == "lang="@,
            lang_in_parts(pv) == lang_in_parts(pv.skip(k as int)),
        decreases parts.len() - k,
    {
        let p = &parts[k];
        let ghost rest = pv.skip(k as int);
        assert(rest[0] == p@);
        assert(rest.drop_first() =~= pv.skip(k + 1));
        if p.len() >= 5 {
            let head = slice_chars_of(p.as_slice(), 0, 5);
            if chars_eq(head.as_slice(), prefix.as_slice()) {
                let code = slice_chars_of(p.as_slice(), 5, p.len());
                assert(head@ =~= p@.take(5));
                assert(code@ =~= p@.skip(5));
                let code_str = string_from_chars(code.as_slice());
                if let Some(l) = Lang::from_code(code_str.as_str()) {
                    return l;
                }
            }
        }
        k = k + 1;
    }
    assert(pv.skip(parts.len() as int) =~= Seq::<Seq<char>>::empty());
    if let Some(v) = stored {
        if let Some(l) = Lang::from_code(v) {
            return l;
        }
    }
    let mut i: usize = 0;
    assert(tags@.skip(0) =~= tags@);
    while i < tags.len()
        invariant
            i <= tags.len(),
            lang_in_tags(tags@) == lang_in_tags(tags@.skip(i as int)),
            lang_in_parts(split_char(trim_leading(search@, '?'), '&')) is None,
            (match stored {
                Some(s) => spec_from_code(s@),
                None => None,
            }) is None,
        decreases tags.len() - i,
    {
        let ghost rest = tags@.skip(i as int);
        assert(rest[0] == tags@[i as int]);
        assert(rest.drop_first() =~= tags@.skip(i + 1));
        if let Some(l) = Lang::from_browser_tag(tags[i]) {
            return l;
        }
        i = i + 1;
    }
    assert(tags@.skip(tags.len() as int) =~= Seq::<&str>::empty());
    Lang::En
}

/// `s[a..b]` as a new vector.
fn slice_chars_of(s: &[char], a: usize, b: usize) -> (r: Vec<char>)
    requires
        a <= b <= s.len(),
    ensures
        r@ == s@.subrange(a as int, b as int),
{
    let mut r: Vec<char> = Vec::new();
    let mut i: usize = a;
    while i < b
        invariant
            a <= i <= b <= s.len(),
            r@ == s@.subrange(a as int, i as int),
        decreases b - i,
    {
        r.push(s[i]);
        i = i + 1;
        assert(r@ =~= s@.subrange(a as int, i as int));
    }
    r
}

} // verus!
