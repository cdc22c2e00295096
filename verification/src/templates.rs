//! Mail templates: `$name` variables, their substitution, and plain text turned into HTML.
use vstd::prelude::*;
use crate::lang::Lang;
use crate::model::EmailTemplates;
use crate::text::{chars_of, chars_eq, string_from_chars, push_str, push_chars};

verus! {

/// Variable names recognized by the template renderer. Any `$word` token that matches one of
/// these is substituted at send time; anything else renders literally.
pub const TEMPLATE_VARIABLES: [&'static str; 4] = ["event_name", "admin_mail", "url", "slot"];

pub const INVITE_VARS: [&'static str; 3] = ["event_name", "admin_mail", "url"];

pub const UPDATE_VARS: [&'static str; 3] = ["event_name", "admin_mail", "url"];

pub const REMINDER_VARS: [&'static str; 3] = ["event_name", "admin_mail", "url"];

pub const RESULTS_VARS: [&'static str; 2] = ["event_name", "slot"];

/// Variables a template must contain: saving is refused if any is missing.
pub const INVITE_REQUIRED: [&'static str; 1] = ["url"];

pub const UPDATE_REQUIRED: [&'static str; 1] = ["url"];

pub const REMINDER_REQUIRED: [&'static str; 1] = ["url"];

pub const RESULTS_REQUIRED: [&'static str; 1] = ["slot"];

/// A piece of a template: plain text, or a `$name` variable (`raw` is `$` and the name;
/// `known` tells whether the name is one of `TEMPLATE_VARIABLES`).
#[derive(Debug, Clone)]
pub enum TemplateSpan {
    Text(String),
    Var { raw: String, name: String, known: bool },
}

/// A span as the text it covers: `(false, text)` or `(true, name)`.
pub open spec fn span_view(s: TemplateSpan) -> (bool, Seq<char>) {
    match s {
        TemplateSpan::Text(t) => (false, t@),
        TemplateSpan::Var { name, .. } => (true, name@),
    }
}

/// The spans are well formed: each variable's `raw` is `$` and its name, and `known` tells
/// whether the name is a template variable.
pub open spec fn spans_consistent(spans: Seq<TemplateSpan>) -> bool {
    forall|i: int|
        0 <= i < spans.len() ==> match #[trigger] spans[i] {
            TemplateSpan::Text(_) => true,
            TemplateSpan::Var { raw, name, known } => raw@ == seq!['$'] + name@ && known == is_known(name@),
        }
}

pub open spec fn is_name_start(c: char) -> bool {
    ('a' <= c && c <= 'z') || ('A' <= c && c <= 'Z') || c == '_'
}

pub open spec fn is_name_char(c: char) -> bool {
    is_name_start(c) || ('0' <= c && c <= '9')
}

/// Whether `name` is one of the template variables.
pub open spec fn is_known(name: Seq<char>) -> bool {
    name == "event_name"@ || name == "admin_mail"@ || name == "url"@ || name == "slot"@
}

/// Number of leading name characters of `s`.
pub open spec fn name_len(s: Seq<char>) -> int
    decreases s.len(),
{
    if s.len() == 0 || !is_name_char(s[0]) {
        0
    } else {
        1 + name_len(s.drop_first())
    }
}

pub proof fn lemma_name_len(s: Seq<char>)
    ensures
        0 <= name_len(s) <= s.len(),
        forall|k: int| 0 <= k < name_len(s) ==> is_name_char(#[trigger] s[k]),
        name_len(s) < s.len() ==> !is_name_char(s[name_len(s)]),
    decreases s.len(),
{
    if s.len() > 0 && is_name_char(s[0]) {
        lemma_name_len(s.drop_first());
        assert forall|k: int| 0 <= k < name_len(s) implies is_name_char(#[trigger] s[k]) by {
            if k > 0 {
                assert(s[k] == s.drop_first()[k - 1]);
            }
        }
    }
}

/// `pending` as a text span, when not empty.
pub open spec fn text_span(pending: Seq<char>) -> Seq<(bool, Seq<char>)> {
    if pending.len() > 0 {
        seq![(false, pending)]
    } else {
        Seq::empty()
    }
}

/// The spans of `s`, after plain text `pending`: a `$` followed by a letter or `_` starts a
/// variable whose name runs over the letters, digits and `_` that follow.
pub open spec fn scan(s: Seq<char>, pending: Seq<char>) -> Seq<(bool, Seq<char>)>
    decreases s.len(),
{
    if s.len() == 0 {
        text_span(pending)
    } else if s[0] == '$' && s.len() > 1 && is_name_start(s[1]) {
        proof {
            lemma_name_len(s.drop_first());
        }
        let k = name_len(s.drop_first());
        text_span(pending) + seq![(true, s.subrange(1, 1 + k))] + scan(s.skip(1 + k), Seq::empty())
    } else {
        scan(s.drop_first(), pending.push(s[0]))
    }
}

/// The text a span covers in the template.
pub open spec fn span_source(sp: (bool, Seq<char>)) -> Seq<char> {
    if sp.0 {
        seq!['$'] + sp.1
    } else {
        sp.1
    }
}

/// The spans' texts, in order.
pub open spec fn sources(spans: Seq<(bool, Seq<char>)>) -> Seq<char>
    decreases spans.len(),
{
    if spans.len() == 0 {
        Seq::empty()
    } else {
        sources(spans.drop_last()) + span_source(spans.last())
    }
}

fn is_name_start_char(c: char) -> (b: bool)
    ensures
        b == is_name_start(c),
{
    ('a' <= c && c <= 'z') || ('A' <= c && c <= 'Z') || c == '_'
}

fn is_name_char_exec(c: char) -> (b: bool)
    ensures
        b == is_name_char(c),
{
    is_name_start_char(c) || ('0' <= c && c <= '9')
}

/// Whether `name` is one of the template variables.
fn known_name(name: &[char]) -> (b: bool)
    ensures
        b == is_known(name@),
{
    let a = chars_of("event_name");
    let b = chars_of("admin_mail");
    let c = chars_of("url");
    let d = chars_of("slot");
    chars_eq(name, a.as_slice()) || chars_eq(name, b.as_slice()) || chars_eq(name, c.as_slice()) || chars_eq(
        name,
        d.as_slice(),
    )
}

proof fn lemma_sources_push(spans: Seq<(bool, Seq<char>)>, sp: (bool, Seq<char>))
    ensures
        sources(spans.push(sp)) == sources(spans) + span_source(sp),
{
    assert(spans.push(sp).drop_last() =~= spans);
}

proof fn lemma_sources_concat(a: Seq<(bool, Seq<char>)>, b: Seq<(bool, Seq<char>)>)
    ensures
        sources(a + b) == sources(a) + sources(b),
    decreases b.len(),
{
    if b.len() == 0 {
        assert(a + b =~= a);
    } else {
        lemma_sources_concat(a, b.drop_last());
        assert((a + b).drop_last() =~= a + b.drop_last());
        assert(sources(a) + (sources(b.drop_last()) + span_source(b.last())) =~= sources(a) + sources(
            b.drop_last(),
        ) + span_source(b.last()));
    }
}

/// Putting the spans' texts back together gives the template.
pub proof fn lemma_scan_sources(s: Seq<char>, pending: Seq<char>)
    ensures
        sources(scan(s, pending)) == pending + s,
    decreases s.len(),
{
    if s.len() == 0 {
        assert(pending + s =~= pending);
        if pending.len() > 0 {
            lemma_sources_push(Seq::empty(), (false, pending));
            assert(seq![(false, pending)] =~= Seq::<(bool, Seq<char>)>::empty().push((false, pending)));
            assert(Seq::<char>::empty() + pending =~= pending);
        }
    } else if s[0] == '$' && s.len() > 1 && is_name_start(s[1]) {
        lemma_name_len(s.drop_first());
        let k = name_len(s.drop_first());
        lemma_scan_sources(s.skip(1 + k), Seq::empty());
        let head = text_span(pending) + seq![(true, s.subrange(1, 1 + k))];
        lemma_sources_concat(head, scan(s.skip(1 + k), Seq::empty()));
        lemma_sources_push(text_span(pending), (true, s.subrange(1, 1 + k)));
        assert(head =~= text_span(pending).push((true, s.subrange(1, 1 + k))));
        if pending.len() > 0 {
            lemma_sources_push(Seq::empty(), (false, pending));
            assert(seq![(false, pending)] =~= Seq::<(bool, Seq<char>)>::empty().push((false, pending)));
            assert(Seq::<char>::empty() + pending =~= pending);
        }
        assert(sources(text_span(pending)) == pending);
        assert(Seq::<char>::empty() + s.skip(1 + k) =~= s.skip(1 + k));
        assert(pending + (seq!['$'] + s.subrange(1, 1 + k)) + s.skip(1 + k) =~= pending + s);
    } else {
        lemma_scan_sources(s.drop_first(), pending.push(s[0]));
        assert(pending.push(s[0]) + s.drop_first() =~= pending + s);
    }
}

/// A variable's name: a letter or `_`, then letters, digits and `_`.
pub open spec fn is_var_name(n: Seq<char>) -> bool {
    &&& n.len() > 0
    &&& is_name_start(n[0])
    &&& forall|k: int| 0 <= k < n.len() ==> #[trigger] is_name_char(n[k])
}

/// Spans as the template scan cuts them: no empty text, a proper name for each variable, no
/// two texts in a row, and a variable's name taken as far as it goes (what follows a
/// variable does not start with a name character).
pub open spec fn well_cut(sp: Seq<(bool, Seq<char>)>) -> bool {
    &&& forall|i: int| 0 <= i < sp.len() ==> (if (#[trigger] sp[i]).0 { is_var_name(sp[i].1) } else { sp[i].1.len() > 0 })
    &&& forall|i: int, j: int| 0 <= i && j == i + 1 && j < sp.len() && !(#[trigger] sp[i]).0 ==> (#[trigger] sp[j]).0
    &&& forall|i: int, j: int|
        0 <= i && j == i + 1 && j < sp.len() && (#[trigger] sp[i]).0 ==> !is_name_char(span_source(#[trigger] sp[j])[0])
}

proof fn lemma_well_cut_cons(x: (bool, Seq<char>), r: Seq<(bool, Seq<char>)>)
    requires
        well_cut(r),
        x.0 ==> is_var_name(x.1),
        !x.0 ==> x.1.len() > 0,
        r.len() > 0 && !x.0 ==> r[0].0,
        r.len() > 0 && x.0 ==> !is_name_char(span_source(r[0])[0]),
    ensures
        well_cut(seq![x] + r),
{
    let t = seq![x] + r;
    assert forall|i: int| 0 <= i < t.len() implies (if (#[trigger] t[i]).0 { is_var_name(t[i].1) } else { t[i].1.len() > 0 }) by {
        if i > 0 {
            assert(t[i] == r[i - 1]);
        }
    }
    assert forall|i: int, j: int| 0 <= i && j == i + 1 && j < t.len() && !(#[trigger] t[i]).0 implies (#[trigger] t[j]).0 by {
        assert(t[j] == r[j - 1]);
        if i > 0 {
            assert(t[i] == r[i - 1]);
        }
    }
    assert forall|i: int, j: int|
        0 <= i && j == i + 1 && j < t.len() && (#[trigger] t[i]).0 implies !is_name_char(span_source(#[trigger] t[j])[0]) by {
        assert(t[j] == r[j - 1]);
        if i > 0 {
            assert(t[i] == r[i - 1]);
        }
    }
}

proof fn lemma_sources_first(sp: Seq<(bool, Seq<char>)>)
    requires
        sp.len() > 0,
        span_source(sp[0]).len() > 0,
    ensures
        sources(sp).len() > 0,
        sources(sp)[0] == span_source(sp[0])[0],
{
    lemma_sources_concat(seq![sp[0]], sp.drop_first());
    assert(seq![sp[0]] + sp.drop_first() =~= sp);
    lemma_sources_push(Seq::empty(), sp[0]);
    assert(seq![sp[0]] =~= Seq::<(bool, Seq<char>)>::empty().push(sp[0]));
}

proof fn lemma_scan_well_cut_from(s: Seq<char>, pending: Seq<char>)
    ensures
        well_cut(scan(s, pending)),
        scan(s, pending).len() > 0 ==> span_source(scan(s, pending)[0]).len() > 0,
    decreases s.len(),
{
    if s.len() == 0 {
        if pending.len() > 0 {
            lemma_well_cut_cons((false, pending), Seq::empty());
            assert(seq![(false, pending)] + Seq::<(bool, Seq<char>)>::empty() =~= seq![(false, pending)]);
        }
    } else if s[0] == '$' && s.len() > 1 && is_name_start(s[1]) {
        lemma_name_len(s.drop_first());
        let k = name_len(s.drop_first());
        let rest = s.skip(1 + k);
        let r = scan(rest, Seq::empty());
        let name = s.subrange(1, 1 + k);
        lemma_scan_well_cut_from(rest, Seq::empty());
        assert forall|q: int| 0 <= q < name.len() implies #[trigger] is_name_char(name[q]) by {
            assert(name[q] == s.drop_first()[q]);
        }
        if r.len() > 0 {
            lemma_scan_sources(rest, Seq::empty());
            lemma_sources_first(r);
            assert(Seq::<char>::empty() + rest =~= rest);
            assert(rest[0] == s.drop_first()[k]);
        }
        lemma_well_cut_cons((true, name), r);
        let v = seq![(true, name)] + r;
        if pending.len() > 0 {
            lemma_well_cut_cons((false, pending), v);
            assert(text_span(pending) + seq![(true, name)] + r =~= seq![(false, pending)] + v);
        } else {
            assert(text_span(pending) + seq![(true, name)] + r =~= v);
        }
    } else {
        lemma_scan_well_cut_from(s.drop_first(), pending.push(s[0]));
    }
}

/// The spans of any template are well cut.
pub proof fn lemma_scan_well_cut(s: Seq<char>)
    ensures
        well_cut(scan(s, Seq::empty())),
{
    lemma_scan_well_cut_from(s, Seq::empty());
}

/// Cuts `template` into plain text and `$name` variables.
pub fn scan_template(template: &str) -> (spans: Vec<TemplateSpan>)
    ensures
        spans@.map_values(|t: TemplateSpan| span_view(t)) == scan(template@, Seq::empty()),
        spans_consistent(spans@),
{
    let s = chars_of(template);
    let mut spans: Vec<TemplateSpan> = Vec::new();
    let mut pending: Vec<char> = Vec::new();
    let mut i: usize = 0;
    assert(s@.skip(0) =~= s@);
    assert(spans@.map_values(|t: TemplateSpan| span_view(t)) =~= Seq::<(bool, Seq<char>)>::empty());
    while i < s.len()
        invariant
            i <= s.len(),
            s@ == template@,
            scan(s@, Seq::empty()) == spans@.map_values(|t: TemplateSpan| span_view(t)) + scan(
                s@.skip(i as int),
                pending@,
            ),
            spans_consistent(spans@),
        decreases s.len() - i,
    {
        let ghost rest = s@.skip(i as int);
        let ghost before = spans@.map_values(|t: TemplateSpan| span_view(t));
        if s[i] == '$' && i + 1 < s.len() && is_name_start_char(s[i + 1]) {
            assert(rest[0] == '$' && rest.len() > 1 && rest[1] == s@[i + 1]);
            proof {
                lemma_name_len(rest.drop_first());
            }
            let mut j: usize = i + 1;
            let mut name: Vec<char> = Vec::new();
            while j < s.len() && is_name_char_exec(s[j])
                invariant
                    i + 1 <= j <= s.len(),
                    name@ == s@.subrange(i + 1, j as int),
                    forall|k: int| i + 1 <= k < j ==> is_name_char(#[trigger] s@[k]),
                decreases s.len() - j,
            {
                name.push(s[j]);
                j = j + 1;
                assert(name@ =~= s@.subrange(i + 1, j as int));
            }
            proof {
                let t = rest.drop_first();
                let k = name_len(t);
                assert(t =~= s@.skip(i + 1));
                if k < j - (i + 1) {
                    assert(!is_name_char(t[k]));
                    assert(t[k] == s@[i + 1 + k]);
                }
                if k > j - (i + 1) {
                    assert(is_name_char(t[j - (i + 1)]));
                    assert(t[j - (i + 1)] == s@[j as int]);
                }
                assert(k == j - (i + 1));
                assert(rest.subrange(1, 1 + k) =~= name@);
                assert(rest.skip(1 + k) =~= s@.skip(j as int));
            }
            let ghost tp = text_span(pending@);
            if pending.len() > 0 {
                let text = string_from_chars(pending.as_slice());
                spans.push(TemplateSpan::Text(text));
            }
            let known = known_name(name.as_slice());
            let mut raw: Vec<char> = Vec::new();
            raw.push('$');
            push_chars(&mut raw, name.as_slice());
            assert(raw@ =~= seq!['$'] + name@);
            let ghost nv = name@;
            let var = TemplateSpan::Var {
                raw: string_from_chars(raw.as_slice()),
                name: string_from_chars(name.as_slice()),
                known,
            };
            spans.push(var);
            assert(spans@.map_values(|t: TemplateSpan| span_view(t)) =~= before + tp + seq![(true, nv)]);
            pending = Vec::new();
            assert forall|q: int| 0 <= q < spans@.len() implies match #[trigger] spans@[q] {
                TemplateSpan::Text(_) => true,
                TemplateSpan::Var { raw, name, known } => raw@ == seq!['$'] + name@ && known == is_known(name@),
            } by {}
            i = j;
        } else {
            assert(rest.drop_first() =~= s@.skip(i + 1));
            if s[i] == '$' && i + 1 < s.len() {
                assert(rest[1] == s@[i + 1]);
            }
            pending.push(s[i]);
            i = i + 1;
        }
    }
    let ghost before = spans@.map_values(|t: TemplateSpan| span_view(t));
    let ghost tp = text_span(pending@);
    assert(s@.skip(i as int) =~= Seq::<char>::empty());
    if pending.len() > 0 {
        let text = string_from_chars(pending.as_slice());
        spans.push(TemplateSpan::Text(text));
    }
    assert(spans@.map_values(|t: TemplateSpan| span_view(t)) =~= before + tp);
    spans
}

/// The value of the first pair whose key is `name`.
pub open spec fn lookup(vars: Seq<(&str, &str)>, name: Seq<char>) -> Option<Seq<char>>
    decreases vars.len(),
{
    if vars.len() == 0 {
        None
    } else if vars[0].0@ == name {
        Some(vars[0].1@)
    } else {
        lookup(vars.drop_first(), name)
    }
}

/// The spans with each variable replaced by its value, or left as written when it has none.
pub open spec fn render(spans: Seq<(bool, Seq<char>)>, vars: Seq<(&str, &str)>) -> Seq<char>
    decreases spans.len(),
{
    if spans.len() == 0 {
        Seq::empty()
    } else {
        let sp = spans.last();
        render(spans.drop_last(), vars) + if sp.0 {
            match lookup(vars, sp.1) {
                Some(v) => v,
                None => span_source(sp),
            }
        } else {
            sp.1
        }
    }
}

fn lookup_var<'a>(vars: &[(&'a str, &'a str)], name: &[char]) -> (r: Option<&'a str>)
    ensures
        match r {
            Some(v) => lookup(vars@, name@) == Some(v@),
            None => lookup(vars@, name@) is None,
        },
{
    let mut i: usize = 0;
    assert(vars@.skip(0) =~= vars@);
    while i < vars.len()
        invariant
            i <= vars.len(),
            lookup(vars@, name@) == lookup(vars@.skip(i as int), name@),
        decreases vars.len() - i,
    {
        let (k, v) = vars[i];
        let kc = chars_of(k);
        assert(vars@.skip(i as int)[0] == vars@[i as int]);
        if chars_eq(kc.as_slice(), name) {
            return Some(v);
        }
        assert(vars@.skip(i as int).drop_first() =~= vars@.skip(i + 1));
        i = i + 1;
    }
    None
}

/// Substitutes the `$name` tokens of `template` using `vars`; tokens without a value render
/// literally, `$` included. A token is `$` followed by ASCII letters, digits or `_`, the
/// first being a letter or `_`.
pub fn render_template(template: &str, vars: &[(&str, &str)]) -> (out: String)
    ensures
        out@ == render(scan(template@, Seq::empty()), vars@),
{
    let spans = scan_template(template);
    let ghost sv = spans@.map_values(|t: TemplateSpan| span_view(t));
    let mut out: Vec<char> = Vec::new();
    let mut i: usize = 0;
    while i < spans.len()
        invariant
            i <= spans.len(),
            sv == spans@.map_values(|t: TemplateSpan| span_view(t)),
            spans_consistent(spans@),
            out@ == render(sv.take(i as int), vars@),
        decreases spans.len() - i,
    {
        assert(sv.take(i + 1).drop_last() =~= sv.take(i as int));
        assert(sv.take(i + 1).last() == span_view(spans@[i as int]));
        match &spans[i] {
            TemplateSpan::Text(t) => {
                push_str(&mut out, t.as_str());
            },
            TemplateSpan::Var { raw, name, .. } => {
                let n = chars_of(name.as_str());
                match lookup_var(vars, n.as_slice()) {
                    Some(v) => push_str(&mut out, v),
                    None => push_str(&mut out, raw.as_str()),
                }
            },
        }
        i = i + 1;
    }
    assert(sv.take(spans.len() as int) =~= sv);
    string_from_chars(out.as_slice())
}

/// A template rendered with variables that none of its tokens name comes back unchanged.
pub proof fn lemma_render_unmatched(template: Seq<char>, vars: Seq<(&str, &str)>)
    requires
        forall|i: int| 0 <= i < vars.len() ==> !(#[trigger] scan(template, Seq::empty()).contains((true, vars[i].0@))),
    ensures
        render(scan(template, Seq::empty()), vars) == template,
{
    let spans = scan(template, Seq::empty());
    lemma_render_sources(spans, vars);
    lemma_scan_sources(template, Seq::empty());
    assert(Seq::<char>::empty() + template =~= template);
}

proof fn lemma_lookup_none(vars: Seq<(&str, &str)>, name: Seq<char>)
    requires
        forall|i: int| 0 <= i < vars.len() ==> #[trigger] vars[i].0@ != name,
    ensures
        lookup(vars, name) is None,
    decreases vars.len(),
{
    if vars.len() > 0 {
        assert(vars[0].0@ != name);
        assert forall|i: int| 0 <= i < vars.drop_first().len() implies #[trigger] vars.drop_first()[i].0@ != name by {
            assert(vars.drop_first()[i] == vars[i + 1]);
        }
        lemma_lookup_none(vars.drop_first(), name);
    }
}

proof fn lemma_render_sources(spans: Seq<(bool, Seq<char>)>, vars: Seq<(&str, &str)>)
    requires
        forall|i: int| 0 <= i < vars.len() ==> !(#[trigger] spans.contains((true, vars[i].0@))),
    ensures
        render(spans, vars) == sources(spans),
    decreases spans.len(),
{
    if spans.len() > 0 {
        let sp = spans.last();
        assert forall|i: int| 0 <= i < vars.len() implies !(#[trigger] spans.drop_last().contains((true, vars[i].0@))) by {
            if spans.drop_last().contains((true, vars[i].0@)) {
                let k = choose|k: int| 0 <= k < spans.drop_last().len() && spans.drop_last()[k] == (true, vars[i].0@);
                assert(spans[k] == (true, vars[i].0@));
                assert(spans.contains((true, vars[i].0@)));
            }
        }
        lemma_render_sources(spans.drop_last(), vars);
        if sp.0 {
            assert forall|i: int| 0 <= i < vars.len() implies #[trigger] vars[i].0@ != sp.1 by {
                if vars[i].0@ == sp.1 {
                    assert(spans[spans.len() - 1] == (true, vars[i].0@));
                    assert(spans.contains((true, vars[i].0@)));
                }
            }
            lemma_lookup_none(vars, sp.1);
        }
    }
}

/// Whether the template uses the variable `var`.
pub open spec fn uses_var(template: Seq<char>, var: Seq<char>) -> bool {
    scan(template, Seq::empty()).contains((true, var))
}

fn template_contains_var(template: &str, var: &str) -> (b: bool)
    ensures
        b == uses_var(template@, var@),
{
    let spans = scan_template(template);
    let ghost sv = spans@.map_values(|t: TemplateSpan| span_view(t));
    let v = chars_of(var);
    let mut found = false;
    let mut i: usize = 0;
    while i < spans.len()
        invariant
            i <= spans.len(),
            v@ == var@,
            sv == spans@.map_values(|t: TemplateSpan| span_view(t)),
            found == exists|k: int| 0 <= k < i && #[trigger] sv[k] == (true, var@),
        decreases spans.len() - i,
    {
        match &spans[i] {
            TemplateSpan::Var { name, .. } => {
                let n = chars_of(name.as_str());
                if chars_eq(n.as_slice(), v.as_slice()) {
                    found = true;
                }
            },
            TemplateSpan::Text(_) => {},
        }
        assert(sv[i as int] == span_view(spans@[i as int]));
        i = i + 1;
    }
    proof {
        if found {
            let k = choose|k: int| 0 <= k < spans.len() && #[trigger] sv[k] == (true, var@);
            assert(sv.contains((true, var@)));
        }
        if sv.contains((true, var@)) {
            let k = choose|k: int| 0 <= k < sv.len() && sv[k] == (true, var@);
            assert(sv[k] == (true, var@));
        }
    }
    found
}

/// The names of `required` that `template` does not use, in order.
pub open spec fn missing(template: Seq<char>, required: Seq<&str>) -> Seq<Seq<char>>
    decreases required.len(),
{
    if required.len() == 0 {
        Seq::empty()
    } else {
        let rest = missing(template, required.drop_last());
        if uses_var(template, required.last()@) {
            rest
        } else {
            rest.push(required.last()@)
        }
    }
}

/// The names of `required` that appear nowhere in `template` as a variable.
pub fn missing_required_vars<'a>(template: &str, required: &'a [&'a str]) -> (r: Vec<&'a str>)
    ensures
        r@.map_values(|s: &str| s@) == missing(template@, required@),
{
    let mut r: Vec<&'a str> = Vec::new();
    let mut i: usize = 0;
    while i < required.len()
        invariant
            i <= required.len(),
            r@.map_values(|s: &str| s@) == missing(template@, required@.take(i as int)),
        decreases required.len() - i,
    {
        assert(required@.take(i + 1).drop_last() =~= required@.take(i as int));
        let v = required[i];
        let ghost before = r@.map_values(|s: &str| s@);
        if !template_contains_var(template, v) {
            r.push(v);
            assert(r@.map_values(|s: &str| s@) =~= before.push(v@));
        }
        i = i + 1;
    }
    assert(required@.take(required.len() as int) =~= required@);
    r
}

// English

pub const INVITE_EN: &'static str = "Hi,\n\
     \n\
     You have been invited by $admin_mail to give your wishes about the event: $event_name\n\
     \n\
     To set your wishes, go to: $url\n\
     \n\
     Have a nice day,\n\
     The Wish team";

pub const UPDATE_EN: &'static str = "Hi,\n\
     \n\
     The administrator ($admin_mail) of the event $event_name has modified the slots.\n\
     \n\
     Please look at your wish: $url\n\
     \n\
     Have a nice day,\n\
     The Wish team";

pub const REMINDER_EN: &'static str = "Hi,\n\
     \n\
     Don't forget to fill your wish for the event $event_name.\n\
     \n\
     Go to: $url\n\
     \n\
     Have a nice day,\n\
     The Wish team";

pub const RESULTS_EN: &'static str = "Hi,\n\
     \n\
     You have been put in the slot $slot for the event $event_name.\n\
     \n\
     Have a nice day,\n\
     The Wish team";

// French

pub const INVITE_FR: &'static str = "Bonjour,\n\
     \n\
     Vous avez été invité·e par $admin_mail à donner vos souhaits pour l'événement : $event_name\n\
     \n\
     Pour renseigner vos souhaits, rendez-vous sur : $url\n\
     \n\
     Bonne journée,\n\
     L'équipe Wish";

pub const UPDATE_FR: &'static str = "Bonjour,\n\
     \n\
     L'administrateur ($admin_mail) de l'événement $event_name a modifié les créneaux.\n\
     \n\
     Merci de revoir vos souhaits : $url\n\
     \n\
     Bonne journée,\n\
     L'équipe Wish";

pub const REMINDER_FR: &'static str = "Bonjour,\n\
     \n\
     N'oubliez pas de renseigner vos souhaits pour l'événement $event_name.\n\
     \n\
     Rendez-vous sur : $url\n\
     \n\
     Bonne journée,\n\
     L'équipe Wish";

pub const RESULTS_FR: &'static str = "Bonjour,\n\
     \n\
     Vous avez été placé·e dans le créneau $slot pour l'événement $event_name.\n\
     \n\
     Bonne journée,\n\
     L'équipe Wish";

// Italian

pub const INVITE_IT: &'static str = "Ciao,\n\
     \n\
     Sei stato/a invitato/a da $admin_mail a esprimere le tue preferenze per l'evento: $event_name\n\
     \n\
     Per indicare le tue preferenze, vai su: $url\n\
     \n\
     Buona giornata,\n\
     Il team Wish";

pub const UPDATE_IT: &'static str = "Ciao,\n\
     \n\
     L'amministratore ($admin_mail) dell'evento $event_name ha modificato le fasce orarie.\n\
     \n\
     Ti preghiamo di rivedere le tue preferenze: $url\n\
     \n\
     Buona giornata,\n\
     Il team Wish";

pub const REMINDER_IT: &'static str = "Ciao,\n\
     \n\
     Non dimenticare di indicare le tue preferenze per l'evento $event_name.\n\
     \n\
     Vai su: $url\n\
     \n\
     Buona giornata,\n\
     Il team Wish";

pub const RESULTS_IT: &'static str = "Ciao,\n\
     \n\
     Sei stato/a assegnato/a alla fascia $slot per l'evento $event_name.\n\
     \n\
     Buona giornata,\n\
     Il team Wish";

// German

pub const INVITE_DE: &'static str = "Hallo,\n\
     \n\
     Du wurdest von $admin_mail eingeladen, deine Wünsche für die Veranstaltung anzugeben: $event_name\n\
     \n\
     Um deine Wünsche einzutragen, gehe zu: $url\n\
     \n\
     Einen schönen Tag,\n\
     Das Wish-Team";

pub const UPDATE_DE: &'static str = "Hallo,\n\
     \n\
     Der Administrator ($admin_mail) der Veranstaltung $event_name hat die Zeitfenster geändert.\n\
     \n\
     Bitte überprüfe deine Wünsche: $url\n\
     \n\
     Einen schönen Tag,\n\
     Das Wish-Team";

pub const REMINDER_DE: &'static str = "Hallo,\n\
     \n\
     Vergiss nicht, deine Wünsche für die Veranstaltung $event_name anzugeben.\n\
     \n\
     Gehe zu: $url\n\
     \n\
     Einen schönen Tag,\n\
     Das Wish-Team";

pub const RESULTS_DE: &'static str = "Hallo,\n\
     \n\
     Du wurdest dem Zeitfenster $slot für die Veranstaltung $event_name zugeteilt.\n\
     \n\
     Einen schönen Tag,\n\
     Das Wish-Team";

/// The default invitation template of a language.
pub open spec fn invite_text(lang: Lang) -> Seq<char> {
    match lang {
        Lang::En => INVITE_EN@,
        Lang::Fr => INVITE_FR@,
        Lang::It => INVITE_IT@,
        Lang::De => INVITE_DE@,
    }
}

/// The default template announcing changed slots.
pub open spec fn update_text(lang: Lang) -> Seq<char> {
    match lang {
        Lang::En => UPDATE_EN@,
        Lang::Fr => UPDATE_FR@,
        Lang::It => UPDATE_IT@,
        Lang::De => UPDATE_DE@,
    }
}

/// The default reminder template.
pub open spec fn reminder_text(lang: Lang) -> Seq<char> {
    match lang {
        Lang::En => REMINDER_EN@,
        Lang::Fr => REMINDER_FR@,
        Lang::It => REMINDER_IT@,
        Lang::De => REMINDER_DE@,
    }
}

/// The default results template.
pub open spec fn results_text(lang: Lang) -> Seq<char> {
    match lang {
        Lang::En => RESULTS_EN@,
        Lang::Fr => RESULTS_FR@,
        Lang::It => RESULTS_IT@,
        Lang::De => RESULTS_DE@,
    }
}

impl EmailTemplates {
    /// The default templates of a language.
    pub fn for_lang(lang: Lang) -> (r: EmailTemplates)
        ensures
            r.invite@ == invite_text(lang),
            r.update@ == update_text(lang),
            r.reminder@ == reminder_text(lang),
            r.results@ == results_text(lang),
    {
        let (invite, update, reminder, results) = match lang {
            Lang::En => (INVITE_EN, UPDATE_EN, REMINDER_EN, RESULTS_EN),
            Lang::Fr => (INVITE_FR, UPDATE_FR, REMINDER_FR, RESULTS_FR),
            Lang::It => (INVITE_IT, UPDATE_IT, REMINDER_IT, RESULTS_IT),
            Lang::De => (INVITE_DE, UPDATE_DE, REMINDER_DE, RESULTS_DE),
        };
        EmailTemplates {
            invite: String::from_str(invite),
            update: String::from_str(update),
            reminder: String::from_str(reminder),
            results: String::from_str(results),
        }
    }
}

impl Default for EmailTemplates {
    fn default() -> (r: EmailTemplates)
        ensures
            r.invite@ == invite_text(Lang::En),
            r.update@ == update_text(Lang::En),
            r.reminder@ == reminder_text(Lang::En),
            r.results@ == results_text(Lang::En),
    {
        EmailTemplates::for_lang(Lang::En)
    }
}

/// The HTML escape of one character.
pub open spec fn escape_char(c: char) -> Seq<char> {
    if c == '&' {
        "&amp;"@
    } else if c == '<' {
        "&lt;"@
    } else if c == '>' {
        "&gt;"@
    } else if c == '"' {
        "&quot;"@
    } else if c == '\'' {
        "&#x27;"@
    } else {
        seq![c]
    }
}

/// `s` with the HTML special characters escaped.
pub open spec fn escaped(s: Seq<char>) -> Seq<char>
    decreases s.len(),
{
    if s.len() == 0 {
        Seq::empty()
    } else {
        escaped(s.drop_last()) + escape_char(s.last())
    }
}

fn push_escaped_html(out: &mut Vec<char>, s: &[char])
    ensures
        final(out)@ == old(out)@ + escaped(s@),
{
    let ghost start = out@;
    let mut i: usize = 0;
    assert(s@.take(0) =~= Seq::<char>::empty());
    while i < s.len()
        invariant
            i <= s.len(),
            out@ == start + escaped(s@.take(i as int)),
        decreases s.len() - i,
    {
        let c = s[i];
        if c == '&' {
            push_str(out, "&amp;");
        } else if c == '<' {
            push_str(out, "&lt;");
        } else if c == '>' {
            push_str(out, "&gt;");
        } else if c == '"' {
            push_str(out, "&quot;");
        } else if c == '\'' {
            push_str(out, "&#x27;");
        } else {
            out.push(c);
        }
        assert(s@.take(i + 1).drop_last() =~= s@.take(i as int));
        assert(out@ =~= start + escaped(s@.take(i + 1)));
        i = i + 1;
    }
    assert(s@.take(s.len() as int) =~= s@);
}

/// Escapes the HTML special characters `& < > " '`.
pub fn escape_html(s: &str) -> (out: String)
    ensures
        out@ == escaped(s@),
{
    let c = chars_of(s);
    let mut out: Vec<char> = Vec::new();
    push_escaped_html(&mut out, c.as_slice());
    string_from_chars(out.as_slice())
}

/// Position of the first blank line (`\n\n`) in `s`, or `s.len()` when there is none.
pub open spec fn find_blank(s: Seq<char>) -> int
    decreases s.len(),
{
    if s.len() < 2 {
        s.len() as int
    } else if s[0] == '\n' && s[1] == '\n' {
        0
    } else {
        1 + find_blank(s.drop_first())
    }
}

proof fn lemma_find_blank(s: Seq<char>, i: int)
    requires
        0 <= i <= s.len(),
        forall|k: int| 0 <= k < i && k + 1 < s.len() ==> !(#[trigger] s[k] == '\n' && s[k + 1] == '\n'),
        i + 1 < s.len() ==> s[i] == '\n' && s[i + 1] == '\n',
        i + 1 >= s.len() ==> i == s.len(),
    ensures
        find_blank(s) == i,
    decreases i,
{
    if i > 0 && s.len() >= 2 {
        assert(!(s[0] == '\n' && s[1] == '\n'));
        lemma_find_blank(s.drop_first(), i - 1);
    }
}

pub proof fn lemma_find_blank_bounds(s: Seq<char>)
    ensures
        0 <= find_blank(s) <= s.len(),
        find_blank(s) < s.len() ==> find_blank(s) + 1 < s.len(),
    decreases s.len(),
{
    if s.len() >= 2 && !(s[0] == '\n' && s[1] == '\n') {
        lemma_find_blank_bounds(s.drop_first());
    }
}

/// The pieces of `s` between blank lines (`str::split("\n\n")`).
pub open spec fn paragraphs(s: Seq<char>) -> Seq<Seq<char>>
    decreases s.len(),
{
    proof {
        lemma_find_blank_bounds(s);
    }
    let i = find_blank(s);
    if i < s.len() {
        seq![s.take(i)] + paragraphs(s.skip(i + 2))
    } else {
        seq![s]
    }
}

/// `s` without its leading and trailing newlines.
pub open spec fn trim_newlines(s: Seq<char>) -> Seq<char>
    decreases s.len(),
{
    if s.len() > 0 && s[0] == '\n' {
        trim_newlines(s.drop_first())
    } else if s.len() > 0 && s.last() == '\n' {
        trim_newlines(s.drop_last())
    } else {
        s
    }
}

/// `s` with each newline replaced by `<br/>`.
pub open spec fn line_breaks(s: Seq<char>) -> Seq<char>
    decreases s.len(),
{
    if s.len() == 0 {
        Seq::empty()
    } else {
        line_breaks(s.drop_last()) + if s.last() == '\n' { "<br/>"@ } else { seq![s.last()] }
    }
}

/// Each non-empty paragraph, trimmed of newlines, with line breaks, between `<p>` and `</p>`.
pub open spec fn html_paragraphs(ps: Seq<Seq<char>>) -> Seq<char>
    decreases ps.len(),
{
    if ps.len() == 0 {
        Seq::empty()
    } else {
        let q = line_breaks(trim_newlines(ps.last()));
        html_paragraphs(ps.drop_last()) + if q.len() > 0 { "<p>"@ + q + "</p>"@ } else { Seq::empty() }
    }
}

proof fn lemma_trim_newlines_skip(s: Seq<char>, a: int, b: int)
    requires
        0 <= a <= b <= s.len(),
        forall|k: int| 0 <= k < a ==> s[k] == '\n',
        forall|k: int| b <= k < s.len() ==> s[k] == '\n',
        a < b ==> s[a] != '\n' && s[b - 1] != '\n',
        a == b ==> a == s.len(),
    ensures
        trim_newlines(s) == s.subrange(a, b),
    decreases s.len(),
{
    if s.len() > 0 && s[0] == '\n' {
        assert(a > 0);
        lemma_trim_newlines_skip(s.drop_first(), a - 1, b - 1);
        assert(s.drop_first().subrange(a - 1, b - 1) =~= s.subrange(a, b));
    } else if s.len() > 0 && s.last() == '\n' {
        assert(a == 0);
        assert(b < s.len());
        lemma_trim_newlines_skip(s.drop_last(), a, b);
        assert(s.drop_last().subrange(a, b) =~= s.subrange(a, b));
    } else {
        if s.len() > 0 {
            assert(a == 0);
            assert(b == s.len());
        }
        assert(s.subrange(a, b) =~= s);
    }
}

/// Appends the paragraph `p` as HTML: trimmed of newlines, line breaks as `<br/>`, between
/// `<p>` and `</p>`; nothing when it is empty.
fn push_paragraph(out: &mut Vec<char>, p: &[char])
    ensures
        final(out)@ == old(out)@ + (if line_breaks(trim_newlines(p@)).len() > 0 {
            "<p>"@ + line_breaks(trim_newlines(p@)) + "</p>"@
        } else {
            Seq::empty()
        }),
{
    let mut a: usize = 0;
    while a < p.len() && p[a] == '\n'
        invariant
            a <= p.len(),
            forall|k: int| 0 <= k < a ==> p@[k] == '\n',
        decreases p.len() - a,
    {
        a = a + 1;
    }
    let mut b: usize = p.len();
    while b > a && p[b - 1] == '\n'
        invariant
            a <= b <= p.len(),
            forall|k: int| b <= k < p.len() ==> p@[k] == '\n',
        decreases b,
    {
        b = b - 1;
    }
    proof {
        lemma_trim_newlines_skip(p@, a as int, b as int);
    }
    let ghost t = p@.subrange(a as int, b as int);
    let mut q: Vec<char> = Vec::new();
    let mut k: usize = a;
    while k < b
        invariant
            a <= k <= b <= p.len(),
            t == p@.subrange(a as int, b as int),
            q@ == line_breaks(t.take(k - a)),
        decreases b - k,
    {
        assert(t.take(k - a + 1).drop_last() =~= t.take(k - a));
        assert(t[k - a] == p@[k as int]);
        if p[k] == '\n' {
            push_str(&mut q, "<br/>");
        } else {
            q.push(p[k]);
        }
        assert(q@ =~= line_breaks(t.take(k - a + 1)));
        k = k + 1;
    }
    assert(t.take(b - a) =~= t);
    if q.len() > 0 {
        push_str(out, "<p>");
        push_chars(out, q.as_slice());
        push_str(out, "</p>");
        assert(out@ =~= old(out)@ + ("<p>"@ + q@ + "</p>"@));
    } else {
        assert(out@ =~= old(out)@ + Seq::<char>::empty());
    }
}

proof fn lemma_html_paragraphs_push(ps: Seq<Seq<char>>, p: Seq<char>)
    ensures
        html_paragraphs(ps.push(p)) == html_paragraphs(ps) + (if line_breaks(trim_newlines(p)).len() > 0 {
            "<p>"@ + line_breaks(trim_newlines(p)) + "</p>"@
        } else {
            Seq::empty()
        }),
{
    assert(ps.push(p).drop_last() =~= ps);
}

proof fn lemma_html_paragraphs_concat(a: Seq<Seq<char>>, b: Seq<Seq<char>>)
    ensures
        html_paragraphs(a + b) == html_paragraphs(a) + html_paragraphs(b),
    decreases b.len(),
{
    if b.len() == 0 {
        assert(a + b =~= a);
    } else {
        lemma_html_paragraphs_concat(a, b.drop_last());
        assert((a + b).drop_last() =~= a + b.drop_last());
        let q = line_breaks(trim_newlines(b.last()));
        let tail = if q.len() > 0 { "<p>"@ + q + "</p>"@ } else { Seq::<char>::empty() };
        assert(html_paragraphs(a) + (html_paragraphs(b.drop_last()) + tail) =~= html_paragraphs(a)
            + html_paragraphs(b.drop_last()) + tail);
    }
}

/// Turns a plain-text mail body into minimal HTML: escapes it, splits it at blank lines into
/// paragraphs, and turns the remaining line breaks into `<br/>`.
pub fn text_to_html(text: &str) -> (html: String)
    ensures
        html@ == html_paragraphs(paragraphs(escaped(text@))),
{
    let c = chars_of(text);
    let mut e: Vec<char> = Vec::new();
    push_escaped_html(&mut e, c.as_slice());
    let ghost ev = e@;
    let mut out: Vec<char> = Vec::new();
    let mut i: usize = 0;
    assert(e@.skip(0) =~= e@);
    assert(out@ =~= html_paragraphs(Seq::<Seq<char>>::empty()));
    let ghost mut done: Seq<Seq<char>> = Seq::empty();
    loop
        invariant_except_break
            paragraphs(ev) == done + paragraphs(ev.skip(i as int)),
            out@ == html_paragraphs(done),
        invariant
            i <= e.len(),
            ev == e@,
        ensures
            out@ == html_paragraphs(paragraphs(ev)),
        decreases e.len() - i,
    {
        let ghost rest = ev.skip(i as int);
        let mut j: usize = i;
        while j < e.len() && j + 1 < e.len() && !(e[j] == '\n' && e[j + 1] == '\n')
            invariant
                i <= j <= e.len(),
                ev == e@,
                forall|k: int| i <= k < j && k + 1 < e.len() ==> !(#[trigger] ev[k] == '\n' && ev[k + 1] == '\n'),
            decreases e.len() - j,
        {
            j = j + 1;
        }
        if j < e.len() && j + 1 < e.len() {
            proof {
                lemma_find_blank(rest, j - i);
                assert(rest.take(j - i) =~= ev.subrange(i as int, j as int));
                assert(rest.skip(j - i + 2) =~= ev.skip(j + 2));
                assert(paragraphs(rest) == seq![rest.take(j - i)] + paragraphs(rest.skip(j - i + 2)));
            }
            let piece = slice_of(e.as_slice(), i, j);
            push_paragraph(&mut out, piece.as_slice());
            proof {
                lemma_html_paragraphs_push(done, piece@);
                assert(done + (seq![piece@] + paragraphs(ev.skip(j + 2))) =~= done.push(piece@) + paragraphs(
                    ev.skip(j + 2),
                ));
                done = done.push(piece@);
            }
            i = j + 2;
        } else {
            proof {
                lemma_find_blank(rest, rest.len() as int);
                assert(rest =~= ev.subrange(i as int, e.len() as int));
            }
            let piece = slice_of(e.as_slice(), i, e.len());
            push_paragraph(&mut out, piece.as_slice());
            proof {
                lemma_html_paragraphs_push(done, piece@);
                assert(paragraphs(rest) == seq![rest]);
                assert(done + seq![piece@] =~= done.push(piece@));
                done = done.push(piece@);
                assert(paragraphs(ev) == done);
            }
            break;
        }
    }
    string_from_chars(out.as_slice())
}

/// `s[a..b]` as a new vector.
fn slice_of(s: &[char], a: usize, b: usize) -> (r: Vec<char>)
    requires
        a <= b <= s.len(),
    ensures
        r@ == s@.subrange(a as int, b as int),
{
    let mut r: Vec<char> = Vec::new();
    let mut i: usize = a;
    while i < b
        invariant
            a <= i <= b <= s.len(),
            r@ == s@.subrange(a as int, i as int),
        decreases b - i,
    {
        r.push(s[i]);
        i = i + 1;
        assert(r@ =~= s@.subrange(a as int, i as int));
    }
    r
}

} // verus!
