//! What the web pages decide, apart from drawing them: which page an address shows, the
//! messages the administrator's page shows, and the event the home page creates.
use vstd::prelude::*;
use crate::text::{push_str, string_from_chars, str_eq, chars_of};
use crate::numbers::{dec, push_decimal, parse_u32, parse_u32_spec};
use crate::client::{split_emails, mails_of, split_on_separators};
use crate::templates::{escape_html, escaped, missing_required_vars, missing};
use crate::feedback::ToastKind;
use crate::parse::{ParseError, ParseResult, slot_view, participant_view};
use crate::client::{error_text, error_line};
use crate::model::{Slot, ParticipantInput, SetDataRequest, EmailTemplates, CreateEventRequest};
use crate::lang::Lang;

verus! {

/// The pages of the application.
#[derive(Clone, Copy, Debug, PartialEq, Eq, Structural)]
pub enum Page {
    Wish,
    Admin,
    Offline,
    History,
    Email,
    Help,
    Home,
}

/// The page at an address path; any other path shows the home page.
pub open spec fn page_at(path: Seq<char>) -> Page {
    if path == "/wish"@ {
        Page::Wish
    } else if path == "/admin"@ {
        Page::Admin
    } else if path == "/offline"@ {
        Page::Offline
    } else if path == "/history"@ {
        Page::History
    } else if path == "/email"@ {
        Page::Email
    } else if path == "/help"@ {
        Page::Help
    } else {
        Page::Home
    }
}

/// The page to show for an address path.
pub fn route(path: &str) -> (p: Page)
    ensures
        p == page_at(path@),
{
    if str_eq(path, "/wish") {
        Page::Wish
    } else if str_eq(path, "/admin") {
        Page::Admin
    } else if str_eq(path, "/offline") {
        Page::Offline
    } else if str_eq(path, "/history") {
        Page::History
    } else if str_eq(path, "/email") {
        Page::Email
    } else if str_eq(path, "/help") {
        Page::Help
    } else {
        Page::Home
    }
}

/// The pieces, with `sep` between each two.
pub open spec fn joined_with(parts: Seq<Seq<char>>, sep: Seq<char>) -> Seq<char>
    decreases parts.len(),
{
    if parts.len() == 0 {
        Seq::empty()
    } else if parts.len() == 1 {
        parts[0]
    } else {
        joined_with(parts.drop_last(), sep) + sep + parts.last()
    }
}

/// The toast text for one mail of a batch: `sent/total — mail`, and when sending failed, a
/// line break, the error prefix and the error. The mail and the error are escaped.
pub open spec fn progress_text(
    sent: nat,
    total: nat,
    mail: Seq<char>,
    error: Option<Seq<char>>,
    prefix: Seq<char>,
) -> Seq<char> {
    dec(sent) + "/"@ + dec(total) + " — "@ + escaped(mail) + match error {
        None => Seq::empty(),
        Some(e) => "<br/>"@ + prefix + escaped(e),
    }
}

/// The toast for a report on one mail of a batch: a success, or an error with its message.
pub fn mail_progress(sent: usize, total: usize, mail: &str, error: Option<&str>, error_prefix: &str) -> (r: (
    ToastKind,
    String,
))
    ensures
        r.0 == (if error is None {
            ToastKind::Success
        } else {
            ToastKind::Error
        }),
        r.1@ == progress_text(
            sent as nat,
            total as nat,
            mail@,
            match error {
                None => None,
                Some(e) => Some(e@),
            },
            error_prefix@,
        ),
{
    let mut v: Vec<char> = Vec::new();
    push_decimal(&mut v, sent as u64);
    push_str(&mut v, "/");
    push_decimal(&mut v, total as u64);
    push_str(&mut v, " — ");
    let safe_mail = escape_html(mail);
    push_str(&mut v, safe_mail.as_str());
    let kind = match error {
        None => ToastKind::Success,
        Some(e) => {
            push_str(&mut v, "<br/>");
            push_str(&mut v, error_prefix);
            let safe_error = escape_html(e);
            push_str(&mut v, safe_error.as_str());
            ToastKind::Error
        },
    };
    let s = string_from_chars(v.as_slice());
    (kind, s)
}

/// One more report of a batch of `total` mails, after `seen` of them: the new count, and
/// whether the batch is done, in which case the count starts again and the page reloads its
/// data.
pub fn progress_step(seen: usize, total: usize) -> (r: (usize, bool))
    requires
        seen < usize::MAX,
    ensures
        r == (if seen + 1 >= total {
            (0usize, true)
        } else {
            ((seen + 1) as usize, false)
        }),
{
    let next = seen + 1;
    if next >= total {
        (0, true)
    } else {
        (next, false)
    }
}

/// The parse errors as the administrator's page shows them: one `Line <n>: <message>` each,
/// separated by line breaks.
pub fn errors_html(errors: &[ParseError]) -> (s: String)
    requires
        forall|i: int| 0 <= i < errors.len() ==> #[trigger] errors[i].line < usize::MAX,
    ensures
        s@ == joined_with(errors@.map_values(|e: ParseError| error_text(e.line as int, e.message@)), "<br/>"@),
{
    let ghost parts = errors@.map_values(|e: ParseError| error_text(e.line as int, e.message@));
    let mut v: Vec<char> = Vec::new();
    let mut i: usize = 0;
    while i < errors.len()
        invariant
            i <= errors.len(),
            parts == errors@.map_values(|e: ParseError| error_text(e.line as int, e.message@)),
            forall|k: int| 0 <= k < errors.len() ==> #[trigger] errors[k].line < usize::MAX,
            v@ == joined_with(parts.take(i as int), "<br/>"@),
        decreases errors.len() - i,
    {
        if i > 0 {
            push_str(&mut v, "<br/>");
        }
        let line = error_line(&errors[i]);
        push_str(&mut v, line.as_str());
        proof {
            let t = parts.take(i + 1);
            assert(t.drop_last() =~= parts.take(i as int));
            assert(t.last() == parts[i as int]);
            if i == 0 {
                assert(v@ =~= t[0]);
            }
        }
        i = i + 1;
    }
    assert(parts.take(errors.len() as int) =~= parts);
    string_from_chars(v.as_slice())
}

/// The line about a template that lacks required variables: the template's heading in bold,
/// then each missing variable with its `$`, separated by commas.
pub open spec fn missing_vars_text(heading: Seq<char>, missing: Seq<Seq<char>>) -> Seq<char> {
    "<b>"@ + heading + "</b>: "@ + joined_with(missing.map_values(|v: Seq<char>| "$"@ + v), ", "@)
}

/// The line shown for a template with missing required variables.
pub fn missing_vars_line(heading: &str, missing: &[&str]) -> (s: String)
    ensures
        s@ == missing_vars_text(heading@, missing@.map_values(|v: &str| v@)),
{
    let ghost names = missing@.map_values(|v: &str| v@);
    let ghost parts = names.map_values(|v: Seq<char>| "$"@ + v);
    let mut v: Vec<char> = Vec::new();
    push_str(&mut v, "<b>");
    push_str(&mut v, heading);
    push_str(&mut v, "</b>: ");
    let ghost head = v@;
    let mut i: usize = 0;
    while i < missing.len()
        invariant
            i <= missing.len(),
            names == missing@.map_values(|v: &str| v@),
            parts == names.map_values(|v: Seq<char>| "$"@ + v),
            v@ == head + joined_with(parts.take(i as int), ", "@),
        decreases missing.len() - i,
    {
        let ghost before = v@;
        if i > 0 {
            push_str(&mut v, ", ");
        }
        push_str(&mut v, "$");
        push_str(&mut v, missing[i]);
        proof {
            let t = parts.take(i + 1);
            assert(t.drop_last() =~= parts.take(i as int));
            assert(t.last() == parts[i as int]);
            assert(parts[i as int] == "$"@ + missing[i as int]@);
            if i == 0 {
                assert(v@ =~= head + t[0]);
            } else {
                assert(v@ =~= head + (joined_with(parts.take(i as int), ", "@) + ", "@ + parts[i as int]));
            }
        }
        i = i + 1;
    }
    assert(parts.take(missing.len() as int) =~= parts);
    string_from_chars(v.as_slice())
}

/// The lines about the templates that lack required variables, one per such template, in
/// order; each check is a heading, a template and its required variables.
pub open spec fn missing_report(checks: Seq<(&str, &str, &[&str])>) -> Seq<Seq<char>>
    decreases checks.len(),
{
    if checks.len() == 0 {
        Seq::empty()
    } else {
        let rest = missing_report(checks.drop_last());
        let c = checks.last();
        let m = missing(c.1@, c.2@);
        if m.len() == 0 {
            rest
        } else {
            rest.push(missing_vars_text(c.0@, m))
        }
    }
}

/// What the administrator's page reports before saving: nothing when every template has its
/// required variables, or else the lines about those that lack some, separated by line breaks.
pub fn missing_vars_report(checks: &[(&str, &str, &[&str])]) -> (r: Option<String>)
    ensures
        match r {
            None => missing_report(checks@).len() == 0,
            Some(s) => missing_report(checks@).len() > 0 && s@ == joined_with(missing_report(checks@), "<br/>"@),
        },
{
    let mut v: Vec<char> = Vec::new();
    let mut count: usize = 0;
    let mut i: usize = 0;
    while i < checks.len()
        invariant
            i <= checks.len(),
            count <= i,
            count == missing_report(checks@.take(i as int)).len(),
            v@ == joined_with(missing_report(checks@.take(i as int)), "<br/>"@),
        decreases checks.len() - i,
    {
        let c = checks[i];
        let m = missing_required_vars(c.1, c.2);
        proof {
            assert(checks@.take(i + 1).drop_last() =~= checks@.take(i as int));
            assert(checks@.take(i + 1).last() == c);
            assert(m@.map_values(|s: &str| s@).len() == m@.len());
        }
        if m.len() > 0 {
            let line = missing_vars_line(c.0, m.as_slice());
            if count > 0 {
                push_str(&mut v, "<br/>");
            }
            push_str(&mut v, line.as_str());
            let ghost rep = missing_report(checks@.take(i + 1));
            assert(rep.drop_last() == missing_report(checks@.take(i as int)));
            if count == 0 {
                assert(v@ =~= rep[0]);
            }
            count = count + 1;
        }
        i = i + 1;
    }
    assert(checks@.take(checks.len() as int) =~= checks@);
    if count == 0 {
        None
    } else {
        Some(string_from_chars(v.as_slice()))
    }
}

/// The data the administrator's page saves: the parsed slots, the parsed participants' mails
/// and wishes, whether to mail them, and the templates.
pub fn set_data_request(parsed: ParseResult, send_mails: bool, templates: EmailTemplates) -> (r: SetDataRequest)
    ensures
        r.slots@ == parsed.slots@,
        r.participants@.map_values(|p: ParticipantInput| (p.mail@, p.wish@)) == parsed.participants_view(),
        r.send_mails == send_mails,
        r.templates == templates,
{
    let ghost target = parsed.participants_view();
    let ParseResult { slots, participants, errors, warnings } = parsed;
    let mut rest = participants;
    let mut inputs: Vec<ParticipantInput> = Vec::new();
    assert(rest@.map_values(|p: crate::parse::ParsedParticipant| participant_view(p)) == target);
    while rest.len() > 0
        invariant
            inputs@.map_values(|p: ParticipantInput| (p.mail@, p.wish@)) + rest@.map_values(
                |p: crate::parse::ParsedParticipant| participant_view(p),
            ) == target,
        decreases rest.len(),
    {
        let ghost before = rest@;
        let ghost done = inputs@.map_values(|p: ParticipantInput| (p.mail@, p.wish@));
        let p = rest.remove(0);
        assert(before.map_values(|p: crate::parse::ParsedParticipant| participant_view(p)) =~= seq![
            participant_view(p),
        ] + rest@.map_values(|p: crate::parse::ParsedParticipant| participant_view(p)));
        inputs.push(ParticipantInput { mail: p.mail, wish: p.wish });
        assert(inputs@.map_values(|p: ParticipantInput| (p.mail@, p.wish@)) =~= done.push(participant_view(p)));
    }
    assert(inputs@.map_values(|p: ParticipantInput| (p.mail@, p.wish@)) =~= target);
    SetDataRequest { slots, participants: inputs, send_mails, templates }
}

/// A row of the home page's slot table: name, least and most.
pub open spec fn row_view(r: (String, u32, u32)) -> (Seq<char>, u32, u32) {
    (r.0@, r.1, r.2)
}

/// Makes the home page's slot table `n` rows long: rows past `n` go, and new rows are blank
/// with bounds 0 and 10.
pub fn resize_slots(rows: &mut Vec<(String, u32, u32)>, n: usize)
    ensures
        final(rows)@.len() == n,
        forall|i: int| 0 <= i < n && i < old(rows)@.len() ==> row_view(#[trigger] final(rows)@[i]) == row_view(old(rows)@[i]),
        forall|i: int| old(rows)@.len() <= i < n ==> row_view(#[trigger] final(rows)@[i]) == (Seq::<char>::empty(), 0u32, 10u32),
{
    let ghost start = rows@;
    while rows.len() < n
        invariant
            forall|i: int| 0 <= i < rows@.len() && i < start.len() ==> #[trigger] rows@[i] == start[i],
            forall|i: int| start.len() <= i < rows@.len() ==> row_view(#[trigger] rows@[i]) == (Seq::<char>::empty(), 0u32, 10u32),
            rows@.len() == start.len() || (start.len() < rows@.len() && rows@.len() <= n),
        decreases n - rows.len(),
    {
        rows.push((String::new(), 0, 10));
    }
    rows.truncate(n);
}

/// The number of slots typed on the home page: a number from 1 to 100, or nothing.
pub open spec fn slot_count_of(input: Seq<char>) -> Option<u32> {
    match parse_u32_spec(input) {
        Some(v) => if 1 <= v <= 100 {
            Some(v)
        } else {
            None
        },
        None => None,
    }
}

/// Reads the number of slots typed on the home page.
pub fn slot_count(input: &str) -> (r: Option<u32>)
    ensures
        r == slot_count_of(input@),
{
    let c = chars_of(input);
    match parse_u32(c.as_slice()) {
        Some(v) => if 1 <= v && v <= 100 {
            Some(v)
        } else {
            None
        },
        None => None,
    }
}

/// Why the home page refuses to create an event.
#[derive(Clone, Copy, Debug, PartialEq, Eq, Structural)]
pub enum HomeError {
    ActivityRequired,
    AdminRequired,
    ParticipantsRequired,
}

/// A slot's name as the home page sends it: the typed name, or the placeholder and its
/// number from 1 when none was typed.
pub open spec fn slot_name_or(name: Seq<char>, prefix: Seq<char>, i: int) -> Seq<char> {
    if name.len() == 0 {
        prefix + dec((i + 1) as nat)
    } else {
        name
    }
}

/// The home page's event: refused without an activity name, then without the administrator's
/// mail, then without a participant; else the activity, the administrator, the listed mails,
/// each slot with its name or a numbered placeholder, and the language.
pub fn event_request(
    name: String,
    admin_mail: String,
    mails_text: &str,
    rows: &[(String, u32, u32)],
    lang: Lang,
    slot_prefix: &str,
) -> (r: Result<CreateEventRequest, HomeError>)
    requires
        rows.len() < usize::MAX,
    ensures
        match r {
            Err(e) => e == (if name@.len() == 0 {
                HomeError::ActivityRequired
            } else if admin_mail@.len() == 0 {
                HomeError::AdminRequired
            } else {
                HomeError::ParticipantsRequired
            }) && (name@.len() == 0 || admin_mail@.len() == 0 || mails_of(split_on_separators(mails_text@)).len()
                == 0),
            Ok(req) => {
                &&& name@.len() > 0
                &&& admin_mail@.len() > 0
                &&& mails_of(split_on_separators(mails_text@)).len() > 0
                &&& req.name@ == name@
                &&& req.admin_mail@ == admin_mail@
                &&& req.mails@.map_values(|m: String| m@) == mails_of(split_on_separators(mails_text@))
                &&& req.slots@.len() == rows@.len()
                &&& forall|i: int|
                    0 <= i < rows@.len() ==> (#[trigger] req.slots@[i]).name@ == slot_name_or(
                        rows@[i].0@,
                        slot_prefix@,
                        i,
                    ) && req.slots@[i].vmin == rows@[i].1 && req.slots@[i].vmax == rows@[i].2
                &&& req.lang == lang
            },
        },
{
    let mails = split_emails(mails_text);
    if name.as_str().is_empty() {
        return Err(HomeError::ActivityRequired);
    }
    if admin_mail.as_str().is_empty() {
        return Err(HomeError::AdminRequired);
    }
    if mails.len() == 0 {
        assert(mails@.map_values(|m: String| m@).len() == 0);
        return Err(HomeError::ParticipantsRequired);
    }
    let mut slots: Vec<Slot> = Vec::new();
    let mut i: usize = 0;
    while i < rows.len()
        invariant
            i <= rows.len(),
            rows.len() < usize::MAX,
            slots@.len() == i,
            forall|k: int|
                0 <= k < i ==> (#[trigger] slots@[k]).name@ == slot_name_or(rows@[k].0@, slot_prefix@, k)
                    && slots@[k].vmin == rows@[k].1 && slots@[k].vmax == rows@[k].2,
        decreases rows.len() - i,
    {
        let row = &rows[i];
        let slot_name = if row.0.as_str().is_empty() {
            let mut v: Vec<char> = Vec::new();
            push_str(&mut v, slot_prefix);
            push_decimal(&mut v, (i + 1) as u64);
            string_from_chars(v.as_slice())
        } else {
            String::from_str(row.0.as_str())
        };
        slots.push(Slot { name: slot_name, vmin: row.1, vmax: row.2 });
        i = i + 1;
    }
    Ok(CreateEventRequest { name, admin_mail, mails, slots, lang })
}

} // verus!
