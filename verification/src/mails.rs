//! The mails the server writes itself: the administrator's confirmation of a new event,
//! reminders and update notices to participants, and the results to each participant with
//! a summary to the administrator.
use vstd::prelude::*;
use crate::text::{push_str, push_chars, string_from_chars};
use crate::templates::{escape_html, escaped};
use crate::model::ResultEntry;

verus! {

/// A mail to send.
#[derive(Debug, Clone)]
pub struct OutgoingEmail {
    pub to: String,
    pub subject: String,
    pub html: String,
    pub text: String,
}

/// A mail's recipient, subject, HTML body and text body.
pub open spec fn mail_view(m: OutgoingEmail) -> (Seq<char>, Seq<char>, Seq<char>, Seq<char>) {
    (m.to@, m.subject@, m.html@, m.text@)
}

/// The subject of the mails about an event.
pub open spec fn subject_of(name: Seq<char>) -> Seq<char> {
    "Wish: "@ + name
}

/// The end of every mail's HTML body.
pub open spec fn html_end() -> Seq<char> {
    "<p>Have a nice day,<br />The Wish team</p>"@
}

/// The end of every mail's text body.
pub open spec fn text_end() -> Seq<char> {
    "Have a nice day,\nThe Wish team"@
}

/// The address of a page of the site for a key: `base/page?key`.
pub open spec fn page_url(base: Seq<char>, page: Seq<char>, key: Seq<char>) -> Seq<char> {
    base + "/"@ + page + "?"@ + key
}

/// The confirmation to the administrator of a new event, with the link to its admin page.
pub open spec fn creation_mail(admin_mail: Seq<char>, name: Seq<char>, admin_url: Seq<char>) -> (
    Seq<char>,
    Seq<char>,
    Seq<char>,
    Seq<char>,
) {
    (
        admin_mail,
        subject_of(escaped(name)),
        "<p>Hi,</p><p>An event has been created with your email address.<br /><strong>If you are not concerned, please do not click on the following url.</strong><br /><a href=\""@
            + admin_url + "\">Click here</a> to administrate the activity.</p>"@ + html_end(),
        "Hi,\nAn event has been created with your email address.\nIf you are not concerned, please do not click on the following url.\nTo administrate the activity, go to: "@
            + admin_url + "\n\n"@ + text_end(),
    )
}

/// The administrator's confirmation of the event `event_id` named `name`.
pub fn creation_email(admin_mail: &str, name: &str, base_url: &str, event_id: &str) -> (m: OutgoingEmail)
    ensures
        mail_view(m) == creation_mail(admin_mail@, name@, page_url(base_url@, "admin"@, event_id@)),
{
    let mut url_v: Vec<char> = Vec::new();
    push_str(&mut url_v, base_url);
    push_str(&mut url_v, "/");
    push_str(&mut url_v, "admin");
    push_str(&mut url_v, "?");
    push_str(&mut url_v, event_id);
    let url = string_from_chars(url_v.as_slice());
    assert(url@ =~= page_url(base_url@, "admin"@, event_id@));
    let safe_name = escape_html(name);
    let mut subject_v: Vec<char> = Vec::new();
    push_str(&mut subject_v, "Wish: ");
    push_str(&mut subject_v, safe_name.as_str());
    let subject = string_from_chars(subject_v.as_slice());
    let mut html_v: Vec<char> = Vec::new();
    push_str(&mut html_v, "<p>Hi,</p><p>An event has been created with your email address.<br /><strong>If you are not concerned, please do not click on the following url.</strong><br /><a href=\"");
    push_str(&mut html_v, url.as_str());
    push_str(&mut html_v, "\">Click here</a> to administrate the activity.</p>");
    push_str(&mut html_v, "<p>Have a nice day,<br />The Wish team</p>");
    let html = string_from_chars(html_v.as_slice());
    let mut text_v: Vec<char> = Vec::new();
    push_str(&mut text_v, "Hi,\nAn event has been created with your email address.\nIf you are not concerned, please do not click on the following url.\nTo administrate the activity, go to: ");
    push_str(&mut text_v, url.as_str());
    push_str(&mut text_v, "\n\n");
    push_str(&mut text_v, "Have a nice day,\nThe Wish team");
    let text = string_from_chars(text_v.as_slice());
    proof {
        assert(subject@ =~= subject_of(escaped(name@)));
        assert(html@ =~= creation_mail(admin_mail@, name@, url@).2);
        assert(text@ =~= creation_mail(admin_mail@, name@, url@).3);
    }
    OutgoingEmail { to: String::from_str(admin_mail), subject, html, text }
}

/// A reminder to a participant to fill the wish at `wish_url`.
pub open spec fn reminder_mail(to: Seq<char>, name: Seq<char>, wish_url: Seq<char>) -> (
    Seq<char>,
    Seq<char>,
    Seq<char>,
    Seq<char>,
) {
    (
        to,
        subject_of(name),
        "<p>Hi,</p><p>Don't forget to fill <a href=\""@ + wish_url + "\">your wish</a> for the event <strong>"@
            + escaped(name) + "</strong>.</p>"@ + html_end(),
        "Hi,\nDon't forget to fill your wish for the event "@ + name + ".\n"@ + wish_url + "\n\n"@ + text_end(),
    )
}

/// The reminder to the participant `pid` with mail `to`.
pub fn reminder_email(to: &str, name: &str, base_url: &str, pid: &str) -> (m: OutgoingEmail)
    ensures
        mail_view(m) == reminder_mail(to@, name@, page_url(base_url@, "wish"@, pid@)),
{
    let mut url_v: Vec<char> = Vec::new();
    push_str(&mut url_v, base_url);
    push_str(&mut url_v, "/");
    push_str(&mut url_v, "wish");
    push_str(&mut url_v, "?");
    push_str(&mut url_v, pid);
    let url = string_from_chars(url_v.as_slice());
    assert(url@ =~= page_url(base_url@, "wish"@, pid@));
    let safe_name = escape_html(name);
    let mut subject_v: Vec<char> = Vec::new();
    push_str(&mut subject_v, "Wish: ");
    push_str(&mut subject_v, name);
    let subject = string_from_chars(subject_v.as_slice());
    let mut html_v: Vec<char> = Vec::new();
    push_str(&mut html_v, "<p>Hi,</p><p>Don't forget to fill <a href=\"");
    push_str(&mut html_v, url.as_str());
    push_str(&mut html_v, "\">your wish</a> for the event <strong>");
    push_str(&mut html_v, safe_name.as_str());
    push_str(&mut html_v, "</strong>.</p>");
    push_str(&mut html_v, "<p>Have a nice day,<br />The Wish team</p>");
    let html = string_from_chars(html_v.as_slice());
    let mut text_v: Vec<char> = Vec::new();
    push_str(&mut text_v, "Hi,\nDon't forget to fill your wish for the event ");
    push_str(&mut text_v, name);
    push_str(&mut text_v, ".\n");
    push_str(&mut text_v, url.as_str());
    push_str(&mut text_v, "\n\n");
    push_str(&mut text_v, "Have a nice day,\nThe Wish team");
    let text = string_from_chars(text_v.as_slice());
    proof {
        assert(subject@ =~= subject_of(name@));
        assert(html@ =~= reminder_mail(to@, name@, url@).2);
        assert(text@ =~= reminder_mail(to@, name@, url@).3);
    }
    OutgoingEmail { to: String::from_str(to), subject, html, text }
}

/// The result to a participant: the slot they were put in.
pub open spec fn result_mail(to: Seq<char>, slot: Seq<char>, name: Seq<char>) -> (
    Seq<char>,
    Seq<char>,
    Seq<char>,
    Seq<char>,
) {
    (
        to,
        subject_of(name),
        "<p>Hi,</p><p>You have been put in the slot <strong>"@ + escaped(slot) + "</strong> for the event <strong>"@
            + escaped(name) + "</strong>.</p>"@ + html_end(),
        "Hi,\nYou have been put in the slot "@ + slot + " for the event "@ + name + ".\n\n"@ + text_end(),
    )
}

/// The table rows of the results, each mail and slot escaped.
pub open spec fn rows_html(rs: Seq<(Seq<char>, Seq<char>)>) -> Seq<char>
    decreases rs.len(),
{
    if rs.len() == 0 {
        Seq::empty()
    } else {
        rows_html(rs.drop_last()) + "<tr><td>"@ + escaped(rs.last().0) + "</td><td>"@ + escaped(rs.last().1)
            + "</td></tr>"@
    }
}

/// The lines of the results: each mail, two spaces and the slot.
pub open spec fn rows_text(rs: Seq<(Seq<char>, Seq<char>)>) -> Seq<char>
    decreases rs.len(),
{
    if rs.len() == 0 {
        Seq::empty()
    } else {
        rows_text(rs.drop_last()) + rs.last().0 + "  "@ + rs.last().1 + "\n"@
    }
}

/// The summary of the results to the administrator.
pub open spec fn summary_mail(admin: Seq<char>, name: Seq<char>, rs: Seq<(Seq<char>, Seq<char>)>) -> (
    Seq<char>,
    Seq<char>,
    Seq<char>,
    Seq<char>,
) {
    (
        admin,
        subject_of(name),
        "<p>Hi,</p><p>The following information have been sent to the participants of the event <strong>"@
            + escaped(name) + "</strong>.</p><table><tr><th>mail</th><th>slot</th></tr>"@ + rows_html(rs)
            + "</table>"@ + html_end(),
        "Hi,\nThe following information have been sent to the participants of the event "@ + name + ".\n\n"@
            + rows_text(rs) + "\n"@ + text_end(),
    )
}

/// The results' mails and slots.
pub open spec fn results_view(results: Seq<ResultEntry>) -> Seq<(Seq<char>, Seq<char>)> {
    results.map_values(|r: ResultEntry| (r.mail@, r.slot@))
}

fn result_email(entry: &ResultEntry, name: &str) -> (m: OutgoingEmail)
    ensures
        mail_view(m) == result_mail(entry.mail@, entry.slot@, name@),
{
    let safe_slot = escape_html(entry.slot.as_str());
    let safe_name = escape_html(name);
    let mut subject_v: Vec<char> = Vec::new();
    push_str(&mut subject_v, "Wish: ");
    push_str(&mut subject_v, name);
    let mut html_v: Vec<char> = Vec::new();
    push_str(&mut html_v, "<p>Hi,</p><p>You have been put in the slot <strong>");
    push_str(&mut html_v, safe_slot.as_str());
    push_str(&mut html_v, "</strong> for the event <strong>");
    push_str(&mut html_v, safe_name.as_str());
    push_str(&mut html_v, "</strong>.</p>");
    push_str(&mut html_v, "<p>Have a nice day,<br />The Wish team</p>");
    let mut text_v: Vec<char> = Vec::new();
    push_str(&mut text_v, "Hi,\nYou have been put in the slot ");
    push_str(&mut text_v, entry.slot.as_str());
    push_str(&mut text_v, " for the event ");
    push_str(&mut text_v, name);
    push_str(&mut text_v, ".\n\n");
    push_str(&mut text_v, "Have a nice day,\nThe Wish team");
    let m = OutgoingEmail {
        to: entry.mail.clone(),
        subject: string_from_chars(subject_v.as_slice()),
        html: string_from_chars(html_v.as_slice()),
        text: string_from_chars(text_v.as_slice()),
    };
    assert(mail_view(m) =~= result_mail(entry.mail@, entry.slot@, name@));
    m
}

/// The mails of the results: one to each participant, in order, then the summary to the
/// administrator.
pub fn result_emails(results: &[ResultEntry], name: &str, admin_mail: &str) -> (ms: Vec<OutgoingEmail>)
    ensures
        ms.len() == results.len() + 1,
        forall|i: int|
            0 <= i < results.len() ==> mail_view(#[trigger] ms@[i]) == result_mail(
                results@[i].mail@,
                results@[i].slot@,
                name@,
            ),
        mail_view(ms@[results.len() as int]) == summary_mail(admin_mail@, name@, results_view(results@)),
{
    let ghost rv = results_view(results@);
    let mut ms: Vec<OutgoingEmail> = Vec::new();
    let mut rows: Vec<char> = Vec::new();
    let mut lines: Vec<char> = Vec::new();
    let mut i: usize = 0;
    while i < results.len()
        invariant
            i <= results.len(),
            rv == results_view(results@),
            ms.len() == i,
            forall|k: int|
                0 <= k < i ==> mail_view(#[trigger] ms@[k]) == result_mail(results@[k].mail@, results@[k].slot@, name@),
            rows@ == rows_html(rv.take(i as int)),
            lines@ == rows_text(rv.take(i as int)),
        decreases results.len() - i,
    {
        let r = &results[i];
        ms.push(result_email(r, name));
        let safe_mail = escape_html(r.mail.as_str());
        let safe_slot = escape_html(r.slot.as_str());
        push_str(&mut rows, "<tr><td>");
        push_str(&mut rows, safe_mail.as_str());
        push_str(&mut rows, "</td><td>");
        push_str(&mut rows, safe_slot.as_str());
        push_str(&mut rows, "</td></tr>");
        push_str(&mut lines, r.mail.as_str());
        push_str(&mut lines, "  ");
        push_str(&mut lines, r.slot.as_str());
        push_str(&mut lines, "\n");
        proof {
            assert(rv.take(i + 1).drop_last() =~= rv.take(i as int));
            assert(rv.take(i + 1).last() == (r.mail@, r.slot@));
        }
        i = i + 1;
    }
    assert(rv.take(results.len() as int) =~= rv);
    let safe_name = escape_html(name);
    let mut subject_v: Vec<char> = Vec::new();
    push_str(&mut subject_v, "Wish: ");
    push_str(&mut subject_v, name);
    let mut html_v: Vec<char> = Vec::new();
    push_str(&mut html_v, "<p>Hi,</p><p>The following information have been sent to the participants of the event <strong>");
    push_str(&mut html_v, safe_name.as_str());
    push_str(&mut html_v, "</strong>.</p><table><tr><th>mail</th><th>slot</th></tr>");
    push_chars(&mut html_v, rows.as_slice());
    push_str(&mut html_v, "</table>");
    push_str(&mut html_v, "<p>Have a nice day,<br />The Wish team</p>");
    let mut text_v: Vec<char> = Vec::new();
    push_str(&mut text_v, "Hi,\nThe following information have been sent to the participants of the event ");
    push_str(&mut text_v, name);
    push_str(&mut text_v, ".\n\n");
    push_chars(&mut text_v, lines.as_slice());
    push_str(&mut text_v, "\n");
    push_str(&mut text_v, "Have a nice day,\nThe Wish team");
    let summary = OutgoingEmail {
        to: String::from_str(admin_mail),
        subject: string_from_chars(subject_v.as_slice()),
        html: string_from_chars(html_v.as_slice()),
        text: string_from_chars(text_v.as_slice()),
    };
    assert(mail_view(summary) =~= summary_mail(admin_mail@, name@, rv));
    ms.push(summary);
    ms
}

/// The notice to a participant that the administrator changed the slots.
pub open spec fn update_mail(to: Seq<char>, name: Seq<char>, admin: Seq<char>, wish_url: Seq<char>) -> (
    Seq<char>,
    Seq<char>,
    Seq<char>,
    Seq<char>,
) {
    (
        to,
        subject_of(name),
        "<p>Hi,</p><p>The administrator ("@ + escaped(admin) + ") of the event <strong>"@ + escaped(name)
            + "</strong> has modified the slots.</p><p>Please look at <a href=\""@ + wish_url
            + "\">your wish</a>.</p>"@ + html_end(),
        "Hi,\nThe administrator ("@ + admin + ") of the event "@ + name + " has modified the slots.\nPlease look at your wish: "@
            + wish_url + "\n\n"@ + text_end(),
    )
}

/// The notice of changed slots to the participant `pid` with mail `to`.
pub fn update_email(to: &str, name: &str, admin_mail: &str, base_url: &str, pid: &str) -> (m: OutgoingEmail)
    ensures
        mail_view(m) == update_mail(to@, name@, admin_mail@, page_url(base_url@, "wish"@, pid@)),
{
    let mut url_v: Vec<char> = Vec::new();
    push_str(&mut url_v, base_url);
    push_str(&mut url_v, "/");
    push_str(&mut url_v, "wish");
    push_str(&mut url_v, "?");
    push_str(&mut url_v, pid);
    let url = string_from_chars(url_v.as_slice());
    assert(url@ =~= page_url(base_url@, "wish"@, pid@));
    let safe_name = escape_html(name);
    let safe_admin = escape_html(admin_mail);
    let mut subject_v: Vec<char> = Vec::new();
    push_str(&mut subject_v, "Wish: ");
    push_str(&mut subject_v, name);
    let mut html_v: Vec<char> = Vec::new();
    push_str(&mut html_v, "<p>Hi,</p><p>The administrator (");
    push_str(&mut html_v, safe_admin.as_str());
    push_str(&mut html_v, ") of the event <strong>");
    push_str(&mut html_v, safe_name.as_str());
    push_str(&mut html_v, "</strong> has modified the slots.</p><p>Please look at <a href=\"");
    push_str(&mut html_v, url.as_str());
    push_str(&mut html_v, "\">your wish</a>.</p>");
    push_str(&mut html_v, "<p>Have a nice day,<br />The Wish team</p>");
    let mut text_v: Vec<char> = Vec::new();
    push_str(&mut text_v, "Hi,\nThe administrator (");
    push_str(&mut text_v, admin_mail);
    push_str(&mut text_v, ") of the event ");
    push_str(&mut text_v, name);
    push_str(&mut text_v, " has modified the slots.\nPlease look at your wish: ");
    push_str(&mut text_v, url.as_str());
    push_str(&mut text_v, "\n\n");
    push_str(&mut text_v, "Have a nice day,\nThe Wish team");
    let m = OutgoingEmail {
        to: String::from_str(to),
        subject: string_from_chars(subject_v.as_slice()),
        html: string_from_chars(html_v.as_slice()),
        text: string_from_chars(text_v.as_slice()),
    };
    assert(mail_view(m) =~= update_mail(to@, name@, admin_mail@, url@));
    m
}

} // verus!
