use wish::feedback::{add_toast, dismiss_toast, feedback_kind, Toast, ToastKind};
use wish::lang::Lang;
use wish::model::EmailTemplates;
use wish::pages::{
    errors_html, event_request, mail_progress, missing_vars_line, missing_vars_report, progress_step, resize_slots,
    route, set_data_request, slot_count, HomeError, Page,
};
use wish::parse::{parse, ParseError};
use wish::templates::{INVITE_REQUIRED, RESULTS_REQUIRED};

#[test]
fn routes_of_the_application() {
    assert_eq!(route("/wish"), Page::Wish);
    assert_eq!(route("/admin"), Page::Admin);
    assert_eq!(route("/offline"), Page::Offline);
    assert_eq!(route("/history"), Page::History);
    assert_eq!(route("/email"), Page::Email);
    assert_eq!(route("/help"), Page::Help);
    assert_eq!(route("/"), Page::Home);
    assert_eq!(route("/wish/"), Page::Home);
}

#[test]
fn toasts_come_and_go() {
    let mut ts: Vec<Toast> = Vec::new();
    assert!(add_toast(&mut ts, 1, "Saved", "ok", ToastKind::Success));
    assert!(!add_toast(&mut ts, 2, "Error", "bad", ToastKind::Error));
    assert!(add_toast(&mut ts, 3, "Note", "fyi", ToastKind::Info));
    assert_eq!(ts.len(), 3);
    dismiss_toast(&mut ts, 2);
    assert_eq!(ts.iter().map(|t| t.id).collect::<Vec<_>>(), vec![1, 3]);
    assert_eq!(ts[1].title, "Note");
    dismiss_toast(&mut ts, 7);
    assert_eq!(ts.len(), 2);
    assert_eq!(ToastKind::Error.css_class(), "error");
    assert_eq!(ToastKind::Success.css_class(), "success");
    assert_eq!(ToastKind::Info.css_class(), "info");
}

#[test]
fn feedback_kinds() {
    assert_eq!(feedback_kind("success"), ToastKind::Success);
    assert_eq!(feedback_kind("error"), ToastKind::Error);
    assert_eq!(feedback_kind("warning"), ToastKind::Info);
    assert_eq!(feedback_kind(""), ToastKind::Info);
}

#[test]
fn mail_progress_messages() {
    let (k, m) = mail_progress(2, 5, "a<b>@x", None, "Error: ");
    assert_eq!(k, ToastKind::Success);
    assert_eq!(m, "2/5 — a&lt;b&gt;@x");
    let (k, m) = mail_progress(3, 5, "c@x", Some("bad & wrong"), "Error: ");
    assert_eq!(k, ToastKind::Error);
    assert_eq!(m, "3/5 — c@x<br/>Error: bad &amp; wrong");
}

#[test]
fn mail_progress_counter() {
    assert_eq!(progress_step(0, 3), (1, false));
    assert_eq!(progress_step(1, 3), (2, false));
    assert_eq!(progress_step(2, 3), (0, true));
    assert_eq!(progress_step(0, 0), (0, true));
}

#[test]
fn parse_errors_as_html() {
    let errors = vec![
        ParseError { line: 0, message: "first".into() },
        ParseError { line: 4, message: "second".into() },
    ];
    assert_eq!(errors_html(&errors), "Line 1: first<br/>Line 5: second");
    assert_eq!(errors_html(&[]), "");
}

#[test]
fn missing_variables_messages() {
    assert_eq!(missing_vars_line("Invite", &["url", "event_name"]), "<b>Invite</b>: $url, $event_name");
    assert_eq!(missing_vars_line("Invite", &[]), "<b>Invite</b>: ");
    let checks: [(&str, &str, &[&str]); 2] =
        [("Invite", "Hello $event_name", &INVITE_REQUIRED), ("Results", "You are in $slot", &RESULTS_REQUIRED)];
    assert_eq!(missing_vars_report(&checks), Some("<b>Invite</b>: $url".to_string()));
    let fine: [(&str, &str, &[&str]); 1] = [("Invite", "Go to $url", &INVITE_REQUIRED)];
    assert_eq!(missing_vars_report(&fine), None);
}

#[test]
fn saved_data_from_the_editor() {
    let parsed = parse("[slots]\n\"A\" 0 2\n\"B\" 0 2\n[participants]\n\"a@x\" 0 1\n\"b@x\" 1 0\n");
    let r = set_data_request(parsed, true, EmailTemplates::default());
    assert!(r.send_mails);
    assert_eq!(r.slots.len(), 2);
    assert_eq!(r.participants.iter().map(|p| (p.mail.clone(), p.wish.clone())).collect::<Vec<_>>(),
        vec![("a@x".to_string(), vec![0, 1]), ("b@x".to_string(), vec![1, 0])]);
}

#[test]
fn home_slot_table() {
    let mut rows = vec![("A".to_string(), 1, 2), ("B".to_string(), 0, 3)];
    resize_slots(&mut rows, 4);
    assert_eq!(rows, vec![
        ("A".to_string(), 1, 2),
        ("B".to_string(), 0, 3),
        (String::new(), 0, 10),
        (String::new(), 0, 10),
    ]);
    resize_slots(&mut rows, 1);
    assert_eq!(rows, vec![("A".to_string(), 1, 2)]);
    assert_eq!(slot_count("3"), Some(3));
    assert_eq!(slot_count("100"), Some(100));
    assert_eq!(slot_count("0"), None);
    assert_eq!(slot_count("101"), None);
    assert_eq!(slot_count("x"), None);
}

#[test]
fn home_event_request() {
    let rows = vec![(String::new(), 0, 5), ("Tuesday".to_string(), 1, 3)];
    let r = event_request("Trip".into(), "me@x".into(), "a@x, b@x;\n", &rows, Lang::Fr, "Créneau ").unwrap();
    assert_eq!(r.name, "Trip");
    assert_eq!(r.admin_mail, "me@x");
    assert_eq!(r.mails, vec!["a@x".to_string(), "b@x".to_string()]);
    assert_eq!(r.slots.iter().map(|s| (s.name.clone(), s.vmin, s.vmax)).collect::<Vec<_>>(),
        vec![("Créneau 1".to_string(), 0, 5), ("Tuesday".to_string(), 1, 3)]);
    assert_eq!(r.lang, Lang::Fr);
    assert_eq!(event_request(String::new(), String::new(), "", &rows, Lang::En, "S").unwrap_err(), HomeError::ActivityRequired);
    assert_eq!(event_request("T".into(), String::new(), "", &rows, Lang::En, "S").unwrap_err(), HomeError::AdminRequired);
    assert_eq!(event_request("T".into(), "m".into(), " , ", &rows, Lang::En, "S").unwrap_err(), HomeError::ParticipantsRequired);
}
