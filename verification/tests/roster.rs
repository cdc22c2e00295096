use wish::history::{history_entries, history_for};
use wish::model::Config;
use wish::lang::Lang;
use wish::model::{CreateEventRequest, EmailTemplates, Event, Participant, ParticipantInput, ParticipantStatus, Slot};
use wish::model::WsMsg;
use wish::roster::{
    create_event_data, event_members, mail_recipients, open_wish, progress_after_send, save_event_participants,
    save_participants, status_after_sending, update_wish, WishRefusal,
};
use wish::server::DataError;
use wish::admin::{set_admin_data, SaveRefusal};
use wish::model::SetDataRequest;

fn member(id: &str, mail: &str, event: &str, status: ParticipantStatus) -> Participant {
    Participant { id: id.into(), mail: mail.into(), wish: vec![0, 1], event: event.into(), status }
}

fn input(mail: &str, wish: Vec<i32>) -> ParticipantInput {
    ParticipantInput { mail: mail.into(), wish }
}

#[test]
fn saving_keeps_updates_adds_and_removes_participants() {
    let mut ps = vec![
        member("p1", "a@x", "e1", ParticipantStatus::Done),
        member("p2", "b@x", "e1", ParticipantStatus::New),
        member("q1", "a@x", "e2", ParticipantStatus::Mailed),
    ];
    let inputs = vec![input("a@x", vec![1, 0]), input("c@x", vec![0, 1])];
    let fresh = vec!["n1".to_string(), "n2".to_string()];
    let ids = save_participants(&mut ps, "e1", &inputs, true, &fresh);
    assert_eq!(ids, vec!["p1".to_string(), "n2".to_string()]);
    let view: Vec<(String, String, Vec<i32>, String, ParticipantStatus)> =
        ps.iter().map(|p| (p.id.clone(), p.mail.clone(), p.wish.clone(), p.event.clone(), p.status)).collect();
    assert_eq!(view, vec![
        ("p1".into(), "a@x".into(), vec![1, 0], "e1".into(), ParticipantStatus::UpdatePending),
        ("q1".into(), "a@x".into(), vec![0, 1], "e2".into(), ParticipantStatus::Mailed),
        ("n2".into(), "c@x".into(), vec![0, 1], "e1".into(), ParticipantStatus::New),
    ]);
}

#[test]
fn unchanged_slots_keep_the_status() {
    let mut ps = vec![member("p1", "a@x", "e1", ParticipantStatus::Done)];
    let ids = save_participants(&mut ps, "e1", &[input("a@x", vec![1, 0])], false, &["n".to_string()]);
    assert_eq!(ids, vec!["p1".to_string()]);
    assert_eq!(ps[0].status, ParticipantStatus::Done);
}

#[test]
fn saving_with_random_identifiers() {
    let mut ps = vec![member("p1", "a@x", "e1", ParticipantStatus::New)];
    let ids = save_event_participants(&mut ps, "e1", &[input("b@x", vec![0])], false);
    assert_eq!(ids.len(), 1);
    assert_eq!(ids[0].len(), 40);
    assert_eq!(ps.len(), 1);
    assert_eq!(ps[0].mail, "b@x");
    assert_eq!(ps[0].id, ids[0]);
}

#[test]
fn opening_and_updating_a_wish() {
    let mut p = member("p", "a@x", "e", ParticipantStatus::Mailed);
    open_wish(&mut p, 3);
    assert_eq!(p.wish, vec![0, 0, 0]);
    assert_eq!(p.status, ParticipantStatus::Visited);
    let mut done = member("p", "a@x", "e", ParticipantStatus::Done);
    open_wish(&mut done, 2);
    assert_eq!(done.wish, vec![0, 1]);
    assert_eq!(done.status, ParticipantStatus::Done);
    assert_eq!(update_wish(&mut p, &[2, 2, 2], 3), Err(WishRefusal::Unfair));
    assert_eq!(update_wish(&mut p, &[0, 1], 3), Err(WishRefusal::WrongLength));
    assert_eq!(p.wish, vec![0, 0, 0]);
    assert_eq!(update_wish(&mut p, &[2, 0, 1], 3), Ok(()));
    assert_eq!(p.wish, vec![2, 0, 1]);
    assert_eq!(p.status, ParticipantStatus::Modified);
}

#[test]
fn who_gets_mails() {
    let ps = vec![
        member("p1", "a@x", "e1", ParticipantStatus::New),
        member("p2", "b@x", "e1", ParticipantStatus::Done),
        member("q1", "c@x", "e2", ParticipantStatus::New),
        member("p3", "d@x", "e1", ParticipantStatus::UpdatePending),
        member("p4", "e@x", "e1", ParticipantStatus::Visited),
    ];
    let ids: Vec<String> = vec!["p1".into(), "p2".into(), "p3".into(), "p4".into()];
    assert_eq!(mail_recipients(&ps, &ids, false), vec![0, 3]);
    assert_eq!(mail_recipients(&ps, &ids, true), vec![0, 3, 4]);
}

#[test]
fn members_sorted_by_mail() {
    let ps = vec![
        member("p1", "zed@x", "e1", ParticipantStatus::New),
        member("q1", "aaa@x", "e2", ParticipantStatus::New),
        member("p2", "bob@x", "e1", ParticipantStatus::New),
        member("p3", "Bob@x", "e1", ParticipantStatus::New),
        member("p4", "bob@x", "e1", ParticipantStatus::Done),
    ];
    let ids: Vec<String> = vec!["p1".into(), "p2".into(), "p3".into(), "p4".into()];
    let r = event_members(&ps, &ids);
    assert_eq!(r.iter().map(|p| p.id.clone()).collect::<Vec<_>>(), vec!["p3", "p2", "p4", "p1"]);
}

#[test]
fn new_events() {
    let req = CreateEventRequest {
        name: "Trip".into(),
        admin_mail: "me@x".into(),
        mails: vec!["a@x".into(), "b@x".into()],
        slots: vec![Slot { name: "A".into(), vmin: 0, vmax: 2 }, Slot { name: "B".into(), vmin: 1, vmax: 2 }],
        lang: Lang::De,
    };
    let (e, ps) = create_event_data(&req, "https://w", 1234).unwrap();
    assert_eq!(e.id.len(), 40);
    assert_eq!(e.name, "Trip");
    assert_eq!(e.url, "https://w");
    assert_eq!(e.creation_time, 1234);
    assert_eq!(e.templates.invite, EmailTemplates::for_lang(Lang::De).invite);
    assert_eq!(ps.len(), 2);
    assert_eq!(e.participants, ps.iter().map(|p| p.id.clone()).collect::<Vec<_>>());
    assert_eq!(ps[1].mail, "b@x");
    assert_eq!(ps[1].wish, vec![0, 0]);
    assert_eq!(ps[1].event, e.id);
    assert_eq!(ps[1].status, ParticipantStatus::New);
    let many = CreateEventRequest { slots: (0..101).map(|i| Slot { name: format!("{i}"), vmin: 0, vmax: 1 }).collect(), ..req.clone() };
    assert_eq!(create_event_data(&many, "u", 0).unwrap_err(), DataError::TooManySlots);
    let crowd = CreateEventRequest { mails: (0..1001).map(|i| format!("{i}@x")).collect(), ..req };
    assert_eq!(create_event_data(&crowd, "u", 0).unwrap_err(), DataError::TooManyParticipants);
}

#[test]
fn history_newest_first() {
    let ev = |id: &str, t: i64, n: usize| Event {
        id: id.into(),
        name: format!("event {id}"),
        admin_mail: "a@x".into(),
        slots: vec![],
        url: String::new(),
        participants: (0..n).map(|i| format!("{i}")).collect(),
        creation_time: t,
        templates: EmailTemplates::default(),
    };
    let events = vec![ev("a", 10, 1), ev("b", 30, 2), ev("c", 10, 3), ev("d", 20, 0)];
    let h = history_entries(&events);
    assert_eq!(h.iter().map(|e| (e.id.clone(), e.num_participants)).collect::<Vec<_>>(),
        vec![("b".to_string(), 2), ("d".to_string(), 0), ("a".to_string(), 1), ("c".to_string(), 3)]);
}

#[test]
fn statuses_and_progress_after_mails() {
    assert_eq!(status_after_sending(ParticipantStatus::New, true, false), ParticipantStatus::Mailed);
    assert_eq!(status_after_sending(ParticipantStatus::New, false, false), ParticipantStatus::MailError);
    assert_eq!(status_after_sending(ParticipantStatus::Visited, true, true), ParticipantStatus::Visited);
    assert_eq!(status_after_sending(ParticipantStatus::Visited, false, true), ParticipantStatus::MailError);
    let (n, msg) = progress_after_send(2, 5, "a@x", None);
    assert_eq!(n, 3);
    match msg {
        WsMsg::MailProgress { sent, total, mail, error } => {
            assert_eq!((sent, total, mail.as_str(), error), (3, 5, "a@x", None));
        }
        _ => panic!("not a progress message"),
    }
    let (n, msg) = progress_after_send(3, 5, "b@x", Some("bounced".to_string()));
    assert_eq!(n, 3);
    match msg {
        WsMsg::MailProgress { sent, error, .. } => {
            assert_eq!(sent, 3);
            assert_eq!(error, Some("bounced".to_string()));
        }
        _ => panic!("not a progress message"),
    }
}

#[test]
fn history_needs_the_password() {
    let config = Config { port: 1, history_password: "secret".into(), base_url: String::new() };
    let events: Vec<Event> = Vec::new();
    assert!(history_for("guess", &config, &events).is_none());
    assert_eq!(history_for("secret", &config, &events).map(|h| h.len()), Some(0));
}

fn templates() -> EmailTemplates {
    EmailTemplates { invite: "i".into(), update: "u".into(), reminder: "r".into(), results: "s".into() }
}

fn slot(name: &str, vmin: u32, vmax: u32) -> Slot {
    Slot { name: name.into(), vmin, vmax }
}

fn stored_event(id: &str, participants: Vec<&str>) -> Event {
    Event {
        id: id.into(),
        name: format!("Event {id}"),
        admin_mail: "admin@x".into(),
        slots: vec![slot("A", 0, 2), slot("B", 0, 2)],
        url: "http://x".into(),
        participants: participants.into_iter().map(|s| s.to_string()).collect(),
        creation_time: 7,
        templates: templates(),
    }
}

#[test]
fn setting_admin_data_saves_the_event_and_answers_sorted_participants() {
    let mut events = vec![stored_event("e2", vec!["q1"]), stored_event("e1", vec!["p1", "p2"])];
    let mut ps = vec![
        member("p1", "b@x", "e1", ParticipantStatus::Done),
        member("p2", "z@x", "e1", ParticipantStatus::New),
        member("q1", "b@x", "e2", ParticipantStatus::Mailed),
    ];
    let req = SetDataRequest {
        slots: vec![slot("A", 0, 2), slot("C", 0, 2)],
        participants: vec![input("b@x", vec![1, 0]), input("a@x", vec![0, 1])],
        send_mails: false,
        templates: templates(),
    };
    let d = set_admin_data(&mut events, &mut ps, "e1", &req).unwrap();
    assert_eq!(d.name, "Event e1");
    assert_eq!(d.slots.iter().map(|s| s.name.clone()).collect::<Vec<_>>(), vec!["A", "C"]);
    assert_eq!(d.participants.iter().map(|p| p.mail.clone()).collect::<Vec<_>>(), vec!["a@x", "b@x"]);
    assert_eq!(d.participants[1].id, "p1");
    assert_eq!(d.participants[1].status, ParticipantStatus::UpdatePending);
    assert_eq!(d.participants[0].status, ParticipantStatus::New);
    assert_eq!(events[1].participants.len(), 2);
    assert_eq!(events[1].participants[0], "p1");
    assert_eq!(events[1].participants[1], d.participants[0].id);
    assert_eq!(events[1].slots[1].name, "C");
    assert_eq!(events[0].participants, vec!["q1".to_string()]);
    assert_eq!(events[0].slots[1].name, "B");
    assert_eq!(ps.len(), 3);
    assert!(ps.iter().all(|p| p.id != "p2"));
    assert!(ps.iter().any(|p| p.id == "q1" && p.status == ParticipantStatus::Mailed));
}

#[test]
fn setting_admin_data_refuses_bad_data_and_unknown_events() {
    let mut events = vec![stored_event("e1", vec![])];
    let mut ps: Vec<Participant> = vec![];
    let bad = SetDataRequest {
        slots: vec![slot("A", 3, 1)],
        participants: vec![],
        send_mails: false,
        templates: templates(),
    };
    assert!(matches!(set_admin_data(&mut events, &mut ps, "e1", &bad), Err(SaveRefusal::Invalid(DataError::MinAboveMax))));
    let good = SetDataRequest { slots: vec![slot("A", 0, 1)], participants: vec![], send_mails: false, templates: templates() };
    assert!(matches!(set_admin_data(&mut events, &mut ps, "nope", &good), Err(SaveRefusal::NotFound)));
    assert_eq!(events[0].slots.len(), 2);
}
