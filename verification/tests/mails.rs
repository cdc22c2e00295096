use wish::mails::{creation_email, reminder_email, result_emails, update_email};
use wish::model::ResultEntry;

#[test]
fn confirmation_of_a_new_event() {
    let m = creation_email("boss@x", "A & B", "https://w.example", "e42");
    assert_eq!(m.to, "boss@x");
    assert_eq!(m.subject, "Wish: A &amp; B");
    assert_eq!(
        m.html,
        "<p>Hi,</p><p>An event has been created with your email address.<br /><strong>If you are not concerned, please do not click on the following url.</strong><br /><a href=\"https://w.example/admin?e42\">Click here</a> to administrate the activity.</p><p>Have a nice day,<br />The Wish team</p>"
    );
    assert_eq!(
        m.text,
        "Hi,\nAn event has been created with your email address.\nIf you are not concerned, please do not click on the following url.\nTo administrate the activity, go to: https://w.example/admin?e42\n\nHave a nice day,\nThe Wish team"
    );
}

#[test]
fn reminder_and_update_notices() {
    let m = reminder_email("a@x", "<Trip>", "https://w", "p1");
    assert_eq!(m.subject, "Wish: <Trip>");
    assert_eq!(
        m.html,
        "<p>Hi,</p><p>Don't forget to fill <a href=\"https://w/wish?p1\">your wish</a> for the event <strong>&lt;Trip&gt;</strong>.</p><p>Have a nice day,<br />The Wish team</p>"
    );
    assert_eq!(m.text, "Hi,\nDon't forget to fill your wish for the event <Trip>.\nhttps://w/wish?p1\n\nHave a nice day,\nThe Wish team");
    let u = update_email("a@x", "Trip", "boss@x", "https://w", "p1");
    assert_eq!(u.to, "a@x");
    assert_eq!(
        u.html,
        "<p>Hi,</p><p>The administrator (boss@x) of the event <strong>Trip</strong> has modified the slots.</p><p>Please look at <a href=\"https://w/wish?p1\">your wish</a>.</p><p>Have a nice day,<br />The Wish team</p>"
    );
    assert_eq!(
        u.text,
        "Hi,\nThe administrator (boss@x) of the event Trip has modified the slots.\nPlease look at your wish: https://w/wish?p1\n\nHave a nice day,\nThe Wish team"
    );
}

#[test]
fn results_to_participants_and_summary() {
    let results = vec![
        ResultEntry { mail: "a@x".into(), slot: "Mon".into() },
        ResultEntry { mail: "b@x".into(), slot: "Tue & Wed".into() },
    ];
    let ms = result_emails(&results, "Trip", "boss@x");
    assert_eq!(ms.len(), 3);
    assert_eq!(ms[1].to, "b@x");
    assert_eq!(
        ms[1].html,
        "<p>Hi,</p><p>You have been put in the slot <strong>Tue &amp; Wed</strong> for the event <strong>Trip</strong>.</p><p>Have a nice day,<br />The Wish team</p>"
    );
    assert_eq!(ms[1].text, "Hi,\nYou have been put in the slot Tue & Wed for the event Trip.\n\nHave a nice day,\nThe Wish team");
    assert_eq!(ms[2].to, "boss@x");
    assert_eq!(
        ms[2].html,
        "<p>Hi,</p><p>The following information have been sent to the participants of the event <strong>Trip</strong>.</p><table><tr><th>mail</th><th>slot</th></tr><tr><td>a@x</td><td>Mon</td></tr><tr><td>b@x</td><td>Tue &amp; Wed</td></tr></table><p>Have a nice day,<br />The Wish team</p>"
    );
    assert_eq!(
        ms[2].text,
        "Hi,\nThe following information have been sent to the participants of the event Trip.\n\na@x  Mon\nb@x  Tue & Wed\n\nHave a nice day,\nThe Wish team"
    );
    let none = result_emails(&[], "Trip", "boss@x");
    assert_eq!(none.len(), 1);
}
