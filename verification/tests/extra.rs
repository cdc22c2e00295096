use wish::calendar::unix_secs_to_ymdh;
use wish::client::{choose_lang, error_line, extract_results, page_key, split_emails};
use wish::highlight::{highlight, highlight_template};
use wish::lang::Lang;
use wish::model::{EmailTemplates, ParticipantInput, ParticipantStatus, Slot};
use wish::numbers::{parse_i32, parse_u32, push_decimal, push_signed};
use wish::parse::ParseError;
use wish::server::{check_event_data, db_path, gen_id, slots_changed, status_after_update, DataError};
use wish::templates::{render_template, INVITE_EN, RESULTS_FR};

fn chars(s: &str) -> Vec<char> {
    s.chars().collect()
}

#[test]
fn calendar_known_dates() {
    assert_eq!(unix_secs_to_ymdh(0), (1970, 1, 1, 0));
    assert_eq!(unix_secs_to_ymdh(86399), (1970, 1, 1, 23));
    // 2000-02-29 12:00 UTC (leap day of a year divisible by 400)
    assert_eq!(unix_secs_to_ymdh(951_825_600), (2000, 2, 29, 12));
    // 2024-12-31 23:59:59 UTC
    assert_eq!(unix_secs_to_ymdh(1_735_689_599), (2024, 12, 31, 23));
    // 2100-03-01 00:00 UTC (2100 is not a leap year)
    assert_eq!(unix_secs_to_ymdh(4_107_542_400), (2100, 3, 1, 0));
}

#[test]
fn gen_id_is_forty_lowercase_hex_digits() {
    let a = gen_id();
    let b = gen_id();
    assert_eq!(a.len(), 40);
    assert!(a.chars().all(|c| c.is_ascii_digit() || ('a'..='f').contains(&c)));
    assert_ne!(a, b);
}

#[test]
fn db_path_is_db_json() {
    assert_eq!(db_path(), "db.json");
}

fn slot(name: &str, vmin: u32, vmax: u32) -> Slot {
    Slot { name: name.into(), vmin, vmax }
}

fn input(mail: &str, wish: Vec<i32>) -> ParticipantInput {
    ParticipantInput { mail: mail.into(), wish }
}

#[test]
fn check_event_data_each_error() {
    let slots = vec![slot("A", 1, 2), slot("B", 0, 1)];
    assert_eq!(check_event_data(&slots, &[input("a", vec![0, 1]), input("b", vec![1, 0])]), Ok(()));
    assert_eq!(check_event_data(&slots, &[]), Err(DataError::CountOutOfRange));
    assert_eq!(
        check_event_data(&slots, &[input("a", vec![0]), input("b", vec![1, 0])]),
        Err(DataError::WishLength)
    );
    assert_eq!(check_event_data(&[slot("A", 3, 2)], &[]), Err(DataError::MinAboveMax));
    let many: Vec<Slot> = (0..101).map(|i| slot(&i.to_string(), 0, 1)).collect();
    assert_eq!(check_event_data(&many, &[]), Err(DataError::TooManySlots));
    let people: Vec<ParticipantInput> = (0..1001).map(|i| input(&i.to_string(), vec![])).collect();
    assert_eq!(check_event_data(&[], &people), Err(DataError::TooManyParticipants));
    assert_eq!(DataError::MinAboveMax.message(), "vmin > vmax");
}

#[test]
fn slot_changes_and_status_updates() {
    let a = vec![slot("A", 1, 2), slot("B", 0, 1)];
    let b = vec![slot("A", 5, 5), slot("B", 0, 0)];
    let c = vec![slot("A", 1, 2), slot("C", 0, 1)];
    assert!(!slots_changed(&a, &b));
    assert!(slots_changed(&a, &c));
    assert!(slots_changed(&a, &a[..1]));
    assert_eq!(status_after_update(ParticipantStatus::Mailed, true), ParticipantStatus::UpdatePending);
    assert_eq!(status_after_update(ParticipantStatus::Mailed, false), ParticipantStatus::Mailed);
    assert_eq!(status_after_update(ParticipantStatus::UpdatePending, true), ParticipantStatus::UpdatePending);
    assert_eq!(status_after_update(ParticipantStatus::New, true), ParticipantStatus::New);
}

#[test]
fn split_emails_trims_and_drops_empty() {
    assert_eq!(split_emails(" a@x, b@y;\n c@z ,,"), vec!["a@x", "b@y", "c@z"]);
    assert_eq!(split_emails(""), Vec::<String>::new());
}

#[test]
fn extract_results_reads_the_results_section() {
    let text = "[statistics]\n\"a@x\" \"A\"\n[results]\n% mail slot\n\"a@x\"   \"A\"   1 0\n\n\"b@y\" \"B\"\nnot quoted\n\"c@z\" no slot\n";
    let entries: Vec<(String, String)> =
        extract_results(text).into_iter().map(|e| (e.mail, e.slot)).collect();
    assert_eq!(
        entries,
        vec![("a@x".to_string(), "A".to_string()), ("b@y".to_string(), "B".to_string())]
    );
}

#[test]
fn error_line_counts_from_one() {
    let e = ParseError { line: 4, message: "Unexpected section".to_string() };
    assert_eq!(error_line(&e), "Line 5: Unexpected section");
}

#[test]
fn page_key_prefers_the_query() {
    assert_eq!(page_key("?abc", "#def"), "abc");
    assert_eq!(page_key("", "#def"), "def");
    assert_eq!(page_key("??", "##x"), "x");
}

#[test]
fn choose_lang_in_order_of_preference() {
    assert_eq!(choose_lang("?x=1&lang=de", Some("fr"), &["it-IT"]), Lang::De);
    assert_eq!(choose_lang("?lang=xx", Some("fr"), &["it-IT"]), Lang::Fr);
    assert_eq!(choose_lang("", Some("zz"), &["es", "it-IT"]), Lang::It);
    assert_eq!(choose_lang("", None, &["es"]), Lang::En);
}

#[test]
fn highlight_editor_lines() {
    assert_eq!(
        highlight("[slots]\n\"A\" 12 % c\nx<y"),
        "<span class=\"hl-section\">[slots]</span>\n<span class=\"hl-string\">\"A\"</span> <span class=\"hl-number\">12</span> <span class=\"hl-comment\">% c</span>\nx&lt;y"
    );
    assert_eq!(highlight("  # note\n"), "<span class=\"hl-comment\">  # note</span>\n");
    assert_eq!(highlight("\"open"), "\"open");
}

#[test]
fn highlight_template_marks_known_variables() {
    assert_eq!(
        highlight_template("Go <b> $url $x"),
        "Go &lt;b&gt; <span class=\"hl-variable\">$url</span> $x"
    );
}

#[test]
fn default_templates_render() {
    let t = EmailTemplates::for_lang(Lang::En);
    assert_eq!(t.invite, INVITE_EN);
    assert!(t.invite.starts_with("Hi,\n\nYou have been invited by $admin_mail"));
    assert_eq!(EmailTemplates::default().results, EmailTemplates::for_lang(Lang::En).results);
    assert_eq!(EmailTemplates::for_lang(Lang::Fr).results, RESULTS_FR);
    let out = render_template(&t.results, &[("slot", "Morning"), ("event_name", "Party")]);
    assert_eq!(
        out,
        "Hi,\n\nYou have been put in the slot Morning for the event Party.\n\nHave a nice day,\nThe Wish team"
    );
}

#[test]
fn numbers_parse_and_print() {
    assert_eq!(parse_u32(&chars("42")), Some(42));
    assert_eq!(parse_u32(&chars("-1")), None);
    assert_eq!(parse_u32(&chars("")), None);
    assert_eq!(parse_i32(&chars("-2147483648")), Some(i32::MIN));
    assert_eq!(parse_i32(&chars("2147483648")), None);
    assert_eq!(parse_i32(&chars("+7")), Some(7));
    let mut out = Vec::new();
    push_decimal(&mut out, 1090);
    out.push(' ');
    push_signed(&mut out, -305);
    out.push(' ');
    push_signed(&mut out, i64::MIN);
    assert_eq!(out.into_iter().collect::<String>(), "1090 -305 -9223372036854775808");
}
