// Concrete instances of the properties the library proves.
use wish::fairness::{apply_fairness_vec, is_fair_wish};
use wish::pipeline::{assign_with_permutation, compute_assignment};
use wish::model::Slot;
use wish::parse::{parse, ParsedParticipant};
use wish::format::to_editor_text;
use wish::model::{Participant, ParticipantStatus};
use wish::templates::{escape_html, render_template, text_to_html};

#[test]
fn moving_a_slider_keeps_a_wish_fair() {
    let mut w = vec![3, 0, 1, 2];
    assert!(is_fair_wish(&w));
    apply_fairness_vec(&mut w, 1, 3, 4);
    assert_eq!(w[1], 3);
    assert!(is_fair_wish(&w));
}

#[test]
fn lowering_a_slider_changes_nothing_else() {
    let mut w = vec![3, 0, 1, 2];
    apply_fairness_vec(&mut w, 0, 1, 4);
    assert_eq!(w, vec![1, 0, 1, 2]);
}

#[test]
fn the_permutation_does_not_change_the_cost_of_the_assignment() {
    let wishes = vec![vec![0, 1, 2], vec![0, 2, 1], vec![1, 0, 2], vec![2, 1, 0]];
    let slots = vec![(1, 2), (1, 1), (1, 1)];
    let cost = |r: &Vec<usize>| -> i32 { r.iter().enumerate().map(|(i, &s)| wishes[i][s] * wishes[i][s]).sum() };
    let base = cost(&assign_with_permutation(&wishes, &slots, &[0, 1, 2, 3]));
    for perm in [[3, 2, 1, 0], [1, 0, 3, 2], [2, 3, 0, 1]] {
        assert_eq!(cost(&assign_with_permutation(&wishes, &slots, &perm)), base);
    }
    assert_eq!(base, 0);
}

#[test]
fn slots_never_get_more_participants_than_their_maximum() {
    let slots = vec![
        Slot { name: "A".into(), vmin: 0, vmax: 1 },
        Slot { name: "B".into(), vmin: 0, vmax: 3 },
    ];
    let ps: Vec<ParsedParticipant> = (0..4).map(|i| ParsedParticipant { mail: format!("{i}"), wish: vec![0, 1] }).collect();
    let r = compute_assignment(&slots, &ps);
    assert_eq!(r.iter().filter(|&&s| s == 0).count(), 1);
    assert_eq!(r.iter().filter(|&&s| s == 1).count(), 3);
}

#[test]
fn a_template_without_values_renders_unchanged() {
    let t = "$event_name: $url $ $1 $_x";
    assert_eq!(render_template(t, &[("other", "v")]), t);
}

#[test]
fn editor_text_parses_back_to_the_same_data() {
    let slots = vec![
        Slot { name: "Mo rning".into(), vmin: 0, vmax: 2 },
        Slot { name: "Éve".into(), vmin: 1, vmax: 2 },
    ];
    let ps = vec![
        Participant { id: "x".into(), mail: "a@b".into(), wish: vec![0, 1], event: String::new(), status: ParticipantStatus::Visited },
        Participant { id: String::new(), mail: "c@d".into(), wish: vec![1, 0], event: String::new(), status: ParticipantStatus::MailError },
    ];
    let parsed = parse(&to_editor_text(&slots, &ps));
    assert!(parsed.errors.is_empty());
    assert_eq!(parsed.slots.iter().map(|s| (s.name.clone(), s.vmin, s.vmax)).collect::<Vec<_>>(),
        vec![("Mo rning".to_string(), 0, 2), ("Éve".to_string(), 1, 2)]);
    assert_eq!(parsed.participants.iter().map(|p| (p.mail.clone(), p.wish.clone())).collect::<Vec<_>>(),
        vec![("a@b".to_string(), vec![0, 1]), ("c@d".to_string(), vec![1, 0])]);
}

#[test]
fn slots_get_at_least_their_minimum_when_possible() {
    let slots = vec![
        Slot { name: "A".into(), vmin: 2, vmax: 3 },
        Slot { name: "B".into(), vmin: 0, vmax: 3 },
    ];
    let ps: Vec<ParsedParticipant> = (0..3).map(|i| ParsedParticipant { mail: format!("{i}"), wish: vec![1, 0] }).collect();
    let r = compute_assignment(&slots, &ps);
    assert_eq!(r.iter().filter(|&&s| s == 0).count(), 2);
    assert_eq!(r.iter().filter(|&&s| s == 1).count(), 1);
}

#[test]
fn the_assignment_is_the_cheapest_within_the_quotas() {
    let slots = vec![
        Slot { name: "A".into(), vmin: 1, vmax: 1 },
        Slot { name: "B".into(), vmin: 1, vmax: 1 },
        Slot { name: "C".into(), vmin: 1, vmax: 1 },
    ];
    let wishes = vec![vec![0, 1, 2], vec![0, 2, 1], vec![2, 0, 1]];
    let ps: Vec<ParsedParticipant> =
        wishes.iter().enumerate().map(|(i, w)| ParsedParticipant { mail: format!("{i}"), wish: w.clone() }).collect();
    let r = compute_assignment(&slots, &ps);
    let cost: i32 = r.iter().enumerate().map(|(i, &s)| wishes[i][s] * wishes[i][s]).sum();
    assert_eq!(cost, 1);
    let mut seen = r.clone();
    seen.sort();
    assert_eq!(seen, vec![0, 1, 2]);
}

#[test]
fn rendered_help_holds_only_its_own_tags() {
    let html = wish::markdown::render("## Title <b>\n\nSome <script>alert(1)</script> **bold <i>** [x](\"><img)\n- item <u>");
    assert!(!html.contains("<script>"));
    assert!(!html.contains("<b>"));
    assert!(!html.contains("<i>"));
    assert!(!html.contains("<img"));
    assert!(!html.contains("<u>"));
    assert!(html.contains("&lt;script&gt;"));
    assert!(html.contains("<h3>"));
    assert!(html.contains("<a href=\"&quot;&gt;&lt;img\">x</a>"));
}

#[test]
fn mail_bodies_and_escaped_text_hold_no_markup() {
    let e = escape_html("<a href='x' title=\"y\">&</a>");
    assert!(!e.contains('<') && !e.contains('>') && !e.contains('"') && !e.contains('\''));
    assert_eq!(text_to_html("Hi <b>\nthere\n\n<script>"), "<p>Hi &lt;b&gt;<br/>there</p><p>&lt;script&gt;</p>");
}

#[test]
fn fairness_does_not_depend_on_order() {
    let w = vec![2, 0, 1, 0];
    let mut r = w.clone();
    r.reverse();
    assert_eq!(is_fair_wish(&w), is_fair_wish(&r));
    assert!(is_fair_wish(&[0, 2, 1]));
    assert!(is_fair_wish(&[1, 0, 2]));
    assert!(!is_fair_wish(&[2, 2, 0]));
    assert!(!is_fair_wish(&[0, 2, 2]));
}

#[test]
fn lowering_a_value_keeps_a_wish_fair() {
    let mut w = vec![3, 0, 2, 1];
    assert!(is_fair_wish(&w));
    w[0] = 1;
    assert!(is_fair_wish(&w));
    w[2] = 0;
    assert!(is_fair_wish(&w));
}

#[test]
fn raising_a_slider_lowers_others_by_at_most_one() {
    let w = vec![0, 1, 2, 3];
    let mut r = w.clone();
    apply_fairness_vec(&mut r, 0, 3, 4);
    assert_eq!(r[0], 3);
    for j in 1..4 {
        assert!(r[j] == w[j] || r[j] == w[j] - 1);
        assert!(r[j] >= 0 && r[j] < 4);
    }
    assert_eq!(r, vec![3, 0, 1, 2]);
}

#[test]
fn results_read_back_from_the_report() {
    let slots = vec![
        Slot { name: "Morning".into(), vmin: 0, vmax: 2 },
        Slot { name: "Evening".into(), vmin: 0, vmax: 2 },
    ];
    let parts = vec![
        ("b@x".to_string(), vec![0, 1]),
        ("a@x".to_string(), vec![1, 0]),
        ("c@x".to_string(), vec![0, 1]),
    ];
    let result = vec![0usize, 1, 0];
    let text = wish::format::format_results(&slots, &parts, &result);
    let entries: Vec<(String, String)> =
        wish::client::extract_results(&text).into_iter().map(|e| (e.mail, e.slot)).collect();
    assert_eq!(entries, vec![
        ("b@x".to_string(), "Morning".to_string()),
        ("a@x".to_string(), "Evening".to_string()),
        ("c@x".to_string(), "Morning".to_string()),
    ]);
}

fn without_tags(html: &str) -> String {
    let mut out = String::new();
    let mut in_tag = false;
    for c in html.chars() {
        if in_tag {
            if c == '>' {
                in_tag = false;
            }
        } else if c == '<' {
            in_tag = true;
        } else {
            out.push(c);
        }
    }
    out
}

#[test]
fn highlighting_only_wraps_the_escaped_text() {
    let text = "[slots]\n\"A<b>\" 1 2 % c&d\n\"x@y\" 0 1\n";
    let html = wish::highlight::highlight(text);
    assert_eq!(without_tags(&html), "[slots]\n\"A&lt;b&gt;\" 1 2 % c&amp;d\n\"x@y\" 0 1\n");
}
