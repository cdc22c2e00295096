use wish::fairness::is_fair_wish;
use wish::lang::Lang;
use wish::model::ParticipantStatus;
use wish::templates::{
    escape_html, missing_required_vars, render_template, scan_template, text_to_html, TemplateSpan,
    INVITE_REQUIRED, RESULTS_REQUIRED,
};

// ── ParticipantStatus ──────────────────────────────────────────

#[test]
fn status_as_i32_round_trips() {
    let cases = [
        (ParticipantStatus::New, 0),
        (ParticipantStatus::UpdatePending, 10),
        (ParticipantStatus::MailError, -10),
        (ParticipantStatus::Mailed, 20),
        (ParticipantStatus::Visited, 30),
        (ParticipantStatus::Done, 35),
        (ParticipantStatus::Modified, 40),
    ];
    for (status, expected) in cases {
        assert_eq!(status.as_i32(), expected, "{status:?}");
    }
}

#[test]
fn status_labels_not_empty() {
    let all = [
        ParticipantStatus::New,
        ParticipantStatus::UpdatePending,
        ParticipantStatus::MailError,
        ParticipantStatus::Mailed,
        ParticipantStatus::Visited,
        ParticipantStatus::Done,
        ParticipantStatus::Modified,
    ];
    for s in all {
        assert!(!s.label().is_empty(), "{s:?} has empty label");
    }
}

#[test]
fn needs_reminder_before_done() {
    assert!(ParticipantStatus::New.needs_reminder());
    assert!(ParticipantStatus::Mailed.needs_reminder());
    assert!(ParticipantStatus::Visited.needs_reminder());
    assert!(!ParticipantStatus::Done.needs_reminder());
    assert!(!ParticipantStatus::Modified.needs_reminder());
}

#[test]
fn default_status_is_new() {
    assert_eq!(ParticipantStatus::default(), ParticipantStatus::New);
}

// ── is_fair_wish ───────────────────────────────────────────────

#[test]
fn fair_wish_all_zeros() {
    assert!(is_fair_wish(&[0, 0, 0, 0]));
}

#[test]
fn fair_wish_strict_ordering() {
    assert!(is_fair_wish(&[0, 1, 2, 3]));
}

#[test]
fn fair_wish_reversed() {
    assert!(is_fair_wish(&[3, 2, 1, 0]));
}

#[test]
fn fair_wish_some_ties() {
    assert!(is_fair_wish(&[0, 0, 1, 2]));
}

#[test]
fn unfair_wish_too_many_high() {
    assert!(!is_fair_wish(&[3, 3, 3, 0]));
}

#[test]
fn unfair_wish_single_high() {
    assert!(is_fair_wish(&[2, 0, 0]));
    assert!(!is_fair_wish(&[2, 2, 0]));
}

#[test]
fn fair_wish_empty() {
    assert!(is_fair_wish(&[]));
}

#[test]
fn fair_wish_single() {
    assert!(is_fair_wish(&[0]));
    assert!(!is_fair_wish(&[1]));
}

#[test]
fn fair_wish_negative_values_are_fair() {
    assert!(is_fair_wish(&[-5, -1, 2]));
}

// ── escape_html ───────────────────────────────────────────────

#[test]
fn escape_html_no_special_chars() {
    assert_eq!(escape_html("hello world"), "hello world");
}

#[test]
fn escape_html_all_special_chars() {
    assert_eq!(
        escape_html(r#"<script>alert("x&y")</script>"#),
        "&lt;script&gt;alert(&quot;x&amp;y&quot;)&lt;/script&gt;"
    );
}

#[test]
fn escape_html_single_quotes() {
    assert_eq!(escape_html("it's"), "it&#x27;s");
}

#[test]
fn escape_html_empty() {
    assert_eq!(escape_html(""), "");
}

// ── render_template ───────────────────────────────────────────

#[test]
fn render_template_substitutes_known_vars() {
    let out = render_template(
        "Hi $event_name, go to $url.",
        &[("event_name", "Party"), ("url", "https://x/y")],
    );
    assert_eq!(out, "Hi Party, go to https://x/y.");
}

#[test]
fn render_template_leaves_unknown_vars_literal() {
    let out = render_template("Start $ur end", &[("url", "https://x")]);
    assert_eq!(out, "Start $ur end");
}

#[test]
fn render_template_stops_at_word_boundary() {
    let out = render_template("$url. and $url_x.", &[("url", "A")]);
    assert_eq!(out, "A. and $url_x.");
}

#[test]
fn render_template_bare_dollar_is_literal() {
    assert_eq!(render_template("price: $5", &[]), "price: $5");
    assert_eq!(render_template("end$", &[]), "end$");
}

#[test]
fn render_template_handles_unicode_text() {
    let out = render_template("héllo $name ✓", &[("name", "wörld")]);
    assert_eq!(out, "héllo wörld ✓");
}

#[test]
fn render_template_without_values_gives_template_back() {
    let t = "Dear $name, $$ and $x_1y: $";
    assert_eq!(render_template(t, &[]), t);
    assert_eq!(render_template(t, &[("url", "u")]), t);
}

#[test]
fn render_template_first_value_wins() {
    assert_eq!(render_template("$a", &[("a", "1"), ("a", "2")]), "1");
}

// ── text_to_html ──────────────────────────────────────────────

#[test]
fn text_to_html_wraps_paragraphs() {
    let out = text_to_html("Hi,\n\nLine two.");
    assert_eq!(out, "<p>Hi,</p><p>Line two.</p>");
}

#[test]
fn text_to_html_single_newline_is_br() {
    let out = text_to_html("one\ntwo");
    assert_eq!(out, "<p>one<br/>two</p>");
}

#[test]
fn text_to_html_escapes_html() {
    let out = text_to_html("<script>a&b</script>");
    assert_eq!(out, "<p>&lt;script&gt;a&amp;b&lt;/script&gt;</p>");
}

#[test]
fn text_to_html_drops_empty_paragraphs_and_edge_newlines() {
    assert_eq!(text_to_html("\n\n\na\n\n\n\n"), "<p>a</p>");
    assert_eq!(text_to_html(""), "");
    assert_eq!(text_to_html("a\n\n\nb"), "<p>a</p><p>b</p>");
}

// ── scan_template ─────────────────────────────────────────────

#[test]
fn scan_template_marks_known_and_unknown() {
    let mut spans = Vec::new();
    for span in scan_template("x $url y $ur z") {
        match span {
            TemplateSpan::Text(t) => spans.push(("t", t.to_string(), false)),
            TemplateSpan::Var { name, known, .. } => spans.push(("v", name.to_string(), known)),
        }
    }
    assert_eq!(
        spans,
        vec![
            ("t", "x ".into(), false),
            ("v", "url".into(), true),
            ("t", " y ".into(), false),
            ("v", "ur".into(), false),
            ("t", " z".into(), false),
        ]
    );
}

#[test]
fn scan_template_raw_keeps_the_dollar() {
    let spans = scan_template("$slot");
    assert_eq!(spans.len(), 1);
    match &spans[0] {
        TemplateSpan::Var { raw, name, known } => {
            assert_eq!(raw, "$slot");
            assert_eq!(name, "slot");
            assert!(*known);
        }
        TemplateSpan::Text(_) => panic!("expected a variable"),
    }
}

#[test]
fn missing_required_vars_lists_absent_names() {
    assert_eq!(missing_required_vars("go to $url", &INVITE_REQUIRED), Vec::<&str>::new());
    assert_eq!(missing_required_vars("go to $urls", &INVITE_REQUIRED), vec!["url"]);
    assert_eq!(missing_required_vars("no var", &RESULTS_REQUIRED), vec!["slot"]);
    assert_eq!(missing_required_vars("$a $b", &["b", "c", "a"]), vec!["c"]);
}

// ── Lang ──────────────────────────────────────────────────────

#[test]
fn lang_codes_round_trip() {
    for l in [Lang::En, Lang::Fr, Lang::It, Lang::De] {
        assert_eq!(Lang::from_code(l.code()), Some(l));
    }
    assert_eq!(Lang::from_code("EN"), None);
    assert_eq!(Lang::from_code(""), None);
    assert_eq!(Lang::default(), Lang::En);
}

#[test]
fn lang_from_browser_tag() {
    assert_eq!(Lang::from_browser_tag("fr-CA"), Some(Lang::Fr));
    assert_eq!(Lang::from_browser_tag("en-US"), Some(Lang::En));
    assert_eq!(Lang::from_browser_tag("DE_ch"), Some(Lang::De));
    assert_eq!(Lang::from_browser_tag("It"), Some(Lang::It));
    assert_eq!(Lang::from_browser_tag("es-ES"), None);
    assert_eq!(Lang::from_browser_tag(""), None);
    assert_eq!(Lang::from_browser_tag("-fr"), None);
}

#[test]
fn scan_template_cuts_names_as_far_as_they_go() {
    let spans = scan_template("Hi $name_1, $$x y$");
    let view: Vec<(bool, String)> = spans
        .iter()
        .map(|s| match s {
            TemplateSpan::Text(t) => (false, t.clone()),
            TemplateSpan::Var { name, .. } => (true, name.clone()),
        })
        .collect();
    assert_eq!(view, vec![
        (false, "Hi ".to_string()),
        (true, "name_1".to_string()),
        (false, ", $".to_string()),
        (true, "x".to_string()),
        (false, " y$".to_string()),
    ]);
}
