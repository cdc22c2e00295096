use wish::assignment::{assignment_to_slots, build_cost_matrix};
use wish::format::{format_results, to_editor_text};
use wish::hungarian::hungarian;
use wish::model::{Participant, ParticipantStatus, Slot};
use wish::parse::{parse, parse_quoted_string};
use wish::pipeline::compute_and_format;

// ── parse() basic ──────────────────────────────────────────────

#[test]
fn parse_valid_minimal() {
    let text = "[slots]\n\"A\" 1 2\n\"B\" 1 2\n\n[participants]\n\"x@a\" 0 1\n\"y@b\" 1 0\n";
    let r = parse(text);
    assert!(r.errors.is_empty(), "errors: {:?}", r.errors);
    assert_eq!(r.slots.len(), 2);
    assert_eq!(r.slots[0].name, "A");
    assert_eq!(r.slots[0].vmin, 1);
    assert_eq!(r.slots[0].vmax, 2);
    assert_eq!(r.participants.len(), 2);
    assert_eq!(r.participants[0].mail, "x@a");
    assert_eq!(r.participants[0].wish, vec![0, 1]);
    assert_eq!(r.participants[1].wish, vec![1, 0]);
}

#[test]
fn parse_empty_input() {
    let r = parse("");
    assert!(r.errors.is_empty());
    assert!(r.slots.is_empty());
    assert!(r.participants.is_empty());
}

#[test]
fn parse_comments_only() {
    let r = parse("% this is a comment\n# another comment\n");
    assert!(r.errors.is_empty());
    assert!(r.slots.is_empty());
}

#[test]
fn parse_blank_lines_and_comments() {
    let text = "\n% header\n[slots]\n% a comment\n\"Slot1\" 0 5\n\n[participants]\n# another comment\n\"a@b\" 0\n";
    let r = parse(text);
    assert!(r.errors.is_empty(), "errors: {:?}", r.errors);
    assert_eq!(r.slots.len(), 1);
    assert_eq!(r.participants.len(), 1);
}

// ── parse() error cases ────────────────────────────────────────

#[test]
fn parse_missing_slots_section() {
    let text = "[participants]\n\"x@a\" 0\n";
    let r = parse(text);
    assert!(!r.errors.is_empty());
    assert!(r.errors[0].message.contains("slots"));
}

#[test]
fn parse_wrong_section_order() {
    let text = "[slots]\n\"A\" 1 2\n[slots]\n";
    let r = parse(text);
    assert!(!r.errors.is_empty());
    assert!(r.errors[0].message.contains("participants"));
}

#[test]
fn parse_vmin_gt_vmax() {
    let text = "[slots]\n\"A\" 5 2\n[participants]\n";
    let r = parse(text);
    assert!(!r.errors.is_empty());
    assert!(r.errors[0].message.contains("max"));
}

#[test]
fn parse_wrong_wish_count() {
    let text = "[slots]\n\"A\" 0 5\n\"B\" 0 5\n[participants]\n\"x@a\" 0\n";
    let r = parse(text);
    assert!(!r.errors.is_empty());
    assert!(r.errors[0].message.contains("wish values"));
}

#[test]
fn parse_duplicate_email() {
    let text = "[slots]\n\"A\" 0 5\n[participants]\n\"x@a\" 0\n\"x@a\" 0\n";
    let r = parse(text);
    assert!(!r.errors.is_empty());
    assert!(r.errors[0].message.contains("multiple times"));
}

#[test]
fn parse_too_many_participants() {
    let text = "[slots]\n\"A\" 0 1\n[participants]\n\"x@a\" 0\n\"y@b\" 0\n";
    let r = parse(text);
    assert!(!r.errors.is_empty());
    assert!(r.errors[0].message.contains("Too many"));
}

#[test]
fn parse_too_few_participants() {
    let text = "[slots]\n\"A\" 3 5\n[participants]\n\"x@a\" 0\n\"y@b\" 0\n";
    let r = parse(text);
    assert!(!r.errors.is_empty());
    assert!(r.errors[0].message.contains("Not enough"));
}

#[test]
fn parse_data_before_section() {
    let text = "\"orphan\" 1 2\n[slots]\n\"A\" 0 5\n";
    let r = parse(text);
    assert!(!r.warnings.is_empty());
    assert!(r.warnings[0].message.contains("ignored"));
}

// ── parse() warnings ───────────────────────────────────────────

#[test]
fn parse_unfair_wish_warns() {
    let text = "[slots]\n\"A\" 0 5\n\"B\" 0 5\n\"C\" 0 5\n[participants]\n\"x@a\" 2 2 0\n";
    let r = parse(text);
    assert!(r.errors.is_empty(), "errors: {:?}", r.errors);
    assert!(!r.warnings.is_empty());
    assert!(r.warnings[0].message.contains("not fair"));
}

#[test]
fn parse_fair_wish_no_warning() {
    let text = "[slots]\n\"A\" 0 5\n\"B\" 0 5\n\"C\" 0 5\n[participants]\n\"x@a\" 0 1 2\n";
    let r = parse(text);
    assert!(r.errors.is_empty());
    assert!(r.warnings.is_empty(), "warnings: {:?}", r.warnings);
}

// ── parse() with trailing comments on data lines ───────────────

#[test]
fn parse_trailing_comments() {
    let text = "[slots]\n\"Monday\" 0 5  % first slot\n\"Tuesday\" 0 5  # second\n\n[participants]\n\"a@b\" 0 1  % mail sent\n";
    let r = parse(text);
    assert!(r.errors.is_empty(), "errors: {:?}", r.errors);
    assert_eq!(r.slots.len(), 2);
    assert_eq!(r.slots[0].name, "Monday");
    assert_eq!(r.participants[0].wish, vec![0, 1]);
}

// ── to_editor_text ─────────────────────────────────────────────

fn slot(name: &str, vmin: u32, vmax: u32) -> Slot {
    Slot { name: name.into(), vmin, vmax }
}

fn participant(id: &str, mail: &str, wish: Vec<i32>, status: ParticipantStatus) -> Participant {
    Participant { id: id.into(), mail: mail.into(), wish, event: String::new(), status }
}

#[test]
fn to_editor_text_basic() {
    let slots = vec![slot("A", 1, 5), slot("B", 0, 3)];
    let participants = vec![
        participant("abc123", "alice@x", vec![0, 1], ParticipantStatus::Modified),
        participant("", "bob@y", vec![1, 0], ParticipantStatus::New),
    ];
    let text = to_editor_text(&slots, &participants);

    assert!(text.contains("[slots]"));
    assert!(text.contains("[participants]"));
    assert!(text.contains("\"A\""));
    assert!(text.contains("\"B\""));
    assert!(text.contains("\"alice@x\""));
    assert!(text.contains("\"bob@y\""));
    assert!(text.contains("modified wishes"));
    assert!(text.contains("mail not sent"));
}

// ── round-trip: to_editor_text -> parse ────────────────────────

#[test]
fn round_trip_editor_parse() {
    let slots = vec![slot("Morning", 1, 3), slot("Afternoon", 1, 3)];
    let participants = vec![
        participant("id1", "a@x", vec![0, 1], ParticipantStatus::Mailed),
        participant("id2", "b@y", vec![1, 0], ParticipantStatus::Modified),
    ];

    let text = to_editor_text(&slots, &participants);
    let parsed = parse(&text);

    assert!(parsed.errors.is_empty(), "round-trip errors: {:?}\ntext:\n{text}", parsed.errors);
    assert_eq!(parsed.slots.len(), 2);
    assert_eq!(parsed.slots[0].name, "Morning");
    assert_eq!(parsed.slots[0].vmin, 1);
    assert_eq!(parsed.slots[0].vmax, 3);
    assert_eq!(parsed.slots[1].name, "Afternoon");
    assert_eq!(parsed.participants.len(), 2);
    assert_eq!(parsed.participants[0].mail, "a@x");
    assert_eq!(parsed.participants[0].wish, vec![0, 1]);
    assert_eq!(parsed.participants[1].mail, "b@y");
    assert_eq!(parsed.participants[1].wish, vec![1, 0]);
}

#[test]
fn to_editor_text_exact_layout() {
    let slots = vec![slot("A", 1, 5), slot("Lé", 0, 3)];
    let participants = vec![
        participant("", "s@x", vec![0, 1], ParticipantStatus::New),
        participant("id1", "long@ex", vec![1, 0], ParticipantStatus::Done),
    ];
    let text = to_editor_text(&slots, &participants);
    // Widths count bytes: "\"Lé\"" is 5 bytes.
    assert_eq!(
        text,
        "[slots]\n\"A\"   1 5  % slot #1\n\"Lé\" 0 3  % slot #2\n\n[participants]\n% slots: #1 #2\n\"s@x\"     0 1  % mail not sent\n\"long@ex\" 1 0  % completed wishes  % wish?id1\n"
    );
}

// ── format_results ─────────────────────────────────────────────

#[test]
fn format_results_zero_score() {
    let slots = vec![slot("A", 1, 2), slot("B", 1, 2)];
    let participants = vec![("alice@x".to_string(), vec![0, 1]), ("bob@y".to_string(), vec![1, 0])];
    let result = vec![0, 1];

    let text = format_results(&slots, &participants, &result);

    assert!(text.contains("[statistics]"));
    assert!(text.contains("\"total score\" 0"));
    assert!(text.contains("[results]"));
    assert!(text.contains("\"alice@x\""));
    assert!(text.contains("\"bob@y\""));
}

#[test]
fn format_results_nonzero_score() {
    let slots = vec![slot("X", 1, 2), slot("Y", 1, 2)];
    let participants = vec![("a@a".to_string(), vec![0, 2]), ("b@b".to_string(), vec![1, 0])];
    let result = vec![1, 0];

    let text = format_results(&slots, &participants, &result);
    assert!(text.contains("\"total score\" 5"));
}

#[test]
fn format_results_exact_layout() {
    let slots = vec![slot("X", 1, 2), slot("Y", 1, 1)];
    let participants = vec![("a@a".to_string(), vec![0, 1]), ("b@b".to_string(), vec![1, 0])];
    let result = vec![0, 0];
    let text = format_results(&slots, &participants, &result);
    let expected = format!(
        "[statistics]\n\"total score\" 1\n\n{:<30} {:>5} {:>5} {:>5}\n{:<30} {:>5} {:>5} {:>5}\n{:<30} {:>5} {:>5} {:>5}\n{:<30} {:>5}   ===   ===\n{:<30} {:>5} {:>5} {:>5}\n\n[results]\n{:<35} {:<30} {:>5} {:>5}\n{:<35} {:<30} {:>5} {:>5}\n{:<35} {:<30} {:>5} {:>5}\n",
        "% slot name", "# ptc", "w=0", "w=1",
        "\"X\"", 2, 1, 1,
        "\"Y\"", 0, 0, 0,
        "% ===", "===",
        "\"total\"", 2, 1, 1,
        "% mail", "slot name", "slot#", "wish",
        "\"a@a\"", "\"X\"", 1, 0,
        "\"b@b\"", "\"X\"", 1, 1,
    );
    assert_eq!(text, expected);
}

// ── parse_quoted_string (internal) ─────────────────────────────

#[test]
fn quoted_string_basic() {
    assert_eq!(parse_quoted_string("\"hello\" rest"), Some(("hello", "rest")));
}

#[test]
fn quoted_string_empty_content() {
    assert_eq!(parse_quoted_string("\"\" rest"), Some(("", "rest")));
}

#[test]
fn quoted_string_no_opening_quote() {
    assert_eq!(parse_quoted_string("noquote"), None);
}

#[test]
fn quoted_string_unclosed() {
    assert_eq!(parse_quoted_string("\"unclosed"), None);
}

#[test]
fn quoted_string_unicode_and_trimmed_rest() {
    assert_eq!(parse_quoted_string("\"é\"  x y \t"), Some(("é", "x y")));
}

// ── parse → compute → format_results integration ──────────────

#[test]
fn parse_then_format_results_round_trip() {
    let text = r#"[slots]
"Morning"   1 3
"Afternoon" 1 3

[participants]
"alice@x" 0 1
"bob@y"   1 0
"carol@z" 0 1
"#;
    let parsed = parse(text);
    assert!(parsed.errors.is_empty(), "errors: {:?}", parsed.errors);

    let slots_data: Vec<(u32, u32)> = parsed.slots.iter().map(|s| (s.vmin, s.vmax)).collect();
    let n = parsed.participants.len();
    let wishes: Vec<Vec<i32>> = parsed.participants.iter().map(|p| p.wish.clone()).collect();

    let cost = build_cost_matrix(&wishes, &slots_data, n);
    let assignment = hungarian(&cost);
    let slot_indices = assignment_to_slots(&assignment, &slots_data, n);

    for &si in &slot_indices {
        assert!(si < parsed.slots.len(), "invalid slot index {si}");
    }

    let participants_for_results: Vec<(String, Vec<i32>)> =
        parsed.participants.iter().map(|p| (p.mail.clone(), p.wish.clone())).collect();

    let result_text = format_results(&parsed.slots, &participants_for_results, &slot_indices);
    assert!(result_text.contains("[statistics]"));
    assert!(result_text.contains("[results]"));
    assert!(result_text.contains("\"alice@x\""));
    assert!(result_text.contains("\"bob@y\""));
    assert!(result_text.contains("\"carol@z\""));
    assert!(result_text.contains("\"Morning\"") || result_text.contains("\"Afternoon\""));
}

#[test]
fn parse_offline_default_text() {
    let text = r#"[slots]
"Monday morning"    0 10
"Monday afternoon"  0 10
"Tuesday morning"   0 10

[participants]
"alice@example.com"   0 1 2
"bob@example.com"     2 0 1
"charlie@example.com" 1 2 0
"#;
    let parsed = parse(text);
    assert!(parsed.errors.is_empty(), "errors: {:?}", parsed.errors);
    assert!(parsed.warnings.is_empty(), "warnings: {:?}", parsed.warnings);
    assert_eq!(parsed.slots.len(), 3);
    assert_eq!(parsed.participants.len(), 3);
    assert_eq!(parsed.slots[0].name, "Monday morning");
    assert_eq!(parsed.participants[0].mail, "alice@example.com");
    assert_eq!(parsed.participants[0].wish, vec![0, 1, 2]);
}

#[test]
fn format_results_all_participants_appear() {
    let slots = vec![slot("A", 1, 5), slot("B", 1, 5), slot("C", 1, 5)];
    let participants = vec![
        ("p1@x".to_string(), vec![0, 1, 2]),
        ("p2@x".to_string(), vec![2, 0, 1]),
        ("p3@x".to_string(), vec![1, 2, 0]),
    ];
    let result = vec![0, 1, 2];
    let text = format_results(&slots, &participants, &result);

    assert!(text.contains("\"p1@x\""));
    assert!(text.contains("\"p2@x\""));
    assert!(text.contains("\"p3@x\""));
    assert!(text.contains("\"A\""));
    assert!(text.contains("\"B\""));
    assert!(text.contains("\"C\""));
    assert!(text.contains("\"total score\" 0"));
}

#[test]
fn format_results_statistics_counts_correct() {
    let slots = vec![slot("X", 2, 2), slot("Y", 1, 1)];
    let participants = vec![
        ("a@a".to_string(), vec![0, 2]),
        ("b@b".to_string(), vec![1, 0]),
        ("c@c".to_string(), vec![2, 0]),
    ];
    let result = vec![0, 0, 1];
    let text = format_results(&slots, &participants, &result);
    assert!(text.contains("\"total score\" 1"));
}

#[test]
fn to_editor_text_alignment() {
    let slots = vec![slot("A", 1, 5), slot("Long Name", 0, 3)];
    let participants = vec![
        participant("", "short@x", vec![0, 1], ParticipantStatus::New),
        participant("id1", "very-long-email@example.com", vec![1, 0], ParticipantStatus::Done),
    ];
    let text = to_editor_text(&slots, &participants);
    let parsed = parse(&text);
    assert!(parsed.errors.is_empty(), "alignment broke parsing: {:?}\ntext:\n{text}", parsed.errors);
    assert_eq!(parsed.slots.len(), 2);
    assert_eq!(parsed.participants.len(), 2);
}

#[test]
fn parse_negative_wish_value() {
    let text = "[slots]\n\"A\" 0 5\n[participants]\n\"x@a\" -1\n";
    let r = parse(text);
    assert!(!r.errors.is_empty());
    assert!(r.errors[0].message.contains("non-negative"));
}

#[test]
fn parse_non_numeric_wish() {
    let text = "[slots]\n\"A\" 0 5\n[participants]\n\"x@a\" abc\n";
    let r = parse(text);
    assert!(!r.errors.is_empty());
    assert!(r.errors[0].message.contains("not a valid number"));
}

#[test]
fn parse_slot_non_numeric_bounds() {
    let text = "[slots]\n\"A\" abc 5\n[participants]\n";
    let r = parse(text);
    assert!(!r.errors.is_empty());
    assert!(r.errors[0].message.contains("not a valid number"));
}

#[test]
fn parse_many_participants_many_slots() {
    let mut text = String::from("[slots]\n");
    for i in 0..10 {
        text.push_str(&format!("\"Slot{}\" 1 10\n", i));
    }
    text.push_str("\n[participants]\n");
    for i in 0..10 {
        text.push_str(&format!("\"p{}@x\"", i));
        for j in 0..10 {
            text.push_str(&format!(" {}", (i + j) % 10));
        }
        text.push('\n');
    }
    let r = parse(&text);
    assert!(r.errors.is_empty(), "errors: {:?}", r.errors);
    assert_eq!(r.slots.len(), 10);
    assert_eq!(r.participants.len(), 10);
}

#[test]
fn parse_unclosed_section_bracket() {
    let text = "[slots\n\"A\" 1 2\n";
    let r = parse(text);
    assert!(!r.errors.is_empty());
    assert!(r.errors[0].message.contains("Unclosed"));
}

// ── messages, lines and numbers ────────────────────────────────

#[test]
fn parse_error_messages_and_lines() {
    let r = parse("[slots]\n\"A\" 0 5\n[participants]\n\"x@a\" 7 -2 q\n");
    let msgs: Vec<(usize, &str)> = r.errors.iter().map(|e| (e.line, e.message.as_str())).collect();
    assert_eq!(
        msgs,
        vec![
            (3, "'-2' is not a non-negative number"),
            (3, "'q' is not a valid number"),
        ]
    );
    assert_eq!(r.participants[0].wish, vec![7]);
    let r = parse("[slots]\n\"A\" 0 5\n\"B\" 0 5\n[participants]\n\"x@a\" 1\n");
    assert_eq!(r.errors[0].message, "Expected 2 wish values (one per slot), got 1");
    assert_eq!(r.errors[0].line, 4);
    let r = parse("[slots]\n\"A\" 3 5\n[participants]\n");
    assert_eq!(r.errors[0].line, 3);
    assert_eq!(r.errors[0].message, "Not enough participants for the minimal bounds");
}

#[test]
fn parse_numbers_as_rust_reads_them() {
    let r = parse("[slots]\n\"A\" +1 0004294967295\n\"B\" 1 4294967296\n");
    assert_eq!(r.slots.len(), 1);
    assert_eq!(r.slots[0].vmin, 1);
    assert_eq!(r.slots[0].vmax, 4294967295);
    assert_eq!(r.errors[0].message, "'4294967296' is not a valid number");
    let r = parse("[slots]\n\"A\" 0 5\n[participants]\n\"x@a\" -0\n");
    assert!(r.errors.is_empty());
    assert_eq!(r.participants[0].wish, vec![0]);
    let r = parse("[slots]\n\"A\" 0 5\n[participants]\n\"x@a\" +\n");
    assert_eq!(r.errors[0].message, "'+' is not a valid number");
}

#[test]
fn parse_stops_at_a_bad_section_and_keeps_what_it_read() {
    let r = parse("[slots]\n\"A\" 0 5\n[participants]\n\"x@a\" 0\n[more]\n\"y@b\" 0\n");
    assert_eq!(r.errors.len(), 1);
    assert_eq!(r.errors[0].message, "Unexpected section");
    assert_eq!(r.errors[0].line, 4);
    assert_eq!(r.participants.len(), 1);
}

#[test]
fn parse_line_errors_in_slots_section() {
    let r = parse("[slots]\nA 0 5\n\"B\" 1\n\"C 1 2\n[participants]\n");
    let msgs: Vec<&str> = r.errors.iter().map(|e| e.message.as_str()).collect();
    assert_eq!(msgs, vec!["Expected a quoted string", "Expected: \"name\" min max", "Invalid quoted string"]);
}

// ── compute_and_format ─────────────────────────────────────────

#[test]
fn compute_and_format_reports_the_assignment() {
    let text = "[slots]\n\"A\" 1 1\n\"B\" 1 1\n[participants]\n\"a@x\" 0 1\n\"b@x\" 1 0\n";
    let out = compute_and_format(text).unwrap();
    assert!(out.contains("\"total score\" 0"));
    assert!(out.contains("\"a@x\""));
    assert!(out.starts_with("[statistics]\n"));
}

#[test]
fn compute_and_format_returns_parse_errors() {
    let errs = compute_and_format("[slots]\n\"A\" 5 2\n").unwrap_err();
    assert_eq!(errs.len(), 1);
    assert_eq!(errs[0].message, "max must be >= min");
}
