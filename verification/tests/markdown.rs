use wish::markdown::render;

#[test]
fn renders_heading_and_paragraph() {
    let out = render("## Title\n\nHello world.");
    assert_eq!(out, "<h3>Title</h3><p>Hello world.</p>");
}

#[test]
fn renders_list() {
    let out = render("- a\n- b\n- c");
    assert_eq!(out, "<ul><li>a</li><li>b</li><li>c</li></ul>");
}

#[test]
fn renders_bold_italic_and_link() {
    let out = render("This is **bold** and *em* and [link](https://x).");
    assert_eq!(
        out,
        "<p>This is <strong>bold</strong> and <em>em</em> and <a href=\"https://x\">link</a>.</p>"
    );
}

#[test]
fn escapes_html_in_prose() {
    let out = render("<script>alert(1)</script>");
    assert_eq!(out, "<p>&lt;script&gt;alert(1)&lt;/script&gt;</p>");
}

#[test]
fn escapes_url_quotes() {
    let out = render(r#"[x](http://a"b)"#);
    assert!(out.contains("href=\"http://a&quot;b\""));
}

#[test]
fn multiline_paragraph_joins_with_space() {
    let out = render("line one\nline two\nline three");
    assert_eq!(out, "<p>line one line two line three</p>");
}

#[test]
fn blank_line_starts_new_paragraph_and_closes_list() {
    let out = render("- a\n- b\n\npara");
    assert_eq!(out, "<ul><li>a</li><li>b</li></ul><p>para</p>");
}

#[test]
fn unicode_content_preserved() {
    let out = render("héllo *wörld*");
    assert_eq!(out, "<p>héllo <em>wörld</em></p>");
}

#[test]
fn heading_levels_shift_by_one_and_need_a_space() {
    assert_eq!(render("# One"), "<h2>One</h2>");
    assert_eq!(render("#### Four"), "<h5>Four</h5>");
    assert_eq!(render("##### Five"), "<p>##### Five</p>");
    assert_eq!(render("##NoSpace"), "<p>##NoSpace</p>");
}

#[test]
fn unclosed_markers_are_plain_text() {
    assert_eq!(render("a ** b"), "<p>a ** b</p>");
    assert_eq!(render("[x](y"), "<p>[x](y</p>");
    assert_eq!(render("**"), "<p>**</p>");
}

#[test]
fn heading_closes_list_and_star_items() {
    assert_eq!(render("* a\n## T"), "<ul><li>a</li></ul><h3>T</h3>");
}

#[test]
fn empty_input_renders_nothing() {
    assert_eq!(render(""), "");
}

#[test]
fn next_char_boundary_steps_over_whole_characters() {
    let s = "aé€b";
    assert_eq!(wish::markdown::next_char_boundary(s, 0), 1);
    assert_eq!(wish::markdown::next_char_boundary(s, 1), 3);
    assert_eq!(wish::markdown::next_char_boundary(s, 3), 6);
    assert_eq!(wish::markdown::next_char_boundary(s, 6), 7);
    assert_eq!(wish::markdown::next_char_boundary(s, 7), 8);
}

#[test]
fn rendered_help_has_no_stray_markup() {
    let html = render("a > b & c <x>\n\n[l](http://x?a=\"1\"&b=<2>)");
    assert_eq!(
        html,
        "<p>a &gt; b &amp; c &lt;x&gt;</p><p><a href=\"http://x?a=&quot;1&quot;&amp;b=&lt;2&gt;\">l</a></p>"
    );
    let tags = ["<p>", "</p>", "<a href=\"", "\">", "</a>"];
    for (i, c) in html.char_indices() {
        let ok = match c {
            '<' => tags.iter().any(|t| html[i..].starts_with(t)),
            '>' => tags.iter().any(|t| t.ends_with('>') && html[..=i].ends_with(t)),
            '&' => ["&amp;", "&lt;", "&gt;", "&quot;"].iter().any(|e| html[i..].starts_with(e)),
            _ => true,
        };
        assert!(ok, "stray markup at {}", i);
    }
}
