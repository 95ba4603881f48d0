use playrite::export::{escape, inline_runs, is_html_path, paragraphs, render};
use playrite::story::Story;

#[test]
fn inline_formatting_is_safe_and_handles_unicode() {
    assert_eq!(
        playrite::export::inline("**Bold** and *café* ~~gone~~ `x<y`"),
        "<strong>Bold</strong> and <em>café</em> <s>gone</s> <code>x&lt;y</code>"
    );
    assert_eq!(
        playrite::export::inline("\\*literal\\* <script>alert('x')</script>"),
        "*literal* &lt;script&gt;alert(&#39;x&#39;)&lt;/script&gt;"
    );
    assert_eq!(
        playrite::export::inline("**bold with *emphasis* inside**"),
        "<strong>bold with </strong><strong><em>emphasis</em></strong><strong> inside</strong>"
    );
    assert_eq!(playrite::export::inline("unfinished *italic"), "unfinished *italic");
}

#[test]
fn complete_export_has_no_private_notes_or_external_assets() {
    let mut story = Story::demo();
    story.title = "<script>bad()</script>".into();
    let html = render(&story);
    assert!(html.starts_with("<!doctype html>"));
    assert!(html.contains("&lt;script&gt;bad()&lt;/script&gt;"));
    assert!(html.contains("href=\"#scene-8\""));
    assert!(html.contains("<strong>amber light</strong>"));
    assert!(!html.contains("What is inside the letter?"));
    assert!(!html.contains("<script"));
    assert!(!html.contains("https://"));
}

#[test]
fn escape_covers_markup_characters() {
    assert_eq!(escape("a&b<c>d\"e'f"), "a&amp;b&lt;c&gt;d&quot;e&#39;f");
}

#[test]
fn runs_nest_and_respect_escaped_closers() {
    let runs = inline_runs("*a\\*b*");
    assert_eq!(runs.len(), 1);
    assert_eq!(runs[0].text, "a*b");
    assert!(runs[0].format.italic);
    let runs = inline_runs("`**x**`");
    assert_eq!(runs.len(), 1);
    assert_eq!(runs[0].text, "**x**");
    assert!(runs[0].format.code && !runs[0].format.bold);
    assert_eq!(playrite::export::inline("a\nb"), "a<br>\nb");
}

#[test]
fn paragraphs_split_at_blank_lines() {
    assert_eq!(paragraphs("one\n\n \n\ntwo"), "<p>one</p>\n<p>two</p>\n");
    assert_eq!(paragraphs("a\n\n\nb"), "<p>a</p>\n<p><br>\nb</p>\n");
    assert_eq!(paragraphs(""), "");
}

#[test]
fn reading_time_and_cover() {
    let html = render(&Story::default());
    assert!(html.contains("<h1>Untitled story</h1>"));
    assert!(html.contains("0 words <span aria-hidden=\"true\">·</span> 1 min read"));
    assert!(!html.contains("class=\"subtitle\""));
    assert!(!html.contains("<nav"));
}

#[test]
fn export_paths_must_be_html() {
    assert!(is_html_path("dir/story.html"));
    assert!(is_html_path("story.HTM"));
    assert!(is_html_path("story.html/"));
    assert!(!is_html_path("story.json"));
    assert!(!is_html_path(".html"));
    assert!(!is_html_path("dir/.."));
    assert!(playrite::export::write(&Story::demo(), "out.txt").unwrap_err().contains(".html"));
    assert_eq!(playrite::export::write(&Story::demo(), "out.html").unwrap(), render(&Story::demo()));
    let mut bad = Story::demo();
    bad.blocks.clear();
    assert!(playrite::export::write(&bad, "out.html").is_err());
}

#[test]
fn plain_text_escapes_to_itself() {
    assert_eq!(escape("Plain words, no markup: café!"), "Plain words, no markup: café!");
    assert_eq!(escape(""), "");
}

#[test]
fn escaped_text_reads_back_as_the_original() {
    let original = "a & b < c > d \"e\" 'f' &amp;";
    let escaped = escape(original);
    assert_eq!(escaped, "a &amp; b &lt; c &gt; d &quot;e&quot; &#39;f&#39; &amp;amp;");
    let back = escaped
        .replace("&#39;", "'")
        .replace("&quot;", "\"")
        .replace("&gt;", ">")
        .replace("&lt;", "<")
        .replace("&amp;", "&");
    assert_eq!(back, original);
}

#[test]
fn runs_are_never_empty_and_keep_the_text_in_order() {
    for text in ["**a** *b* ~~c~~ `d`", "\\*x\\* **unclosed", "*a **b** c*", "``", "****", "tail\\"] {
        let runs = inline_runs(text);
        assert!(runs.iter().all(|r| !r.text.is_empty()), "{text}");
        let joined: String = runs.iter().map(|r| r.text.as_str()).collect();
        let mut rest = text.chars();
        for c in joined.chars() {
            assert!(rest.any(|d| d == c), "{text}");
        }
    }
}

#[test]
fn scene_break_text_and_narration_speakers_do_not_change_the_export() {
    let mut story = Story::demo();
    let before = render(&story);
    for b in story.blocks.iter_mut() {
        match b.kind {
            playrite::story::Kind::Divider => b.text = "hidden words".into(),
            playrite::story::Kind::Narration | playrite::story::Kind::Scene => b.character = Some(1),
            _ => {}
        }
    }
    assert_eq!(render(&story), before);
}
