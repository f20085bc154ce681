use md_server::listing::DirEntry;
use md_server::render::{render, RenderMode};
use md_server::rss::{build_feed, esc};

fn contains(haystack: &[u8], needle: &[u8]) -> bool {
    haystack.windows(needle.len()).any(|w| w == needle)
}

#[test]
fn untrusted_mode_neutralizes_raw_html() {
    let out = render(b"before\n\n<script>alert(1)</script>\n\nafter", RenderMode::Untrusted);
    assert!(!contains(&out, b"<script>"));
}

#[test]
fn trusted_mode_passes_raw_html_through() {
    let input = b"before\n\n<div class=\"x\">inner</div>\n\nafter";
    let trusted = render(input, RenderMode::Trusted);
    assert!(contains(&trusted, b"<div class=\"x\">"));
    let untrusted = render(input, RenderMode::Untrusted);
    assert!(!contains(&untrusted, b"<div class=\"x\">"));
}

#[test]
fn script_tags_filtered_even_when_trusted() {
    // the GFM dialect's tag filter escapes a handful of dangerous tags,
    // script among them, whatever the mode
    let out = render(b"before\n\n<script>alert(1)</script>\n\nafter", RenderMode::Trusted);
    assert!(!contains(&out, b"<script>"));
    assert!(contains(&out, b"&lt;script>"));
}

#[test]
fn heading_renders_to_html() {
    let out = render(b"# Hi", RenderMode::Trusted);
    assert_eq!(out, b"<h1>Hi</h1>".to_vec());
}

#[test]
fn gfm_strikethrough_enabled() {
    let out = render(b"~hi~ there", RenderMode::Untrusted);
    assert!(contains(&out, b"<del>hi</del>"));
}

#[test]
fn xml_escaping() {
    assert_eq!(
        esc(b"a & b < c > d \" e ' f"),
        b"a &amp; b &lt; c &gt; d &quot; e &apos; f".to_vec()
    );
    assert_eq!(esc(b"plain"), b"plain".to_vec());
}

#[test]
fn feed_with_one_item_is_exact() {
    let items = vec![DirEntry {
        display_name: b"a".to_vec(),
        url: b"/a".to_vec(),
        is_dir: false,
        title: Some(b"Hello & Co".to_vec()),
        date: Some(b"2024-01-01".to_vec()),
        summary: Some(b"S".to_vec()),
        author: Some(b"Au".to_vec()),
        content: None,
    }];
    let feed = build_feed(b"T", b"L", b"D", &items, b"https://example.com");
    let expected: Vec<u8> = [
        b"<?xml version=\"1.0\" encoding=\"UTF-8\"?>\n".as_slice(),
        b"<rss version=\"2.0\" xmlns:dc=\"http://purl.org/dc/elements/1.1/\">\n",
        b"<channel>\n",
        b"  <title>T</title>\n",
        b"  <link>L</link>\n",
        b"  <description>D</description>\n",
        b"  <item>\n",
        b"    <title>Hello &amp; Co</title>\n",
        b"    <link>https://example.com/a</link>\n",
        b"    <guid isPermaLink=\"true\">https://example.com/a</guid>\n",
        b"    <description>S</description>\n",
        b"    <pubDate>Mon, 01 Jan 2024 00:00:00 +0000</pubDate>\n",
        b"    <dc:creator>Au</dc:creator>\n",
        b"  </item>\n",
        b"</channel>\n</rss>",
    ]
    .concat();
    assert_eq!(String::from_utf8_lossy(&feed), String::from_utf8_lossy(&expected));
}

#[test]
fn relative_base_is_no_permalink() {
    let items = vec![DirEntry {
        display_name: b"a".to_vec(),
        url: b"/a".to_vec(),
        is_dir: false,
        title: None,
        date: None,
        summary: None,
        author: None,
        content: None,
    }];
    let feed = build_feed(b"T", b"L", b"D", &items, b"");
    assert!(contains(&feed, b"<guid isPermaLink=\"false\">/a</guid>"));
    assert!(contains(&feed, b"    <title>a</title>\n"));
    assert!(!contains(&feed, b"<pubDate>"));
}

#[test]
fn item_content_rendered_into_cdata() {
    let items = vec![DirEntry {
        display_name: b"a".to_vec(),
        url: b"/a".to_vec(),
        is_dir: false,
        title: None,
        date: None,
        summary: Some(b"ignored when content is present".to_vec()),
        author: None,
        content: Some(b"# Hi".to_vec()),
    }];
    let feed = build_feed(b"T", b"L", b"D", &items, b"");
    assert!(contains(&feed, b"<description><![CDATA[<h1>Hi</h1>]]></description>"));
    assert!(!contains(&feed, b"ignored when content"));
}

#[test]
fn unparsable_date_passes_through() {
    let items = vec![DirEntry {
        display_name: b"a".to_vec(),
        url: b"/a".to_vec(),
        is_dir: false,
        title: None,
        date: Some(b"sometime in june".to_vec()),
        summary: None,
        author: None,
        content: None,
    }];
    let feed = build_feed(b"T", b"L", b"D", &items, b"");
    assert!(contains(&feed, b"<pubDate>sometime in june</pubDate>"));
}
