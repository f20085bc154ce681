use md_server::front_matter::{fill_inferred, find_close_delimiter, infer_summary, infer_title, parse};

#[test]
fn title_x_round_trip() {
    let doc = parse(b"---\ntitle: X\n---\nhello\n");
    assert_eq!(doc.front_matter.title, Some(b"X".to_vec()));
    assert_eq!(doc.front_matter.summary, None);
    assert_eq!(doc.front_matter.author, None);
    assert_eq!(doc.front_matter.date, None);
    assert_eq!(doc.content, b"hello\n".to_vec());
}

#[test]
fn no_leading_delimiter_is_all_body() {
    let raw = b"title: X\nhello body\n";
    let doc = parse(raw);
    assert_eq!(doc.front_matter.title, None);
    assert_eq!(doc.front_matter.summary, None);
    assert_eq!(doc.front_matter.author, None);
    assert_eq!(doc.front_matter.date, None);
    assert_eq!(doc.content, raw.to_vec());
}

#[test]
fn all_fields_parsed() {
    let doc = parse(b"---\ntitle: T\nsummary: S\nauthor: A\ndate: \"2024-05-01\"\n---\nbody");
    assert_eq!(doc.front_matter.title, Some(b"T".to_vec()));
    assert_eq!(doc.front_matter.summary, Some(b"S".to_vec()));
    assert_eq!(doc.front_matter.author, Some(b"A".to_vec()));
    assert_eq!(doc.front_matter.date, Some(b"2024-05-01".to_vec()));
    assert_eq!(doc.content, b"body".to_vec());
}

#[test]
fn bom_is_stripped_before_parsing() {
    let doc = parse(b"\xEF\xBB\xBF---\ntitle: X\n---\nbody\n");
    assert_eq!(doc.front_matter.title, Some(b"X".to_vec()));
    assert_eq!(doc.content, b"body\n".to_vec());
}

#[test]
fn malformed_yaml_degrades_to_empty() {
    let doc = parse(b"---\n: : : [unbalanced\n---\nbody\n");
    assert_eq!(doc.front_matter.title, None);
    assert_eq!(doc.front_matter.summary, None);
    assert_eq!(doc.front_matter.author, None);
    assert_eq!(doc.front_matter.date, None);
    assert_eq!(doc.content, b"body\n".to_vec());
}

#[test]
fn dash_prefixed_line_is_not_a_close() {
    // `---extra` must not close the block; the real close comes later.
    let doc = parse(b"---\ntitle: X\n---extra: y\n---\nbody\n");
    assert_eq!(doc.content, b"body\n".to_vec());
}

#[test]
fn missing_close_means_all_body() {
    let raw = b"---\ntitle: X\nno close here\n";
    let doc = parse(raw);
    assert_eq!(doc.front_matter.title, None);
    assert_eq!(doc.content, raw.to_vec());
}

#[test]
fn crlf_delimiters_accepted() {
    let doc = parse(b"---\r\ntitle: X\r\n---\r\nbody\r\n");
    assert_eq!(doc.front_matter.title, Some(b"X".to_vec()));
    assert_eq!(doc.content, b"body\r\n".to_vec());
}

#[test]
fn close_at_end_of_input() {
    let doc = parse(b"---\ntitle: X\n---");
    assert_eq!(doc.front_matter.title, Some(b"X".to_vec()));
    assert_eq!(doc.content, b"".to_vec());
}

#[test]
fn find_close_positions() {
    // "title: X\n---\nbody": the `\n---` starts at index 8, body at 13.
    assert_eq!(find_close_delimiter(b"title: X\n---\nbody"), Some((8, 13)));
    assert_eq!(find_close_delimiter(b"title: X\n---"), Some((8, 12)));
    assert_eq!(find_close_delimiter(b"title: X\n---\r\nbody"), Some((8, 14)));
    assert_eq!(find_close_delimiter(b"title: X\n---nope"), None);
}

#[test]
fn title_from_first_heading() {
    assert_eq!(infer_title(b"intro\n# My Title \nrest"), Some(b"My Title".to_vec()));
    assert_eq!(infer_title(b"no heading here"), None);
    // a heading with empty text does not count
    assert_eq!(infer_title(b"# \n## second"), None);
}

#[test]
fn summary_first_paragraph_only() {
    assert_eq!(
        infer_summary(b"# Title\n\nFirst paragraph text.\n\nSecond paragraph."),
        Some(b"First paragraph text.".to_vec())
    );
}

#[test]
fn summary_skips_setext_heading() {
    assert_eq!(infer_summary(b"Title\n=====\n\nBody text."), Some(b"Body text.".to_vec()));
    assert_eq!(infer_summary(b"Title\n-----\n\nBody text."), Some(b"Body text.".to_vec()));
}

#[test]
fn summary_joins_paragraph_lines() {
    assert_eq!(infer_summary(b"line one\nline two\n\nnext para"), Some(b"line one line two".to_vec()));
}

#[test]
fn summary_ignores_fenced_code() {
    assert_eq!(
        infer_summary(b"```\ncode here\n```\n\nReal text."),
        Some(b"Real text.".to_vec())
    );
}

#[test]
fn summary_absent_when_only_headings() {
    assert_eq!(infer_summary(b"# One\n\n## Two\n"), None);
    assert_eq!(infer_summary(b""), None);
}

#[test]
fn fill_inferred_respects_present_fields() {
    let mut fm = parse(b"---\ntitle: Kept\n---\n# Other\n\nPara.").front_matter;
    fill_inferred(&mut fm, b"# Other\n\nPara.", Some(b"2024-02-02".to_vec()));
    assert_eq!(fm.title, Some(b"Kept".to_vec()));
    assert_eq!(fm.summary, Some(b"Para.".to_vec()));
    assert_eq!(fm.date, Some(b"2024-02-02".to_vec()));
}

#[test]
fn fill_inferred_fills_missing_fields() {
    let mut fm = parse(b"plain body").front_matter;
    fill_inferred(&mut fm, b"# Head\n\nText.", None);
    assert_eq!(fm.title, Some(b"Head".to_vec()));
    assert_eq!(fm.summary, Some(b"Text.".to_vec()));
    assert_eq!(fm.date, None);
    assert_eq!(fm.author, None);
}
