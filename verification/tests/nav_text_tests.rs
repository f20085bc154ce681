use md_server::nav::{build_breadcrumbs, split_segments};
use md_server::routes::urlencoded;
use md_server::session::extract_session_cookie;
use md_server::stats::{fmt_int, fmt_num, js_numbers, js_numbers_raw, js_string, js_strings, AnalyticsRow};
use md_server::text::constant_time_eq;
use md_server::tree::{assemble_level, FileNode, RawNode};

#[test]
fn breadcrumbs_at_root() {
    let crumbs = build_breadcrumbs(b"/");
    assert_eq!(crumbs.len(), 1);
    assert_eq!(crumbs[0].label, b"Home".to_vec());
    assert_eq!(crumbs[0].url, None);
}

#[test]
fn breadcrumbs_for_nested_document() {
    let crumbs = build_breadcrumbs(b"/blog/2024/post.md");
    assert_eq!(crumbs.len(), 4);
    assert_eq!(crumbs[0].label, b"Home".to_vec());
    assert_eq!(crumbs[0].url, Some(b"/".to_vec()));
    assert_eq!(crumbs[1].label, b"blog".to_vec());
    assert_eq!(crumbs[1].url, Some(b"/blog/".to_vec()));
    assert_eq!(crumbs[2].label, b"2024".to_vec());
    assert_eq!(crumbs[2].url, Some(b"/blog/2024/".to_vec()));
    // the current page: `.md` hidden, no link
    assert_eq!(crumbs[3].label, b"post".to_vec());
    assert_eq!(crumbs[3].url, None);
}

#[test]
fn breadcrumbs_ignore_trailing_slash_and_empty_segments() {
    let crumbs = build_breadcrumbs(b"/a//b/");
    assert_eq!(crumbs.len(), 3);
    assert_eq!(crumbs[1].label, b"a".to_vec());
    assert_eq!(crumbs[2].label, b"b".to_vec());
    assert_eq!(crumbs[2].url, None);
}

#[test]
fn segment_splitting() {
    let segs = split_segments(b"a//b/c");
    let got: Vec<&[u8]> = segs.iter().map(|v| v.as_slice()).collect();
    assert_eq!(got, vec![b"a".as_slice(), b"b".as_slice(), b"c".as_slice()]);
    assert!(split_segments(b"///").is_empty());
}

#[test]
fn tree_level_sorted_directories_first() {
    let raw = vec![
        RawNode { name: b"zebra.md".to_vec(), is_dir: false, children: vec![] },
        RawNode { name: b".git".to_vec(), is_dir: true, children: vec![] },
        RawNode { name: b"apps".to_vec(), is_dir: true, children: vec![] },
        RawNode { name: b"alpha.md".to_vec(), is_dir: false, children: vec![] },
        RawNode { name: b"docs".to_vec(), is_dir: true, children: vec![] },
    ];
    let level = assemble_level(b"", raw);
    let mut names: Vec<Vec<u8>> = Vec::new();
    let mut kinds: Vec<bool> = Vec::new();
    for n in &level {
        match n {
            FileNode::Dir { name, .. } => {
                names.push(name.clone());
                kinds.push(true);
            }
            FileNode::File { name, .. } => {
                names.push(name.clone());
                kinds.push(false);
            }
        }
    }
    assert_eq!(kinds, vec![true, true, false, false]);
    assert_eq!(
        names,
        vec![b"apps".to_vec(), b"docs".to_vec(), b"alpha.md".to_vec(), b"zebra.md".to_vec()]
    );
}

#[test]
fn tree_relative_paths() {
    let raw = vec![RawNode { name: b"post.md".to_vec(), is_dir: false, children: vec![] }];
    let level = assemble_level(b"blog", raw);
    match &level[0] {
        FileNode::File { rel, .. } => assert_eq!(rel, &b"blog/post.md".to_vec()),
        _ => panic!("expected a file"),
    }
}

#[test]
fn constant_time_comparison_agrees_with_equality() {
    assert!(constant_time_eq(b"secret", b"secret"));
    assert!(!constant_time_eq(b"secret", b"secres"));
    assert!(!constant_time_eq(b"secret", b"secret0"));
    assert!(!constant_time_eq(b"", b"x"));
    assert!(constant_time_eq(b"", b""));
}

#[test]
fn numbers_formatted_with_thousands_groups() {
    assert_eq!(fmt_num(0), b"0".to_vec());
    assert_eq!(fmt_num(999), b"999".to_vec());
    assert_eq!(fmt_num(1000), b"1,000".to_vec());
    assert_eq!(fmt_num(1234567), b"1,234,567".to_vec());
    assert_eq!(fmt_int(-42), b"-42".to_vec());
}

#[test]
fn js_string_escapes_script_breakers() {
    assert_eq!(js_string(b"plain"), b"\"plain\"".to_vec());
    assert_eq!(js_string(b"<script>"), b"\"\\u003cscript\\u003e\"".to_vec());
    assert_eq!(js_string(b"a\"b\\c\nd"), b"\"a\\\"b\\\\c\\nd\"".to_vec());
    assert_eq!(js_string(b"\x01"), b"\"\\u0001\"".to_vec());
    // the UTF-8 line separator, which would end a script line
    assert_eq!(js_string(b"a\xE2\x80\xA8b"), b"\"a\\u2028b\"".to_vec());
}

#[test]
fn js_arrays_of_labels_and_counts() {
    let rows = vec![
        AnalyticsRow { label: b"/".to_vec(), count: 5 },
        AnalyticsRow { label: b"/a".to_vec(), count: 3 },
    ];
    assert_eq!(js_strings(&rows), b"[\"/\",\"/a\"]".to_vec());
    assert_eq!(js_numbers(&rows), b"[5,3]".to_vec());
    assert_eq!(js_numbers_raw(&vec![1, 2, 3]), b"[1,2,3]".to_vec());
    assert_eq!(js_numbers_raw(&vec![]), b"[]".to_vec());
}

#[test]
fn session_cookie_extraction() {
    assert_eq!(
        extract_session_cookie(b"other=1; ed_session=abc123; x=y"),
        Some(b"abc123".to_vec())
    );
    assert_eq!(extract_session_cookie(b"ed_session=tok"), Some(b"tok".to_vec()));
    assert_eq!(extract_session_cookie(b"other=1; x=y"), None);
    assert_eq!(extract_session_cookie(b""), None);
    // the first matching part wins
    assert_eq!(
        extract_session_cookie(b"ed_session=first; ed_session=second"),
        Some(b"first".to_vec())
    );
}

#[test]
fn url_encoding_for_query_strings() {
    assert_eq!(urlencoded(b"abc123"), b"abc123".to_vec());
    assert_eq!(urlencoded(b"a/b c.md"), b"a%2Fb%20c%2Emd".to_vec());
    assert_eq!(urlencoded(b""), b"".to_vec());
}
