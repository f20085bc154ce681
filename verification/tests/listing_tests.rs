use md_server::listing::{build_listing, is_hidden, make_entries, md_stem, sort_entries, DirEntry, RawChild};

fn file_child(name: &[u8], doc: Option<&[u8]>, fs_date: Option<&[u8]>) -> RawChild {
    RawChild {
        name: name.to_vec(),
        is_dir: false,
        doc: doc.map(|d| d.to_vec()),
        fs_date: fs_date.map(|d| d.to_vec()),
    }
}

fn entry(name: &[u8], date: Option<&[u8]>) -> DirEntry {
    DirEntry {
        display_name: name.to_vec(),
        url: name.to_vec(),
        is_dir: false,
        title: None,
        date: date.map(|d| d.to_vec()),
        summary: None,
        author: None,
        content: None,
    }
}

#[test]
fn md_stem_cases() {
    assert_eq!(md_stem(b"post.md"), Some(b"post".to_vec()));
    assert_eq!(md_stem(b"style.css"), None);
    assert_eq!(md_stem(b"nodot"), None);
    assert_eq!(md_stem(b".md"), Some(b"".to_vec()));
}

#[test]
fn hidden_names() {
    assert!(is_hidden(b".git"));
    assert!(!is_hidden(b"notes"));
    assert!(!is_hidden(b""));
}

#[test]
fn sort_dated_newest_first_undated_last() {
    let entries = vec![
        entry(b"b", Some(b"2024-01-01")),
        entry(b"c", Some(b"2024-03-01")),
        entry(b"alpha", None),
    ];
    let sorted = sort_entries(entries);
    assert_eq!(sorted.len(), 3);
    assert_eq!(sorted[0].date, Some(b"2024-03-01".to_vec()));
    assert_eq!(sorted[1].date, Some(b"2024-01-01".to_vec()));
    assert_eq!(sorted[2].display_name, b"alpha".to_vec());
    assert_eq!(sorted[2].date, None);
}

#[test]
fn sort_undated_alphabetical() {
    let entries = vec![entry(b"zeta", None), entry(b"alpha", None), entry(b"mid", None)];
    let sorted = sort_entries(entries);
    assert_eq!(sorted[0].display_name, b"alpha".to_vec());
    assert_eq!(sorted[1].display_name, b"mid".to_vec());
    assert_eq!(sorted[2].display_name, b"zeta".to_vec());
}

#[test]
fn listing_skips_hidden_non_markdown_and_index() {
    let children = vec![
        file_child(b".hidden.md", Some(b"x"), None),
        file_child(b"style.css", None, None),
        file_child(b"index.md", Some(b"# Index"), None),
        file_child(b"post.md", Some(b"# Post"), None),
    ];
    let entries = make_entries(b"/", &children);
    assert_eq!(entries.len(), 1);
    assert_eq!(entries[0].display_name, b"post".to_vec());
}

#[test]
fn file_entry_metadata_and_url() {
    let children = vec![file_child(
        b"post.md",
        Some(b"---\ntitle: T\nauthor: A\n---\nFirst para.\n\nMore."),
        Some(b"2024-06-01"),
    )];
    let entries = make_entries(b"/blog/", &children);
    assert_eq!(entries.len(), 1);
    let e = &entries[0];
    assert_eq!(e.display_name, b"post".to_vec());
    assert_eq!(e.url, b"/blog/post".to_vec());
    assert!(!e.is_dir);
    assert_eq!(e.title, Some(b"T".to_vec()));
    assert_eq!(e.author, Some(b"A".to_vec()));
    assert_eq!(e.summary, Some(b"First para.".to_vec()));
    // no date in front matter: the filesystem date fills in
    assert_eq!(e.date, Some(b"2024-06-01".to_vec()));
}

#[test]
fn dir_entry_metadata_from_index_document() {
    let children = vec![RawChild {
        name: b"sub".to_vec(),
        is_dir: true,
        doc: Some(b"---\ntitle: Sub\n---\nAbout sub.".to_vec()),
        fs_date: Some(b"2024-04-04".to_vec()),
    }];
    let entries = make_entries(b"/", &children);
    assert_eq!(entries.len(), 1);
    let e = &entries[0];
    assert_eq!(e.display_name, b"sub".to_vec());
    assert_eq!(e.url, b"/sub/".to_vec());
    assert!(e.is_dir);
    assert_eq!(e.title, Some(b"Sub".to_vec()));
    assert_eq!(e.summary, Some(b"About sub.".to_vec()));
    assert_eq!(e.date, Some(b"2024-04-04".to_vec()));
}

#[test]
fn dir_without_index_has_no_metadata() {
    let children = vec![RawChild { name: b"sub".to_vec(), is_dir: true, doc: None, fs_date: None }];
    let entries = make_entries(b"", &children);
    let e = &entries[0];
    assert_eq!(e.url, b"/sub/".to_vec());
    assert_eq!(e.title, None);
    assert_eq!(e.summary, None);
    assert_eq!(e.author, None);
    assert_eq!(e.date, None);
}

#[test]
fn build_listing_orders_by_date() {
    let children = vec![
        file_child(b"old.md", Some(b"---\ndate: \"2024-01-01\"\n---\nx"), None),
        file_child(b"alpha.md", Some(b"x"), None),
        file_child(b"new.md", Some(b"---\ndate: \"2024-03-01\"\n---\nx"), None),
    ];
    let entries = build_listing(b"/", &children);
    assert_eq!(entries.len(), 3);
    assert_eq!(entries[0].display_name, b"new".to_vec());
    assert_eq!(entries[1].display_name, b"old".to_vec());
    assert_eq!(entries[2].display_name, b"alpha".to_vec());
}

#[test]
fn empty_document_parses_to_nothing() {
    let doc = md_server::front_matter::parse(b"");
    assert_eq!(doc.front_matter.title, None);
    assert_eq!(doc.content, b"".to_vec());
}

#[test]
fn empty_listing_stays_empty() {
    let entries = build_listing(b"/", &vec![]);
    assert!(entries.is_empty());
}

#[test]
fn equal_dates_keep_both_entries() {
    let entries = vec![
        entry(b"one", Some(b"2024-02-02")),
        entry(b"two", Some(b"2024-02-02")),
    ];
    let sorted = sort_entries(entries);
    assert_eq!(sorted.len(), 2);
    let mut names: Vec<Vec<u8>> = sorted.iter().map(|e| e.display_name.clone()).collect();
    names.sort();
    assert_eq!(names, vec![b"one".to_vec(), b"two".to_vec()]);
}
