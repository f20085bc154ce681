use md_server::routes::{
    ensure_md_extension, route_after_md_probe, route_after_stat, route_request, static_ext, Route,
    RouteStep,
};

const ROOT: &[u8] = b"/srv/www";

#[test]
fn traversal_is_rejected_up_front() {
    match route_request(ROOT, b"/a/../b") {
        RouteStep::Done(Route::Rejected) => {}
        _ => panic!("traversal must be rejected"),
    }
}

#[test]
fn root_request_is_a_directory() {
    match route_request(ROOT, b"/") {
        RouteStep::Done(Route::Directory { fs_path, url_path }) => {
            assert_eq!(fs_path, b"/srv/www".to_vec());
            assert_eq!(url_path, b"/".to_vec());
        }
        _ => panic!("expected a directory route"),
    }
}

#[test]
fn trailing_slash_is_a_directory() {
    match route_request(ROOT, b"/docs/") {
        RouteStep::Done(Route::Directory { fs_path, url_path }) => {
            assert_eq!(fs_path, b"/srv/www/docs/".to_vec());
            assert_eq!(url_path, b"/docs/".to_vec());
        }
        _ => panic!("expected a directory route"),
    }
}

#[test]
fn index_html_aliases_its_directory() {
    match route_request(ROOT, b"/docs/index.html") {
        RouteStep::Done(Route::Directory { fs_path, url_path }) => {
            assert_eq!(url_path, b"/docs/".to_vec());
            assert_eq!(fs_path, b"/srv/www/docs/".to_vec());
        }
        _ => panic!("expected a directory route"),
    }
}

#[test]
fn other_paths_need_a_stat_probe() {
    match route_request(ROOT, b"/blog/post") {
        RouteStep::ProbeIsDir { fs_path } => {
            assert_eq!(fs_path, b"/srv/www/blog/post".to_vec());
        }
        _ => panic!("expected a probe"),
    }
}

#[test]
fn real_directory_redirects_to_canonical_url() {
    match route_after_stat(ROOT, b"/blog", true) {
        RouteStep::Done(Route::RedirectToDir { location }) => {
            assert_eq!(location, b"/blog/".to_vec());
        }
        _ => panic!("expected a redirect"),
    }
}

#[test]
fn markdown_extension_is_served_rendered() {
    match route_after_stat(ROOT, b"/blog/post.md", false) {
        RouteStep::Done(Route::Markdown { fs_path }) => {
            assert_eq!(fs_path, b"/srv/www/blog/post.md".to_vec());
        }
        _ => panic!("expected markdown"),
    }
}

#[test]
fn markdown_extension_case_insensitive() {
    match route_after_stat(ROOT, b"/blog/post.MD", false) {
        RouteStep::Done(Route::Markdown { .. }) => {}
        _ => panic!("expected markdown"),
    }
}

#[test]
fn static_extension_passes_through() {
    match route_after_stat(ROOT, b"/style.css", false) {
        RouteStep::Done(Route::Static { fs_path }) => {
            assert_eq!(fs_path, b"/srv/www/style.css".to_vec());
        }
        _ => panic!("expected static"),
    }
}

#[test]
fn clean_url_probes_the_markdown_fallback() {
    match route_after_stat(ROOT, b"/blog/post", false) {
        RouteStep::ProbeMarkdown { md_path } => {
            assert_eq!(md_path, b"/srv/www/blog/post.md".to_vec());
        }
        _ => panic!("expected a clean-url probe"),
    }
}

#[test]
fn unknown_extension_is_replaced_for_the_fallback() {
    match route_after_stat(ROOT, b"/blog/post.xyz", false) {
        RouteStep::ProbeMarkdown { md_path } => {
            assert_eq!(md_path, b"/srv/www/blog/post.md".to_vec());
        }
        _ => panic!("expected a clean-url probe"),
    }
}

#[test]
fn clean_url_outcome_depends_on_existence() {
    match route_after_md_probe(b"/srv/www/a.md".to_vec(), true) {
        Route::Markdown { fs_path } => assert_eq!(fs_path, b"/srv/www/a.md".to_vec()),
        _ => panic!("expected markdown"),
    }
    match route_after_md_probe(b"/srv/www/a.md".to_vec(), false) {
        Route::Rejected => {}
        _ => panic!("expected a rejection"),
    }
}

#[test]
fn static_extension_table() {
    for e in [
        b"css".as_slice(),
        b"js".as_slice(),
        b"png".as_slice(),
        b"woff2".as_slice(),
        b"pdf".as_slice(),
        b"wav".as_slice(),
    ] {
        assert!(static_ext(e));
    }
    assert!(!static_ext(b"md"));
    assert!(!static_ext(b"html"));
    assert!(!static_ext(b"CSS"));
}

#[test]
fn md_extension_appended_once() {
    assert_eq!(ensure_md_extension(b"blog/new-post"), b"blog/new-post.md".to_vec());
    assert_eq!(ensure_md_extension(b"blog/new-post.md"), b"blog/new-post.md".to_vec());
}
