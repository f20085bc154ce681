use md_server::error::{io_err, AppError};
use md_server::resolve::{
    resolve_read_confirm, resolve_read_prepare, resolve_write_confirm, resolve_write_prepare,
    sanitize_rel,
};

#[test]
fn dotdot_rejected_everywhere() {
    let root = b"/srv/www";
    for rel in [
        b"../etc/passwd".as_slice(),
        b"a/../b".as_slice(),
        b"a/b/..".as_slice(),
        b"/..".as_slice(),
        b"..".as_slice(),
        b"a/..".as_slice(),
    ] {
        assert_eq!(resolve_read_prepare(root, rel), Err(AppError::NotFound));
        assert!(resolve_write_prepare(root, rel).is_err());
    }
}

#[test]
fn dotdot_like_names_pass() {
    let root = b"/srv/www";
    assert_eq!(resolve_read_prepare(root, b"a..b"), Ok(b"/srv/www/a..b".to_vec()));
    assert_eq!(resolve_read_prepare(root, b"..."), Ok(b"/srv/www/...".to_vec()));
    assert_eq!(resolve_read_prepare(root, b"notes.."), Ok(b"/srv/www/notes..".to_vec()));
}

#[test]
fn empty_and_slash_only_rejected() {
    let root = b"/srv/www";
    assert_eq!(resolve_read_prepare(root, b""), Err(AppError::NotFound));
    assert_eq!(resolve_read_prepare(root, b"///"), Err(AppError::NotFound));
    assert!(resolve_write_prepare(root, b"").is_err());
}

#[test]
fn leading_slashes_stripped() {
    assert_eq!(sanitize_rel(b"//a/b"), Ok(b"a/b".to_vec()));
    assert_eq!(
        resolve_read_prepare(b"/srv/www", b"/blog/post.md"),
        Ok(b"/srv/www/blog/post.md".to_vec())
    );
}

#[test]
fn confirm_accepts_contained_paths() {
    let root = b"/srv/www";
    assert_eq!(resolve_read_confirm(root, b"/srv/www/a/b.md"), Ok(b"/srv/www/a/b.md".to_vec()));
    assert_eq!(resolve_read_confirm(root, b"/srv/www"), Ok(b"/srv/www".to_vec()));
}

#[test]
fn symlink_escape_rejected_after_resolution() {
    // the lexical path looked contained, but the canonical one is not
    let root = b"/srv/www";
    assert_eq!(resolve_read_confirm(root, b"/etc/passwd"), Err(AppError::NotFound));
    assert_eq!(resolve_read_confirm(root, b"/srv/other/file"), Err(AppError::NotFound));
}

#[test]
fn sibling_prefix_is_not_contained() {
    // "/srv/www-backup" shares a string prefix but is another directory
    assert_eq!(resolve_read_confirm(b"/srv/www", b"/srv/www-backup/x"), Err(AppError::NotFound));
}

#[test]
fn write_plan_for_new_file() {
    let plan = resolve_write_prepare(b"/srv/www", b"blog/new-post.md").unwrap();
    assert_eq!(plan.parent, b"/srv/www/blog".to_vec());
    assert_eq!(plan.file_name, b"new-post.md".to_vec());
}

#[test]
fn write_plan_at_root_level() {
    let plan = resolve_write_prepare(b"/srv/www", b"note.md").unwrap();
    assert_eq!(plan.parent, b"/srv/www".to_vec());
    assert_eq!(plan.file_name, b"note.md".to_vec());
}

#[test]
fn write_plan_ignores_trailing_slashes() {
    let plan = resolve_write_prepare(b"/srv/www", b"blog/dir//").unwrap();
    assert_eq!(plan.parent, b"/srv/www/blog".to_vec());
    assert_eq!(plan.file_name, b"dir".to_vec());
}

#[test]
fn write_succeeds_for_missing_target_with_good_parent() {
    // the target file does not exist anywhere; only the parent must pass
    let plan = resolve_write_prepare(b"/srv/www", b"blog/not-yet-there.md").unwrap();
    let full = resolve_write_confirm(b"/srv/www", plan.parent.as_slice(), plan.file_name.as_slice());
    assert_eq!(full, Ok(b"/srv/www/blog/not-yet-there.md".to_vec()));
}

#[test]
fn write_confirm_rejects_escaped_parent() {
    let plan = resolve_write_prepare(b"/srv/www", b"blog/x.md").unwrap();
    // the canonical parent resolved, via a symlink, outside the root
    let r = resolve_write_confirm(b"/srv/www", b"/etc", plan.file_name.as_slice());
    assert_eq!(r, Err(AppError::NotFound));
}

#[test]
fn io_err_classification() {
    assert_eq!(io_err(true), AppError::NotFound);
    assert_eq!(io_err(false), AppError::Io);
}
