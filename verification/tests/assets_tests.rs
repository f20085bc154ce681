use md_server::assets::{asset_candidates, asset_url, locate_asset, AssetKind};

const ROOT: &[u8] = b"/srv/www";

#[test]
fn stylesheet_candidates_walk_upward() {
    let c = asset_candidates(ROOT, b"/srv/www/a/b/c/file.md", false, AssetKind::Stylesheet);
    let got: Vec<&[u8]> = c.iter().map(|v| v.as_slice()).collect();
    assert_eq!(
        got,
        vec![
            b"/srv/www/a/b/c/style.css".as_slice(),
            b"/srv/www/a/b/style.css".as_slice(),
            b"/srv/www/a/style.css".as_slice(),
            b"/srv/www/style.css".as_slice(),
        ]
    );
}

#[test]
fn directory_lookup_starts_at_itself() {
    let c = asset_candidates(ROOT, b"/srv/www/a", true, AssetKind::Stylesheet);
    assert_eq!(c[0], b"/srv/www/a/style.css".to_vec());
    assert_eq!(c[1], b"/srv/www/style.css".to_vec());
    assert_eq!(c.len(), 2);
}

#[test]
fn cover_image_extensions_in_order() {
    let c = asset_candidates(ROOT, b"/srv/www/x.md", false, AssetKind::CoverImage);
    let got: Vec<&[u8]> = c.iter().map(|v| v.as_slice()).collect();
    assert_eq!(
        got,
        vec![
            b"/srv/www/meta.png".as_slice(),
            b"/srv/www/meta.jpg".as_slice(),
            b"/srv/www/meta.jpeg".as_slice(),
            b"/srv/www/meta.gif".as_slice(),
            b"/srv/www/meta.webp".as_slice(),
            b"/srv/www/meta.avif".as_slice(),
            b"/srv/www/meta.svg".as_slice(),
        ]
    );
}

#[test]
fn outside_start_yields_no_candidates() {
    let c = asset_candidates(ROOT, b"/etc/x.md", false, AssetKind::Stylesheet);
    assert!(c.is_empty());
}

#[test]
fn root_stylesheet_found_three_levels_deep() {
    let c = asset_candidates(ROOT, b"/srv/www/a/b/c/file.md", false, AssetKind::Stylesheet);
    // only the content root holds a stylesheet
    let exists = vec![false, false, false, true];
    let url = locate_asset(ROOT, &c, &exists);
    assert_eq!(url, Some(b"/style.css".to_vec()));
}

#[test]
fn nearer_stylesheet_wins() {
    let c = asset_candidates(ROOT, b"/srv/www/a/b/c/file.md", false, AssetKind::Stylesheet);
    // an intermediate ancestor holds one too
    let exists = vec![false, true, false, true];
    let url = locate_asset(ROOT, &c, &exists);
    assert_eq!(url, Some(b"/a/b/style.css".to_vec()));
}

#[test]
fn no_match_yields_none() {
    let c = asset_candidates(ROOT, b"/srv/www/a/file.md", false, AssetKind::Stylesheet);
    let exists = vec![false; c.len()];
    assert_eq!(locate_asset(ROOT, &c, &exists), None);
}

#[test]
fn asset_url_is_root_relative() {
    assert_eq!(asset_url(ROOT, b"/srv/www/a/b/style.css"), b"/a/b/style.css".to_vec());
    assert_eq!(asset_url(ROOT, b"/srv/www/meta.png"), b"/meta.png".to_vec());
}
