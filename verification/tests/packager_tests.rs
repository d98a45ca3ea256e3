//! Package rotation decisions, derived names, and artifact paths.

use open_finder::link::Url;
use open_finder::packager::Packager;
use open_finder::packager::artifact_path;
use open_finder::packager::package_archive_name;
use open_finder::packager::package_dir_name;
use open_finder::packager::should_rotate;

#[test]
fn rotation_thresholds() {
    assert!(should_rotate(1001, 0));
    assert!(!should_rotate(1000, 0));
    assert!(should_rotate(0, 512 * 1024 * 1024 + 1));
    assert!(!should_rotate(0, 512 * 1024 * 1024));
    assert!(!should_rotate(3, 4096));
}

#[test]
fn rotation_moves_to_the_next_package() {
    let mut p = Packager::new();
    assert_eq!(p.current_index(), 1);
    assert_eq!(p.current_dir(), "data/package-1");
    // A directory holding 1001 files crosses the threshold and rotates.
    assert!(should_rotate(1001, 4096));
    let finished = p.current_index();
    p.rotate();
    assert_eq!(p.current_dir(), "data/package-2");
    assert_eq!(package_archive_name(finished), "data/package-1.7z");
}

#[test]
fn package_names() {
    assert_eq!(package_dir_name(7), "data/package-7");
    assert_eq!(package_dir_name(120), "data/package-120");
    assert_eq!(package_archive_name(120), "data/package-120.7z");
}

#[test]
fn artifact_paths_replace_slashes() {
    let url = Url::parse("https://a.insa-rouen.fr/docs/page").unwrap();
    let path = artifact_path("data/package-1", &url);
    assert_eq!(path, "data/package-1/https:__a.insa-rouen.fr_docs_page.txt");
}

#[test]
fn artifact_paths_never_exceed_255_bytes() {
    let mut long = String::from("https://a.insa-rouen.fr/");
    for _ in 0..40 {
        long.push_str("segment/");
    }
    long.push_str("leaf");
    let url = Url::parse(&long).unwrap();
    let path = artifact_path("data/package-1", &url);
    assert!(path.len() <= 255);
    assert!(path.starts_with("data/package-1/https:__a.insa-rouen.fr_segment_"));
}
