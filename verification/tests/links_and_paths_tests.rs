//! Broken-link selection and the file-name model that picks dialects.

use notekeep::links::{broken_links, LinkInfo, LinkKind};
use notekeep::paths::{dialect_of, extension, file_stem, Dialect};

fn link(text: &str, kind: LinkKind, alive: bool) -> LinkInfo {
    LinkInfo { text: text.to_string(), kind, alive }
}

#[test]
fn broken_links_keeps_only_dead_ones() {
    let links = vec![
        link("https://example.test/x", LinkKind::Remote, true),
        link("./missing.md", LinkKind::Local, false),
        link("https://example.test/y", LinkKind::Remote, false),
    ];
    let out = broken_links(links, false);
    let got: Vec<String> = out.into_iter().map(|l| l.text).collect();
    assert_eq!(
        got,
        vec!["./missing.md".to_string(), "https://example.test/y".to_string()]
    );
}

#[test]
fn local_only_drops_remote_links() {
    let links = vec![
        link("./missing.md", LinkKind::Local, false),
        link("https://example.test/y", LinkKind::Remote, false),
    ];
    let out = broken_links(links, true);
    let got: Vec<String> = out.into_iter().map(|l| l.text).collect();
    assert_eq!(got, vec!["./missing.md".to_string()]);
}

#[test]
fn no_links_no_report() {
    assert_eq!(broken_links(Vec::new(), false).len(), 0);
}

#[test]
fn stems_and_extensions() {
    assert_eq!(file_stem("notes/trip.md"), Some("trip".to_string()));
    assert_eq!(extension("notes/trip.md"), Some("md".to_string()));
    assert_eq!(file_stem("archive.tar.gz"), Some("archive.tar".to_string()));
    assert_eq!(extension("archive.tar.gz"), Some("gz".to_string()));
    // a leading dot opens a hidden name, not an extension
    assert_eq!(file_stem(".hidden"), Some(".hidden".to_string()));
    assert_eq!(extension(".hidden"), None);
    assert_eq!(file_stem("plain"), Some("plain".to_string()));
    assert_eq!(extension("plain"), None);
    assert_eq!(file_stem(""), None);
}

#[test]
fn dialect_is_chosen_by_extension() {
    assert_eq!(dialect_of("a/b.md"), Some(Dialect::Markdown));
    assert_eq!(dialect_of("a/b.org"), Some(Dialect::Org));
    assert_eq!(dialect_of("a/b.txt"), None);
    assert_eq!(dialect_of("a/borg"), None);
    assert_eq!(dialect_of("dir.md/file"), None);
}
