//! Tag queries and the tag reports, with tag sets read by the real
//! tag-scanning collaborator.

use notekeep::analyse::Note;
use notekeep::tags::{display_tags_for_each, display_untagged_files, extract_tags, TagQuery};

fn tags(words: &[&str]) -> Vec<String> {
    words.iter().map(|w| w.to_string()).collect()
}

fn query(required: &[&str], forbidden: &[&str]) -> TagQuery {
    TagQuery { required: tags(required), forbidden: tags(forbidden) }
}

#[test]
fn tag_round_trip() {
    let file_tags = tags(&["a", "b"]);
    assert!(query(&["a"], &[]).matches(&file_tags));
    assert!(query(&["a", "b"], &[]).matches(&file_tags));
    assert!(!query(&["a", "c"], &[]).matches(&file_tags));
}

#[test]
fn empty_required_set_matches_nothing() {
    assert!(!query(&[], &[]).matches(&tags(&["a"])));
    assert!(!query(&[], &["b"]).matches(&tags(&["a"])));
    assert!(!query(&[], &[]).matches(&Vec::new()));
}

#[test]
fn forbidden_tags_exclude() {
    let file_tags = tags(&["a", "b"]);
    assert!(!query(&["a"], &["b"]).matches(&file_tags));
    assert!(query(&["a"], &["c"]).matches(&file_tags));
}

#[test]
fn extraction_reads_at_words() {
    let got = extract_tags("@alpha some words @beta\nplain @not!valid @d/e/f\n");
    assert_eq!(
        got,
        vec!["alpha".to_string(), "beta".to_string(), "d/e/f".to_string()]
    );
    assert_eq!(extract_tags(""), Vec::<String>::new());
    assert_eq!(extract_tags("no tags in here"), Vec::<String>::new());
}

#[test]
fn tag_report_lists_matching_files_with_their_tags() {
    let notes = vec![
        Note { name: "a.md".to_string(), text: "@alpha @beta\n".to_string() },
        Note { name: "b.md".to_string(), text: "@gamma\n".to_string() },
        Note { name: "c.md".to_string(), text: "untagged\n".to_string() },
    ];
    let out = display_tags_for_each(&query(&["alpha"], &[]), &notes);
    let mut expected = String::from("a.md");
    while expected.chars().count() < 40 {
        expected.push(' ');
    }
    expected.push(' ');
    expected.push_str("@alpha, @beta");
    assert_eq!(out, vec![expected]);
}

#[test]
fn tag_report_skips_files_hit_by_forbidden_tags() {
    let notes = vec![
        Note { name: "a.md".to_string(), text: "@alpha @beta\n".to_string() },
        Note { name: "b.md".to_string(), text: "@alpha\n".to_string() },
    ];
    let out = display_tags_for_each(&query(&["alpha"], &["beta"]), &notes);
    assert_eq!(out.len(), 1);
    assert!(out[0].starts_with("b.md"));
}

#[test]
fn untagged_report_lists_exactly_the_tagless() {
    let notes = vec![
        Note { name: "a.md".to_string(), text: "@alpha\n".to_string() },
        Note { name: "b.md".to_string(), text: "plain words only\n".to_string() },
        Note { name: "c.md".to_string(), text: "".to_string() },
    ];
    let out = display_untagged_files(&notes);
    assert_eq!(out, vec!["b.md".to_string(), "c.md".to_string()]);
}

#[test]
fn tag_reports_are_idempotent() {
    let notes = vec![Note { name: "a.md".to_string(), text: "@alpha\n".to_string() }];
    let q = query(&["alpha"], &[]);
    assert_eq!(display_tags_for_each(&q, &notes), display_tags_for_each(&q, &notes));
    assert_eq!(display_untagged_files(&notes), display_untagged_files(&notes));
}
