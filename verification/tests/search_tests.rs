//! The query filter and the search report, including the tag extraction
//! that runs through the real tag-scanning collaborator.

use notekeep::analyse::Note;
use notekeep::search::{search, NoteFilter};

fn q(words: &[&str]) -> Vec<String> {
    words.iter().map(|w| w.to_string()).collect()
}

#[test]
fn title_matches_on_stem_substring() {
    let filter = NoteFilter::new(&q(&["apple", "@work"]));
    assert!(filter.title_matches("orchard/apple_pie.md"));
    // the tag word counts for the title too, without its prefix
    assert!(filter.title_matches("work_notes.md"));
    assert!(!filter.title_matches("banana.md"));
    // the extension is not part of the stem
    assert!(!filter.title_matches("nothing.apple"));
}

#[test]
fn contents_match_is_conjunctive() {
    let only_apple = "I ate an apple today";
    let both = NoteFilter::new(&q(&["apple", "banana"]));
    assert!(!both.contents_match(only_apple));
    let single = NoteFilter::new(&q(&["apple"]));
    assert!(single.contents_match(only_apple));
}

#[test]
fn empty_content_word_set_matches_no_contents() {
    let tags_only = NoteFilter::new(&q(&["@work"]));
    assert!(!tags_only.contents_match("anything at all, even about work"));
}

#[test]
fn tags_match_is_conjunctive_over_supplied_tags() {
    let file_tags = vec!["work".to_string(), "life".to_string()];
    assert!(NoteFilter::new(&q(&["@work"])).tags_match(&file_tags));
    assert!(NoteFilter::new(&q(&["@work", "@life"])).tags_match(&file_tags));
    assert!(!NoteFilter::new(&q(&["@work", "@gym"])).tags_match(&file_tags));
    // no tag words in the query: no tag match
    assert!(!NoteFilter::new(&q(&["work"])).tags_match(&file_tags));
    // tag words but an untagged file: no match
    assert!(!NoteFilter::new(&q(&["@work"])).tags_match(&Vec::new()));
}

#[test]
fn matches_reads_tags_out_of_the_text() {
    let note = Note {
        name: "journal/today.md".to_string(),
        text: "@work @deep-focus\nwrote the report about the apple harvest\n".to_string(),
    };
    let filter = NoteFilter::new(&q(&["apple", "@work"]));
    let m = filter.matches(&note);
    assert!(!m.title);
    assert!(m.contents);
    assert!(m.tags);
    assert!(!m.is_empty());

    let miss = NoteFilter::new(&q(&["@gym"]));
    let m2 = miss.matches(&note);
    assert!(m2.is_empty());
}

#[test]
fn search_report_lines_carry_flags_and_padded_name() {
    let notes = vec![
        Note { name: "apple.md".to_string(), text: "apple\n".to_string() },
        Note { name: "other.md".to_string(), text: "banana\n".to_string() },
    ];
    let out = search(&notes, &q(&["apple"]));
    // only the matching note is reported; the query word is in neither
    // the stem nor the text of the second note
    assert_eq!(out.len(), 1);
    let mut first = String::from("T c ");
    first.push_str("apple.md");
    while first.chars().count() < 64 {
        first.push(' ');
    }
    assert_eq!(out[0], first);
}

#[test]
fn search_reports_nothing_when_nothing_matches() {
    let notes = vec![Note { name: "b.md".to_string(), text: "banana\n".to_string() }];
    assert_eq!(search(&notes, &q(&["apple"])), Vec::<String>::new());
}

#[test]
fn search_twice_gives_identical_output() {
    let notes = vec![Note { name: "a.md".to_string(), text: "@x hay\n".to_string() }];
    let query = q(&["hay", "@x"]);
    assert_eq!(search(&notes, &query), search(&notes, &query));
}

#[test]
fn search_flags_mark_tag_matches() {
    let notes = vec![Note { name: "t.md".to_string(), text: "@apple\n".to_string() }];
    let out = search(&notes, &q(&["@apple"]));
    assert_eq!(out.len(), 1);
    let mut expected = String::from(" t  ");
    expected.push_str("t.md");
    while expected.chars().count() < 64 {
        expected.push(' ');
    }
    assert_eq!(out[0], expected);
}
