//! Header extraction, scoring, ranking and outline rendering, exercised
//! end to end on concrete notes.

use notekeep::analyse::{
    get_headers, header_char, header_count, note_complexity, note_header_count, note_size,
    note_structure, Note,
};
use notekeep::paths::Dialect;

fn md_note(name: &str, text: &str) -> Note {
    Note { name: name.to_string(), text: text.to_string() }
}

#[test]
fn extracts_headers_in_document_order() {
    let text = "# Intro\nplain line\n## Day 1\n### Deep\n";
    let hs = get_headers(text, Dialect::Markdown);
    let got: Vec<(String, usize)> = hs.into_iter().map(|h| (h.title, h.depth)).collect();
    assert_eq!(
        got,
        vec![
            ("Intro".to_string(), 1),
            ("Day 1".to_string(), 2),
            ("Deep".to_string(), 3),
        ]
    );
}

#[test]
fn header_token_must_be_markers_alone() {
    // a strict-prefix rule: `##foo` is one token and not a header
    let hs = get_headers("##foo\n#bar baz\n# ok\n", Dialect::Markdown);
    assert_eq!(hs.len(), 1);
    assert_eq!(hs[0].title, "ok");
    assert_eq!(hs[0].depth, 1);
}

#[test]
fn org_dialect_uses_stars() {
    let hs = get_headers("* Top\n** Sub\n# not a header\n", Dialect::Org);
    let got: Vec<(String, usize)> = hs.into_iter().map(|h| (h.title, h.depth)).collect();
    assert_eq!(got, vec![("Top".to_string(), 1), ("Sub".to_string(), 2)]);
}

#[test]
fn crlf_line_endings_are_stripped() {
    let hs = get_headers("# A\r\n## B\r\n", Dialect::Markdown);
    let got: Vec<(String, usize)> = hs.into_iter().map(|h| (h.title, h.depth)).collect();
    assert_eq!(got, vec![("A".to_string(), 1), ("B".to_string(), 2)]);
}

#[test]
fn empty_text_has_no_headers() {
    assert_eq!(get_headers("", Dialect::Markdown).len(), 0);
    assert_eq!(header_count("", Dialect::Markdown), 0);
}

#[test]
fn header_count_equals_extraction_length() {
    let texts = ["", "# A\n## B", "x\ny\n", "# A\n# B\n# C\n#notone\n"];
    for text in texts {
        assert_eq!(
            header_count(text, Dialect::Markdown),
            get_headers(text, Dialect::Markdown).len()
        );
    }
}

#[test]
fn header_char_follows_extension() {
    assert_eq!(header_char("notes/a.md"), '#');
    assert_eq!(header_char("deep/dir/b.org"), '*');
}

#[test]
fn complexity_is_mean_depth_as_exact_rational() {
    let notes = vec![md_note("trip.md", "# Intro\n## Day 1\n## Day 2\n### Food\n")];
    let out = note_complexity(&notes, None, false);
    assert_eq!(out.len(), 1);
    // depths 1, 2, 2, 3: sum 8 over 4 headers
    assert_eq!(out[0].score.num, 8);
    assert_eq!(out[0].score.den, 4);
    assert_eq!(out[0].name, "trip.md");
}

#[test]
fn headerless_note_scores_zero_and_sorts_first() {
    let notes = vec![
        md_note("deep.md", "### X\n### Y\n"),
        md_note("flat.md", "no headers here\n"),
    ];
    let out = note_complexity(&notes, None, false);
    assert_eq!(out[0].name, "flat.md");
    assert_eq!(out[0].score.num, 0);
    assert_eq!(out[0].score.den, 0);
    assert_eq!(out[1].name, "deep.md");
}

#[test]
fn complexity_ranks_ascending_with_ties_in_input_order() {
    let notes = vec![
        md_note("b.md", "## B\n"), // mean 2
        md_note("a.md", "# A\n"),  // mean 1
        md_note("c.md", "## C\n"), // mean 2, tied with b.md, arrives later
    ];
    let out = note_complexity(&notes, None, false);
    let names: Vec<String> = out.into_iter().map(|e| e.name).collect();
    assert_eq!(names, vec!["a.md", "b.md", "c.md"]);
}

#[test]
fn header_count_ranking_and_top_n() {
    let notes = vec![
        md_note("three.md", "# A\n# B\n# C\n"),
        md_note("one.md", "# A\n"),
        md_note("two.md", "# A\n# B\n"),
    ];
    let out = note_header_count(&notes, Some(2), false);
    let got: Vec<(u64, String)> = out.into_iter().map(|e| (e.score.num, e.name)).collect();
    assert_eq!(got, vec![(1, "one.md".to_string()), (2, "two.md".to_string())]);
}

#[test]
fn reversed_full_ranking_is_exact_reverse() {
    let notes = vec![
        md_note("b.md", "## B\n"),
        md_note("a.md", "# A\n"),
        md_note("c.md", "## C\n"),
        md_note("d.md", "### D\n"),
    ];
    let ascending: Vec<String> =
        note_complexity(&notes, None, false).into_iter().map(|e| e.name).collect();
    let descending: Vec<String> =
        note_complexity(&notes, None, true).into_iter().map(|e| e.name).collect();
    let mut flipped = ascending.clone();
    flipped.reverse();
    assert_eq!(descending, flipped);
}

#[test]
fn reordering_input_never_changes_a_score() {
    let n1 = md_note("a.md", "# A\n## B\n");
    let n2 = md_note("b.md", "### C\n");
    let n3 = md_note("c.md", "x\n");
    let one = vec![
        md_note("a.md", "# A\n## B\n"),
        md_note("b.md", "### C\n"),
        md_note("c.md", "x\n"),
    ];
    let other = vec![n3, n1, n2];
    let mut first: Vec<(u64, u64, String)> = note_complexity(&one, None, false)
        .into_iter()
        .map(|e| (e.score.num, e.score.den, e.name))
        .collect();
    let mut second: Vec<(u64, u64, String)> = note_complexity(&other, None, false)
        .into_iter()
        .map(|e| (e.score.num, e.score.den, e.name))
        .collect();
    first.sort();
    second.sort();
    assert_eq!(first, second);
}

#[test]
fn read_only_commands_are_idempotent() {
    let notes = vec![
        md_note("a.md", "# A\n## B\n"),
        md_note("b.md", "### C\n"),
    ];
    let first: Vec<(u64, u64, String)> = note_complexity(&notes, None, true)
        .into_iter()
        .map(|e| (e.score.num, e.score.den, e.name))
        .collect();
    let second: Vec<(u64, u64, String)> = note_complexity(&notes, None, true)
        .into_iter()
        .map(|e| (e.score.num, e.score.den, e.name))
        .collect();
    assert_eq!(first, second);
    let s1 = note_structure(&notes[0]);
    let s2 = note_structure(&notes[0]);
    assert_eq!(s1, s2);
}

#[test]
fn note_size_ranks_by_bytes() {
    let files = vec![
        (300u64, "big.md".to_string()),
        (10u64, "small.md".to_string()),
        (100u64, "mid.md".to_string()),
    ];
    let out = note_size(files.clone(), None, false);
    assert_eq!(
        out,
        vec![
            (10u64, "small.md".to_string()),
            (100u64, "mid.md".to_string()),
            (300u64, "big.md".to_string()),
        ]
    );
    let top = note_size(files, Some(1), true);
    assert_eq!(top, vec![(300u64, "big.md".to_string())]);
}

#[test]
fn note_size_top_n_larger_than_list() {
    let files = vec![(5u64, "a.md".to_string())];
    let out = note_size(files, Some(10), false);
    assert_eq!(out.len(), 1);
}

#[test]
fn outline_of_example_note() {
    let note = md_note("notes/trip.md", "# Intro\n## Day 1\n## Day 2\n### Food\n");
    let lines = note_structure(&note);
    assert_eq!(
        lines,
        vec![
            "notes/trip.md".to_string(),
            "  \u{2514} H1: Intro".to_string(),
            "    \u{251c} H2: Day 1".to_string(),
            "    \u{2514} H2: Day 2".to_string(),
            "      \u{2514} H3: Food".to_string(),
        ]
    );
}

#[test]
fn outline_of_headerless_note_is_name_alone() {
    let note = md_note("plain.md", "nothing structured\n");
    assert_eq!(note_structure(&note), vec!["plain.md".to_string()]);
}

#[test]
fn tabs_do_not_delimit_the_marker_token() {
    // the token runs to the first space; a tab is part of it
    let hs = get_headers("#\ttitle\n# \ttabbed\t\n", Dialect::Markdown);
    assert_eq!(hs.len(), 1);
    assert_eq!(hs[0].title, "tabbed");
    assert_eq!(hs[0].depth, 1);
}

#[test]
fn outline_renders_two_digit_depths() {
    let note = md_note("deep.md", "############ buried\n");
    let lines = note_structure(&note);
    assert_eq!(lines.len(), 2);
    assert_eq!(lines[1], format!("{}\u{2514} H12: buried", " ".repeat(24)));
}

#[test]
fn lone_carriage_return_is_kept() {
    // only a carriage return directly before a line feed belongs to the
    // line ending
    let hs = get_headers("# A\rB\n", Dialect::Markdown);
    assert_eq!(hs.len(), 1);
    assert_eq!(hs[0].title, "A\rB");
}
