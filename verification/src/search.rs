//! Multi-attribute search: a query is split into content words and
//! `@`-prefixed tag words, and each note is tested on three independent
//! attributes — its title, its contents, and its tags.

use vstd::prelude::*;

verus! {

use vstd::string::StrSliceExecFns;
use vstd::string::StringExecFns;
use crate::analyse::{Note, NoteV};
use crate::paths::{spec_file_stem, file_stem};
use crate::tags::{tags_of, extract_tags, vec_contains_string};
use crate::text::{is_substring, str_contains};

/// A query token that names a tag rather than a content word.
pub open spec fn is_tag_token(w: Seq<char>) -> bool {
    w.len() > 0 && w[0] == '@'
}

/// The content words of a query, in order: the tokens without the tag
/// prefix.
pub open spec fn content_words_of(q: Seq<Seq<char>>) -> Seq<Seq<char>>
    decreases q.len(),
{
    if q.len() == 0 {
        Seq::empty()
    } else {
        let rest = content_words_of(q.drop_last());
        if is_tag_token(q.last()) {
            rest
        } else {
            rest.push(q.last())
        }
    }
}

/// The tag words of a query, in order, each with its leading `@` removed.
pub open spec fn tag_words_of(q: Seq<Seq<char>>) -> Seq<Seq<char>>
    decreases q.len(),
{
    if q.len() == 0 {
        Seq::empty()
    } else {
        let rest = tag_words_of(q.drop_last());
        if is_tag_token(q.last()) {
            rest.push(q.last().drop_first())
        } else {
            rest
        }
    }
}

/// The filter a query builds.
pub open spec fn spec_filter_of(q: Seq<Seq<char>>) -> NoteFilterV {
    NoteFilterV {
        all_words: content_words_of(q) + tag_words_of(q),
        words: content_words_of(q),
        tags: tag_words_of(q),
    }
}

/// The attribute filter built from a query: every word of the query, the
/// content words alone, and the tag words alone.
pub struct NoteFilter {
    all_words: Vec<String>,
    words: Vec<String>,
    tags: Vec<String>,
}

/// The mathematical value of a `NoteFilter`.
pub ghost struct NoteFilterV {
    pub all_words: Seq<Seq<char>>,
    pub words: Seq<Seq<char>>,
    pub tags: Seq<Seq<char>>,
}

impl View for NoteFilter {
    type V = NoteFilterV;

    closed spec fn view(&self) -> NoteFilterV {
        NoteFilterV {
            all_words: self.all_words.deep_view(),
            words: self.words.deep_view(),
            tags: self.tags.deep_view(),
        }
    }
}

/// Some query word — content or tag, as typed without its prefix — is a
/// literal substring of the file's stem.
pub open spec fn spec_title_matches(f: NoteFilterV, stem: Seq<char>) -> bool {
    exists|i: int| 0 <= i < f.all_words.len() && is_substring(stem, #[trigger] f.all_words[i])
}

/// There is at least one content word and every content word is a
/// literal substring of the text.
pub open spec fn spec_contents_match(f: NoteFilterV, text: Seq<char>) -> bool {
    f.words.len() > 0 && forall|i: int|
        0 <= i < f.words.len() ==> is_substring(text, #[trigger] f.words[i])
}

/// There is at least one tag word and every tag word occurs in the
/// file's tag set.
pub open spec fn spec_tags_match(f: NoteFilterV, tags: Seq<Seq<char>>) -> bool {
    f.tags.len() > 0 && forall|i: int| 0 <= i < f.tags.len() ==> tags.contains(#[trigger] f.tags[i])
}

/// Which of the three attributes a note satisfied.
#[derive(Clone, Copy, PartialEq, Eq, Structural, Debug)]
pub struct MatchResult {
    pub title: bool,
    pub contents: bool,
    pub tags: bool,
}

impl MatchResult {
    /// The note satisfied none of the attributes.
    pub open spec fn spec_is_empty(self) -> bool {
        !self.title && !self.contents && !self.tags
    }

    /// Executable form of `spec_is_empty`.
    pub fn is_empty(self) -> (r: bool)
        ensures
            r == self.spec_is_empty(),
    {
        !self.title && !self.contents && !self.tags
    }
}

impl NoteFilter {
    /// Build the filter from the raw query tokens: a token starting with
    /// `@` is a tag word (the prefix is dropped), anything else a content
    /// word.
    pub fn new(words: &[String]) -> (f: NoteFilter)
        ensures
            f@ == spec_filter_of(words.deep_view()),
    {
        let ghost q = words.deep_view();
        let mut content: Vec<String> = Vec::new();
        let mut tags: Vec<String> = Vec::new();
        let mut i: usize = 0;
        proof {
            assert(q.take(0) =~= Seq::<Seq<char>>::empty());
            assert(content.deep_view() =~= content_words_of(q.take(0)));
            assert(tags.deep_view() =~= tag_words_of(q.take(0)));
        }
        while i < words.len()
            invariant
                q == words.deep_view(),
                q.len() == words@.len(),
                i <= words@.len(),
                content.deep_view() == content_words_of(q.take(i as int)),
                tags.deep_view() == tag_words_of(q.take(i as int)),
            decreases words@.len() - i,
        {
            proof {
                assert(q[i as int] == words@[i as int]@);
                assert(q.take(i + 1).drop_last() =~= q.take(i as int));
                assert(q.take(i + 1).last() == q[i as int]);
            }
            let w = &words[i];
            let ws = w.as_str();
            let wlen = ws.unicode_len();
            if wlen > 0 && ws.get_char(0) == '@' {
                let stripped = String::from_str(ws.substring_char(1, wlen));
                proof {
                    assert(stripped@ =~= q[i as int].drop_first());
                }
                let ghost pre = tags.deep_view();
                tags.push(stripped);
                proof {
                    assert(tags.deep_view() =~= pre.push(q[i as int].drop_first()));
                    assert(tags.deep_view() =~= tag_words_of(q.take(i + 1)));
                }
            } else {
                let ghost pre = content.deep_view();
                content.push(w.clone());
                proof {
                    assert(content.deep_view() =~= pre.push(q[i as int]));
                    assert(content.deep_view() =~= content_words_of(q.take(i + 1)));
                }
            }
            i += 1;
        }
        proof {
            assert(q.take(words@.len() as int) =~= q);
        }
        let mut all_words: Vec<String> = Vec::new();
        let mut i: usize = 0;
        let ghost cw = content.deep_view();
        let ghost tw = tags.deep_view();
        proof {
            assert(all_words.deep_view() =~= (cw + tw).take(0));
        }
        while i < content.len()
            invariant
                cw == content.deep_view(),
                tw == tags.deep_view(),
                cw.len() == content@.len(),
                i <= content@.len(),
                all_words.deep_view() == (cw + tw).take(i as int),
            decreases content@.len() - i,
        {
            proof {
                assert(cw[i as int] == content@[i as int]@);
            }
            let ghost pre = all_words.deep_view();
            all_words.push(content[i].clone());
            proof {
                assert(all_words.deep_view() =~= pre.push(cw[i as int]));
                assert(all_words.deep_view() =~= (cw + tw).take(i + 1));
            }
            i += 1;
        }
        let clen = content.len();
        let mut i: usize = 0;
        while i < tags.len()
            invariant
                cw == content.deep_view(),
                tw == tags.deep_view(),
                tw.len() == tags@.len(),
                clen == cw.len(),
                i <= tags@.len(),
                all_words.deep_view() == (cw + tw).take(clen + i),
            decreases tags@.len() - i,
        {
            proof {
                assert(tw[i as int] == tags@[i as int]@);
            }
            let ghost pre = all_words.deep_view();
            all_words.push(tags[i].clone());
            proof {
                assert((cw + tw)[clen + i] == tw[i as int]);
                assert(all_words.deep_view() =~= pre.push(tw[i as int]));
                assert(all_words.deep_view() =~= (cw + tw).take(clen + i + 1));
            }
            i += 1;
        }
        proof {
            assert((cw + tw).take((cw + tw).len() as int) =~= cw + tw);
        }
        NoteFilter { all_words, words: content, tags }
    }

    /// Does any query word occur in the file's stem? The caller hands a
    /// name whose final component is non-empty.
    pub fn title_matches(&self, name: &str) -> (r: bool)
        requires
            spec_file_stem(name@) is Some,
        ensures
            r == spec_title_matches(self@, spec_file_stem(name@)->Some_0),
    {
        let stem = file_stem(name).unwrap();
        let ghost sv = spec_file_stem(name@)->Some_0;
        let mut i: usize = 0;
        while i < self.all_words.len()
            invariant
                stem@ == sv,
                sv == spec_file_stem(name@)->Some_0,
                i <= self.all_words@.len(),
                forall|j: int| 0 <= j < i ==> !is_substring(sv, #[trigger] self@.all_words[j]),
            decreases self.all_words@.len() - i,
        {
            proof {
                assert(self@.all_words.len() == self.all_words@.len());
                assert(self@.all_words[i as int] == self.all_words@[i as int]@);
            }
            if str_contains(stem.as_str(), self.all_words[i].as_str()) {
                proof {
                    assert(is_substring(sv, self@.all_words[i as int]));
                }
                return true;
            }
            i += 1;
        }
        false
    }

    /// Are there content words, and does each occur in the text?
    pub fn contents_match(&self, text: &str) -> (r: bool)
        ensures
            r == spec_contents_match(self@, text@),
    {
        if self.words.len() == 0 {
            return false;
        }
        let mut i: usize = 0;
        while i < self.words.len()
            invariant
                i <= self.words@.len(),
                forall|j: int| 0 <= j < i ==> is_substring(text@, #[trigger] self@.words[j]),
            decreases self.words@.len() - i,
        {
            proof {
                assert(self@.words[i as int] == self.words@[i as int]@);
            }
            if !str_contains(text, self.words[i].as_str()) {
                proof {
                    assert(!is_substring(text@, self@.words[i as int]));
                }
                return false;
            }
            i += 1;
        }
        true
    }

    /// Are there tag words, and is each present in the file's tag set?
    pub fn tags_match(&self, file_tags: &Vec<String>) -> (r: bool)
        ensures
            r == spec_tags_match(self@, file_tags.deep_view()),
    {
        if self.tags.len() == 0 {
            return false;
        }
        let mut i: usize = 0;
        while i < self.tags.len()
            invariant
                i <= self.tags@.len(),
                forall|j: int|
                    0 <= j < i ==> file_tags.deep_view().contains(#[trigger] self@.tags[j]),
            decreases self.tags@.len() - i,
        {
            proof {
                assert(self@.tags[i as int] == self.tags@[i as int]@);
            }
            if !vec_contains_string(file_tags, &self.tags[i]) {
                proof {
                    assert(!file_tags.deep_view().contains(self@.tags[i as int]));
                }
                return false;
            }
            i += 1;
        }
        true
    }

    /// Evaluate all three attributes against one note, reading the note's
    /// tags out of its text.
    pub fn matches(&self, note: &Note) -> (m: MatchResult)
        requires
            spec_file_stem(note.name@) is Some,
        ensures
            m.title == spec_title_matches(self@, spec_file_stem(note.name@)->Some_0),
            m.contents == spec_contents_match(self@, note.text@),
            m.tags == spec_tags_match(self@, tags_of(note.text@)),
    {
        let file_tags = extract_tags(note.text.as_str());
        MatchResult {
            title: self.title_matches(note.name.as_str()),
            contents: self.contents_match(note.text.as_str()),
            tags: self.tags_match(&file_tags),
        }
    }
}

/// The attribute flags of the search report: `T` for a title match, `t`
/// for a tag match, `c` for a contents match, a space for each miss.
pub open spec fn spec_search_flags(title: bool, tags: bool, contents: bool) -> Seq<char> {
    seq![
        if title {
            'T'
        } else {
            ' '
        },
        if tags {
            't'
        } else {
            ' '
        },
        if contents {
            'c'
        } else {
            ' '
        },
    ]
}

/// The search report line for one note: the three attribute flags, a
/// space, and the name padded to sixty characters.
pub open spec fn spec_search_line(f: NoteFilterV, n: NoteV) -> Seq<char> {
    spec_search_flags(
        spec_title_matches(f, spec_file_stem(n.name)->Some_0),
        spec_tags_match(f, tags_of(n.text)),
        spec_contents_match(f, n.text),
    ) + seq![' '] + crate::tags::spec_padded(n.name, 60)
}

/// The note satisfies at least one of the three attributes: its
/// match-category set is non-empty.
pub open spec fn spec_any_match(f: NoteFilterV, n: NoteV) -> bool {
    ||| spec_title_matches(f, spec_file_stem(n.name)->Some_0)
    ||| spec_contents_match(f, n.text)
    ||| spec_tags_match(f, tags_of(n.text))
}

/// The search report: one line per note whose match-category set is
/// non-empty, in input order; a note that satisfies none of the three
/// attributes is not reported.
pub open spec fn spec_search_report(q: Seq<Seq<char>>, notes: Seq<NoteV>) -> Seq<Seq<char>>
    decreases notes.len(),
{
    if notes.len() == 0 {
        Seq::empty()
    } else {
        let rest = spec_search_report(q, notes.drop_last());
        if spec_any_match(spec_filter_of(q), notes.last()) {
            rest.push(spec_search_line(spec_filter_of(q), notes.last()))
        } else {
            rest
        }
    }
}

/// Run a query over every note and report, for each note that matches at
/// least one attribute, which attributes matched. A note that matches
/// none is left out of the report. Every note's name must end in a
/// non-empty file name.
pub fn search(notes: &Vec<Note>, query: &[String]) -> (out: Vec<String>)
    requires
        forall|i: int|
            0 <= i < notes.deep_view().len() ==> spec_file_stem(
                #[trigger] notes.deep_view()[i].name,
            ) is Some,
    ensures
        out.deep_view() == spec_search_report(query.deep_view(), notes.deep_view()),
{
    let filter = NoteFilter::new(query);
    let ghost nv = notes.deep_view();
    let ghost qv = query.deep_view();
    let mut out: Vec<String> = Vec::new();
    let mut i: usize = 0;
    proof {
        assert(nv.take(0) =~= Seq::<NoteV>::empty());
        assert(out.deep_view() =~= spec_search_report(qv, nv.take(0)));
    }
    while i < notes.len()
        invariant
            nv == notes.deep_view(),
            nv.len() == notes@.len(),
            i <= notes@.len(),
            filter@ == spec_filter_of(qv),
            out.deep_view() == spec_search_report(qv, nv.take(i as int)),
            forall|j: int| 0 <= j < nv.len() ==> spec_file_stem(#[trigger] nv[j].name) is Some,
        decreases notes@.len() - i,
    {
        proof {
            assert(nv[i as int] == notes@[i as int]@);
            assert(spec_file_stem(nv[i as int].name) is Some);
        }
        let note = &notes[i];
        proof {
            assert(note.name@ == nv[i as int].name);
        }
        let m = filter.matches(note);
        proof {
            assert(nv.take(i + 1).drop_last() =~= nv.take(i as int));
            assert(nv.take(i + 1).last() == nv[i as int]);
        }
        if m.title || m.contents || m.tags {
            let mut line = String::new();
            line.append(if m.title {
                "T"
            } else {
                " "
            });
            line.append(if m.tags {
                "t"
            } else {
                " "
            });
            line.append(if m.contents {
                "c"
            } else {
                " "
            });
            line.append(" ");
            let name_part = crate::tags::padded(note.name.as_str(), 60);
            line.append(name_part.as_str());
            proof {
                reveal_strlit("T");
                reveal_strlit("t");
                reveal_strlit("c");
                reveal_strlit(" ");
                assert(line@ =~= spec_search_line(filter@, nv[i as int]));
            }
            let ghost pre = out.deep_view();
            out.push(line);
            proof {
                assert(spec_any_match(spec_filter_of(qv), nv[i as int]));
                assert(out.deep_view() =~= pre.push(
                    spec_search_line(spec_filter_of(qv), nv[i as int]),
                ));
                assert(out.deep_view() =~= spec_search_report(qv, nv.take(i + 1)));
            }
        } else {
            proof {
                assert(!spec_any_match(spec_filter_of(qv), nv[i as int]));
                assert(out.deep_view() =~= spec_search_report(qv, nv.take(i + 1)));
            }
        }
        i += 1;
    }
    proof {
        assert(nv.take(nv.len() as int) =~= nv);
    }
    out
}

/// Search is conjunctive over content words: a query one of whose content
/// words is absent from the text does not match the contents, whatever
/// else it holds.
pub proof fn lemma_search_and_semantics(q: Seq<Seq<char>>, text: Seq<char>, w: Seq<char>)
    requires
        spec_filter_of(q).words.contains(w),
        !is_substring(text, w),
    ensures
        !spec_contents_match(spec_filter_of(q), text),
{
    let f = spec_filter_of(q);
    let i = choose|i: int| 0 <= i < f.words.len() && f.words[i] == w;
    assert(!is_substring(text, f.words[i]));
}

/// A query of one content word that does occur in the text matches the
/// contents.
pub proof fn lemma_single_word_matches(w: Seq<char>, text: Seq<char>)
    requires
        !is_tag_token(w),
        is_substring(text, w),
    ensures
        spec_contents_match(spec_filter_of(seq![w]), text),
{
    let q = seq![w];
    assert(q.drop_last() =~= Seq::<Seq<char>>::empty());
    assert(q.last() == w);
    assert(content_words_of(q) == seq![w]) by {
        assert(content_words_of(Seq::<Seq<char>>::empty()).push(w) =~= seq![w]);
    }
    let f = spec_filter_of(q);
    assert(forall|i: int| 0 <= i < f.words.len() ==> is_substring(text, #[trigger] f.words[i]))
        by {
        assert(f.words[0] == w);
    }
}


/// A note that satisfies at least one attribute is always reported: its
/// line stands in the report.
pub proof fn lemma_search_reports_every_match(q: Seq<Seq<char>>, notes: Seq<NoteV>, j: int)
    requires
        0 <= j < notes.len(),
        spec_any_match(spec_filter_of(q), notes[j]),
    ensures
        spec_search_report(q, notes).contains(spec_search_line(spec_filter_of(q), notes[j])),
    decreases notes.len(),
{
    let f = spec_filter_of(q);
    if j == notes.len() - 1 {
        let rest = spec_search_report(q, notes.drop_last());
        assert(rest.push(spec_search_line(f, notes.last()))[rest.len() as int]
            == spec_search_line(f, notes.last()));
    } else {
        assert(notes.drop_last()[j] == notes[j]);
        lemma_search_reports_every_match(q, notes.drop_last(), j);
        let rest = spec_search_report(q, notes.drop_last());
        let k = choose|k: int| 0 <= k < rest.len() && rest[k] == spec_search_line(f, notes[j]);
        if spec_any_match(f, notes.last()) {
            assert(rest.push(spec_search_line(f, notes.last()))[k] == spec_search_line(
                f,
                notes[j],
            ));
        }
    }
}

/// Every reported line belongs to a note that satisfies at least one
/// attribute: a note whose match-category set is empty is never
/// reported.
pub proof fn lemma_search_reports_only_matches(q: Seq<Seq<char>>, notes: Seq<NoteV>, x: Seq<char>)
    requires
        spec_search_report(q, notes).contains(x),
    ensures
        exists|j: int|
            0 <= j < notes.len() && spec_any_match(spec_filter_of(q), #[trigger] notes[j]) && x
                == spec_search_line(spec_filter_of(q), notes[j]),
    decreases notes.len(),
{
    let f = spec_filter_of(q);
    let rest = spec_search_report(q, notes.drop_last());
    if notes.len() > 0 && spec_any_match(f, notes.last()) && x == spec_search_line(
        f,
        notes.last(),
    ) {
        assert(spec_any_match(f, notes[notes.len() - 1]));
    } else {
        assert(rest.contains(x)) by {
            if notes.len() > 0 && spec_any_match(f, notes.last()) {
                let k = choose|k: int|
                    0 <= k < rest.push(spec_search_line(f, notes.last())).len() && rest.push(
                        spec_search_line(f, notes.last()),
                    )[k] == x;
                assert(rest[k] == x);
            }
        }
        lemma_search_reports_only_matches(q, notes.drop_last(), x);
        let j = choose|j: int|
            0 <= j < notes.drop_last().len() && spec_any_match(
                f,
                #[trigger] notes.drop_last()[j],
            ) && x == spec_search_line(f, notes.drop_last()[j]);
        assert(notes[j] == notes.drop_last()[j]);
        assert(spec_any_match(f, notes[j]) && x == spec_search_line(f, notes[j]));
    }
}

} // verus!
