//! Tag queries: which tags a file carries is read by the tag-extraction
//! collaborator; the query logic over those tag sets is verified here. A
//! query with no required tags matches nothing.

use vstd::prelude::*;

verus! {

use vstd::string::StrSliceExecFns;
use vstd::string::StringExecFns;
use crate::analyse::{Note, NoteV};
use crate::text::{spec_spaces, spaces};

/// The tag set that the tag-extraction collaborator reads out of a file's
/// text, in its reported order: a function of the text alone.
pub uninterp spec fn tags_of(text: Seq<char>) -> Seq<Seq<char>>;

/// Relies on tagsearch::utility::get_tags_from_string: it scans the given
/// text for words of the form `@tag` and returns their sorted set, so the
/// result depends on the text alone, and a text with no characters yields
/// no tags. Hierarchical tags come out with their segments joined by `/`.
#[verifier::external_body]
pub fn extract_tags(text: &str) -> (tags: Vec<String>)
    ensures
        tags.deep_view() == tags_of(text@),
        text@.len() == 0 ==> tags.deep_view().len() == 0,
{
    tagsearch::utility::get_tags_from_string(text).into_iter().map(|t| t.join("/")).collect()
}

/// A tag query: tags a file must have and tags it must not have.
pub struct TagQuery {
    pub required: Vec<String>,
    pub forbidden: Vec<String>,
}

/// The mathematical value of a `TagQuery`.
pub ghost struct TagQueryV {
    pub required: Seq<Seq<char>>,
    pub forbidden: Seq<Seq<char>>,
}

impl View for TagQuery {
    type V = TagQueryV;

    open spec fn view(&self) -> TagQueryV {
        TagQueryV { required: self.required.deep_view(), forbidden: self.forbidden.deep_view() }
    }
}

/// The query matches a tag set: there is at least one required tag, every
/// required tag is present, and no forbidden tag is. A query with an
/// empty required set matches nothing.
pub open spec fn spec_tag_match(q: TagQueryV, tags: Seq<Seq<char>>) -> bool {
    &&& q.required.len() > 0
    &&& forall|i: int| 0 <= i < q.required.len() ==> tags.contains(#[trigger] q.required[i])
    &&& forall|i: int| 0 <= i < q.forbidden.len() ==> !tags.contains(#[trigger] q.forbidden[i])
}

/// Whether `w` occurs in `v`, by character-for-character string equality.
pub fn vec_contains_string(v: &Vec<String>, w: &String) -> (r: bool)
    ensures
        r == v.deep_view().contains(w@),
{
    let mut i: usize = 0;
    while i < v.len()
        invariant
            i <= v@.len(),
            forall|j: int| 0 <= j < i ==> #[trigger] v.deep_view()[j] != w@,
        decreases v@.len() - i,
    {
        if v[i].eq(w) {
            proof {
                assert(v.deep_view()[i as int] == w@);
            }
            return true;
        }
        i += 1;
    }
    proof {
        assert(forall|j: int| 0 <= j < v.deep_view().len() ==> #[trigger] v.deep_view()[j] != w@);
    }
    false
}

impl TagQuery {
    /// Evaluate the query against one file's tag set.
    pub fn matches(&self, tags: &Vec<String>) -> (r: bool)
        ensures
            r == spec_tag_match(self@, tags.deep_view()),
    {
        if self.required.len() == 0 {
            return false;
        }
        let mut i: usize = 0;
        while i < self.required.len()
            invariant
                i <= self.required@.len(),
                forall|j: int|
                    0 <= j < i ==> tags.deep_view().contains(#[trigger] self@.required[j]),
            decreases self.required@.len() - i,
        {
            if !vec_contains_string(tags, &self.required[i]) {
                proof {
                    assert(!tags.deep_view().contains(self@.required[i as int]));
                }
                return false;
            }
            i += 1;
        }
        let mut i: usize = 0;
        while i < self.forbidden.len()
            invariant
                i <= self.forbidden@.len(),
                forall|j: int|
                    0 <= j < i ==> !tags.deep_view().contains(#[trigger] self@.forbidden[j]),
                forall|j: int|
                    0 <= j < self@.required.len() ==> tags.deep_view().contains(
                        #[trigger] self@.required[j],
                    ),
                self@.required.len() > 0,
            decreases self.forbidden@.len() - i,
        {
            if vec_contains_string(tags, &self.forbidden[i]) {
                proof {
                    assert(tags.deep_view().contains(self@.forbidden[i as int]));
                }
                return false;
            }
            i += 1;
        }
        true
    }
}

/// The tag list as displayed: each tag prefixed with `@`, the entries
/// joined with a comma and a space.
pub open spec fn spec_tag_list(tags: Seq<Seq<char>>) -> Seq<char>
    decreases tags.len(),
{
    if tags.len() == 0 {
        Seq::empty()
    } else if tags.len() == 1 {
        seq!['@'] + tags[0]
    } else {
        spec_tag_list(tags.drop_last()) + seq![',', ' ', '@'] + tags.last()
    }
}

/// Render the displayed tag list.
pub fn tag_list(tags: &Vec<String>) -> (r: String)
    ensures
        r@ == spec_tag_list(tags.deep_view()),
{
    let ghost tv = tags.deep_view();
    let mut r = String::new();
    let mut i: usize = 0;
    proof {
        assert(tv.take(0) =~= Seq::<Seq<char>>::empty());
    }
    while i < tags.len()
        invariant
            tv == tags.deep_view(),
            tv.len() == tags@.len(),
            i <= tags@.len(),
            r@ == spec_tag_list(tv.take(i as int)),
        decreases tags@.len() - i,
    {
        if i == 0 {
            r.append("@");
        } else {
            r.append(", @");
        }
        r.append(tags[i].as_str());
        proof {
            reveal_strlit("@");
            reveal_strlit(", @");
            assert(tv.take(i + 1).drop_last() =~= tv.take(i as int));
            assert(tv.take(i + 1).last() == tv[i as int]);
            assert(tv[i as int] == tags@[i as int]@);
            if i == 0 {
                assert(tv.take(1)[0] == tv[0]);
                assert(r@ =~= spec_tag_list(tv.take(1)));
            } else {
                assert(r@ =~= spec_tag_list(tv.take(i + 1)));
            }
        }
        i += 1;
    }
    proof {
        assert(tv.take(tags@.len() as int) =~= tv);
    }
    r
}

/// A name padded with spaces to the given width, as the reports align
/// their columns; a longer name is kept whole.
pub open spec fn spec_padded(name: Seq<char>, width: nat) -> Seq<char> {
    name + spec_spaces(if name.len() >= width {
        0
    } else {
        (width - name.len()) as nat
    })
}

/// Pad a name with spaces to the given width.
pub fn padded(name: &str, width: usize) -> (r: String)
    ensures
        r@ == spec_padded(name@, width as nat),
{
    let len = name.unicode_len();
    let mut r = String::from_str(name);
    if len >= width {
        proof {
            assert(r@ =~= spec_padded(name@, width as nat));
        }
        return r;
    }
    let fill = spaces(width - len);
    r.append(fill.as_str());
    proof {
        assert(r@ =~= spec_padded(name@, width as nat));
    }
    r
}

/// The report line for one tagged file: the name padded to forty
/// characters, a space, then its displayed tag list.
pub open spec fn spec_tag_line(name: Seq<char>, tags: Seq<Seq<char>>) -> Seq<char> {
    spec_padded(name, 40) + seq![' '] + spec_tag_list(tags)
}

/// The lines of the tag report: one line per note whose tag set is
/// non-empty and matches the query, in input order.
pub open spec fn spec_tag_report(q: TagQueryV, notes: Seq<NoteV>) -> Seq<Seq<char>>
    decreases notes.len(),
{
    if notes.len() == 0 {
        Seq::empty()
    } else {
        let rest = spec_tag_report(q, notes.drop_last());
        let tags = tags_of(notes.last().text);
        if tags.len() > 0 && spec_tag_match(q, tags) {
            rest.push(spec_tag_line(notes.last().name, tags))
        } else {
            rest
        }
    }
}

/// Report every note whose tag set is non-empty and matches the query:
/// its name and its tags, one line per note, in input order.
pub fn display_tags_for_each(query: &TagQuery, notes: &Vec<Note>) -> (out: Vec<String>)
    ensures
        out.deep_view() == spec_tag_report(query@, notes.deep_view()),
{
    let ghost nv = notes.deep_view();
    let mut out: Vec<String> = Vec::new();
    let mut i: usize = 0;
    proof {
        assert(nv.take(0) =~= Seq::<NoteV>::empty());
        assert(out.deep_view() =~= spec_tag_report(query@, nv.take(0)));
    }
    while i < notes.len()
        invariant
            nv == notes.deep_view(),
            nv.len() == notes@.len(),
            i <= notes@.len(),
            out.deep_view() == spec_tag_report(query@, nv.take(i as int)),
        decreases notes@.len() - i,
    {
        proof {
            assert(nv[i as int] == notes@[i as int]@);
            assert(nv.take(i + 1).drop_last() =~= nv.take(i as int));
            assert(nv.take(i + 1).last() == nv[i as int]);
        }
        let note = &notes[i];
        let tags = extract_tags(note.text.as_str());
        if tags.len() > 0 && query.matches(&tags) {
            proof {
                assert(tags.deep_view().len() == tags@.len());
            }
            let mut line = padded(note.name.as_str(), 40);
            line.append(" ");
            let list = tag_list(&tags);
            line.append(list.as_str());
            proof {
                reveal_strlit(" ");
                assert(line@ =~= spec_tag_line(nv[i as int].name, tags_of(nv[i as int].text)));
            }
            let ghost pre = out.deep_view();
            out.push(line);
            proof {
                assert(out.deep_view() =~= pre.push(
                    spec_tag_line(nv[i as int].name, tags_of(nv[i as int].text)),
                ));
                assert(out.deep_view() =~= spec_tag_report(query@, nv.take(i + 1)));
            }
        } else {
            proof {
                assert(tags.deep_view().len() == tags@.len());
                assert(out.deep_view() =~= spec_tag_report(query@, nv.take(i + 1)));
            }
        }
        i += 1;
    }
    proof {
        assert(nv.take(notes@.len() as int) =~= nv);
    }
    out
}

/// The names of the notes whose tag set is empty, in input order.
pub open spec fn spec_untagged(notes: Seq<NoteV>) -> Seq<Seq<char>>
    decreases notes.len(),
{
    if notes.len() == 0 {
        Seq::empty()
    } else {
        let rest = spec_untagged(notes.drop_last());
        if tags_of(notes.last().text).len() == 0 {
            rest.push(notes.last().name)
        } else {
            rest
        }
    }
}

/// Report every note that carries no tags at all.
pub fn display_untagged_files(notes: &Vec<Note>) -> (out: Vec<String>)
    ensures
        out.deep_view() == spec_untagged(notes.deep_view()),
{
    let ghost nv = notes.deep_view();
    let mut out: Vec<String> = Vec::new();
    let mut i: usize = 0;
    proof {
        assert(nv.take(0) =~= Seq::<NoteV>::empty());
        assert(out.deep_view() =~= spec_untagged(nv.take(0)));
    }
    while i < notes.len()
        invariant
            nv == notes.deep_view(),
            nv.len() == notes@.len(),
            i <= notes@.len(),
            out.deep_view() == spec_untagged(nv.take(i as int)),
        decreases notes@.len() - i,
    {
        proof {
            assert(nv[i as int] == notes@[i as int]@);
            assert(nv.take(i + 1).drop_last() =~= nv.take(i as int));
            assert(nv.take(i + 1).last() == nv[i as int]);
        }
        let note = &notes[i];
        let tags = extract_tags(note.text.as_str());
        if tags.len() == 0 {
            proof {
                assert(tags.deep_view().len() == tags@.len());
            }
            let ghost pre = out.deep_view();
            out.push(note.name.clone());
            proof {
                assert(out.deep_view() =~= pre.push(nv[i as int].name));
                assert(out.deep_view() =~= spec_untagged(nv.take(i + 1)));
            }
        } else {
            proof {
                assert(tags.deep_view().len() == tags@.len());
                assert(out.deep_view() =~= spec_untagged(nv.take(i + 1)));
            }
        }
        i += 1;
    }
    proof {
        assert(nv.take(notes@.len() as int) =~= nv);
    }
    out
}

/// Tag round trip: a file tagged with exactly `a` and `b` matches a query
/// requiring `a`, and one requiring both `a` and `b`, but not one that
/// also requires a third tag `c` the file lacks; and such a file can
/// never be reported untagged, since its tag set is not empty.
pub proof fn lemma_tag_round_trip(a: Seq<char>, b: Seq<char>, c: Seq<char>)
    requires
        a != c,
        b != c,
    ensures
        spec_tag_match(TagQueryV { required: seq![a], forbidden: Seq::empty() }, seq![a, b]),
        spec_tag_match(TagQueryV { required: seq![a, b], forbidden: Seq::empty() }, seq![a, b]),
        !spec_tag_match(TagQueryV { required: seq![a, c], forbidden: Seq::empty() }, seq![a, b]),
        seq![a, b].len() != 0,
{
    let tags = seq![a, b];
    assert(tags[0] == a);
    assert(tags[1] == b);
    assert(tags.contains(a));
    assert(tags.contains(b));
    assert(!tags.contains(c)) by {
        assert(forall|i: int| 0 <= i < tags.len() ==> tags[i] != c);
    }
    let q1 = TagQueryV { required: seq![a], forbidden: Seq::empty() };
    assert(forall|i: int| 0 <= i < q1.required.len() ==> tags.contains(#[trigger] q1.required[i]))
        by {
        assert(q1.required[0] == a);
    }
    let q2 = TagQueryV { required: seq![a, b], forbidden: Seq::empty() };
    assert(forall|i: int| 0 <= i < q2.required.len() ==> tags.contains(#[trigger] q2.required[i]))
        by {
        assert(q2.required[0] == a);
        assert(q2.required[1] == b);
    }
    let q3 = TagQueryV { required: seq![a, c], forbidden: Seq::empty() };
    assert(q3.required[1] == c);
    assert(!tags.contains(q3.required[1]));
}

/// A name can appear in the untagged report only because some note with
/// that name has an empty tag set.
pub proof fn lemma_untagged_sound(notes: Seq<NoteV>, x: Seq<char>)
    requires
        spec_untagged(notes).contains(x),
    ensures
        exists|j: int|
            0 <= j < notes.len() && #[trigger] notes[j].name == x && tags_of(
                notes[j].text,
            ).len() == 0,
    decreases notes.len(),
{
    let rest = spec_untagged(notes.drop_last());
    if notes.len() > 0 && tags_of(notes.last().text).len() == 0 && x == notes.last().name {
        assert(notes[notes.len() - 1].name == x);
    } else {
        assert(rest.contains(x)) by {
            if notes.len() > 0 && tags_of(notes.last().text).len() == 0 {
                let k = choose|k: int|
                    0 <= k < rest.push(notes.last().name).len() && rest.push(notes.last().name)[k]
                        == x;
                assert(rest[k] == x);
            }
        }
        lemma_untagged_sound(notes.drop_last(), x);
        let j = choose|j: int|
            0 <= j < notes.drop_last().len() && #[trigger] notes.drop_last()[j].name == x
                && tags_of(notes.drop_last()[j].text).len() == 0;
        assert(notes[j].name == x && tags_of(notes[j].text).len() == 0);
    }
}

/// A note whose tag set is empty always appears in the untagged report.
pub proof fn lemma_untagged_complete(notes: Seq<NoteV>, j: int)
    requires
        0 <= j < notes.len(),
        tags_of(notes[j].text).len() == 0,
    ensures
        spec_untagged(notes).contains(notes[j].name),
    decreases notes.len(),
{
    if j == notes.len() - 1 {
        let rest = spec_untagged(notes.drop_last());
        assert(rest.push(notes.last().name)[rest.len() as int] == notes.last().name);
    } else {
        assert(notes.drop_last()[j] == notes[j]);
        lemma_untagged_complete(notes.drop_last(), j);
        let rest = spec_untagged(notes.drop_last());
        let k = choose|k: int| 0 <= k < rest.len() && rest[k] == notes[j].name;
        if tags_of(notes.last().text).len() == 0 {
            assert(rest.push(notes.last().name)[k] == notes[j].name);
        }
    }
}

} // verus!
