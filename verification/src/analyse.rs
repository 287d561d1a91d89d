//! Header extraction and the structural measures built on it: a header is a
//! line whose first space-delimited token is a repeated marker character,
//! its depth the length of that token, its title the rest of the line.

use vstd::prelude::*;

verus! {

use vstd::string::StrSliceExecFns;
use vstd::string::StringExecFns;
use crate::paths::{Dialect, spec_dialect_of, dialect_of};
use crate::rank::{EntryV, Score, ScoredNote, rank, spec_rank};
use crate::text::{
    dec_digits, dec_string, lemma_lines_total_len, spec_lines, spec_spaces, spaces, split_lines,
    total_len, trim_spec, trim_substring,
};

/// A note file handed to the analysis functions: its path and its full
/// text, read elsewhere.
pub struct Note {
    pub name: String,
    pub text: String,
}

/// One extracted header: its title text and its nesting depth.
pub struct Header {
    pub title: String,
    pub depth: usize,
}

/// The mathematical value of a `Header`.
pub ghost struct HeaderV {
    pub title: Seq<char>,
    pub depth: nat,
}

impl View for Header {
    type V = HeaderV;

    open spec fn view(&self) -> HeaderV {
        HeaderV { title: self.title@, depth: self.depth as nat }
    }
}

impl DeepView for Header {
    type V = HeaderV;

    open spec fn deep_view(&self) -> HeaderV {
        self.view()
    }
}

/// Length of the first space-delimited token of the line.
pub open spec fn token_len(line: Seq<char>) -> nat
    decreases line.len(),
{
    if line.len() == 0 || line[0] == ' ' {
        0
    } else {
        1 + token_len(line.drop_first())
    }
}

proof fn lemma_token_len_at(line: Seq<char>, k: int)
    requires
        0 <= k <= line.len(),
        forall|i: int| 0 <= i < k ==> line[i] != ' ',
        k == line.len() || line[k] == ' ',
    ensures
        token_len(line) == k,
    decreases k,
{
    if k == 0 {
    } else {
        lemma_token_len_at(line.drop_first(), k - 1);
    }
}

/// The line is a header for marker `m`: its first token is non-empty and
/// consists of `m` alone. A line that merely starts with the marker but
/// runs other characters into the same token is not a header.
pub open spec fn is_header_line(line: Seq<char>, m: char) -> bool {
    token_len(line) >= 1 && forall|i: int| 0 <= i < token_len(line) ==> line[i] == m
}

/// The header extracted from a header line: depth is the marker count,
/// title the rest of the line with surrounding whitespace removed.
pub open spec fn header_of_line(line: Seq<char>, m: char) -> HeaderV {
    HeaderV {
        title: trim_spec(line.subrange(token_len(line) as int, line.len() as int)),
        depth: token_len(line),
    }
}

/// The headers among `lines`, in document order.
pub open spec fn headers_of_lines(lines: Seq<Seq<char>>, m: char) -> Seq<HeaderV>
    decreases lines.len(),
{
    if lines.len() == 0 {
        Seq::empty()
    } else {
        let rest = headers_of_lines(lines.drop_last(), m);
        if is_header_line(lines.last(), m) {
            rest.push(header_of_line(lines.last(), m))
        } else {
            rest
        }
    }
}

/// The ordered header sequence of a whole text.
pub open spec fn spec_headers(text: Seq<char>, m: char) -> Seq<HeaderV> {
    headers_of_lines(spec_lines(text), m)
}

/// Every extracted header has a depth of at least one: a zero-length
/// marker run is never a header.
pub proof fn lemma_headers_wf(lines: Seq<Seq<char>>, m: char)
    ensures
        forall|j: int|
            0 <= j < headers_of_lines(lines, m).len() ==> #[trigger] headers_of_lines(
                lines,
                m,
            )[j].depth >= 1,
    decreases lines.len(),
{
    if lines.len() > 0 {
        lemma_headers_wf(lines.drop_last(), m);
        let rest = headers_of_lines(lines.drop_last(), m);
        if is_header_line(lines.last(), m) {
            assert(headers_of_lines(lines, m) == rest.push(header_of_line(lines.last(), m)));
            assert(forall|j: int|
                0 <= j < rest.len() ==> #[trigger] rest.push(
                    header_of_line(lines.last(), m),
                )[j].depth >= 1);
            assert(rest.push(header_of_line(lines.last(), m)).last().depth >= 1);
        }
    }
}

/// Where the first space-delimited token of the line ends.
fn token_end(line: &str) -> (j: usize)
    ensures
        j == token_len(line@),
        j <= line@.len(),
{
    let len = line.unicode_len();
    let mut j: usize = 0;
    while j < len && line.get_char(j) != ' '
        invariant
            j <= len,
            len == line@.len(),
            forall|i: int| 0 <= i < j ==> line@[i] != ' ',
        decreases len - j,
    {
        j += 1;
    }
    proof {
        lemma_token_len_at(line@, j as int);
    }
    j
}

/// Parse one line as a header, if its first token is the repeated marker.
fn parse_header_line(line: &str, m: char) -> (h: Option<Header>)
    ensures
        match h {
            Some(h) => is_header_line(line@, m) && h@ == header_of_line(line@, m),
            None => !is_header_line(line@, m),
        },
{
    let len = line.unicode_len();
    let tl = token_end(line);
    if tl == 0 {
        return None;
    }
    let mut i: usize = 0;
    while i < tl
        invariant
            tl == token_len(line@),
            1 <= tl <= len,
            len == line@.len(),
            i <= tl,
            forall|i0: int| 0 <= i0 < i ==> line@[i0] == m,
        decreases tl - i,
    {
        if line.get_char(i) != m {
            return None;
        }
        i += 1;
    }
    Some(Header { title: trim_substring(line, tl, len), depth: tl })
}

/// All headers of the text, in document order, under the given dialect.
pub fn get_headers(text: &str, dialect: Dialect) -> (hs: Vec<Header>)
    ensures
        hs.deep_view() == spec_headers(text@, dialect.spec_marker()),
{
    let m = dialect.marker();
    let lines = split_lines(text);
    let mut hs: Vec<Header> = Vec::new();
    let ghost lv = lines.deep_view();
    let mut i: usize = 0;
    proof {
        assert(lv.take(0) =~= Seq::<Seq<char>>::empty());
    }
    while i < lines.len()
        invariant
            lv == lines.deep_view(),
            lv == spec_lines(text@),
            i <= lines.len(),
            lines.len() == lv.len(),
            hs.deep_view() == headers_of_lines(lv.take(i as int), m),
            m == dialect.spec_marker(),
        decreases lines.len() - i,
    {
        proof {
            assert(lv.take(i + 1).drop_last() =~= lv.take(i as int));
            assert(lv.take(i + 1).last() == lv[i as int]);
        }
        match parse_header_line(lines[i].as_str(), m) {
            Some(h) => {
                hs.push(h);
                proof {
                    assert(hs.deep_view() =~= headers_of_lines(lv.take(i + 1), m));
                }
            },
            None => {
                proof {
                    assert(hs.deep_view() =~= headers_of_lines(lv.take(i + 1), m));
                }
            },
        }
        i += 1;
    }
    proof {
        assert(lv.take(lines.len() as int) =~= lv);
    }
    hs
}

/// The marker character for a note's file name. The caller guarantees the
/// extension was pre-filtered to a recognized dialect.
pub fn header_char(name: &str) -> (c: char)
    requires
        spec_dialect_of(name@) is Some,
    ensures
        c == spec_dialect_of(name@)->Some_0.spec_marker(),
{
    dialect_of(name).unwrap().marker()
}

/// The mathematical value of a `Note`.
pub ghost struct NoteV {
    pub name: Seq<char>,
    pub text: Seq<char>,
}

impl View for Note {
    type V = NoteV;

    open spec fn view(&self) -> NoteV {
        NoteV { name: self.name@, text: self.text@ }
    }
}

impl DeepView for Note {
    type V = NoteV;

    open spec fn deep_view(&self) -> NoteV {
        self.view()
    }
}

/// Combined nesting depth of the headers.
pub open spec fn depth_sum(hs: Seq<HeaderV>) -> nat
    decreases hs.len(),
{
    if hs.len() == 0 {
        0
    } else {
        depth_sum(hs.drop_last()) + hs.last().depth
    }
}

proof fn lemma_token_le_len(line: Seq<char>)
    ensures
        token_len(line) <= line.len(),
    decreases line.len(),
{
    if !(line.len() == 0 || line[0] == ' ') {
        lemma_token_le_len(line.drop_first());
    }
}

proof fn lemma_headers_total(lines: Seq<Seq<char>>, m: char)
    ensures
        depth_sum(headers_of_lines(lines, m)) <= total_len(lines),
    decreases lines.len(),
{
    if lines.len() > 0 {
        lemma_headers_total(lines.drop_last(), m);
        if is_header_line(lines.last(), m) {
            lemma_token_le_len(lines.last());
            let rest = headers_of_lines(lines.drop_last(), m);
            let h = header_of_line(lines.last(), m);
            assert(rest.push(h).drop_last() =~= rest);
            assert(depth_sum(rest.push(h)) == depth_sum(rest) + h.depth);
        }
    }
}

/// The header depths of a text never add up to more than its length.
pub proof fn lemma_depth_sum_bound(text: Seq<char>, m: char)
    ensures
        depth_sum(spec_headers(text, m)) <= text.len(),
{
    lemma_headers_total(spec_lines(text), m);
    lemma_lines_total_len(text);
}

proof fn lemma_depth_sum_take(hs: Seq<HeaderV>, i: int)
    requires
        0 <= i <= hs.len(),
    ensures
        depth_sum(hs.take(i)) <= depth_sum(hs),
    decreases hs.len(),
{
    if i == hs.len() {
        assert(hs.take(i) =~= hs);
    } else {
        lemma_depth_sum_take(hs.drop_last(), i);
        assert(hs.drop_last().take(i) =~= hs.take(i));
    }
}

/// How many headers the text has under the given dialect.
pub fn header_count(text: &str, dialect: Dialect) -> (c: usize)
    ensures
        c == spec_headers(text@, dialect.spec_marker()).len(),
{
    let hs = get_headers(text, dialect);
    proof {
        assert(hs.deep_view().len() == hs@.len());
    }
    hs.len()
}

/// The complexity of a text: its mean header depth, as the exact rational
/// (sum of depths) / (number of headers). A headerless text scores 0/0,
/// which the ranking stage reads as zero.
pub fn complexity_score(text: &str, dialect: Dialect) -> (sc: Score)
    ensures
        sc.num == depth_sum(spec_headers(text@, dialect.spec_marker())),
        sc.den == spec_headers(text@, dialect.spec_marker()).len(),
{
    let text_len = text.unicode_len();
    let hs = get_headers(text, dialect);
    let ghost hv = hs.deep_view();
    proof {
        lemma_depth_sum_bound(text@, dialect.spec_marker());
        assert(hv.len() == hs@.len());
        assert(hv.take(0) =~= Seq::<HeaderV>::empty());
    }
    let mut sum: u64 = 0;
    let mut i: usize = 0;
    while i < hs.len()
        invariant
            hv == hs.deep_view(),
            hv.len() == hs@.len(),
            i <= hs@.len(),
            sum == depth_sum(hv.take(i as int)),
            depth_sum(hv) <= text@.len(),
            text@.len() == text_len,
        decreases hs@.len() - i,
    {
        proof {
            lemma_depth_sum_take(hv, i + 1);
            assert(hv.take(i + 1).drop_last() =~= hv.take(i as int));
            assert(hv.take(i + 1).last() == hv[i as int]);
            assert(hv[i as int] == hs@[i as int]@);
        }
        sum = sum + hs[i].depth as u64;
        i += 1;
    }
    proof {
        assert(hv.take(hs@.len() as int) =~= hv);
    }
    Score { num: sum, den: hs.len() as u64 }
}

/// The marker that `spec_dialect_of` assigns to the note's name; only
/// meaningful when the dialect is recognized.
pub open spec fn marker_of_note(n: NoteV) -> char {
    spec_dialect_of(n.name)->Some_0.spec_marker()
}

/// The scored entry the complexity command builds for one note.
pub open spec fn spec_complexity_entry(n: NoteV) -> EntryV {
    EntryV {
        num: depth_sum(spec_headers(n.text, marker_of_note(n))) as int,
        den: spec_headers(n.text, marker_of_note(n)).len() as int,
        name: n.name,
    }
}

/// The scored entries the complexity command builds.
pub open spec fn spec_complexity_entries(notes: Seq<NoteV>) -> Seq<EntryV> {
    Seq::new(notes.len(), |i: int| spec_complexity_entry(notes[i]))
}

/// The scored entry the header-count command builds for one note.
pub open spec fn spec_count_entry(n: NoteV) -> EntryV {
    EntryV {
        num: spec_headers(n.text, marker_of_note(n)).len() as int,
        den: 1,
        name: n.name,
    }
}

/// The scored entries the header-count command builds.
pub open spec fn spec_count_entries(notes: Seq<NoteV>) -> Seq<EntryV> {
    Seq::new(notes.len(), |i: int| spec_count_entry(notes[i]))
}

/// Rank all notes by complexity, ascending (descending when `reverse` is
/// set), keeping the first `n` entries when `n` is given. Every note's
/// name must carry a recognized extension; the file-discovery layer
/// guarantees that.
pub fn note_complexity(notes: &Vec<Note>, n: Option<usize>, reverse: bool) -> (out: Vec<
    ScoredNote,
>)
    requires
        forall|i: int|
            0 <= i < notes.deep_view().len() ==> spec_dialect_of(
                #[trigger] notes.deep_view()[i].name,
            ) is Some,
    ensures
        out.deep_view() == spec_rank(
            spec_complexity_entries(notes.deep_view()),
            match n {
                Some(k) => Some(k as int),
                None => None,
            },
            reverse,
        ),
{
    let ghost nv = notes.deep_view();
    let mut entries: Vec<ScoredNote> = Vec::new();
    let mut i: usize = 0;
    proof {
        assert(entries.deep_view() =~= spec_complexity_entries(nv).take(0));
    }
    while i < notes.len()
        invariant
            nv == notes.deep_view(),
            nv.len() == notes@.len(),
            i <= notes@.len(),
            entries.deep_view() == spec_complexity_entries(nv).take(i as int),
            forall|j: int| 0 <= j < nv.len() ==> spec_dialect_of(#[trigger] nv[j].name) is Some,
        decreases notes@.len() - i,
    {
        let note = &notes[i];
        proof {
            assert(nv[i as int] == notes@[i as int]@);
            assert(note.name@ == nv[i as int].name);
            assert(spec_dialect_of(nv[i as int].name) is Some);
        }
        let d = dialect_of(note.name.as_str()).unwrap();
        let sc = complexity_score(note.text.as_str(), d);
        let entry = ScoredNote { score: sc, name: note.name.clone() };
        proof {
            assert(d == spec_dialect_of(nv[i as int].name)->Some_0);
            assert(d.spec_marker() == marker_of_note(nv[i as int]));
            assert(entry@ == spec_complexity_entry(nv[i as int]));
        }
        let ghost pre_entries = entries.deep_view();
        entries.push(entry);
        proof {
            assert(entries.deep_view() =~= pre_entries.push(entry@));
            assert(pre_entries.push(entry@) =~= spec_complexity_entries(nv).take(i + 1));
        }
        i += 1;
    }
    proof {
        assert(spec_complexity_entries(nv).take(notes@.len() as int) =~= spec_complexity_entries(
            nv,
        ));
    }
    rank(entries, n, reverse)
}

/// Rank all notes by how many headers each has, ascending (descending
/// when `reverse` is set), keeping the first `n` entries when `n` is
/// given. Every note's name must carry a recognized extension.
pub fn note_header_count(notes: &Vec<Note>, n: Option<usize>, reverse: bool) -> (out: Vec<
    ScoredNote,
>)
    requires
        forall|i: int|
            0 <= i < notes.deep_view().len() ==> spec_dialect_of(
                #[trigger] notes.deep_view()[i].name,
            ) is Some,
    ensures
        out.deep_view() == spec_rank(
            spec_count_entries(notes.deep_view()),
            match n {
                Some(k) => Some(k as int),
                None => None,
            },
            reverse,
        ),
{
    let ghost nv = notes.deep_view();
    let mut entries: Vec<ScoredNote> = Vec::new();
    let mut i: usize = 0;
    proof {
        assert(entries.deep_view() =~= spec_count_entries(nv).take(0));
    }
    while i < notes.len()
        invariant
            nv == notes.deep_view(),
            nv.len() == notes@.len(),
            i <= notes@.len(),
            entries.deep_view() == spec_count_entries(nv).take(i as int),
            forall|j: int| 0 <= j < nv.len() ==> spec_dialect_of(#[trigger] nv[j].name) is Some,
        decreases notes@.len() - i,
    {
        let note = &notes[i];
        proof {
            assert(nv[i as int] == notes@[i as int]@);
            assert(note.name@ == nv[i as int].name);
            assert(spec_dialect_of(nv[i as int].name) is Some);
        }
        let d = dialect_of(note.name.as_str()).unwrap();
        let c = header_count(note.text.as_str(), d);
        let entry = ScoredNote { score: Score { num: c as u64, den: 1 }, name: note.name.clone() };
        proof {
            assert(d == spec_dialect_of(nv[i as int].name)->Some_0);
            assert(d.spec_marker() == marker_of_note(nv[i as int]));
            assert(entry@ == spec_count_entry(nv[i as int]));
        }
        let ghost pre_entries = entries.deep_view();
        entries.push(entry);
        proof {
            assert(entries.deep_view() =~= pre_entries.push(entry@));
            assert(pre_entries.push(entry@) =~= spec_count_entries(nv).take(i + 1));
        }
        i += 1;
    }
    proof {
        assert(spec_count_entries(nv).take(notes@.len() as int) =~= spec_count_entries(nv));
    }
    rank(entries, n, reverse)
}

/// The scored entries the size command builds from measured byte counts.
pub open spec fn spec_size_entries(files: Seq<(u64, Seq<char>)>) -> Seq<EntryV> {
    Seq::new(
        files.len(),
        |i: int| EntryV { num: files[i].0 as int, den: 1, name: files[i].1 },
    )
}

/// The ranked entries written back as (bytes, name) pairs.
pub open spec fn spec_entries_to_pairs(s: Seq<EntryV>) -> Seq<(u64, Seq<char>)> {
    Seq::new(s.len(), |i: int| (s[i].num as u64, s[i].name))
}

/// Rank files by size in bytes, ascending (descending when `reverse` is
/// set), keeping the first `n` entries when `n` is given. The byte counts
/// are measured by the caller.
pub fn note_size(files: Vec<(u64, String)>, n: Option<usize>, reverse: bool) -> (out: Vec<
    (u64, String),
>)
    ensures
        out.deep_view() == spec_entries_to_pairs(
            spec_rank(
                spec_size_entries(files.deep_view()),
                match n {
                    Some(k) => Some(k as int),
                    None => None,
                },
                reverse,
            ),
        ),
{
    let ghost fv = files.deep_view();
    let mut entries: Vec<ScoredNote> = Vec::new();
    let mut i: usize = 0;
    proof {
        assert(entries.deep_view() =~= spec_size_entries(fv).take(0));
    }
    while i < files.len()
        invariant
            fv == files.deep_view(),
            fv.len() == files@.len(),
            i <= files@.len(),
            entries.deep_view() == spec_size_entries(fv).take(i as int),
        decreases files@.len() - i,
    {
        proof {
            assert(fv[i as int] == files@[i as int].deep_view());
            assert(fv[i as int].0 == files@[i as int].0);
            assert(fv[i as int].1 == files@[i as int].1@);
        }
        let bytes = files[i].0;
        let name = files[i].1.clone();
        let entry = ScoredNote { score: Score { num: bytes, den: 1 }, name };
        proof {
            assert(entry@ == spec_size_entries(fv)[i as int]);
        }
        let ghost pre_entries = entries.deep_view();
        entries.push(entry);
        proof {
            assert(entries.deep_view() =~= pre_entries.push(entry@));
            assert(pre_entries.push(entry@) =~= spec_size_entries(fv).take(i + 1));
        }
        i += 1;
    }
    proof {
        assert(spec_size_entries(fv).take(files@.len() as int) =~= spec_size_entries(fv));
    }
    let ranked = rank(entries, n, reverse);
    let ghost rv = ranked.deep_view();
    let mut ranked = ranked;
    let mut out: Vec<(u64, String)> = Vec::new();
    let ghost j: int = 0;
    let mut j = Ghost(j);
    proof {
        assert(out.deep_view() =~= spec_entries_to_pairs(rv).take(0));
        assert(ranked.deep_view() =~= rv.skip(0));
    }
    while ranked.len() > 0
        invariant
            0 <= j@ <= rv.len(),
            ranked.deep_view() == rv.skip(j@),
            out.deep_view() == spec_entries_to_pairs(rv).take(j@),
            forall|t: int| 0 <= t < rv.len() ==> 0 <= #[trigger] rv[t].num <= u64::MAX,
        decreases rv.len() - j@,
    {
        let ghost pre = ranked.deep_view();
        proof {
            assert(pre.len() == ranked@.len());
            assert(j@ < rv.len());
        }
        let e = ranked.remove(0);
        proof {
            assert(pre[0] == rv.skip(j@)[0]);
            assert(rv.subrange(j@, rv.len() as int)[0] == rv[j@ + 0]);
            assert(e@ == rv[j@]);
            assert(ranked.deep_view() =~= pre.drop_first());
            assert(pre.drop_first() =~= rv.skip(j@ + 1));
        }
        let pair = (e.score.num, e.name);
        proof {
            assert(pair.deep_view() == spec_entries_to_pairs(rv)[j@]);
        }
        let ghost pre_pairs = out.deep_view();
        out.push(pair);
        proof {
            assert(out.deep_view() =~= pre_pairs.push(pair.deep_view()));
            assert(pre_pairs.push(pair.deep_view()) =~= spec_entries_to_pairs(rv).take(j@ + 1));
            j@ = j@ + 1;
        }
    }
    proof {
        assert(spec_entries_to_pairs(rv).take(rv.len() as int) =~= spec_entries_to_pairs(rv));
    }
    out
}

proof fn lemma_depth_sum_each(hs: Seq<HeaderV>)
    ensures
        forall|i: int| 0 <= i < hs.len() ==> #[trigger] hs[i].depth <= depth_sum(hs),
    decreases hs.len(),
{
    if hs.len() > 0 {
        lemma_depth_sum_each(hs.drop_last());
        assert forall|i: int| 0 <= i < hs.len() implies #[trigger] hs[i].depth <= depth_sum(hs) by {
            if i < hs.len() - 1 {
                assert(hs.drop_last()[i] == hs[i]);
                assert(hs.drop_last()[i].depth <= depth_sum(hs.drop_last()));
            }
        }
    }
}

/// One rendered outline line: two spaces of indent per depth level, a
/// branch glyph (a tee when the next header sits at the same depth, an
/// ell when the outline continues shallower), then `H<depth>: <title>`.
pub open spec fn outline_line(h: HeaderV, next_depth: nat) -> Seq<char> {
    spec_spaces(2 * h.depth) + (if next_depth == h.depth {
        seq!['\u{251c}']
    } else {
        seq!['\u{2514}']
    }) + seq![' ', 'H'] + dec_digits(h.depth as int) + seq![':', ' '] + h.title
}

/// The rendered outline of a header sequence, one line per header, the
/// last header classified against a synthetic trailing header of depth
/// zero.
pub open spec fn spec_outline(hs: Seq<HeaderV>) -> Seq<Seq<char>> {
    Seq::new(
        hs.len(),
        |i: int|
            outline_line(
                hs[i],
                if i == hs.len() - 1 {
                    0
                } else {
                    hs[i + 1].depth
                },
            ),
    )
}

/// Render the outline of an extracted header sequence.
pub fn outline(headers: &Vec<Header>) -> (lines: Vec<String>)
    requires
        forall|i: int|
            0 <= i < headers.deep_view().len() ==> #[trigger] headers.deep_view()[i].depth
                <= usize::MAX / 2,
    ensures
        lines.deep_view() == spec_outline(headers.deep_view()),
{
    let ghost hv = headers.deep_view();
    let mut lines: Vec<String> = Vec::new();
    let mut i: usize = 0;
    proof {
        assert(lines.deep_view() =~= spec_outline(hv).take(0));
    }
    while i < headers.len()
        invariant
            hv == headers.deep_view(),
            hv.len() == headers@.len(),
            i <= headers@.len(),
            lines.deep_view() == spec_outline(hv).take(i as int),
            forall|t: int| 0 <= t < hv.len() ==> #[trigger] hv[t].depth <= usize::MAX / 2,
        decreases headers@.len() - i,
    {
        proof {
            assert(hv[i as int] == headers@[i as int]@);
        }
        let depth = headers[i].depth;
        proof {
            assert(hv[i as int].depth <= usize::MAX / 2);
            assert(depth == hv[i as int].depth);
        }
        let next_depth: usize = if i + 1 < headers.len() {
            proof {
                assert(hv[i + 1] == headers@[i + 1]@);
            }
            headers[i + 1].depth
        } else {
            0
        };
        let ghost nd: nat = if i as int == hv.len() - 1 {
            0
        } else {
            hv[i + 1].depth
        };
        let mut line = spaces(2 * depth);
        if next_depth == depth {
            line.append("\u{251c}");
        } else {
            line.append("\u{2514}");
        }
        line.append(" H");
        let digits = dec_string(depth);
        line.append(digits.as_str());
        line.append(": ");
        line.append(headers[i].title.as_str());
        proof {
            reveal_strlit("\u{251c}");
            reveal_strlit("\u{2514}");
            reveal_strlit(" H");
            reveal_strlit(": ");
            assert(line@ =~= outline_line(hv[i as int], nd));
        }
        let ghost pre_lines = lines.deep_view();
        lines.push(line);
        proof {
            assert(lines.deep_view() =~= pre_lines.push(outline_line(hv[i as int], nd)));
            assert(pre_lines.push(outline_line(hv[i as int], nd)) =~= spec_outline(hv).take(
                i + 1,
            ));
        }
        i += 1;
    }
    proof {
        assert(spec_outline(hv).take(hv.len() as int) =~= spec_outline(hv));
    }
    lines
}

/// The table-of-contents block for one note: the file name, then the
/// rendered outline of its headers. The note's name must carry a
/// recognized extension, and the text must leave room for the two-space
/// indentation arithmetic.
pub fn note_structure(note: &Note) -> (lines: Vec<String>)
    requires
        spec_dialect_of(note.name@) is Some,
        note.text@.len() <= usize::MAX / 2,
    ensures
        lines.deep_view() == seq![note.name@] + spec_outline(
            spec_headers(note.text@, marker_of_note(note@)),
        ),
{
    let d = dialect_of(note.name.as_str()).unwrap();
    let hs = get_headers(note.text.as_str(), d);
    proof {
        lemma_depth_sum_bound(note.text@, d.spec_marker());
        lemma_depth_sum_each(hs.deep_view());
    }
    let mut lines: Vec<String> = Vec::new();
    lines.push(note.name.clone());
    let mut rest = outline(&hs);
    let ghost rv = rest.deep_view();
    lines.append(&mut rest);
    proof {
        assert(lines.deep_view() =~= seq![note.name@] + rv);
    }
    lines
}

/// A note's reported header count is exactly the length of its extracted
/// header sequence.
pub proof fn lemma_count_is_extract_length(n: NoteV)
    ensures
        spec_count_entry(n).num == spec_headers(n.text, marker_of_note(n)).len(),
{
}

/// A note's complexity score is exactly the mean of its header depths,
/// kept as the rational (sum of depths) / (number of headers); a
/// headerless note scores zero over zero, which the ranking stage reads
/// as zero — always a finite value.
pub proof fn lemma_complexity_is_mean_depth(n: NoteV)
    ensures
        spec_complexity_entry(n).num == depth_sum(spec_headers(n.text, marker_of_note(n))),
        spec_complexity_entry(n).den == spec_headers(n.text, marker_of_note(n)).len(),
{
}


/// A note's scores depend on that note alone: the same note scores the
/// same wherever it stands in the input list, so reordering the list can
/// move a file in the report but never change its score.
pub proof fn lemma_score_is_per_note(notes1: Seq<NoteV>, notes2: Seq<NoteV>, i: int, j: int)
    requires
        0 <= i < notes1.len(),
        0 <= j < notes2.len(),
        notes1[i] == notes2[j],
    ensures
        spec_complexity_entries(notes1)[i] == spec_complexity_entries(notes2)[j],
        spec_count_entries(notes1)[i] == spec_count_entries(notes2)[j],
{
}

} // verus!
