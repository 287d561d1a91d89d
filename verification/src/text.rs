//! Character-sequence utilities shared by the analysis and search modules:
//! substring testing, whitespace trimming, line splitting, and the small
//! rendering helpers (repeated spaces, decimal digits).

use vstd::prelude::*;

verus! {

use vstd::string::StrSliceExecFns;

/// `needle` occurs contiguously somewhere inside `hay`.
pub open spec fn is_substring(hay: Seq<char>, needle: Seq<char>) -> bool {
    exists|k: int|
        0 <= k <= hay.len() - needle.len() && #[trigger] hay.subrange(k, k + needle.len() as int)
            == needle
}

/// Literal substring search, character by character.
pub fn str_contains(hay: &str, needle: &str) -> (r: bool)
    ensures
        r == is_substring(hay@, needle@),
{
    let hay_len = hay.unicode_len();
    let needle_len = needle.unicode_len();
    if needle_len > hay_len {
        assert(!is_substring(hay@, needle@));
        return false;
    }
    if needle_len == 0 {
        assert(is_substring(hay@, needle@)) by {
            assert(hay@.subrange(0, 0 + needle@.len() as int) =~= needle@);
        }
        return true;
    }
    let mut k: usize = 0;
    while k <= hay_len - needle_len
        invariant
            1 <= needle_len <= hay_len,
            hay_len == hay@.len(),
            needle_len == needle@.len(),
            k <= hay_len - needle_len + 1,
            forall|k0: int|
                0 <= k0 < k ==> #[trigger] hay@.subrange(k0, k0 + needle@.len() as int)
                    != needle@,
        decreases hay_len - needle_len + 1 - k,
    {
        let mut j: usize = 0;
        let mut mismatch = false;
        while j < needle_len && !mismatch
            invariant
                needle_len <= hay_len,
                hay_len == hay@.len(),
                needle_len == needle@.len(),
                k <= hay_len - needle_len,
                j <= needle_len,
                !mismatch ==> forall|j0: int| 0 <= j0 < j ==> hay@[k + j0] == #[trigger] needle@[j0],
                mismatch ==> hay@.subrange(k as int, k + needle@.len() as int) != needle@,
            decreases needle_len - j + (if mismatch { 0int } else { 1int }),
        {
            if hay.get_char(k + j) != needle.get_char(j) {
                assert(hay@.subrange(k as int, k + needle@.len() as int)[j as int] != needle@[j as int]);
                mismatch = true;
            } else {
                j += 1;
            }
        }
        if !mismatch {
            assert(hay@.subrange(k as int, k + needle@.len() as int) =~= needle@);
            return true;
        }
        k += 1;
    }
    assert(forall|k0: int|
        0 <= k0 <= hay@.len() - needle@.len() ==> #[trigger] hay@.subrange(
            k0,
            k0 + needle@.len() as int,
        ) != needle@);
    false
}

/// The whitespace characters that header-title trimming removes.
pub open spec fn is_wsp(c: char) -> bool {
    c == ' ' || c == '\t' || c == '\r' || c == '\n'
}

/// Executable form of `is_wsp`.
fn is_wsp_char(c: char) -> (r: bool)
    ensures
        r == is_wsp(c),
{
    c == ' ' || c == '\t' || c == '\r' || c == '\n'
}

/// `s` with its leading whitespace removed.
pub open spec fn trim_start_spec(s: Seq<char>) -> Seq<char>
    decreases s.len(),
{
    if s.len() > 0 && is_wsp(s[0]) {
        trim_start_spec(s.drop_first())
    } else {
        s
    }
}

/// `s` with its trailing whitespace removed.
pub open spec fn trim_end_spec(s: Seq<char>) -> Seq<char>
    decreases s.len(),
{
    if s.len() > 0 && is_wsp(s.last()) {
        trim_end_spec(s.drop_last())
    } else {
        s
    }
}

/// `s` with whitespace removed from both ends.
pub open spec fn trim_spec(s: Seq<char>) -> Seq<char> {
    trim_end_spec(trim_start_spec(s))
}

proof fn lemma_trim_start_at(s: Seq<char>, k: int)
    requires
        0 <= k <= s.len(),
        forall|i: int| 0 <= i < k ==> is_wsp(#[trigger] s[i]),
        k == s.len() || !is_wsp(s[k]),
    ensures
        trim_start_spec(s) == s.subrange(k, s.len() as int),
    decreases k,
{
    if k == 0 {
        assert(s.subrange(0, s.len() as int) =~= s);
    } else {
        lemma_trim_start_at(s.drop_first(), k - 1);
        assert(s.drop_first().subrange(k - 1, s.drop_first().len() as int) =~= s.subrange(
            k,
            s.len() as int,
        ));
    }
}

proof fn lemma_trim_end_at(s: Seq<char>, h: int)
    requires
        0 <= h <= s.len(),
        forall|i: int| h <= i < s.len() ==> is_wsp(#[trigger] s[i]),
        h == 0 || !is_wsp(s[h - 1]),
    ensures
        trim_end_spec(s) == s.subrange(0, h),
    decreases s.len() - h,
{
    if h == s.len() {
        assert(s.subrange(0, h) =~= s);
    } else {
        assert(is_wsp(s[s.len() - 1]));
        lemma_trim_end_at(s.drop_last(), h);
        assert(s.drop_last().subrange(0, h) =~= s.subrange(0, h));
    }
}

/// Copy of `s[from..to]` with surrounding whitespace removed, the way a
/// header title is cut out of its line.
pub fn trim_substring(s: &str, from: usize, to: usize) -> (r: String)
    requires
        from <= to <= s@.len(),
    ensures
        r@ == trim_spec(s@.subrange(from as int, to as int)),
{
    let ghost sub = s@.subrange(from as int, to as int);
    let mut lo = from;
    while lo < to && is_wsp_char(s.get_char(lo))
        invariant
            from <= lo <= to <= s@.len(),
            forall|i: int| from <= i < lo ==> is_wsp(#[trigger] s@[i]),
        decreases to - lo,
    {
        lo += 1;
    }
    let mut hi = to;
    while hi > lo && is_wsp_char(s.get_char(hi - 1))
        invariant
            from <= lo <= hi <= to <= s@.len(),
            forall|i: int| hi <= i < to ==> is_wsp(#[trigger] s@[i]),
        decreases hi - lo,
    {
        hi -= 1;
    }
    proof {
        assert(forall|i: int| 0 <= i < lo - from ==> is_wsp(#[trigger] sub[i]));
        assert(lo - from == sub.len() || !is_wsp(sub[lo - from]));
        lemma_trim_start_at(sub, lo - from);
        let started = sub.subrange(lo - from, sub.len() as int);
        assert(forall|i: int| hi - lo <= i < started.len() ==> is_wsp(#[trigger] started[i]));
        assert(hi - lo == 0 || !is_wsp(started[hi - lo - 1]));
        lemma_trim_end_at(started, hi - lo);
        assert(started.subrange(0, hi - lo) =~= s@.subrange(lo as int, hi as int));
    }
    let cut = s.substring_char(lo, hi);
    String::from_str(cut)
}

/// The parts of `s` between occurrences of the separator `c`, in order.
/// Splitting the empty sequence gives one empty part, as `str::split` does.
pub open spec fn spec_split(s: Seq<char>, c: char) -> Seq<Seq<char>>
    decreases s.len(),
{
    if s.len() == 0 {
        seq![Seq::<char>::empty()]
    } else if s.last() == c {
        spec_split(s.drop_last(), c).push(Seq::<char>::empty())
    } else {
        let r = spec_split(s.drop_last(), c);
        r.update(r.len() - 1, r.last().push(s.last()))
    }
}

pub proof fn lemma_split_nonempty(s: Seq<char>, c: char)
    ensures
        spec_split(s, c).len() >= 1,
    decreases s.len(),
{
    if s.len() > 0 {
        lemma_split_nonempty(s.drop_last(), c);
    }
}

/// One trailing carriage return removed, as `str::lines` does before a
/// line feed.
pub open spec fn strip_cr(line: Seq<char>) -> Seq<char> {
    if line.len() > 0 && line.last() == '\r' {
        line.drop_last()
    } else {
        line
    }
}

/// The lines of `s`, in document order: split at line feeds, each part
/// followed by a line feed losing one trailing carriage return, and no
/// empty final line when the text ends with a line feed.
pub open spec fn spec_lines(s: Seq<char>) -> Seq<Seq<char>> {
    let parts = spec_split(s, '\n');
    let cut = Seq::new(
        parts.len(),
        |i: int|
            if i < parts.len() - 1 {
                strip_cr(parts[i])
            } else {
                parts[i]
            },
    );
    if s.len() == 0 {
        Seq::empty()
    } else if s.last() == '\n' {
        cut.drop_last()
    } else {
        cut
    }
}

/// The lines of `text`, in document order.
pub fn split_lines(text: &str) -> (lines: Vec<String>)
    ensures
        lines.deep_view() == spec_lines(text@),
{
    let len = text.unicode_len();
    let mut lines: Vec<String> = Vec::new();
    let ghost raw: Seq<Seq<char>> = Seq::empty();
    let mut raw = Ghost(raw);
    let mut start: usize = 0;
    let mut i: usize = 0;
    proof {
        assert(text@.subrange(0, 0) =~= Seq::<char>::empty());
        assert(spec_split(text@.subrange(0, 0), '\n') =~= raw@.push(text@.subrange(0, 0)));
    }
    while i < len
        invariant
            text@.len() == len,
            0 <= start <= i <= len,
            spec_split(text@.subrange(0, i as int), '\n') == raw@.push(
                text@.subrange(start as int, i as int),
            ),
            lines.deep_view().len() == raw@.len(),
            forall|p: int| 0 <= p < raw@.len() ==> lines.deep_view()[p] == strip_cr(#[trigger] raw@[p]),
            start > 0 ==> text@[start - 1] == '\n',
            forall|q: int| start <= q < i ==> text@[q] != '\n',
        decreases len - i,
    {
        let c = text.get_char(i);
        proof {
            assert(text@.subrange(0, i + 1).drop_last() =~= text@.subrange(0, i as int));
        }
        if c == '\n' {
            let cut_end = if i > start && text.get_char(i - 1) == '\r' {
                i - 1
            } else {
                i
            };
            let line = String::from_str(text.substring_char(start, cut_end));
            proof {
                assert(strip_cr(text@.subrange(start as int, i as int)) =~= text@.subrange(
                    start as int,
                    cut_end as int,
                ));
                assert(spec_split(text@.subrange(0, i + 1), '\n') == raw@.push(
                    text@.subrange(start as int, i as int),
                ).push(Seq::<char>::empty()));
            }
            lines.push(line);
            proof {
                raw@ = raw@.push(text@.subrange(start as int, i as int));
            }
            start = i + 1;
            proof {
                assert(text@.subrange(start as int, i + 1) =~= Seq::<char>::empty());
            }
        } else {
            proof {
                let r = raw@.push(text@.subrange(start as int, i as int));
                assert(spec_split(text@.subrange(0, i + 1), '\n') == r.update(
                    r.len() - 1,
                    r.last().push(text@[i as int]),
                ));
                assert(r.update(r.len() - 1, r.last().push(text@[i as int])) =~= raw@.push(
                    text@.subrange(start as int, i as int).push(text@[i as int]),
                ));
                assert(text@.subrange(start as int, i as int).push(text@[i as int]) =~= text@.subrange(
                    start as int,
                    i + 1,
                ));
            }
        }
        i += 1;
    }
    proof {
        assert(text@.subrange(0, len as int) =~= text@);
    }
    if len == 0 {
        assert(lines.deep_view() =~= spec_lines(text@));
        return lines;
    }
    if start == len {
        // the text ends with a line feed: no final line
        proof {
            let parts = spec_split(text@, '\n');
            let cut = Seq::new(
                parts.len(),
                |p: int|
                    if p < parts.len() - 1 {
                        strip_cr(parts[p])
                    } else {
                        parts[p]
                    },
            );
            assert(text@[len - 1] == '\n');
            assert(parts == raw@.push(text@.subrange(start as int, len as int)));
            assert(text@.subrange(start as int, len as int) =~= Seq::<char>::empty());
            assert(cut.drop_last() =~= lines.deep_view());
        }
        lines
    } else {
        let line = String::from_str(text.substring_char(start, len));
        lines.push(line);
        proof {
            let parts = spec_split(text@, '\n');
            let cut = Seq::new(
                parts.len(),
                |p: int|
                    if p < parts.len() - 1 {
                        strip_cr(parts[p])
                    } else {
                        parts[p]
                    },
            );
            assert(text@.last() != '\n');
            assert(cut =~= lines.deep_view());
        }
        lines
    }
}

/// `n` repeated spaces.
pub open spec fn spec_spaces(n: nat) -> Seq<char> {
    Seq::new(n, |i: int| ' ')
}

/// A string of `n` spaces, used for outline indentation.
pub fn spaces(n: usize) -> (r: String)
    ensures
        r@ == spec_spaces(n as nat),
{
    let mut r = String::new();
    proof {
        reveal_strlit(" ");
    }
    let mut i: usize = 0;
    while i < n
        invariant
            i <= n,
            r@ =~= spec_spaces(i as nat),
        decreases n - i,
    {
        r.append(" ");
        i += 1;
        proof {
            reveal_strlit(" ");
            assert(r@ =~= spec_spaces(i as nat));
        }
    }
    r
}

/// The character for one decimal digit.
pub open spec fn digit_char(d: int) -> char {
    if d == 0 {
        '0'
    } else if d == 1 {
        '1'
    } else if d == 2 {
        '2'
    } else if d == 3 {
        '3'
    } else if d == 4 {
        '4'
    } else if d == 5 {
        '5'
    } else if d == 6 {
        '6'
    } else if d == 7 {
        '7'
    } else if d == 8 {
        '8'
    } else {
        '9'
    }
}

/// The decimal digits of `n`, most significant first.
pub open spec fn dec_digits(n: int) -> Seq<char>
    decreases n,
{
    if n < 10 {
        seq![digit_char(n)]
    } else {
        dec_digits(n / 10).push(digit_char(n % 10))
    }
}

fn digit_str(d: usize) -> (r: &'static str)
    requires
        d < 10,
    ensures
        r@ =~= seq![digit_char(d as int)],
{
    proof {
        reveal_strlit("0");
        reveal_strlit("1");
        reveal_strlit("2");
        reveal_strlit("3");
        reveal_strlit("4");
        reveal_strlit("5");
        reveal_strlit("6");
        reveal_strlit("7");
        reveal_strlit("8");
        reveal_strlit("9");
    }
    if d == 0 {
        "0"
    } else if d == 1 {
        "1"
    } else if d == 2 {
        "2"
    } else if d == 3 {
        "3"
    } else if d == 4 {
        "4"
    } else if d == 5 {
        "5"
    } else if d == 6 {
        "6"
    } else if d == 7 {
        "7"
    } else if d == 8 {
        "8"
    } else {
        "9"
    }
}

/// `n` written in decimal.
pub fn dec_string(n: usize) -> (r: String)
    ensures
        r@ == dec_digits(n as int),
    decreases n,
{
    if n < 10 {
        String::from_str(digit_str(n))
    } else {
        let mut r = dec_string(n / 10);
        r.append(digit_str(n % 10));
        proof {
            assert(r@ =~= dec_digits(n as int));
        }
        r
    }
}

/// Combined length of all the parts.
pub open spec fn total_len(parts: Seq<Seq<char>>) -> nat
    decreases parts.len(),
{
    if parts.len() == 0 {
        0
    } else {
        total_len(parts.drop_last()) + parts.last().len()
    }
}

proof fn lemma_total_len_pointwise(a: Seq<Seq<char>>, b: Seq<Seq<char>>)
    requires
        a.len() == b.len(),
        forall|i: int| 0 <= i < a.len() ==> #[trigger] a[i].len() <= b[i].len(),
    ensures
        total_len(a) <= total_len(b),
    decreases a.len(),
{
    if a.len() > 0 {
        lemma_total_len_pointwise(a.drop_last(), b.drop_last());
    }
}

/// The parts of a split never hold more characters than the text that was
/// split.
pub proof fn lemma_split_total_len(s: Seq<char>, c: char)
    ensures
        total_len(spec_split(s, c)) <= s.len(),
    decreases s.len(),
{
    if s.len() == 0 {
        assert(seq![Seq::<char>::empty()].drop_last() =~= Seq::<Seq<char>>::empty());
        assert(total_len(Seq::<Seq<char>>::empty()) == 0);
        assert(seq![Seq::<char>::empty()].last().len() == 0);
        assert(total_len(spec_split(s, c)) == 0);
    } else if s.last() == c {
        lemma_split_total_len(s.drop_last(), c);
        let p = spec_split(s.drop_last(), c);
        assert(p.push(Seq::<char>::empty()).drop_last() =~= p);
        assert(total_len(p.push(Seq::<char>::empty())) == total_len(p));
        assert(spec_split(s, c) == p.push(Seq::<char>::empty()));
    } else {
        lemma_split_total_len(s.drop_last(), c);
        let p = spec_split(s.drop_last(), c);
        lemma_split_nonempty(s.drop_last(), c);
        let q = p.update(p.len() - 1, p.last().push(s.last()));
        assert(q.drop_last() =~= p.drop_last());
        assert(q.last() == p.last().push(s.last()));
        assert(total_len(q) == total_len(q.drop_last()) + q.last().len());
        assert(total_len(p) == total_len(p.drop_last()) + p.last().len());
        assert(total_len(q) == total_len(p) + 1);
        assert(spec_split(s, c) == q);
    }
}

/// The lines of a text never hold more characters than the text.
pub proof fn lemma_lines_total_len(s: Seq<char>)
    ensures
        total_len(spec_lines(s)) <= s.len(),
{
    let parts = spec_split(s, '\n');
    let cut = Seq::new(
        parts.len(),
        |i: int|
            if i < parts.len() - 1 {
                strip_cr(parts[i])
            } else {
                parts[i]
            },
    );
    lemma_split_total_len(s, '\n');
    assert(forall|i: int| 0 <= i < cut.len() ==> #[trigger] cut[i].len() <= parts[i].len());
    lemma_total_len_pointwise(cut, parts);
    if s.len() == 0 {
    } else if s.last() == '\n' {
        assert(total_len(cut.drop_last()) <= total_len(cut));
    }
}

} // verus!
