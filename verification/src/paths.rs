//! A small model of file names: the final path component, its stem and its
//! extension, and the mapping from extension to header-marker dialect.
//! Paths are plain character sequences with `/` as the separator.

use vstd::prelude::*;

verus! {

use vstd::string::StrSliceExecFns;
use vstd::string::StringExecFns;

/// The characters after the last occurrence of `c`, or all of `p` when `c`
/// does not occur.
pub open spec fn after_last(p: Seq<char>, c: char) -> Seq<char>
    decreases p.len(),
{
    if p.len() == 0 {
        p
    } else if p.last() == c {
        Seq::empty()
    } else {
        after_last(p.drop_last(), c).push(p.last())
    }
}

/// The final component of the path: everything after the last `/`.
pub open spec fn spec_file_name(p: Seq<char>) -> Seq<char> {
    after_last(p, '/')
}

/// Position of the dot that separates stem and extension in a file name:
/// the last dot, provided it is neither the leading character nor absent.
pub open spec fn dot_split(f: Seq<char>) -> Option<int> {
    let tail = after_last(f, '.');
    if tail.len() < f.len() && f.len() - tail.len() - 1 > 0 {
        Some(f.len() - tail.len() - 1)
    } else {
        None
    }
}

/// The file name without its extension, `None` for an empty file name.
pub open spec fn spec_file_stem(p: Seq<char>) -> Option<Seq<char>> {
    let f = spec_file_name(p);
    if f.len() == 0 {
        None
    } else {
        match dot_split(f) {
            Some(d) => Some(f.subrange(0, d)),
            None => Some(f),
        }
    }
}

/// The extension of the file name: what follows the dot of `dot_split`.
pub open spec fn spec_extension(p: Seq<char>) -> Option<Seq<char>> {
    let f = spec_file_name(p);
    match dot_split(f) {
        Some(d) => Some(f.subrange(d + 1, f.len() as int)),
        None => None,
    }
}

proof fn lemma_after_last_at(p: Seq<char>, c: char, k: int)
    requires
        0 <= k <= p.len(),
        forall|i: int| k <= i < p.len() ==> p[i] != c,
        k == 0 || p[k - 1] == c,
    ensures
        after_last(p, c) == p.subrange(k, p.len() as int),
    decreases p.len(),
{
    if p.len() == 0 {
        assert(p.subrange(0, 0) =~= p);
    } else if p.last() == c {
        assert(k == p.len());
        assert(p.subrange(k, p.len() as int) =~= Seq::<char>::empty());
    } else {
        lemma_after_last_at(p.drop_last(), c, k);
        assert(p.drop_last().subrange(k, p.len() - 1).push(p.last()) =~= p.subrange(
            k,
            p.len() as int,
        ));
    }
}

/// Scan for the character after the last occurrence of `c`, returning the
/// index where that suffix starts.
fn suffix_start(s: &str, c: char) -> (k: usize)
    ensures
        k <= s@.len(),
        s@.subrange(k as int, s@.len() as int) == after_last(s@, c),
        k == 0 || s@[k - 1 as int] == c,
        forall|i: int| k <= i < s@.len() ==> s@[i] != c,
{
    let len = s.unicode_len();
    let mut k = len;
    while k > 0 && s.get_char(k - 1) != c
        invariant
            k <= len,
            len == s@.len(),
            forall|i: int| k <= i < s@.len() ==> s@[i] != c,
        decreases k,
    {
        k -= 1;
    }
    proof {
        lemma_after_last_at(s@, c, k as int);
    }
    k
}

/// The header-marker dialect of a note file, chosen by its extension.
#[derive(Clone, Copy, PartialEq, Eq, Structural, Debug)]
pub enum Dialect {
    Markdown,
    Org,
}

impl Dialect {
    /// The repeated character that opens a header line in this dialect.
    pub open spec fn spec_marker(self) -> char {
        match self {
            Dialect::Markdown => '#',
            Dialect::Org => '*',
        }
    }

    /// Executable form of `spec_marker`.
    pub fn marker(self) -> (c: char)
        ensures
            c == self.spec_marker(),
    {
        match self {
            Dialect::Markdown => '#',
            Dialect::Org => '*',
        }
    }
}

/// The dialect a file name calls for: `.md` is a Markdown note, `.org` an
/// Org note, anything else is not a recognized note file.
pub open spec fn spec_dialect_of(p: Seq<char>) -> Option<Dialect> {
    match spec_extension(p) {
        Some(e) => if e == seq!['m', 'd'] {
            Some(Dialect::Markdown)
        } else if e == seq!['o', 'r', 'g'] {
            Some(Dialect::Org)
        } else {
            None
        },
        None => None,
    }
}

/// The final component of the path.
pub fn file_name(p: &str) -> (f: String)
    ensures
        f@ == spec_file_name(p@),
{
    let k = suffix_start(p, '/');
    let len = p.unicode_len();
    String::from_str(p.substring_char(k, len))
}

/// The file name without its extension, `None` for an empty file name.
pub fn file_stem(p: &str) -> (r: Option<String>)
    ensures
        match r {
            Some(s) => spec_file_stem(p@) == Some(s@),
            None => spec_file_stem(p@) is None,
        },
{
    let f = file_name(p);
    let fs = f.as_str();
    let flen = fs.unicode_len();
    if flen == 0 {
        return None;
    }
    let d = suffix_start(fs, '.');
    if d > 1 {
        // a dot was found and it is not the leading character
        Some(String::from_str(fs.substring_char(0, d - 1)))
    } else {
        proof {
            assert(dot_split(f@) is None);
        }
        Some(f)
    }
}

/// The extension of the file name, `None` when it has none.
pub fn extension(p: &str) -> (r: Option<String>)
    ensures
        match r {
            Some(e) => spec_extension(p@) == Some(e@),
            None => spec_extension(p@) is None,
        },
{
    let f = file_name(p);
    let fs = f.as_str();
    let flen = fs.unicode_len();
    let d = suffix_start(fs, '.');
    if d > 1 && d <= flen {
        Some(String::from_str(fs.substring_char(d, flen)))
    } else {
        proof {
            assert(dot_split(f@) is None);
        }
        None
    }
}

/// The dialect a file name calls for.
pub fn dialect_of(p: &str) -> (r: Option<Dialect>)
    ensures
        r == spec_dialect_of(p@),
{
    match extension(p) {
        None => None,
        Some(e) => {
            let es = e.as_str();
            proof {
                reveal_strlit("md");
                reveal_strlit("org");
            }
            if es.unicode_len() == 2 && es.get_char(0) == 'm' && es.get_char(1) == 'd' {
                proof {
                    assert(e@ =~= "md"@);
                    assert("md"@ =~= seq!['m', 'd']);
                }
                Some(Dialect::Markdown)
            } else if es.unicode_len() == 3 && es.get_char(0) == 'o' && es.get_char(1) == 'r'
                && es.get_char(2) == 'g' {
                proof {
                    assert(e@ =~= seq!['o', 'r', 'g']);
                }
                Some(Dialect::Org)
            } else {
                proof {
                    assert(e@ != seq!['m', 'd'] && e@ != seq!['o', 'r', 'g']) by {
                        if e@.len() == 2 {
                            assert(e@[0] != 'm' || e@[1] != 'd');
                        }
                        if e@.len() == 3 {
                            assert(e@[0] != 'o' || e@[1] != 'r' || e@[2] != 'g');
                        }
                    }
                }
                None
            }
        },
    }
}


} // verus!
