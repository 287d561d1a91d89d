//! The ranking stage shared by every list-producing command: each file gets
//! a rational score, the list is stably sorted ascending by score, reversed
//! on request, and cut to the first `n` entries.

use vstd::prelude::*;

verus! {

use vstd::seq_lib::group_to_multiset_ensures;
use vstd::seq_lib::to_multiset_insert;

broadcast use group_to_multiset_ensures;

/// A score as an exact rational: `num / den`, where a zero denominator
/// counts as one so that a file with no headers scores zero rather than
/// dividing by zero.
#[derive(Clone, Copy, PartialEq, Eq, Structural, Debug)]
pub struct Score {
    pub num: u64,
    pub den: u64,
}

/// One file with its score.
pub struct ScoredNote {
    pub score: Score,
    pub name: String,
}

/// The mathematical value of a `ScoredNote`.
pub ghost struct EntryV {
    pub num: int,
    pub den: int,
    pub name: Seq<char>,
}

impl View for ScoredNote {
    type V = EntryV;

    open spec fn view(&self) -> EntryV {
        EntryV { num: self.score.num as int, den: self.score.den as int, name: self.name@ }
    }
}

impl DeepView for ScoredNote {
    type V = EntryV;

    open spec fn deep_view(&self) -> EntryV {
        self.view()
    }
}

/// The effective denominator: a denominator of zero (or a meaningless
/// negative one) counts as one.
pub open spec fn den1(e: EntryV) -> int {
    if e.den <= 0 {
        1
    } else {
        e.den
    }
}

/// `a`'s score is at most `b`'s, comparing the rationals exactly by
/// cross-multiplication.
pub open spec fn spec_le(a: EntryV, b: EntryV) -> bool {
    a.num * den1(b) <= b.num * den1(a)
}

/// Score comparison is transitive.
pub proof fn lemma_le_trans(a: EntryV, b: EntryV, c: EntryV)
    requires
        spec_le(a, b),
        spec_le(b, c),
    ensures
        spec_le(a, c),
{
    assert(a.num * den1(c) <= c.num * den1(a)) by (nonlinear_arith)
        requires
            a.num * den1(b) <= b.num * den1(a),
            b.num * den1(c) <= c.num * den1(b),
            den1(a) >= 1,
            den1(b) >= 1,
            den1(c) >= 1,
    ;
}

/// Any two scores are comparable: the scores are totally ordered.
pub proof fn lemma_le_total(a: EntryV, b: EntryV)
    ensures
        spec_le(a, b) || spec_le(b, a),
{
}

/// Ascending by score.
pub open spec fn sorted(s: Seq<EntryV>) -> bool {
    forall|i: int, j: int| 0 <= i < j < s.len() ==> spec_le(#[trigger] s[i], #[trigger] s[j])
}

/// `x` inserted into `s` after every entry whose score is at most `x`'s,
/// so that entries with equal scores keep their arrival order.
pub open spec fn spec_insert(s: Seq<EntryV>, x: EntryV) -> Seq<EntryV>
    decreases s.len(),
{
    if s.len() == 0 {
        seq![x]
    } else if spec_le(s.last(), x) {
        s.push(x)
    } else {
        spec_insert(s.drop_last(), x).push(s.last())
    }
}

/// Stable insertion sort, ascending by score.
pub open spec fn spec_sort(s: Seq<EntryV>) -> Seq<EntryV>
    decreases s.len(),
{
    if s.len() == 0 {
        Seq::empty()
    } else {
        spec_insert(spec_sort(s.drop_last()), s.last())
    }
}

proof fn lemma_insert_multiset(s: Seq<EntryV>, x: EntryV)
    ensures
        spec_insert(s, x).to_multiset() == s.to_multiset().insert(x),
        spec_insert(s, x).len() == s.len() + 1,
    decreases s.len(),
{
    if s.len() == 0 {
        assert(seq![x] =~= Seq::<EntryV>::empty().push(x));
        assert(Seq::<EntryV>::empty().push(x).to_multiset() =~= s.to_multiset().insert(x));
    } else if spec_le(s.last(), x) {
    } else {
        lemma_insert_multiset(s.drop_last(), x);
        assert(s.drop_last().push(s.last()) =~= s);
        assert(spec_insert(s.drop_last(), x).push(s.last()).to_multiset() =~= s.to_multiset().insert(
            x,
        )) by {
            assert(s.drop_last().to_multiset().insert(x).insert(s.last())
                =~= s.drop_last().to_multiset().insert(s.last()).insert(x));
        }
    }
}

proof fn lemma_insert_le_all(s: Seq<EntryV>, x: EntryV, b: EntryV)
    requires
        forall|i: int| 0 <= i < s.len() ==> spec_le(#[trigger] s[i], b),
        spec_le(x, b),
    ensures
        forall|i: int|
            0 <= i < spec_insert(s, x).len() ==> spec_le(#[trigger] spec_insert(s, x)[i], b),
    decreases s.len(),
{
    if s.len() == 0 {
        assert(spec_insert(s, x) == seq![x]);
        assert(spec_insert(s, x)[0] == x);
    } else if spec_le(s.last(), x) {
        let r = s.push(x);
        assert forall|i: int| 0 <= i < r.len() implies spec_le(r[i], b) by {
            if i < s.len() {
                assert(r[i] == s[i]);
            } else {
                assert(r[i] == x);
            }
        }
    } else {
        assert(forall|i: int| 0 <= i < s.drop_last().len() ==> spec_le(
            #[trigger] s.drop_last()[i],
            b,
        ));
        lemma_insert_le_all(s.drop_last(), x, b);
        let inner = spec_insert(s.drop_last(), x);
        let r = inner.push(s.last());
        assert(spec_le(s[s.len() - 1], b));
        assert forall|i: int| 0 <= i < r.len() implies spec_le(r[i], b) by {
            if i < inner.len() {
                assert(r[i] == inner[i]);
            } else {
                assert(r[i] == s.last());
            }
        }
    }
}

proof fn lemma_insert_sorted(s: Seq<EntryV>, x: EntryV)
    requires
        sorted(s),
    ensures
        sorted(spec_insert(s, x)),
    decreases s.len(),
{
    if s.len() == 0 {
    } else if spec_le(s.last(), x) {
        let r = s.push(x);
        assert forall|i: int, j: int| 0 <= i < j < r.len() implies spec_le(r[i], r[j]) by {
            if j == r.len() - 1 {
                if i < s.len() - 1 {
                    lemma_le_trans(s[i], s.last(), x);
                }
            }
        }
    } else {
        assert(spec_le(x, s.last())) by {
            assert(spec_le(x, s.last()) || spec_le(s.last(), x));
        }
        assert(sorted(s.drop_last())) by {
            assert(forall|i: int, j: int|
                0 <= i < j < s.drop_last().len() ==> spec_le(
                    #[trigger] s.drop_last()[i],
                    #[trigger] s.drop_last()[j],
                ));
        }
        lemma_insert_sorted(s.drop_last(), x);
        assert(forall|i: int| 0 <= i < s.drop_last().len() ==> spec_le(
            #[trigger] s.drop_last()[i],
            s.last(),
        ));
        lemma_insert_le_all(s.drop_last(), x, s.last());
        let r = spec_insert(s.drop_last(), x).push(s.last());
        assert forall|i: int, j: int| 0 <= i < j < r.len() implies spec_le(r[i], r[j]) by {
            if j < r.len() - 1 {
                assert(spec_le(spec_insert(s.drop_last(), x)[i], spec_insert(s.drop_last(), x)[j]));
            }
        }
    }
}

/// Sorting keeps exactly the given entries and orders them ascending.
pub proof fn lemma_sort_ensures(s: Seq<EntryV>)
    ensures
        spec_sort(s).to_multiset() == s.to_multiset(),
        spec_sort(s).len() == s.len(),
        sorted(spec_sort(s)),
    decreases s.len(),
{
    if s.len() > 0 {
        lemma_sort_ensures(s.drop_last());
        lemma_insert_multiset(spec_sort(s.drop_last()), s.last());
        lemma_insert_sorted(spec_sort(s.drop_last()), s.last());
        assert(s.drop_last().push(s.last()) =~= s);
        assert(s.drop_last().to_multiset().insert(s.last()) =~= s.to_multiset());
    }
}

/// What every list-producing command does after scoring: stable ascending
/// sort, whole-list reversal on request, then the first `n` entries.
pub open spec fn spec_rank(s: Seq<EntryV>, n: Option<int>, reverse: bool) -> Seq<EntryV> {
    let ordered = if reverse {
        spec_sort(s).reverse()
    } else {
        spec_sort(s)
    };
    let cut = match n {
        Some(k) => if k < s.len() {
            k
        } else {
            s.len() as int
        },
        None => s.len() as int,
    };
    ordered.take(cut)
}

fn le_entry(a: &ScoredNote, b: &ScoredNote) -> (r: bool)
    ensures
        r == spec_le(a@, b@),
{
    let ad: u64 = if a.score.den == 0 {
        1
    } else {
        a.score.den
    };
    let bd: u64 = if b.score.den == 0 {
        1
    } else {
        b.score.den
    };
    proof {
        assert((a.score.num as u128) * (bd as u128) <= u128::MAX && (b.score.num as u128) * (
        ad as u128) <= u128::MAX) by (nonlinear_arith)
            requires
                a.score.num <= u64::MAX,
                b.score.num <= u64::MAX,
                ad <= u64::MAX,
                bd <= u64::MAX,
        ;
    }
    (a.score.num as u128) * (bd as u128) <= (b.score.num as u128) * (ad as u128)
}

fn insert_entry(out: &mut Vec<ScoredNote>, e: ScoredNote)
    ensures
        final(out).deep_view() == spec_insert(old(out).deep_view(), e@),
{
    let ghost s = out.deep_view();
    let mut k = out.len();
    while k > 0 && !le_entry(&out[k - 1], &e)
        invariant
            k <= out.len(),
            s == out.deep_view(),
            forall|i: int| k <= i < s.len() ==> !spec_le(#[trigger] s[i], e@),
        decreases k,
    {
        k -= 1;
    }
    out.insert(k, e);
    proof {
        lemma_insert_at(s, e@, k as int);
        assert(out.deep_view() =~= s.insert(k as int, e@));
    }
}

proof fn lemma_insert_at(s: Seq<EntryV>, x: EntryV, k: int)
    requires
        0 <= k <= s.len(),
        forall|i: int| k <= i < s.len() ==> !spec_le(#[trigger] s[i], x),
        k > 0 ==> spec_le(s[k - 1], x),
    ensures
        spec_insert(s, x) == s.insert(k, x),
    decreases s.len(),
{
    if k == s.len() {
        if s.len() == 0 {
            assert(seq![x] =~= s.insert(0, x));
        } else {
            assert(s.push(x) =~= s.insert(k, x));
        }
    } else {
        assert(!spec_le(s.last(), x));
        lemma_insert_at(s.drop_last(), x, k);
        assert(s.drop_last().insert(k, x).push(s.last()) =~= s.insert(k, x));
    }
}

/// Stable ascending sort of the scored entries.
fn sort_entries(v: Vec<ScoredNote>) -> (out: Vec<ScoredNote>)
    ensures
        out.deep_view() == spec_sort(v.deep_view()),
{
    let ghost orig = v.deep_view();
    let mut v = v;
    let mut out: Vec<ScoredNote> = Vec::new();
    let ghost i: int = 0;
    let mut i = Ghost(i);
    proof {
        assert(orig.take(0) =~= Seq::<EntryV>::empty());
        assert(v.deep_view() =~= orig.skip(0));
    }
    while v.len() > 0
        invariant
            0 <= i@ <= orig.len(),
            v.deep_view() == orig.skip(i@),
            out.deep_view() == spec_sort(orig.take(i@)),
        decreases orig.len() - i@,
    {
        let ghost pre = v.deep_view();
        proof {
            assert(pre.len() == v@.len());
            assert(i@ < orig.len());
        }
        let e = v.remove(0);
        proof {
            assert(pre[0] == orig.skip(i@)[0]);
            assert(orig.subrange(i@, orig.len() as int)[0] == orig[i@ + 0]);
            assert(e@ == pre[0]);
            assert(e@ == orig[i@]);
            assert(v.deep_view() =~= pre.drop_first());
            assert(pre.drop_first() =~= orig.skip(i@ + 1));
            assert(orig.take(i@ + 1).drop_last() =~= orig.take(i@));
            assert(orig.take(i@ + 1).last() == orig[i@]);
        }
        insert_entry(&mut out, e);
        proof {
            i@ = i@ + 1;
        }
    }
    proof {
        assert(orig.take(orig.len() as int) =~= orig);
    }
    out
}

/// The entries in the opposite order.
fn reverse_entries(v: Vec<ScoredNote>) -> (out: Vec<ScoredNote>)
    ensures
        out.deep_view() == v.deep_view().reverse(),
{
    let ghost orig = v.deep_view();
    let mut v = v;
    let mut out: Vec<ScoredNote> = Vec::new();
    while v.len() > 0
        invariant
            v.deep_view() == orig.take(v.deep_view().len() as int),
            out.deep_view() =~= orig.skip(v.deep_view().len() as int).reverse(),
            v.deep_view().len() <= orig.len(),
        decreases v.len(),
    {
        let ghost k = v.deep_view().len() as int;
        let ghost pre_v = v.deep_view();
        let ghost pre_out = out.deep_view();
        let e = v.pop().unwrap();
        proof {
            assert(e@ == pre_v[k - 1]);
            assert(pre_v[k - 1] == orig.take(k)[k - 1]);
            assert(v.deep_view() =~= pre_v.drop_last());
            assert(pre_v.drop_last() =~= orig.take(k - 1));
        }
        out.push(e);
        proof {
            assert(out.deep_view() =~= pre_out.push(e@));
            assert(pre_out.push(e@) =~= orig.skip(k - 1).reverse());
        }
    }
    proof {
        assert(orig.skip(0) =~= orig);
    }
    out
}

/// Order the scored entries as the commands report them: ascending by
/// score (stably, so ties keep their arrival order), the whole list
/// reversed when `reverse` is set, and only the first `n` entries kept
/// when `n` is given.
pub fn rank(entries: Vec<ScoredNote>, n: Option<usize>, reverse: bool) -> (out: Vec<ScoredNote>)
    ensures
        out.deep_view() == spec_rank(
            entries.deep_view(),
            match n {
                Some(k) => Some(k as int),
                None => None,
            },
            reverse,
        ),
{
    let ghost s = entries.deep_view();
    let mut out = sort_entries(entries);
    proof {
        lemma_sort_ensures(s);
    }
    if reverse {
        out = reverse_entries(out);
    }
    match n {
        Some(k) => {
            out.truncate(k);
            proof {
                let ordered = if reverse {
                    spec_sort(s).reverse()
                } else {
                    spec_sort(s)
                };
                assert(out.deep_view() =~= spec_rank(
                    s,
                    Some(k as int),
                    reverse,
                )) by {
                    if k as int <= ordered.len() {
                        assert(ordered.subrange(0, k as int) =~= ordered.take(k as int));
                    } else {
                        assert(ordered.take(ordered.len() as int) =~= ordered);
                    }
                }
            }
        },
        None => {
            proof {
                let ordered = if reverse {
                    spec_sort(s).reverse()
                } else {
                    spec_sort(s)
                };
                assert(ordered.take(s.len() as int) =~= ordered);
            }
        },
    }
    out
}

proof fn lemma_reverse_multiset(s: Seq<EntryV>)
    ensures
        s.reverse().to_multiset() == s.to_multiset(),
    decreases s.len(),
{
    if s.len() == 0 {
        assert(s.reverse() =~= s);
    } else {
        lemma_reverse_multiset(s.drop_last());
        assert(s.reverse() =~= s.drop_last().reverse().insert(0, s.last()));
        to_multiset_insert(s.drop_last().reverse(), 0, s.last());
        assert(s.drop_last().push(s.last()) =~= s);
        assert(s.drop_last().to_multiset().insert(s.last()) =~= s.to_multiset());
    }
}

/// Reordering the entries handed to a full ranking never changes any
/// file's score, only its position: permuted inputs give outputs that
/// hold exactly the same (score, name) pairs.
pub proof fn lemma_rank_permutation_invariant(
    s1: Seq<EntryV>,
    s2: Seq<EntryV>,
    n: Option<int>,
    reverse: bool,
)
    requires
        s1.to_multiset() == s2.to_multiset(),
        n is None || n->Some_0 >= s1.len(),
    ensures
        spec_rank(s1, n, reverse).to_multiset() == spec_rank(s2, n, reverse).to_multiset(),
{
    lemma_sort_ensures(s1);
    lemma_sort_ensures(s2);
    vstd::seq_lib::to_multiset_len(s1);
    vstd::seq_lib::to_multiset_len(s2);
    let o1 = if reverse {
        spec_sort(s1).reverse()
    } else {
        spec_sort(s1)
    };
    let o2 = if reverse {
        spec_sort(s2).reverse()
    } else {
        spec_sort(s2)
    };
    if reverse {
        lemma_reverse_multiset(spec_sort(s1));
        lemma_reverse_multiset(spec_sort(s2));
    }
    assert(o1.take(s1.len() as int) =~= o1);
    assert(o2.take(s2.len() as int) =~= o2);
}

/// With no cut, or one at least as long as the input, the descending
/// report is exactly the ascending report reversed.
pub proof fn lemma_reverse_is_reversed(s: Seq<EntryV>, n: Option<int>)
    requires
        n is None || n->Some_0 >= s.len(),
    ensures
        spec_rank(s, n, true) == spec_rank(s, n, false).reverse(),
{
    lemma_sort_ensures(s);
    assert(spec_sort(s).take(s.len() as int) =~= spec_sort(s));
    assert(spec_sort(s).reverse().take(s.len() as int) =~= spec_sort(s).reverse());
}

/// An ascending report is sorted by score, whatever the cut.
pub proof fn lemma_rank_sorted(s: Seq<EntryV>, n: Option<int>)
    requires
        n is Some ==> n->Some_0 >= 0,
    ensures
        sorted(spec_rank(s, n, false)),
{
    lemma_sort_ensures(s);
    let srt = spec_sort(s);
    let r = spec_rank(s, n, false);
    let cut = match n {
        Some(k) => if k < s.len() {
            k
        } else {
            s.len() as int
        },
        None => s.len() as int,
    };
    assert(r == srt.take(cut));
    assert forall|i: int, j: int| 0 <= i < j < r.len() implies spec_le(r[i], r[j]) by {
        assert(srt.subrange(0, cut)[i] == srt[i]);
        assert(srt.subrange(0, cut)[j] == srt[j]);
    }
}

} // verus!
