//! Stable ranking of scored items, highest score first.
use vstd::prelude::*;
use vstd::multiset::Multiset;

verus! {

pub type ScoredV = (Seq<char>, int);

pub open spec fn scored_view(v: Seq<(String, u128)>) -> Seq<ScoredV> {
    v.map_values(|x: (String, u128)| (x.0@, x.1 as int))
}

/// `x` placed after every item of `s` whose score is at least its own.
pub open spec fn insert_desc(s: Seq<ScoredV>, x: ScoredV) -> Seq<ScoredV>
    decreases s.len(),
{
    if s.len() == 0 {
        seq![x]
    } else if x.1 > s[0].1 {
        seq![x] + s
    } else {
        seq![s[0]] + insert_desc(s.drop_first(), x)
    }
}

/// `s` ordered by descending score; items of equal score keep their order.
pub open spec fn sort_desc(s: Seq<ScoredV>) -> Seq<ScoredV>
    decreases s.len(),
{
    if s.len() == 0 {
        seq![]
    } else {
        insert_desc(sort_desc(s.drop_last()), s.last())
    }
}

pub open spec fn is_sorted_desc(s: Seq<ScoredV>) -> bool {
    forall|i: int, j: int| 0 <= i < j < s.len() ==> s[i].1 >= s[j].1
}

/// Index of the first item of `s` that scores below `x`.
pub open spec fn first_below(s: Seq<ScoredV>, x: ScoredV, j: int) -> bool {
    &&& 0 <= j <= s.len()
    &&& forall|k: int| 0 <= k < j ==> !(x.1 > #[trigger] s[k].1)
    &&& j < s.len() ==> x.1 > s[j].1
}

proof fn lemma_insert_at(s: Seq<ScoredV>, x: ScoredV, j: int)
    requires
        first_below(s, x, j),
    ensures
        insert_desc(s, x) == s.insert(j, x),
    decreases s.len(),
{
    if s.len() == 0 {
        assert(s.insert(j, x) =~= seq![x]);
    } else if x.1 > s[0].1 {
        assert(j == 0);
        assert(s.insert(j, x) =~= seq![x] + s);
    } else {
        let t = s.drop_first();
        assert(first_below(t, x, j - 1)) by {
            assert forall|k: int| 0 <= k < j - 1 implies !(x.1 > #[trigger] t[k].1) by {
                assert(t[k] == s[k + 1]);
            }
        }
        lemma_insert_at(t, x, j - 1);
        assert(s.insert(j, x) =~= seq![s[0]] + t.insert(j - 1, x));
    }
}

pub proof fn lemma_insert_sorted(s: Seq<ScoredV>, x: ScoredV)
    requires
        is_sorted_desc(s),
    ensures
        is_sorted_desc(insert_desc(s, x)),
        insert_desc(s, x).len() == s.len() + 1,
        insert_desc(s, x).to_multiset() == s.to_multiset().insert(x),
    decreases s.len(),
{
    if s.len() == 0 {
        assert(seq![x].to_multiset() =~= Multiset::empty().insert(x)) by {
            broadcast use vstd::seq_lib::group_to_multiset_ensures;
        }
        assert(s.to_multiset() =~= Multiset::empty()) by {
            broadcast use vstd::seq_lib::group_to_multiset_ensures;
        }
    } else if x.1 > s[0].1 {
        broadcast use vstd::seq_lib::group_to_multiset_ensures;
        assert(seq![x] + s =~= s.insert(0, x));
    } else {
        let t = s.drop_first();
        lemma_insert_sorted(t, x);
        let r = insert_desc(t, x);
        let u = seq![s[0]] + r;
        assert forall|i: int, j: int| 0 <= i < j < u.len() implies u[i].1 >= u[j].1 by {
            if i == 0 {
                if r.to_multiset().count(u[j]) > 0 {
                }
                assert(r.contains(u[j]));
                broadcast use vstd::seq_lib::group_to_multiset_ensures;
                assert(t.to_multiset().insert(x).count(u[j]) > 0);
                if u[j] != x {
                    assert(t.to_multiset().count(u[j]) > 0);
                    assert(t.contains(u[j]));
                    let k = choose|k: int| 0 <= k < t.len() && t[k] == u[j];
                    assert(t[k] == s[k + 1]);
                }
            }
        }
        broadcast use vstd::seq_lib::group_to_multiset_ensures;
        assert(s =~= seq![s[0]] + t);
        assert(u =~= r.insert(0, s[0]));
        assert(s =~= t.insert(0, s[0]));
    }
}

pub proof fn lemma_sort_desc(s: Seq<ScoredV>)
    ensures
        is_sorted_desc(sort_desc(s)),
        sort_desc(s).len() == s.len(),
        sort_desc(s).to_multiset() == s.to_multiset(),
    decreases s.len(),
{
    broadcast use vstd::seq_lib::group_to_multiset_ensures;
    if s.len() > 0 {
        lemma_sort_desc(s.drop_last());
        lemma_insert_sorted(sort_desc(s.drop_last()), s.last());
        assert(s =~= s.drop_last().push(s.last()));
    }
}

/// Sorts by descending score, keeping the order of equal scores.
pub fn sort_scored(v: Vec<(String, u128)>) -> (r: Vec<(String, u128)>)
    ensures
        scored_view(r@) == sort_desc(scored_view(v@)),
{
    let ghost vv = scored_view(v@);
    let mut out: Vec<(String, u128)> = Vec::new();
    let mut i: usize = 0;
    while i < v.len()
        invariant
            vv == scored_view(v@),
            i <= v@.len(),
            scored_view(out@) == sort_desc(vv.take(i as int)),
        decreases v.len() - i,
    {
        let x = (v[i].0.clone(), v[i].1);
        let ghost xv = (x.0@, x.1 as int);
        let ghost ov = scored_view(out@);
        let mut j: usize = 0;
        while j < out.len() && !(x.1 > out[j].1)
            invariant
                j <= out@.len(),
                ov == scored_view(out@),
                xv == (x.0@, x.1 as int),
                forall|k: int| 0 <= k < j ==> !(xv.1 > #[trigger] ov[k].1),
            decreases out.len() - j,
        {
            j += 1;
        }
        proof {
            lemma_insert_at(ov, xv, j as int);
        }
        out.insert(j, x);
        assert(scored_view(out@) =~= ov.insert(j as int, xv));
        let ghost t = vv.take(i as int + 1);
        assert(t.drop_last() =~= vv.take(i as int));
        assert(t.last() == xv);
        i += 1;
    }
    assert(vv.take(i as int) =~= vv);
    out
}

} // verus!

verus! {

pub open spec fn min_nat(a: nat, b: nat) -> nat {
    if a <= b {
        a
    } else {
        b
    }
}

/// The first `limit` items of `s` once ranked.
pub open spec fn top(s: Seq<ScoredV>, limit: nat) -> Seq<ScoredV> {
    sort_desc(s).take(min_nat(limit, s.len()) as int)
}

/// An item left out of the top `limit` scores no higher than any kept one,
/// and the top is then full; every kept item comes from `s`.
pub proof fn lemma_top(s: Seq<ScoredV>, limit: nat)
    ensures
        is_sorted_desc(top(s, limit)),
        top(s, limit).len() == min_nat(limit, s.len()),
        forall|i: int| 0 <= i < top(s, limit).len() ==> s.contains(#[trigger] top(s, limit)[i]),
        forall|x: ScoredV|
            #![trigger s.contains(x)]
            s.contains(x) ==> top(s, limit).contains(x) || (top(s, limit).len() == limit
                && forall|i: int| 0 <= i < top(s, limit).len() ==> top(s, limit)[i].1 >= x.1),
{
    broadcast use vstd::seq_lib::group_to_multiset_ensures;
    lemma_sort_desc(s);
    let t = sort_desc(s);
    let r = top(s, limit);
    assert forall|i: int| 0 <= i < r.len() implies s.contains(#[trigger] r[i]) by {
        assert(t[i] == r[i]);
        assert(t.contains(r[i]));
        assert(t.to_multiset().count(r[i]) > 0);
    }
    assert forall|x: ScoredV| #![trigger s.contains(x)] s.contains(x) implies r.contains(x) || (
    r.len() == limit && forall|i: int| 0 <= i < r.len() ==> r[i].1 >= x.1) by {
        assert(s.to_multiset().count(x) > 0);
        assert(t.contains(x));
        let j = choose|j: int| 0 <= j < t.len() && t[j] == x;
        if j < r.len() {
            assert(r[j] == x);
        } else {
            assert forall|i: int| 0 <= i < r.len() implies r[i].1 >= x.1 by {
                assert(r[i] == t[i]);
            }
        }
    }
}

/// Ranks and keeps the first `limit` items.
pub fn top_scored(v: Vec<(String, u128)>, limit: usize) -> (r: Vec<(String, u128)>)
    ensures
        scored_view(r@) == top(scored_view(v@), limit as nat),
{
    let ghost n = v@.len();
    let mut s = sort_scored(v);
    proof { lemma_sort_desc(scored_view(v@)); }
    if s.len() > limit {
        s.truncate(limit);
    }
    assert(scored_view(s@) =~= top(scored_view(v@), limit as nat));
    s
}

} // verus!

verus! {

/// `r` holds the best of the candidates, at most `limit` of them, ranked:
/// each item is a distinct candidate with its score, and a candidate left out means
/// that `r` is full of items that score at least as high.
/// No two items share a text.
pub open spec fn distinct_texts(s: Seq<ScoredV>) -> bool {
    forall|i: int, j: int| 0 <= i < j < s.len() ==> s[i].0 != s[j].0
}

proof fn lemma_insert_distinct(s: Seq<ScoredV>, x: ScoredV)
    requires
        distinct_texts(s),
        forall|k: int| 0 <= k < s.len() ==> (#[trigger] s[k]).0 != x.0,
    ensures
        distinct_texts(insert_desc(s, x)),
        forall|k: int|
            0 <= k < insert_desc(s, x).len() ==> (#[trigger] insert_desc(s, x)[k]) == x || s.contains(
                insert_desc(s, x)[k],
            ),
    decreases s.len(),
{
    if s.len() == 0 {
    } else if x.1 > s[0].1 {
        let r = seq![x] + s;
        assert forall|k: int| 0 <= k < r.len() implies r[k] == x || s.contains(r[k]) by {
            if k > 0 {
                assert(r[k] == s[k - 1]);
            }
        }
        assert forall|i: int, j: int| 0 <= i < j < r.len() implies r[i].0 != r[j].0 by {
            if i > 0 {
                assert(r[i] == s[i - 1] && r[j] == s[j - 1]);
            } else {
                assert(r[j] == s[j - 1]);
            }
        }
    } else {
        let t = s.drop_first();
        assert forall|i: int, j: int| 0 <= i < j < t.len() implies t[i].0 != t[j].0 by {
            assert(t[i] == s[i + 1] && t[j] == s[j + 1]);
        }
        assert forall|k: int| 0 <= k < t.len() implies (#[trigger] t[k]).0 != x.0 by {
            assert(t[k] == s[k + 1]);
        }
        lemma_insert_distinct(t, x);
        let u = insert_desc(t, x);
        let r = seq![s[0]] + u;
        assert forall|k: int| 0 <= k < r.len() implies r[k] == x || s.contains(r[k]) by {
            if k > 0 {
                assert(r[k] == u[k - 1]);
                if u[k - 1] != x {
                    let m = choose|m: int| 0 <= m < t.len() && t[m] == u[k - 1];
                    assert(s[m + 1] == t[m]);
                }
            } else {
                assert(s[0] == r[0]);
            }
        }
        assert forall|i: int, j: int| 0 <= i < j < r.len() implies r[i].0 != r[j].0 by {
            if i == 0 {
                assert(r[j] == u[j - 1]);
                if u[j - 1] != x {
                    let m = choose|m: int| 0 <= m < t.len() && t[m] == u[j - 1];
                    assert(s[m + 1] == t[m]);
                }
            } else {
                assert(r[i] == u[i - 1] && r[j] == u[j - 1]);
            }
        }
    }
}

/// Ranking keeps texts distinct.
pub proof fn lemma_sort_distinct(s: Seq<ScoredV>)
    requires
        distinct_texts(s),
    ensures
        distinct_texts(sort_desc(s)),
    decreases s.len(),
{
    if s.len() > 0 {
        let d = s.drop_last();
        assert forall|i: int, j: int| 0 <= i < j < d.len() implies d[i].0 != d[j].0 by {
            assert(d[i] == s[i] && d[j] == s[j]);
        }
        lemma_sort_distinct(d);
        lemma_sort_desc(d);
        let t = sort_desc(d);
        let x = s.last();
        assert forall|k: int| 0 <= k < t.len() implies (#[trigger] t[k]).0 != x.0 by {
            broadcast use vstd::seq_lib::group_to_multiset_ensures;
            assert(t.contains(t[k]));
            assert(t.to_multiset().count(t[k]) > 0);
            assert(d.contains(t[k]));
            let m = choose|m: int| 0 <= m < d.len() && d[m] == t[k];
            assert(s[m] == d[m]);
            assert(s[s.len() - 1] == x);
        }
        lemma_insert_distinct(t, x);
    }
}

pub open spec fn ranked_ok(
    r: Seq<ScoredV>,
    cand: spec_fn(Seq<char>) -> bool,
    score: spec_fn(Seq<char>) -> int,
    limit: nat,
) -> bool {
    &&& r.len() <= limit
    &&& is_sorted_desc(r)
    &&& distinct_texts(r)
    &&& forall|i: int| 0 <= i < r.len() ==> cand(#[trigger] r[i].0) && r[i].1 == score(r[i].0)
    &&& forall|x: Seq<char>|
        #![trigger cand(x)]
        cand(x) ==> (exists|i: int| 0 <= i < r.len() && (#[trigger] r[i]).0 == x) || (r.len()
            == limit && forall|i: int| 0 <= i < r.len() ==> (#[trigger] r[i]).1 >= score(x))
}

pub proof fn lemma_ranked_ok(
    s: Seq<ScoredV>,
    cand: spec_fn(Seq<char>) -> bool,
    score: spec_fn(Seq<char>) -> int,
    limit: nat,
)
    requires
        distinct_texts(s),
        forall|i: int| 0 <= i < s.len() ==> cand(#[trigger] s[i].0) && s[i].1 == score(s[i].0),
        forall|x: Seq<char>|
            #![trigger cand(x)]
            cand(x) ==> exists|i: int| 0 <= i < s.len() && (#[trigger] s[i]).0 == x,
    ensures
        ranked_ok(top(s, limit), cand, score, limit),
{
    lemma_top(s, limit);
    lemma_sort_desc(s);
    lemma_sort_distinct(s);
    let r = top(s, limit);
    assert forall|i: int, j: int| 0 <= i < j < r.len() implies r[i].0 != r[j].0 by {
        assert(r[i] == sort_desc(s)[i] && r[j] == sort_desc(s)[j]);
    }
    assert forall|i: int| 0 <= i < r.len() implies cand(#[trigger] r[i].0) && r[i].1 == score(
        r[i].0,
    ) by {
        assert(s.contains(r[i]));
    }
    assert forall|x: Seq<char>| #![trigger cand(x)] cand(x) implies (exists|i: int|
        0 <= i < r.len() && (#[trigger] r[i]).0 == x) || (r.len() == limit && forall|i: int|
        0 <= i < r.len() ==> (#[trigger] r[i]).1 >= score(x)) by {
        let k = choose|k: int| 0 <= k < s.len() && (#[trigger] s[k]).0 == x;
        let y = s[k];
        assert(s.contains(y));
        if r.contains(y) {
            let i = choose|i: int| 0 <= i < r.len() && r[i] == y;
            assert(r[i].0 == x);
        } else {
            assert(y.1 == score(x));
        }
    }
}

} // verus!
