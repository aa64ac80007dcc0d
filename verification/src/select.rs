use vstd::prelude::*;
use crate::proxy::Proxy;

verus! {

/// The sum of the weights.
pub open spec fn weight_sum(w: Seq<u64>) -> int
    decreases w.len(),
{
    if w.len() == 0 {
        0
    } else {
        weight_sum(w.drop_last()) + w.last()
    }
}

/// Adding one more weight adds it to the sum.
pub proof fn lemma_weight_sum_take_succ(w: Seq<u64>, i: int)
    requires
        0 <= i < w.len(),
    ensures
        weight_sum(w.take(i + 1)) == weight_sum(w.take(i)) + w[i],
{
    assert(w.take(i + 1).drop_last() =~= w.take(i));
}

/// A prefix weighs no more than the whole, and every weight counts in a
/// prefix that holds it.
pub proof fn lemma_weight_sum_prefix(w: Seq<u64>, i: int)
    requires
        0 <= i <= w.len(),
    ensures
        0 <= weight_sum(w.take(i)) <= weight_sum(w),
        forall|j: int| 0 <= j < i ==> w[j] <= weight_sum(w.take(i)),
    decreases w.len() - i,
{
    if i == w.len() {
        assert(w.take(i) =~= w);
        lemma_weight_sum_nonneg_elems(w, i);
    } else {
        lemma_weight_sum_prefix(w, i + 1);
        lemma_weight_sum_take_succ(w, i);
        lemma_weight_sum_nonneg_elems(w, i);
    }
}

proof fn lemma_weight_sum_nonneg_elems(w: Seq<u64>, i: int)
    requires
        0 <= i <= w.len(),
    ensures
        weight_sum(w.take(i)) >= 0,
        forall|j: int| 0 <= j < i ==> w[j] <= weight_sum(w.take(i)),
    decreases i,
{
    if i > 0 {
        lemma_weight_sum_nonneg_elems(w, i - 1);
        lemma_weight_sum_take_succ(w, i - 1);
    }
}

/// Picks an index with probability proportional to its weight, given `r`
/// drawn uniformly below the sum of the weights: the index whose share of
/// the line `0..sum`, laid out weight after weight, holds `r`. Its weight is
/// therefore positive.
pub fn pick_weighted(weights: &Vec<u64>, r: u128) -> (idx: usize)
    requires
        r < weight_sum(weights@),
    ensures
        idx < weights@.len(),
        weight_sum(weights@.take(idx as int)) <= r < weight_sum(weights@.take(idx + 1)),
        weights@[idx as int] > 0,
{
    let mut acc: u128 = 0;
    let mut i: usize = 0;
    assert(weights@.take(0) =~= Seq::<u64>::empty());
    while i < weights.len()
        invariant
            0 <= i <= weights@.len(),
            acc == weight_sum(weights@.take(i as int)),
            acc <= r,
            r < weight_sum(weights@),
        decreases weights@.len() - i,
    {
        proof {
            lemma_weight_sum_take_succ(weights@, i as int);
        }
        let w = weights[i];
        if r - acc < w as u128 {
            assert(r < weight_sum(weights@.take(i + 1)));
            return i;
        }
        acc = acc + w as u128;
        i = i + 1;
    }
    assert(weights@.take(i as int) =~= weights@);
    assert(false);
    0
}

/// `s` is `v` reordered through the index maps `from` and `at`.
proof fn lemma_reordering(v: Seq<Proxy>, s: Seq<Proxy>, from: Seq<int>, at: Seq<int>)
    requires
        s.len() == v.len(),
        from.len() == v.len(),
        at.len() == v.len(),
        forall|a: int| 0 <= a < v.len() ==> 0 <= #[trigger] from[a] < v.len() && s[a] == v[from[a]],
        forall|a: int, b: int| 0 <= a < b < v.len() ==> #[trigger] from[a] != #[trigger] from[b],
        forall|j: int| 0 <= j < v.len() ==> 0 <= #[trigger] at[j] < v.len() && from[at[j]] == j,
    ensures
        forall|a: int| 0 <= a < s.len() ==> v.contains(#[trigger] s[a]),
        forall|j: int| 0 <= j < v.len() ==> s.contains(#[trigger] v[j]),
        (forall|i: int, j: int| 0 <= i < j < v.len() ==> #[trigger] v[i].addr != #[trigger] v[j].addr)
            ==> forall|a: int, b: int| 0 <= a < b < s.len() ==> #[trigger] s[a].addr != #[trigger] s[b].addr,
{
    assert forall|a: int| 0 <= a < s.len() implies v.contains(#[trigger] s[a]) by {
        assert(0 <= from[a] < v.len());
        assert(v[from[a]] == s[a]);
    }
    assert forall|j: int| 0 <= j < v.len() implies s.contains(#[trigger] v[j]) by {
        assert(0 <= at[j] < s.len());
        assert(s[at[j]] == v[j]);
    }
    if forall|i: int, j: int| 0 <= i < j < v.len() ==> #[trigger] v[i].addr != #[trigger] v[j].addr {
        assert forall|a: int, b: int| 0 <= a < b < s.len() implies #[trigger] s[a].addr != #[trigger] s[b].addr by {
            let fa = from[a];
            let fb = from[b];
            assert(fa != fb);
            if fa < fb {
                assert(v[fa].addr != v[fb].addr);
            } else {
                assert(v[fb].addr != v[fa].addr);
            }
        }
    }
}

/// Where a proxy of this score goes in a list sorted by score, highest first:
/// after every proxy that scores at least as high.
fn insertion_point(s: &Vec<Proxy>, score: u64) -> (pos: usize)
    requires
        forall|a: int, b: int| 0 <= a < b < s@.len() ==> #[trigger] s@[a].score >= #[trigger] s@[b].score,
    ensures
        pos <= s@.len(),
        forall|x: int| 0 <= x < pos ==> #[trigger] s@[x].score >= score,
        forall|x: int| pos <= x < s@.len() ==> #[trigger] s@[x].score < score,
{
    let mut pos: usize = 0;
    while pos < s.len() && s[pos].score >= score
        invariant
            0 <= pos <= s@.len(),
            forall|x: int| 0 <= x < pos ==> #[trigger] s@[x].score >= score,
        decreases s@.len() - pos,
    {
        pos = pos + 1;
    }
    assert forall|x: int| pos <= x < s@.len() implies #[trigger] s@[x].score < score by {
        assert(s@[pos as int].score < score);
        if x > pos {
            assert(s@[pos as int].score >= s@[x].score);
        }
    }
    pos
}

/// `s` is `v` reordered: `s[a]` is `v[from[a]]`, each position of `v` taken
/// once, and proxies of equal score stand in `s` in the order they stood in
/// `v`.
pub open spec fn stable_reordering(v: Seq<Proxy>, s: Seq<Proxy>, from: Seq<int>) -> bool {
    &&& s.len() == v.len()
    &&& from.len() == v.len()
    &&& forall|a: int| 0 <= a < s.len() ==> 0 <= #[trigger] from[a] < v.len() && s[a] == v[from[a]]
    &&& forall|a: int, b: int| 0 <= a < b < s.len() ==> #[trigger] from[a] != #[trigger] from[b]
    &&& forall|a: int, b: int| 0 <= a < b < s.len() && #[trigger] s[a].score == #[trigger] s[b].score
        ==> from[a] < from[b]
}

/// The proxies reordered by score, highest first; proxies of equal score keep
/// their order.
#[verifier::spinoff_prover]
pub fn sort_by_score_desc(v: Vec<Proxy>) -> (s: Vec<Proxy>)
    ensures
        s@.len() == v@.len(),
        forall|a: int, b: int| 0 <= a < b < s@.len() ==> #[trigger] s@[a].score >= #[trigger] s@[b].score,
        forall|a: int| 0 <= a < s@.len() ==> v@.contains(#[trigger] s@[a]),
        forall|j: int| 0 <= j < v@.len() ==> s@.contains(#[trigger] v@[j]),
        (forall|i: int, j: int| 0 <= i < j < v@.len() ==> #[trigger] v@[i].addr != #[trigger] v@[j].addr)
            ==> forall|a: int, b: int| 0 <= a < b < s@.len() ==> #[trigger] s@[a].addr != #[trigger] s@[b].addr,
        exists|from: Seq<int>| #[trigger] stable_reordering(v@, s@, from),
{
    let mut s: Vec<Proxy> = Vec::new();
    // `s@[a]` is `v@[from[a]]`, and `v@[j]` sits at `s@[at[j]]`.
    let ghost mut from: Seq<int> = Seq::empty();
    let ghost mut at: Seq<int> = Seq::empty();
    let mut i: usize = 0;
    while i < v.len()
        invariant
            0 <= i <= v@.len(),
            s@.len() == i,
            from.len() == i,
            at.len() == i,
            forall|a: int, b: int| 0 <= a < b < s@.len() ==> #[trigger] s@[a].score >= #[trigger] s@[b].score,
            forall|a: int| 0 <= a < i ==> 0 <= #[trigger] from[a] < i && s@[a] == v@[from[a]],
            forall|a: int, b: int| 0 <= a < b < i ==> #[trigger] from[a] != #[trigger] from[b],
            forall|j: int| 0 <= j < i ==> 0 <= #[trigger] at[j] < i && from[at[j]] == j,
            forall|a: int, b: int| 0 <= a < b < i && #[trigger] s@[a].score == #[trigger] s@[b].score
                ==> from[a] < from[b],
        decreases v@.len() - i,
    {
        let p = v[i].clone_proxy();
        let pos = insertion_point(&s, p.score);
        let ghost old_s = s@;
        let ghost old_from = from;
        let ghost old_at = at;
        proof {
            old_s.insert_ensures(pos as int, p);
            old_from.insert_ensures(pos as int, i as int);
            from = old_from.insert(pos as int, i as int);
            at = Seq::new(i as nat, |j: int| if old_at[j] >= pos { old_at[j] + 1 } else { old_at[j] }).push(
                pos as int,
            );
        }
        s.insert(pos, p);
        assert(s@ == old_s.insert(pos as int, p));
        assert forall|a: int, b: int| 0 <= a < b < s@.len() implies #[trigger] s@[a].score
            >= #[trigger] s@[b].score by {
            if b < pos {
            } else if b == pos {
                assert(s@[a] == old_s[a]);
            } else if a < pos {
                assert(s@[b] == old_s[b - 1]);
            } else if a == pos {
                assert(s@[b] == old_s[b - 1]);
            } else {
                assert(s@[a] == old_s[a - 1]);
                assert(s@[b] == old_s[b - 1]);
            }
        }
        assert forall|a: int| 0 <= a < i + 1 implies 0 <= #[trigger] from[a] < i + 1 && s@[a] == v@[from[a]] by {
            if a < pos {
                assert(from[a] == old_from[a]);
                assert(s@[a] == old_s[a]);
            } else if a > pos {
                assert(from[a] == old_from[a - 1]);
                assert(s@[a] == old_s[a - 1]);
            }
        }
        assert forall|a: int, b: int| 0 <= a < b < i + 1 implies #[trigger] from[a] != #[trigger] from[b] by {
            let oa = if a < pos { a } else { a - 1 };
            let ob = if b < pos { b } else { b - 1 };
            if a != pos && b != pos {
                assert(from[a] == old_from[oa]);
                assert(from[b] == old_from[ob]);
                assert(old_from[oa] != old_from[ob]);
            } else if a == pos {
                assert(from[b] == old_from[ob]);
            } else {
                assert(from[a] == old_from[oa]);
            }
        }
        assert forall|a: int, b: int| 0 <= a < b < i + 1 && #[trigger] s@[a].score == #[trigger] s@[b].score
            implies from[a] < from[b] by {
            if b < pos {
                assert(s@[a] == old_s[a] && s@[b] == old_s[b]);
                assert(from[a] == old_from[a] && from[b] == old_from[b]);
            } else if b == pos {
                assert(from[a] == old_from[a]);
            } else if a < pos {
                assert(s@[a] == old_s[a] && s@[b] == old_s[b - 1]);
                assert(from[a] == old_from[a] && from[b] == old_from[b - 1]);
            } else if a == pos {
                assert(s@[b] == old_s[b - 1]);
                assert(old_s[b - 1].score < p.score);
            } else {
                assert(s@[a] == old_s[a - 1] && s@[b] == old_s[b - 1]);
                assert(from[a] == old_from[a - 1] && from[b] == old_from[b - 1]);
            }
        }
        assert forall|j: int| 0 <= j < i + 1 implies 0 <= #[trigger] at[j] < i + 1 && from[at[j]] == j by {
            if j < i {
                let oj = old_at[j];
                assert(old_from[oj] == j);
                if oj >= pos {
                    assert(at[j] == oj + 1);
                    assert(from[oj + 1] == old_from[oj]);
                } else {
                    assert(at[j] == oj);
                    assert(from[oj] == old_from[oj]);
                }
            } else {
                assert(at[j] == pos);
            }
        }
        i = i + 1;
    }
    proof {
        lemma_reordering(v@, s@, from, at);
        assert(stable_reordering(v@, s@, from));
    }
    s
}

} // verus!
