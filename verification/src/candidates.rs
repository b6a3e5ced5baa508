//! Candidate-set maintenance: the answer indices still consistent with the
//! feedback observed so far, rebuilt by filtering on each feedback step.

use vstd::prelude::*;
use vstd::multiset::Multiset;
use vstd::seq_lib::group_seq_properties;
use crate::codec::Word;
use crate::oracle::{pattern, pattern_spec, lemma_pattern_range};

verus! {

/// Whether candidate index `w` would produce pattern `obs` against guess
/// index `g`.
pub open spec fn cand_matches(words: Seq<Word>, g: int, w: int, obs: int) -> bool {
    pattern_spec(words[g]@, words[w]@) == obs
}

/// The subsequence of `cands` whose words produce pattern `obs` against the
/// guess: exactly the candidates consistent with that feedback, in their
/// original order.
pub open spec fn filter_spec(cands: Seq<usize>, words: Seq<Word>, g: int, obs: int) -> Seq<usize>
    decreases cands.len(),
{
    if cands.len() == 0 {
        Seq::empty()
    } else {
        let rest = filter_spec(cands.drop_last(), words, g, obs);
        if cand_matches(words, g, cands.last() as int, obs) {
            rest.push(cands.last())
        } else {
            rest
        }
    }
}

/// All indices in `cands` lie below `n`.
pub open spec fn cands_in_range(cands: Seq<usize>, n: int) -> bool {
    forall|i: int| 0 <= i < cands.len() ==> (#[trigger] cands[i]) < n
}

/// Retains exactly the candidates whose word yields `obs` against the guess.
pub fn filter_candidates(words: &Vec<Word>, cands: &Vec<usize>, guess: usize, obs: u8) -> (r: Vec<
    usize,
>)
    requires
        guess < words@.len(),
        cands_in_range(cands@, words@.len() as int),
        forall|i: int| 0 <= i < words@.len() ==> (#[trigger] words@[i])@.len() == 5,
    ensures
        r@ == filter_spec(cands@, words@, guess as int, obs as int),
        r@.len() <= cands@.len(),
        cands_in_range(r@, words@.len() as int),
{
    let mut r: Vec<usize> = Vec::new();
    let mut i: usize = 0;
    while i < cands.len()
        invariant
            i <= cands@.len(),
            guess < words@.len(),
            cands_in_range(cands@, words@.len() as int),
            forall|j: int| 0 <= j < words@.len() ==> (#[trigger] words@[j])@.len() == 5,
            r@ == filter_spec(cands@.take(i as int), words@, guess as int, obs as int),
            r@.len() <= i,
            cands_in_range(r@, words@.len() as int),
        decreases cands@.len() - i,
    {
        let w = cands[i];
        let p = pattern(&words[guess], &words[w]);
        proof {
            assert(cands@.take(i as int + 1).drop_last() =~= cands@.take(i as int));
            assert(cands@.take(i as int + 1).last() == cands@[i as int]);
        }
        if p == obs {
            r.push(w);
        }
        i += 1;
    }
    proof {
        assert(cands@.take(cands@.len() as int) =~= cands@);
    }
    r
}

/// Every index the filter keeps was already a candidate.
pub proof fn lemma_filter_elements(cands: Seq<usize>, words: Seq<Word>, g: int, obs: int)
    ensures
        forall|j: int|
            0 <= j < filter_spec(cands, words, g, obs).len() ==> cands.contains(
                #[trigger] filter_spec(cands, words, g, obs)[j],
            ),
        filter_spec(cands, words, g, obs).len() <= cands.len(),
    decreases cands.len(),
{
    broadcast use group_seq_properties;

    if cands.len() > 0 {
        lemma_filter_elements(cands.drop_last(), words, g, obs);
        let f = filter_spec(cands, words, g, obs);
        let fr = filter_spec(cands.drop_last(), words, g, obs);
        assert forall|j: int| 0 <= j < f.len() implies cands.contains(#[trigger] f[j]) by {
            if j < fr.len() {
                assert(cands.drop_last().contains(fr[j]));
                let k = choose|k: int| 0 <= k < cands.drop_last().len() && cands.drop_last()[k]
                    == fr[j];
                assert(cands[k] == f[j]);
            } else {
                assert(f[j] == cands.last());
                assert(cands[cands.len() - 1] == cands.last());
            }
        }
    }
}

/// A candidate whose word actually produces the observed pattern against the
/// guess survives the filter: consistent feedback never discards the answer.
pub proof fn lemma_filter_retains_consistent(
    cands: Seq<usize>,
    words: Seq<Word>,
    g: int,
    a: usize,
    obs: int,
)
    requires
        cands.contains(a),
        cand_matches(words, g, a as int, obs),
    ensures
        filter_spec(cands, words, g, obs).contains(a),
    decreases cands.len(),
{
    broadcast use group_seq_properties;

    let f = filter_spec(cands, words, g, obs);
    if cands.last() == a {
        assert(f.last() == a);
        assert(f.contains(a));
    } else {
        let k = choose|k: int| 0 <= k < cands.len() && cands[k] == a;
        assert(cands.drop_last()[k] == a);
        assert(cands.drop_last().contains(a));
        lemma_filter_retains_consistent(cands.drop_last(), words, g, a, obs);
        let fr = filter_spec(cands.drop_last(), words, g, obs);
        let j = choose|j: int| 0 <= j < fr.len() && fr[j] == a;
        assert(f[j] == a);
        assert(f.contains(a));
    }
}

/// The multiset union of the filter buckets for all patterns below `k`.
pub open spec fn buckets_upto(cands: Seq<usize>, words: Seq<Word>, g: int, k: int) -> Multiset<
    usize,
>
    decreases k,
{
    if k <= 0 {
        Multiset::empty()
    } else {
        buckets_upto(cands, words, g, k - 1).add(
            filter_spec(cands, words, g, k - 1).to_multiset(),
        )
    }
}

/// With no candidates every bucket is empty.
proof fn lemma_buckets_empty(words: Seq<Word>, g: int, k: int)
    ensures
        buckets_upto(Seq::empty(), words, g, k) =~= Multiset::empty(),
    decreases k,
{
    broadcast use vstd::seq_lib::group_to_multiset_ensures;

    if k > 0 {
        lemma_buckets_empty(words, g, k - 1);
        assert(filter_spec(Seq::empty(), words, g, k - 1) =~= Seq::<usize>::empty());
        assert(Seq::<usize>::empty().to_multiset() =~= Multiset::empty());
    }
}

/// Appending one candidate adds it to exactly the bucket of its own pattern.
proof fn lemma_buckets_push(cands: Seq<usize>, words: Seq<Word>, g: int, x: usize, k: int)
    ensures
        buckets_upto(cands.push(x), words, g, k) =~= if 0 <= pattern_spec(words[g]@, words[x as int]@)
            < k {
            buckets_upto(cands, words, g, k).insert(x)
        } else {
            buckets_upto(cands, words, g, k)
        },
    decreases k,
{
    broadcast use vstd::seq_lib::group_to_multiset_ensures;

    if k > 0 {
        lemma_buckets_push(cands, words, g, x, k - 1);
        let p = pattern_spec(words[g]@, words[x as int]@);
        assert(cands.push(x).drop_last() =~= cands);
        assert(cands.push(x).last() == x);
        let f = filter_spec(cands.push(x), words, g, k - 1);
        let fr = filter_spec(cands, words, g, k - 1);
        if p == k - 1 {
            assert(f =~= fr.push(x));
            assert(f.to_multiset() =~= fr.to_multiset().insert(x));
        } else {
            assert(f =~= fr);
        }
    }
}

/// Partitioning the candidate set by the pattern each candidate yields
/// against the guess reproduces the set exactly: no candidate is lost and
/// none is duplicated.
pub proof fn lemma_filter_partition(cands: Seq<usize>, words: Seq<Word>, g: int)
    ensures
        buckets_upto(cands, words, g, 243) =~= cands.to_multiset(),
    decreases cands.len(),
{
    broadcast use vstd::seq_lib::group_to_multiset_ensures;

    if cands.len() == 0 {
        lemma_buckets_empty(words, g, 243);
        assert(cands =~= Seq::empty());
        assert(cands.to_multiset() =~= Multiset::empty());
    } else {
        let rest = cands.drop_last();
        let x = cands.last();
        lemma_filter_partition(rest, words, g);
        lemma_pattern_range(words[g]@, words[x as int]@);
        lemma_buckets_push(rest, words, g, x, 243);
        assert(rest.push(x) =~= cands);
        assert(cands.to_multiset() =~= rest.to_multiset().insert(x));
    }
}

} // verus!
