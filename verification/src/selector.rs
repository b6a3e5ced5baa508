//! Guess selector: picks the next guess by maximizing the scorer, scanning
//! the whole guess dictionary in the general case and only the remaining
//! candidates in the endgame. Ties are broken by the first word attaining the
//! maximum (strict `>` during the scan), so the choice is a deterministic
//! function of dictionary order.

use vstd::prelude::*;
use crate::codec::Word;
use crate::candidates::cands_in_range;
use crate::scorer::{score_spec, entropy_score};

verus! {

/// The first index in `[0, n)` of the guess dictionary attaining the maximal
/// score against `cands`.
pub open spec fn best_guess_all(words: Seq<Word>, cands: Seq<usize>, n: int) -> int
    decreases n,
{
    if n <= 1 {
        0
    } else {
        let b = best_guess_all(words, cands, n - 1);
        if score_spec(cands, words, n - 1) > score_spec(cands, words, b) {
            n - 1
        } else {
            b
        }
    }
}

/// The first position in `[0, n)` of the candidate list whose word attains
/// the maximal score against `cands`.
pub open spec fn best_guess_cands(words: Seq<Word>, cands: Seq<usize>, n: int) -> int
    decreases n,
{
    if n <= 1 {
        0
    } else {
        let b = best_guess_cands(words, cands, n - 1);
        if score_spec(cands, words, cands[n - 1] as int) > score_spec(
            cands,
            words,
            cands[b] as int,
        ) {
            n - 1
        } else {
            b
        }
    }
}

/// The guess the selector proposes for the candidate set `cands`: with more
/// than two candidates, the best word of the whole dictionary; with one or
/// two, the best of the candidates themselves, which guarantees termination.
pub open spec fn chosen_guess(words: Seq<Word>, cands: Seq<usize>) -> int {
    if cands.len() <= 2 {
        cands[best_guess_cands(words, cands, cands.len() as int)] as int
    } else {
        best_guess_all(words, cands, words.len() as int)
    }
}

/// Scans the whole guess dictionary for the first score maximum.
fn scan_all(words: &Vec<Word>, cands: &Vec<usize>) -> (r: (usize, u64))
    requires
        words@.len() >= 1,
        cands_in_range(cands@, words@.len() as int),
        forall|i: int| 0 <= i < words@.len() ==> (#[trigger] words@[i])@.len() == 5,
        1 <= cands@.len() < 0x1_0000_0000,
    ensures
        r.0 as int == best_guess_all(words@, cands@, words@.len() as int),
        r.0 < words@.len(),
        r.1 as int == score_spec(cands@, words@, r.0 as int),
{
    let mut best: usize = 0;
    let mut best_score: u64 = entropy_score(words, cands, 0);
    let mut i: usize = 1;
    while i < words.len()
        invariant
            1 <= i <= words@.len(),
            cands_in_range(cands@, words@.len() as int),
            forall|j: int| 0 <= j < words@.len() ==> (#[trigger] words@[j])@.len() == 5,
            1 <= cands@.len() < 0x1_0000_0000,
            best as int == best_guess_all(words@, cands@, i as int),
            best < i,
            best_score as int == score_spec(cands@, words@, best as int),
        decreases words@.len() - i,
    {
        let s = entropy_score(words, cands, i);
        if s > best_score {
            best = i;
            best_score = s;
        }
        i += 1;
    }
    (best, best_score)
}

/// Scans only the candidates themselves for the first score maximum.
fn scan_cands(words: &Vec<Word>, cands: &Vec<usize>) -> (r: (usize, u64))
    requires
        cands_in_range(cands@, words@.len() as int),
        forall|i: int| 0 <= i < words@.len() ==> (#[trigger] words@[i])@.len() == 5,
        1 <= cands@.len() < 0x1_0000_0000,
    ensures
        r.0 as int == cands@[best_guess_cands(words@, cands@, cands@.len() as int)] as int,
        r.0 < words@.len(),
        r.1 as int == score_spec(cands@, words@, r.0 as int),
{
    let mut best_pos: usize = 0;
    let mut best_score: u64 = entropy_score(words, cands, cands[0]);
    let mut i: usize = 1;
    while i < cands.len()
        invariant
            1 <= i <= cands@.len(),
            cands_in_range(cands@, words@.len() as int),
            forall|j: int| 0 <= j < words@.len() ==> (#[trigger] words@[j])@.len() == 5,
            1 <= cands@.len() < 0x1_0000_0000,
            best_pos as int == best_guess_cands(words@, cands@, i as int),
            best_pos < i,
            best_score as int == score_spec(cands@, words@, cands@[best_pos as int] as int),
        decreases cands@.len() - i,
    {
        let s = entropy_score(words, cands, cands[i]);
        if s > best_score {
            best_pos = i;
            best_score = s;
        }
        i += 1;
    }
    (cands[best_pos], best_score)
}

/// Proposes the next guess for the candidate set, together with its score.
pub fn next_guess(words: &Vec<Word>, cands: &Vec<usize>) -> (r: (usize, u64))
    requires
        cands_in_range(cands@, words@.len() as int),
        forall|i: int| 0 <= i < words@.len() ==> (#[trigger] words@[i])@.len() == 5,
        1 <= cands@.len() < 0x1_0000_0000,
    ensures
        r.0 as int == chosen_guess(words@, cands@),
        r.0 < words@.len(),
        r.1 as int == score_spec(cands@, words@, r.0 as int),
{
    proof {
        assert(cands@[0] < words@.len());
    }
    if cands.len() <= 2 {
        scan_cands(words, cands)
    } else {
        scan_all(words, cands)
    }
}

} // verus!
