//! Pattern oracle: the pattern the game would display for a guess against a
//! hypothesized answer, with the canonical duplicate-letter tie-breaking rule.
//!
//! A position whose guess letter matches the answer letter is correct. Among
//! the remaining positions, a guess letter is present-in-wrong-spot only while
//! the answer still has unconsumed occurrences of that letter: correct
//! positions consume their occurrence first, and the rest is handed out left
//! to right. Excess duplicates come out absent.

use vstd::prelude::*;
use crate::codec::Word;

verus! {

/// How many of the first `n` entries of `s` equal `c`.
pub open spec fn count_upto(s: Seq<u8>, c: u8, n: int) -> int
    decreases n,
{
    if n <= 0 {
        0
    } else {
        count_upto(s, c, n - 1) + if s[n - 1] == c {
            1int
        } else {
            0int
        }
    }
}

/// How many of the first `n` positions are correct (guess equals answer) with
/// letter `c`.
pub open spec fn greens_upto(g: Seq<u8>, a: Seq<u8>, c: u8, n: int) -> int
    decreases n,
{
    if n <= 0 {
        0
    } else {
        greens_upto(g, a, c, n - 1) + if g[n - 1] == c && g[n - 1] == a[n - 1] {
            1int
        } else {
            0int
        }
    }
}

/// How many of the first `n` positions carry guess letter `c` without being
/// correct.
pub open spec fn nongreens_upto(g: Seq<u8>, a: Seq<u8>, c: u8, n: int) -> int
    decreases n,
{
    if n <= 0 {
        0
    } else {
        nongreens_upto(g, a, c, n - 1) + if g[n - 1] == c && g[n - 1] != a[n - 1] {
            1int
        } else {
            0int
        }
    }
}

/// The occurrences of `c` in the answer that correct positions leave over for
/// wrong-spot coloring.
pub open spec fn available(g: Seq<u8>, a: Seq<u8>, c: u8) -> int {
    count_upto(a, c, 5) - greens_upto(g, a, c, 5)
}

/// The base-3 digit of position `i`: 2 when correct; otherwise 1 exactly when
/// this position's rank among the non-correct occurrences of its letter does
/// not exceed the answer's leftover supply of that letter; otherwise 0.
pub open spec fn color_digit_spec(g: Seq<u8>, a: Seq<u8>, i: int) -> int {
    if g[i] == a[i] {
        2
    } else if nongreens_upto(g, a, g[i], i + 1) <= available(g, a, g[i]) {
        1
    } else {
        0
    }
}

/// The pattern of a guess against an answer: five base-3 digits, the digit of
/// position 0 least significant.
pub open spec fn pattern_spec(g: Seq<u8>, a: Seq<u8>) -> int {
    color_digit_spec(g, a, 0) + 3 * color_digit_spec(g, a, 1) + 9 * color_digit_spec(g, a, 2) + 27
        * color_digit_spec(g, a, 3) + 81 * color_digit_spec(g, a, 4)
}

/// Correct positions never outnumber the answer's occurrences of a letter.
proof fn lemma_greens_le_count(g: Seq<u8>, a: Seq<u8>, c: u8, n: int)
    ensures
        0 <= greens_upto(g, a, c, n) <= count_upto(a, c, n),
        0 <= nongreens_upto(g, a, c, n),
        count_upto(a, c, n) <= if n <= 0 {
            0int
        } else {
            n
        },
    decreases n,
{
    if n > 0 {
        lemma_greens_le_count(g, a, c, n - 1);
    }
}

/// How many entries of the first `n` of `s` equal `c`, as executable code.
fn count_in(s: &Word, c: u8, n: usize) -> (r: u8)
    requires
        s@.len() == 5,
        n <= 5,
    ensures
        r as int == count_upto(s@, c, n as int),
        r <= 5,
{
    let mut r: u8 = 0;
    let mut i: usize = 0;
    while i < n
        invariant
            i <= n <= 5,
            s@.len() == 5,
            r as int == count_upto(s@, c, i as int),
            r <= i,
        decreases n - i,
    {
        if s.letters[i] == c {
            r += 1;
        }
        i += 1;
    }
    r
}

/// How many correct positions carry letter `c`, as executable code.
fn greens_in(g: &Word, a: &Word, c: u8) -> (r: u8)
    requires
        g@.len() == 5,
        a@.len() == 5,
    ensures
        r as int == greens_upto(g@, a@, c, 5),
        r <= 5,
{
    let mut r: u8 = 0;
    let mut i: usize = 0;
    while i < 5
        invariant
            i <= 5,
            g@.len() == 5,
            a@.len() == 5,
            r as int == greens_upto(g@, a@, c, i as int),
            r <= i,
        decreases 5 - i,
    {
        if g.letters[i] == c && g.letters[i] == a.letters[i] {
            r += 1;
        }
        i += 1;
    }
    r
}

/// How many of the first `n` positions carry guess letter `c` without being
/// correct, as executable code.
fn nongreens_in(g: &Word, a: &Word, c: u8, n: usize) -> (r: u8)
    requires
        g@.len() == 5,
        a@.len() == 5,
        n <= 5,
    ensures
        r as int == nongreens_upto(g@, a@, c, n as int),
        r <= 5,
{
    let mut r: u8 = 0;
    let mut i: usize = 0;
    while i < n
        invariant
            i <= n <= 5,
            g@.len() == 5,
            a@.len() == 5,
            r as int == nongreens_upto(g@, a@, c, i as int),
            r <= i,
        decreases n - i,
    {
        if g.letters[i] == c && g.letters[i] != a.letters[i] {
            r += 1;
        }
        i += 1;
    }
    r
}

/// The base-3 digit of position `i`, as executable code.
fn digit_at(g: &Word, a: &Word, i: usize) -> (d: u8)
    requires
        g@.len() == 5,
        a@.len() == 5,
        i < 5,
    ensures
        d as int == color_digit_spec(g@, a@, i as int),
        d <= 2,
{
    let c = g.letters[i];
    if c == a.letters[i] {
        2
    } else {
        let rank = nongreens_in(g, a, c, i + 1);
        let supply = count_in(a, c, 5);
        let taken = greens_in(g, a, c);
        proof {
            lemma_greens_le_count(g@, a@, c, 5);
        }
        if rank <= supply - taken {
            1
        } else {
            0
        }
    }
}

/// The pattern the game displays for `guess` against `answer`.
pub fn pattern(guess: &Word, answer: &Word) -> (p: u8)
    requires
        guess@.len() == 5,
        answer@.len() == 5,
    ensures
        p as int == pattern_spec(guess@, answer@),
        p <= 242,
{
    let d0 = digit_at(guess, answer, 0);
    let d1 = digit_at(guess, answer, 1);
    let d2 = digit_at(guess, answer, 2);
    let d3 = digit_at(guess, answer, 3);
    let d4 = digit_at(guess, answer, 4);
    d0 + 3 * d1 + 9 * d2 + 27 * d3 + 81 * d4
}

/// Every pattern lies in `[0, 243)`.
pub proof fn lemma_pattern_range(g: Seq<u8>, a: Seq<u8>)
    ensures
        0 <= pattern_spec(g, a) <= 242,
{
}

/// A word guessed against itself is correct in every position: its pattern is
/// the all-correct value 242.
pub proof fn lemma_pattern_self(w: Seq<u8>)
    ensures
        pattern_spec(w, w) == 242,
{
}

} // verus!
