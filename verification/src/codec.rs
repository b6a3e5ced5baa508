//! Alphabet codec: five-letter words as tuples of letter indices, and
//! per-position color tuples as compact base-3 pattern integers.

use vstd::prelude::*;

verus! {

/// Errors surfaced by dictionary construction and by the session.
#[derive(Clone, Copy, PartialEq, Eq, Structural, Debug)]
pub enum SolverError {
    /// A word has the wrong length or a character outside `a..=z`.
    InvalidWord,
    /// The answer list is not a subsequence of the guess list.
    DictionaryMismatch,
    /// A feedback integer outside `[0, 242]`.
    InvalidPattern,
    /// `feedback` called before `start`, or after a terminal state.
    ProtocolError,
}

/// The color the game assigns to one letter position.
#[derive(Clone, Copy, PartialEq, Eq, Structural, Debug)]
pub enum Color {
    Absent,
    Present,
    Correct,
}

/// The base-3 digit that encodes a color.
pub open spec fn color_value(c: Color) -> int {
    match c {
        Color::Absent => 0,
        Color::Present => 1,
        Color::Correct => 2,
    }
}

/// A five-letter word: each entry is a letter's 0-based alphabet index.
#[derive(Clone, PartialEq, Eq, Debug)]
pub struct Word {
    pub letters: Vec<u8>,
}

impl View for Word {
    type V = Seq<u8>;

    open spec fn view(&self) -> Seq<u8> {
        self.letters@
    }
}

impl Word {
    /// Well-formed: exactly five letters, each in `[0, 26)`.
    pub open spec fn wf(&self) -> bool {
        &&& self@.len() == 5
        &&& forall|i: int| 0 <= i < 5 ==> self@[i] < 26
    }
}

/// Whether a byte is a lowercase ASCII letter.
pub open spec fn is_lower_alpha(b: u8) -> bool {
    97 <= b <= 122
}

/// Whether a byte string is a valid five-letter lowercase word.
pub open spec fn valid_word_bytes(s: Seq<u8>) -> bool {
    s.len() == 5 && forall|i: int| 0 <= i < 5 ==> is_lower_alpha(s[i])
}

/// Maps a five-letter lowercase ASCII string to a `Word` (`a` becomes 0).
pub fn encode_word(s: &Vec<u8>) -> (r: Result<Word, SolverError>)
    ensures
        r is Ok <==> valid_word_bytes(s@),
        r matches Ok(w) ==> w.wf() && forall|i: int| 0 <= i < 5 ==> w@[i] + 97 == s@[i],
        r matches Err(e) ==> e == SolverError::InvalidWord,
{
    if s.len() != 5 {
        return Err(SolverError::InvalidWord);
    }
    let mut letters: Vec<u8> = Vec::new();
    let mut i: usize = 0;
    while i < 5
        invariant
            i <= 5,
            s@.len() == 5,
            letters@.len() == i,
            forall|j: int| 0 <= j < i ==> is_lower_alpha(s@[j]),
            forall|j: int|
                0 <= j < i ==> (#[trigger] letters@[j]) < 26 && letters@[j] + 97 == s@[j],
        decreases 5 - i,
    {
        let b = s[i];
        if b < 97 || b > 122 {
            return Err(SolverError::InvalidWord);
        }
        letters.push(b - 97);
        i += 1;
    }
    Ok(Word { letters })
}

/// Maps a `Word` back to its five lowercase ASCII bytes; the inverse of
/// `encode_word`.
pub fn decode_word(w: &Word) -> (r: Vec<u8>)
    requires
        w.wf(),
    ensures
        valid_word_bytes(r@),
        forall|i: int| 0 <= i < 5 ==> r@[i] == w@[i] + 97,
{
    let mut out: Vec<u8> = Vec::new();
    let mut i: usize = 0;
    while i < 5
        invariant
            i <= 5,
            w.wf(),
            out@.len() == i,
            forall|j: int| 0 <= j < i ==> is_lower_alpha(out@[j]) && out@[j] == w@[j] + 97,
        decreases 5 - i,
    {
        out.push(w.letters[i] + 97);
        i += 1;
    }
    out
}

/// The pattern integer of a five-color tuple: digit `i` is the color at
/// position `i`, least-significant digit first.
pub open spec fn pattern_of_colors(cs: Seq<Color>) -> int
    recommends
        cs.len() == 5,
{
    color_value(cs[0]) + 3 * color_value(cs[1]) + 9 * color_value(cs[2]) + 27 * color_value(cs[3])
        + 81 * color_value(cs[4])
}

/// Encodes an ordered five-color tuple as its pattern integer.
pub fn encode_pattern(colors: &Vec<Color>) -> (p: u8)
    requires
        colors@.len() == 5,
    ensures
        p as int == pattern_of_colors(colors@),
        p <= 242,
{
    let d0 = color_digit(colors[0]);
    let d1 = color_digit(colors[1]);
    let d2 = color_digit(colors[2]);
    let d3 = color_digit(colors[3]);
    let d4 = color_digit(colors[4]);
    d0 + 3 * d1 + 9 * d2 + 27 * d3 + 81 * d4
}

/// The base-3 digit of one color, as executable code.
fn color_digit(c: Color) -> (d: u8)
    ensures
        d as int == color_value(c),
        d <= 2,
{
    match c {
        Color::Absent => 0,
        Color::Present => 1,
        Color::Correct => 2,
    }
}

/// The five digits of a pattern integer select the colors; a pattern below
/// 243 decodes to the unique color tuple that re-encodes to it.
pub fn decode_pattern(p: u8) -> (r: Vec<Color>)
    requires
        p <= 242,
    ensures
        r@.len() == 5,
        color_value(r@[0]) == p as int % 3,
        color_value(r@[1]) == (p as int / 3) % 3,
        color_value(r@[2]) == (p as int / 9) % 3,
        color_value(r@[3]) == (p as int / 27) % 3,
        color_value(r@[4]) == (p as int / 81) % 3,
        pattern_of_colors(r@) == p as int,
{
    let c0 = digit_color(p % 3);
    let c1 = digit_color((p / 3) % 3);
    let c2 = digit_color((p / 9) % 3);
    let c3 = digit_color((p / 27) % 3);
    let c4 = digit_color((p / 81) % 3);
    let mut out: Vec<Color> = Vec::new();
    out.push(c0);
    out.push(c1);
    out.push(c2);
    out.push(c3);
    out.push(c4);
    proof {
        lemma_digits_recompose(p as int);
    }
    out
}

/// The color of one base-3 digit, as executable code.
fn digit_color(d: u8) -> (c: Color)
    requires
        d <= 2,
    ensures
        color_value(c) == d as int,
{
    if d == 0 {
        Color::Absent
    } else if d == 1 {
        Color::Present
    } else {
        Color::Correct
    }
}

/// A number below 243 is the weighted sum of its five base-3 digits.
proof fn lemma_digits_recompose(p: int)
    requires
        0 <= p <= 242,
    ensures
        p % 3 + 3 * ((p / 3) % 3) + 9 * ((p / 9) % 3) + 27 * ((p / 27) % 3) + 81 * ((p / 81) % 3)
            == p,
{
    assert(p % 3 + 3 * ((p / 3) % 3) + 9 * ((p / 9) % 3) + 27 * ((p / 27) % 3) + 81 * ((p / 81)
        % 3) == p) by (nonlinear_arith)
        requires
            0 <= p <= 242,
    ;
}

/// The digit a feedback symbol stands for: `G` or `2` is correct, `Y` or `1`
/// is present, anything else is absent.
pub open spec fn symbol_value(b: u8) -> int {
    if b == 71 || b == 103 || b == 50 {
        2
    } else if b == 89 || b == 121 || b == 49 {
        1
    } else {
        0
    }
}

/// Parses a five-symbol feedback string (`G`/`Y`/`.` or `2`/`1`/`0`, case
/// insensitive) into its pattern integer, least-significant digit first.
pub fn get_pattern(input: &Vec<u8>) -> (p: u8)
    requires
        input@.len() == 5,
    ensures
        p as int == symbol_value(input@[0]) + 3 * symbol_value(input@[1]) + 9 * symbol_value(
            input@[2],
        ) + 27 * symbol_value(input@[3]) + 81 * symbol_value(input@[4]),
        p <= 242,
{
    let d0 = symbol_digit(input[0]);
    let d1 = symbol_digit(input[1]);
    let d2 = symbol_digit(input[2]);
    let d3 = symbol_digit(input[3]);
    let d4 = symbol_digit(input[4]);
    d0 + 3 * d1 + 9 * d2 + 27 * d3 + 81 * d4
}

/// Whether two words spell the same letters.
pub fn words_equal(x: &Word, y: &Word) -> (r: bool)
    requires
        x@.len() == 5,
        y@.len() == 5,
    ensures
        r <==> x@ == y@,
{
    let mut i: usize = 0;
    while i < 5
        invariant
            i <= 5,
            x@.len() == 5,
            y@.len() == 5,
            forall|j: int| 0 <= j < i ==> x@[j] == y@[j],
        decreases 5 - i,
    {
        if x.letters[i] != y.letters[i] {
            proof {
                assert(x@[i as int] != y@[i as int]);
            }
            return false;
        }
        i += 1;
    }
    proof {
        assert(x@ =~= y@);
    }
    true
}

/// The digit of one feedback symbol.
fn symbol_digit(b: u8) -> (d: u8)
    ensures
        d as int == symbol_value(b),
        d <= 2,
{
    if b == 71 || b == 103 || b == 50 {
        2
    } else if b == 89 || b == 121 || b == 49 {
        1
    } else {
        0
    }
}

} // verus!
