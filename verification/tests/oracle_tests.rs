use wordle_solver::codec::{encode_word, Word};
use wordle_solver::oracle::pattern;

fn w(s: &str) -> Word {
    encode_word(&s.as_bytes().to_vec()).unwrap()
}

#[test]
fn pattern_self_is_all_correct() {
    assert_eq!(pattern(&w("crane"), &w("crane")), 242);
    assert_eq!(pattern(&w("spill"), &w("spill")), 242);
    assert_eq!(pattern(&w("aaaaa"), &w("aaaaa")), 242);
}

#[test]
fn pattern_disjoint_is_all_absent() {
    assert_eq!(pattern(&w("aaaaa"), &w("bbbbb")), 0);
    assert_eq!(pattern(&w("digit"), &w("vowel")), 0);
}

#[test]
fn pattern_simple_mix() {
    // guess "speed" vs answer "abide": first e present, second e absent
    // (one e in the answer), d present.
    assert_eq!(pattern(&w("speed"), &w("abide")), 9 + 81);
    // guess "nacre" vs its anagram "crane": only the final e matches its
    // position; every other letter is present in the wrong spot.
    assert_eq!(pattern(&w("nacre"), &w("crane")), 1 + 3 + 9 + 27 + 162);
}

#[test]
fn pattern_duplicate_excess_absent() {
    // guess "alley" vs answer "spill": no position matches; the answer has
    // two ls, so both guess ls are present-in-wrong-spot; a, e, y absent.
    assert_eq!(pattern(&w("alley"), &w("spill")), 3 + 9);
    // guess "lulls" vs answer "spill": the l at 3 matches and consumes one
    // of the answer's two ls; the leftmost non-matching l (position 0) takes
    // the leftover; the l at position 2 is excess and comes out absent; the
    // final s is present in the wrong spot.
    assert_eq!(pattern(&w("lulls"), &w("spill")), 1 + 54 + 81);
}

#[test]
fn pattern_duplicate_supply_left_to_right() {
    // guess "llama" vs answer "spill": both guess ls fit the answer's two
    // ls, handed out left to right; both as and the m are absent.
    assert_eq!(pattern(&w("llama"), &w("spill")), 1 + 3);
    // guess "lllll" vs answer "spill": the two correct positions consume the
    // answer's supply, so the first three guess ls are absent.
    assert_eq!(pattern(&w("lllll"), &w("spill")), 54 + 162);
}

#[test]
fn pattern_correct_consumes_before_present() {
    // guess "allot" vs answer "balls": a present, l correct at 2? a-l-l-o-t
    // vs b-a-l-l-s: l at 2 matches, l at 1 takes the answer's other l,
    // a present, o and t absent.
    assert_eq!(pattern(&w("allot"), &w("balls")), 1 + 3 + 18);
}
