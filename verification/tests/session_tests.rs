use wordle_solver::codec::{encode_word, SolverError, Word};
use wordle_solver::oracle::pattern;
use wordle_solver::scorer::{entropy_score, log2_fixed};
use wordle_solver::session::{new_session, Dictionary, Outcome, Session};

fn w(s: &str) -> Word {
    encode_word(&s.as_bytes().to_vec()).unwrap()
}

fn words(list: &[&str]) -> Vec<Word> {
    list.iter().map(|s| w(s)).collect()
}

const SMALL: [&str; 15] = [
    "about", "alley", "crane", "house", "llama", "other", "pride", "slate", "spill", "stone",
    "their", "there", "water", "which", "would",
];

fn small_session() -> Session {
    new_session(words(&SMALL), words(&SMALL)).unwrap()
}

#[test]
fn dictionary_maps_answer_indices() {
    let guesses = words(&["aback", "crane", "house", "slate", "zonal"]);
    let answers = words(&["crane", "slate"]);
    let d = Dictionary::new(guesses, answers).unwrap();
    assert_eq!(d.answers, vec![1, 3]);
}

#[test]
fn dictionary_rejects_missing_answer() {
    let guesses = words(&["aback", "crane", "house"]);
    let answers = words(&["crane", "slate"]);
    assert_eq!(
        Dictionary::new(guesses, answers).map(|_| ()),
        Err(SolverError::DictionaryMismatch)
    );
}

#[test]
fn dictionary_rejects_out_of_order_answers() {
    let guesses = words(&["aback", "crane", "house"]);
    let answers = words(&["house", "crane"]);
    assert_eq!(
        Dictionary::new(guesses, answers).map(|_| ()),
        Err(SolverError::DictionaryMismatch)
    );
}

#[test]
fn log2_fixed_powers_of_two_are_exact() {
    assert_eq!(log2_fixed(1), 0);
    assert_eq!(log2_fixed(2), 65536);
    assert_eq!(log2_fixed(4), 131072);
    assert_eq!(log2_fixed(8), 3 * 65536);
    assert_eq!(log2_fixed(1024), 10 * 65536);
    // one whole bit separates any value of at least two from one
    assert!(log2_fixed(3) > 65536);
    assert!(log2_fixed(3) < 131072);
}

#[test]
fn entropy_of_separating_guess_is_one_bit() {
    // two candidates, fully separated by the guess: one bit of information,
    // scaled by n = 2 and 2^16.
    let d = Dictionary::new(words(&["aaaaa", "bbbbb"]), words(&["aaaaa", "bbbbb"])).unwrap();
    assert_eq!(entropy_score(&d.words, &vec![0, 1], 0), 2 * 65536);
}

#[test]
fn entropy_of_uninformative_guess_is_zero() {
    // both candidates give the all-absent pattern against the guess: no
    // information gained.
    let d = Dictionary::new(
        words(&["aaaaa", "bbbbb", "ccccc"]),
        words(&["aaaaa", "bbbbb", "ccccc"]),
    )
    .unwrap();
    assert_eq!(entropy_score(&d.words, &vec![1, 2], 0), 0);
}

#[test]
fn entropy_of_fully_separating_guess_attains_log_n() {
    // the guess "abcde" gives each of the four candidates its own pattern
    // bucket, so the score attains its maximum n * flog2(n) = 4 * 2 bits.
    let d = Dictionary::new(
        words(&["abcde", "aaaaa", "bbbbb", "ccccc", "ddddd"]),
        words(&["aaaaa", "bbbbb", "ccccc", "ddddd"]),
    )
    .unwrap();
    assert_eq!(entropy_score(&d.words, &vec![1, 2, 3, 4], 0), 4 * 131072);
}

#[test]
fn opening_is_deterministic() {
    let mut s1 = small_session();
    let mut s2 = small_session();
    let g1 = s1.start();
    let g2 = s2.start();
    assert_eq!(g1, g2);
    s1.reset();
    assert_eq!(s1.start(), g1);
}

#[test]
fn all_correct_feedback_solves() {
    let mut s = small_session();
    let _g0 = s.start();
    assert_eq!(s.feedback(242), Ok(Outcome::Solved));
}

#[test]
fn contradictory_feedback_exhausts() {
    let mut s = new_session(words(&["aaaaa", "bbbbb"]), words(&["aaaaa", "bbbbb"])).unwrap();
    let _g0 = s.start();
    // no word can be present-in-wrong-spot in every position against itself
    // or a disjoint word: this feedback fits no candidate.
    assert_eq!(s.feedback(1), Ok(Outcome::Exhausted));
    assert_eq!(s.candidates_left(), 0);
}

#[test]
fn feedback_before_start_is_protocol_error() {
    let mut s = small_session();
    assert_eq!(s.feedback(0), Err(SolverError::ProtocolError));
}

#[test]
fn feedback_after_terminal_is_protocol_error() {
    let mut s = small_session();
    let _g0 = s.start();
    assert_eq!(s.feedback(242), Ok(Outcome::Solved));
    assert_eq!(s.feedback(0), Err(SolverError::ProtocolError));
}

#[test]
fn feedback_out_of_range_is_invalid_pattern() {
    let mut s = small_session();
    let _g0 = s.start();
    assert_eq!(s.feedback(243), Err(SolverError::InvalidPattern));
    assert_eq!(s.feedback(255), Err(SolverError::InvalidPattern));
}

#[test]
fn six_proposals_then_out_of_turns() {
    // nine pairwise-disjoint words: every guess learns only which single
    // word it was, so all-absent feedback removes one candidate per round.
    let list = [
        "aaaaa", "bbbbb", "ccccc", "ddddd", "eeeee", "fffff", "ggggg", "hhhhh", "iiiii",
    ];
    let mut s = new_session(words(&list), words(&list)).unwrap();
    let mut g = s.start();
    for _round in 0..5 {
        match s.feedback(0) {
            Ok(Outcome::Next(next)) => g = next,
            other => panic!("expected another proposal, got {:?}", other),
        }
    }
    let _ = g;
    assert_eq!(s.history().len(), 6);
    assert_eq!(s.feedback(0), Ok(Outcome::OutOfTurns));
}

#[test]
fn reset_then_replay_gives_identical_history() {
    let mut s = small_session();
    let answer = 8; // "spill"
    let mut first: Vec<usize> = Vec::new();
    for run in 0..2 {
        let mut g = s.start();
        for _round in 0..6 {
            let p = pattern(&s.dict.words[g], &s.dict.words[answer]);
            match s.feedback(p) {
                Ok(Outcome::Next(next)) => g = next,
                Ok(Outcome::Solved) => break,
                other => panic!("unexpected outcome {:?}", other),
            }
        }
        if run == 0 {
            first = s.history().clone();
            s.reset();
            assert_eq!(s.history().len(), 0);
        } else {
            assert_eq!(s.history(), &first);
        }
    }
}

#[test]
fn converges_for_every_answer() {
    // feedback computed by the oracle against each answer in turn: the
    // session must reach the answer within six proposals.
    for answer in 0..SMALL.len() {
        let mut s = small_session();
        let mut g = s.start();
        let mut solved = false;
        for _round in 0..6 {
            let p = pattern(&s.dict.words[g], &s.dict.words[answer]);
            match s.feedback(p) {
                Ok(Outcome::Next(next)) => g = next,
                Ok(Outcome::Solved) => {
                    solved = true;
                    break;
                }
                other => panic!("answer {}: unexpected outcome {:?}", SMALL[answer], other),
            }
        }
        assert!(solved, "answer {} not solved within six proposals", SMALL[answer]);
    }
}

#[test]
fn consistent_feedback_keeps_the_answer() {
    // after each consistent feedback step the true answer stays a candidate
    let mut s = small_session();
    let answer = 2; // "crane"
    let mut g = s.start();
    for _round in 0..6 {
        let p = pattern(&s.dict.words[g], &s.dict.words[answer]);
        match s.feedback(p) {
            Ok(Outcome::Next(next)) => {
                assert!(s.candidates_left() >= 1);
                g = next;
            }
            Ok(Outcome::Solved) => return,
            other => panic!("unexpected outcome {:?}", other),
        }
    }
    panic!("not solved");
}

#[test]
fn render_shows_the_word() {
    let s = small_session();
    assert_eq!(s.render(2), "crane".to_string());
    assert_eq!(s.render_bytes(8), b"spill".to_vec());
}

#[test]
fn history_records_proposals() {
    let mut s = small_session();
    let g0 = s.start();
    assert_eq!(s.history(), &vec![g0]);
    match s.feedback(0) {
        Ok(Outcome::Next(g1)) => assert_eq!(s.history(), &vec![g0, g1]),
        Ok(Outcome::Exhausted) => panic!("unexpected exhaustion"),
        other => panic!("unexpected outcome {:?}", other),
    }
}
