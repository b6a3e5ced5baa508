use wordle_solver::codec::{
    encode_word, decode_word, encode_pattern, decode_pattern, get_pattern, Color, SolverError,
};
use wordle_solver::codec::Color::{Absent, Present, Correct};

fn bytes(s: &str) -> Vec<u8> {
    s.as_bytes().to_vec()
}

#[test]
fn encode_decode_word_roundtrip() {
    let w = encode_word(&bytes("crane")).unwrap();
    assert_eq!(decode_word(&w), bytes("crane"));
    let w = encode_word(&bytes("abcde")).unwrap();
    assert_eq!(decode_word(&w), bytes("abcde"));
    let w = encode_word(&bytes("zzzzz")).unwrap();
    assert_eq!(decode_word(&w), bytes("zzzzz"));
}

#[test]
fn encode_word_rejects_wrong_length() {
    assert_eq!(encode_word(&bytes("carn")), Err(SolverError::InvalidWord));
    assert_eq!(encode_word(&bytes("cranes")), Err(SolverError::InvalidWord));
    assert_eq!(encode_word(&bytes("")), Err(SolverError::InvalidWord));
}

#[test]
fn encode_word_rejects_bad_characters() {
    assert_eq!(encode_word(&bytes("cranE")), Err(SolverError::InvalidWord));
    assert_eq!(encode_word(&bytes("cr4ne")), Err(SolverError::InvalidWord));
    assert_eq!(encode_word(&bytes("cran ")), Err(SolverError::InvalidWord));
}

#[test]
fn encode_pattern_values() {
    assert_eq!(encode_pattern(&vec![Correct, Correct, Correct, Correct, Correct]), 242);
    assert_eq!(encode_pattern(&vec![Absent, Absent, Absent, Absent, Absent]), 0);
    assert_eq!(encode_pattern(&vec![Present, Absent, Absent, Absent, Absent]), 1);
    assert_eq!(encode_pattern(&vec![Absent, Absent, Correct, Absent, Absent]), 18);
    assert_eq!(encode_pattern(&vec![Correct, Present, Absent, Present, Correct]), 2 + 3 + 27 + 162);
}

#[test]
fn decode_pattern_inverts_encode() {
    for p in 0u8..=242u8 {
        let colors = decode_pattern(p);
        assert_eq!(colors.len(), 5);
        assert_eq!(encode_pattern(&colors), p);
    }
}

#[test]
fn decode_pattern_digits() {
    assert_eq!(decode_pattern(18), vec![Absent, Absent, Correct, Absent, Absent]);
    assert_eq!(decode_pattern(0), vec![Absent; 5]);
    assert_eq!(decode_pattern(242), vec![Correct; 5]);
}

#[test]
fn get_pattern_parses_symbols() {
    assert_eq!(get_pattern(&bytes("GGGGG")), 242);
    assert_eq!(get_pattern(&bytes(".....")), 0);
    assert_eq!(get_pattern(&bytes("Y....")), 1);
    assert_eq!(get_pattern(&bytes("..G..")), 18);
    assert_eq!(get_pattern(&bytes("22222")), 242);
    assert_eq!(get_pattern(&bytes("00200")), 18);
    assert_eq!(get_pattern(&bytes("10000")), 1);
    assert_eq!(get_pattern(&bytes("gy..G")), 2 + 3 + 162);
}
