//! Session: orchestrates a game. It owns the dictionaries and the candidate
//! set, proposes guesses, accepts feedback patterns, and detects the game-over
//! conditions. The whole transition relation is a pure function of the
//! previous state and the feedback value.

use vstd::prelude::*;
use crate::codec::{Word, SolverError, words_equal, valid_word_bytes};
use crate::candidates::{filter_spec, cands_in_range, filter_candidates};
use crate::selector::{chosen_guess, next_guess};
use crate::scorer::score_spec;

verus! {

/// Whether the words of `a` appear, in order, among the words of `g`.
pub open spec fn is_subseq_words(a: Seq<Word>, g: Seq<Word>) -> bool
    decreases g.len(),
{
    if a.len() == 0 {
        true
    } else if g.len() == 0 {
        false
    } else if a[0]@ == g[0]@ {
        is_subseq_words(a.skip(1), g.skip(1))
    } else {
        is_subseq_words(a, g.skip(1))
    }
}

/// No word in `g` at a position in `[lo, hi)` spells `w`.
pub open spec fn no_match_in(g: Seq<Word>, w: Seq<u8>, lo: int, hi: int) -> bool {
    forall|t: int| lo <= t < hi ==> (#[trigger] g[t])@ != w
}

/// The embedding `ans` of the answer words into the guess words is the
/// leftmost one: each index is the first possible position after its
/// predecessor.
pub open spec fn leftmost_embedding(g: Seq<Word>, a: Seq<Word>, ans: Seq<usize>) -> bool {
    forall|j: int|
        0 <= j < ans.len() ==> no_match_in(
            g,
            a[j]@,
            if j == 0 {
                0int
            } else {
                ans[j - 1] + 1
            },
            #[trigger] ans[j] as int,
        )
}

/// The two dictionaries: every legal guess word, and the indices into it of
/// the words that can be the hidden answer, together with the precomputed
/// opening guess.
pub struct Dictionary {
    /// Every legal guess word, in dictionary order.
    pub words: Vec<Word>,
    /// Indices into `words` of the possible answers, in dictionary order.
    pub answers: Vec<usize>,
    /// The opening guess: the selector's choice on the full answer set.
    pub opening: usize,
    /// The opening guess's score on the full answer set.
    pub opening_score: u64,
}

impl Dictionary {
    /// Well-formed: words are five-letter words, answer indices are strictly
    /// increasing positions in the guess list, and the opening guess is the
    /// selector's choice on the full answer set.
    pub open spec fn wf(&self) -> bool {
        &&& forall|i: int| 0 <= i < self.words@.len() ==> (#[trigger] self.words@[i]).wf()
        &&& 1 <= self.answers@.len() <= self.words@.len() < 0x1_0000_0000
        &&& cands_in_range(self.answers@, self.words@.len() as int)
        &&& forall|j: int|
            0 < j < self.answers@.len() ==> self.answers@[j - 1] < #[trigger] self.answers@[j]
        &&& self.opening as int == chosen_guess(self.words@, self.answers@)
        &&& self.opening < self.words@.len()
        &&& self.opening_score as int == score_spec(
            self.answers@,
            self.words@,
            self.opening as int,
        )
    }

    /// Builds the dictionaries from the parsed guess list and answer list.
    ///
    /// Succeeds exactly when the answer words appear, in order, among the
    /// guess words; the computed indices are the positions of that embedding.
    /// The opening guess is computed here, once, by the selector itself.
    pub fn new(guess_words: Vec<Word>, answer_words: Vec<Word>) -> (r: Result<
        Dictionary,
        SolverError,
    >)
        requires
            forall|i: int| 0 <= i < guess_words@.len() ==> (#[trigger] guess_words@[i]).wf(),
            forall|i: int| 0 <= i < answer_words@.len() ==> (#[trigger] answer_words@[i]).wf(),
            1 <= answer_words@.len(),
            guess_words@.len() < 0x1_0000_0000,
        ensures
            r is Ok <==> is_subseq_words(answer_words@, guess_words@),
            r matches Err(e) ==> e == SolverError::DictionaryMismatch,
            r matches Ok(d) ==> {
                &&& d.wf()
                &&& d.words@ == guess_words@
                &&& d.answers@.len() == answer_words@.len()
                &&& forall|j: int|
                    0 <= j < d.answers@.len() ==> guess_words@[#[trigger] d.answers@[j] as int]@
                        == answer_words@[j]@
                &&& leftmost_embedding(guess_words@, answer_words@, d.answers@)
            },
    {
        proof {
            assert forall|i: int| 0 <= i < guess_words@.len() implies (#[trigger] guess_words@[i])@.len()
                == 5 by {
                assert(guess_words@[i].wf());
            }
            assert forall|i: int| 0 <= i < answer_words@.len() implies (#[trigger] answer_words@[i])@.len()
                == 5 by {
                assert(answer_words@[i].wf());
            }
        }
        let merged = merge_answers(&guess_words, &answer_words);
        match merged {
            Err(e) => Err(e),
            Ok(ans) => {
                let (opening, opening_score) = next_guess(&guess_words, &ans);
                let d = Dictionary { words: guess_words, answers: ans, opening, opening_score };
                proof {
                    assert(d.wf());
                }
                Ok(d)
            },
        }
    }

    /// The number of words in the guess dictionary.
    pub fn len(&self) -> (n: usize)
        ensures
            n == self.words@.len(),
    {
        self.words.len()
    }
}

/// Computes, by a single linear merge, an embedding of the answer words
/// into the guess words; fails exactly when none exists.
fn merge_answers(guess_words: &Vec<Word>, answer_words: &Vec<Word>) -> (r: Result<
    Vec<usize>,
    SolverError,
>)
    requires
        forall|i: int| 0 <= i < guess_words@.len() ==> (#[trigger] guess_words@[i])@.len() == 5,
        forall|i: int| 0 <= i < answer_words@.len() ==> (#[trigger] answer_words@[i])@.len() == 5,
    ensures
        r is Ok <==> is_subseq_words(answer_words@, guess_words@),
        r matches Err(e) ==> e == SolverError::DictionaryMismatch,
        r matches Ok(ans) ==> {
            &&& ans@.len() == answer_words@.len()
            &&& ans@.len() <= guess_words@.len()
            &&& cands_in_range(ans@, guess_words@.len() as int)
            &&& forall|j: int| 0 < j < ans@.len() ==> ans@[j - 1] < #[trigger] ans@[j]
            &&& forall|j: int|
                0 <= j < ans@.len() ==> guess_words@[#[trigger] ans@[j] as int]@
                    == answer_words@[j]@
            &&& leftmost_embedding(guess_words@, answer_words@, ans@)
        },
{
        let ghost aw = answer_words@;
        let ghost gw = guess_words@;
        proof {
            assert(aw.skip(0) =~= aw);
            assert(gw.skip(0) =~= gw);
        }
        let mut ans: Vec<usize> = Vec::new();
        let mut i: usize = 0;
        let mut p: usize = 0;
        while i < guess_words.len() && p < answer_words.len()
            invariant
                i <= gw.len(),
                p <= aw.len(),
                guess_words@ == gw,
                answer_words@ == aw,
                forall|q: int| 0 <= q < gw.len() ==> (#[trigger] gw[q])@.len() == 5,
                forall|q: int| 0 <= q < aw.len() ==> (#[trigger] aw[q])@.len() == 5,
                ans@.len() == p,
                p <= i,
                forall|j: int| 0 <= j < p ==> (#[trigger] ans@[j]) < i,
                forall|j: int| 0 < j < p ==> ans@[j - 1] < #[trigger] ans@[j],
                forall|j: int| 0 <= j < p ==> gw[#[trigger] ans@[j] as int]@ == aw[j]@,
                leftmost_embedding(gw, aw, ans@),
                p < aw.len() ==> no_match_in(
                    gw,
                    aw[p as int]@,
                    if p == 0 {
                        0int
                    } else {
                        ans@[p - 1] + 1
                    },
                    i as int,
                ),
                is_subseq_words(aw, gw) == is_subseq_words(
                    aw.skip(p as int),
                    gw.skip(i as int),
                ),
            decreases gw.len() - i,
        {
            proof {
                assert(aw.skip(p as int)[0] == aw[p as int]);
                assert(gw.skip(i as int)[0] == gw[i as int]);
            }
            if words_equal(&guess_words[i], &answer_words[p]) {
                ans.push(i);
                proof {
                    assert(aw.skip(p as int).skip(1) =~= aw.skip(p as int + 1));
                    assert(gw.skip(i as int).skip(1) =~= gw.skip(i as int + 1));
                }
                p += 1;
            } else {
                proof {
                    assert(gw.skip(i as int).skip(1) =~= gw.skip(i as int + 1));
                }
            }
            i += 1;
        }
        if p < answer_words.len() {
            proof {
                assert(i == gw.len());
                assert(gw.skip(i as int).len() == 0);
                assert(aw.skip(p as int).len() > 0);
                assert(!is_subseq_words(aw.skip(p as int), gw.skip(i as int)));
            }
            return Err(SolverError::DictionaryMismatch);
        }
        proof {
            assert(aw.skip(p as int).len() == 0);
            assert(is_subseq_words(aw.skip(p as int), gw.skip(i as int)));
            assert(cands_in_range(ans@, gw.len() as int));
        }
        Ok(ans)
}

/// The lifecycle state of a session.
#[derive(Clone, Copy, PartialEq, Eq, Structural, Debug)]
pub enum SessionState {
    /// Constructed or reset; no guess proposed yet.
    Fresh,
    /// A guess has been proposed; feedback for it is expected.
    AwaitingFeedback,
    /// The all-correct pattern arrived: the game is won.
    Solved,
    /// The candidate set became empty: the feedback is contradictory.
    Exhausted,
    /// Six proposals have been played without resolution.
    OutOfTurns,
}

/// What one feedback step resolved to.
#[derive(Clone, Copy, PartialEq, Eq, Structural, Debug)]
pub enum Outcome {
    /// The all-correct pattern: the last guess was the answer.
    Solved,
    /// No candidate is consistent with the feedback seen so far.
    Exhausted,
    /// The game goes on; this is the next proposed guess.
    Next(usize),
    /// The turn budget of six proposals is spent.
    OutOfTurns,
}

/// The session state the contracts speak of.
pub ghost struct SessionView {
    /// The answer indices still consistent with all feedback.
    pub candidates: Seq<usize>,
    /// Every guess index proposed so far, in order.
    pub history: Seq<usize>,
    /// The guess the expected feedback refers to.
    pub last_guess: int,
    /// The lifecycle state.
    pub state: SessionState,
}

/// The view of a session immediately after construction or reset.
pub open spec fn fresh_view() -> SessionView {
    SessionView { candidates: Seq::empty(), history: Seq::empty(), last_guess: 0, state: SessionState::Fresh }
}

/// The view of a session right after `start`: the candidate set is the full
/// answer set and the opening guess has been proposed.
pub open spec fn start_view(words: Seq<Word>, answers: Seq<usize>) -> SessionView {
    SessionView {
        candidates: answers,
        history: seq![chosen_guess(words, answers) as usize],
        last_guess: chosen_guess(words, answers),
        state: SessionState::AwaitingFeedback,
    }
}

/// The transition one feedback value causes: the full semantics of
/// `Session::feedback` as a pure function.
pub open spec fn step_feedback(words: Seq<Word>, s: SessionView, obs: int) -> (SessionView, Result<
    Outcome,
    SolverError,
>) {
    if s.state != SessionState::AwaitingFeedback {
        (s, Err(SolverError::ProtocolError))
    } else if obs < 0 || obs > 242 {
        (s, Err(SolverError::InvalidPattern))
    } else {
        let newc = filter_spec(s.candidates, words, s.last_guess, obs);
        if obs == 242 {
            (
                SessionView { candidates: newc, state: SessionState::Solved, ..s },
                Ok(Outcome::Solved),
            )
        } else if newc.len() == 0 {
            (
                SessionView { candidates: newc, state: SessionState::Exhausted, ..s },
                Ok(Outcome::Exhausted),
            )
        } else if s.history.len() >= 6 {
            (
                SessionView { candidates: newc, state: SessionState::OutOfTurns, ..s },
                Ok(Outcome::OutOfTurns),
            )
        } else {
            let g = chosen_guess(words, newc);
            (
                SessionView {
                    candidates: newc,
                    history: s.history.push(g as usize),
                    last_guess: g,
                    state: SessionState::AwaitingFeedback,
                },
                Ok(Outcome::Next(g as usize)),
            )
        }
    }
}

/// The session state after replaying a whole sequence of feedback values.
pub open spec fn replay(words: Seq<Word>, s: SessionView, fs: Seq<int>) -> SessionView
    decreases fs.len(),
{
    if fs.len() == 0 {
        s
    } else {
        replay(words, step_feedback(words, s, fs[0]).0, fs.skip(1))
    }
}

/// Resetting erases all session state: `reset` yields `fresh_view()` no
/// matter what the session had seen, so two sessions over equal dictionaries
/// that are reset, started, and fed identical feedback produce identical
/// proposal histories.
pub proof fn lemma_reset_replay(s1: &Session, s2: &Session, fs: Seq<int>)
    requires
        s1.dict.words@ == s2.dict.words@,
        s1.dict.answers@ == s2.dict.answers@,
    ensures
        replay(s1.dict.words@, start_view(s1.dict.words@, s1.dict.answers@), fs).history
            == replay(s2.dict.words@, start_view(s2.dict.words@, s2.dict.answers@), fs).history,
{
}

/// Relies on `String::from_utf8`: ASCII bytes decode to the string whose
/// characters have exactly those code points.
#[verifier::external_body]
fn string_from_ascii(v: Vec<u8>) -> (r: String)
    requires
        forall|i: int| 0 <= i < v@.len() ==> v@[i] < 128,
    ensures
        r@.len() == v@.len(),
        forall|i: int| 0 <= i < v@.len() ==> r@[i] == (v@[i] as char),
{
    match String::from_utf8(v) {
        Ok(s) => s,
        Err(_) => String::new(),
    }
}

/// An interactive solving session over fixed dictionaries.
pub struct Session {
    /// The shared dictionaries and precomputed opening guess.
    pub dict: Dictionary,
    /// The answer indices still consistent with all feedback this session.
    pub candidates: Vec<usize>,
    /// Every guess index proposed so far, in order.
    pub history: Vec<usize>,
    /// The guess the expected feedback refers to.
    pub last_guess: usize,
    /// The lifecycle state.
    pub state: SessionState,
}

impl View for Session {
    type V = SessionView;

    open spec fn view(&self) -> SessionView {
        SessionView {
            candidates: self.candidates@,
            history: self.history@,
            last_guess: self.last_guess as int,
            state: self.state,
        }
    }
}

/// Copies a list of indices.
fn copy_indices(v: &Vec<usize>) -> (r: Vec<usize>)
    ensures
        r@ == v@,
{
    let mut r: Vec<usize> = Vec::new();
    let mut i: usize = 0;
    while i < v.len()
        invariant
            i <= v@.len(),
            r@ == v@.take(i as int),
        decreases v@.len() - i,
    {
        r.push(v[i]);
        proof {
            assert(v@.take(i as int + 1) =~= v@.take(i as int).push(v@[i as int]));
        }
        i += 1;
    }
    proof {
        assert(v@.take(v@.len() as int) =~= v@);
    }
    r
}

impl Session {
    /// Well-formed: the dictionary invariant holds and the candidate set is a
    /// set of valid answer indices small enough for the scorer.
    pub open spec fn wf(&self) -> bool {
        &&& self.dict.wf()
        &&& cands_in_range(self.candidates@, self.dict.words@.len() as int)
        &&& self.candidates@.len() < 0x1_0000_0000
        &&& self.state == SessionState::AwaitingFeedback ==> {
            &&& self.last_guess < self.dict.words@.len()
            &&& self.candidates@.len() >= 1
        }
    }

    /// Creates a session over the given dictionaries, in the fresh state.
    pub fn new(dict: Dictionary) -> (s: Session)
        requires
            dict.wf(),
        ensures
            s.wf(),
            s@ == fresh_view(),
            s.dict == dict,
    {
        let s = Session {
            dict,
            candidates: Vec::new(),
            history: Vec::new(),
            last_guess: 0,
            state: SessionState::Fresh,
        };
        proof {
            assert(s@.candidates =~= fresh_view().candidates);
            assert(s@.history =~= fresh_view().history);
        }
        s
    }

    /// Starts a game: fills the candidate set with every answer, proposes the
    /// opening guess and records it.
    pub fn start(&mut self) -> (r: usize)
        requires
            old(self).wf(),
            old(self)@.state == SessionState::Fresh,
        ensures
            final(self).wf(),
            final(self).dict == old(self).dict,
            final(self)@ == start_view(old(self).dict.words@, old(self).dict.answers@),
            r as int == chosen_guess(old(self).dict.words@, old(self).dict.answers@),
            r < old(self).dict.words@.len(),
    {
        self.candidates = copy_indices(&self.dict.answers);
        let g = self.dict.opening;
        self.last_guess = g;
        self.history = Vec::new();
        self.history.push(g);
        self.state = SessionState::AwaitingFeedback;
        proof {
            assert(self@.history =~= start_view(self.dict.words@, self.dict.answers@).history);
        }
        g
    }

    /// Applies one observed feedback pattern for the last proposed guess and
    /// reports how the game proceeds. The exact transition is `step_feedback`
    /// of the previous state: the candidate set keeps exactly the candidates
    /// consistent with the feedback; 242 means solved; an empty candidate set
    /// means the feedback was contradictory; after six proposals the session
    /// is out of turns; otherwise the next guess is proposed and recorded.
    pub fn feedback(&mut self, observed: u8) -> (r: Result<Outcome, SolverError>)
        requires
            old(self).wf(),
        ensures
            final(self).wf(),
            final(self).dict == old(self).dict,
            (final(self)@, r) == step_feedback(
                old(self).dict.words@,
                old(self)@,
                observed as int,
            ),
    {
        if !matches!(self.state, SessionState::AwaitingFeedback) {
            return Err(SolverError::ProtocolError);
        }
        if observed > 242 {
            return Err(SolverError::InvalidPattern);
        }
        let newc = filter_candidates(&self.dict.words, &self.candidates, self.last_guess, observed);
        self.candidates = newc;
        if observed == 242 {
            self.state = SessionState::Solved;
            Ok(Outcome::Solved)
        } else if self.candidates.len() == 0 {
            self.state = SessionState::Exhausted;
            Ok(Outcome::Exhausted)
        } else if self.history.len() >= 6 {
            self.state = SessionState::OutOfTurns;
            Ok(Outcome::OutOfTurns)
        } else {
            let (g, _score) = next_guess(&self.dict.words, &self.candidates);
            self.last_guess = g;
            self.history.push(g);
            self.state = SessionState::AwaitingFeedback;
            Ok(Outcome::Next(g))
        }
    }

    /// Restores the initial state: the same as a freshly constructed session.
    pub fn reset(&mut self)
        requires
            old(self).wf(),
        ensures
            final(self).wf(),
            final(self).dict == old(self).dict,
            final(self)@ == fresh_view(),
    {
        self.candidates = Vec::new();
        self.history = Vec::new();
        self.last_guess = 0;
        self.state = SessionState::Fresh;
        proof {
            assert(self@.candidates =~= fresh_view().candidates);
            assert(self@.history =~= fresh_view().history);
        }
    }

    /// The guesses proposed so far, in order.
    pub fn history(&self) -> (r: &Vec<usize>)
        ensures
            r@ == self@.history,
    {
        &self.history
    }

    /// How many candidates are still consistent with the feedback seen.
    pub fn candidates_left(&self) -> (n: usize)
        ensures
            n == self@.candidates.len(),
    {
        self.candidates.len()
    }

    /// The five lowercase ASCII bytes of the word at a guess index.
    pub fn render_bytes(&self, id: usize) -> (r: Vec<u8>)
        requires
            self.wf(),
            id < self.dict.words@.len(),
        ensures
            valid_word_bytes(r@),
            forall|i: int| 0 <= i < 5 ==> r@[i] == self.dict.words@[id as int]@[i] + 97,
    {
        crate::codec::decode_word(&self.dict.words[id])
    }

    /// The five-character lowercase string of the word at a guess index.
    pub fn render(&self, id: usize) -> (r: String)
        requires
            self.wf(),
            id < self.dict.words@.len(),
        ensures
            r@.len() == 5,
            forall|i: int|
                0 <= i < 5 ==> r@[i] == (((self.dict.words@[id as int]@[i] + 97) as u8) as char),
    {
        let bytes = crate::codec::decode_word(&self.dict.words[id]);
        string_from_ascii(bytes)
    }
}

/// Builds a session from the two parsed word lists, as `Dictionary::new`
/// followed by `Session::new`.
pub fn new_session(guess_words: Vec<Word>, answer_words: Vec<Word>) -> (r: Result<
    Session,
    SolverError,
>)
    requires
        forall|i: int| 0 <= i < guess_words@.len() ==> (#[trigger] guess_words@[i]).wf(),
        forall|i: int| 0 <= i < answer_words@.len() ==> (#[trigger] answer_words@[i]).wf(),
        1 <= answer_words@.len(),
        guess_words@.len() < 0x1_0000_0000,
    ensures
        r is Ok <==> is_subseq_words(answer_words@, guess_words@),
        r matches Err(e) ==> e == SolverError::DictionaryMismatch,
        r matches Ok(s) ==> {
            &&& s.wf()
            &&& s@ == fresh_view()
            &&& s.dict.words@ == guess_words@
            &&& s.dict.answers@.len() == answer_words@.len()
        },
{
    match Dictionary::new(guess_words, answer_words) {
        Ok(dict) => Ok(Session::new(dict)),
        Err(e) => Err(e),
    }
}

} // verus!
