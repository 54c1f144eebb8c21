use vstd::prelude::*;
use crate::error::Error;
use crate::word::{word_contains, Word};

verus! {

/// One feedback mark: the observable result of comparing a guess letter to
/// the answer at one position.
#[derive(Clone, Copy, Debug, PartialEq, Eq, Structural)]
pub enum Mark {
    /// The letter matches the answer at this position.
    Correct,
    /// The letter occurs in the answer, but not at this position.
    Present,
    /// The letter does not occur in the answer.
    Absent,
}

/// A feedback pattern: one mark per guess position, five in all.
pub type Pattern = Vec<Mark>;

/// Everything currently known about the hidden answer from prior feedback.
#[derive(Debug, Clone)]
pub struct WordleState {
    /// Per-position fixed letters: positions confirmed `Correct` at least once.
    pub known: [Option<u8>; 5],
    /// Letters confirmed present somewhere in the answer.
    pub contains: Vec<u8>,
    /// Letters confirmed absent from the answer.
    pub not_contains: Vec<u8>,
}

/// The mathematical model of a [`WordleState`].
#[verifier::ext_equal]
pub ghost struct StateModel {
    pub known: Seq<Option<u8>>,
    pub contains: Seq<u8>,
    pub excluded: Seq<u8>,
}

impl View for WordleState {
    type V = StateModel;

    open spec fn view(&self) -> StateModel {
        StateModel { known: self.known@, contains: self.contains@, excluded: self.not_contains@ }
    }
}

/// The state with no knowledge at all: every word is still possible.
pub open spec fn empty_state() -> StateModel {
    StateModel {
        known: seq![None, None, None, None, None],
        contains: Seq::empty(),
        excluded: Seq::empty(),
    }
}

impl WordleState {
    /// Constructs the empty state.
    pub fn empty() -> (r: WordleState)
        ensures
            r@ == empty_state(),
    {
        let r = WordleState { known: [None, None, None, None, None], contains: Vec::new(), not_contains: Vec::new() };
        proof {
            assert(r@.known =~= empty_state().known);
            assert(r@ =~= empty_state());
        }
        r
    }
}

/// Whether every position with a known letter matches the word there.
pub open spec fn known_matches(known: Seq<Option<u8>>, w: Seq<u8>) -> bool {
    forall|i: int| 0 <= i < 5 ==> match #[trigger] known[i] {
        Some(c) => w[i] == c,
        None => true,
    }
}

/// Whether some position is confirmed to hold the letter `c`.
pub open spec fn known_has(known: Seq<Option<u8>>, c: u8) -> bool {
    exists|i: int| 0 <= i < known.len() && known[i] == Some(c)
}

/// The consistency predicate: `w` could still be the answer under state `s`.
/// It must match at every known position, contain no excluded letter, and
/// contain every confirmed-present letter somewhere.
pub open spec fn check_word_spec(s: StateModel, w: Seq<u8>) -> bool {
    &&& known_matches(s.known, w)
    &&& forall|i: int| 0 <= i < w.len() ==> !s.excluded.contains(#[trigger] w[i])
    &&& forall|j: int| 0 <= j < s.contains.len() ==> w.contains(#[trigger] s.contains[j])
}

/// The mark position `i` receives when `g` is guessed against answer `a`.
pub open spec fn mark_at(g: Seq<u8>, a: Seq<u8>, i: int) -> Mark {
    if g[i] == a[i] {
        Mark::Correct
    } else if a.contains(g[i]) {
        Mark::Present
    } else {
        Mark::Absent
    }
}

/// The feedback pattern of guessing `g` against answer `a`: position-by-
/// position comparison, with no accounting for limited occurrence counts of
/// repeated letters.
pub open spec fn simulate_spec(g: Seq<u8>, a: Seq<u8>) -> Seq<Mark> {
    Seq::new(5, |i: int| mark_at(g, a, i))
}

/// The letters of `g` whose mark in `p` is `m`, among positions `[0, i)`, in
/// position order.
pub open spec fn marked_prefix(g: Seq<u8>, p: Seq<Mark>, m: Mark, i: int) -> Seq<u8>
    decreases i,
{
    if i <= 0 {
        Seq::empty()
    } else if p[i - 1] == m {
        marked_prefix(g, p, m, i - 1).push(g[i - 1])
    } else {
        marked_prefix(g, p, m, i - 1)
    }
}

/// The known letters after folding pattern `p` of guess `g`: `Correct`
/// positions are pinned to the guess letter, the rest are unchanged.
pub open spec fn fold_known(known: Seq<Option<u8>>, g: Seq<u8>, p: Seq<Mark>) -> Seq<Option<u8>> {
    Seq::new(5, |i: int| if p[i] == Mark::Correct { Some(g[i]) } else { known[i] })
}

/// The state after folding feedback pattern `p` of guess `g` into state `s`:
/// `Present` letters are appended to `contains`, `Absent` letters to
/// `excluded`, both in position order.
pub open spec fn spec_fold(s: StateModel, g: Seq<u8>, p: Seq<Mark>) -> StateModel {
    StateModel {
        known: fold_known(s.known, g, p),
        contains: s.contains + marked_prefix(g, p, Mark::Present, 5),
        excluded: s.excluded + marked_prefix(g, p, Mark::Absent, 5),
    }
}

/// A state is well formed when no letter is simultaneously excluded and
/// confirmed present (in `contains` or at a known position).
pub open spec fn state_wf(s: StateModel) -> bool {
    forall|i: int| 0 <= i < s.excluded.len() ==> !s.contains.contains(#[trigger] s.excluded[i])
        && !known_has(s.known, s.excluded[i])
}

/// Folding `p` into `s` succeeds exactly when the folded state is free of
/// contradictions.
pub open spec fn fold_ok(s: StateModel, g: Seq<u8>, p: Seq<Mark>) -> bool {
    state_wf(spec_fold(s, g, p))
}

/// Computes the feedback pattern of guessing `guess` against `answer`.
pub fn simulate(guess: &Word, answer: &Word) -> (r: Pattern)
    ensures
        r@ == simulate_spec(guess@, answer@),
{
    let mut p: Vec<Mark> = Vec::new();
    let mut i: usize = 0;
    while i < 5
        invariant
            i <= 5,
            p@.len() == i,
            forall|j: int| 0 <= j < i ==> p@[j] == mark_at(guess@, answer@, j),
        decreases 5 - i,
    {
        if guess[i] == answer[i] {
            p.push(Mark::Correct);
        } else if word_contains(answer, guess[i]) {
            p.push(Mark::Present);
        } else {
            p.push(Mark::Absent);
        }
        i += 1;
    }
    proof {
        assert(p@ =~= simulate_spec(guess@, answer@));
    }
    p
}

/// Folds without checking for contradictions; callers that fold honestly
/// simulated feedback prove separately that none can arise.
pub(crate) fn fold_raw(state: &WordleState, guess: &Word, pattern: &Pattern) -> (r: WordleState)
    requires
        pattern@.len() == 5,
    ensures
        r@ == spec_fold(state@, guess@, pattern@),
{
    let known: [Option<u8>; 5] = [
        pick_known(state.known[0], guess[0], pattern[0]),
        pick_known(state.known[1], guess[1], pattern[1]),
        pick_known(state.known[2], guess[2], pattern[2]),
        pick_known(state.known[3], guess[3], pattern[3]),
        pick_known(state.known[4], guess[4], pattern[4]),
    ];
    let mut contains = state.contains.clone();
    let mut not_contains = state.not_contains.clone();
    let mut i: usize = 0;
    while i < 5
        invariant
            i <= 5,
            pattern@.len() == 5,
            contains@ == state@.contains + marked_prefix(guess@, pattern@, Mark::Present, i as int),
            not_contains@ == state@.excluded + marked_prefix(guess@, pattern@, Mark::Absent, i as int),
        decreases 5 - i,
    {
        match pattern[i] {
            Mark::Correct => {
                proof {
                    assert(contains@ =~= state@.contains + marked_prefix(guess@, pattern@, Mark::Present, i + 1));
                    assert(not_contains@ =~= state@.excluded + marked_prefix(guess@, pattern@, Mark::Absent, i + 1));
                }
            },
            Mark::Present => {
                contains.push(guess[i]);
                proof {
                    assert(contains@ =~= state@.contains + marked_prefix(guess@, pattern@, Mark::Present, i + 1));
                    assert(not_contains@ =~= state@.excluded + marked_prefix(guess@, pattern@, Mark::Absent, i + 1));
                }
            },
            Mark::Absent => {
                not_contains.push(guess[i]);
                proof {
                    assert(contains@ =~= state@.contains + marked_prefix(guess@, pattern@, Mark::Present, i + 1));
                    assert(not_contains@ =~= state@.excluded + marked_prefix(guess@, pattern@, Mark::Absent, i + 1));
                }
            },
        }
        i += 1;
    }
    let r = WordleState { known, contains, not_contains };
    proof {
        assert(r@.known =~= fold_known(state@.known, guess@, pattern@));
        assert(r@ =~= spec_fold(state@, guess@, pattern@));
    }
    r
}

fn pick_known(k: Option<u8>, g: u8, m: Mark) -> (r: Option<u8>)
    ensures
        r == (if m == Mark::Correct { Some(g) } else { k }),
{
    if matches!(m, Mark::Correct) {
        Some(g)
    } else {
        k
    }
}

pub(crate) fn vec_contains_u8(v: &Vec<u8>, c: u8) -> (r: bool)
    ensures
        r == v@.contains(c),
{
    let mut i: usize = 0;
    while i < v.len()
        invariant
            i <= v@.len(),
            forall|j: int| 0 <= j < i ==> v@[j] != c,
        decreases v@.len() - i,
    {
        if v[i] == c {
            return true;
        }
        i += 1;
    }
    false
}

fn known_has_exec(known: &[Option<u8>; 5], c: u8) -> (r: bool)
    ensures
        r == known_has(known@, c),
{
    let mut i: usize = 0;
    while i < 5
        invariant
            i <= 5,
            forall|j: int| 0 <= j < i ==> known@[j] != Some(c),
        decreases 5 - i,
    {
        match known[i] {
            Some(l) => {
                if l == c {
                    return true;
                }
            },
            None => {},
        }
        i += 1;
    }
    false
}

fn state_ok(s: &WordleState) -> (r: bool)
    ensures
        r == state_wf(s@),
{
    let mut i: usize = 0;
    while i < s.not_contains.len()
        invariant
            i <= s@.excluded.len(),
            forall|j: int| 0 <= j < i ==> !s@.contains.contains(#[trigger] s@.excluded[j])
                && !known_has(s@.known, s@.excluded[j]),
        decreases s@.excluded.len() - i,
    {
        let c = s.not_contains[i];
        if vec_contains_u8(&s.contains, c) {
            return false;
        }
        if known_has_exec(&s.known, c) {
            return false;
        }
        i += 1;
    }
    true
}

/// Folds the feedback pattern `pattern` of guess `guess` into `state`. Fails
/// with [`Error::InconsistentState`] exactly when the folded state would hold
/// a letter both excluded and confirmed present; such a contradiction is
/// surfaced, never silently resolved.
pub fn fold(state: &WordleState, guess: &Word, pattern: &Pattern) -> (r: Result<WordleState, Error>)
    requires
        pattern@.len() == 5,
    ensures
        fold_ok(state@, guess@, pattern@) ==> r is Ok && r->Ok_0@ == spec_fold(state@, guess@, pattern@),
        !fold_ok(state@, guess@, pattern@) ==> r == Err::<WordleState, Error>(Error::InconsistentState),
{
    let next = fold_raw(state, guess, pattern);
    if state_ok(&next) {
        Ok(next)
    } else {
        Err(Error::InconsistentState)
    }
}

pub(crate) proof fn lemma_concat_contains(x: Seq<u8>, y: Seq<u8>, c: u8)
    ensures
        (x + y).contains(c) <==> x.contains(c) || y.contains(c),
{
    if (x + y).contains(c) {
        let k = choose|k: int| 0 <= k < (x + y).len() && (x + y)[k] == c;
        if k < x.len() {
            assert(x[k] == c);
        } else {
            assert(y[k - x.len()] == c);
        }
    }
    if x.contains(c) {
        let k = choose|k: int| 0 <= k < x.len() && x[k] == c;
        assert((x + y)[k] == c);
    }
    if y.contains(c) {
        let k = choose|k: int| 0 <= k < y.len() && y[k] == c;
        assert((x + y)[x.len() + k] == c);
    }
}

/// A letter is among the letters marked `m` exactly when some position up to
/// `i` carries that mark and that letter.
pub(crate) proof fn lemma_marked_prefix_membership(g: Seq<u8>, p: Seq<Mark>, m: Mark, i: int, c: u8)
    ensures
        marked_prefix(g, p, m, i).contains(c) <==> exists|j: int| 0 <= j < i && p[j] == m && g[j]
            == c,
    decreases i,
{
    if i <= 0 {
    } else {
        lemma_marked_prefix_membership(g, p, m, i - 1, c);
        let prev = marked_prefix(g, p, m, i - 1);
        if p[i - 1] == m {
            let cur = prev.push(g[i - 1]);
            if cur.contains(c) {
                let k = choose|k: int| 0 <= k < cur.len() && cur[k] == c;
                if k < prev.len() {
                    assert(prev[k] == c);
                    assert(prev.contains(c));
                } else {
                    assert(g[i - 1] == c);
                }
            }
            if exists|j: int| 0 <= j < i && p[j] == m && g[j] == c {
                let j = choose|j: int| 0 <= j < i && p[j] == m && g[j] == c;
                if j < i - 1 {
                    assert(prev.contains(c));
                    let k = choose|k: int| 0 <= k < prev.len() && prev[k] == c;
                    assert(cur[k] == c);
                } else {
                    assert(cur[prev.len() as int] == c);
                }
                assert(cur.contains(c));
            }
        } else {
            if exists|j: int| 0 <= j < i && p[j] == m && g[j] == c {
                let j = choose|j: int| 0 <= j < i && p[j] == m && g[j] == c;
                assert(j < i - 1);
            }
        }
    }
}

/// Consistency of the true answer is preserved: folding the honestly
/// simulated feedback of any guess against the answer never produces a
/// contradiction, and the answer itself stays consistent with the folded
/// state. Starting from the empty state, the true answer therefore passes the
/// consistency predicate at every turn.
pub proof fn lemma_true_answer_stays_consistent(s: StateModel, g: Seq<u8>, a: Seq<u8>)
    requires
        g.len() == 5,
        a.len() == 5,
        s.known.len() == 5,
        check_word_spec(s, a),
    ensures
        fold_ok(s, g, simulate_spec(g, a)),
        check_word_spec(spec_fold(s, g, simulate_spec(g, a)), a),
{
    let p = simulate_spec(g, a);
    let ns = spec_fold(s, g, p);
    let yellows = marked_prefix(g, p, Mark::Present, 5);
    let greys = marked_prefix(g, p, Mark::Absent, 5);
    assert forall|c: u8| true implies (yellows.contains(c) ==> a.contains(c)) && (greys.contains(c)
        ==> !a.contains(c)) by {
        lemma_marked_prefix_membership(g, p, Mark::Present, 5, c);
        lemma_marked_prefix_membership(g, p, Mark::Absent, 5, c);
    }
    // Every letter recorded as present or known in the old state occurs in the answer.
    assert forall|c: u8| s.contains.contains(c) || known_has(s.known, c) implies a.contains(c) by {
        if s.contains.contains(c) {
            let j = choose|j: int| 0 <= j < s.contains.len() && s.contains[j] == c;
            assert(a.contains(s.contains[j]));
        }
        if known_has(s.known, c) {
            let i = choose|i: int| 0 <= i < s.known.len() && s.known[i] == Some(c);
            assert(a[i] == c);
            assert(a.contains(c));
        }
    }
    // No letter of the answer is excluded by the old state.
    assert forall|c: u8| a.contains(c) implies !s.excluded.contains(c) by {
        let i = choose|i: int| 0 <= i < a.len() && a[i] == c;
        assert(!s.excluded.contains(a[i]));
    }
    // Every letter recorded as present or known in the new state occurs in the answer.
    assert forall|c: u8| ns.contains.contains(c) || known_has(ns.known, c) implies a.contains(
        c,
    ) by {
        lemma_concat_contains(s.contains, yellows, c);
        if known_has(ns.known, c) {
            let i = choose|i: int| 0 <= i < ns.known.len() && ns.known[i] == Some(c);
            if p[i] == Mark::Correct {
                assert(g[i] == a[i]);
                assert(a.contains(c));
            } else {
                assert(s.known[i] == Some(c));
                assert(known_has(s.known, c));
            }
        }
    }
    // Well-formedness of the folded state.
    assert forall|i: int| 0 <= i < ns.excluded.len() implies !ns.contains.contains(
        #[trigger] ns.excluded[i],
    ) && !known_has(ns.known, ns.excluded[i]) by {
        let c = ns.excluded[i];
        lemma_concat_contains(s.excluded, greys, c);
        assert(ns.excluded.contains(c));
        if i < s.excluded.len() {
            assert(s.excluded.contains(c));
            if a.contains(c) {
                assert(false);
            }
        } else {
            assert(greys[i - s.excluded.len()] == c);
            assert(greys.contains(c));
        }
        assert(!a.contains(c));
        if ns.contains.contains(c) || known_has(ns.known, c) {
            assert(a.contains(c));
        }
    }
    // The answer stays consistent with the folded state.
    assert(known_matches(ns.known, a)) by {
        assert forall|i: int| 0 <= i < 5 implies match #[trigger] ns.known[i] {
            Some(c) => a[i] == c,
            None => true,
        } by {
            if p[i] == Mark::Correct {
                assert(ns.known[i] == Some(g[i]));
                assert(g[i] == a[i]);
            } else {
                assert(ns.known[i] == s.known[i]);
            }
        }
    }
    assert forall|i: int| 0 <= i < a.len() implies !ns.excluded.contains(#[trigger] a[i]) by {
        lemma_concat_contains(s.excluded, greys, a[i]);
        assert(a.contains(a[i]));
        if greys.contains(a[i]) {
            assert(!a.contains(a[i]));
        }
    }
    assert forall|j: int| 0 <= j < ns.contains.len() implies a.contains(
        #[trigger] ns.contains[j],
    ) by {
        let c = ns.contains[j];
        lemma_concat_contains(s.contains, yellows, c);
        if j < s.contains.len() {
            assert(s.contains.contains(c));
        } else {
            assert(yellows[j - s.contains.len()] == c);
            assert(yellows.contains(c));
        }
    }
}

} // verus!
