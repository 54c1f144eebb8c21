use vstd::prelude::*;
use vstd::string::StringSliceAdditionalSpecFns;
use vstd::utf8::encode_utf8;
use crate::bignum::BigNat;
use crate::error::Error;
use crate::state::{
    check_word_spec, empty_state, fold_raw, lemma_true_answer_stays_consistent, simulate,
    simulate_spec, spec_fold, vec_contains_u8, Mark, Pattern, StateModel, WordleState,
};
use crate::word::{word_contains, word_eq, word_from_str, word_to_string, Word};

verus! {

/// The guess engine: a constraint state, the candidate pool, the hidden
/// answer it plays against, and the history of words already guessed.
#[derive(Debug, Clone)]
pub struct Wordle {
    guess: usize,
    answer: Word,
    guesses: Vec<Word>,
    wordlist: Vec<Word>,
    pub state: WordleState,
}

/// The candidate pool filtered by the consistency predicate: the words of
/// `pool`, in order, that are still possible under state `s`.
pub open spec fn filter_pool(pool: Seq<Word>, s: StateModel) -> Seq<Word>
    decreases pool.len(),
{
    if pool.len() == 0 {
        Seq::empty()
    } else {
        let rest = filter_pool(pool.drop_last(), s);
        if check_word_spec(s, pool.last()@) {
            rest.push(pool.last())
        } else {
            rest
        }
    }
}

/// Filtering never grows the pool.
pub proof fn lemma_filter_pool_len(pool: Seq<Word>, s: StateModel)
    ensures
        filter_pool(pool, s).len() <= pool.len(),
    decreases pool.len(),
{
    if pool.len() > 0 {
        lemma_filter_pool_len(pool.drop_last(), s);
    }
}

/// Every word of the filtered pool came from the pool and passes the
/// predicate.
pub proof fn lemma_filter_pool_members(pool: Seq<Word>, s: StateModel)
    ensures
        forall|k: int| 0 <= k < filter_pool(pool, s).len() ==> pool.contains(
            #[trigger] filter_pool(pool, s)[k],
        ) && check_word_spec(s, filter_pool(pool, s)[k]@),
    decreases pool.len(),
{
    if pool.len() > 0 {
        lemma_filter_pool_members(pool.drop_last(), s);
        let rest = filter_pool(pool.drop_last(), s);
        assert forall|k: int| 0 <= k < filter_pool(pool, s).len() implies pool.contains(
            #[trigger] filter_pool(pool, s)[k],
        ) && check_word_spec(s, filter_pool(pool, s)[k]@) by {
            if k < rest.len() {
                assert(rest[k] == filter_pool(pool, s)[k]);
                assert(pool.drop_last().contains(rest[k]));
                let j = choose|j: int|
                    0 <= j < pool.drop_last().len() && pool.drop_last()[j] == rest[k];
                assert(pool[j] == rest[k]);
            } else {
                assert(filter_pool(pool, s)[k] == pool.last());
                assert(pool[pool.len() - 1] == pool.last());
            }
        }
    }
}

/// A pool word that passes the predicate survives the filter.
pub proof fn lemma_filter_pool_keeps(pool: Seq<Word>, s: StateModel, w: Word)
    requires
        pool.contains(w),
        check_word_spec(s, w@),
    ensures
        filter_pool(pool, s).contains(w),
    decreases pool.len(),
{
    let j = choose|j: int| 0 <= j < pool.len() && pool[j] == w;
    if j == pool.len() - 1 {
        assert(pool.last() == w);
        let rest = filter_pool(pool.drop_last(), s);
        assert(filter_pool(pool, s)[rest.len() as int] == w);
    } else {
        assert(pool.drop_last()[j] == w);
        assert(pool.drop_last().contains(w));
        lemma_filter_pool_keeps(pool.drop_last(), s, w);
        let rest = filter_pool(pool.drop_last(), s);
        let k = choose|k: int| 0 <= k < rest.len() && rest[k] == w;
        assert(filter_pool(pool, s)[k] == w);
    }
}

impl Wordle {
    /// The candidate pool: the words still consistent with the current state.
    pub closed spec fn pool(self) -> Seq<Word> {
        self.wordlist@
    }

    /// The hidden answer the engine plays against.
    pub closed spec fn answer_spec(self) -> Word {
        self.answer
    }

    /// The words guessed so far.
    pub closed spec fn guessed(self) -> Seq<Word> {
        self.guesses@
    }

    /// How many guesses have been made.
    pub closed spec fn guess_count(self) -> nat {
        self.guess as nat
    }

    /// The model of the current constraint state.
    pub closed spec fn state_model(self) -> StateModel {
        self.state@
    }

    /// Borrows the current constraint state. Its model is exactly
    /// [`Wordle::state_model`]: this ties the public `state` field to the
    /// engine's contracts for verified callers, to whom the engine is
    /// otherwise opaque in specifications.
    pub fn current_state(&self) -> (r: &WordleState)
        ensures
            r@ == self.state_model(),
    {
        &self.state
    }

    /// The engine invariant: every pool word is consistent with the current
    /// constraint state.
    pub closed spec fn wf(self) -> bool {
        forall|i: int| 0 <= i < self.wordlist@.len() ==> check_word_spec(
            self.state@,
            #[trigger] self.wordlist@[i]@,
        )
    }

    /// Builds an engine from a word list and a hidden answer. Fails with
    /// [`Error::MalformedWord`] exactly when the answer or any list entry is
    /// not five bytes long. On success the pool is the full word list in
    /// order, the state is empty and no guess has been made.
    pub fn new(wordlist: Vec<String>, answer: &str) -> (r: Result<Wordle, Error>)
        ensures
            r is Ok <==> answer.spec_bytes().len() == 5 && (forall|i: int|
                0 <= i < wordlist@.len() ==> #[trigger] encode_utf8(wordlist@[i]@).len() == 5),
            r is Err ==> r == Err::<Wordle, Error>(Error::MalformedWord),
            r is Ok ==> {
                let e = r->Ok_0;
                &&& e.pool().len() == wordlist@.len()
                &&& forall|i: int|
                    0 <= i < wordlist@.len() ==> (#[trigger] e.pool()[i])@ == encode_utf8(
                        wordlist@[i]@,
                    )
                &&& e.answer_spec()@ == answer.spec_bytes()
                &&& e.state_model() == empty_state()
                &&& e.guess_count() == 0
                &&& e.guessed().len() == 0
                &&& e.wf()
                &&& check_word_spec(e.state_model(), e.answer_spec()@)
            },
    {
        let answer_word = match word_from_str(answer) {
            Ok(w) => w,
            Err(e) => {
                return Err(e);
            },
        };
        let mut words: Vec<Word> = Vec::new();
        let mut i: usize = 0;
        while i < wordlist.len()
            invariant
                i <= wordlist@.len(),
                words@.len() == i,
                forall|j: int| 0 <= j < i ==> (#[trigger] words@[j])@ == encode_utf8(wordlist@[j]@),
                forall|j: int| 0 <= j < i ==> #[trigger] encode_utf8(wordlist@[j]@).len() == 5,
            decreases wordlist@.len() - i,
        {
            match word_from_str(wordlist[i].as_str()) {
                Ok(w) => {
                    words.push(w);
                },
                Err(e) => {
                    return Err(e);
                },
            }
            i += 1;
        }
        let engine = Wordle {
            guess: 0,
            answer: answer_word,
            guesses: Vec::new(),
            wordlist: words,
            state: WordleState::empty(),
        };
        Ok(engine)
    }

    /// The sole filter of the pool: whether `word` is still possible under
    /// `state`.
    pub fn check_word(state: &WordleState, word: &Word) -> (r: bool)
        ensures
            r == check_word_spec(state@, word@),
    {
        let mut i: usize = 0;
        while i < 5
            invariant
                i <= 5,
                forall|j: int| 0 <= j < i ==> !state@.excluded.contains(#[trigger] word@[j]),
                forall|j: int| 0 <= j < i ==> match #[trigger] state@.known[j] {
                    Some(c) => word@[j] == c,
                    None => true,
                },
            decreases 5 - i,
        {
            if vec_contains_u8(&state.not_contains, word[i]) {
                return false;
            }
            match state.known[i] {
                Some(l) => {
                    if word[i] != l {
                        return false;
                    }
                },
                None => {},
            }
            i += 1;
        }
        let mut j: usize = 0;
        while j < state.contains.len()
            invariant
                j <= state@.contains.len(),
                forall|k: int| 0 <= k < j ==> word@.contains(#[trigger] state@.contains[k]),
                forall|k: int| 0 <= k < 5 ==> !state@.excluded.contains(#[trigger] word@[k]),
                forall|k: int| 0 <= k < 5 ==> match #[trigger] state@.known[k] {
                    Some(c) => word@[k] == c,
                    None => true,
                },
            decreases state@.contains.len() - j,
        {
            if !word_contains(word, state.contains[j]) {
                return false;
            }
            j += 1;
        }
        true
    }

    /// Replaces the constraint state and re-filters the pool: only the words
    /// consistent with the new state stay, in order. The pool never grows.
    pub fn update_state(&mut self, answer: WordleState)
        ensures
            final (self).state_model() == answer@,
            final (self).pool() == filter_pool(old(self).pool(), answer@),
            final (self).pool().len() <= old(self).pool().len(),
            final (self).answer_spec() == old(self).answer_spec(),
            final (self).guessed() == old(self).guessed(),
            final (self).guess_count() == old(self).guess_count(),
            final (self).wf(),
    {
        self.state = answer;
        let mut remaining: Vec<Word> = Vec::new();
        let mut i: usize = 0;
        while i < self.wordlist.len()
            invariant
                i <= self.wordlist@.len(),
                remaining@ == filter_pool(self.wordlist@.take(i as int), self.state@),
            decreases self.wordlist@.len() - i,
        {
            proof {
                assert(self.wordlist@.take(i + 1).drop_last() =~= self.wordlist@.take(i as int));
                assert(self.wordlist@.take(i + 1).last() == self.wordlist@[i as int]);
            }
            let w = self.wordlist[i];
            if Wordle::check_word(&self.state, &w) {
                remaining.push(w);
            }
            i += 1;
        }
        proof {
            assert(self.wordlist@.take(self.wordlist@.len() as int) =~= self.wordlist@);
            lemma_filter_pool_len(self.wordlist@, self.state@);
            lemma_filter_pool_members(self.wordlist@, self.state@);
        }
        self.wordlist = remaining;
    }

    /// Simulates the feedback pattern of `guess` against `answer` and folds it
    /// into the current state, without touching the engine. Because the
    /// pattern is honestly simulated against an answer consistent with the
    /// current state, the fold can never produce a contradiction, and the
    /// answer stays consistent with the folded state.
    pub fn evaluate(&self, guess: &Word, answer: &Word) -> (r: (WordleState, Pattern))
        requires
            check_word_spec(self.state_model(), answer@),
        ensures
            r.1@ == simulate_spec(guess@, answer@),
            r.0@ == spec_fold(self.state_model(), guess@, simulate_spec(guess@, answer@)),
            check_word_spec(r.0@, answer@),
    {
        let pattern = simulate(guess, answer);
        proof {
            assert(self.state@.known.len() == 5);
            lemma_true_answer_stays_consistent(self.state@, guess@, answer@);
        }
        let new_state = fold_raw(&self.state, guess, &pattern);
        (new_state, pattern)
    }

    /// Feedback determinism: what [`Wordle::evaluate`] returns is specified
    /// as a pure function of the constraint state, the guess and the answer
    /// alone, so two engines in the same state evaluating the same guess
    /// against the same answer return, by that contract, the same pattern
    /// and the same folded state.
    pub proof fn lemma_evaluate_deterministic(e1: Wordle, e2: Wordle, g: Word, a: Word)
        requires
            e1.state_model() == e2.state_model(),
        ensures
            spec_fold(e1.state_model(), g@, simulate_spec(g@, a@)) == spec_fold(
                e2.state_model(),
                g@,
                simulate_spec(g@, a@),
            ),
    {
    }
}

/// How many pool words stay consistent when the feedback of guess `g`
/// against the hypothetical answer `a` is folded into state `s`.
pub open spec fn pot_count(pool: Seq<Word>, s: StateModel, g: Word, a: Word) -> nat {
    filter_pool(pool, spec_fold(s, g@, simulate_spec(g@, a@))).len()
}

/// The product of `pot_count` over the first `i` hypothetical answers of the
/// pool.
pub open spec fn score_product_prefix(pool: Seq<Word>, s: StateModel, g: Word, i: int) -> nat
    decreases i,
{
    if i <= 0 {
        1
    } else {
        score_product_prefix(pool, s, g, i - 1) * pot_count(pool, s, g, pool[i - 1])
    }
}

/// The exact selection key of a candidate guess: the product, over every
/// hypothetical answer drawn from the pool, of the pool size left after that
/// answer's feedback. The expected information gain of a guess is
/// `sum over a of (log2 |pool| - log2 pot_count(pool, s, g, a))`, and since
/// every guess sums over the same pool, the guess of greatest gain is exactly
/// the guess of smallest product; comparing products compares gains without
/// rounding.
pub open spec fn score_key(pool: Seq<Word>, s: StateModel, g: Word) -> nat {
    score_product_prefix(pool, s, g, pool.len() as int)
}

impl Wordle {
    /// Position `i` of the pool holds a word that may still be guessed.
    pub open spec fn candidate_at(self, i: int) -> bool {
        0 <= i < self.pool().len() && !self.guessed().contains(self.pool()[i])
    }

    /// `w` is the first not-yet-guessed pool word whose score key is minimal:
    /// no candidate scores better, and every earlier candidate scores
    /// strictly worse.
    pub open spec fn is_best_guess(self, w: Word) -> bool {
        exists|i: int|
            {
                &&& #[trigger] self.candidate_at(i)
                &&& w == self.pool()[i]
                &&& forall|j: int| #[trigger] self.candidate_at(j) ==> score_key(
                    self.pool(),
                    self.state_model(),
                    self.pool()[i],
                ) <= score_key(self.pool(), self.state_model(), self.pool()[j])
                &&& forall|j: int| j < i && #[trigger] self.candidate_at(j) ==> score_key(
                    self.pool(),
                    self.state_model(),
                    self.pool()[j],
                ) > score_key(self.pool(), self.state_model(), self.pool()[i])
            }
    }
}

/// How many pool positions hold a word that has not been guessed yet: the
/// termination measure of the solve loop.
spec fn unguessed_count(pool: Seq<Word>, guessed: Seq<Word>) -> nat
    decreases pool.len(),
{
    if pool.len() == 0 {
        0
    } else {
        unguessed_count(pool.drop_last(), guessed) + (if guessed.contains(pool.last()) {
            0nat
        } else {
            1nat
        })
    }
}

proof fn lemma_push_contains(g: Seq<Word>, w: Word, c: Word)
    ensures
        g.push(w).contains(c) <==> g.contains(c) || c == w,
{
    if g.push(w).contains(c) {
        let k = choose|k: int| 0 <= k < g.push(w).len() && g.push(w)[k] == c;
        if k < g.len() {
            assert(g[k] == c);
        }
    }
    if g.contains(c) {
        let k = choose|k: int| 0 <= k < g.len() && g[k] == c;
        assert(g.push(w)[k] == c);
    }
    if c == w {
        assert(g.push(w)[g.len() as int] == c);
    }
}

proof fn lemma_unguessed_filter(pool: Seq<Word>, s: StateModel, g: Seq<Word>)
    ensures
        unguessed_count(filter_pool(pool, s), g) <= unguessed_count(pool, g),
    decreases pool.len(),
{
    if pool.len() > 0 {
        lemma_unguessed_filter(pool.drop_last(), s, g);
        let rest = filter_pool(pool.drop_last(), s);
        if check_word_spec(s, pool.last()@) {
            assert(rest.push(pool.last()).drop_last() =~= rest);
            assert(rest.push(pool.last()).last() == pool.last());
        }
    }
}

proof fn lemma_unguessed_mono(pool: Seq<Word>, g: Seq<Word>, w: Word)
    ensures
        unguessed_count(pool, g.push(w)) <= unguessed_count(pool, g),
    decreases pool.len(),
{
    if pool.len() > 0 {
        lemma_unguessed_mono(pool.drop_last(), g, w);
        lemma_push_contains(g, w, pool.last());
    }
}

proof fn lemma_unguessed_push_guess(pool: Seq<Word>, g: Seq<Word>, w: Word)
    requires
        pool.contains(w),
        !g.contains(w),
    ensures
        unguessed_count(pool, g.push(w)) < unguessed_count(pool, g),
    decreases pool.len(),
{
    if pool.last() == w {
        lemma_push_contains(g, w, w);
        lemma_unguessed_mono(pool.drop_last(), g, w);
    } else {
        let j = choose|j: int| 0 <= j < pool.len() && pool[j] == w;
        assert(pool.drop_last()[j] == w);
        assert(pool.drop_last().contains(w));
        lemma_unguessed_push_guess(pool.drop_last(), g, w);
        lemma_push_contains(g, w, pool.last());
    }
}

proof fn lemma_unguessed_le_len(pool: Seq<Word>, g: Seq<Word>)
    ensures
        unguessed_count(pool, g) <= pool.len(),
    decreases pool.len(),
{
    if pool.len() > 0 {
        lemma_unguessed_le_len(pool.drop_last(), g);
    }
}

/// No word occurs twice in the pool.
pub open spec fn distinct_pool(pool: Seq<Word>) -> bool {
    forall|i: int, j: int| 0 <= i < j < pool.len() ==> pool[i] != pool[j]
}

/// Filtering a duplicate-free pool leaves it duplicate-free.
proof fn lemma_filter_pool_distinct(pool: Seq<Word>, s: StateModel)
    requires
        distinct_pool(pool),
    ensures
        distinct_pool(filter_pool(pool, s)),
    decreases pool.len(),
{
    if pool.len() > 0 {
        assert(distinct_pool(pool.drop_last()));
        lemma_filter_pool_distinct(pool.drop_last(), s);
        lemma_filter_pool_members(pool.drop_last(), s);
        let rest = filter_pool(pool.drop_last(), s);
        if check_word_spec(s, pool.last()@) {
            let cur = rest.push(pool.last());
            assert forall|i: int, j: int| 0 <= i < j < cur.len() implies cur[i] != cur[j] by {
                if j < rest.len() {
                    assert(rest[i] != rest[j]);
                } else {
                    assert(cur[j] == pool.last());
                    assert(pool.drop_last().contains(rest[i]));
                    let m = choose|m: int|
                        0 <= m < pool.drop_last().len() && pool.drop_last()[m] == rest[i];
                    assert(pool[m] == rest[i]);
                    assert(pool[m] != pool[pool.len() - 1]);
                }
            }
        }
    }
}

/// Guessing the answer itself marks every position `Correct`, pinning every
/// known letter, so only copies of the answer survive the filter.
proof fn lemma_answer_guess_collapses(pool: Seq<Word>, s: StateModel, a: Word)
    ensures
        forall|k: int|
            0 <= k < filter_pool(pool, spec_fold(s, a@, simulate_spec(a@, a@))).len()
                ==> #[trigger] filter_pool(pool, spec_fold(s, a@, simulate_spec(a@, a@)))[k] == a,
{
    broadcast use vstd::array::group_array_axioms;

    let p = simulate_spec(a@, a@);
    let st = spec_fold(s, a@, p);
    lemma_filter_pool_members(pool, st);
    let filt = filter_pool(pool, st);
    assert forall|k: int| 0 <= k < filt.len() implies #[trigger] filt[k] == a by {
        let m = filt[k];
        assert(check_word_spec(st, m@));
        assert forall|i: int| 0 <= i < 5 implies m@[i] == a@[i] by {
            assert(p[i] == Mark::Correct);
            assert(st.known[i] == Some(a@[i]));
        }
        assert(m =~= a);
    }
}

fn count_consistent(pool: &Vec<Word>, state: &WordleState) -> (r: usize)
    ensures
        r == filter_pool(pool@, state@).len(),
{
    let mut cnt: usize = 0;
    let mut i: usize = 0;
    while i < pool.len()
        invariant
            i <= pool@.len(),
            cnt == filter_pool(pool@.take(i as int), state@).len(),
            cnt <= i,
        decreases pool@.len() - i,
    {
        proof {
            assert(pool@.take(i + 1).drop_last() =~= pool@.take(i as int));
            assert(pool@.take(i + 1).last() == pool@[i as int]);
        }
        let w = pool[i];
        if Wordle::check_word(state, &w) {
            cnt += 1;
        }
        i += 1;
    }
    proof {
        assert(pool@.take(pool@.len() as int) =~= pool@);
    }
    cnt
}

fn pattern_eq(a: &Pattern, b: &Pattern) -> (r: bool)
    ensures
        r == (a@ == b@),
{
    if a.len() != b.len() {
        return false;
    }
    let mut i: usize = 0;
    while i < a.len()
        invariant
            i <= a@.len(),
            a@.len() == b@.len(),
            forall|j: int| 0 <= j < i ==> a@[j] == b@[j],
        decreases a@.len() - i,
    {
        if a[i] != b[i] {
            proof {
                assert(a@[i as int] != b@[i as int]);
            }
            return false;
        }
        i += 1;
    }
    proof {
        assert(a@ =~= b@);
    }
    true
}

fn memo_lookup(memo: &Vec<(Pattern, usize)>, pat: &Pattern) -> (r: Option<usize>)
    ensures
        r is Some ==> exists|k: int|
            0 <= k < memo@.len() && (#[trigger] memo@[k]).0@ == pat@ && memo@[k].1 == r->Some_0,
{
    let mut k: usize = 0;
    while k < memo.len()
        invariant
            k <= memo@.len(),
        decreases memo@.len() - k,
    {
        if pattern_eq(&memo[k].0, pat) {
            proof {
                assert((memo@[k as int]).0@ == pat@);
            }
            return Some(memo[k].1);
        }
        k += 1;
    }
    None
}

fn vec_word_contains(v: &Vec<Word>, w: &Word) -> (r: bool)
    ensures
        r == v@.contains(*w),
{
    let mut i: usize = 0;
    while i < v.len()
        invariant
            i <= v@.len(),
            forall|j: int| 0 <= j < i ==> v@[j] != *w,
        decreases v@.len() - i,
    {
        let vi = v[i];
        if word_eq(&vi, w) {
            proof {
                assert(v@[i as int] == *w);
            }
            return true;
        }
        i += 1;
    }
    false
}

impl Wordle {
    /// Computes the exact score key of candidate guess `g`: the product over
    /// every hypothetical answer in the pool of the pool size its feedback
    /// would leave. The post-filter size is a function of the feedback
    /// pattern alone, so it is computed once per distinct pattern and reused.
    fn score_for(&self, g: &Word) -> (r: BigNat)
        ensures
            r.value() == score_key(self.pool(), self.state_model(), *g),
    {
        let mut memo: Vec<(Pattern, usize)> = Vec::new();
        let mut prod = BigNat::one();
        let mut ai: usize = 0;
        while ai < self.wordlist.len()
            invariant
                ai <= self.wordlist@.len(),
                prod.value() == score_product_prefix(
                    self.wordlist@,
                    self.state@,
                    *g,
                    ai as int,
                ),
                forall|k: int| 0 <= k < memo@.len() ==> (#[trigger] memo@[k]).1 == filter_pool(
                    self.wordlist@,
                    spec_fold(self.state@, g@, memo@[k].0@),
                ).len(),
            decreases self.wordlist@.len() - ai,
        {
            let a = self.wordlist[ai];
            let pat = simulate(g, &a);
            let cnt: usize = match memo_lookup(&memo, &pat) {
                Some(c) => {
                    proof {
                        let k = choose|k: int|
                            0 <= k < memo@.len() && (#[trigger] memo@[k]).0@ == pat@ && memo@[k].1
                                == c;
                        assert(spec_fold(self.state@, g@, memo@[k].0@) == spec_fold(
                            self.state@,
                            g@,
                            pat@,
                        ));
                    }
                    c
                },
                None => {
                    let folded = fold_raw(&self.state, g, &pat);
                    let c = count_consistent(&self.wordlist, &folded);
                    memo.push((pat, c));
                    c
                },
            };
            proof {
                assert(cnt == pot_count(self.wordlist@, self.state@, *g, a));
            }
            prod.mul_usize(cnt);
            ai += 1;
        }
        prod
    }

    /// Picks, from the current candidate pool, the first not-yet-guessed word
    /// that maximizes expected information gain (equivalently, minimizes the
    /// exact score key), without advancing the solve loop. Fails with
    /// [`Error::EmptyPool`] exactly when no candidate is left to score —
    /// in particular when the pool is empty.
    pub fn guess(&self) -> (r: Result<Word, Error>)
        ensures
            r is Err <==> (forall|i: int| !self.candidate_at(i)),
            r is Err ==> r == Err::<Word, Error>(Error::EmptyPool),
            r is Ok ==> self.is_best_guess(r->Ok_0),
    {
        let n = self.wordlist.len();
        let mut best: Option<BigNat> = None;
        let mut best_idx: usize = 0;
        let mut gi: usize = 0;
        while gi < n
            invariant
                gi <= n,
                n == self.pool().len(),
                best is None ==> forall|j: int| 0 <= j < gi ==> !self.candidate_at(j),
                best is Some ==> {
                    &&& best_idx < gi
                    &&& self.candidate_at(best_idx as int)
                    &&& best->Some_0.value() == score_key(
                        self.pool(),
                        self.state_model(),
                        self.pool()[best_idx as int],
                    )
                    &&& forall|j: int|
                        0 <= j < gi && #[trigger] self.candidate_at(j) ==> score_key(
                            self.pool(),
                            self.state_model(),
                            self.pool()[best_idx as int],
                        ) <= score_key(self.pool(), self.state_model(), self.pool()[j])
                    &&& forall|j: int|
                        j < best_idx && #[trigger] self.candidate_at(j) ==> score_key(
                            self.pool(),
                            self.state_model(),
                            self.pool()[j],
                        ) > score_key(
                            self.pool(),
                            self.state_model(),
                            self.pool()[best_idx as int],
                        )
                },
            decreases n - gi,
        {
            let w = self.wordlist[gi];
            if !vec_word_contains(&self.guesses, &w) {
                let sc = self.score_for(&w);
                let replace: bool = match &best {
                    None => true,
                    Some(b) => sc.lt(b),
                };
                if replace {
                    best = Some(sc);
                    best_idx = gi;
                }
            }
            gi += 1;
        }
        match best {
            Some(_) => {
                let w = self.wordlist[best_idx];
                proof {
                    assert(self.candidate_at(best_idx as int));
                    assert(self.is_best_guess(w));
                }
                Ok(w)
            },
            None => {
                proof {
                    assert forall|i: int| !self.candidate_at(i) by {
                        if 0 <= i < self.pool().len() {
                            assert(!self.candidate_at(i));
                        }
                    }
                }
                Err(Error::EmptyPool)
            },
        }
    }

    /// Runs the guess/evaluate/filter state machine to convergence: starting
    /// with a fixed opening guess, the engine repeatedly picks the best
    /// remaining guess, folds its simulated feedback against the hidden
    /// answer into the state and re-filters the pool, until exactly one
    /// candidate remains. That candidate is the answer, returned together
    /// with the number of guesses made. Fails with
    /// [`Error::UnsolvableAnswer`] exactly when the answer is not in the word
    /// list (the pool could never converge on it), and with
    /// [`Error::EmptyPool`] when every remaining candidate has already been
    /// guessed.
    pub fn solve(&mut self) -> (r: Result<(String, usize), Error>)
        requires
            old(self).wf(),
            check_word_spec(old(self).state_model(), old(self).answer_spec()@),
        ensures
            r is Ok ==> old(self).pool().contains(old(self).answer_spec()),
            r is Ok ==> r->Ok_0.0@ == old(self).answer_spec()@.map_values(|b: u8| b as char),
            r is Ok ==> r->Ok_0.1 >= 1 && r->Ok_0.1 == final (self).guess_count(),
            r is Ok ==> final (self).pool().len() == 1 && final (self).pool()[0] == old(
                self,
            ).answer_spec(),
            r == Err::<(String, usize), Error>(Error::UnsolvableAnswer) <==> !old(
                self,
            ).pool().contains(old(self).answer_spec()),
            r is Err ==> r->Err_0 == Error::UnsolvableAnswer || r->Err_0 == Error::EmptyPool,
            old(self).guessed().len() == 0 && distinct_pool(old(self).pool()) && old(
                self,
            ).pool().contains(old(self).answer_spec()) ==> r is Ok,
            old(self).guessed().len() == 0 && r is Ok ==> r->Ok_0.1 <= old(self).pool().len() + 1,
            old(self).guessed().len() == 0 && old(self).pool().len() == 1 && old(
                self,
            ).pool().contains(old(self).answer_spec()) ==> r is Ok && r->Ok_0.1 == 1,
    {
        // The fixed opening guess "raise", which skips the most expensive
        // full-pool scoring pass of the first turn.
        let first_guess: Word = [114u8, 97u8, 105u8, 115u8, 101u8];
        self.solve_with_opening(&first_guess)
    }

    /// [`Wordle::solve`] with a caller-chosen seed guess for the first turn
    /// in place of the default opening word.
    pub fn solve_with_opening(&mut self, opening: &Word) -> (r: Result<(String, usize), Error>)
        requires
            old(self).wf(),
            check_word_spec(old(self).state_model(), old(self).answer_spec()@),
        ensures
            r is Ok ==> old(self).pool().contains(old(self).answer_spec()),
            r is Ok ==> r->Ok_0.0@ == old(self).answer_spec()@.map_values(|b: u8| b as char),
            r is Ok ==> r->Ok_0.1 >= 1 && r->Ok_0.1 == final (self).guess_count(),
            r is Ok ==> final (self).pool().len() == 1 && final (self).pool()[0] == old(
                self,
            ).answer_spec(),
            r == Err::<(String, usize), Error>(Error::UnsolvableAnswer) <==> !old(
                self,
            ).pool().contains(old(self).answer_spec()),
            r is Err ==> r->Err_0 == Error::UnsolvableAnswer || r->Err_0 == Error::EmptyPool,
            old(self).guessed().len() == 0 && distinct_pool(old(self).pool()) && old(
                self,
            ).pool().contains(old(self).answer_spec()) ==> r is Ok,
            old(self).guessed().len() == 0 && r is Ok ==> r->Ok_0.1 <= old(self).pool().len() + 1,
            old(self).guessed().len() == 0 && old(self).pool().len() == 1 && old(
                self,
            ).pool().contains(old(self).answer_spec()) ==> r is Ok && r->Ok_0.1 == 1,
    {
        if !vec_word_contains(&self.wordlist, &self.answer) {
            return Err(Error::UnsolvableAnswer);
        }
        let first_guess: Word = *opening;
        let (st, _p) = self.evaluate(&first_guess, &self.answer);
        proof {
            lemma_filter_pool_keeps(self.wordlist@, st@, self.answer);
        }
        self.update_state(st);
        self.guesses.push(first_guess);
        self.guess = self.guesses.len();
        proof {
            lemma_filter_pool_len(old(self).pool(), st@);
            if old(self).guessed().len() == 0 {
                lemma_unguessed_filter(old(self).pool(), st@, self.guesses@);
                lemma_unguessed_le_len(old(self).pool(), self.guesses@);
            }
            if distinct_pool(old(self).pool()) {
                lemma_filter_pool_distinct(old(self).pool(), st@);
            }
            if old(self).guessed().len() == 0 && distinct_pool(old(self).pool())
                && self.wordlist@.len() > 1 && self.guesses@.contains(self.answer) {
                let k = choose|k: int|
                    0 <= k < self.guesses@.len() && self.guesses@[k] == self.answer;
                assert(k == 0);
                assert(first_guess == self.answer);
                lemma_answer_guess_collapses(
                    old(self).pool(),
                    old(self).state_model(),
                    self.answer,
                );
                assert(self.wordlist@[0] == self.answer);
                assert(self.wordlist@[1] == self.answer);
                assert(false);
            }
        }
        while self.wordlist.len() > 1
            invariant
                self.wf(),
                check_word_spec(self.state@, self.answer@),
                self.wordlist@.contains(self.answer),
                self.answer == old(self).answer,
                old(self).pool().contains(old(self).answer_spec()),
                self.guess == self.guesses@.len(),
                self.guess >= 1,
                self.wordlist@.len() <= old(self).pool().len(),
                old(self).guessed().len() == 0 ==> self.guess + unguessed_count(
                    self.wordlist@,
                    self.guesses@,
                ) <= old(self).pool().len() + 1,
                old(self).guessed().len() == 0 && old(self).pool().len() == 1 ==> self.guess == 1,
                distinct_pool(old(self).pool()) ==> distinct_pool(self.wordlist@),
                old(self).guessed().len() == 0 && distinct_pool(old(self).pool())
                    && self.wordlist@.len() > 1 ==> !self.guesses@.contains(self.answer),
            decreases unguessed_count(self.wordlist@, self.guesses@),
        {
            let w = match self.guess() {
                Ok(w) => w,
                Err(e) => {
                    proof {
                        if old(self).guessed().len() == 0 && distinct_pool(old(self).pool())
                            && old(self).pool().contains(old(self).answer_spec()) {
                            let k = choose|k: int|
                                0 <= k < self.wordlist@.len() && self.wordlist@[k] == self.answer;
                            assert(self.candidate_at(k));
                            assert(false);
                        }
                    }
                    return Err(e);
                },
            };
            let ghost pool0 = self.wordlist@;
            let ghost g0 = self.guesses@;
            proof {
                let i = choose|i: int|
                    {
                        &&& #[trigger] self.candidate_at(i)
                        &&& w == self.pool()[i]
                        &&& forall|j: int| #[trigger] self.candidate_at(j) ==> score_key(
                            self.pool(),
                            self.state_model(),
                            self.pool()[i],
                        ) <= score_key(self.pool(), self.state_model(), self.pool()[j])
                        &&& forall|j: int| j < i && #[trigger] self.candidate_at(j) ==> score_key(
                            self.pool(),
                            self.state_model(),
                            self.pool()[j],
                        ) > score_key(self.pool(), self.state_model(), self.pool()[i])
                    };
                assert(pool0[i] == w);
                assert(pool0.contains(w));
                assert(!g0.contains(w));
            }
            let ghost s0 = self.state@;
            let (st, _p) = self.evaluate(&w, &self.answer);
            proof {
                lemma_filter_pool_keeps(self.wordlist@, st@, self.answer);
            }
            self.update_state(st);
            self.guesses.push(w);
            self.guess = self.guesses.len();
            proof {
                lemma_unguessed_filter(pool0, st@, g0.push(w));
                lemma_unguessed_push_guess(pool0, g0, w);
                lemma_filter_pool_len(pool0, st@);
                if distinct_pool(old(self).pool()) {
                    lemma_filter_pool_distinct(pool0, st@);
                    if self.wordlist@.len() > 1 && w == self.answer {
                        lemma_answer_guess_collapses(pool0, s0, self.answer);
                        assert(self.wordlist@[0] == self.answer);
                        assert(self.wordlist@[1] == self.answer);
                        assert(false);
                    }
                    if old(self).guessed().len() == 0 && self.wordlist@.len() > 1 {
                        lemma_push_contains(g0, w, self.answer);
                    }
                }
            }
        }
        let found = self.wordlist[0];
        proof {
            let k = choose|k: int|
                0 <= k < self.wordlist@.len() && self.wordlist@[k] == self.answer;
            assert(k == 0);
        }
        let text = word_to_string(&found);
        Ok((text, self.guess))
    }
}

/// `b` raised to the `i`-th power.
pub open spec fn nat_pow(b: nat, i: int) -> nat
    decreases i,
{
    if i <= 0 {
        1
    } else {
        b * nat_pow(b, i - 1)
    }
}

/// Scoring non-negativity. Every hypothetical answer stays consistent with
/// its own folded feedback, so each factor of the score key lies between 1
/// and the pool size: every information-gain term
/// `log2 |pool| - log2 pot_count` is a difference of logs of a non-increasing
/// quantity and therefore non-negative, and the whole key lies between 1 and
/// `|pool| ^ |pool|`.
pub proof fn lemma_score_key_bounds(pool: Seq<Word>, s: StateModel, g: Word, i: int)
    requires
        s.known.len() == 5,
        0 <= i <= pool.len(),
        forall|k: int| 0 <= k < pool.len() ==> check_word_spec(s, (#[trigger] pool[k])@),
    ensures
        1 <= score_product_prefix(pool, s, g, i),
        score_product_prefix(pool, s, g, i) <= nat_pow(pool.len(), i),
    decreases i,
{
    if i > 0 {
        lemma_score_key_bounds(pool, s, g, i - 1);
        let a = pool[i - 1];
        let folded = spec_fold(s, g@, simulate_spec(g@, a@));
        assert(pool.contains(a));
        lemma_true_answer_stays_consistent(s, g@, a@);
        lemma_filter_pool_keeps(pool, folded, a);
        let filt = filter_pool(pool, folded);
        let k = choose|k: int| 0 <= k < filt.len() && filt[k] == a;
        assert(filt.len() >= 1);
        lemma_filter_pool_len(pool, folded);
        let c = pot_count(pool, s, g, a);
        let p1 = score_product_prefix(pool, s, g, i - 1);
        let n = pool.len();
        assert(1 <= c <= n);
        assert(p1 * c >= 1) by (nonlinear_arith)
            requires
                p1 >= 1,
                c >= 1,
        ;
        assert(p1 * c <= nat_pow(n, i - 1) * n) by (nonlinear_arith)
            requires
                1 <= p1 <= nat_pow(n, i - 1),
                1 <= c <= n,
        ;
        assert(nat_pow(n, i) == n * nat_pow(n, i - 1));
        assert(nat_pow(n, i - 1) * n == n * nat_pow(n, i - 1)) by (nonlinear_arith);
    }
}

/// Scoring non-negativity for the whole pool: the score key of any guess
/// against a pool whose words all pass the current state lies between 1 and
/// `|pool| ^ |pool|`.
pub proof fn lemma_score_key_in_range(pool: Seq<Word>, s: StateModel, g: Word)
    requires
        s.known.len() == 5,
        forall|k: int| 0 <= k < pool.len() ==> check_word_spec(s, (#[trigger] pool[k])@),
    ensures
        1 <= score_key(pool, s, g),
        score_key(pool, s, g) <= nat_pow(pool.len(), pool.len() as int),
{
    lemma_score_key_bounds(pool, s, g, pool.len() as int);
}

} // verus!
