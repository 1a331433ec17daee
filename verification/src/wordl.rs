//! The word-guess comparison routine and game state.
//!
//! `compare` scores a guess against a target of the same length with the
//! usual two-pass rules: exact positional matches first, then close
//! matches drawn from the pool of remaining target letters, so a repeated
//! guess letter is credited only as often as it remains unconsumed.

use vstd::prelude::*;
use vstd::string::*;

use crate::dicts::Dict;

verus! {

/// The guessed letter does not occur in the target (or its
/// occurrences are all consumed).
pub const MISS: char = '🟥';

/// The guessed letter matches the target at this position.
pub const MATCH: char = '🟩';

/// The guessed letter occurs elsewhere in the target.
pub const CLOSE: char = '🟨';

/// What uppercasing does to a sequence of characters; the result depends
/// on the characters alone.
pub uninterp spec fn upper_of(s: Seq<char>) -> Seq<char>;

/// Normalizes a word to the common case used throughout a game.
///
/// Relies on str::to_uppercase: the uppercase mapping is a pure function
/// of the characters alone.
#[verifier::external_body]
pub fn normalize(s: &str) -> (r: String)
    ensures
        r@ == upper_of(s@),
{
    s.to_uppercase()
}

/// The characters joined into a single string, in order.
pub fn join(cmp: &[char]) -> (r: String)
    ensures
        r@ == cmp@,
{
    let mut r = String::new();
    let mut i: usize = 0;
    while i < cmp.len()
        invariant
            i <= cmp@.len(),
            r@ == cmp@.take(i as int),
        decreases cmp@.len() - i,
    {
        let c = *vstd::slice::slice_index_get(cmp, i);
        crate::text::push_char(&mut r, c);
        proof {
            assert(cmp@.take(i + 1) =~= cmp@.take(i as int).push(cmp@[i as int]));
        }
        i = i + 1;
    }
    proof {
        assert(cmp@.take(cmp@.len() as int) =~= cmp@);
    }
    r
}

/// The verdicts after the first pass: `MATCH` where guess and target
/// agree positionally, `MISS` everywhere else.
pub open spec fn pass1_res(actual: Seq<char>, guess: Seq<char>) -> Seq<char> {
    Seq::new(actual.len(), |i: int| if guess[i] == actual[i] { MATCH } else { MISS })
}

/// The pool of target letters remaining after the first pass: a matched
/// position's letter is consumed (replaced by a marker), the rest stay.
pub open spec fn pass1_used(actual: Seq<char>, guess: Seq<char>) -> Seq<char> {
    Seq::new(actual.len(), |i: int| if guess[i] == actual[i] { '-' } else { actual[i] })
}

/// The first index holding this character, if any.
pub open spec fn first_index_of(s: Seq<char>, c: char) -> Option<int>
    decreases s.len(),
{
    if s.len() == 0 {
        None
    } else if s[0] == c {
        Some(0)
    } else {
        match first_index_of(s.drop_first(), c) {
            Some(j) => Some(j + 1),
            None => None,
        }
    }
}

/// `first_index_of` finds the first occurrence: the index holds the
/// character and nothing before it does; `None` means no index does.
pub proof fn lemma_first_index_of(s: Seq<char>, c: char)
    ensures
        match first_index_of(s, c) {
            Some(j) => 0 <= j < s.len() && s[j] == c && (forall|k: int| 0 <= k < j ==> s[k] != c),
            None => forall|k: int| 0 <= k < s.len() ==> s[k] != c,
        },
    decreases s.len(),
{
    if s.len() > 0 && s[0] != c {
        lemma_first_index_of(s.drop_first(), c);
        match first_index_of(s.drop_first(), c) {
            Some(j) => {
                assert(s.drop_first()[j] == s[j + 1]);
                assert forall|k: int| 0 <= k < j + 1 implies s[k] != c by {
                    if k > 0 {
                        assert(s.drop_first()[k - 1] == s[k]);
                    }
                }
            },
            None => {
                assert forall|k: int| 0 <= k < s.len() implies s[k] != c by {
                    if k > 0 {
                        assert(s.drop_first()[k - 1] == s[k]);
                    }
                }
            },
        }
    }
}

/// The second pass from position `i` on: a position that is not already
/// a match is credited `CLOSE` if its guessed letter still occurs in the
/// pool (consuming the first such occurrence), and left alone otherwise.
/// Returns the final verdicts and the final pool.
pub open spec fn pass2(res: Seq<char>, used: Seq<char>, guess: Seq<char>, i: int) -> (
    Seq<char>,
    Seq<char>,
)
    decreases guess.len() - i,
{
    if i < 0 || i >= guess.len() {
        (res, used)
    } else if res[i] == MATCH {
        pass2(res, used, guess, i + 1)
    } else {
        match first_index_of(used, guess[i]) {
            Some(j) => pass2(res.update(i, CLOSE), used.update(j, '-'), guess, i + 1),
            None => pass2(res, used, guess, i + 1),
        }
    }
}

/// The verdicts `compare` produces: the second pass applied to the
/// outcome of the first.
pub open spec fn compare_spec(actual: Seq<char>, guess: Seq<char>) -> Seq<char> {
    pass2(pass1_res(actual, guess), pass1_used(actual, guess), guess, 0).0
}

/// The first index of the pool holding this character, if any.
fn find_char(used: &Vec<char>, c: char) -> (r: Option<usize>)
    ensures
        match r {
            Some(j) => j < used@.len() && used@[j as int] == c && (forall|k: int|
                0 <= k < j ==> used@[k] != c),
            None => forall|k: int| 0 <= k < used@.len() ==> used@[k] != c,
        },
{
    let mut i: usize = 0;
    while i < used.len()
        invariant
            i <= used@.len(),
            forall|k: int| 0 <= k < i ==> used@[k] != c,
        decreases used@.len() - i,
    {
        if used[i] == c {
            return Some(i);
        }
        i = i + 1;
    }
    None
}

/// Scores `guess` against `actual`, position by position: `MATCH` where
/// the letters agree, `CLOSE` where the letter occurs elsewhere in the
/// target and its occurrences are not yet consumed, `MISS` otherwise.
#[verifier::loop_isolation(false)]
pub fn compare(actual: &str, guess: &str) -> (r: Vec<char>)
    requires
        actual@.len() == guess@.len(),
    ensures
        r@ == compare_spec(actual@, guess@),
{
    let ghost a = actual@;
    let ghost g = guess@;
    let n = actual.unicode_len();
    let mut used: Vec<char> = Vec::new();
    let mut res: Vec<char> = Vec::new();

    let mut i: usize = 0;
    while i < n
        invariant
            i <= n,
            res@.len() == i,
            used@.len() == i,
            forall|k: int| 0 <= k < i ==> res@[k] == pass1_res(a, g)[k],
            forall|k: int| 0 <= k < i ==> used@[k] == pass1_used(a, g)[k],
        decreases n - i,
    {
        let ac = actual.get_char(i);
        let gc = guess.get_char(i);
        if gc == ac {
            res.push(MATCH);
            used.push('-');
        } else {
            res.push(MISS);
            used.push(ac);
        }
        i = i + 1;
    }
    proof {
        assert(res@ =~= pass1_res(a, g));
        assert(used@ =~= pass1_used(a, g));
    }
    let ghost r0 = pass1_res(a, g);
    let ghost u0 = pass1_used(a, g);

    let mut i: usize = 0;
    while i < n
        invariant
            i <= n,
            res@.len() == n,
            used@.len() == n,
            pass2(r0, u0, g, 0) == pass2(res@, used@, g, i as int),
        decreases n - i,
    {
        let gc = guess.get_char(i);
        let ghost res_pre = res@;
        let ghost used_pre = used@;
        if res[i] == MATCH {
            proof {
                assert(pass2(res_pre, used_pre, g, i as int) == pass2(
                    res_pre,
                    used_pre,
                    g,
                    i + 1,
                ));
            }
        } else {
            let found = find_char(&used, gc);
            proof {
                lemma_first_index_of(used_pre, g[i as int]);
            }
            match found {
                Some(ci) => {
                    proof {
                        let sj = first_index_of(used_pre, g[i as int]);
                        assert(sj is Some);
                        let j = sj->0;
                        if j < ci {
                            assert(used_pre[j] != g[i as int]);
                        }
                        if ci < j {
                            assert(used_pre[ci as int] != g[i as int]);
                        }
                        assert(j == ci);
                    }
                    res[i] = CLOSE;
                    used[ci] = '-';
                    proof {
                        assert(pass2(res_pre, used_pre, g, i as int) == pass2(
                            res@,
                            used@,
                            g,
                            i + 1,
                        ));
                    }
                },
                None => {
                    proof {
                        if first_index_of(used_pre, g[i as int]) is Some {
                            let j = first_index_of(used_pre, g[i as int])->0;
                            assert(used_pre[j] == g[i as int]);
                        }
                        assert(pass2(res_pre, used_pre, g, i as int) == pass2(
                            res_pre,
                            used_pre,
                            g,
                            i + 1,
                        ));
                    }
                },
            }
        }
        i = i + 1;
    }
    proof {
        assert(pass2(res@, used@, g, n as int) == (res@, used@));
    }
    res
}

/// The second pass never makes or unmakes a `MATCH`: a final verdict is
/// `MATCH` exactly where the first pass put one.
pub proof fn lemma_pass2_match(res: Seq<char>, used: Seq<char>, guess: Seq<char>, i: int)
    requires
        res.len() == guess.len(),
        used.len() == guess.len(),
    ensures
        pass2(res, used, guess, i).0.len() == res.len(),
        forall|k: int|
            0 <= k < res.len() ==> ((pass2(res, used, guess, i).0[k] == MATCH) <==> (res[k]
                == MATCH)),
    decreases guess.len() - i,
{
    if i < 0 || i >= guess.len() {
    } else if res[i] == MATCH {
        lemma_pass2_match(res, used, guess, i + 1);
        assert(pass2(res, used, guess, i) == pass2(res, used, guess, i + 1));
    } else {
        lemma_first_index_of(used, guess[i]);
        match first_index_of(used, guess[i]) {
            Some(j) => {
                let res2 = res.update(i, CLOSE);
                let used2 = used.update(j, '-');
                lemma_pass2_match(res2, used2, guess, i + 1);
                assert(pass2(res, used, guess, i) == pass2(res2, used2, guess, i + 1));
                assert forall|k: int| 0 <= k < res.len() implies ((pass2(
                    res,
                    used,
                    guess,
                    i,
                ).0[k] == MATCH) <==> (res[k] == MATCH)) by {
                    assert((pass2(res2, used2, guess, i + 1).0[k] == MATCH) <==> (res2[k]
                        == MATCH));
                    if k == i {
                        assert(res2[k] == CLOSE);
                    } else {
                        assert(res2[k] == res[k]);
                    }
                }
            },
            None => {
                lemma_pass2_match(res, used, guess, i + 1);
                assert(pass2(res, used, guess, i) == pass2(res, used, guess, i + 1));
            },
        }
    }
}

/// A verdict is `MATCH` exactly at the positions where guess and target
/// agree.
pub proof fn lemma_compare_match_positions(actual: Seq<char>, guess: Seq<char>)
    requires
        actual.len() == guess.len(),
    ensures
        compare_spec(actual, guess).len() == guess.len(),
        forall|k: int|
            0 <= k < guess.len() ==> ((compare_spec(actual, guess)[k] == MATCH) <==> actual[k]
                == guess[k]),
{
    let r0 = pass1_res(actual, guess);
    let u0 = pass1_used(actual, guess);
    lemma_pass2_match(r0, u0, guess, 0);
    assert forall|k: int| 0 <= k < guess.len() implies ((compare_spec(actual, guess)[k] == MATCH)
        <==> actual[k] == guess[k]) by {
        assert(r0[k] == (if guess[k] == actual[k] {
            MATCH
        } else {
            MISS
        }));
        assert((pass2(r0, u0, guess, 0).0[k] == MATCH) <==> (r0[k] == MATCH));
    }
}

/// Comparing any word with itself yields `MATCH` at every position.
pub proof fn lemma_compare_self(w: Seq<char>)
    ensures
        compare_spec(w, w).len() == w.len(),
        forall|k: int| 0 <= k < w.len() ==> compare_spec(w, w)[k] == MATCH,
{
    let r0 = pass1_res(w, w);
    let u0 = pass1_used(w, w);
    lemma_pass2_match(r0, u0, w, 0);
    assert forall|k: int| 0 <= k < w.len() implies compare_spec(w, w)[k] == MATCH by {
        assert(r0[k] == MATCH);
        assert((pass2(r0, u0, w, 0).0[k] == MATCH) <==> (r0[k] == MATCH));
    }
}

/// How many guesses a game allows.
pub const MAX_GUESSES: usize = 6;

/// Which rendering the command-line flags select: an explicit request
/// wins, and otherwise ASCII is used exactly when the output stream
/// does not support Unicode.
pub fn resolve_ascii(unicode_flag: bool, ascii_flag: bool, stdout_unicode: bool) -> (r: bool)
    ensures
        r == (if unicode_flag {
            false
        } else if ascii_flag {
            true
        } else {
            !stdout_unicode
        }),
{
    if unicode_flag {
        false
    } else if ascii_flag {
        true
    } else {
        !stdout_unicode
    }
}

/// Why a guess was rejected.
#[derive(Clone, Copy, Debug, PartialEq, Eq, Structural)]
pub enum GuessError {
    /// No guesses remain; reports whether the game was already won.
    NoGuessesRemaining { won: bool },
    /// The guess has the wrong number of letters; reports the expected
    /// count.
    WrongLength { expected: usize },
    /// The guess is not in the word list.
    NotInWordList,
}

/// Every verdict of the sequence is `MATCH`.
pub open spec fn all_match(v: Seq<char>) -> bool {
    forall|i: int| 0 <= i < v.len() ==> v[i] == MATCH
}

/// The characters copied into a fresh vector.
fn copy_chars(v: &Vec<char>) -> (r: Vec<char>)
    ensures
        r@ == v@,
{
    let mut r: Vec<char> = Vec::new();
    let mut i: usize = 0;
    while i < v.len()
        invariant
            i <= v@.len(),
            r@ == v@.take(i as int),
        decreases v@.len() - i,
    {
        r.push(v[i]);
        proof {
            assert(v@.take(i + 1) =~= v@.take(i as int).push(v@[i as int]));
        }
        i = i + 1;
    }
    proof {
        assert(v@.take(v@.len() as int) =~= v@);
    }
    r
}

/// One game: a normalized target word, the guesses made so far with
/// their verdicts, and the word list guesses are validated against.
pub struct Game {
    /// The normalized target word.
    pub actual: String,
    /// The guesses made so far, each with its verdicts.
    pub guesses: Vec<(String, Vec<char>)>,
    /// The word list that guesses are validated against.
    pub dict: Dict,
}

impl Game {
    /// No more guesses were recorded than the game allows.
    pub open spec fn wf(self) -> bool {
        self.guesses@.len() <= MAX_GUESSES
    }

    /// The game is won: the most recent guess matched at every position.
    pub open spec fn won_spec(self) -> bool {
        self.guesses@.len() > 0 && all_match(self.guesses@.last().1@)
    }

    /// How many guesses remain: none once the game is won, else what is
    /// left of the allowance.
    pub open spec fn remaining_spec(self) -> int {
        if self.won_spec() {
            0
        } else {
            MAX_GUESSES - self.guesses@.len()
        }
    }

    /// A fresh game over the given target word (normalized here) and
    /// word list.
    pub fn new(actual: &str, dict: Dict) -> (g: Game)
        ensures
            g.wf(),
            g.actual@ == upper_of(actual@),
            g.guesses@.len() == 0,
            g.dict == dict,
    {
        Game { actual: normalize(actual), guesses: Vec::new(), dict }
    }

    /// A fresh game over a random word of the given length from the
    /// word list, which must hold at least one such word.
    pub fn with_len(len: usize, dict: Dict) -> (g: Game)
        requires
            exists|i: int|
                0 <= i < dict.words@.len() && (#[trigger] dict.words@[i])@.len() == len,
        ensures
            g.wf(),
            g.guesses@.len() == 0,
            g.dict == dict,
            exists|w: Seq<char>|
                #![auto]
                dict.contains_word(w) && w.len() == len && g.actual@ == upper_of(w),
    {
        let word = dict.rand_of_len(len);
        let g = Game::new(word.as_str(), dict);
        proof {
            assert(g.dict.contains_word(word@) && word@.len() == len && g.actual@ == upper_of(
                word@,
            ));
        }
        g
    }

    /// The length of the target word, in characters.
    pub fn len(&self) -> (r: usize)
        ensures
            r == self.actual@.len(),
    {
        self.actual.as_str().unicode_len()
    }

    /// How many guesses were made.
    pub fn guesses_made(&self) -> (r: usize)
        ensures
            r == self.guesses@.len(),
    {
        self.guesses.len()
    }

    /// Whether the game is won.
    #[verifier::loop_isolation(false)]
    pub fn is_won(&self) -> (r: bool)
        ensures
            r == self.won_spec(),
    {
        if self.guesses.len() == 0 {
            return false;
        }
        let last = &self.guesses[self.guesses.len() - 1];
        let mut i: usize = 0;
        while i < last.1.len()
            invariant
                i <= last.1@.len(),
                *last == self.guesses@.last(),
                forall|k: int| 0 <= k < i ==> last.1@[k] == MATCH,
            decreases last.1@.len() - i,
        {
            if last.1[i] != MATCH {
                return false;
            }
            i = i + 1;
        }
        true
    }

    /// How many guesses remain.
    pub fn guesses_remaining(&self) -> (r: usize)
        requires
            self.wf(),
        ensures
            r == self.remaining_spec(),
    {
        if self.is_won() {
            return 0;
        }
        MAX_GUESSES - self.guesses.len()
    }

    /// Scores a guess against the target. The guess is normalized, then
    /// rejected if no guesses remain, if its length differs from the
    /// target's, or if it is not in the word list; otherwise its
    /// verdicts are recorded and returned.
    pub fn guess(&mut self, guess_raw: &str) -> (r: Result<Vec<char>, GuessError>)
        requires
            old(self).wf(),
        ensures
            final(self).wf(),
            final(self).actual == old(self).actual,
            final(self).dict == old(self).dict,
            match r {
                Ok(cmp) => {
                    &&& old(self).remaining_spec() >= 1
                    &&& upper_of(guess_raw@).len() == old(self).actual@.len()
                    &&& old(self).dict.contains_word(upper_of(guess_raw@))
                    &&& cmp@ == compare_spec(old(self).actual@, upper_of(guess_raw@))
                    &&& final(self).guesses@.len() == old(self).guesses@.len() + 1
                    &&& final(self).guesses@.drop_last() == old(self).guesses@
                    &&& final(self).guesses@.last().0@ == upper_of(guess_raw@)
                    &&& final(self).guesses@.last().1@ == cmp@
                },
                Err(e) => {
                    &&& final(self).guesses@ == old(self).guesses@
                    &&& match e {
                        GuessError::NoGuessesRemaining { won } => old(self).remaining_spec() < 1
                            && won == old(self).won_spec(),
                        GuessError::WrongLength { expected } => old(self).remaining_spec() >= 1
                            && upper_of(guess_raw@).len() != old(self).actual@.len() && expected
                            == old(self).actual@.len(),
                        GuessError::NotInWordList => old(self).remaining_spec() >= 1 && upper_of(
                            guess_raw@,
                        ).len() == old(self).actual@.len() && !old(self).dict.contains_word(
                            upper_of(guess_raw@),
                        ),
                    }
                },
            },
    {
        let guess = normalize(guess_raw);
        if self.guesses_remaining() < 1 {
            let won = self.is_won();
            return Err(GuessError::NoGuessesRemaining { won });
        }
        let expected = self.actual.as_str().unicode_len();
        if guess.as_str().unicode_len() != expected {
            return Err(GuessError::WrongLength { expected });
        }
        if !self.dict.has(guess.as_str()) {
            return Err(GuessError::NotInWordList);
        }
        let cmp = compare(self.actual.as_str(), guess.as_str());
        let cmp_copy = copy_chars(&cmp);
        let ghost pre = self.guesses@;
        self.guesses.push((guess, cmp_copy));
        proof {
            assert(self.guesses@.drop_last() =~= pre);
        }
        Ok(cmp)
    }
}

} // verus!
