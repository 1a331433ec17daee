//! The word list.
//!
//! A `Dict` holds the normalized words a game accepts. Membership is a
//! plain search; a random pick of a given length is drawn uniformly from
//! the words of that length. Loading the raw list from disk is the
//! caller's business; `dict_words` turns its lines into normalized words.

use vstd::prelude::*;
use vstd::string::*;

use crate::wordl::{normalize, upper_of};

verus! {

/// What trimming does to a sequence of characters; the result depends on
/// the characters alone.
pub uninterp spec fn trim_of(s: Seq<char>) -> Seq<char>;

/// Relies on str::trim: removing leading and trailing whitespace is a
/// pure function of the characters alone.
#[verifier::external_body]
fn trim(s: &str) -> (r: String)
    ensures
        r@ == trim_of(s@),
{
    s.trim().to_string()
}

/// Relies on rand::Rng::gen_range over `0..n`: the sampled value lies in
/// the given non-empty range.
#[verifier::external_body]
fn rand_below(n: usize) -> (r: usize)
    requires
        0 < n,
    ensures
        r < n,
{
    rand::Rng::gen_range(&mut rand::thread_rng(), 0..n)
}

/// Whether two string slices hold the same characters.
fn str_eq(a: &str, b: &str) -> (r: bool)
    ensures
        r == (a@ == b@),
{
    let n = a.unicode_len();
    if n != b.unicode_len() {
        return false;
    }
    let mut i: usize = 0;
    while i < n
        invariant
            i <= n,
            n == a@.len(),
            n == b@.len(),
            forall|k: int| 0 <= k < i ==> a@[k] == b@[k],
        decreases n - i,
    {
        if a.get_char(i) != b.get_char(i) {
            return false;
        }
        i = i + 1;
    }
    proof {
        assert(a@ =~= b@);
    }
    true
}

/// The views of the normalized words that a list of raw lines yields:
/// each line trimmed, blank lines dropped, the rest uppercased, in
/// order.
pub open spec fn dict_views(lines: Seq<String>) -> Seq<Seq<char>>
    decreases lines.len(),
{
    if lines.len() == 0 {
        Seq::empty()
    } else {
        dict_views(lines.drop_last()) + (if trim_of(lines.last()@).len() == 0 {
            Seq::empty()
        } else {
            seq![upper_of(trim_of(lines.last()@))]
        })
    }
}

/// Turns the raw lines of a word list into normalized words: trims each
/// line, drops the blank ones, and uppercases the rest.
pub fn dict_words(lines: &Vec<String>) -> (r: Vec<String>)
    ensures
        r@.map_values(|w: String| w@) == dict_views(lines@),
{
    let mut r: Vec<String> = Vec::new();
    let mut i: usize = 0;
    while i < lines.len()
        invariant
            i <= lines@.len(),
            r@.map_values(|w: String| w@) == dict_views(lines@.take(i as int)),
        decreases lines@.len() - i,
    {
        let line = trim(&lines[i]);
        let ghost pre = r@;
        if !line.as_str().is_empty() {
            let word = normalize(line.as_str());
            r.push(word);
        }
        proof {
            assert(lines@.take(i + 1).drop_last() =~= lines@.take(i as int));
            assert(lines@.take(i + 1).last() == lines@[i as int]);
            if trim_of(lines@[i as int]@).len() == 0 {
                assert(r@.map_values(|w: String| w@) =~= dict_views(lines@.take(i + 1)));
            } else {
                assert(r@.map_values(|w: String| w@) =~= pre.map_values(|w: String| w@).push(
                    upper_of(trim_of(lines@[i as int]@)),
                ));
                assert(r@.map_values(|w: String| w@) =~= dict_views(lines@.take(i + 1)));
            }
        }
        i = i + 1;
    }
    proof {
        assert(lines@.take(lines@.len() as int) =~= lines@);
    }
    r
}

/// The words of the given character length, in order.
pub open spec fn of_len(words: Seq<String>, len: int) -> Seq<String>
    decreases words.len(),
{
    if words.len() == 0 {
        Seq::empty()
    } else {
        of_len(words.drop_last(), len) + (if words.last()@.len() == len {
            seq![words.last()]
        } else {
            Seq::empty()
        })
    }
}

/// `of_len` keeps exactly the words of the given length: everything it
/// holds is such a word of the list, and every such word of the list is
/// held.
pub proof fn lemma_of_len(words: Seq<String>, len: int)
    ensures
        of_len(words, len).len() <= words.len(),
        forall|k: int|
            0 <= k < of_len(words, len).len() ==> (#[trigger] of_len(words, len)[k])@.len() == len
                && words.contains(of_len(words, len)[k]),
        forall|j: int|
            0 <= j < words.len() && (#[trigger] words[j])@.len() == len ==> of_len(
                words,
                len,
            ).contains(words[j]),
    decreases words.len(),
{
    let d = of_len(words, len);
    if words.len() > 0 {
        let dl = words.drop_last();
        lemma_of_len(dl, len);
        let dd = of_len(dl, len);
        assert forall|k: int| 0 <= k < d.len() implies (#[trigger] d[k])@.len() == len
            && words.contains(d[k]) by {
            if k < dd.len() {
                assert(d[k] == dd[k]);
                let j = choose|j: int| 0 <= j < dl.len() && dl[j] == dd[k];
                assert(words[j] == dl[j]);
                assert(words.contains(d[k]));
            } else {
                assert(d[k] == words.last());
                assert(words[words.len() - 1] == words.last());
                assert(words.contains(d[k]));
            }
        }
        assert forall|j: int| 0 <= j < words.len() && (#[trigger] words[j])@.len() == len implies d
            .contains(words[j]) by {
            if j < words.len() - 1 {
                assert(dl[j] == words[j]);
                assert(dd.contains(dl[j]));
                let k = choose|k: int| 0 <= k < dd.len() && dd[k] == dl[j];
                assert(d[k] == dd[k]);
                assert(d.contains(words[j]));
            } else {
                assert(d[d.len() - 1] == words.last());
                assert(d.contains(words[j]));
            }
        }
    }
}

/// An ASCII letter.
pub open spec fn is_ascii_alpha(c: char) -> bool {
    (('a' as u32) <= (c as u32) && (c as u32) <= ('z' as u32)) || (('A' as u32) <= (c as u32) && (
    c as u32) <= ('Z' as u32))
}

/// An ASCII uppercase letter.
pub open spec fn is_ascii_up(c: char) -> bool {
    ('A' as u32) <= (c as u32) && (c as u32) <= ('Z' as u32)
}

/// How many ASCII uppercase letters a word holds.
pub open spec fn count_upper(s: Seq<char>) -> int
    decreases s.len(),
{
    if s.len() == 0 {
        0
    } else {
        count_upper(s.drop_last()) + (if is_ascii_up(s.last()) {
            1int
        } else {
            0int
        })
    }
}

/// The first filter keeps a word made of ASCII letters only, at most
/// one of them uppercase: punctuation, accents and acronyms drop out.
pub open spec fn loose_keeps(s: Seq<char>) -> bool {
    (forall|i: int| 0 <= i < s.len() ==> is_ascii_alpha(#[trigger] s[i])) && count_upper(s) <= 1
}

/// The second filter keeps a word with no uppercase letter at all:
/// proper nouns drop out.
pub open spec fn improper_keeps(s: Seq<char>) -> bool {
    count_upper(s) == 0
}

/// Whether the first filter keeps the word.
#[verifier::loop_isolation(false)]
pub fn keep_loose(s: &str) -> (r: bool)
    ensures
        r == loose_keeps(s@),
{
    let n = s.unicode_len();
    let mut ups: usize = 0;
    let mut i: usize = 0;
    while i < n
        invariant
            i <= n,
            n == s@.len(),
            ups == count_upper(s@.take(i as int)),
            ups <= i,
            forall|k: int| 0 <= k < i ==> is_ascii_alpha(#[trigger] s@[k]),
        decreases n - i,
    {
        let c = s.get_char(i);
        let u = c as u32;
        proof {
            assert(s@.take(i + 1).drop_last() =~= s@.take(i as int));
            assert(s@.take(i + 1).last() == s@[i as int]);
        }
        let lower = 97 <= u && u <= 122;
        let upper = 65 <= u && u <= 90;
        if !lower && !upper {
            return false;
        }
        if upper {
            ups = ups + 1;
        }
        i = i + 1;
    }
    proof {
        assert(s@.take(n as int) =~= s@);
    }
    ups <= 1
}

/// Whether the second filter keeps the word.
#[verifier::loop_isolation(false)]
pub fn keep_improper(s: &str) -> (r: bool)
    ensures
        r == improper_keeps(s@),
{
    let n = s.unicode_len();
    let mut i: usize = 0;
    while i < n
        invariant
            i <= n,
            n == s@.len(),
            count_upper(s@.take(i as int)) == 0,
        decreases n - i,
    {
        let c = s.get_char(i);
        let u = c as u32;
        proof {
            assert(s@.take(i + 1).drop_last() =~= s@.take(i as int));
            assert(s@.take(i + 1).last() == s@[i as int]);
        }
        if 65 <= u && u <= 90 {
            proof {
                assert(count_upper(s@.take(i + 1)) > 0);
                lemma_count_upper_prefix(s@, i + 1);
            }
            return false;
        }
        i = i + 1;
    }
    proof {
        assert(s@.take(n as int) =~= s@);
    }
    true
}

/// A word with an uppercase letter in some prefix has one overall.
proof fn lemma_count_upper_prefix(s: Seq<char>, i: int)
    requires
        0 <= i <= s.len(),
        count_upper(s.take(i)) > 0,
    ensures
        count_upper(s) > 0,
    decreases s.len() - i,
{
    if i < s.len() {
        assert(s.take(i + 1).drop_last() =~= s.take(i));
        assert(s.take(i + 1).last() == s[i]);
        lemma_count_upper_prefix(s, i + 1);
    } else {
        assert(s.take(i) =~= s);
    }
}

/// The words the first filter keeps, in order.
pub open spec fn loose_views(inp: Seq<Seq<char>>) -> Seq<Seq<char>>
    decreases inp.len(),
{
    if inp.len() == 0 {
        Seq::empty()
    } else {
        loose_views(inp.drop_last()) + (if loose_keeps(inp.last()) {
            seq![inp.last()]
        } else {
            Seq::empty()
        })
    }
}

/// The words the second filter keeps, in order.
pub open spec fn improper_views(inp: Seq<Seq<char>>) -> Seq<Seq<char>>
    decreases inp.len(),
{
    if inp.len() == 0 {
        Seq::empty()
    } else {
        improper_views(inp.drop_last()) + (if improper_keeps(inp.last()) {
            seq![inp.last()]
        } else {
            Seq::empty()
        })
    }
}

/// The word reads as another word with a plural suffix attached.
pub open spec fn plural_of(s: Seq<char>, w: Seq<char>) -> bool {
    s == w + seq!['s'] || s == w + seq!['e', 's']
}

/// The word ends in "ies".
pub open spec fn ends_ies(s: Seq<char>) -> bool {
    s.len() >= 3 && s.subrange(s.len() - 3, s.len() as int) == seq!['i', 'e', 's']
}

/// The third filter drops a word that reads as a recently kept word
/// pluralized, or that ends in "ies".
pub open spec fn singular_drops(s: Seq<char>, window: Seq<Seq<char>>) -> bool {
    ends_ies(s) || exists|i: int| 0 <= i < window.len() && plural_of(s, #[trigger] window[i])
}

/// The sliding window of recently kept words: at most twenty, oldest
/// out first.
pub open spec fn push_window(window: Seq<Seq<char>>, s: Seq<char>) -> Seq<Seq<char>> {
    let w = window.push(s);
    if w.len() > 20 {
        w.drop_first()
    } else {
        w
    }
}

/// The words the third filter keeps from `inp`, given the window of
/// recently kept words.
pub open spec fn singular_views(inp: Seq<Seq<char>>, window: Seq<Seq<char>>) -> Seq<Seq<char>>
    decreases inp.len(),
{
    if inp.len() == 0 {
        Seq::empty()
    } else {
        let s = inp[0];
        if singular_drops(s, window) {
            singular_views(inp.drop_first(), window)
        } else {
            seq![s] + singular_views(inp.drop_first(), push_window(window, s))
        }
    }
}

/// Whether the word reads as the other word with a plural suffix.
#[verifier::loop_isolation(false)]
fn is_plural_of(s: &str, w: &str) -> (r: bool)
    ensures
        r == plural_of(s@, w@),
{
    let n = w.unicode_len();
    let m = s.unicode_len();
    if m <= n {
        return false;
    }
    if m != n + 1 && m != n + 2 {
        return false;
    }
    let mut i: usize = 0;
    while i < n
        invariant
            i <= n,
            n == w@.len(),
            m == s@.len(),
            n < m <= n + 2,
            forall|k: int| 0 <= k < i ==> s@[k] == w@[k],
        decreases n - i,
    {
        if s.get_char(i) != w.get_char(i) {
            proof {
                assert(s@[i as int] != (w@ + seq!['s'])[i as int]);
                assert(s@[i as int] != (w@ + seq!['e', 's'])[i as int]);
            }
            return false;
        }
        i = i + 1;
    }
    if m == n + 1 {
        let r = s.get_char(n) == 's';
        proof {
            if r {
                assert(s@ =~= w@ + seq!['s']);
            } else {
                assert(s@[n as int] != (w@ + seq!['s'])[n as int]);
            }
            assert(s@.len() != (w@ + seq!['e', 's']).len());
        }
        r
    } else {
        let r = s.get_char(n) == 'e' && s.get_char(n + 1) == 's';
        proof {
            if r {
                assert(s@ =~= w@ + seq!['e', 's']);
            } else {
                assert(s@ != w@ + seq!['e', 's']);
            }
            assert(s@.len() != (w@ + seq!['s']).len());
        }
        r
    }
}

/// Whether the word ends in "ies".
fn has_ies_end(s: &str) -> (r: bool)
    ensures
        r == ends_ies(s@),
{
    let m = s.unicode_len();
    if m < 3 {
        return false;
    }
    let r = s.get_char(m - 3) == 'i' && s.get_char(m - 2) == 'e' && s.get_char(m - 1) == 's';
    proof {
        if r {
            assert(s@.subrange(s@.len() - 3, s@.len() as int) =~= seq!['i', 'e', 's']);
        } else {
            assert(s@.subrange(s@.len() - 3, s@.len() as int) != seq!['i', 'e', 's']) by {
                if s@.subrange(s@.len() - 3, s@.len() as int) == seq!['i', 'e', 's'] {
                    assert(s@.subrange(s@.len() - 3, s@.len() as int)[0] == 'i');
                    assert(s@.subrange(s@.len() - 3, s@.len() as int)[1] == 'e');
                    assert(s@.subrange(s@.len() - 3, s@.len() as int)[2] == 's');
                }
            }
        }
    }
    r
}

/// The third filter: drops plurals of recently kept words and words
/// ending in "ies", keeping the rest in order.
#[verifier::loop_isolation(false)]
pub fn singular_pass(words: &Vec<String>) -> (r: Vec<String>)
    ensures
        r@.map_values(|w: String| w@) == singular_views(
            words@.map_values(|w: String| w@),
            Seq::empty(),
        ),
{
    let ghost inp = words@.map_values(|w: String| w@);
    let mut out: Vec<String> = Vec::new();
    let mut window: Vec<String> = Vec::new();
    let mut i: usize = 0;
    proof {
        assert(inp.skip(0) =~= inp);
        assert(out@.map_values(|w: String| w@) =~= Seq::<Seq<char>>::empty());
        assert(window@.map_values(|w: String| w@) =~= Seq::<Seq<char>>::empty());
        assert(Seq::<Seq<char>>::empty() + singular_views(inp, Seq::empty()) =~= singular_views(
            inp,
            Seq::empty(),
        ));
    }
    while i < words.len()
        invariant
            i <= words@.len(),
            inp == words@.map_values(|w: String| w@),
            singular_views(inp, Seq::empty()) == out@.map_values(|w: String| w@)
                + singular_views(inp.skip(i as int), window@.map_values(|w: String| w@)),
        decreases words@.len() - i,
    {
        let word = &words[i];
        proof {
            assert(inp.skip(i as int)[0] == inp[i as int]);
            assert(inp.skip(i as int).drop_first() =~= inp.skip(i + 1));
        }
        let mut dropped = has_ies_end(word.as_str());
        let mut j: usize = 0;
        while j < window.len()
            invariant
                j <= window@.len(),
                dropped == (ends_ies(word@) || exists|k: int|
                    0 <= k < j && plural_of(word@, (#[trigger] window@[k])@)),
            decreases window@.len() - j,
        {
            let p = is_plural_of(word.as_str(), window[j].as_str());
            proof {
                assert(window@.map_values(|w: String| w@)[j as int] == window@[j as int]@);
            }
            dropped = dropped || p;
            j = j + 1;
        }
        proof {
            assert(forall|k: int|
                0 <= k < window@.len() ==> window@.map_values(|w: String| w@)[k] == (
                #[trigger] window@[k])@);
            assert(dropped == singular_drops(word@, window@.map_values(|w: String| w@)));
        }
        if !dropped {
            let ghost out_pre = out@;
            let ghost win_pre = window@;
            let kept = word.clone();
            let kept2 = word.clone();
            out.push(kept);
            window.push(kept2);
            if window.len() > 20 {
                window.remove(0);
            }
            proof {
                assert(out@.map_values(|w: String| w@) =~= out_pre.map_values(|w: String| w@)
                    + seq![inp[i as int]]);
                assert(window@.map_values(|w: String| w@) =~= push_window(
                    win_pre.map_values(|w: String| w@),
                    inp[i as int],
                ));
                assert((out_pre.map_values(|w: String| w@) + seq![inp[i as int]])
                    + singular_views(
                    inp.skip(i + 1),
                    push_window(win_pre.map_values(|w: String| w@), inp[i as int]),
                ) =~= out_pre.map_values(|w: String| w@) + (seq![inp[i as int]]
                    + singular_views(
                    inp.skip(i + 1),
                    push_window(win_pre.map_values(|w: String| w@), inp[i as int]),
                )));
            }
        }
        i = i + 1;
    }
    proof {
        assert(inp.skip(inp.len() as int).len() == 0);
        assert(out@.map_values(|w: String| w@) + Seq::<Seq<char>>::empty() =~= out@.map_values(
            |w: String| w@,
        ));
    }
    out
}

/// Builds the playable word list from the raw lines of a system
/// dictionary: the first filter drops punctuation, accents and
/// acronyms, the second drops proper nouns, and the third drops plurals
/// of recently kept words.
pub fn mkdict(lines: &Vec<String>) -> (r: Vec<String>)
    ensures
        r@.map_values(|w: String| w@) == singular_views(
            improper_views(loose_views(lines@.map_values(|w: String| w@))),
            Seq::empty(),
        ),
{
    let loose = filter_loose(lines);
    let improper = filter_improper(&loose);
    singular_pass(&improper)
}

/// The first filter applied to each line.
pub fn filter_loose(lines: &Vec<String>) -> (r: Vec<String>)
    ensures
        r@.map_values(|w: String| w@) == loose_views(lines@.map_values(|w: String| w@)),
{
    let ghost inp = lines@.map_values(|w: String| w@);
    let mut r: Vec<String> = Vec::new();
    let mut i: usize = 0;
    while i < lines.len()
        invariant
            i <= lines@.len(),
            inp == lines@.map_values(|w: String| w@),
            r@.map_values(|w: String| w@) == loose_views(inp.take(i as int)),
        decreases lines@.len() - i,
    {
        let word = &lines[i];
        proof {
            assert(inp.take(i + 1).drop_last() =~= inp.take(i as int));
            assert(inp.take(i + 1).last() == inp[i as int]);
        }
        if keep_loose(word.as_str()) {
            let ghost pre = r@;
            let kept = word.clone();
            r.push(kept);
            proof {
                assert(r@.map_values(|w: String| w@) =~= pre.map_values(|w: String| w@)
                    + seq![inp[i as int]]);
            }
        }
        i = i + 1;
    }
    proof {
        assert(inp.take(inp.len() as int) =~= inp);
    }
    r
}

/// The second filter applied to each kept word.
pub fn filter_improper(words: &Vec<String>) -> (r: Vec<String>)
    ensures
        r@.map_values(|w: String| w@) == improper_views(words@.map_values(|w: String| w@)),
{
    let ghost inp = words@.map_values(|w: String| w@);
    let mut r: Vec<String> = Vec::new();
    let mut i: usize = 0;
    while i < words.len()
        invariant
            i <= words@.len(),
            inp == words@.map_values(|w: String| w@),
            r@.map_values(|w: String| w@) == improper_views(inp.take(i as int)),
        decreases words@.len() - i,
    {
        let word = &words[i];
        proof {
            assert(inp.take(i + 1).drop_last() =~= inp.take(i as int));
            assert(inp.take(i + 1).last() == inp[i as int]);
        }
        if keep_improper(word.as_str()) {
            let ghost pre = r@;
            let kept = word.clone();
            r.push(kept);
            proof {
                assert(r@.map_values(|w: String| w@) =~= pre.map_values(|w: String| w@)
                    + seq![inp[i as int]]);
            }
        }
        i = i + 1;
    }
    proof {
        assert(inp.take(inp.len() as int) =~= inp);
    }
    r
}

/// The word list of a game: normalized words, in the order they were
/// loaded.
pub struct Dict {
    /// The normalized words.
    pub words: Vec<String>,
}

impl Dict {
    /// Whether some word of the list reads as `w`.
    pub open spec fn contains_word(self, w: Seq<char>) -> bool {
        exists|i: int| 0 <= i < self.words@.len() && (#[trigger] self.words@[i])@ == w
    }

    /// A dictionary over the given normalized words.
    pub fn new(words: Vec<String>) -> (d: Dict)
        ensures
            d.words == words,
    {
        Dict { words }
    }

    /// Whether the word is in the list.
    pub fn has(&self, word: &str) -> (r: bool)
        ensures
            r == self.contains_word(word@),
    {
        let mut i: usize = 0;
        while i < self.words.len()
            invariant
                i <= self.words@.len(),
                forall|k: int| 0 <= k < i ==> (#[trigger] self.words@[k])@ != word@,
            decreases self.words@.len() - i,
        {
            if str_eq(self.words[i].as_str(), word) {
                return true;
            }
            i = i + 1;
        }
        false
    }

    /// The words of the given character length, in order.
    pub fn word_lens(&self, len: usize) -> (r: Vec<String>)
        ensures
            r@ == of_len(self.words@, len as int),
    {
        let mut r: Vec<String> = Vec::new();
        let mut i: usize = 0;
        while i < self.words.len()
            invariant
                i <= self.words@.len(),
                r@ == of_len(self.words@.take(i as int), len as int),
            decreases self.words@.len() - i,
        {
            let w = &self.words[i];
            proof {
                assert(self.words@.take(i + 1).drop_last() =~= self.words@.take(i as int));
                assert(self.words@.take(i + 1).last() == self.words@[i as int]);
            }
            if w.as_str().unicode_len() == len {
                let copy = w.clone();
                proof {
                    assert(copy == self.words@[i as int]);
                }
                r.push(copy);
            }
            i = i + 1;
        }
        proof {
            assert(self.words@.take(self.words@.len() as int) =~= self.words@);
        }
        r
    }

    /// A uniformly random word of the given character length. At least
    /// one word of that length must be in the list.
    pub fn rand_of_len(&self, len: usize) -> (r: String)
        requires
            exists|i: int|
                0 <= i < self.words@.len() && (#[trigger] self.words@[i])@.len() == len,
        ensures
            r@.len() == len,
            self.contains_word(r@),
    {
        let candidates = self.word_lens(len);
        proof {
            lemma_of_len(self.words@, len as int);
            let i = choose|i: int|
                0 <= i < self.words@.len() && (#[trigger] self.words@[i])@.len() == len;
            assert(of_len(self.words@, len as int).contains(self.words@[i]));
        }
        let idx = rand_below(candidates.len());
        let picked = candidates[idx].clone();
        proof {
            assert(candidates@[idx as int] == picked);
            assert(candidates@.contains(candidates@[idx as int]));
            let j = choose|j: int|
                0 <= j < self.words@.len() && self.words@[j] == candidates@[idx as int];
            assert(self.words@[j]@ == picked@);
        }
        picked
    }
}

} // verus!
