//! The target generator: the dictionary, the length of a test, and the
//! passage that the user is asked to type.
//!
//! A passage is words of the dictionary joined by single separators. Which
//! words is left to chance; everything else about the passage is fixed by
//! the words drawn.

use crate::words::{
    as_ints, lemma_separator_ends_push, lemma_separator_ends_shape, separator_ends, word_at,
    word_ends, word_offsets, SEPARATOR,
};
use rand::distributions::{Distribution, Uniform};
use rand::thread_rng;
use vstd::prelude::*;

verus! {

/// The typing speed, in words per minute, that a timed passage is sized
/// for, so that it does not run out before the time does.
pub const WPM_CEILING: usize = 300;

/// How long a test is: a number of seconds, or a number of words.
#[derive(Debug, Clone, Copy, PartialEq, Eq, Structural)]
pub enum TargetStringType {
    /// Seconds
    Timed(usize),
    Words(usize),
}

impl Default for TargetStringType {
    fn default() -> (r: TargetStringType)
        ensures
            r == TargetStringType::Timed(15),
    {
        TargetStringType::Timed(15)
    }
}

impl TargetStringType {
    /// The number of words of the passage: the words asked for, or as many
    /// as the speed ceiling allows in the seconds given.
    pub open spec fn words(&self) -> int {
        match *self {
            TargetStringType::Timed(seconds) => seconds * WPM_CEILING / 60,
            TargetStringType::Words(n) => n as int,
        }
    }

    /// The number of words can be held in a machine integer.
    pub open spec fn fits(&self) -> bool {
        self.words() <= usize::MAX
    }

    /// Whether the number of words can be held in a machine integer.
    pub fn is_supported(&self) -> (b: bool)
        ensures
            b == self.fits(),
    {
        match *self {
            TargetStringType::Timed(seconds) => {
                let per_second: usize = WPM_CEILING / 60;
                proof {
                    assert(seconds * WPM_CEILING / 60 == seconds * 5);
                }
                seconds <= usize::MAX / per_second
            },
            TargetStringType::Words(_) => true,
        }
    }

    /// The number of words of the passage.
    pub fn word_count(&self) -> (n: usize)
        requires
            self.fits(),
        ensures
            n == self.words(),
    {
        match *self {
            TargetStringType::Timed(seconds) => {
                let per_second: usize = WPM_CEILING / 60;
                proof {
                    assert(seconds * WPM_CEILING / 60 == seconds * 5);
                }
                seconds * per_second
            },
            TargetStringType::Words(n) => n,
        }
    }

    /// Whether the test runs on time rather than on a number of words.
    pub fn is_timed(&self) -> (b: bool)
        ensures
            b == (*self is Timed),
    {
        match *self {
            TargetStringType::Timed(_) => true,
            TargetStringType::Words(_) => false,
        }
    }
}

/// A word of a dictionary: not empty, and without a separator.
pub open spec fn is_word(w: Seq<char>) -> bool {
    w.len() > 0 && forall|i: int| 0 <= i < w.len() ==> w[i] != SEPARATOR
}

/// The characters of each string.
pub open spec fn texts(words: Seq<String>) -> Seq<Seq<char>> {
    words.map_values(|s: String| s@)
}

/// `i` is the first index of `words` that holds no word.
pub open spec fn first_bad_word(words: Seq<Seq<char>>, i: int) -> bool {
    &&& 0 <= i < words.len()
    &&& !is_word(words[i])
    &&& forall|j: int| 0 <= j < i ==> is_word(#[trigger] words[j])
}

/// The words joined by single separators.
pub open spec fn joined(words: Seq<Seq<char>>) -> Seq<char>
    decreases words.len(),
{
    if words.len() == 0 {
        Seq::empty()
    } else if words.len() == 1 {
        words[0]
    } else {
        joined(words.drop_last()).push(SEPARATOR) + words.last()
    }
}

/// The words of `dict` at the indices `picks`.
pub open spec fn picked(dict: Seq<Seq<char>>, picks: Seq<usize>) -> Seq<Seq<char>> {
    picks.map_values(|i: usize| dict[i as int])
}

/// Every index of `picks` is one of a dictionary of `len` words.
pub open spec fn picks_within(picks: Seq<usize>, len: int) -> bool {
    forall|k: int| 0 <= k < picks.len() ==> 0 <= #[trigger] picks[k] < len
}

/// `text` is `count` words of `dict`, joined by single separators.
pub open spec fn drawn_from(text: Seq<char>, dict: Seq<Seq<char>>, count: int) -> bool {
    exists|picks: Seq<usize>|
        {
            &&& picks.len() == count
            &&& picks_within(picks, dict.len() as int)
            &&& text == joined(#[trigger] picked(dict, picks))
        }
}

/// Word `k` as it stands in the joined text: followed by its separator,
/// unless it is the last.
pub open spec fn joined_word(words: Seq<Seq<char>>, k: int) -> Seq<char> {
    if k < words.len() - 1 {
        words[k].push(SEPARATOR)
    } else {
        words[k]
    }
}

/// Text without a separator, put behind any text, adds no separator end.
pub proof fn lemma_separator_ends_after_word(text: Seq<char>, w: Seq<char>)
    requires
        forall|i: int| 0 <= i < w.len() ==> w[i] != SEPARATOR,
    ensures
        separator_ends(text + w) == separator_ends(text),
    decreases w.len(),
{
    if w.len() == 0 {
        assert(text + w == text);
    } else {
        assert((text + w).drop_last() == text + w.drop_last());
        lemma_separator_ends_after_word(text, w.drop_last());
    }
}

/// Words joined make a text of as many words, which does not end in a
/// separator.
pub proof fn lemma_joined_word_count(words: Seq<Seq<char>>)
    requires
        forall|k: int| 0 <= k < words.len() ==> is_word(#[trigger] words[k]),
    ensures
        word_ends(joined(words)).len() == words.len(),
        words.len() > 0 ==> joined(words).len() > 0 && joined(words).last() != SEPARATOR,
        words.len() > 0 ==> separator_ends(joined(words)).len() == words.len() - 1,
    decreases words.len(),
{
    if words.len() == 1 {
        let w = words[0];
        assert(is_word(w));
        lemma_separator_ends_after_word(Seq::empty(), w);
        assert(Seq::<char>::empty() + w == w);
    } else if words.len() > 1 {
        let before = joined(words.drop_last());
        let w = words.last();
        assert(is_word(w));
        assert forall|k: int| 0 <= k < words.drop_last().len() implies is_word(
            #[trigger] words.drop_last()[k],
        ) by {
            assert(words.drop_last()[k] == words[k]);
        }
        lemma_joined_word_count(words.drop_last());
        let stem = before.push(SEPARATOR);
        assert(stem.drop_last() == before);
        lemma_separator_ends_after_word(stem, w);
        assert((stem + w).last() == w.last());
    }
}

/// Word `k` of the joined text is word `k` of those joined, followed by
/// its separator unless it is the last.
pub proof fn lemma_joined_words(words: Seq<Seq<char>>, k: int)
    requires
        forall|j: int| 0 <= j < words.len() ==> is_word(#[trigger] words[j]),
        0 <= k < words.len(),
    ensures
        word_at(joined(words), word_ends(joined(words)), k) == joined_word(words, k),
    decreases words.len(),
{
    let n = words.len() as int;
    let text = joined(words);
    lemma_joined_word_count(words);
    if n == 1 {
        assert(word_at(text, word_ends(text), 0) =~= words[0]);
    } else {
        let front = words.drop_last();
        let before = joined(front);
        let w = words.last();
        let stem = before.push(SEPARATOR);
        assert(is_word(w));
        assert forall|j: int| 0 <= j < front.len() implies is_word(#[trigger] front[j]) by {
            assert(front[j] == words[j]);
        }
        lemma_joined_word_count(front);
        lemma_separator_ends_push(before, SEPARATOR);
        lemma_separator_ends_after_word(stem, w);
        lemma_separator_ends_shape(before);
        let cuts = separator_ends(before);
        assert(separator_ends(text) == cuts.push((before.len() + 1) as int));
        assert(word_ends(text) == cuts.push((before.len() + 1) as int).push(text.len() as int));
        assert(word_ends(before) == cuts.push(before.len() as int));
        assert(cuts.len() == n - 2);
        if k == n - 1 {
            assert(word_at(text, word_ends(text), k) =~= w);
        } else if k == n - 2 {
            lemma_joined_words(front, k);
            assert(joined_word(front, k) == words[k]);
            assert(word_at(text, word_ends(text), k) =~= word_at(before, word_ends(before), k).push(
                SEPARATOR,
            ));
        } else {
            lemma_joined_words(front, k);
            assert(joined_word(front, k) == words[k].push(SEPARATOR));
            assert(word_at(text, word_ends(text), k) =~= word_at(before, word_ends(before), k));
        }
    }
}

/// Why a list of words is no dictionary.
#[derive(Debug, Clone, Copy, PartialEq, Eq)]
pub enum DictionaryError {
    /// The list holds no word at all.
    Empty,
    /// The entry at this index is empty or holds a separator.
    BadWord(usize),
}

/// The candidate words: at least one, each of them not empty and without
/// a separator.
#[derive(Debug)]
pub struct Dictionary {
    words: Vec<Vec<char>>,
}

impl View for Dictionary {
    type V = Seq<Seq<char>>;

    closed spec fn view(&self) -> Seq<Seq<char>> {
        self.words@.map_values(|w: Vec<char>| w@)
    }
}

/// The characters of `s`.
pub fn chars_of(s: &str) -> (r: Vec<char>)
    ensures
        r@ == s@,
{
    let mut r: Vec<char> = Vec::new();
    for c in it: s.chars()
        invariant
            it.seq() == s@,
            r@ == it.seq().take(it.index()),
    {
        r.push(c);
        proof {
            assert(r@ == it.seq().take(it.index() + 1));
        }
    }
    proof {
        assert(r@ == s@);
    }
    r
}

/// Whether `w` can be a word of a dictionary.
pub fn is_plain_word(w: &[char]) -> (b: bool)
    ensures
        b == is_word(w@),
{
    if w.len() == 0 {
        return false;
    }
    let mut i: usize = 0;
    while i < w.len()
        invariant
            i <= w@.len(),
            forall|j: int| 0 <= j < i ==> w@[j] != SEPARATOR,
        decreases w@.len() - i,
    {
        if w[i] == SEPARATOR {
            return false;
        }
        i = i + 1;
    }
    true
}

/// Appends the characters of `word` to `text`.
fn append_chars(text: &mut Vec<char>, word: &[char])
    ensures
        final(text)@ == old(text)@ + word@,
{
    let mut i: usize = 0;
    while i < word.len()
        invariant
            i <= word@.len(),
            text@ == old(text)@ + word@.take(i as int),
        decreases word@.len() - i,
    {
        text.push(word[i]);
        proof {
            assert(text@ == old(text)@ + word@.take(i + 1));
        }
        i = i + 1;
    }
    proof {
        assert(word@.take(word@.len() as int) == word@);
    }
}

/// Draws an index below `n` from the thread's random number generator:
/// `rand::thread_rng`, then `Uniform::from` on the range from 0 to `n`, then
/// `Distribution::sample`. The range must not be empty, or `Uniform::from`
/// panics. Of the result only its range is claimed.
#[verifier::external_body]
fn pick_index(n: usize) -> (i: usize)
    requires
        n > 0,
    ensures
        i < n,
{
    Uniform::from(0..n).sample(&mut thread_rng())
}

impl Dictionary {
    /// At least one word, and every entry is a word.
    pub open spec fn wf(&self) -> bool {
        &&& self@.len() > 0
        &&& forall|k: int| 0 <= k < self@.len() ==> is_word(#[trigger] self@[k])
    }

    /// Makes a dictionary of `words`, or says why they are none: the list
    /// is empty, or the first entry that is no word.
    pub fn new(words: &Vec<String>) -> (r: Result<Dictionary, DictionaryError>)
        ensures
            match r {
                Ok(d) => d.wf() && d@ == texts(words@),
                Err(DictionaryError::Empty) => words@.len() == 0,
                Err(DictionaryError::BadWord(i)) => first_bad_word(texts(words@), i as int),
            },
    {
        if words.len() == 0 {
            return Err(DictionaryError::Empty);
        }
        let mut held: Vec<Vec<char>> = Vec::new();
        let mut k: usize = 0;
        while k < words.len()
            invariant
                k <= words@.len(),
                held@.len() == k,
                forall|j: int| 0 <= j < k ==> (#[trigger] held@[j])@ == words@[j]@,
                forall|j: int| 0 <= j < k ==> is_word(#[trigger] texts(words@)[j]),
            decreases words@.len() - k,
        {
            let w = chars_of(words[k].as_str());
            if !is_plain_word(w.as_slice()) {
                return Err(DictionaryError::BadWord(k));
            }
            held.push(w);
            k = k + 1;
        }
        let d = Dictionary { words: held };
        proof {
            assert(d@ =~= texts(words@));
        }
        Ok(d)
    }

    /// The number of words.
    pub fn len(&self) -> (n: usize)
        ensures
            n == self@.len(),
    {
        self.words.len()
    }

    /// Word `i`.
    pub fn word(&self, i: usize) -> (w: &[char])
        requires
            i < self@.len(),
        ensures
            w@ == self@[i as int],
    {
        self.words[i].as_slice()
    }
}

/// The text that the user is asked to type, with the end offset of each of
/// its words.
#[derive(Debug)]
pub struct Passage {
    text: Vec<char>,
    ends: Vec<usize>,
}

impl View for Passage {
    type V = Seq<char>;

    closed spec fn view(&self) -> Seq<char> {
        self.text@
    }
}

impl Passage {
    /// The end offsets held for the words.
    pub closed spec fn ends(&self) -> Seq<int> {
        as_ints(self.ends@)
    }

    /// The offsets held are the word ends of the text.
    pub open spec fn wf(&self) -> bool {
        self.ends() == word_ends(self@)
    }

    /// The number of words.
    pub open spec fn word_count(&self) -> int {
        word_ends(self@).len() as int
    }

    /// Word `k`, trailing separator included.
    pub open spec fn word(&self, k: int) -> Seq<char> {
        word_at(self@, word_ends(self@), k)
    }

    /// The passage that reads `text`.
    pub fn from_chars(text: Vec<char>) -> (p: Passage)
        ensures
            p.wf(),
            p@ == text@,
    {
        let ends = word_offsets(text.as_slice());
        Passage { text, ends }
    }

    /// The characters of the passage.
    pub fn chars(&self) -> (r: &[char])
        ensures
            r@ == self@,
    {
        self.text.as_slice()
    }

    /// The end offset of each word.
    pub fn offsets(&self) -> (r: &Vec<usize>)
        ensures
            as_ints(r@) == self.ends(),
    {
        &self.ends
    }

    /// The number of words.
    pub fn words(&self) -> (n: usize)
        requires
            self.wf(),
        ensures
            n == self.word_count(),
    {
        proof {
            assert(as_ints(self.ends@).len() == self.ends@.len());
        }
        self.ends.len()
    }

    /// The passage of the words of `dict` at `picks`, in this order, joined
    /// by single separators. It has one word for each pick.
    pub fn from_picks(dict: &Dictionary, picks: &Vec<usize>) -> (p: Passage)
        requires
            dict.wf(),
            picks_within(picks@, dict@.len() as int),
        ensures
            p.wf(),
            p@ == joined(picked(dict@, picks@)),
            p.word_count() == picks@.len(),
            forall|k: int|
                0 <= k < picks@.len() ==> #[trigger] p.word(k) == joined_word(
                    picked(dict@, picks@),
                    k,
                ),
    {
        let ghost words = picked(dict@, picks@);
        let mut text: Vec<char> = Vec::new();
        let mut k: usize = 0;
        while k < picks.len()
            invariant
                k <= picks@.len(),
                words == picked(dict@, picks@),
                picks_within(picks@, dict@.len() as int),
                text@ == joined(words.take(k as int)),
            decreases picks@.len() - k,
        {
            proof {
                assert(words.take(k + 1).drop_last() == words.take(k as int));
                assert(words.take(k + 1).last() == dict@[picks@[k as int] as int]);
            }
            if k > 0 {
                text.push(SEPARATOR);
            }
            append_chars(&mut text, dict.word(picks[k]));
            proof {
                if k == 0 {
                    assert(text@ == dict@[picks@[0] as int]);
                }
            }
            k = k + 1;
        }
        proof {
            assert(words.take(k as int) == words);
            assert forall|j: int| 0 <= j < words.len() implies is_word(#[trigger] words[j]) by {
                assert(words[j] == dict@[picks@[j] as int]);
            }
            lemma_joined_word_count(words);
            assert forall|j: int| 0 <= j < words.len() implies word_at(
                joined(words),
                word_ends(joined(words)),
                j,
            ) == joined_word(words, j) by {
                lemma_joined_words(words, j);
            }
        }
        Passage::from_chars(text)
    }

    /// A passage of `count` words, each drawn from `dict` independently and
    /// uniformly at random.
    pub fn generate(dict: &Dictionary, count: usize) -> (p: Passage)
        requires
            dict.wf(),
        ensures
            p.wf(),
            p.word_count() == count,
            drawn_from(p@, dict@, count as int),
    {
        let mut picks: Vec<usize> = Vec::new();
        let mut k: usize = 0;
        while k < count
            invariant
                k <= count,
                picks@.len() == k,
                dict@.len() > 0,
                picks_within(picks@, dict@.len() as int),
            decreases count - k,
        {
            let i = pick_index(dict.len());
            picks.push(i);
            k = k + 1;
        }
        Passage::from_picks(dict, &picks)
    }
}

} // verus!
