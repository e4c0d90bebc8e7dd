//! The stats engine: accuracy, progress and speed of a test.
//!
//! A word counts as correct only if it was committed exactly as the target
//! has it, from its first character to its last. This is stricter than the
//! differ, which also shows how much of a word matches. The separator that
//! ends a word is no part of this comparison: the last target word has
//! none, and the word committed for it always has one. All figures are
//! whole numbers; a figure whose divisor is zero is zero.

use crate::differ::{strip_separator, strip_trailing_separator};
use crate::input::EnteredText;
use crate::passage::{Passage, TargetStringType};
use crate::words::{
    lemma_separator_ends_shape, lemma_word_ends_shape, same_chars, separator_ends,
    word_at, word_ends, word_slices,
};
use vstd::arithmetic::div_mod::{lemma_div_is_ordered, lemma_div_is_ordered_by_denominator};
use vstd::prelude::*;

verus! {

/// The least time, in milliseconds, between two samples of a history.
pub const SAMPLE_INTERVAL_MS: u64 = 100;

/// One point of a history: a figure, the progress at which it was taken,
/// and the time of the tick that took it.
#[derive(Debug, Clone, Copy, PartialEq, Eq)]
pub struct StatsSample {
    /// The time of the tick, in milliseconds.
    pub at_ms: u64,
    /// The progress of the test, in percent.
    pub progress: u64,
    /// The accuracy in percent, or the speed in words per minute.
    pub value: u128,
}

/// A sample as mathematical integers.
pub struct SampleView {
    pub at_ms: int,
    pub progress: int,
    pub value: int,
}

impl View for StatsSample {
    type V = SampleView;

    open spec fn view(&self) -> SampleView {
        SampleView {
            at_ms: self.at_ms as int,
            progress: self.progress as int,
            value: self.value as int,
        }
    }
}

/// A history as mathematical integers.
pub open spec fn samples_view(samples: Seq<StatsSample>) -> Seq<SampleView> {
    samples.map_values(|s: StatsSample| s@)
}

/// The samples of a history never go back in progress, and any two of
/// them lie at least the sampling interval apart.
pub open spec fn history_ok(history: Seq<SampleView>) -> bool {
    forall|i: int, j: int|
        0 <= i < j < history.len() ==> {
            &&& (#[trigger] history[i]).progress <= (#[trigger] history[j]).progress
            &&& history[i].at_ms + SAMPLE_INTERVAL_MS <= history[j].at_ms
        }
}

/// No sample of the history lies beyond the given progress or time.
pub open spec fn history_below(history: Seq<SampleView>, progress: int, at_ms: int) -> bool {
    forall|i: int|
        0 <= i < history.len() ==> {
            &&& (#[trigger] history[i]).progress <= progress
            &&& history[i].at_ms <= at_ms
        }
}

/// The share of correct words among those compared, in percent.
pub open spec fn accuracy_of(correct: int, total: int) -> int {
    if total == 0 {
        0
    } else {
        correct * 100 / total
    }
}

/// The share of the target words that have been compared, in percent.
pub open spec fn word_progress_of(compared: int, target_words: int) -> int {
    if target_words == 0 {
        0
    } else {
        compared * 100 / target_words
    }
}

/// The share of the time limit that has passed, in percent. It goes beyond
/// 100 when the limit is exceeded.
pub open spec fn time_progress_of(elapsed_ms: int, limit_s: int) -> int {
    if limit_s == 0 {
        0
    } else {
        elapsed_ms * 100 / (limit_s * 1000)
    }
}

/// The progress of a test: by words for a test on words, by time for a
/// test on time.
pub open spec fn progress_of(
    kind: TargetStringType,
    compared: int,
    target_words: int,
    elapsed_ms: int,
) -> int {
    match kind {
        TargetStringType::Timed(limit_s) => time_progress_of(elapsed_ms, limit_s as int),
        TargetStringType::Words(_) => word_progress_of(compared, target_words),
    }
}

/// Correct words per minute.
pub open spec fn wpm_of(correct: int, elapsed_ms: int) -> int {
    if elapsed_ms == 0 {
        0
    } else {
        correct * 60000 / elapsed_ms
    }
}

/// The number of word pairs that are compared: every committed word that
/// has a target word to be held against.
pub open spec fn compared_words(target: Seq<char>, entered: Seq<char>) -> int {
    if word_ends(target).len() <= separator_ends(entered).len() {
        word_ends(target).len() as int
    } else {
        separator_ends(entered).len() as int
    }
}

/// Committed word `k` is exactly target word `k`, the trailing separators
/// aside.
pub open spec fn word_is_correct(target: Seq<char>, entered: Seq<char>, k: int) -> bool {
    strip_separator(word_at(target, word_ends(target), k)) == strip_separator(
        word_at(entered, separator_ends(entered), k),
    )
}

/// The number of correct words among the first `n` pairs.
pub open spec fn correct_words(target: Seq<char>, entered: Seq<char>, n: int) -> int
    decreases n,
{
    if n <= 0 {
        0
    } else {
        correct_words(target, entered, n - 1) + if word_is_correct(target, entered, n - 1) {
            1int
        } else {
            0int
        }
    }
}

/// The figures of a test, as mathematical integers.
pub struct StatsView {
    pub correct: int,
    pub accuracy: int,
    pub progress: int,
    pub wpm: int,
}

/// The figures of a test.
#[derive(Debug, Clone, Copy, PartialEq, Eq)]
pub struct Stats {
    /// The number of words committed exactly as the target has them.
    pub correct: usize,
    /// The share of correct words among those compared, in percent.
    pub accuracy: u64,
    /// The progress of the test, in percent.
    pub progress: u64,
    /// Correct words per minute.
    pub wpm: u128,
}

impl View for Stats {
    type V = StatsView;

    open spec fn view(&self) -> StatsView {
        StatsView {
            correct: self.correct as int,
            accuracy: self.accuracy as int,
            progress: self.progress as int,
            wpm: self.wpm as int,
        }
    }
}

/// The figures of a test of `kind` on `target`, with `entered` typed and
/// `elapsed_ms` milliseconds gone.
pub open spec fn stats_of(
    kind: TargetStringType,
    target: Seq<char>,
    entered: Seq<char>,
    elapsed_ms: int,
) -> StatsView {
    let total = compared_words(target, entered);
    let correct = correct_words(target, entered, total);
    StatsView {
        correct,
        accuracy: accuracy_of(correct, total),
        progress: progress_of(kind, total, word_ends(target).len() as int, elapsed_ms),
        wpm: wpm_of(correct, elapsed_ms),
    }
}

/// No more words are correct than are compared.
pub proof fn lemma_correct_words_bound(target: Seq<char>, entered: Seq<char>, n: int)
    requires
        0 <= n,
    ensures
        0 <= correct_words(target, entered, n) <= n,
    decreases n,
{
    if n > 0 {
        lemma_correct_words_bound(target, entered, n - 1);
    }
}

/// The accuracy lies between 0 and 100.
pub proof fn lemma_accuracy_range(correct: int, total: int)
    requires
        0 <= correct <= total,
    ensures
        0 <= accuracy_of(correct, total) <= 100,
{
    if total > 0 {
        lemma_div_is_ordered(0, correct * 100, total);
        lemma_div_is_ordered(correct * 100, total * 100, total);
        assert(total * 100 / total == 100) by (nonlinear_arith)
            requires
                total > 0,
        ;
        assert(0int / total == 0);
    }
}

/// The accuracy lies between 0 and 100, and it is 0 exactly when no word
/// has been compared. This holds wherever at least one word in a hundred
/// of those compared is correct, or none is compared.
pub proof fn lemma_accuracy_zero(correct: int, total: int)
    requires
        0 <= correct <= total,
        total == 0 || correct * 100 >= total,
    ensures
        0 <= accuracy_of(correct, total) <= 100,
        accuracy_of(correct, total) == 0 <==> total == 0,
{
    lemma_accuracy_range(correct, total);
    if total > 0 {
        lemma_div_is_ordered(total, correct * 100, total);
        assert(total / total == 1) by (nonlinear_arith)
            requires
                total > 0,
        ;
    }
}

/// The accuracy is 0 exactly when fewer than one word in a hundred of
/// those compared is correct; with no word compared it is 0.
pub proof fn lemma_accuracy_zero_exactly(correct: int, total: int)
    requires
        0 <= correct <= total,
    ensures
        accuracy_of(correct, total) == 0 <==> correct * 100 < total || total == 0,
{
    if total > 0 {
        if correct * 100 >= total {
            lemma_accuracy_zero(correct, total);
        } else {
            assert(correct * 100 / total == 0) by (nonlinear_arith)
                requires
                    0 <= correct * 100 < total,
            ;
        }
    }
}

/// The progress of a test on words lies between 0 and 100, and it is 100
/// exactly when every target word has been compared. This holds for a
/// target of at least one word.
pub proof fn lemma_word_progress_complete(compared: int, target_words: int)
    requires
        0 <= compared <= target_words,
        target_words > 0,
    ensures
        0 <= word_progress_of(compared, target_words) <= 100,
        word_progress_of(compared, target_words) == 100 <==> compared == target_words,
{
    lemma_div_is_ordered(0, compared * 100, target_words);
    assert(0int / target_words == 0);
    assert(target_words * 100 / target_words == 100) by (nonlinear_arith)
        requires
            target_words > 0,
    ;
    if compared < target_words {
        assert(compared * 100 / target_words < 100) by (nonlinear_arith)
            requires
                0 <= compared < target_words,
        ;
    }
}

/// The progress of a test on words is 100 exactly when every target word
/// has been committed. This holds for a target of at least one word.
pub proof fn lemma_words_test_complete(
    n: usize,
    target: Seq<char>,
    entered: Seq<char>,
    elapsed_ms: int,
)
    requires
        word_ends(target).len() > 0,
    ensures
        stats_of(TargetStringType::Words(n), target, entered, elapsed_ms).progress == 100
            <==> separator_ends(entered).len() >= word_ends(target).len(),
{
    lemma_word_progress_complete(
        compared_words(target, entered),
        word_ends(target).len() as int,
    );
}

/// The progress never goes down while words are compared and time passes.
pub proof fn lemma_progress_grows(
    kind: TargetStringType,
    compared: int,
    later_compared: int,
    target_words: int,
    elapsed_ms: int,
    later_elapsed_ms: int,
)
    requires
        0 <= compared <= later_compared,
        0 <= elapsed_ms <= later_elapsed_ms,
        0 <= target_words,
    ensures
        0 <= progress_of(kind, compared, target_words, elapsed_ms) <= progress_of(
            kind,
            later_compared,
            target_words,
            later_elapsed_ms,
        ),
{
    match kind {
        TargetStringType::Timed(limit_s) => {
            if limit_s > 0 {
                lemma_div_is_ordered(0, elapsed_ms * 100, limit_s * 1000);
                lemma_div_is_ordered(elapsed_ms * 100, later_elapsed_ms * 100, limit_s * 1000);
                assert(0int / (limit_s * 1000) == 0);
            }
        },
        TargetStringType::Words(_) => {
            if target_words > 0 {
                lemma_div_is_ordered(0, compared * 100, target_words);
                lemma_div_is_ordered(compared * 100, later_compared * 100, target_words);
                assert(0int / target_words == 0);
            }
        },
    }
}

/// The share of correct words among those compared, in percent.
pub fn accuracy(correct: usize, total: usize) -> (a: u64)
    requires
        correct <= total,
    ensures
        a == accuracy_of(correct as int, total as int),
        a <= 100,
{
    if total == 0 {
        return 0;
    }
    proof {
        lemma_accuracy_range(correct as int, total as int);
    }
    let a: u128 = correct as u128 * 100 / total as u128;
    a as u64
}

/// The progress of a test, in percent: by words for a test on words, by
/// time for a test on time.
pub fn progress(kind: TargetStringType, compared: usize, target_words: usize, elapsed_ms: u64) -> (p:
    u64)
    requires
        kind is Words ==> compared <= target_words,
    ensures
        p == progress_of(kind, compared as int, target_words as int, elapsed_ms as int),
{
    match kind {
        TargetStringType::Timed(limit_s) => {
            if limit_s == 0 {
                return 0;
            }
            let whole: u128 = limit_s as u128 * 1000;
            proof {
                lemma_div_is_ordered_by_denominator(elapsed_ms * 100, 100, whole as int);
                lemma_div_is_ordered(0, elapsed_ms * 100, whole as int);
                assert(0int / (whole as int) == 0);
            }
            let p: u128 = elapsed_ms as u128 * 100 / whole;
            p as u64
        },
        TargetStringType::Words(_) => {
            if target_words == 0 {
                return 0;
            }
            proof {
                lemma_word_progress_complete(compared as int, target_words as int);
            }
            let p: u128 = compared as u128 * 100 / target_words as u128;
            p as u64
        },
    }
}

/// Correct words per minute.
pub fn wpm(correct: usize, elapsed_ms: u64) -> (w: u128)
    ensures
        w == wpm_of(correct as int, elapsed_ms as int),
{
    if elapsed_ms == 0 {
        return 0;
    }
    proof {
        lemma_div_is_ordered_by_denominator(correct * 60000, 1, elapsed_ms as int);
        lemma_div_is_ordered(0, correct * 60000, elapsed_ms as int);
        assert(0int / (elapsed_ms as int) == 0);
    }
    correct as u128 * 60000 / elapsed_ms as u128
}

/// Counts the committed words that have a target word to be held against,
/// and those of them that are exactly that target word: (correct, total).
pub fn tally(target: &Passage, entered: &EnteredText) -> (r: (usize, usize))
    requires
        target.wf(),
        entered.wf(),
    ensures
        r.1 == compared_words(target@, entered@),
        r.0 == correct_words(target@, entered@, r.1 as int),
        r.0 <= r.1,
{
    proof {
        lemma_word_ends_shape(target@);
        lemma_separator_ends_shape(entered@);
        entered.lemma_offsets();
    }
    let target_words = word_slices(target.chars(), target.offsets());
    let entered_words = word_slices(entered.chars(), entered.offsets());
    let committed: usize = entered.committed_words();
    let total: usize = if target_words.len() <= committed {
        target_words.len()
    } else {
        committed
    };
    let mut correct: usize = 0;
    let mut k: usize = 0;
    while k < total
        invariant
            k <= total,
            total <= target_words@.len(),
            total <= committed,
            committed == separator_ends(entered@).len(),
            committed <= entered_words@.len(),
            entered_words@.len() == entered.ends().len(),
            target.wf(),
            entered.wf(),
            correct == correct_words(target@, entered@, k as int),
            correct <= k,
            forall|i: int|
                0 <= i < target_words@.len() ==> (#[trigger] target_words@[i])@ == word_at(
                    target@,
                    target.ends(),
                    i,
                ),
            forall|i: int|
                0 <= i < entered_words@.len() ==> (#[trigger] entered_words@[i])@ == word_at(
                    entered@,
                    entered.ends(),
                    i,
                ),
        decreases total - k,
    {
        proof {
            let held = entered.ends();
            let cut = separator_ends(entered@);
            assert(held[k as int] == cut[k as int]);
            if k > 0 {
                assert(held[k - 1] == cut[k - 1]);
            }
            assert(word_at(entered@, held, k as int) == word_at(entered@, cut, k as int));
        }
        if same_chars(
            strip_trailing_separator(target_words[k]),
            strip_trailing_separator(entered_words[k]),
        ) {
            correct = correct + 1;
        }
        k = k + 1;
    }
    (correct, total)
}

/// The figures of a test of `kind` on `target`, with `entered` typed and
/// `elapsed_ms` milliseconds gone.
pub fn measure(kind: TargetStringType, target: &Passage, entered: &EnteredText, elapsed_ms: u64) -> (s:
    Stats)
    requires
        target.wf(),
        entered.wf(),
    ensures
        s@ == stats_of(kind, target@, entered@, elapsed_ms as int),
        s.accuracy <= 100,
        s.correct <= compared_words(target@, entered@),
{
    let (correct, total) = tally(target, entered);
    let words: usize = target.words();
    Stats {
        correct,
        accuracy: accuracy(correct, total),
        progress: progress(kind, total, words, elapsed_ms),
        wpm: wpm(correct, elapsed_ms),
    }
}

} // verus!
