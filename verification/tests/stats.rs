use shelltyper::input::EnteredText;
use shelltyper::passage::{Passage, TargetStringType};
use shelltyper::stats::{accuracy, measure, progress, tally, wpm, Stats, SAMPLE_INTERVAL_MS};

fn passage(s: &str) -> Passage {
    Passage::from_chars(s.chars().collect())
}

fn entered(s: &str, target_words: usize) -> EnteredText {
    let mut e = EnteredText::new();
    for c in s.chars() {
        if c == ' ' {
            e.commit_word_break(target_words);
        } else {
            e.append_char(c);
        }
    }
    e
}

#[test]
fn sampling_interval_is_a_tenth_of_a_second() {
    assert_eq!(SAMPLE_INTERVAL_MS, 100);
}

#[test]
fn accuracy_is_the_share_of_correct_words() {
    assert_eq!(accuracy(1, 2), 50);
    assert_eq!(accuracy(2, 3), 66);
    assert_eq!(accuracy(3, 3), 100);
    assert_eq!(accuracy(0, 3), 0);
}

#[test]
fn accuracy_with_nothing_compared_is_zero() {
    assert_eq!(accuracy(0, 0), 0);
}

#[test]
fn accuracy_stays_within_percent() {
    for total in 0..20usize {
        for correct in 0..=total {
            let a = accuracy(correct, total);
            assert!(a <= 100);
            if total == 0 {
                assert_eq!(a, 0);
            }
            if correct > 0 && correct * 100 >= total {
                assert!(a > 0);
            }
        }
    }
}

#[test]
fn accuracy_of_huge_counts_does_not_overflow() {
    assert_eq!(accuracy(usize::MAX, usize::MAX), 100);
    assert_eq!(accuracy(usize::MAX / 2, usize::MAX), 49);
}

#[test]
fn word_progress_is_the_share_of_words_compared() {
    let kind = TargetStringType::Words(4);
    assert_eq!(progress(kind, 0, 4, 12345), 0);
    assert_eq!(progress(kind, 1, 4, 12345), 25);
    assert_eq!(progress(kind, 1, 3, 0), 33);
    assert_eq!(progress(kind, 4, 4, 0), 100);
}

#[test]
fn word_progress_is_full_only_when_every_word_is_compared() {
    for words in 1..30usize {
        for compared in 0..=words {
            let p = progress(TargetStringType::Words(words), compared, words, 0);
            assert_eq!(p == 100, compared == words);
        }
    }
}

#[test]
fn word_progress_of_an_empty_target_is_zero() {
    assert_eq!(progress(TargetStringType::Words(0), 0, 0, 500), 0);
}

#[test]
fn time_progress_is_the_share_of_the_limit() {
    let kind = TargetStringType::Timed(15);
    assert_eq!(progress(kind, 0, 75, 0), 0);
    assert_eq!(progress(kind, 3, 75, 7500), 50);
    assert_eq!(progress(kind, 3, 75, 14999), 99);
    assert_eq!(progress(kind, 3, 75, 15000), 100);
}

#[test]
fn time_progress_goes_beyond_full() {
    assert_eq!(progress(TargetStringType::Timed(15), 0, 75, 30000), 200);
}

#[test]
fn time_progress_without_a_limit_is_zero() {
    assert_eq!(progress(TargetStringType::Timed(0), 0, 0, 1000), 0);
}

#[test]
fn time_progress_of_the_longest_time_does_not_overflow() {
    assert_eq!(progress(TargetStringType::Timed(1), 0, 5, u64::MAX), u64::MAX / 10);
}

#[test]
fn wpm_is_correct_words_per_minute() {
    assert_eq!(wpm(2, 60000), 2);
    assert_eq!(wpm(10, 30000), 20);
    assert_eq!(wpm(1, 1000), 60);
    assert_eq!(wpm(7, 90000), 4);
    assert_eq!(wpm(0, 5000), 0);
}

#[test]
fn wpm_at_no_time_gone_is_zero() {
    assert_eq!(wpm(0, 0), 0);
    assert_eq!(wpm(5, 0), 0);
}

#[test]
fn wpm_of_huge_counts_does_not_overflow() {
    assert_eq!(wpm(usize::MAX, 1), usize::MAX as u128 * 60000);
}

#[test]
fn tally_counts_committed_words_only() {
    let t = passage("ab cd ef");
    assert_eq!(tally(&t, &entered("", 3)), (0, 0));
    assert_eq!(tally(&t, &entered("ab", 3)), (0, 0));
    assert_eq!(tally(&t, &entered("ab ", 3)), (1, 1));
    assert_eq!(tally(&t, &entered("ab c", 3)), (1, 1));
    assert_eq!(tally(&t, &entered("ab cd ", 3)), (2, 2));
}

#[test]
fn tally_wants_whole_words_equal() {
    let t = passage("ab cd ef");
    assert_eq!(tally(&t, &entered("ax cd ", 3)), (1, 2));
    assert_eq!(tally(&t, &entered("a cd ", 3)), (1, 2));
    assert_eq!(tally(&t, &entered("abc cd ", 3)), (1, 2));
    assert_eq!(tally(&t, &entered("xx yy ", 3)), (0, 2));
}

#[test]
fn tally_counts_a_last_word_that_has_no_separator() {
    let t = passage("ab cd");
    assert_eq!(tally(&t, &entered("ab cd ", 2)), (2, 2));
    assert_eq!(tally(&t, &entered("ab cx ", 2)), (1, 2));
    assert_eq!(tally(&t, &entered("ab c ", 2)), (1, 2));
    let t = passage("ab cd ");
    assert_eq!(tally(&t, &entered("ab cd ", 2)), (2, 2));
}

#[test]
fn tally_does_not_take_an_empty_word_for_a_word() {
    let t = passage("a b");
    assert_eq!(tally(&t, &entered(" ", 2)), (0, 1));
}

#[test]
fn tally_compares_no_more_words_than_the_target_has() {
    let t = passage("ab");
    assert_eq!(tally(&t, &entered("ab cd ef ", 9)), (1, 1));
    let t = passage("");
    assert_eq!(tally(&t, &entered("ab ", 9)), (0, 0));
}

#[test]
fn measure_puts_the_figures_together() {
    let t = passage("ab cd ef gh");
    let e = entered("ab cx ef", 4);
    let s = measure(TargetStringType::Words(4), &t, &e, 30000);
    assert_eq!(s, Stats { correct: 1, accuracy: 50, progress: 50, wpm: 2 });
    let s = measure(TargetStringType::Timed(60), &t, &e, 30000);
    assert_eq!(s, Stats { correct: 1, accuracy: 50, progress: 50, wpm: 2 });
    let s = measure(TargetStringType::Timed(60), &t, &e, 15000);
    assert_eq!(s, Stats { correct: 1, accuracy: 50, progress: 25, wpm: 4 });
}

#[test]
fn measure_before_anything_is_all_zero() {
    let t = passage("ab cd");
    let e = EnteredText::new();
    let s = measure(TargetStringType::Timed(15), &t, &e, 0);
    assert_eq!(s, Stats { correct: 0, accuracy: 0, progress: 0, wpm: 0 });
}
