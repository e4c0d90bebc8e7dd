use shelltyper::differ::classify;
use shelltyper::input::EnteredText;
use shelltyper::layout::{layout_rows, word_diffs, Span, SpanTag};
use shelltyper::passage::Passage;

fn chars(s: &str) -> Vec<char> {
    s.chars().collect()
}

fn passage(s: &str) -> Passage {
    Passage::from_chars(chars(s))
}

fn entered(s: &str, target_words: usize) -> EnteredText {
    let mut e = EnteredText::new();
    for c in s.chars() {
        if c == ' ' {
            e.commit_word_break(target_words);
        } else {
            e.append_char(c);
        }
    }
    e
}

fn shown(rows: &Vec<Vec<Span>>) -> Vec<Vec<(String, SpanTag)>> {
    rows.iter()
        .map(|row| row.iter().map(|s| (s.text.iter().collect(), s.tag)).collect())
        .collect()
}

fn span(text: &str, tag: SpanTag) -> (String, SpanTag) {
    (text.to_string(), tag)
}

fn triples(diffs: &Vec<(&[char], &[char], &[char])>) -> Vec<(String, String, String)> {
    diffs
        .iter()
        .map(|d| (d.0.iter().collect(), d.1.iter().collect(), d.2.iter().collect()))
        .collect()
}

fn triple(a: &str, b: &str, c: &str) -> (String, String, String) {
    (a.to_string(), b.to_string(), c.to_string())
}

#[test]
fn word_diffs_of_the_two_word_scenario() {
    let t = passage("ab cd");
    let e = entered("ab c", 2);
    let diffs = word_diffs(&t, &e);
    assert_eq!(triples(&diffs), vec![triple("ab", "", ""), triple("c", "", "d")]);
}

#[test]
fn word_diffs_hold_untouched_words_against_nothing() {
    let t = passage("ab cd ef");
    let e = entered("ax", 3);
    let diffs = word_diffs(&t, &e);
    assert_eq!(
        triples(&diffs),
        vec![triple("a", "x", "b "), triple("", "", "cd "), triple("", "", "ef")]
    );
}

#[test]
fn word_diffs_with_nothing_typed() {
    let t = passage("ab cd");
    let e = EnteredText::new();
    assert_eq!(triples(&word_diffs(&t, &e)), vec![triple("", "", "ab "), triple("", "", "cd")]);
}

#[test]
fn word_diffs_of_an_empty_target() {
    let t = passage("");
    let e = EnteredText::new();
    assert!(word_diffs(&t, &e).is_empty());
}

#[test]
fn word_diffs_leave_out_words_beyond_the_target() {
    let t = passage("ab");
    let e = entered("ab cd", 5);
    assert_eq!(triples(&word_diffs(&t, &e)), vec![triple("ab", " ", "")]);
}

#[test]
fn layout_of_nothing_is_one_empty_row() {
    let rows = layout_rows(&vec![], 10, 0);
    assert_eq!(shown(&rows), vec![vec![]]);
}

#[test]
fn layout_puts_words_in_one_row_while_they_fit() {
    let t = passage("ab cd ef");
    let e = EnteredText::new();
    let diffs = word_diffs(&t, &e);
    let rows = layout_rows(&diffs, 8, 0);
    assert_eq!(
        shown(&rows),
        vec![vec![
            span("ab ", SpanTag::PendingCurrent),
            span("cd ", SpanTag::Pending),
            span("ef", SpanTag::Pending),
        ]]
    );
}

#[test]
fn layout_opens_a_row_when_the_width_would_be_exceeded() {
    let t = passage("ab cd ef");
    let e = EnteredText::new();
    let diffs = word_diffs(&t, &e);
    let rows = layout_rows(&diffs, 7, 0);
    assert_eq!(
        shown(&rows),
        vec![
            vec![span("ab ", SpanTag::PendingCurrent), span("cd ", SpanTag::Pending)],
            vec![span("ef", SpanTag::Pending)],
        ]
    );
    let rows = layout_rows(&diffs, 3, 0);
    assert_eq!(
        shown(&rows),
        vec![
            vec![span("ab ", SpanTag::PendingCurrent)],
            vec![span("cd ", SpanTag::Pending)],
            vec![span("ef", SpanTag::Pending)],
        ]
    );
}

#[test]
fn layout_keeps_the_first_row_even_if_nothing_fits_in_it() {
    let t = passage("abcdef gh");
    let e = EnteredText::new();
    let diffs = word_diffs(&t, &e);
    let rows = layout_rows(&diffs, 4, 0);
    assert_eq!(
        shown(&rows),
        vec![
            vec![],
            vec![span("abcdef ", SpanTag::PendingCurrent)],
            vec![span("gh", SpanTag::Pending)],
        ]
    );
}

#[test]
fn layout_with_no_width_gives_each_word_a_row() {
    let t = passage("a b");
    let e = EnteredText::new();
    let diffs = word_diffs(&t, &e);
    let rows = layout_rows(&diffs, 0, 0);
    assert_eq!(
        shown(&rows),
        vec![
            vec![],
            vec![span("a ", SpanTag::PendingCurrent)],
            vec![span("b", SpanTag::Pending)],
        ]
    );
}

#[test]
fn layout_emits_only_the_spans_that_are_not_empty() {
    let t = passage("hello world again");
    let e = entered("hello wxr", 3);
    let diffs = word_diffs(&t, &e);
    let rows = layout_rows(&diffs, 80, 1);
    assert_eq!(
        shown(&rows),
        vec![vec![
            span("hello", SpanTag::CompleteWord),
            span("w", SpanTag::CorrectPart),
            span("xr", SpanTag::Wrong),
            span("orld ", SpanTag::PendingCurrent),
            span("again", SpanTag::Pending),
        ]]
    );
}

#[test]
fn layout_counts_all_three_spans_of_a_word() {
    let t = chars("world ");
    let e = chars("wxr");
    let diffs = vec![classify(&t, &e), classify(&t, &e)];
    assert_eq!(layout_rows(&diffs, 16, 9).len(), 1);
    assert_eq!(layout_rows(&diffs, 15, 9).len(), 2);
}

#[test]
fn layout_tags_a_word_with_one_character_left_as_complete() {
    let t = chars("ab");
    let e = chars("a");
    let diffs = vec![classify(&t, &e)];
    let rows = layout_rows(&diffs, 80, 0);
    assert_eq!(
        shown(&rows),
        vec![vec![span("a", SpanTag::CompleteWord), span("b", SpanTag::PendingCurrent)]]
    );
}

#[test]
fn layout_tags_an_over_typed_word_as_not_complete() {
    let t = chars("ab");
    let e = chars("abc");
    let diffs = vec![classify(&t, &e)];
    let rows = layout_rows(&diffs, 80, 3);
    assert_eq!(
        shown(&rows),
        vec![vec![span("ab", SpanTag::CorrectPart), span("c", SpanTag::Wrong)]]
    );
}
