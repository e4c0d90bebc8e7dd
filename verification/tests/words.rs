use shelltyper::words::{
    lens_to_ranges, same_chars, word_offsets, word_ranges, word_slices, SEPARATOR,
};

fn chars(s: &str) -> Vec<char> {
    s.chars().collect()
}

fn text(s: &[char]) -> String {
    s.iter().collect()
}

#[test]
fn separator_is_a_space() {
    assert_eq!(SEPARATOR, ' ');
}

#[test]
fn lens_to_ranges_yields_range_and_moves_start() {
    let mut start = 3usize;
    let r = lens_to_ranges(&mut start, &7);
    assert_eq!(r, Some(3..7));
    assert_eq!(start, 7);
}

#[test]
fn lens_to_ranges_on_an_empty_word() {
    let mut start = 4usize;
    let r = lens_to_ranges(&mut start, &4);
    assert_eq!(r, Some(4..4));
    assert_eq!(start, 4);
}

#[test]
fn word_ranges_are_cumulative() {
    assert_eq!(word_ranges(&vec![3, 5, 5, 9]), vec![0..3, 3..5, 5..5, 5..9]);
}

#[test]
fn word_ranges_of_nothing() {
    assert!(word_ranges(&vec![]).is_empty());
}

#[test]
fn word_offsets_of_two_words() {
    assert_eq!(word_offsets(&chars("ab cd")), vec![3, 5]);
}

#[test]
fn word_offsets_of_empty_text() {
    assert!(word_offsets(&chars("")).is_empty());
}

#[test]
fn word_offsets_of_text_ending_in_separator() {
    assert_eq!(word_offsets(&chars("ab cd ")), vec![3, 6]);
}

#[test]
fn word_offsets_of_adjacent_separators() {
    assert_eq!(word_offsets(&chars("a  b")), vec![2, 3, 4]);
}

#[test]
fn word_offsets_of_one_word() {
    assert_eq!(word_offsets(&chars("hello")), vec![5]);
}

#[test]
fn word_offsets_increase_and_end_at_length() {
    let t = chars("the quick brown fox");
    let ends = word_offsets(&t);
    assert_eq!(ends, vec![4, 10, 16, 19]);
    assert!(ends.windows(2).all(|w| w[0] < w[1]));
    assert_eq!(*ends.last().unwrap(), t.len());
}

#[test]
fn word_offsets_count_scalar_values_not_bytes() {
    assert_eq!(word_offsets(&chars("né où")), vec![3, 5]);
}

#[test]
fn word_slices_keep_the_trailing_separator() {
    let t = chars("ab cd");
    let ends = word_offsets(&t);
    let words = word_slices(&t, &ends);
    assert_eq!(words.len(), 2);
    assert_eq!(text(words[0]), "ab ");
    assert_eq!(text(words[1]), "cd");
}

#[test]
fn word_slices_with_an_empty_last_word() {
    let t = chars("ab ");
    let words = word_slices(&t, &vec![3, 3]);
    assert_eq!(words.len(), 2);
    assert_eq!(text(words[0]), "ab ");
    assert_eq!(text(words[1]), "");
}

#[test]
fn same_chars_tells_equal_from_unequal() {
    assert!(same_chars(&chars("ab "), &chars("ab ")));
    assert!(!same_chars(&chars("ab "), &chars("ab")));
    assert!(!same_chars(&chars("ab"), &chars("aB")));
    assert!(same_chars(&chars(""), &chars("")));
}
