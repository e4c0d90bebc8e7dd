use shelltyper::passage::{
    chars_of, is_plain_word, Dictionary, DictionaryError, Passage, TargetStringType, WPM_CEILING,
};

fn chars(s: &str) -> Vec<char> {
    s.chars().collect()
}

fn words(list: &[&str]) -> Vec<String> {
    list.iter().map(|w| w.to_string()).collect()
}

fn dictionary(list: &[&str]) -> Dictionary {
    Dictionary::new(&words(list)).unwrap()
}

fn read(p: &Passage) -> String {
    p.chars().iter().collect()
}

#[test]
fn default_test_is_fifteen_seconds() {
    assert_eq!(TargetStringType::default(), TargetStringType::Timed(15));
}

#[test]
fn timed_test_is_sized_for_the_speed_ceiling() {
    assert_eq!(WPM_CEILING, 300);
    assert_eq!(TargetStringType::Timed(15).word_count(), 75);
    assert_eq!(TargetStringType::Timed(60).word_count(), 300);
    assert_eq!(TargetStringType::Timed(1).word_count(), 5);
    assert_eq!(TargetStringType::Timed(0).word_count(), 0);
}

#[test]
fn words_test_has_the_words_asked_for() {
    assert_eq!(TargetStringType::Words(30).word_count(), 30);
    assert_eq!(TargetStringType::Words(0).word_count(), 0);
}

#[test]
fn is_supported_tells_what_fits() {
    assert!(TargetStringType::Timed(15).is_supported());
    assert!(TargetStringType::Timed(usize::MAX / 5).is_supported());
    assert!(!TargetStringType::Timed(usize::MAX / 5 + 1).is_supported());
    assert!(!TargetStringType::Timed(usize::MAX).is_supported());
    assert!(TargetStringType::Words(usize::MAX).is_supported());
}

#[test]
fn is_timed_tells_the_kinds_apart() {
    assert!(TargetStringType::Timed(15).is_timed());
    assert!(!TargetStringType::Words(15).is_timed());
}

#[test]
fn chars_of_reads_scalar_values() {
    assert_eq!(chars_of("née"), vec!['n', 'é', 'e']);
    assert_eq!(chars_of(""), Vec::<char>::new());
}

#[test]
fn is_plain_word_wants_characters_and_no_separator() {
    assert!(is_plain_word(&chars("word")));
    assert!(!is_plain_word(&chars("")));
    assert!(!is_plain_word(&chars("two words")));
    assert!(!is_plain_word(&chars("word ")));
}

#[test]
fn dictionary_holds_the_words_given() {
    let d = dictionary(&["ab", "cd", "efg"]);
    assert_eq!(d.len(), 3);
    assert_eq!(d.word(0), &chars("ab")[..]);
    assert_eq!(d.word(2), &chars("efg")[..]);
}

#[test]
fn empty_dictionary_is_refused() {
    assert_eq!(Dictionary::new(&words(&[])).unwrap_err(), DictionaryError::Empty);
}

#[test]
fn dictionary_with_an_empty_word_is_refused() {
    assert_eq!(
        Dictionary::new(&words(&["ab", "", "cd"])).unwrap_err(),
        DictionaryError::BadWord(1)
    );
}

#[test]
fn dictionary_names_the_first_bad_word() {
    assert_eq!(
        Dictionary::new(&words(&["ab", "c d", "", "e f"])).unwrap_err(),
        DictionaryError::BadWord(1)
    );
    assert_eq!(
        Dictionary::new(&words(&[" "])).unwrap_err(),
        DictionaryError::BadWord(0)
    );
}

#[test]
fn passage_from_chars_finds_the_word_ends() {
    let p = Passage::from_chars(chars("ab cd"));
    assert_eq!(read(&p), "ab cd");
    assert_eq!(p.offsets(), &vec![3, 5]);
    assert_eq!(p.words(), 2);
}

#[test]
fn passage_from_picks_joins_with_single_separators() {
    let d = dictionary(&["ab", "cd", "efg"]);
    let p = Passage::from_picks(&d, &vec![2, 0, 0, 1]);
    assert_eq!(read(&p), "efg ab ab cd");
    assert_eq!(p.offsets(), &vec![4, 7, 10, 12]);
    assert_eq!(p.words(), 4);
}

#[test]
fn passage_from_one_pick_has_no_separator() {
    let d = dictionary(&["ab", "cd"]);
    let p = Passage::from_picks(&d, &vec![1]);
    assert_eq!(read(&p), "cd");
    assert_eq!(p.offsets(), &vec![2]);
}

#[test]
fn passage_from_no_picks_is_empty() {
    let d = dictionary(&["ab"]);
    let p = Passage::from_picks(&d, &vec![]);
    assert_eq!(read(&p), "");
    assert!(p.offsets().is_empty());
    assert_eq!(p.words(), 0);
}

#[test]
fn generate_zero_words_is_an_empty_passage() {
    let d = dictionary(&["ab", "cd"]);
    let p = Passage::generate(&d, 0);
    assert_eq!(read(&p), "");
    assert!(p.offsets().is_empty());
}

#[test]
fn generate_draws_every_word_from_the_dictionary() {
    let list = ["ab", "cd", "efg"];
    let d = dictionary(&list);
    let p = Passage::generate(&d, 200);
    assert_eq!(p.words(), 200);
    let text = read(&p);
    let drawn: Vec<&str> = text.split(' ').collect();
    assert_eq!(drawn.len(), 200);
    assert!(drawn.iter().all(|w| list.contains(w)));
    assert_eq!(*p.offsets().last().unwrap(), text.chars().count());
}

#[test]
fn generate_from_one_word_repeats_it() {
    let d = dictionary(&["ab"]);
    let p = Passage::generate(&d, 3);
    assert_eq!(read(&p), "ab ab ab");
    assert_eq!(p.offsets(), &vec![3, 6, 8]);
}

#[test]
fn generate_uses_more_than_one_word() {
    let d = dictionary(&["ab", "cd"]);
    let p = Passage::generate(&d, 400);
    let text = read(&p);
    assert!(text.split(' ').any(|w| w == "ab"));
    assert!(text.split(' ').any(|w| w == "cd"));
}
