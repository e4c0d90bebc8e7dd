use shelltyper::input::EnteredText;

fn typed(e: &EnteredText) -> String {
    e.chars().iter().collect()
}

fn type_all(e: &mut EnteredText, s: &str) {
    for c in s.chars() {
        assert!(e.append_char(c));
    }
}

#[test]
fn new_input_is_one_empty_word() {
    let e = EnteredText::new();
    assert_eq!(typed(&e), "");
    assert_eq!(e.offsets(), &vec![0]);
    assert!(!e.closed());
    assert_eq!(e.committed_words(), 0);
}

#[test]
fn append_char_moves_the_last_offset() {
    let mut e = EnteredText::new();
    type_all(&mut e, "ab");
    assert_eq!(typed(&e), "ab");
    assert_eq!(e.offsets(), &vec![2]);
}

#[test]
fn append_char_refuses_a_separator() {
    let mut e = EnteredText::new();
    type_all(&mut e, "ab");
    assert!(!e.append_char(' '));
    assert_eq!(typed(&e), "ab");
    assert_eq!(e.offsets(), &vec![2]);
}

#[test]
fn commit_opens_a_new_empty_word() {
    let mut e = EnteredText::new();
    type_all(&mut e, "ab");
    assert!(!e.commit_word_break(2));
    assert_eq!(typed(&e), "ab ");
    assert_eq!(e.offsets(), &vec![3, 3]);
    assert_eq!(e.committed_words(), 1);
    assert!(!e.closed());
}

#[test]
fn commit_after_a_separator_does_nothing() {
    let mut e = EnteredText::new();
    type_all(&mut e, "ab");
    e.commit_word_break(3);
    assert!(!e.commit_word_break(3));
    assert_eq!(typed(&e), "ab ");
    assert_eq!(e.offsets(), &vec![3, 3]);
}

#[test]
fn commit_of_the_last_word_closes_the_input() {
    let mut e = EnteredText::new();
    type_all(&mut e, "ab");
    assert!(!e.commit_word_break(2));
    type_all(&mut e, "cd");
    assert!(e.commit_word_break(2));
    assert_eq!(typed(&e), "ab cd ");
    assert_eq!(e.offsets(), &vec![3, 6]);
    assert_eq!(e.committed_words(), 2);
    assert!(e.closed());
}

#[test]
fn closed_input_takes_nothing_more() {
    let mut e = EnteredText::new();
    type_all(&mut e, "ab");
    assert!(e.commit_word_break(1));
    assert!(!e.append_char('x'));
    assert!(!e.commit_word_break(1));
    e.delete_last_char();
    assert_eq!(typed(&e), "ab ");
    assert_eq!(e.offsets(), &vec![3]);
    assert!(e.closed());
}

#[test]
fn commit_on_empty_input_commits_an_empty_word() {
    let mut e = EnteredText::new();
    assert!(!e.commit_word_break(2));
    assert_eq!(typed(&e), " ");
    assert_eq!(e.offsets(), &vec![1, 1]);
    assert_eq!(e.committed_words(), 1);
}

#[test]
fn delete_takes_the_last_character_of_the_word() {
    let mut e = EnteredText::new();
    type_all(&mut e, "ab");
    e.commit_word_break(2);
    type_all(&mut e, "cd");
    e.delete_last_char();
    assert_eq!(typed(&e), "ab c");
    assert_eq!(e.offsets(), &vec![3, 4]);
}

#[test]
fn delete_never_takes_a_separator() {
    let mut e = EnteredText::new();
    type_all(&mut e, "ab");
    e.commit_word_break(2);
    e.delete_last_char();
    e.delete_last_char();
    assert_eq!(typed(&e), "ab ");
    assert_eq!(e.offsets(), &vec![3, 3]);
    assert_eq!(e.committed_words(), 1);
}

#[test]
fn delete_at_the_start_does_nothing() {
    let mut e = EnteredText::new();
    e.delete_last_char();
    assert_eq!(typed(&e), "");
    assert_eq!(e.offsets(), &vec![0]);
    assert!(!e.closed());
}

#[test]
fn delete_back_to_the_start_then_type_again() {
    let mut e = EnteredText::new();
    type_all(&mut e, "a");
    e.delete_last_char();
    e.delete_last_char();
    assert_eq!(typed(&e), "");
    assert_eq!(e.offsets(), &vec![0]);
    type_all(&mut e, "b");
    assert_eq!(typed(&e), "b");
    assert_eq!(e.offsets(), &vec![1]);
}

#[test]
fn last_offset_is_always_the_length() {
    let mut e = EnteredText::new();
    let script = "ab cd e";
    for c in script.chars() {
        if c == ' ' {
            e.commit_word_break(5);
        } else {
            e.append_char(c);
        }
        assert_eq!(*e.offsets().last().unwrap(), e.chars().len());
    }
    e.delete_last_char();
    assert_eq!(*e.offsets().last().unwrap(), e.chars().len());
    assert_eq!(e.offsets(), &vec![3, 6, 6]);
}
