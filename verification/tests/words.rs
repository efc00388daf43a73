use mex::list::SplitList;

fn next(list: &mut SplitList) -> Option<String> {
    list.next()
}

#[test]
fn words_are_parted_by_blanks() {
    let mut list = SplitList::new("a\tb\n  cc ");
    assert_eq!(next(&mut list), Some("a".to_string()));
    assert_eq!(next(&mut list), Some("b".to_string()));
    assert_eq!(next(&mut list), Some("cc".to_string()));
}

#[test]
fn a_word_that_ends_the_text_is_not_given() {
    let mut list = SplitList::new("a b");
    assert_eq!(next(&mut list), Some("a".to_string()));
    assert_eq!(next(&mut list), None);
    assert!(!list.error());
}

#[test]
fn an_exhausted_list_gives_empty_words() {
    let mut list = SplitList::new("a ");
    assert_eq!(next(&mut list), Some("a".to_string()));
    assert_eq!(next(&mut list), Some(String::new()));
    assert_eq!(next(&mut list), Some(String::new()));
    let mut list = SplitList::new(" \n ");
    assert_eq!(next(&mut list), Some(String::new()));
    assert!(!list.error());
}

#[test]
fn blanks_before_a_word_are_dropped() {
    let mut list = SplitList::new(" \t\n a ");
    assert_eq!(next(&mut list), Some("a".to_string()));
}

#[test]
fn single_quotes_keep_everything() {
    let mut list = SplitList::new("'a \\ \" $' x");
    assert_eq!(next(&mut list), Some("a \\ \" $".to_string()));
    let mut list = SplitList::new("a'b c'd ");
    assert_eq!(next(&mut list), Some("ab cd".to_string()));
    let mut list = SplitList::new("'' x");
    assert_eq!(next(&mut list), Some(String::new()));
}

#[test]
fn double_quotes_keep_blanks() {
    let mut list = SplitList::new("\"a 'b' c\" x ");
    assert_eq!(next(&mut list), Some("a 'b' c".to_string()));
    assert_eq!(next(&mut list), Some("x".to_string()));
}

#[test]
fn backslashes_in_double_quotes() {
    for (text, word) in [
        ("\"a\\$b\" ", "a\\b"),
        ("\"a\\`b\" ", "a\\b"),
        ("\"a\\\"b\" ", "a\\b"),
        ("\"a\\\\b\" ", "a\\b"),
        ("\"a\\qb\" ", "a\\qb"),
        ("\"a\\\nb\" ", "ab"),
    ] {
        let mut list = SplitList::new(text);
        assert_eq!(next(&mut list), Some(word.to_string()), "{}", text);
        assert!(!list.error());
    }
}

#[test]
fn backslashes_outside_quotes() {
    let mut list = SplitList::new("a\\ b\\\nc\\'d\\\\ ");
    assert_eq!(next(&mut list), Some("a bc'd\\".to_string()));
    let mut list = SplitList::new("a\\");
    assert_eq!(next(&mut list), None);
    assert!(!list.error());
}

#[test]
fn quotes_that_stay_open_are_an_error() {
    let mut list = SplitList::new("'a ");
    assert_eq!(next(&mut list), None);
    assert!(list.error());
    let mut list = SplitList::new("\"a\\");
    assert_eq!(next(&mut list), None);
    assert!(list.error());
    assert_eq!(next(&mut list), Some(String::new()));
    assert!(!list.error());
}
