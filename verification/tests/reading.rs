use mex::code::{CodeIter, Source, Spanned};
use mex::text::{char_width, has_char, is_white_space, one_of, same_text};

fn source(code: &str) -> Source {
    Source { path: "build.mex".to_string(), code: code.to_string() }
}

#[test]
fn characters_move_the_cursor_by_their_bytes() {
    let s = source("aé€\u{10348}");
    let mut code = CodeIter::new(&s);
    let mut offsets = vec![code.pos().offset()];
    let mut seen = String::new();
    while let Some(ch) = code.next_char() {
        seen.push(ch);
        offsets.push(code.pos().offset());
    }
    assert_eq!(seen, "aé€\u{10348}");
    assert_eq!(offsets, vec![0, 1, 3, 6, 10]);
    assert!(code.is_empty());
    assert_eq!(code.peek(), None);
    assert_eq!(code.next_char(), None);
    assert_eq!(code.pos().offset(), 10);
}

#[test]
fn cursor_keeps_its_source() {
    let s = source("ab");
    let mut code = CodeIter::new(&s);
    code.next_char();
    assert_eq!(code.source().path, "build.mex");
    assert_eq!(code.source().code, "ab");
    assert!(s.is_addressable());
    assert_eq!(code.as_str(), "b");
}

#[test]
fn text_until_a_place() {
    let s = source("héllo");
    let start = CodeIter::new(&s);
    let mut code = start.clone();
    code.next_char();
    code.next_char();
    assert_eq!(start.as_str_until(code.pos()), "hé");
    assert_eq!(code.as_str_until(start.pos()), "");
    assert_eq!(start.up_to(&code).to_range(), 0..3);
    assert_eq!(code.up_to(&start).to_range(), 3..0);
}

#[test]
fn one_character_is_taken_on_demand() {
    let s = source("ab");
    let mut code = CodeIter::new(&s);
    assert_eq!(code.take_char_if(|ch| ch == 'b'), None);
    assert_eq!(code.take_char_if(|ch| ch == 'a'), Some('a'));
    assert!(!code.take_char_matches('a'));
    assert!(code.take_char_matches('b'));
    assert!(!code.take_char_matches('b'));
    assert_eq!(code.take_char_if(|_| true), None);
}

#[test]
fn characters_are_taken_while_they_match() {
    let s = source("12é4x");
    let mut code = CodeIter::new(&s);
    let (span, text) = code.take_char_while(|ch| ch != 'x');
    assert_eq!(text, "12é4");
    assert_eq!(span.to_range(), 0..5);
    let (span, text) = code.take_char_while(|ch| ch != 'x');
    assert_eq!(text, "");
    assert_eq!(span.to_range(), 5..5);
    assert!(span.is_empty());
}

#[test]
fn a_word_is_taken_whole_or_not_at_all() {
    let s = source("||@é");
    let mut code = CodeIter::new(&s);
    assert!(code.take_str_matches("|@").is_none());
    assert_eq!(code.pos().offset(), 0);
    let span = code.take_str_matches("||").unwrap();
    assert_eq!(span.to_range(), 0..2);
    assert!(code.take_str_matches("@éx").is_none());
    let span = code.take_str_matches("@é").unwrap();
    assert_eq!(span.to_range(), 2..5);
    assert_eq!(code.take_str_matches("").unwrap().to_range(), 5..5);
}

#[test]
fn line_breaks_are_a_line_feed_or_both_signs() {
    let s = source("\n\r\n\rx");
    let mut code = CodeIter::new(&s);
    assert!(code.take_newline());
    assert_eq!(code.pos().offset(), 1);
    assert!(code.take_newline());
    assert_eq!(code.pos().offset(), 3);
    assert!(!code.take_newline());
    assert_eq!(code.pos().offset(), 3);
}

#[test]
fn bytes_are_skipped_up_to_the_end() {
    let s = source("é€x");
    let mut code = CodeIter::new(&s);
    code.skip_n_bytes(2);
    assert_eq!(code.as_str(), "€x");
    code.skip_n_bytes(0);
    assert_eq!(code.as_str(), "€x");
    code.skip_n_bytes(100);
    assert_eq!(code.as_str(), "");
    assert_eq!(code.pos().offset(), 6);
}

#[test]
fn speculation_moves_only_on_success() {
    let s = source("abc");
    let mut code = CodeIter::new(&s);
    assert!(!code.speculate(|c| c.next_char() == Some('b')));
    assert_eq!(code.pos().offset(), 0);
    assert!(code.speculate(|c| c.next_char() == Some('a')));
    assert_eq!(code.pos().offset(), 1);

    let r: Option<char> = code.speculate_map(|c| {
        c.next_char();
        None
    });
    assert_eq!(r, None);
    assert_eq!(code.pos().offset(), 1);
    let r = code.speculate_map(|c| c.next_char());
    assert_eq!(r, Some('b'));
    assert_eq!(code.pos().offset(), 2);

    let r: Result<(), char> = code.try_speculate(|c| Err(c.next_char().unwrap()));
    assert_eq!(r, Err('c'));
    assert_eq!(code.pos().offset(), 2);
    let r: Result<char, ()> = code.try_speculate(|c| Ok(c.next_char().unwrap()));
    assert_eq!(r, Ok('c'));
    assert_eq!(code.pos().offset(), 3);
}

#[test]
fn spans_join_to_the_smallest_that_covers_both() {
    let s = source("abcdef");
    let mut code = CodeIter::new(&s);
    let p0 = code.pos();
    code.skip_n_bytes(2);
    let p2 = code.pos();
    code.skip_n_bytes(3);
    let p5 = code.pos();
    let a = p0.to(p2);
    let b = p2.to(p5);
    assert_eq!(a.join(b).to_range(), 0..5);
    assert_eq!(b.join(a).to_range(), 0..5);
    assert_eq!(b.join(p0).to_range(), 0..5);
    assert_eq!(b.len(), 3);
    assert_eq!(b.start().offset(), 2);
    assert_eq!(b.end().offset(), 5);
    assert_eq!(p0.up_to(&b).to_range(), 0..2);
    assert!(!b.is_empty());
    assert!(p5.to(p2).is_empty());
    assert!(p5.span().is_empty());
    assert!(p0 < p2 && p2 == p2);
    assert_eq!(code.span().to_range(), 5..5);
}

#[test]
fn white_space_is_that_of_unicode() {
    for n in 0..=0x10ffffu32 {
        if let Some(ch) = char::from_u32(n) {
            assert_eq!(is_white_space(ch), ch.is_whitespace(), "{:x}", n);
            assert_eq!(char_width(ch), ch.len_utf8(), "{:x}", n);
        }
    }
}

#[test]
fn texts_are_compared_by_their_characters() {
    assert!(same_text("", ""));
    assert!(same_text("dépôt", "dépôt"));
    assert!(!same_text("depth", "dept"));
    assert!(!same_text("depth", "depti"));
    assert!(one_of(&[' ', ':', '|'], '|'));
    assert!(!one_of(&[' ', ':', '|'], 'x'));
    assert!(!one_of(&[], 'x'));
    assert!(has_char("aé\0", '\0'));
    assert!(has_char("aé", 'é'));
    assert!(!has_char("aé", 'e'));
    assert!(!has_char("", 'e'));
}

#[test]
fn places_are_shown_by_their_offsets() {
    let s = source("abcdefghijk");
    let mut code = CodeIter::new(&s);
    let p0 = code.pos();
    code.skip_n_bytes(10);
    let p10 = code.pos();
    assert_eq!(format!("{:?}", p0), "Pos(0)");
    assert_eq!(format!("{:#?}", p10), "Pos(10)");
    assert_eq!(format!("{:?}", p0.to(p10)), "Span(0..10)");
    assert_eq!(format!("{:#?}", p10.to(p0)), "Span(10..0)");
    assert_eq!(format!("{:?}", Some(p10.span())), "Some(Span(10..10))");
    let mut out = "at ".to_string();
    p10.fmt(&mut out);
    assert_eq!(out, "at Pos(10)");
    p0.to(p10).fmt(&mut out);
    assert_eq!(out, "at Pos(10)Span(0..10)");
}

#[test]
fn a_cursor_is_shown_with_the_characters_ahead() {
    let s = source("a\nb");
    let mut code = CodeIter::new(&s);
    code.next_char();
    assert_eq!(
        format!("{:?}", code),
        "CodeIter { source: Source { path: \"build.mex\", code: \"a\\nb\" }, pos: Pos(1), \
         chars: Chars(['\\n', 'b']) }"
    );
}

#[test]
fn offsets_are_shown_in_decimal_digits() {
    let text = "x".repeat(1234);
    let s = source(&text);
    let mut code = CodeIter::new(&s);
    let mut n: usize = 0;
    loop {
        assert_eq!(format!("{:?}", code.pos()), format!("Pos({})", n));
        if code.next_char().is_none() {
            break;
        }
        n += 1;
    }
    assert_eq!(n, 1234);
}
