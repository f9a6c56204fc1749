use hair::Slice;

#[test]
fn array_length_and_emptiness() {
    let input: &[u16] = &[7, 8, 9];
    assert_eq!(Slice::len(input), 3);
    assert!(!Slice::is_empty(input));
    let none: &[u16] = &[];
    assert_eq!(Slice::len(none), 0);
    assert!(Slice::is_empty(none));
}

#[test]
fn array_first_has_width_one() {
    let input: &[u16] = &[7, 8, 9];
    assert_eq!(Slice::first(input), Some((&7, 1)));
    let none: &[u16] = &[];
    assert_eq!(Slice::first(none), None);
}

#[test]
fn array_indexing() {
    let input: &[u16] = &[7, 8, 9];
    assert_eq!(input.index_to(2), &[7, 8]);
    assert_eq!(input.index_from(2), &[9]);
    assert_eq!(input.index_between(1, 2), &[8]);
    assert_eq!(input.index_between(1, 1), &[] as &[u16]);
    assert_eq!(input.index_to(0), &[] as &[u16]);
    assert_eq!(input.index_from(3), &[] as &[u16]);
    assert_eq!(input.index_between(0, 3), input);
}

#[test]
fn array_every_offset_up_to_the_length_is_a_boundary() {
    let input: &[u16] = &[7, 8, 9];
    for n in 0..=3 {
        assert!(input.is_boundary(n));
    }
    assert!(!input.is_boundary(4));
}

#[test]
fn text_length_is_counted_in_bytes() {
    assert_eq!(Slice::len("h\u{e9}llo"), 6);
    assert_eq!(Slice::len(""), 0);
    assert!(Slice::is_empty(""));
    assert!(!Slice::is_empty(" "));
}

#[test]
fn text_first_has_the_width_of_the_character() {
    assert_eq!(Slice::first("a"), Some(('a', 1)));
    assert_eq!(Slice::first("\u{e9}a"), Some(('\u{e9}', 2)));
    assert_eq!(Slice::first("\u{20ac}"), Some(('\u{20ac}', 3)));
    assert_eq!(Slice::first("\u{1f600}"), Some(('\u{1f600}', 4)));
    assert_eq!(Slice::first(""), None);
}

#[test]
fn text_indexing() {
    let text = "h\u{e9}llo";
    assert_eq!(text.index_to(3), "h\u{e9}");
    assert_eq!(text.index_from(3), "llo");
    assert_eq!(text.index_between(1, 3), "\u{e9}");
    assert_eq!(text.index_between(3, 3), "");
    assert_eq!(text.index_to(0), "");
    assert_eq!(text.index_from(6), "");
    assert_eq!(text.index_between(0, 6), text);
}

#[test]
fn text_boundaries_lie_between_characters() {
    let text = "h\u{e9}\u{20ac}";
    let expected = [true, true, false, true, false, false, true, false];
    for (n, is) in expected.iter().enumerate() {
        assert_eq!(text.is_boundary(n), *is);
    }
}

#[test]
fn widths_of_first_add_up_to_boundaries() {
    let text = "a\u{e9}\u{20ac}\u{1f600}z";
    let mut at = 0;
    let mut seen = Vec::new();
    while let Some((c, width)) = Slice::first(text.index_from(at)) {
        at += width;
        assert!(text.is_boundary(at));
        seen.push(c);
    }
    assert_eq!(at, Slice::len(text));
    assert_eq!(seen, vec!['a', '\u{e9}', '\u{20ac}', '\u{1f600}', 'z']);
}
