use hair::primitive::{any, end, identity, just, unit};
use hair::{Error, Recover};

#[test]
fn identity_consumes_nothing() {
    let p = identity();
    assert_eq!(p.parse_at("abc", 2), Ok(((), 2)));
    let input: &[u8] = &[];
    assert_eq!(identity().parse_at(input, 0), Ok(((), 0)));
}

#[test]
fn unit_fails_at_end_of_input() {
    let p = unit::<str>();
    assert_eq!(p.parse_at("", 0), Err(Error::new((), 0)));
    assert_eq!(p.parse_at("ab", 2), Err(Error::new((), 2)));
    let input: &[u32] = &[1, 2];
    assert_eq!(unit().parse_at(input, 2), Err(Error::new((), 2)));
}

#[test]
fn unit_advances_by_one_element() {
    let input: &[u32] = &[10, 20, 30];
    let p = unit();
    assert_eq!(p.parse_at(input, 0), Ok((&10, 1)));
    assert_eq!(p.parse_at(input, 2), Ok((&30, 3)));
}

#[test]
fn unit_advances_by_the_width_of_a_character() {
    let p = unit::<str>();
    let text = "a\u{e9}\u{20ac}\u{1f600}!";
    assert_eq!(p.parse_at(text, 0), Ok(('a', 1)));
    assert_eq!(p.parse_at(text, 1), Ok(('\u{e9}', 3)));
    assert_eq!(p.parse_at(text, 3), Ok(('\u{20ac}', 6)));
    assert_eq!(p.parse_at(text, 6), Ok(('\u{1f600}', 10)));
    assert_eq!(p.parse_at(text, 10), Ok(('!', 11)));
    assert_eq!(p.parse_at(text, 11), Err(Error::new((), 11)));
}

#[test]
fn just_matches_a_prefix_of_the_rest() {
    let p = just("lo");
    assert_eq!(p.parse_at("hello", 3), Ok(("lo", 5)));
    assert_eq!(p.parse_at("hello", 2), Err(Error::new((), 2)));
    assert_eq!(p.parse_at("hello", 4), Err(Error::new((), 4)));
    assert_eq!(p.parse_at("hello", 5), Err(Error::new((), 5)));
}

#[test]
fn just_of_nothing_always_matches() {
    let p = just("");
    assert_eq!(p.parse_at("abc", 0), Ok(("", 0)));
    assert_eq!(p.parse_at("abc", 3), Ok(("", 3)));
    assert_eq!(p.parse_at("", 0), Ok(("", 0)));
}

#[test]
fn just_fails_where_the_literal_would_end_inside_a_character() {
    let p = just("a");
    assert_eq!(p.parse_at("\u{e9}", 0), Err(Error::new((), 0)));
    let p = just("\u{e9}");
    assert_eq!(p.parse_at("\u{e9}t\u{e9}", 0), Ok(("\u{e9}", 2)));
    assert_eq!(p.parse_at("\u{e9}t\u{e9}", 3), Ok(("\u{e9}", 5)));
    assert_eq!(p.parse_at("\u{e8}", 0), Err(Error::new((), 0)));
}

#[test]
fn just_on_arrays_compares_elements() {
    let key: &[u8] = &[2, 3];
    let input: &[u8] = &[1, 2, 3, 4];
    let p = just(key);
    assert_eq!(p.parse_at(input, 1), Ok((key, 3)));
    assert_eq!(p.parse_at(input, 0), Err(Error::new((), 0)));
    assert_eq!(p.parse_at(input, 2), Err(Error::new((), 2)));
    assert_eq!(p.parse_at(input, 3), Err(Error::new((), 3)));
    assert_eq!(p.parse_at(input, 4), Err(Error::new((), 4)));
}

#[test]
fn end_succeeds_only_at_the_end() {
    let p = end::<str>();
    assert_eq!(p.parse_at("ab", 2), Ok(((), 2)));
    assert_eq!(p.parse_at("ab", 1), Err(Error::new((), 1)));
    assert_eq!(p.parse_at("", 0), Ok(((), 0)));
    let input: &[i8] = &[1];
    assert_eq!(end().parse_at(input, 0), Err(Error::new((), 0)));
    assert_eq!(end().parse_at(input, 1), Ok(((), 1)));
}

#[test]
fn any_returns_the_first_success() {
    let p = any(vec![just("a"), just("ab"), just("b")]);
    assert_eq!(p.parse_at("ab", 0), Ok(("a", 1)));
    assert_eq!(p.parse_at("ab", 1), Ok(("b", 2)));
    let p = any(vec![just("ab"), just("a")]);
    assert_eq!(p.parse_at("ab", 0), Ok(("ab", 2)));
    assert_eq!(p.parse_at("ac", 0), Ok(("a", 1)));
}

#[test]
fn any_returns_the_last_recoverable_failure() {
    let p = any(vec![
        just("a").map_err(|_| 1u8),
        just("b").right(just("c")).map_err(|_| 2u8),
        just("b").right(just("b")).right(just("d")).map_err(|_| 3u8),
    ]);
    assert_eq!(p.parse_at("bbx", 0), Err(Error::new(3u8, 2)));
    let single = any(vec![just("a").map_err(|_| 1u8)]);
    assert_eq!(single.parse_at("b", 0), Err(Error::new(1u8, 0)));
    assert_eq!(single.parse_at("a", 0), Ok(("a", 1)));
}

#[test]
fn any_stops_at_a_fatal_failure() {
    let p = any(vec![
        just("a").map_err(|_| 1u8),
        just("b").map_err(|_| 0u8).right(just("c").map_err(|_| 2u8).expect()),
        just("b").map_err(|_| 3u8),
    ]);
    assert_eq!(
        p.parse_at("bd", 0),
        Err(Error {
            inner: 2u8,
            recover: Recover::Fatal,
            at: 1
        })
    );
    assert_eq!(p.parse_at("bc", 0), Ok(("c", 2)));
}

#[test]
fn any_is_a_chain_of_or() {
    let inputs = ["a", "b", "c", "d", ""];
    for input in inputs {
        let p = any(vec![just("a"), just("b"), just("c")]);
        let q = just("a").or(just("b")).or(just("c"));
        assert_eq!(p.parse_at(input, 0), q.parse_at(input, 0));
    }
}
