use hair::primitive::{just, unit};
use hair::util::recognize_input;
use hair::{Error, Recover};

#[test]
fn many_stops_at_the_first_recoverable_failure() {
    let p = just("ab").many();
    assert_eq!(p.parse_at("ababax", 0), Ok((vec!["ab", "ab"], 4)));
    assert_eq!(p.parse_at("x", 0), Ok((vec![], 0)));
    assert_eq!(p.parse_at("", 0), Ok((vec![], 0)));
    assert_eq!(p.parse_at("xab", 1), Ok((vec!["ab"], 3)));
}

#[test]
fn many_passes_a_fatal_failure_on() {
    let item = just("a")
        .map_err(|_| "a")
        .right(just("b").map_err(|_| "b").expect());
    let p = item.many();
    assert_eq!(p.parse_at("abab", 0), Ok((vec!["b", "b"], 4)));
    assert_eq!(
        p.parse_at("abac", 0),
        Err(Error {
            inner: "b",
            recover: Recover::Fatal,
            at: 3
        })
    );
}

#[test]
fn many_with_stops_at_the_upper_bound() {
    let p = just("a").many_with(None, Some(2));
    assert_eq!(p.parse_at("aaaa", 0), Ok((vec!["a", "a"], 2)));
    assert_eq!(p.parse_at("ab", 0), Ok((vec!["a"], 1)));
    let none = just("a").many_with(None, Some(0));
    assert_eq!(none.parse_at("aaaa", 1), Ok((vec![], 1)));
}

#[test]
fn many_with_does_not_consult_the_parser_at_the_upper_bound() {
    let item = just("a")
        .map_err(|_| "a")
        .or(just("b").map_err(|_| "b").right(just("!").map_err(|_| "!").expect()));
    let p = item.many_with(None, Some(2));
    assert_eq!(p.parse_at("aab?", 0), Ok((vec!["a", "a"], 2)));
    let q = just("a")
        .map_err(|_| "a")
        .or(just("b").map_err(|_| "b").right(just("!").map_err(|_| "!").expect()))
        .many_with(None, Some(3));
    assert_eq!(
        q.parse_at("aab?", 0),
        Err(Error {
            inner: Some("!"),
            recover: Recover::Fatal,
            at: 3
        })
    );
}

#[test]
fn many_with_misses_the_lower_bound_at_the_offset_of_the_call() {
    let p = just("a").many_with(Some(3), None);
    assert_eq!(p.parse_at("xaab", 1), Err(Error::new(None, 1)));
    assert_eq!(p.parse_at("", 0), Err(Error::new(None, 0)));
    assert_eq!(p.parse_at("xaaab", 1), Ok((vec!["a", "a", "a"], 4)));
    assert_eq!(p.parse_at("aaaaa", 0), Ok((vec!["a"; 5], 5)));
}

#[test]
fn many_with_result_length_is_within_bounds() {
    for min in 0..4usize {
        for max in 0..5usize {
            for n in 0..6usize {
                let input = "a".repeat(n);
                let p = just("a").many_with(Some(min), Some(max));
                match p.parse_at(input.as_str(), 0) {
                    Ok((items, rest)) => {
                        assert!(min <= items.len() && items.len() <= max);
                        assert_eq!(items.len(), n.min(max));
                        assert_eq!(rest, items.len());
                    }
                    Err(e) => {
                        assert!(n.min(max) < min);
                        assert_eq!(e, Error::new(None, 0));
                    }
                }
            }
        }
    }
}

#[test]
fn many_with_wraps_a_fatal_failure() {
    let p = just("a")
        .map_err(|_| 'a')
        .right(just("b").map_err(|_| 'b').expect())
        .many_with(Some(5), None);
    assert_eq!(
        p.parse_at("abax", 0),
        Err(Error {
            inner: Some('b'),
            recover: Recover::Fatal,
            at: 3
        })
    );
}

#[test]
fn separate_leaves_a_trailing_separator() {
    let p = just("0").separate(just(","));
    assert_eq!(p.parse_at("0,0,", 0), Ok((vec!["0", "0"], 3)));
    assert_eq!(p.parse_at("0,", 0), Ok((vec!["0"], 1)));
    assert_eq!(p.parse_at("0,0", 0), Ok((vec!["0", "0"], 3)));
    assert_eq!(p.parse_at("0,0,0;", 0), Ok((vec!["0", "0", "0"], 5)));
}

#[test]
fn separate_of_nothing_consumes_nothing() {
    let p = just("0").separate(just(","));
    assert_eq!(p.parse_at("", 0), Ok((vec![], 0)));
    assert_eq!(p.parse_at(",0", 0), Ok((vec![], 0)));
    assert_eq!(p.parse_at("x0", 1), Ok((vec!["0"], 2)));
}

#[test]
fn separate_needs_a_separator_between_elements() {
    let p = just("0").separate(just(","));
    assert_eq!(p.parse_at("00", 0), Ok((vec!["0"], 1)));
    let wide = just("ab").separate(just("--"));
    assert_eq!(wide.parse_at("ab--ab--ab-", 0), Ok((vec!["ab"; 3], 10)));
}

#[test]
fn separate_passes_a_fatal_failure_of_the_element_on() {
    let element = just("[")
        .map_err(|_| "[")
        .right(just("]").map_err(|_| "]").expect());
    let p = element.separate(just(",").map_err(|_| ","));
    assert_eq!(p.parse_at("[],[]", 0), Ok((vec!["]", "]"], 5)));
    assert_eq!(
        p.parse_at("[],[x", 0),
        Err(Error {
            inner: "]",
            recover: Recover::Fatal,
            at: 4
        })
    );
}

#[test]
fn separate_passes_a_fatal_failure_of_the_separator_on() {
    let by = just(",")
        .map_err(|_| ",")
        .right(just(" ").map_err(|_| "space").expect());
    let p = just("0").map_err(|_| "0").separate(by);
    assert_eq!(p.parse_at("0, 0, 0", 0), Ok((vec!["0"; 3], 7)));
    assert_eq!(
        p.parse_at("0, 0,0", 0),
        Err(Error {
            inner: "space",
            recover: Recover::Fatal,
            at: 5
        })
    );
}

#[test]
fn recognize_input_takes_the_longest_run() {
    let digits = recognize_input(|c: &char| c.is_ascii_digit());
    assert_eq!(digits.parse_at("123abc", 0), Ok(("123", 3)));
    assert_eq!(digits.parse_at("a123", 1), Ok(("123", 4)));
    assert_eq!(digits.parse_at("1", 0), Ok(("1", 1)));
}

#[test]
fn recognize_input_needs_one_item() {
    let digits = recognize_input(|c: &char| c.is_ascii_digit());
    assert_eq!(digits.parse_at("abc", 0), Err(Error::new((), 0)));
    assert_eq!(digits.parse_at("12", 2), Err(Error::new((), 2)));
    assert_eq!(digits.parse_at("", 0), Err(Error::new((), 0)));
}

#[test]
fn recognize_input_counts_bytes_of_text() {
    let letters = recognize_input(|c: &char| c.is_alphabetic());
    assert_eq!(letters.parse_at("\u{e9}t\u{e9} 1", 0), Ok(("\u{e9}t\u{e9}", 5)));
}

#[test]
fn recognize_input_on_arrays() {
    let input: &[i32] = &[2, 4, 6, 7, 8];
    let even = recognize_input(|n: &&i32| **n % 2 == 0);
    assert_eq!(even.parse_at(input, 0), Ok((&input[..3], 3)));
    assert_eq!(even.parse_at(input, 3), Err(Error::new((), 3)));
    assert_eq!(even.parse_at(input, 4), Ok((&input[4..], 5)));
}

#[test]
fn unit_many_collects_every_item() {
    let p = unit::<str>().many();
    assert_eq!(p.parse_at("h\u{e9}!", 0), Ok((vec!['h', '\u{e9}', '!'], 4)));
}
