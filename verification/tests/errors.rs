use hair::primitive::{just, unit};
use hair::{Error, Parser, Recover};

#[test]
fn error_new_is_recoverable() {
    let e = Error::new("boom", 7);
    assert_eq!(e.inner, "boom");
    assert_eq!(e.recover, Recover::Recoverable);
    assert_eq!(e.at, 7);
}

#[test]
fn error_fail_keeps_inner_and_offset() {
    let e = Error::new(3u8, 11).fail();
    assert_eq!(
        e,
        Error {
            inner: 3u8,
            recover: Recover::Fatal,
            at: 11
        }
    );
}

#[test]
fn error_fail_twice_stays_fatal() {
    let e = Error::new((), 0).fail().fail();
    assert_eq!(e.recover, Recover::Fatal);
}

#[test]
fn error_map_changes_inner_only() {
    let e = Error::new(20u32, 4).fail().map(|n| n + 1);
    assert_eq!(
        e,
        Error {
            inner: 21u32,
            recover: Recover::Fatal,
            at: 4
        }
    );
    let e = Error::new(20u32, 9).map(|n| n.to_string());
    assert_eq!(
        e,
        Error {
            inner: String::from("20"),
            recover: Recover::Recoverable,
            at: 9
        }
    );
}

#[test]
fn error_clone_is_equal() {
    let e = Error::new(String::from("x"), 2).fail();
    assert_eq!(e.clone(), e);
}

#[test]
fn parse_reports_inner_and_offset() {
    let p = unit::<str>().right(just("b"));
    assert_eq!(p.clone().map_err(|_| "unit").parse(""), Err(("unit", 0)));
    let p = just("a").map_err(|_| 1u8).right(just("b").map_err(|_| 2u8));
    assert_eq!(p.parse("ab"), Ok("b"));
    assert_eq!(p.parse("ax"), Err((2u8, 1)));
    assert_eq!(p.parse("xb"), Err((1u8, 0)));
}

#[test]
fn parse_does_not_require_all_input() {
    let p = just("ab");
    assert_eq!(p.parse("abc"), Ok("ab"));
    assert_eq!(p.left(hair::primitive::end()).parse("abc"), Err(((), 2)));
}

#[test]
fn expect_promotes_to_fatal() {
    let p = just("a").expect();
    assert_eq!(p.parse_at("a", 0), Ok(("a", 1)));
    assert_eq!(
        p.parse_at("b", 0),
        Err(Error {
            inner: (),
            recover: Recover::Fatal,
            at: 0
        })
    );
}

#[test]
fn expect_keeps_inner_and_offset() {
    let p = just("a")
        .right(just("b"))
        .map_err(|_| "letters")
        .expect();
    assert_eq!(
        p.parse_at("ax", 0),
        Err(Error {
            inner: "letters",
            recover: Recover::Fatal,
            at: 1
        })
    );
}

#[test]
fn map_err_keeps_recoverability_and_offset() {
    let p = just("a").right(just("b").expect()).map_err(|_| 9i32);
    assert_eq!(
        p.parse_at("ac", 0),
        Err(Error {
            inner: 9,
            recover: Recover::Fatal,
            at: 1
        })
    );
    assert_eq!(p.parse_at("c", 0), Err(Error::new(9, 0)));
    assert_eq!(p.parse_at("ab", 0), Ok(("b", 2)));
}

#[test]
fn ignore_err_keeps_recoverability_and_offset() {
    let p = just("a")
        .map_err(|_| "a")
        .right(just("b").map_err(|_| "b").expect())
        .ignore_err();
    assert_eq!(
        p.parse_at("ac", 0),
        Err(Error {
            inner: (),
            recover: Recover::Fatal,
            at: 1
        })
    );
    assert_eq!(p.parse_at("c", 0), Err(Error::new((), 0)));
}

#[test]
fn new_wraps_a_function() {
    fn digit(input: &str, at: usize) -> hair::ParseResult<u32, &'static str> {
        match input[at..].chars().next().and_then(|c| c.to_digit(10)) {
            Some(d) => Ok((d, at + 1)),
            None => Err(Error::new("digit", at)),
        }
    }
    let p = Parser::new(digit);
    assert_eq!(p.parse_at("a7", 1), Ok((7, 2)));
    assert_eq!(p.parse_at("a7", 0), Err(Error::new("digit", 0)));
    assert_eq!(p.parse("42"), Ok(4));
}

#[test]
fn clone_shares_the_parser() {
    let p = just("ab");
    let q = p.clone();
    assert_eq!(p.parse_at("abab", 2), Ok(("ab", 4)));
    assert_eq!(q.parse_at("abab", 2), Ok(("ab", 4)));
    let twice = p.right(q);
    assert_eq!(twice.parse_at("abab", 0), Ok(("ab", 4)));
}
