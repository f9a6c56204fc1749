use std::collections::HashMap;

use hair::primitive::{any, unit};
use hair::{Error, ParseResult, Parser, Recover};

/// A JSON value.
#[derive(Debug, PartialEq)]
enum Value {
    Object(HashMap<String, Value>),
    Array(Vec<Value>),
    String(String),
    Number(f32),
    True,
    False,
    Null,
}

/// The error yielded by the grammar.
#[derive(Debug, PartialEq)]
enum Expect {
    String(&'static str),
    Rule(&'static str),
}

fn just<'a>(string: &'static str) -> Parser<'a, &'a str, &'a str, Expect> {
    hair::primitive::just(string).map_err(move |_| Expect::String(string))
}

fn ws<'a>() -> Parser<'a, &'a str, &'a str, Expect> {
    unit()
        .filter(|c: &char| c.is_whitespace())
        .ignore()
        .many()
        .input()
        .map_err(|_| unreachable!())
}

fn string<'a>() -> Parser<'a, &'a str, String, Expect> {
    let u = just("\\\\")
        .or(just("\\\""))
        .ignore()
        .ignore_err()
        .or(unit::<str>().filter(|&c| c != '"').ignore());

    u.many()
        .input()
        .map_err(|_| Expect::Rule("string"))
        .surround(just("\""), just("\"").expect())
        .map(String::from)
}

fn number<'a>() -> Parser<'a, &'a str, f32, Expect> {
    let digit = || unit::<str>().filter(char::is_ascii_digit);
    let digits = || {
        digit()
            .then(digit().ignore().many())
            .input()
            .map_err(|_| Expect::Rule("digit"))
    };

    digits()
        .then(just(".").then(digits()).optional())
        .input()
        .map(|n| n.parse().unwrap())
}

fn value<'a>() -> Parser<'a, &'a str, Value, Expect> {
    fn inner(input: &str, at: usize) -> ParseResult<Value, Expect> {
        let object = {
            let member = string()
                .surround(ws(), ws())
                .then(just(":").expect().right(element().expect()));

            member
                .separate(just(","))
                .surround(just("{"), just("}").expect())
                .map(|members| Value::Object(members.into_iter().collect()))
        };

        let array = element()
            .separate(just(","))
            .surround(just("["), just("]").expect())
            .map(Value::Array);

        any(vec![
            object,
            array,
            just("true").map(|_| Value::True),
            just("false").map(|_| Value::False),
            just("null").map(|_| Value::Null),
            string().map(Value::String),
            number().map(Value::Number),
        ])
        .parse_at(input, at)
    }

    Parser::new(inner)
}

fn element<'a>() -> Parser<'a, &'a str, Value, Expect> {
    value().surround(ws(), ws())
}

#[test]
fn json_number_with_fraction() {
    assert_eq!(number().parse_at("12.34", 0), Ok((12.34, 5)));
}

#[test]
fn json_number_without_fraction() {
    assert_eq!(number().parse_at("120,", 0), Ok((120.0, 3)));
    assert_eq!(number().parse_at("7.", 0), Ok((7.0, 1)));
    assert_eq!(
        number().parse_at("x", 0),
        Err(Error::new(Expect::Rule("digit"), 0))
    );
}

#[test]
fn json_empty_object() {
    assert_eq!(
        value().parse_at("{}", 0),
        Ok((Value::Object(HashMap::new()), 2))
    );
    assert_eq!(
        element().parse_at("  {}\n", 0),
        Ok((Value::Object(HashMap::new()), 5))
    );
}

#[test]
fn json_member_without_value_is_fatal() {
    let member = string()
        .surround(ws(), ws())
        .then(just(":").expect().right(element().expect()));
    match member.parse_at("\"a\":}", 0) {
        Err(e) => {
            assert_eq!(e.recover, Recover::Fatal);
            assert_eq!(e.at, 4);
        }
        Ok(_) => panic!("a member without a value was accepted"),
    }
    match element().parse_at("{\"a\":}", 0) {
        Err(e) => {
            assert_eq!(e.recover, Recover::Fatal);
            assert_eq!(e.at, 5);
            assert_eq!(e.inner, Expect::Rule("digit"));
        }
        Ok(_) => panic!("an object without a value was accepted"),
    }
}

#[test]
fn json_member_without_colon_is_fatal() {
    assert_eq!(
        element().parse("{\"a\" 1}"),
        Err((Expect::String(":"), 5))
    );
    match element().parse_at("{\"a\" 1}", 0) {
        Err(e) => assert_eq!(e.recover, Recover::Fatal),
        Ok(_) => panic!("a member without a colon was accepted"),
    }
}

#[test]
fn json_nested_values() {
    let mut inner = HashMap::new();
    inner.insert(String::from("b"), Value::Null);
    let mut outer = HashMap::new();
    outer.insert(
        String::from("a"),
        Value::Array(vec![
            Value::Number(1.0),
            Value::True,
            Value::String(String::from("x y")),
            Value::Object(inner),
        ]),
    );
    outer.insert(String::from("c"), Value::False);
    let text = "{ \"a\" : [1, true, \"x y\", {\"b\": null}], \"c\": false }";
    assert_eq!(element().parse_at(text, 0), Ok((Value::Object(outer), text.len())));
}

#[test]
fn json_unclosed_array_is_fatal() {
    match element().parse_at("[1, 2", 0) {
        Err(e) => {
            assert_eq!(e.recover, Recover::Fatal);
            assert_eq!(e.inner, Expect::String("]"));
            assert_eq!(e.at, 5);
        }
        Ok(_) => panic!("an unclosed array was accepted"),
    }
}

#[test]
fn json_string_with_escapes() {
    assert_eq!(
        string().parse_at("\"a\\\"b\\\\\" rest", 0),
        Ok((String::from("a\\\"b\\\\"), 8))
    );
    assert_eq!(
        string().parse_at("\"open", 0),
        Err(Error {
            inner: Expect::String("\""),
            recover: Recover::Fatal,
            at: 5
        })
    );
}

#[test]
fn json_whitespace_may_be_empty() {
    assert_eq!(ws().parse_at("a", 0), Ok(("", 0)));
    assert_eq!(ws().parse_at(" \t\na", 0), Ok((" \t\n", 3)));
}
