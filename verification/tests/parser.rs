use access_json::query::{JSONQuery, QueryElement as Q};
use access_json::query_parser::{parse_query, Parser, QueryParseErr};
use access_json::text::{is_decimal_digit, is_whitespace, push_decimal, push_digit};

#[test]
fn test_dots_happy() {
    assert_eq!(
        parse_query(".a.b.c").unwrap(),
        vec![Q::field("a"), Q::field("b"), Q::field("c")]
    )
}

#[test]
fn test_array_happy() {
    assert_eq!(
        parse_query("[0][7]").unwrap(),
        vec![Q::array_item(0), Q::array_item(7)]
    )
}

#[test]
fn test_parse_mixed() {
    assert_eq!(
        parse_query(".a.b[7].c.e[5]").unwrap(),
        vec![
            Q::field("a"),
            Q::field("b"),
            Q::array_item(7),
            Q::field("c"),
            Q::field("e"),
            Q::array_item(5)
        ]
    )
}

#[test]
fn test_missing_field() {
    assert_eq!(
        parse_query(".a.b.").unwrap_err(),
        QueryParseErr::MissingField
    );
}

#[test]
fn test_bad_numbers() {
    assert_eq!(
        parse_query("[0][]").unwrap_err(),
        QueryParseErr::MissingNumber(4)
    )
}

#[test]
fn test_array_not_closed() {
    assert_eq!(
        parse_query("[").unwrap_err(),
        QueryParseErr::MissingNumber(1)
    )
}

#[test]
fn test_parse_doc_example() {
    assert_eq!(
        JSONQuery::parse(".field.array[8]").unwrap().elements,
        vec![Q::field("field"), Q::field("array"), Q::array_item(8)]
    );
}

#[test]
fn test_parse_empty_input() {
    assert_eq!(parse_query("").unwrap(), vec![]);
    assert_eq!(JSONQuery::parse("").unwrap(), JSONQuery::new(vec![]));
}

#[test]
fn test_bad_character() {
    assert_eq!(parse_query("a").unwrap_err(), QueryParseErr::BadCharacter(0));
    assert_eq!(parse_query(".a]").unwrap(), vec![Q::field("a]")]);
    assert_eq!(
        parse_query("[1]x").unwrap_err(),
        QueryParseErr::BadCharacter(3)
    );
    assert_eq!(parse_query(" .a").unwrap_err(), QueryParseErr::BadCharacter(0));
}

#[test]
fn test_missing_field_cases() {
    assert_eq!(parse_query(".").unwrap_err(), QueryParseErr::MissingField);
    assert_eq!(parse_query("..a").unwrap_err(), QueryParseErr::MissingField);
    assert_eq!(parse_query(".[0]").unwrap_err(), QueryParseErr::MissingField);
}

#[test]
fn test_missing_number_cases() {
    assert_eq!(parse_query("[]").unwrap_err(), QueryParseErr::MissingNumber(1));
    assert_eq!(
        parse_query(".ab[").unwrap_err(),
        QueryParseErr::MissingNumber(4)
    );
}

#[test]
fn test_bad_array() {
    assert_eq!(parse_query("[a]").unwrap_err(), QueryParseErr::BadArray(1));
    assert_eq!(parse_query("[12x]").unwrap_err(), QueryParseErr::BadArray(3));
    assert_eq!(parse_query("[-1]").unwrap_err(), QueryParseErr::BadArray(1));
    assert_eq!(parse_query("[1 ]").unwrap_err(), QueryParseErr::BadArray(2));
    assert_eq!(parse_query("[[").unwrap_err(), QueryParseErr::BadArray(1));
    // Only the ten ASCII digits count as digits.
    assert_eq!(
        parse_query("[\u{0663}]").unwrap_err(),
        QueryParseErr::BadArray(1)
    );
}

#[test]
fn test_bad_field() {
    assert_eq!(parse_query(".a b").unwrap_err(), QueryParseErr::BadField(2));
    assert_eq!(parse_query(". ").unwrap_err(), QueryParseErr::BadField(1));
    assert_eq!(
        parse_query(".ab\t.c").unwrap_err(),
        QueryParseErr::BadField(3)
    );
    // Positions count characters, not bytes.
    assert_eq!(
        parse_query(".\u{e9}\u{e9}\u{3000}").unwrap_err(),
        QueryParseErr::BadField(3)
    );
}

#[test]
fn test_unexpected_eof() {
    assert_eq!(
        parse_query("[12").unwrap_err(),
        QueryParseErr::UnexpectedEOF(']')
    );
    assert_eq!(
        parse_query(".a[0").unwrap_err(),
        QueryParseErr::UnexpectedEOF(']')
    );
    let mut parser = Parser::from("");
    assert_eq!(
        parser.consume('.').unwrap_err(),
        QueryParseErr::UnexpectedEOF('.')
    );
    assert_eq!(
        parser.read_array().unwrap_err(),
        QueryParseErr::UnexpectedEOF('[')
    );
    assert_eq!(
        parser.read_field().unwrap_err(),
        QueryParseErr::UnexpectedEOF('.')
    );
}

#[test]
fn test_unexpected() {
    let mut parser = Parser::from("ab");
    assert_eq!(parser.consume('a'), Ok(()));
    assert_eq!(
        parser.consume('a').unwrap_err(),
        QueryParseErr::Unexpected(1, 'a')
    );
    let mut parser = Parser::from(".a");
    assert_eq!(
        parser.read_array().unwrap_err(),
        QueryParseErr::Unexpected(0, '[')
    );
    let mut parser = Parser::from("[1]");
    assert_eq!(
        parser.read_field().unwrap_err(),
        QueryParseErr::Unexpected(0, '.')
    );
}

#[test]
fn test_bad_index() {
    let digits = "99999999999999999999999999999999999999999";
    let expected = digits.parse::<usize>().unwrap_err().to_string();
    assert_eq!(expected, "number too large to fit in target type");
    assert_eq!(
        parse_query(&format!(".a[{}]", digits)).unwrap_err(),
        QueryParseErr::BadIndex(3, expected.clone())
    );
    let one_more = format!("[{}0]", usize::MAX);
    assert_eq!(
        parse_query(&one_more).unwrap_err(),
        QueryParseErr::BadIndex(1, expected)
    );
}

#[test]
fn test_index_limits() {
    let largest = format!("[{}]", usize::MAX);
    assert_eq!(
        parse_query(&largest).unwrap(),
        vec![Q::array_item(usize::MAX)]
    );
    assert_eq!(
        parse_query("[000000000000000000000000000000000000000007]").unwrap(),
        vec![Q::array_item(7)]
    );
    assert_eq!(parse_query("[10]").unwrap(), vec![Q::array_item(10)]);
    assert_eq!(parse_query("[1234567890]").unwrap(), vec![Q::array_item(1234567890)]);
}

#[test]
fn test_parser_cursor() {
    let mut parser = Parser::from(".a[3]");
    assert_eq!(parser.peek(), Some('.'));
    assert_eq!(parser.peek(), Some('.'));
    assert_eq!(parser.next(), Ok(Some(Q::field("a"))));
    assert_eq!(parser.peek(), Some('['));
    assert_eq!(parser.next(), Ok(Some(Q::array_item(3))));
    assert_eq!(parser.peek(), None);
    assert_eq!(parser.advance(), None);
    assert_eq!(parser.next(), Ok(None));
    let mut parser = Parser::from("xy");
    assert_eq!(parser.advance(), Some('x'));
    assert_eq!(parser.advance(), Some('y'));
    assert_eq!(parser.advance(), None);
    assert_eq!(parser.advance(), None);
}

#[test]
fn test_render_elements() {
    assert_eq!(Q::field("name").to_string(), ".name");
    assert_eq!(Q::array_item(0).to_string(), "[0]");
    assert_eq!(Q::array_item(17).to_string(), "[17]");
    assert_eq!(
        Q::array_item(usize::MAX).to_string(),
        format!("[{}]", usize::MAX)
    );
    let mut out = String::from("x");
    Q::array_item(105).write_to(&mut out);
    Q::field("y").write_to(&mut out);
    assert_eq!(out, "x[105].y");
}

#[test]
fn test_render_query() {
    let query = JSONQuery::new(vec![
        Q::field("items"),
        Q::array_item(1),
        Q::field("wanted"),
        Q::field("x"),
    ]);
    assert_eq!(query.to_string(), ".items[1].wanted.x");
    assert_eq!(JSONQuery::new(vec![]).to_string(), "");
    assert_eq!(JSONQuery::single(Q::array_item(9)).to_string(), "[9]");
}

#[test]
fn test_parse_render_round_trip() {
    let queries = vec![
        JSONQuery::new(vec![]),
        JSONQuery::single(Q::field("a")),
        JSONQuery::single(Q::array_item(0)),
        JSONQuery::single(Q::array_item(usize::MAX)),
        JSONQuery::new(vec![Q::field("a]b"), Q::array_item(42), Q::field("7")]),
        JSONQuery::new(vec![
            Q::array_item(3),
            Q::array_item(100),
            Q::field("\u{e9}t\u{e9}"),
            Q::field("-"),
        ]),
    ];
    for query in queries {
        assert_eq!(JSONQuery::parse(&query.to_string()).unwrap(), query);
    }
}

#[test]
fn test_render_parse_round_trip() {
    for text in ["", ".a", "[0]", ".a.b[7].c.e[5]", "[1][2][3]", ".x]y"] {
        assert_eq!(JSONQuery::parse(text).unwrap().to_string(), text);
    }
}

#[test]
fn test_unwritable_names_do_not_round_trip() {
    let dotted = JSONQuery::single(Q::field("a.b"));
    assert_eq!(
        JSONQuery::parse(&dotted.to_string()).unwrap(),
        JSONQuery::new(vec![Q::field("a"), Q::field("b")])
    );
    let empty = JSONQuery::single(Q::field(""));
    assert_eq!(
        JSONQuery::parse(&empty.to_string()).unwrap_err(),
        QueryParseErr::MissingField
    );
}

#[test]
fn test_query_equality() {
    let a = JSONQuery::new(vec![Q::field("a"), Q::array_item(1)]);
    let b = JSONQuery::new(vec![Q::field("a"), Q::array_item(1)]);
    let c = JSONQuery::new(vec![Q::field("a"), Q::array_item(2)]);
    let d = JSONQuery::new(vec![Q::field("a")]);
    assert!(a == b);
    assert!(a != c);
    assert!(a != d);
    assert!(a.clone() == a);
    assert!(Q::field("1") != Q::array_item(1));
    assert!(Q::field("x").clone() == Q::field("x"));
    assert!(Q::array_item(4).clone() == Q::array_item(4));
}

#[test]
fn test_whitespace_is_the_unicode_class() {
    for code in 0..=0x10FFFFu32 {
        if let Some(c) = char::from_u32(code) {
            assert_eq!(is_whitespace(c), c.is_whitespace(), "U+{:04X}", code);
        }
    }
}

#[test]
fn test_digits_are_the_ascii_digits() {
    for code in 0..=0x10FFFFu32 {
        if let Some(c) = char::from_u32(code) {
            assert_eq!(is_decimal_digit(c), c.is_digit(10), "U+{:04X}", code);
        }
    }
}

#[test]
fn test_push_digit() {
    assert_eq!(push_digit(Some(0), '0'), Some(0));
    assert_eq!(push_digit(Some(12), '3'), Some(123));
    assert_eq!(push_digit(None, '3'), None);
    assert_eq!(push_digit(Some(usize::MAX / 10), '0'), Some(usize::MAX / 10 * 10));
    assert_eq!(push_digit(Some(usize::MAX / 10 + 1), '0'), None);
    assert_eq!(push_digit(Some(usize::MAX), '0'), None);
}

#[test]
fn test_push_decimal() {
    for n in [0usize, 1, 9, 10, 11, 99, 100, 101, 12345, usize::MAX] {
        let mut out = String::from("<");
        push_decimal(&mut out, n);
        assert_eq!(out, format!("<{}", n));
    }
}

#[test]
fn test_cursor_moves_at_the_end() {
    let mut parser = Parser::from("ab");
    assert_eq!(parser.position(), 0);
    assert_eq!(parser.peek(), Some('a'));
    assert_eq!(parser.position(), 0);
    assert_eq!(parser.advance(), Some('a'));
    assert_eq!(parser.position(), 1);
    assert_eq!(parser.advance(), Some('b'));
    assert_eq!(parser.position(), 2);
    // Reading at the end gives nothing and moves the cursor all the same.
    assert_eq!(parser.advance(), None);
    assert_eq!(parser.position(), 3);
    assert_eq!(parser.peek(), None);
    assert_eq!(
        parser.consume('x').unwrap_err(),
        QueryParseErr::UnexpectedEOF('x')
    );
    assert_eq!(parser.position(), 4);
    assert_eq!(parser.next(), Ok(None));
    assert_eq!(parser.position(), 4);

    let mut parser = Parser::from("");
    assert_eq!(
        parser.consume('.').unwrap_err(),
        QueryParseErr::UnexpectedEOF('.')
    );
    assert_eq!(parser.position(), 1);
}

#[test]
fn test_cursor_after_consume() {
    let mut parser = Parser::from("ab");
    assert_eq!(parser.consume('a'), Ok(()));
    assert_eq!(parser.position(), 1);
    // A character that is not the expected one is read all the same.
    assert_eq!(
        parser.consume('a').unwrap_err(),
        QueryParseErr::Unexpected(1, 'a')
    );
    assert_eq!(parser.position(), 2);
}

#[test]
fn test_cursor_after_next() {
    let mut parser = Parser::from(".a[3]x");
    assert_eq!(parser.next(), Ok(Some(Q::field("a"))));
    assert_eq!(parser.position(), 2);
    assert_eq!(parser.next(), Ok(Some(Q::array_item(3))));
    assert_eq!(parser.position(), 5);
    // A character that starts no element is not read.
    assert_eq!(parser.next().unwrap_err(), QueryParseErr::BadCharacter(5));
    assert_eq!(parser.position(), 5);
    assert_eq!(parser.next().unwrap_err(), QueryParseErr::BadCharacter(5));
    assert_eq!(parser.position(), 5);
    let mut parser = Parser::from("");
    assert_eq!(parser.next(), Ok(None));
    assert_eq!(parser.position(), 0);
}

fn after_array(input: &str) -> (Result<Q, QueryParseErr>, usize) {
    let mut parser = Parser::from(input);
    let read = parser.read_array();
    (read, parser.position())
}

fn after_field(input: &str) -> (Result<Q, QueryParseErr>, usize) {
    let mut parser = Parser::from(input);
    let read = parser.read_field();
    (read, parser.position())
}

#[test]
fn test_cursor_after_read_array() {
    assert_eq!(after_array("[12].a"), (Ok(Q::array_item(12)), 4));
    assert_eq!(after_array("[]"), (Err(QueryParseErr::MissingNumber(1)), 2));
    // The end of the input is read like a character.
    assert_eq!(after_array("["), (Err(QueryParseErr::MissingNumber(1)), 2));
    assert_eq!(
        after_array("[12"),
        (Err(QueryParseErr::UnexpectedEOF(']')), 4)
    );
    assert_eq!(after_array("[1x]"), (Err(QueryParseErr::BadArray(2)), 3));
    assert_eq!(after_array("[x"), (Err(QueryParseErr::BadArray(1)), 2));
    assert_eq!(
        after_array(".a"),
        (Err(QueryParseErr::Unexpected(0, '[')), 1)
    );
    assert_eq!(after_array(""), (Err(QueryParseErr::UnexpectedEOF('[')), 1));
    let (read, position) = after_array("[99999999999999999999999999999999].a");
    assert!(matches!(read, Err(QueryParseErr::BadIndex(1, _))));
    assert_eq!(position, 34);
}

#[test]
fn test_cursor_after_read_field() {
    assert_eq!(after_field(".ab.c"), (Ok(Q::field("ab")), 3));
    assert_eq!(after_field(".ab"), (Ok(Q::field("ab")), 3));
    assert_eq!(after_field(".ab[0]"), (Ok(Q::field("ab")), 3));
    assert_eq!(after_field("."), (Err(QueryParseErr::MissingField), 1));
    assert_eq!(after_field("..a"), (Err(QueryParseErr::MissingField), 1));
    // Whitespace in a name is met, not read.
    assert_eq!(after_field(".ab c"), (Err(QueryParseErr::BadField(3)), 3));
    assert_eq!(after_field(". "), (Err(QueryParseErr::BadField(1)), 1));
    assert_eq!(
        after_field("[0]"),
        (Err(QueryParseErr::Unexpected(0, '.')), 1)
    );
    assert_eq!(after_field(""), (Err(QueryParseErr::UnexpectedEOF('.')), 1));
}
