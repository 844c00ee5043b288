use tinytsdb::tags::{Equality, EqualityOp, Logical, LogicalOp, ParseError, TagSet, TagsParser};

fn equality(op: EqualityOp, lhs: &str, rhs: &str) -> Equality {
    Equality { op, lhs: lhs.to_string(), rhs: rhs.to_string() }
}

#[test]
fn parse_logical_just_equals() {
    let input = r#""host" == "123""#;

    let actual = Logical::parse(input).unwrap();
    let expected = Logical::Just(Equality {
        op: EqualityOp::Equals,
        lhs: "host".to_string(),
        rhs: "123".to_string(),
    });

    assert_eq!(actual, expected)
}

#[test]
fn parse_logical_just_not_equals() {
    let input = r#""host" != "123""#;

    let actual = Logical::parse(input).unwrap();
    let expected = Logical::Just(Equality {
        op: EqualityOp::NotEquals,
        lhs: "host".to_string(),
        rhs: "123".to_string(),
    });

    assert_eq!(actual, expected)
}

#[test]
fn parse_logical_and_also() {
    let input = r#""host" == "123" and "region" == "us-west""#;

    let actual = Logical::parse(input).unwrap();
    let expected = Logical::Also(
        Equality {
            op: EqualityOp::Equals,
            lhs: "host".to_string(),
            rhs: "123".to_string(),
        },
        LogicalOp::And,
        Box::new(Logical::Just(Equality {
            op: EqualityOp::Equals,
            lhs: "region".to_string(),
            rhs: "us-west".to_string(),
        })),
    );

    assert_eq!(actual, expected)
}

#[test]
fn parse_logical_or_also() {
    let input = r#""host" == "123" or "region" == "us-west""#;

    let actual = Logical::parse(input).unwrap();
    let expected = Logical::Also(
        Equality {
            op: EqualityOp::Equals,
            lhs: "host".to_string(),
            rhs: "123".to_string(),
        },
        LogicalOp::Or,
        Box::new(Logical::Just(Equality {
            op: EqualityOp::Equals,
            lhs: "region".to_string(),
            rhs: "us-west".to_string(),
        })),
    );

    assert_eq!(actual, expected)
}

#[test]
fn parse_logical_chain_nests_to_the_right() {
    let actual = Logical::parse(r#""a" == "b" or "c" != "d" and "e" == "f""#).unwrap();
    let expected = Logical::Also(
        equality(EqualityOp::Equals, "a", "b"),
        LogicalOp::Or,
        Box::new(Logical::Also(
            equality(EqualityOp::NotEquals, "c", "d"),
            LogicalOp::And,
            Box::new(Logical::Just(equality(EqualityOp::Equals, "e", "f"))),
        )),
    );

    assert_eq!(actual, expected)
}

#[test]
fn parse_logical_takes_blanks_or_none_between_tokens() {
    let expected = Logical::Also(
        equality(EqualityOp::Equals, "a", "b"),
        LogicalOp::And,
        Box::new(Logical::Just(equality(EqualityOp::NotEquals, "c", "d"))),
    );

    assert_eq!(Logical::parse(r#""a"=="b"and"c"!="d""#), Ok(expected));

    let expected = Logical::Also(
        equality(EqualityOp::Equals, "a", "b"),
        LogicalOp::And,
        Box::new(Logical::Just(equality(EqualityOp::NotEquals, "c", "d"))),
    );

    assert_eq!(Logical::parse(" \t\"a\"\n==\r\n\"b\"  and  \"c\" != \"d\" \n"), Ok(expected));
}

#[test]
fn parse_logical_keeps_the_text_between_the_quotes() {
    let actual = Logical::parse(r#""" == " a = b, c ""#).unwrap();

    assert_eq!(actual, Logical::Just(equality(EqualityOp::Equals, "", " a = b, c ")));

    let actual = Logical::parse("\"h\u{f6}st\" != \"\u{65e5}\u{672c}\"").unwrap();

    assert_eq!(
        actual,
        Logical::Just(equality(EqualityOp::NotEquals, "h\u{f6}st", "\u{65e5}\u{672c}"))
    );
}

#[test]
fn parse_logical_rejects_what_is_no_expression() {
    assert_eq!(Logical::parse(""), Err(ParseError));
    assert_eq!(Logical::parse("   "), Err(ParseError));
    assert_eq!(Logical::parse(r#""host""#), Err(ParseError));
    assert_eq!(Logical::parse(r#""host" =="#), Err(ParseError));
    assert_eq!(Logical::parse(r#""host" = "123""#), Err(ParseError));
    assert_eq!(Logical::parse(r#""host" === "123""#), Err(ParseError));
    assert_eq!(Logical::parse(r#"host == "123""#), Err(ParseError));
    assert_eq!(Logical::parse(r#""host" == 123"#), Err(ParseError));
    assert_eq!(Logical::parse(r#""host" == "123"#), Err(ParseError));
    assert_eq!(Logical::parse(r#""host" == "123" and"#), Err(ParseError));
    assert_eq!(Logical::parse(r#""host" == "123" xor "a" == "b""#), Err(ParseError));
    assert_eq!(Logical::parse(r#""host" == "123" AND "a" == "b""#), Err(ParseError));
    assert_eq!(Logical::parse(r#""host" == "123" "a" == "b""#), Err(ParseError));
    assert_eq!(Logical::parse(r#""host" == "123" and "a""#), Err(ParseError));
    assert_eq!(Logical::parse(r#"("host" == "123")"#), Err(ParseError));
    assert_eq!(Logical::parse(r#""host" == "123" ;"#), Err(ParseError));
}

#[test]
fn parser_reads_both_rules_from_one_text() {
    let parser = TagsParser::new(r#""a" == "b""#);

    assert_eq!(parser.logical(), Ok(Logical::Just(equality(EqualityOp::Equals, "a", "b"))));
    assert!(parser.tag_set().is_err());

    let parser = TagsParser::new(r#""a" = "b""#);

    assert_eq!(parser.logical(), Err(ParseError));
    assert_eq!(parser.tag_set().unwrap().id(), "a=b");
}

fn tags(pairs: &[(&str, &str)]) -> TagSet {
    let mut tags = TagSet::new();
    for (key, value) in pairs {
        tags.insert(key.to_string(), value.to_string());
    }
    tags
}

#[test]
fn equality_compares_what_stands_under_two_keys() {
    let tags = tags(&[("a", "1"), ("b", "1"), ("c", "2")]);

    assert!(tags.matches_eq(equality(EqualityOp::Equals, "a", "b")));
    assert!(!tags.matches_eq(equality(EqualityOp::NotEquals, "a", "b")));
    assert!(!tags.matches_eq(equality(EqualityOp::Equals, "a", "c")));
    assert!(tags.matches_eq(equality(EqualityOp::NotEquals, "a", "c")));
    assert!(tags.matches_eq(equality(EqualityOp::Equals, "a", "a")));
}

#[test]
fn equality_takes_the_right_operand_as_a_key_too() {
    let tags = tags(&[("host", "123")]);

    // "123" is no key of the tag set, so the two lookups differ.
    assert!(!tags.matches_eq(equality(EqualityOp::Equals, "host", "123")));
    assert!(tags.matches_eq(equality(EqualityOp::NotEquals, "host", "123")));
}

#[test]
fn equality_of_two_absent_keys_holds() {
    let tags = tags(&[("a", "1")]);

    assert!(tags.matches_eq(equality(EqualityOp::Equals, "x", "y")));
    assert!(!tags.matches_eq(equality(EqualityOp::NotEquals, "x", "y")));
    assert!(!tags.matches_eq(equality(EqualityOp::Equals, "a", "y")));
    assert!(tags.matches_eq(equality(EqualityOp::NotEquals, "x", "a")));
    assert!(TagSet::new().matches_eq(equality(EqualityOp::Equals, "x", "y")));
}

#[test]
fn logical_just_is_its_equality() {
    let tags = tags(&[("a", "1"), ("b", "1"), ("c", "2")]);

    assert!(tags.matches_logical(Logical::parse(r#""a" == "b""#).unwrap()));
    assert!(!tags.matches_logical(Logical::parse(r#""a" == "c""#).unwrap()));
}

#[test]
fn logical_and_needs_head_and_rest() {
    let tags = tags(&[("a", "1"), ("b", "1"), ("c", "2")]);

    assert!(tags.matches_logical(Logical::parse(r#""a" == "b" and "a" != "c""#).unwrap()));
    assert!(!tags.matches_logical(Logical::parse(r#""a" == "b" and "a" == "c""#).unwrap()));
    assert!(!tags.matches_logical(Logical::parse(r#""a" == "c" and "a" == "b""#).unwrap()));
    assert!(!tags.matches_logical(Logical::parse(r#""a" == "c" and "b" == "c""#).unwrap()));
}

#[test]
fn logical_or_needs_head_or_rest() {
    let tags = tags(&[("a", "1"), ("b", "1"), ("c", "2")]);

    assert!(tags.matches_logical(Logical::parse(r#""a" == "b" or "a" == "c""#).unwrap()));
    assert!(tags.matches_logical(Logical::parse(r#""a" == "c" or "a" == "b""#).unwrap()));
    assert!(tags.matches_logical(Logical::parse(r#""a" == "b" or "a" != "c""#).unwrap()));
    assert!(!tags.matches_logical(Logical::parse(r#""a" == "c" or "b" == "c""#).unwrap()));
}

#[test]
fn logical_chain_joins_the_head_to_all_that_follows() {
    let tags = tags(&[("a", "1"), ("b", "1"), ("c", "2")]);

    // false and (true or true): a chain has no precedence of `and` over `or`.
    let expr = Logical::parse(r#""a" == "c" and "a" == "b" or "a" == "a""#).unwrap();
    assert!(!tags.matches_logical(expr));

    // true or (false and false)
    let expr = Logical::parse(r#""a" == "b" or "a" == "c" and "b" == "c""#).unwrap();
    assert!(tags.matches_logical(expr));

    // true and (false or true)
    let expr = Logical::parse(r#""a" == "b" and "a" == "c" or "b" == "a""#).unwrap();
    assert!(tags.matches_logical(expr));
}
