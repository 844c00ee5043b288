use tinytsdb::tags::TagSet;

#[test]
fn tags_have_a_readable_id() {
    let mut tags = TagSet::new();

    tags.insert("b".to_string(), "B".to_string());
    tags.insert("a".to_string(), "A".to_string());

    let id = tags.id();

    assert_eq!(id, "a=A,b=B".to_string())
}

#[test]
fn tags_have_ordered_id() {
    let tag_set_a = TagSet::parse(r#""a" = "A", "b" = "B""#).unwrap();
    let tag_set_b = TagSet::parse(r#""b" = "B", "a" = "A""#).unwrap();

    assert_eq!(tag_set_a.id(), "a=A,b=B");
    assert_eq!(tag_set_b.id(), "a=A,b=B");
}

#[test]
fn parse_tag_set_basic() {
    let input = r#""host" = "123", "region" = "us-west""#;
    let result = TagSet::parse(input).unwrap();

    assert_eq!(result.len(), 2);
    assert_eq!(result.get("host").unwrap(), "123");
    assert_eq!(result.get("region").unwrap(), "us-west");
}

#[test]
fn empty_tag_set_has_empty_id() {
    let tags = TagSet::new();

    assert_eq!(tags.len(), 0);
    assert_eq!(tags.id(), "");
    assert_eq!(tags.get("a"), None);
}

#[test]
fn id_is_the_same_in_every_insertion_order() {
    let pairs = [("region", "us-west"), ("host", "123"), ("az", "b"), ("rack", "17")];
    let orders: [[usize; 4]; 6] =
        [[0, 1, 2, 3], [3, 2, 1, 0], [1, 0, 3, 2], [2, 3, 0, 1], [1, 3, 0, 2], [2, 0, 3, 1]];

    for order in orders {
        let mut tags = TagSet::new();
        for i in order {
            tags.insert(pairs[i].0.to_string(), pairs[i].1.to_string());
        }
        assert_eq!(tags.id(), "az=b,host=123,rack=17,region=us-west");
    }
}

#[test]
fn id_sorts_the_pairs_as_texts() {
    let mut tags = TagSet::new();

    tags.insert("a".to_string(), "y".to_string());
    tags.insert("a-".to_string(), "x".to_string());
    tags.insert("B".to_string(), "z".to_string());
    tags.insert("ab".to_string(), "w".to_string());

    // '-' comes before '=', and upper case before lower case.
    assert_eq!(tags.id(), "B=z,a-=x,a=y,ab=w");
}

#[test]
fn id_orders_by_code_point() {
    let mut tags = TagSet::new();

    tags.insert("\u{e9}".to_string(), "1".to_string());
    tags.insert("z".to_string(), "2".to_string());
    tags.insert("\u{1f600}".to_string(), "3".to_string());
    tags.insert("\u{ff5e}".to_string(), "4".to_string());

    assert_eq!(tags.id(), "z=2,\u{e9}=1,\u{ff5e}=4,\u{1f600}=3");
}

#[test]
fn id_of_one_pair_has_no_comma() {
    let mut tags = TagSet::new();

    tags.insert("host".to_string(), "".to_string());

    assert_eq!(tags.id(), "host=");
}

#[test]
fn insert_replaces_the_value_of_a_key() {
    let mut tags = TagSet::new();

    assert_eq!(tags.insert("a".to_string(), "1".to_string()), None);
    assert_eq!(tags.insert("b".to_string(), "2".to_string()), None);
    assert_eq!(tags.insert("a".to_string(), "3".to_string()), Some("1".to_string()));

    assert_eq!(tags.len(), 2);
    assert_eq!(tags.get("a").unwrap(), "3");
    assert_eq!(tags.get("b").unwrap(), "2");
    assert_eq!(tags.get("c"), None);
    assert_eq!(tags.id(), "a=3,b=2");
}

#[test]
fn parse_tag_set_keeps_the_later_of_two_values() {
    let tags = TagSet::parse(r#""a" = "1", "b" = "2", "a" = "3""#).unwrap();

    assert_eq!(tags.len(), 2);
    assert_eq!(tags.get("a").unwrap(), "3");
    assert_eq!(tags.id(), "a=3,b=2");
}

#[test]
fn parse_tag_set_takes_blanks_or_none_between_tokens() {
    let tags = TagSet::parse(r#""a"="A","b"="B""#).unwrap();

    assert_eq!(tags.id(), "a=A,b=B");

    let tags = TagSet::parse("  \"a\"\t=\n\"A\" ,\r\n \"b\" = \"B\"  ").unwrap();

    assert_eq!(tags.id(), "a=A,b=B");
}

#[test]
fn parse_tag_set_keeps_the_text_between_the_quotes() {
    let tags = TagSet::parse(r#""a key" = " , = ", "" = """#).unwrap();

    assert_eq!(tags.len(), 2);
    assert_eq!(tags.get("a key").unwrap(), " , = ");
    assert_eq!(tags.get("").unwrap(), "");
}

#[test]
fn parse_tag_set_rejects_what_is_no_tag_set() {
    assert!(TagSet::parse("").is_err());
    assert!(TagSet::parse("  ").is_err());
    assert!(TagSet::parse(r#""a""#).is_err());
    assert!(TagSet::parse(r#""a" ="#).is_err());
    assert!(TagSet::parse(r#""a" == "A""#).is_err());
    assert!(TagSet::parse(r#"a = "A""#).is_err());
    assert!(TagSet::parse(r#""a" = A"#).is_err());
    assert!(TagSet::parse(r#""a" = "A"#).is_err());
    assert!(TagSet::parse(r#""a" = "A","#).is_err());
    assert!(TagSet::parse(r#""a" = "A" "b" = "B""#).is_err());
    assert!(TagSet::parse(r#""a" = "A"; "b" = "B""#).is_err());
    assert!(TagSet::parse(r#", "a" = "A""#).is_err());
    assert!(TagSet::parse(r#""a" = "A", "b""#).is_err());
}
