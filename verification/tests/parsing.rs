use lib::text::is_whitespace_char;
use lib::{parse_ternary_query, FilterOp, Ternary};

fn err(sql: &str) -> String {
    match parse_ternary_query(sql) {
        Ok(_) => panic!("expected an error for {:?}", sql),
        Err(e) => e,
    }
}

#[test]
fn parse_with_filter() {
    let q = parse_ternary_query("SELECT status FROM sensors WHERE status = pos").unwrap();
    assert_eq!(q.select_field, "status");
    assert_eq!(q.table_name, "sensors");
    match q.filter {
        Some((field, FilterOp::Eq(Ternary::Pos))) => assert_eq!(field, "status"),
        other => panic!("unexpected filter {:?}", other),
    }
}

#[test]
fn keywords_in_any_case_and_surrounding_space() {
    let q = parse_ternary_query("  select a fRoM readings wHeRe b <= -1  ").unwrap();
    assert_eq!(q.select_field, "a");
    assert_eq!(q.table_name, "readings");
    assert!(matches!(q.filter, Some((ref f, FilterOp::Lte(Ternary::Neg))) if f == "b"));
}

#[test]
fn every_operator_and_value_spelling() {
    let cases: [(&str, &str); 6] =
        [("=", "0"), ("!=", "zero"), (">", "ZERO"), ("<", "'1'"), (">=", "NEG"), ("<=", "POS")];
    for (op, val) in cases {
        let sql = format!("SELECT a FROM t WHERE a {} {}", op, val);
        let q = parse_ternary_query(&sql).unwrap();
        let (_, fop) = q.filter.unwrap();
        let ok = match (op, fop) {
            ("=", FilterOp::Eq(Ternary::Zero)) => true,
            ("!=", FilterOp::Ne(Ternary::Zero)) => true,
            (">", FilterOp::Gt(Ternary::Zero)) => true,
            ("<", FilterOp::Lt(Ternary::Pos)) => true,
            (">=", FilterOp::Gte(Ternary::Neg)) => true,
            ("<=", FilterOp::Lte(Ternary::Pos)) => true,
            _ => false,
        };
        assert!(ok, "{}", sql);
    }
}

#[test]
fn where_with_too_few_words_has_no_filter() {
    let q = parse_ternary_query("SELECT a FROM t WHERE a =").unwrap();
    assert_eq!(q.table_name, "t");
    assert!(q.filter.is_none());
}

#[test]
fn table_name_is_first_word_after_from() {
    let q = parse_ternary_query("SELECT a FROM t extra words").unwrap();
    assert_eq!(q.table_name, "t");
    assert!(q.filter.is_none());
}

#[test]
fn error_not_select() {
    assert_eq!(err("INSERT a FROM t"), "Query must start with SELECT");
    assert_eq!(err(""), "Query must start with SELECT");
}

#[test]
fn error_incomplete() {
    assert_eq!(err("SELECT x"), "Incomplete query");
    assert_eq!(err("SELECT a FROM   "), "Incomplete query");
}

#[test]
fn error_missing_from() {
    assert_eq!(err("SELECT a b c"), "Missing FROM");
}

#[test]
fn error_missing_table_name() {
    assert_eq!(err("SELECT a b FROM"), "Missing table name");
    assert_eq!(err("SELECT a b fromx"), "Missing FROM");
}

#[test]
fn error_invalid_value() {
    assert_eq!(err("SELECT a FROM t WHERE a = maybe"), "Invalid ternary value: maybe");
    assert_eq!(err("SELECT a FROM t WHERE a ~ Pos"), "Invalid ternary value: Pos");
}

#[test]
fn error_unknown_operator() {
    assert_eq!(err("SELECT a FROM t WHERE a ~ pos"), "Unknown operator: ~");
}

#[test]
fn selected_field_is_the_second_word() {
    let q = parse_ternary_query("SELECT  a\tFROM t").unwrap();
    assert_eq!(q.select_field, "a");
    assert_eq!(q.table_name, "t");
}

#[test]
fn keywords_are_whole_words() {
    let q = parse_ternary_query("SELECT from FROM t").unwrap();
    assert_eq!(q.select_field, "from");
    assert_eq!(q.table_name, "t");
    let q = parse_ternary_query("SELECT fromage FROM t").unwrap();
    assert_eq!(q.select_field, "fromage");
    assert_eq!(q.table_name, "t");
    let q = parse_ternary_query("SELECT a FROM somewhere WHERE a = 1").unwrap();
    assert_eq!(q.table_name, "somewhere");
    assert!(matches!(q.filter, Some((ref f, FilterOp::Eq(Ternary::Pos))) if f == "a"));
    let q = parse_ternary_query("SELECT a FROM where WHERE where > neg").unwrap();
    assert_eq!(q.table_name, "where");
    assert!(matches!(q.filter, Some((ref f, FilterOp::Gt(Ternary::Neg))) if f == "where"));
    let q = parse_ternary_query("SELECT x FROM nowhere").unwrap();
    assert_eq!(q.table_name, "nowhere");
    assert!(q.filter.is_none());
}

#[test]
fn non_ascii_text_parses_by_words() {
    let q = parse_ternary_query("SELECT a \u{130}b FROM t").unwrap();
    assert_eq!(q.select_field, "a");
    assert_eq!(q.table_name, "t");
    let q = parse_ternary_query("SELECT \u{e9}t\u{e9} FROM \u{2003}caf\u{e9}").unwrap();
    assert_eq!(q.select_field, "\u{e9}t\u{e9}");
    assert_eq!(q.table_name, "caf\u{e9}");
}

#[test]
fn whitespace_matches_std() {
    for u in 0u32..=0x10FFFF {
        if let Some(c) = char::from_u32(u) {
            assert_eq!(is_whitespace_char(c), c.is_whitespace(), "U+{:04X}", u);
        }
    }
}
