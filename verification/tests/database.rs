use lib::{
    parse_ternary_query, FieldValue, FilterOp, Row, SortDir, Ternary, TernaryBTreeIndex,
    TernaryHashIndex, TernaryQuery, TernaryTable, TernaryTransaction,
};

#[test]
fn test_ternary_values() {
    assert_eq!(Ternary::Neg.value(), -1);
    assert_eq!(Ternary::Zero.value(), 0);
    assert_eq!(Ternary::Pos.value(), 1);
}

#[test]
fn test_ternary_from_value() {
    assert_eq!(Ternary::from_value(-1), Some(Ternary::Neg));
    assert_eq!(Ternary::from_value(2), None);
}

#[test]
fn test_row_set_get() {
    let mut row = Row::new(1);
    row.set("status", FieldValue::Ternary(Ternary::Pos));
    assert_eq!(row.get("status"), Some(&FieldValue::Ternary(Ternary::Pos)));
    assert_eq!(row.get("missing"), None);
}

#[test]
fn test_table_insert_and_get() {
    let mut table = TernaryTable::new("test");
    let mut row = Row::new(0);
    row.set("val", FieldValue::Ternary(Ternary::Neg));
    let id = table.insert(row);
    assert_eq!(id, 1);
    let fetched = table.get(id).unwrap();
    assert_eq!(fetched.id, id);
}

#[test]
fn test_table_delete() {
    let mut table = TernaryTable::new("test");
    let row = Row::new(0);
    let id = table.insert(row);
    assert!(table.delete(id));
    assert!(!table.delete(id));
    assert!(table.get(id).is_none());
}

#[test]
fn test_table_len_and_empty() {
    let mut table = TernaryTable::new("test");
    assert!(table.is_empty());
    table.insert(Row::new(0));
    assert_eq!(table.len(), 1);
}

#[test]
fn test_hash_index() {
    let mut table = TernaryTable::new("test");
    for t in [Ternary::Pos, Ternary::Neg, Ternary::Pos] {
        let mut row = Row::new(0);
        row.set("status", FieldValue::Ternary(t));
        table.insert(row);
    }
    let mut idx = TernaryHashIndex::new("status");
    idx.build(&table);
    assert_eq!(idx.lookup(Ternary::Pos).len(), 2);
    assert_eq!(idx.lookup(Ternary::Neg).len(), 1);
    assert_eq!(idx.lookup(Ternary::Zero).len(), 0);
}

#[test]
fn test_btree_index_sorted() {
    let mut table = TernaryTable::new("test");
    for t in [Ternary::Pos, Ternary::Neg, Ternary::Zero] {
        let mut row = Row::new(0);
        row.set("level", FieldValue::Ternary(t));
        table.insert(row);
    }
    let mut idx = TernaryBTreeIndex::new("level");
    idx.build(&table);
    let sorted = idx.sorted_ids();
    assert_eq!(sorted.len(), 3);
    // First should be Neg, then Zero, then Pos
}

#[test]
fn test_btree_index_range() {
    let mut table = TernaryTable::new("test");
    for t in [Ternary::Pos, Ternary::Neg, Ternary::Zero, Ternary::Pos] {
        let mut row = Row::new(0);
        row.set("x", FieldValue::Ternary(t));
        table.insert(row);
    }
    let mut idx = TernaryBTreeIndex::new("x");
    idx.build(&table);
    let range = idx.range(Ternary::Neg, Ternary::Zero);
    assert_eq!(range.len(), 2); // Neg + Zero
}

#[test]
fn test_query_filter_eq() {
    let mut table = TernaryTable::new("test");
    for t in [Ternary::Pos, Ternary::Neg, Ternary::Pos] {
        let mut row = Row::new(0);
        row.set("status", FieldValue::Ternary(t));
        table.insert(row);
    }
    let query = TernaryQuery::new(&table).filter("status", FilterOp::Eq(Ternary::Pos));
    let results = query.execute();
    assert_eq!(results.len(), 2);
}

#[test]
fn test_query_filter_gt() {
    let mut table = TernaryTable::new("test");
    for t in [Ternary::Pos, Ternary::Neg, Ternary::Zero] {
        let mut row = Row::new(0);
        row.set("val", FieldValue::Ternary(t));
        table.insert(row);
    }
    let query = TernaryQuery::new(&table).filter("val", FilterOp::Gt(Ternary::Neg));
    let results = query.execute();
    assert_eq!(results.len(), 2); // Zero and Pos
}

#[test]
fn test_query_sort() {
    let mut table = TernaryTable::new("test");
    for t in [Ternary::Pos, Ternary::Neg, Ternary::Zero] {
        let mut row = Row::new(0);
        row.set("val", FieldValue::Ternary(t));
        table.insert(row);
    }
    let query = TernaryQuery::new(&table).sort("val", SortDir::Asc);
    let results = query.execute();
    assert_eq!(results.len(), 3);
}

#[test]
fn test_query_limit() {
    let mut table = TernaryTable::new("test");
    for _ in 0..10 {
        let mut row = Row::new(0);
        row.set("val", FieldValue::Ternary(Ternary::Pos));
        table.insert(row);
    }
    let query = TernaryQuery::new(&table).limit(3);
    let results = query.execute();
    assert_eq!(results.len(), 3);
}

#[test]
fn test_aggregate_count() {
    let mut table = TernaryTable::new("test");
    for t in [Ternary::Pos, Ternary::Neg, Ternary::Pos] {
        let mut row = Row::new(0);
        row.set("x", FieldValue::Ternary(t));
        table.insert(row);
    }
    let query = TernaryQuery::new(&table);
    let counts = query.aggregate_count("x");
    assert_eq!(counts.get(&Ternary::Pos), Some(&2));
    assert_eq!(counts.get(&Ternary::Neg), Some(&1));
}

#[test]
fn test_aggregate_sum() {
    let mut table = TernaryTable::new("test");
    for t in [Ternary::Pos, Ternary::Neg, Ternary::Pos, Ternary::Zero] {
        let mut row = Row::new(0);
        row.set("x", FieldValue::Ternary(t));
        table.insert(row);
    }
    let query = TernaryQuery::new(&table);
    assert_eq!(query.aggregate_sum("x"), 1); // 1 -1 + 1 + 0 = 1
}

#[test]
fn test_transaction_commit() {
    let mut txn = TernaryTransaction::new(1);
    txn.log_insert(1, "test");
    txn.log_insert(2, "test");
    txn.commit();
    assert!(txn.is_committed());
    assert_eq!(txn.op_count(), 2);
}

#[test]
fn test_transaction_rollback_log() {
    let mut txn = TernaryTransaction::new(1);
    txn.log_insert(1, "test");
    txn.log_delete(2, "test");
    txn.log_update(3, "test", "field", FieldValue::Ternary(Ternary::Pos));
    assert_eq!(txn.rollback_log().len(), 3);
    assert!(!txn.is_committed());
}

#[test]
fn test_parse_query_simple() {
    let q = parse_ternary_query("SELECT status FROM sensors WHERE status = pos").unwrap();
    assert_eq!(q.select_field, "status");
    assert_eq!(q.table_name, "sensors");
    assert!(q.filter.is_some());
}

#[test]
fn test_parse_query_no_where() {
    let q = parse_ternary_query("SELECT val FROM data").unwrap();
    assert_eq!(q.select_field, "val");
    assert_eq!(q.table_name, "data");
    assert!(q.filter.is_none());
}

#[test]
fn test_parse_query_invalid() {
    assert!(parse_ternary_query("INVALID").is_err());
    assert!(parse_ternary_query("SELECT x").is_err());
}

#[test]
fn test_field_value_types() {
    let fv1 = FieldValue::Integer(42);
    let fv2 = FieldValue::Text("hello".to_string());
    let fv3 = FieldValue::Null;
    let _fv4 = FieldValue::TernaryArray(vec![Ternary::Pos, Ternary::Neg]);
    assert_eq!(fv1, FieldValue::Integer(42));
    assert_eq!(fv2, FieldValue::Text("hello".to_string()));
    assert_eq!(fv3, FieldValue::Null);
}
