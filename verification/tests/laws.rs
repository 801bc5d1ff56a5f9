use lib::{
    FieldValue, FilterOp, Row, SortDir, Ternary, TernaryBTreeIndex, TernaryHashIndex, TernaryQuery,
    TernaryTable, TernaryTransaction, TxnOp,
};

fn table_with(field: &str, values: &[Ternary]) -> TernaryTable {
    let mut table = TernaryTable::new("t");
    for v in values {
        let mut row = Row::new(0);
        row.set(field, FieldValue::Ternary(*v));
        table.insert(row);
    }
    table
}

#[test]
fn value_round_trip() {
    for t in [Ternary::Neg, Ternary::Zero, Ternary::Pos] {
        assert_eq!(Ternary::from_value(t.value()), Some(t));
    }
    assert_eq!(Ternary::from_value(0), Some(Ternary::Zero));
    assert_eq!(Ternary::from_value(1), Some(Ternary::Pos));
    assert_eq!(Ternary::from_value(-2), None);
    assert_eq!(Ternary::from_value(i8::MIN), None);
}

#[test]
fn get_after_set_keeps_other_fields() {
    let mut row = Row::new(7);
    row.set("a", FieldValue::Integer(1));
    row.set("b", FieldValue::Text("x".to_string()));
    row.set("a", FieldValue::Null);
    assert_eq!(row.get("a"), Some(&FieldValue::Null));
    assert_eq!(row.get("b"), Some(&FieldValue::Text("x".to_string())));
    assert_eq!(row.fields.len(), 2);
    assert_eq!(row.id, 7);
}

#[test]
fn get_after_insert_returns_row_with_assigned_id() {
    let mut table = TernaryTable::new("t");
    let mut row = Row::new(99);
    row.set("v", FieldValue::Integer(5));
    let id = table.insert(row);
    assert_eq!(id, 1);
    let fetched = table.get(id).unwrap();
    assert_eq!(fetched.id, 1);
    assert_eq!(fetched.get("v"), Some(&FieldValue::Integer(5)));
    assert_eq!(table.len(), 1);
    assert!(table.get(2).is_none());
}

#[test]
fn ids_increase_and_are_never_reused() {
    let mut table = TernaryTable::new("t");
    let a = table.insert(Row::new(0));
    let b = table.insert(Row::new(0));
    assert_eq!((a, b), (1, 2));
    assert!(table.delete(b));
    let c = table.insert(Row::new(0));
    assert_eq!(c, 3);
    assert_eq!(table.len(), 2);
}

#[test]
fn delete_twice_reports_once() {
    let mut table = table_with("x", &[Ternary::Pos, Ternary::Neg]);
    assert!(table.delete(1));
    assert!(!table.delete(1));
    assert!(table.get(1).is_none());
    assert!(table.get(2).is_some());
    assert_eq!(table.len(), 1);
    assert!(!table.is_empty());
    assert!(table.delete(2));
    assert!(table.is_empty());
}

#[test]
fn get_mut_changes_only_that_row() {
    let mut table = table_with("x", &[Ternary::Pos, Ternary::Neg]);
    {
        let row = table.get_mut(2).unwrap();
        row.set("x", FieldValue::Ternary(Ternary::Zero));
    }
    assert_eq!(table.get(2).unwrap().get("x"), Some(&FieldValue::Ternary(Ternary::Zero)));
    assert_eq!(table.get(1).unwrap().get("x"), Some(&FieldValue::Ternary(Ternary::Pos)));
    assert!(table.get_mut(3).is_none());
}

#[test]
fn rows_come_in_id_order() {
    let table = table_with("x", &[Ternary::Pos, Ternary::Neg, Ternary::Zero]);
    let ids: Vec<u64> = table.rows().iter().map(|r| r.id).collect();
    assert_eq!(ids, vec![1, 2, 3]);
    let scanned: Vec<u64> = table.scan_all().iter().map(|r| r.id).collect();
    assert_eq!(scanned, ids);
}

#[test]
fn indexes_agree_with_each_other_and_with_counts() {
    let table = table_with("x", &[Ternary::Pos, Ternary::Neg, Ternary::Zero, Ternary::Pos]);
    let mut hash = TernaryHashIndex::new("x");
    hash.build(&table);
    let mut btree = TernaryBTreeIndex::new("x");
    btree.build(&table);
    let counts = TernaryQuery::new(&table).aggregate_count("x");
    for t in [Ternary::Neg, Ternary::Zero, Ternary::Pos] {
        assert_eq!(hash.lookup(t).to_vec(), btree.range(t, t));
        assert_eq!(counts.get(&t).copied().unwrap_or(0), hash.lookup(t).len());
    }
    assert_eq!(hash.lookup(Ternary::Pos), &[1, 4]);
    assert_eq!(btree.sorted_ids(), vec![2, 3, 1, 4]);
    assert_eq!(btree.range(Ternary::Neg, Ternary::Pos), btree.sorted_ids());
    assert_eq!(btree.range(Ternary::Zero, Ternary::Pos), vec![3, 1, 4]);
    assert_eq!(btree.range(Ternary::Pos, Ternary::Neg), Vec::<u64>::new());
}

#[test]
fn rebuilding_an_index_replaces_its_contents() {
    let mut table = table_with("x", &[Ternary::Pos, Ternary::Pos]);
    let mut hash = TernaryHashIndex::new("x");
    hash.build(&table);
    assert_eq!(hash.lookup(Ternary::Pos).len(), 2);
    table.delete(1);
    hash.build(&table);
    assert_eq!(hash.lookup(Ternary::Pos), &[2]);
    assert_eq!(hash.field, "x");
}

#[test]
fn index_skips_rows_without_a_ternary_value() {
    let mut table = table_with("x", &[Ternary::Neg]);
    let mut row = Row::new(0);
    row.set("x", FieldValue::Integer(1));
    table.insert(row);
    table.insert(Row::new(0));
    let mut hash = TernaryHashIndex::new("x");
    hash.build(&table);
    assert_eq!(hash.lookup(Ternary::Neg), &[1]);
    assert_eq!(hash.lookup(Ternary::Pos).len(), 0);
}

#[test]
fn sum_is_pos_count_minus_neg_count() {
    let table = table_with(
        "x",
        &[Ternary::Pos, Ternary::Neg, Ternary::Pos, Ternary::Pos, Ternary::Zero, Ternary::Neg],
    );
    let q = TernaryQuery::new(&table);
    let counts = q.aggregate_count("x");
    let pos = *counts.get(&Ternary::Pos).unwrap() as i64;
    let neg = *counts.get(&Ternary::Neg).unwrap() as i64;
    assert_eq!(q.aggregate_sum("x"), pos - neg);
    assert_eq!(q.aggregate_sum("x"), 1);
    assert_eq!(q.aggregate_sum("missing"), 0);
    assert_eq!(counts.get(&Ternary::Zero), Some(&1));
}

#[test]
fn absent_value_has_no_count() {
    let table = table_with("x", &[Ternary::Pos]);
    let counts = TernaryQuery::new(&table).aggregate_count("x");
    assert_eq!(counts.get(&Ternary::Neg), None);
    assert_eq!(counts.get(&Ternary::Zero), None);
    assert_eq!(counts.get(&Ternary::Pos), Some(&1));
}

#[test]
fn plain_query_returns_every_row_in_order() {
    let table = table_with("x", &[Ternary::Zero, Ternary::Pos, Ternary::Neg]);
    let ids: Vec<u64> = TernaryQuery::new(&table).execute().iter().map(|r| r.id).collect();
    assert_eq!(ids, vec![1, 2, 3]);
}

#[test]
fn results_pass_every_filter_and_respect_the_limit() {
    let table = table_with(
        "x",
        &[Ternary::Pos, Ternary::Neg, Ternary::Zero, Ternary::Pos, Ternary::Pos],
    );
    let results = TernaryQuery::new(&table)
        .filter("x", FilterOp::Gte(Ternary::Zero))
        .filter("x", FilterOp::Ne(Ternary::Zero))
        .limit(2)
        .execute();
    let ids: Vec<u64> = results.iter().map(|r| r.id).collect();
    assert_eq!(ids, vec![1, 4]);
    let all = TernaryQuery::new(&table).limit(100).execute();
    assert_eq!(all.len(), 5);
    let none = TernaryQuery::new(&table).limit(0).execute();
    assert!(none.is_empty());
}

#[test]
fn each_filter_operator() {
    let table = table_with("x", &[Ternary::Neg, Ternary::Zero, Ternary::Pos]);
    let ids = |op: FilterOp| -> Vec<u64> {
        TernaryQuery::new(&table).filter("x", op).execute().iter().map(|r| r.id).collect()
    };
    assert_eq!(ids(FilterOp::Eq(Ternary::Zero)), vec![2]);
    assert_eq!(ids(FilterOp::Ne(Ternary::Zero)), vec![1, 3]);
    assert_eq!(ids(FilterOp::Gt(Ternary::Zero)), vec![3]);
    assert_eq!(ids(FilterOp::Lt(Ternary::Zero)), vec![1]);
    assert_eq!(ids(FilterOp::Gte(Ternary::Zero)), vec![2, 3]);
    assert_eq!(ids(FilterOp::Lte(Ternary::Zero)), vec![1, 2]);
}

#[test]
fn integer_fields_filter_on_their_low_byte() {
    let mut table = TernaryTable::new("t");
    for v in [257i64, 1, -1, 255, 1000] {
        let mut row = Row::new(0);
        row.set("n", FieldValue::Integer(v));
        table.insert(row);
    }
    let mut text = Row::new(0);
    text.set("n", FieldValue::Text("1".to_string()));
    table.insert(text);
    let pos: Vec<u64> = TernaryQuery::new(&table)
        .filter("n", FilterOp::Eq(Ternary::Pos))
        .execute()
        .iter()
        .map(|r| r.id)
        .collect();
    // 257 and 1 end in the byte 1; 255 is -1 as an i8; 1000 is -24 as an i8.
    assert_eq!(pos, vec![1, 2]);
    let neg: Vec<u64> = TernaryQuery::new(&table)
        .filter("n", FilterOp::Lt(Ternary::Zero))
        .execute()
        .iter()
        .map(|r| r.id)
        .collect();
    assert_eq!(neg, vec![3, 4, 5]);
}

#[test]
fn sort_is_stable_in_both_directions() {
    let mut table = TernaryTable::new("t");
    let keys: [Option<i64>; 6] = [Some(3), None, Some(-2), Some(3), None, Some(7)];
    for k in keys {
        let mut row = Row::new(0);
        if let Some(v) = k {
            row.set("k", FieldValue::Integer(v));
        }
        table.insert(row);
    }
    let asc: Vec<u64> =
        TernaryQuery::new(&table).sort("k", SortDir::Asc).execute().iter().map(|r| r.id).collect();
    assert_eq!(asc, vec![2, 5, 3, 1, 4, 6]);
    let desc: Vec<u64> =
        TernaryQuery::new(&table).sort("k", SortDir::Desc).execute().iter().map(|r| r.id).collect();
    assert_eq!(desc, vec![6, 1, 4, 3, 2, 5]);
    let top: Vec<u64> = TernaryQuery::new(&table)
        .sort("k", SortDir::Desc)
        .limit(2)
        .execute()
        .iter()
        .map(|r| r.id)
        .collect();
    assert_eq!(top, vec![6, 1]);
}

#[test]
fn sort_mixes_ternary_and_integer_keys() {
    let mut table = table_with("k", &[Ternary::Pos, Ternary::Neg]);
    let mut row = Row::new(0);
    row.set("k", FieldValue::Integer(0));
    table.insert(row);
    let asc: Vec<u64> =
        TernaryQuery::new(&table).sort("k", SortDir::Asc).execute().iter().map(|r| r.id).collect();
    assert_eq!(asc, vec![2, 3, 1]);
}

#[test]
fn later_sort_and_limit_replace_earlier_ones() {
    let table = table_with("x", &[Ternary::Neg, Ternary::Pos, Ternary::Zero]);
    let ids: Vec<u64> = TernaryQuery::new(&table)
        .sort("x", SortDir::Asc)
        .sort("x", SortDir::Desc)
        .limit(1)
        .limit(2)
        .execute()
        .iter()
        .map(|r| r.id)
        .collect();
    assert_eq!(ids, vec![2, 3]);
}

#[test]
fn log_counts_and_commit_keeps_the_log() {
    let mut txn = TernaryTransaction::new(9);
    assert_eq!(txn.op_count(), 0);
    txn.log_insert(1, "a");
    txn.log_update(1, "a", "f", FieldValue::Integer(3));
    assert_eq!(txn.op_count(), txn.rollback_log().len());
    txn.commit();
    assert!(txn.is_committed());
    assert_eq!(txn.op_count(), 2);
    txn.log_delete(1, "a");
    assert_eq!(txn.op_count(), 3);
    assert_eq!(txn.id, 9);
    match &txn.rollback_log()[1] {
        TxnOp::Update(id, table, field, value) => {
            assert_eq!(*id, 1);
            assert_eq!(table, "a");
            assert_eq!(field, "f");
            assert_eq!(value, &FieldValue::Integer(3));
        },
        other => panic!("unexpected entry {:?}", other),
    }
    assert!(matches!(&txn.rollback_log()[2], TxnOp::Delete(1, t) if t == "a"));
    assert!(matches!(&txn.rollback_log()[0], TxnOp::Insert(1, t) if t == "a"));
}

#[test]
fn set_grows_fields_only_for_new_names() {
    let mut row = Row::new(0);
    row.set("a", FieldValue::Integer(1));
    assert_eq!(row.fields.len(), 1);
    row.set("b", FieldValue::Integer(2));
    assert_eq!(row.fields.len(), 2);
    row.set("a", FieldValue::Integer(3));
    assert_eq!(row.fields.len(), 2);
    assert_eq!(row.get("a"), Some(&FieldValue::Integer(3)));
}

#[test]
fn counts_list_their_non_zero_entries() {
    let table = table_with("x", &[Ternary::Pos, Ternary::Neg, Ternary::Pos]);
    let counts = TernaryQuery::new(&table).aggregate_count("x");
    assert_eq!(counts.len(), 2);
    assert!(!counts.is_empty());
    assert_eq!(counts.entries(), vec![(Ternary::Neg, 1), (Ternary::Pos, 2)]);
    let empty = TernaryQuery::new(&table).aggregate_count("missing");
    assert_eq!(empty.len(), 0);
    assert!(empty.is_empty());
    assert!(empty.entries().is_empty());
}

#[test]
fn ids_over_a_history_of_calls() {
    let mut table = TernaryTable::new("t");
    let mut seen = Vec::new();
    for k in 0..6u64 {
        let mut row = Row::new(100);
        row.set("k", FieldValue::Integer(k as i64));
        let id = table.insert(row);
        seen.push(id);
        if k % 2 == 0 {
            assert!(table.delete(id));
        }
    }
    assert_eq!(seen, vec![1, 2, 3, 4, 5, 6]);
    let live: Vec<u64> = table.rows().iter().map(|r| r.id).collect();
    assert_eq!(live, vec![2, 4, 6]);
    assert_eq!(table.get(4).unwrap().get("k"), Some(&FieldValue::Integer(3)));
    assert!(table.get(3).is_none());
    assert_eq!(table.insert(Row::new(0)), 7);
}

#[test]
fn filters_commute() {
    let table = table_with("x", &[Ternary::Pos, Ternary::Neg, Ternary::Zero, Ternary::Pos]);
    let a: Vec<u64> = TernaryQuery::new(&table)
        .filter("x", FilterOp::Gte(Ternary::Zero))
        .filter("x", FilterOp::Ne(Ternary::Zero))
        .execute()
        .iter()
        .map(|r| r.id)
        .collect();
    let b: Vec<u64> = TernaryQuery::new(&table)
        .filter("x", FilterOp::Ne(Ternary::Zero))
        .filter("x", FilterOp::Gte(Ternary::Zero))
        .execute()
        .iter()
        .map(|r| r.id)
        .collect();
    assert_eq!(a, b);
    assert_eq!(a, vec![1, 4]);
}
