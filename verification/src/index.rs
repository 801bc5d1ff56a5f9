use vstd::prelude::*;

use crate::row::{ternary_field, Row};
use crate::table::TernaryTable;
use crate::ternary::{ternary_int, FieldValue, Ternary};

verus! {

broadcast use vstd::string::to_string_from_display_ensures_for_str;

/// The ids (each row's own `id`) of the rows, in their order, whose field
/// holds the ternary value `t`.
pub open spec fn ids_with(rows: Seq<Row>, field: Seq<char>, t: Ternary) -> Seq<u64>
    decreases rows.len(),
{
    if rows.len() == 0 {
        Seq::empty()
    } else {
        let prev = ids_with(rows.drop_last(), field, t);
        if ternary_field(rows.last(), field) == Some(t) {
            prev.push(rows.last().id)
        } else {
            prev
        }
    }
}

/// The abstract state of an index: the field it indexes and, for each
/// ternary value, the row ids filed under it.
pub struct IndexView {
    pub field: Seq<char>,
    pub neg: Seq<u64>,
    pub zero: Seq<u64>,
    pub pos: Seq<u64>,
}

impl IndexView {
    pub open spec fn bucket(self, t: Ternary) -> Seq<u64> {
        match t {
            Ternary::Neg => self.neg,
            Ternary::Zero => self.zero,
            Ternary::Pos => self.pos,
        }
    }

    /// The buckets hold what building from `rows` on this field files.
    pub open spec fn built_from(self, rows: Seq<Row>) -> bool {
        forall|t: Ternary| #[trigger] self.bucket(t) == ids_with(rows, self.field, t)
    }
}

/// Files the ids of a table's rows by the ternary value of `field`.
fn bucket_ids(table: &TernaryTable, field: &str) -> (r: (Vec<u64>, Vec<u64>, Vec<u64>))
    ensures
        r.0@ == ids_with(table@.rows, field@, Ternary::Neg),
        r.1@ == ids_with(table@.rows, field@, Ternary::Zero),
        r.2@ == ids_with(table@.rows, field@, Ternary::Pos),
{
    let rows = table.rows();
    let ghost all = table@.rows;
    let mut neg: Vec<u64> = Vec::new();
    let mut zero: Vec<u64> = Vec::new();
    let mut pos: Vec<u64> = Vec::new();
    let mut i: usize = 0;
    while i < rows.len()
        invariant
            rows@.len() == all.len(),
            forall|j: int| 0 <= j < rows@.len() ==> *#[trigger] rows@[j] == all[j],
            i <= all.len(),
            neg@ == ids_with(all.take(i as int), field@, Ternary::Neg),
            zero@ == ids_with(all.take(i as int), field@, Ternary::Zero),
            pos@ == ids_with(all.take(i as int), field@, Ternary::Pos),
        decreases all.len() - i,
    {
        let row = rows[i];
        proof {
            assert(all.take(i + 1).drop_last() =~= all.take(i as int));
            assert(all.take(i + 1).last() == *row);
        }
        match row.get(field) {
            Some(FieldValue::Ternary(t)) => match t {
                Ternary::Neg => neg.push(row.id),
                Ternary::Zero => zero.push(row.id),
                Ternary::Pos => pos.push(row.id),
            },
            _ => {},
        }
        i = i + 1;
    }
    proof {
        assert(all.take(all.len() as int) =~= all);
    }
    (neg, zero, pos)
}

/// Appends the entries of `src` to `dst`.
fn append_ids(dst: &mut Vec<u64>, src: &Vec<u64>)
    ensures
        final(dst)@ == old(dst)@ + src@,
{
    let mut i: usize = 0;
    while i < src.len()
        invariant
            i <= src@.len(),
            dst@ == old(dst)@ + src@.take(i as int),
        decreases src@.len() - i,
    {
        dst.push(src[i]);
        i = i + 1;
        proof {
            assert(old(dst)@ + src@.take(i as int) =~= (old(dst)@ + src@.take(i - 1)).push(src@[i - 1]));
        }
    }
    proof {
        assert(src@.take(src@.len() as int) =~= src@);
    }
}

/// A hash index: the ids of a table's rows filed by the ternary value of one
/// field, for exact lookups.
pub struct TernaryHashIndex {
    pub field: String,
    neg: Vec<u64>,
    zero: Vec<u64>,
    pos: Vec<u64>,
}

impl View for TernaryHashIndex {
    type V = IndexView;

    closed spec fn view(&self) -> IndexView {
        IndexView { field: self.field@, neg: self.neg@, zero: self.zero@, pos: self.pos@ }
    }
}

impl TernaryHashIndex {
    pub fn new(field: &str) -> (r: Self)
        ensures
            r@.field == field@,
            forall|t: Ternary| #[trigger] r@.bucket(t) == Seq::<u64>::empty(),
    {
        TernaryHashIndex { field: field.to_string(), neg: Vec::new(), zero: Vec::new(), pos: Vec::new() }
    }

    /// Replaces the index's contents with the ids of `table`'s rows, in the
    /// table's order, filed by the ternary value of the indexed field.
    pub fn build(&mut self, table: &TernaryTable)
        ensures
            final(self)@.field == old(self)@.field,
            final(self)@.built_from(table@.rows),
    {
        let (neg, zero, pos) = bucket_ids(table, self.field.as_str());
        self.neg = neg;
        self.zero = zero;
        self.pos = pos;
    }

    /// The ids filed under `key`.
    pub fn lookup(&self, key: Ternary) -> (r: &[u64])
        ensures
            r@ == self@.bucket(key),
    {
        match key {
            Ternary::Neg => self.neg.as_slice(),
            Ternary::Zero => self.zero.as_slice(),
            Ternary::Pos => self.pos.as_slice(),
        }
    }
}

/// A partitioned index over the three ternary values, for range queries and
/// traversal in key order.
pub struct TernaryBTreeIndex {
    pub field: String,
    neg_ids: Vec<u64>,
    zero_ids: Vec<u64>,
    pos_ids: Vec<u64>,
}

impl View for TernaryBTreeIndex {
    type V = IndexView;

    closed spec fn view(&self) -> IndexView {
        IndexView { field: self.field@, neg: self.neg_ids@, zero: self.zero_ids@, pos: self.pos_ids@ }
    }
}

/// The bucket of `t` if `t` lies in `[min, max]`, else nothing.
pub open spec fn bucket_in_range(v: IndexView, t: Ternary, min: Ternary, max: Ternary) -> Seq<u64> {
    if ternary_int(min) <= ternary_int(t) <= ternary_int(max) {
        v.bucket(t)
    } else {
        Seq::empty()
    }
}

impl TernaryBTreeIndex {
    pub fn new(field: &str) -> (r: Self)
        ensures
            r@.field == field@,
            forall|t: Ternary| #[trigger] r@.bucket(t) == Seq::<u64>::empty(),
    {
        TernaryBTreeIndex {
            field: field.to_string(),
            neg_ids: Vec::new(),
            zero_ids: Vec::new(),
            pos_ids: Vec::new(),
        }
    }

    /// Replaces the index's contents with the ids of `table`'s rows, in the
    /// table's order, filed by the ternary value of the indexed field.
    pub fn build(&mut self, table: &TernaryTable)
        ensures
            final(self)@.field == old(self)@.field,
            final(self)@.built_from(table@.rows),
    {
        let (neg, zero, pos) = bucket_ids(table, self.field.as_str());
        self.neg_ids = neg;
        self.zero_ids = zero;
        self.pos_ids = pos;
    }

    /// Row ids in ascending order of key: those under Neg, then Zero, then Pos.
    pub fn sorted_ids(&self) -> (r: Vec<u64>)
        ensures
            r@ == self@.neg + self@.zero + self@.pos,
            r@ == self@.bucket(Ternary::Neg) + self@.bucket(Ternary::Zero) + self@.bucket(Ternary::Pos),
    {
        let mut result: Vec<u64> = Vec::new();
        append_ids(&mut result, &self.neg_ids);
        append_ids(&mut result, &self.zero_ids);
        append_ids(&mut result, &self.pos_ids);
        proof {
            assert(Seq::<u64>::empty() + self@.neg =~= self@.neg);
        }
        result
    }

    /// Row ids whose key lies in `[min, max]`, in ascending order of key.
    pub fn range(&self, min: Ternary, max: Ternary) -> (r: Vec<u64>)
        ensures
            r@ == (if min == Ternary::Neg {
                self@.bucket(Ternary::Neg)
            } else {
                Seq::<u64>::empty()
            }) + (if min != Ternary::Pos && max != Ternary::Neg {
                self@.bucket(Ternary::Zero)
            } else {
                Seq::<u64>::empty()
            }) + (if max == Ternary::Pos {
                self@.bucket(Ternary::Pos)
            } else {
                Seq::<u64>::empty()
            }),
            r@ == bucket_in_range(self@, Ternary::Neg, min, max) + bucket_in_range(
                self@,
                Ternary::Zero,
                min,
                max,
            ) + bucket_in_range(self@, Ternary::Pos, min, max),
    {
        let mut result: Vec<u64> = Vec::new();
        let min_v = min.value();
        let max_v = max.value();
        if min_v <= -1 && max_v >= -1 {
            append_ids(&mut result, &self.neg_ids);
        }
        let ghost after_neg = result@;
        if min_v <= 0 && max_v >= 0 {
            append_ids(&mut result, &self.zero_ids);
        }
        let ghost after_zero = result@;
        if min_v <= 1 && max_v >= 1 {
            append_ids(&mut result, &self.pos_ids);
        }
        proof {
            let a = bucket_in_range(self@, Ternary::Neg, min, max);
            let b = bucket_in_range(self@, Ternary::Zero, min, max);
            let c = bucket_in_range(self@, Ternary::Pos, min, max);
            assert(after_neg =~= a);
            assert(after_zero =~= a + b);
            assert(result@ =~= a + b + c);
            law_range_by_values(self@, min, max);
        }
        result
    }
}


/// Every id filed under a value is the id of a row, at or before the same
/// position, that holds the value in the field.
proof fn lemma_ids_with_members(rows: Seq<Row>, field: Seq<char>, t: Ternary)
    ensures
        ids_with(rows, field, t).len() <= rows.len(),
        forall|i: int|
            #![trigger ids_with(rows, field, t)[i]]
            0 <= i < ids_with(rows, field, t).len() ==> exists|j: int|
                #![trigger rows[j]]
                0 <= j < rows.len() && rows[j].id == ids_with(rows, field, t)[i] && ternary_field(
                    rows[j],
                    field,
                ) == Some(t),
    decreases rows.len(),
{
    if rows.len() > 0 {
        let prev = rows.drop_last();
        let cur = ids_with(rows, field, t);
        let old_ids = ids_with(prev, field, t);
        lemma_ids_with_members(prev, field, t);
        assert forall|i: int| #![trigger cur[i]] 0 <= i < cur.len() implies exists|j: int|
            #![trigger rows[j]]
            0 <= j < rows.len() && rows[j].id == cur[i] && ternary_field(rows[j], field) == Some(t) by {
            if i < old_ids.len() {
                assert(cur[i] == old_ids[i]);
                let j = choose|j: int|
                    #![trigger prev[j]]
                    0 <= j < prev.len() && prev[j].id == old_ids[i] && ternary_field(prev[j], field)
                        == Some(t);
                assert(rows[j] == prev[j]);
            } else {
                let j = rows.len() - 1;
                assert(rows[j] == rows.last());
            }
        }
    }
}

/// Every id an index files under a value belongs to a row of the table that
/// holds that value in the indexed field.
pub proof fn law_bucket_ids_hold_value(idx: IndexView, rows: Seq<Row>, t: Ternary)
    requires
        idx.built_from(rows),
    ensures
        idx.bucket(t).len() <= rows.len(),
        forall|i: int|
            #![trigger idx.bucket(t)[i]]
            0 <= i < idx.bucket(t).len() ==> exists|j: int|
                #![trigger rows[j]]
                0 <= j < rows.len() && rows[j].id == idx.bucket(t)[i] && ternary_field(rows[j], idx.field)
                    == Some(t),
{
    assert(idx.bucket(t) == ids_with(rows, idx.field, t));
    lemma_ids_with_members(rows, idx.field, t);
}

/// A hash index and a B-tree index built from the same rows on the same field
/// file the same ids under each value.
pub proof fn law_indexes_agree(hash: IndexView, btree: IndexView, rows: Seq<Row>, t: Ternary)
    requires
        hash.built_from(rows),
        btree.built_from(rows),
        hash.field == btree.field,
    ensures
        hash.bucket(t) == btree.bucket(t),
{
    assert(hash.bucket(t) == ids_with(rows, hash.field, t));
    assert(btree.bucket(t) == ids_with(rows, btree.field, t));
}

/// The full range `[Neg, Pos]` selects every bucket, so `range(Neg, Pos)`
/// equals `sorted_ids()`.
pub proof fn law_full_range_is_sorted_ids(v: IndexView)
    ensures
        bucket_in_range(v, Ternary::Neg, Ternary::Neg, Ternary::Pos) + bucket_in_range(
            v,
            Ternary::Zero,
            Ternary::Neg,
            Ternary::Pos,
        ) + bucket_in_range(v, Ternary::Pos, Ternary::Neg, Ternary::Pos) == v.neg + v.zero + v.pos,
{
}

/// A range of one value selects exactly that value's bucket, as `lookup` of a
/// hash index on the same rows does.
pub proof fn law_single_range_is_bucket(v: IndexView, t: Ternary, u: Ternary)
    ensures
        bucket_in_range(v, u, t, t) == if u == t {
            v.bucket(t)
        } else {
            Seq::<u64>::empty()
        },
{
}

/// A range whose lower end lies above its upper end selects nothing.
pub proof fn law_reversed_range_is_empty(v: IndexView, min: Ternary, max: Ternary, u: Ternary)
    requires
        ternary_int(min) > ternary_int(max),
    ensures
        bucket_in_range(v, u, min, max) == Seq::<u64>::empty(),
{
}


/// A range query returns, in the order Neg, Zero, Pos, the buckets of the
/// values that lie between its ends in the order Neg < Zero < Pos: Neg's when
/// the range starts at Neg, Zero's when it neither starts at Pos nor ends at
/// Neg, Pos's when it ends at Pos.
pub proof fn law_range_by_values(v: IndexView, min: Ternary, max: Ternary)
    ensures
        bucket_in_range(v, Ternary::Neg, min, max) + bucket_in_range(v, Ternary::Zero, min, max)
            + bucket_in_range(v, Ternary::Pos, min, max) == (if min == Ternary::Neg {
            v.bucket(Ternary::Neg)
        } else {
            Seq::<u64>::empty()
        }) + (if min != Ternary::Pos && max != Ternary::Neg {
            v.bucket(Ternary::Zero)
        } else {
            Seq::<u64>::empty()
        }) + (if max == Ternary::Pos {
            v.bucket(Ternary::Pos)
        } else {
            Seq::<u64>::empty()
        }),
{
}

/// Filing rows with one more row at the end adds that row's id to the bucket
/// of a value exactly when the row's field holds the value; no rows file
/// nothing.
pub proof fn law_bucket_extend(rows: Seq<Row>, f: Seq<char>, t: Ternary, r: Row)
    ensures
        ids_with(Seq::<Row>::empty(), f, t) == Seq::<u64>::empty(),
        ids_with(rows.push(r), f, t) == ids_with(rows, f, t) + if r.field(f) == Some(
            FieldValue::Ternary(t),
        ) {
            seq![r.id]
        } else {
            Seq::<u64>::empty()
        },
{
    assert(rows.push(r).drop_last() =~= rows);
    assert(ids_with(rows, f, t) + Seq::<u64>::empty() =~= ids_with(rows, f, t));
    assert(ids_with(rows, f, t).push(r.id) =~= ids_with(rows, f, t) + seq![r.id]);
}

} // verus!
