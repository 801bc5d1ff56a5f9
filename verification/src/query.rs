use vstd::prelude::*;

use crate::index::{ids_with, IndexView};
use crate::row::{ternary_field, Row};
use crate::table::{TableView, TernaryTable};
use crate::ternary::{ternary_int, FieldValue, Ternary};

verus! {

broadcast use vstd::string::to_string_from_display_ensures_for_str;

/// Filter operator for queries: compares a field with a ternary value.
#[derive(Clone, Debug)]
pub enum FilterOp {
    Eq(Ternary),
    Ne(Ternary),
    Gt(Ternary),
    Lt(Ternary),
    Gte(Ternary),
    Lte(Ternary),
}

/// Sort direction.
#[derive(Clone, Copy, Debug)]
pub enum SortDir {
    Asc,
    Desc,
}

/// Whether `v` stands in the relation `op` to the operator's ternary value.
pub open spec fn op_holds(v: int, op: FilterOp) -> bool {
    match op {
        FilterOp::Eq(t) => v == ternary_int(t),
        FilterOp::Ne(t) => v != ternary_int(t),
        FilterOp::Gt(t) => v > ternary_int(t),
        FilterOp::Lt(t) => v < ternary_int(t),
        FilterOp::Gte(t) => v >= ternary_int(t),
        FilterOp::Lte(t) => v <= ternary_int(t),
    }
}

/// The number a filter compares a row's field as: a ternary value's integer,
/// or an integer field cut down to its low 8 bits as an `i8`; other fields,
/// and a missing field, give none.
pub open spec fn filter_value(r: Row, field: Seq<char>) -> Option<int> {
    match r.field(field) {
        Some(FieldValue::Ternary(t)) => Some(ternary_int(t)),
        Some(FieldValue::Integer(i)) => Some((i as i8) as int),
        _ => None,
    }
}

/// Whether a row passes the filter `op` on `field`.
pub open spec fn row_matches(r: Row, field: Seq<char>, op: FilterOp) -> bool {
    match filter_value(r, field) {
        Some(v) => op_holds(v, op),
        None => false,
    }
}

/// Whether a row passes every filter.
pub open spec fn matches_all(r: Row, filters: Seq<(Seq<char>, FilterOp)>) -> bool {
    forall|i: int| 0 <= i < filters.len() ==> #[trigger] row_matches(r, filters[i].0, filters[i].1)
}

/// The rows, in their order, that pass every filter.
pub open spec fn filter_rows(rows: Seq<Row>, filters: Seq<(Seq<char>, FilterOp)>) -> Seq<Row>
    decreases rows.len(),
{
    if rows.len() == 0 {
        Seq::empty()
    } else {
        let prev = filter_rows(rows.drop_last(), filters);
        if matches_all(rows.last(), filters) {
            prev.push(rows.last())
        } else {
            prev
        }
    }
}

/// The key a row is sorted by: a ternary value's integer or an integer field;
/// other fields, and a missing field, give none.
pub open spec fn sort_key(r: Row, field: Seq<char>) -> Option<i64> {
    match r.field(field) {
        Some(FieldValue::Ternary(t)) => Some(ternary_int(t) as i64),
        Some(FieldValue::Integer(i)) => Some(i),
        _ => None,
    }
}

/// A key's place in ascending order: no key comes before every integer.
pub open spec fn key_rank(k: Option<i64>) -> int {
    match k {
        None => i64::MIN - 1,
        Some(v) => v as int,
    }
}

/// A key's place in the order of the given direction.
pub open spec fn dir_key_rank(k: Option<i64>, dir: SortDir) -> int {
    match dir {
        SortDir::Asc => key_rank(k),
        SortDir::Desc => -key_rank(k),
    }
}

/// A row's place in the order of the given direction.
pub open spec fn dir_rank(r: Row, field: Seq<char>, dir: SortDir) -> int {
    dir_key_rank(sort_key(r, field), dir)
}

/// `output` is `input` rearranged by `perm` (output position to input
/// position) so that rows come in order of key in direction `dir`, and rows
/// with equal keys keep their order in `input`.
pub open spec fn sorts_by(
    input: Seq<Row>,
    output: Seq<Row>,
    perm: Seq<int>,
    field: Seq<char>,
    dir: SortDir,
) -> bool {
    &&& perm.len() == input.len()
    &&& output.len() == input.len()
    &&& forall|i: int| 0 <= i < perm.len() ==> 0 <= #[trigger] perm[i] < input.len()
    &&& forall|i: int| 0 <= i < perm.len() ==> #[trigger] output[i] == input[perm[i]]
    &&& forall|i: int, j: int|
        0 <= i < j < perm.len() ==> dir_rank(#[trigger] output[i], field, dir) < dir_rank(
            #[trigger] output[j],
            field,
            dir,
        ) || (dir_rank(output[i], field, dir) == dir_rank(output[j], field, dir) && perm[i]
            < perm[j])
}

/// `output` is the stable sort of `input` by `field` in direction `dir`.
pub open spec fn is_stable_sort(input: Seq<Row>, output: Seq<Row>, field: Seq<char>, dir: SortDir) -> bool {
    exists|perm: Seq<int>| sorts_by(input, output, perm, field, dir)
}

/// `output` is `input` put in the order a query asks for: as it is without a
/// sort, else its stable sort.
pub open spec fn ordered(input: Seq<Row>, output: Seq<Row>, sort: Option<(Seq<char>, SortDir)>) -> bool {
    match sort {
        None => output == input,
        Some((field, dir)) => is_stable_sort(input, output, field, dir),
    }
}

/// The first `limit` rows, or all of them when there is no limit or fewer.
pub open spec fn limited(rows: Seq<Row>, limit: Option<usize>) -> Seq<Row> {
    match limit {
        Some(n) if n < rows.len() => rows.take(n as int),
        _ => rows,
    }
}

/// The rows that a sequence of references points to.
pub open spec fn derefs(rows: Seq<&Row>) -> Seq<Row> {
    rows.map_values(|r: &Row| *r)
}

/// The ternary values of a field summed over the rows that hold one there.
pub open spec fn ternary_sum(rows: Seq<Row>, field: Seq<char>) -> int
    decreases rows.len(),
{
    if rows.len() == 0 {
        0
    } else {
        ternary_sum(rows.drop_last(), field) + match ternary_field(rows.last(), field) {
            Some(t) => ternary_int(t),
            None => 0,
        }
    }
}

/// The number of rows whose field holds the ternary value `t`.
pub open spec fn ternary_count(rows: Seq<Row>, field: Seq<char>, t: Ternary) -> nat {
    ids_with(rows, field, t).len()
}

/// The abstract state of a query: the table it reads, its filters in the order
/// they were added, the sort it asks for and its limit.
pub struct QueryView {
    pub table: TableView,
    pub filters: Seq<(Seq<char>, FilterOp)>,
    pub sort: Option<(Seq<char>, SortDir)>,
    pub limit: Option<usize>,
}

impl QueryView {
    /// The rows that executing the query gives: the table's rows that pass
    /// every filter, put in the asked order, cut to the limit.
    pub open spec fn results(self, output: Seq<Row>) -> bool {
        exists|s: Seq<Row>|
            ordered(filter_rows(self.table.rows, self.filters), s, self.sort) && output == limited(
                s,
                self.limit,
            )
    }
}

/// Per-value counts of a ternary field; a value that no row holds has no
/// entry.
pub struct TernaryCounts {
    neg: usize,
    zero: usize,
    pos: usize,
}

impl TernaryCounts {
    pub closed spec fn count(self, t: Ternary) -> usize {
        match t {
            Ternary::Neg => self.neg,
            Ternary::Zero => self.zero,
            Ternary::Pos => self.pos,
        }
    }

    /// The entry of `t`: present only when some row holds `t`.
    pub open spec fn entry_of(self, t: Ternary) -> Seq<(Ternary, usize)> {
        if self.count(t) > 0 {
            seq![(t, self.count(t))]
        } else {
            Seq::empty()
        }
    }

    /// The entries with a non-zero count, in the order Neg, Zero, Pos.
    pub open spec fn entry_seq(self) -> Seq<(Ternary, usize)> {
        self.entry_of(Ternary::Neg) + self.entry_of(Ternary::Zero) + self.entry_of(Ternary::Pos)
    }

    /// The count of `key`, if any row holds it.
    pub fn get(&self, key: &Ternary) -> (r: Option<&usize>)
        ensures
            r matches Some(n) ==> *n == self.count(*key) && *n > 0,
            r is None <==> self.count(*key) == 0,
    {
        let n = match key {
            Ternary::Neg => &self.neg,
            Ternary::Zero => &self.zero,
            Ternary::Pos => &self.pos,
        };
        if *n == 0 {
            None
        } else {
            Some(n)
        }
    }

    /// The number of values that some row holds.
    pub fn len(&self) -> (n: usize)
        ensures
            n == self.entry_seq().len(),
    {
        let mut n: usize = 0;
        if self.neg > 0 {
            n = n + 1;
        }
        if self.zero > 0 {
            n = n + 1;
        }
        if self.pos > 0 {
            n = n + 1;
        }
        n
    }

    /// Whether no row holds any value.
    pub fn is_empty(&self) -> (b: bool)
        ensures
            b <==> self.entry_seq().len() == 0,
    {
        self.neg == 0 && self.zero == 0 && self.pos == 0
    }

    /// The values that some row holds, each with its count, in the order Neg,
    /// Zero, Pos.
    pub fn entries(&self) -> (r: Vec<(Ternary, usize)>)
        ensures
            r@ == self.entry_seq(),
    {
        let mut r: Vec<(Ternary, usize)> = Vec::new();
        if self.neg > 0 {
            r.push((Ternary::Neg, self.neg));
        }
        let ghost a = r@;
        if self.zero > 0 {
            r.push((Ternary::Zero, self.zero));
        }
        let ghost b = r@;
        if self.pos > 0 {
            r.push((Ternary::Pos, self.pos));
        }
        proof {
            assert(a =~= self.entry_of(Ternary::Neg));
            assert(b =~= self.entry_of(Ternary::Neg) + self.entry_of(Ternary::Zero));
            assert(r@ =~= self.entry_seq());
        }
        r
    }
}

/// A query over a table, assembled builder-style.
pub struct TernaryQuery<'a> {
    table: &'a TernaryTable,
    filters: Vec<(String, FilterOp)>,
    sort_field: Option<(String, SortDir)>,
    limit: Option<usize>,
}

impl<'a> View for TernaryQuery<'a> {
    type V = QueryView;

    closed spec fn view(&self) -> QueryView {
        QueryView {
            table: self.table@,
            filters: self.filters@.map_values(|f: (String, FilterOp)| (f.0@, f.1)),
            sort: match self.sort_field {
                Some((f, d)) => Some((f@, d)),
                None => None,
            },
            limit: self.limit,
        }
    }
}

/// Inserting the last row of `input` after every row of a sorted prefix whose
/// key does not come after its own, and before the rest, sorts all of `input`.
proof fn lemma_insert_sorted(
    input: Seq<Row>,
    out: Seq<Row>,
    perm: Seq<int>,
    p: int,
    field: Seq<char>,
    dir: SortDir,
)
    requires
        input.len() > 0,
        sorts_by(input.drop_last(), out, perm, field, dir),
        0 <= p <= out.len(),
        forall|q: int|
            0 <= q < p ==> dir_rank(#[trigger] out[q], field, dir) <= dir_rank(input.last(), field, dir),
        forall|q: int|
            p <= q < out.len() ==> dir_rank(#[trigger] out[q], field, dir) > dir_rank(
                input.last(),
                field,
                dir,
            ),
    ensures
        sorts_by(input, out.insert(p, input.last()), perm.insert(p, input.len() - 1), field, dir),
{
    let x = input.last();
    let n = input.len() - 1;
    let out2 = out.insert(p, x);
    let perm2 = perm.insert(p, n);
    let prev = input.drop_last();
    assert forall|i: int| 0 <= i < perm2.len() implies 0 <= #[trigger] perm2[i] < input.len() by {
        if i < p {
            assert(perm2[i] == perm[i]);
        } else if i > p {
            assert(perm2[i] == perm[i - 1]);
        }
    }
    assert forall|i: int| 0 <= i < perm2.len() implies #[trigger] out2[i] == input[perm2[i]] by {
        if i < p {
            assert(out2[i] == out[i]);
            assert(perm2[i] == perm[i]);
            assert(prev[perm[i]] == input[perm[i]]);
        } else if i > p {
            assert(out2[i] == out[i - 1]);
            assert(perm2[i] == perm[i - 1]);
            assert(prev[perm[i - 1]] == input[perm[i - 1]]);
        }
    }
    assert forall|i: int, j: int| 0 <= i < j < perm2.len() implies dir_rank(
        #[trigger] out2[i],
        field,
        dir,
    ) < dir_rank(#[trigger] out2[j], field, dir) || (dir_rank(out2[i], field, dir) == dir_rank(
        out2[j],
        field,
        dir,
    ) && perm2[i] < perm2[j]) by {
        let oi = if i < p { i } else { i - 1 };
        let oj = if j < p { j } else { j - 1 };
        if i != p && j != p {
            assert(out2[i] == out[oi]);
            assert(out2[j] == out[oj]);
            assert(perm2[i] == perm[oi]);
            assert(perm2[j] == perm[oj]);
            assert(dir_rank(out[oi], field, dir) < dir_rank(out[oj], field, dir) || (dir_rank(
                out[oi],
                field,
                dir,
            ) == dir_rank(out[oj], field, dir) && perm[oi] < perm[oj]));
        } else if i == p {
            assert(out2[j] == out[oj]);
            assert(dir_rank(out[oj], field, dir) > dir_rank(x, field, dir));
        } else {
            assert(out2[i] == out[oi]);
            assert(dir_rank(out[oi], field, dir) <= dir_rank(x, field, dir));
            assert(perm2[i] == perm[oi]);
            assert(perm[oi] < prev.len());
        }
    }
}

/// `derefs` commutes with inserting and with appending.
proof fn lemma_derefs_insert(s: Seq<&Row>, p: int, x: &Row)
    requires
        0 <= p <= s.len(),
    ensures
        derefs(s.insert(p, x)) == derefs(s).insert(p, *x),
        derefs(s.push(x)) == derefs(s).push(*x),
{
    assert(derefs(s.insert(p, x)) =~= derefs(s).insert(p, *x));
    assert(derefs(s.push(x)) =~= derefs(s).push(*x));
}

/// The key a row is sorted by.
fn key_of(row: &Row, field: &str) -> (k: Option<i64>)
    ensures
        k == sort_key(*row, field@),
{
    match row.get(field) {
        Some(FieldValue::Ternary(t)) => Some(t.value() as i64),
        Some(FieldValue::Integer(i)) => Some(*i),
        _ => None,
    }
}

/// Whether key `a` comes after key `b` in direction `dir`.
fn comes_after(a: Option<i64>, b: Option<i64>, dir: SortDir) -> (r: bool)
    ensures
        r == (dir_key_rank(a, dir) > dir_key_rank(b, dir)),
{
    let greater = match (a, b) {
        (None, _) => false,
        (Some(_), None) => true,
        (Some(x), Some(y)) => x > y,
    };
    let less = match (a, b) {
        (_, None) => false,
        (None, Some(_)) => true,
        (Some(x), Some(y)) => x < y,
    };
    match dir {
        SortDir::Asc => greater,
        SortDir::Desc => less,
    }
}

/// Stable sort of rows by the key of `field` in direction `dir`.
fn stable_sort<'b>(rows: Vec<&'b Row>, field: &str, dir: SortDir) -> (r: Vec<&'b Row>)
    ensures
        is_stable_sort(derefs(rows@), derefs(r@), field@, dir),
{
    let ghost input = derefs(rows@);
    let mut sorted: Vec<&'b Row> = Vec::new();
    let ghost mut perm: Seq<int> = Seq::empty();
    let mut i: usize = 0;
    proof {
        assert(derefs(sorted@) =~= Seq::<Row>::empty());
        assert(input.take(0) =~= Seq::<Row>::empty());
    }
    while i < rows.len()
        invariant
            i <= rows@.len(),
            input == derefs(rows@),
            sorts_by(input.take(i as int), derefs(sorted@), perm, field@, dir),
        decreases rows@.len() - i,
    {
        let x = rows[i];
        let kx = key_of(x, field);
        let ghost out = derefs(sorted@);
        let mut p: usize = 0;
        while p < sorted.len()
            invariant
                p <= sorted@.len(),
                out == derefs(sorted@),
                kx == sort_key(*x, field@),
                forall|q: int| 0 <= q < p ==> dir_rank(#[trigger] out[q], field@, dir) <= dir_key_rank(kx, dir),
            ensures
                p <= sorted@.len(),
                forall|q: int| 0 <= q < p ==> dir_rank(#[trigger] out[q], field@, dir) <= dir_key_rank(kx, dir),
                p < sorted@.len() ==> dir_rank(out[p as int], field@, dir) > dir_key_rank(kx, dir),
            decreases sorted@.len() - p,
        {
            let kp = key_of(sorted[p], field);
            if comes_after(kp, kx, dir) {
                break;
            }
            p = p + 1;
        }
        proof {
            let t = input.take(i + 1);
            assert(t.drop_last() =~= input.take(i as int));
            assert(t.last() == *x);
            if p < sorted@.len() {
                assert(out[p as int] == *sorted@[p as int]);
                assert forall|q: int| p <= q < out.len() implies dir_rank(#[trigger] out[q], field@, dir)
                    > dir_rank(t.last(), field@, dir) by {
                    if q > p {
                        assert(dir_rank(out[p as int], field@, dir) <= dir_rank(out[q], field@, dir));
                    }
                }
            }
            lemma_insert_sorted(t, out, perm, p as int, field@, dir);
            lemma_derefs_insert(sorted@, p as int, x);
            perm = perm.insert(p as int, i as int);
        }
        sorted.insert(p, x);
        i = i + 1;
    }
    proof {
        assert(input.take(rows@.len() as int) =~= input);
    }
    sorted
}

impl<'a> TernaryQuery<'a> {
    pub fn new(table: &'a TernaryTable) -> (q: Self)
        ensures
            q@.table == table@,
            q@.filters == Seq::<(Seq<char>, FilterOp)>::empty(),
            q@.sort is None,
            q@.limit is None,
    {
        let q = TernaryQuery { table, filters: Vec::new(), sort_field: None, limit: None };
        assert(q@.filters =~= Seq::<(Seq<char>, FilterOp)>::empty());
        q
    }

    /// Adds a filter: rows must also pass `op` on `field`.
    pub fn filter(self, field: &str, op: FilterOp) -> (q: Self)
        ensures
            q@ == (QueryView { filters: self@.filters.push((field@, op)), ..self@ }),
    {
        let mut q = self;
        q.filters.push((field.to_string(), op));
        assert(q@.filters =~= self@.filters.push((field@, op)));
        q
    }

    /// Asks for the results sorted by `field` in direction `dir`, replacing an
    /// earlier sort.
    pub fn sort(self, field: &str, dir: SortDir) -> (q: Self)
        ensures
            q@ == (QueryView { sort: Some((field@, dir)), ..self@ }),
    {
        let mut q = self;
        q.sort_field = Some((field.to_string(), dir));
        q
    }

    /// Asks for at most `n` results, replacing an earlier limit.
    pub fn limit(self, n: usize) -> (q: Self)
        ensures
            q@ == (QueryView { limit: Some(n), ..self@ }),
    {
        let mut q = self;
        q.limit = Some(n);
        q
    }

    fn matches_filter(&self, row: &Row, field: &str, op: &FilterOp) -> (b: bool)
        ensures
            b == row_matches(*row, field@, *op),
    {
        let val: i8 = match row.get(field) {
            Some(FieldValue::Ternary(t)) => t.value(),
            Some(FieldValue::Integer(i)) => *i as i8,
            _ => return false,
        };
        match op {
            FilterOp::Eq(t) => val == t.value(),
            FilterOp::Ne(t) => val != t.value(),
            FilterOp::Gt(t) => val > t.value(),
            FilterOp::Lt(t) => val < t.value(),
            FilterOp::Gte(t) => val >= t.value(),
            FilterOp::Lte(t) => val <= t.value(),
        }
    }

    fn matches_all_filters(&self, row: &Row) -> (b: bool)
        ensures
            b == matches_all(*row, self@.filters),
    {
        let mut i: usize = 0;
        while i < self.filters.len()
            invariant
                i <= self.filters@.len(),
                self@.filters.len() == self.filters@.len(),
                forall|j: int| 0 <= j < i ==> #[trigger] row_matches(*row, self@.filters[j].0, self@.filters[j].1),
            decreases self.filters@.len() - i,
        {
            let (f, op) = (&self.filters[i].0, &self.filters[i].1);
            assert(self@.filters[i as int] == (f@, *op));
            if !self.matches_filter(row, f.as_str(), op) {
                assert(!row_matches(*row, self@.filters[i as int].0, self@.filters[i as int].1));
                return false;
            }
            i = i + 1;
        }
        true
    }

    /// Runs the query: the table's rows (in ascending order of id) that pass
    /// every filter, stably sorted when a sort was asked for, cut to the limit.
    pub fn execute(&self) -> (r: Vec<&'a Row>)
        ensures
            self@.results(derefs(r@)),
    {
        let all = self.table.rows();
        let ghost rows = self@.table.rows;
        let ghost filters = self@.filters;
        let mut results: Vec<&'a Row> = Vec::new();
        let mut i: usize = 0;
        proof {
            assert(derefs(results@) =~= Seq::<Row>::empty());
            assert(rows.take(0) =~= Seq::<Row>::empty());
        }
        while i < all.len()
            invariant
                all@.len() == rows.len(),
                forall|j: int| 0 <= j < all@.len() ==> *#[trigger] all@[j] == rows[j],
                rows == self@.table.rows,
                filters == self@.filters,
                i <= rows.len(),
                derefs(results@) == filter_rows(rows.take(i as int), filters),
            decreases rows.len() - i,
        {
            let row = all[i];
            proof {
                assert(rows.take(i + 1).drop_last() =~= rows.take(i as int));
                assert(rows.take(i + 1).last() == *row);
                lemma_derefs_insert(results@, 0, row);
            }
            if self.matches_all_filters(row) {
                results.push(row);
            }
            i = i + 1;
        }
        proof {
            assert(rows.take(rows.len() as int) =~= rows);
        }
        let ghost filtered = derefs(results@);
        let mut ordered_rows = results;
        match &self.sort_field {
            Some((field, dir)) => {
                ordered_rows = stable_sort(ordered_rows, field.as_str(), *dir);
            },
            None => {},
        }
        let ghost s = derefs(ordered_rows@);
        assert(ordered(filtered, s, self@.sort));
        match self.limit {
            Some(n) => ordered_rows.truncate(n),
            None => {},
        }
        proof {
            assert(derefs(ordered_rows@) =~= limited(s, self@.limit));
        }
        ordered_rows
    }

    /// Per-value counts of the ternary values that `field` holds across the
    /// table's rows.
    pub fn aggregate_count(&self, field: &str) -> (c: TernaryCounts)
        ensures
            forall|t: Ternary| #[trigger] c.count(t) == ternary_count(self@.table.rows, field@, t),
    {
        let all = self.table.rows();
        let ghost rows = self@.table.rows;
        let mut neg: usize = 0;
        let mut zero: usize = 0;
        let mut pos: usize = 0;
        let mut i: usize = 0;
        while i < all.len()
            invariant
                all@.len() == rows.len(),
                forall|j: int| 0 <= j < all@.len() ==> *#[trigger] all@[j] == rows[j],
                i <= rows.len(),
                neg == ternary_count(rows.take(i as int), field@, Ternary::Neg),
                zero == ternary_count(rows.take(i as int), field@, Ternary::Zero),
                pos == ternary_count(rows.take(i as int), field@, Ternary::Pos),
                neg + zero + pos <= i,
            decreases rows.len() - i,
        {
            let row = all[i];
            proof {
                assert(rows.take(i + 1).drop_last() =~= rows.take(i as int));
                assert(rows.take(i + 1).last() == *row);
            }
            match row.get(field) {
                Some(FieldValue::Ternary(t)) => match t {
                    Ternary::Neg => neg = neg + 1,
                    Ternary::Zero => zero = zero + 1,
                    Ternary::Pos => pos = pos + 1,
                },
                _ => {},
            }
            i = i + 1;
        }
        proof {
            assert(rows.take(rows.len() as int) =~= rows);
        }
        TernaryCounts { neg, zero, pos }
    }

    /// The sum of the ternary values that `field` holds across the table's
    /// rows.
    pub fn aggregate_sum(&self, field: &str) -> (total: i64)
        requires
            self@.table.rows.len() <= i64::MAX,
        ensures
            total == ternary_sum(self@.table.rows, field@),
    {
        let all = self.table.rows();
        let ghost rows = self@.table.rows;
        let mut total: i64 = 0;
        let mut i: usize = 0;
        while i < all.len()
            invariant
                all@.len() == rows.len(),
                rows.len() <= i64::MAX,
                forall|j: int| 0 <= j < all@.len() ==> *#[trigger] all@[j] == rows[j],
                i <= rows.len(),
                total == ternary_sum(rows.take(i as int), field@),
                -(i as int) <= total <= i,
            decreases rows.len() - i,
        {
            let row = all[i];
            proof {
                assert(rows.take(i + 1).drop_last() =~= rows.take(i as int));
                assert(rows.take(i + 1).last() == *row);
            }
            match row.get(field) {
                Some(FieldValue::Ternary(t)) => {
                    total = total + t.value() as i64;
                },
                _ => {},
            }
            i = i + 1;
        }
        proof {
            assert(rows.take(rows.len() as int) =~= rows);
        }
        total
    }
}

/// The order `sorts_by` puts input positions in: by key in the given
/// direction, then by position.
pub open spec fn precedes(input: Seq<Row>, a: int, b: int, field: Seq<char>, dir: SortDir) -> bool {
    dir_rank(input[a], field, dir) < dir_rank(input[b], field, dir) || (dir_rank(input[a], field, dir)
        == dir_rank(input[b], field, dir) && a < b)
}

/// A sorting permutation lists every input position exactly once.
proof fn lemma_perm_onto(input: Seq<Row>, out: Seq<Row>, perm: Seq<int>, field: Seq<char>, dir: SortDir)
    requires
        sorts_by(input, out, perm, field, dir),
    ensures
        forall|v: int| 0 <= v < input.len() ==> #[trigger] perm.contains(v),
        forall|i: int, j: int|
            0 <= i < j < perm.len() ==> precedes(input, #[trigger] perm[i], #[trigger] perm[j], field, dir),
{
    let n = input.len() as int;
    assert forall|i: int, j: int| 0 <= i < j < perm.len() implies precedes(
        input,
        #[trigger] perm[i],
        #[trigger] perm[j],
        field,
        dir,
    ) by {
        assert(out[i] == input[perm[i]]);
        assert(out[j] == input[perm[j]]);
    }
    assert(perm.no_duplicates()) by {
        assert forall|i: int, j: int| 0 <= i < perm.len() && 0 <= j < perm.len() && i != j implies perm[i]
            != perm[j] by {
            if i < j {
                assert(precedes(input, perm[i], perm[j], field, dir));
            } else {
                assert(precedes(input, perm[j], perm[i], field, dir));
            }
        }
    }
    perm.unique_seq_to_set();
    vstd::set_lib::lemma_int_range(0, n);
    let range = vstd::set_lib::set_int_range(0, n);
    assert(perm.to_set().subset_of(range));
    assert(perm.to_set().finite()) by {
        broadcast use vstd::seq_lib::seq_to_set_is_finite;
    }
    vstd::set_lib::lemma_subset_equality(perm.to_set(), range);
    assert forall|v: int| 0 <= v < input.len() implies #[trigger] perm.contains(v) by {
        assert(range.contains(v));
        assert(perm.to_set().contains(v));
    }
}

/// Two sorting permutations of the same input agree up to position `k`.
proof fn lemma_perms_agree(
    input: Seq<Row>,
    o1: Seq<Row>,
    p1: Seq<int>,
    o2: Seq<Row>,
    p2: Seq<int>,
    field: Seq<char>,
    dir: SortDir,
    k: int,
)
    requires
        sorts_by(input, o1, p1, field, dir),
        sorts_by(input, o2, p2, field, dir),
        0 <= k < input.len(),
    ensures
        forall|m: int| 0 <= m <= k ==> p1[m] == p2[m],
    decreases k,
{
    if k > 0 {
        lemma_perms_agree(input, o1, p1, o2, p2, field, dir, k - 1);
    }
    lemma_perm_onto(input, o1, p1, field, dir);
    lemma_perm_onto(input, o2, p2, field, dir);
    let a = p1[k];
    let b = p2[k];
    if a != b {
        if precedes(input, a, b, field, dir) {
            assert(p2.contains(a));
            let m = choose|m: int| 0 <= m < p2.len() && p2[m] == a;
            if m < k {
                assert(p1[m] == a);
                assert(precedes(input, p1[m], p1[k], field, dir));
            } else {
                assert(precedes(input, p2[k], p2[m], field, dir));
            }
        } else {
            assert(precedes(input, b, a, field, dir));
            assert(p1.contains(b));
            let m = choose|m: int| 0 <= m < p1.len() && p1[m] == b;
            if m < k {
                assert(p2[m] == b);
                assert(precedes(input, p2[m], p2[k], field, dir));
            } else {
                assert(precedes(input, p1[k], p1[m], field, dir));
            }
        }
    }
}

/// A stable sort is unique: two stable sorts of the same rows by the same
/// key and direction are the same sequence.
pub proof fn law_stable_sort_unique(
    input: Seq<Row>,
    o1: Seq<Row>,
    o2: Seq<Row>,
    field: Seq<char>,
    dir: SortDir,
)
    requires
        is_stable_sort(input, o1, field, dir),
        is_stable_sort(input, o2, field, dir),
    ensures
        o1 == o2,
{
    let p1 = choose|p: Seq<int>| sorts_by(input, o1, p, field, dir);
    let p2 = choose|p: Seq<int>| sorts_by(input, o2, p, field, dir);
    if input.len() > 0 {
        lemma_perms_agree(input, o1, p1, o2, p2, field, dir, input.len() - 1);
        assert forall|i: int| 0 <= i < o1.len() implies o1[i] == o2[i] by {
            assert(o1[i] == input[p1[i]]);
            assert(o2[i] == input[p2[i]]);
        }
    }
    assert(o1 =~= o2);
}

/// A query's result is unique: two sequences that both meet a query are the
/// same.
pub proof fn law_results_unique(q: QueryView, out1: Seq<Row>, out2: Seq<Row>)
    requires
        q.results(out1),
        q.results(out2),
    ensures
        out1 == out2,
{
    let f = filter_rows(q.table.rows, q.filters);
    let s1 = choose|s: Seq<Row>| ordered(f, s, q.sort) && out1 == limited(s, q.limit);
    let s2 = choose|s: Seq<Row>| ordered(f, s, q.sort) && out2 == limited(s, q.limit);
    match q.sort {
        Some((field, dir)) => law_stable_sort_unique(f, s1, s2, field, dir),
        None => {},
    }
}

/// The rows that pass the filters are rows of the input that pass every
/// filter, and there are no more of them than input rows.
proof fn lemma_filter_rows_members(rows: Seq<Row>, filters: Seq<(Seq<char>, FilterOp)>)
    ensures
        filter_rows(rows, filters).len() <= rows.len(),
        forall|i: int|
            0 <= i < filter_rows(rows, filters).len() ==> matches_all(
                #[trigger] filter_rows(rows, filters)[i],
                filters,
            ) && rows.contains(filter_rows(rows, filters)[i]),
    decreases rows.len(),
{
    if rows.len() > 0 {
        lemma_filter_rows_members(rows.drop_last(), filters);
        let prev = filter_rows(rows.drop_last(), filters);
        assert forall|i: int| 0 <= i < filter_rows(rows, filters).len() implies matches_all(
            #[trigger] filter_rows(rows, filters)[i],
            filters,
        ) && rows.contains(filter_rows(rows, filters)[i]) by {
            if i < prev.len() {
                assert(filter_rows(rows, filters)[i] == prev[i]);
                let j = choose|j: int| 0 <= j < rows.drop_last().len() && rows.drop_last()[j] == prev[i];
                assert(rows[j] == prev[i]);
            } else {
                assert(rows[rows.len() - 1] == rows.last());
            }
        }
    }
}

/// Every row a query returns is a row of the table that passes every filter,
/// and the query returns no more rows than its limit.
pub proof fn law_results_pass_filters(q: QueryView, out: Seq<Row>)
    requires
        q.results(out),
    ensures
        forall|i: int|
            0 <= i < out.len() ==> matches_all(#[trigger] out[i], q.filters) && q.table.rows.contains(
                out[i],
            ),
        q.limit matches Some(n) ==> out.len() <= n,
        out.len() <= q.table.rows.len(),
{
    let f = filter_rows(q.table.rows, q.filters);
    let s = choose|s: Seq<Row>| ordered(f, s, q.sort) && out == limited(s, q.limit);
    lemma_filter_rows_members(q.table.rows, q.filters);
    assert forall|i: int| 0 <= i < out.len() implies matches_all(#[trigger] out[i], q.filters)
        && q.table.rows.contains(out[i]) by {
        assert(out[i] == s[i]);
        match q.sort {
            Some((field, dir)) => {
                let p = choose|p: Seq<int>| sorts_by(f, s, p, field, dir);
                assert(s[i] == f[p[i]]);
            },
            None => {},
        }
    }
}

/// A sorted query returns its rows in order of key in the asked direction.
pub proof fn law_results_sorted(q: QueryView, out: Seq<Row>)
    requires
        q.results(out),
    ensures
        q.sort matches Some((field, dir)) ==> forall|i: int, j: int|
            0 <= i < j < out.len() ==> dir_rank(#[trigger] out[i], field, dir) <= dir_rank(
                #[trigger] out[j],
                field,
                dir,
            ),
{
    if let Some((field, dir)) = q.sort {
        let f = filter_rows(q.table.rows, q.filters);
        let s = choose|s: Seq<Row>| ordered(f, s, q.sort) && out == limited(s, q.limit);
        let p = choose|p: Seq<int>| sorts_by(f, s, p, field, dir);
        assert forall|i: int, j: int| 0 <= i < j < out.len() implies dir_rank(
            #[trigger] out[i],
            field,
            dir,
        ) <= dir_rank(#[trigger] out[j], field, dir) by {
            assert(out[i] == s[i] && out[j] == s[j]);
        }
    }
}

/// Keeping the rows that pass no filter at all keeps every row.
proof fn lemma_no_filters(rows: Seq<Row>, filters: Seq<(Seq<char>, FilterOp)>)
    requires
        filters.len() == 0,
    ensures
        filter_rows(rows, filters) == rows,
    decreases rows.len(),
{
    if rows.len() > 0 {
        lemma_no_filters(rows.drop_last(), filters);
        assert(rows.drop_last().push(rows.last()) =~= rows);
    }
}

/// A query with no filter, sort or limit returns every row of the table, in
/// the table's order.
pub proof fn law_plain_query_returns_all(q: QueryView, out: Seq<Row>)
    requires
        q.results(out),
        q.filters.len() == 0,
        q.sort is None,
        q.limit is None,
    ensures
        out == q.table.rows,
{
    lemma_no_filters(q.table.rows, q.filters);
}

/// The sum of a ternary field is the number of rows holding Pos less the
/// number holding Neg, and lies between minus and plus the number of rows.
pub proof fn law_sum_is_pos_minus_neg(rows: Seq<Row>, field: Seq<char>)
    ensures
        ternary_sum(rows, field) == ternary_count(rows, field, Ternary::Pos) - ternary_count(
            rows,
            field,
            Ternary::Neg,
        ),
        -rows.len() <= ternary_sum(rows, field) <= rows.len(),
    decreases rows.len(),
{
    if rows.len() > 0 {
        law_sum_is_pos_minus_neg(rows.drop_last(), field);
    }
}

/// An index built from a table files under each value exactly as many ids as
/// the aggregate count gives for that value.
pub proof fn law_index_size_is_count(idx: IndexView, rows: Seq<Row>, t: Ternary)
    requires
        idx.built_from(rows),
    ensures
        idx.bucket(t).len() == ternary_count(rows, idx.field, t),
{
    assert(idx.bucket(t) == ids_with(rows, idx.field, t));
}


/// A later `sort` replaces an earlier one: sorting by `a` and then by `b`
/// gives exactly the rows, in the order, that sorting by `b` alone gives.
pub proof fn law_later_sort_wins(
    q: QueryView,
    a: Seq<char>,
    d1: SortDir,
    b: Seq<char>,
    d2: SortDir,
    out1: Seq<Row>,
    out2: Seq<Row>,
)
    requires
        (QueryView { sort: Some((b, d2)), ..QueryView { sort: Some((a, d1)), ..q } }).results(out1),
        (QueryView { sort: Some((b, d2)), ..q }).results(out2),
    ensures
        out1 == out2,
{
    let q1 = QueryView { sort: Some((b, d2)), ..QueryView { sort: Some((a, d1)), ..q } };
    let q2 = QueryView { sort: Some((b, d2)), ..q };
    assert(q1 == q2);
    law_results_unique(q2, out1, out2);
}

/// A later `limit` replaces an earlier one.
pub proof fn law_later_limit_wins(q: QueryView, m: usize, n: usize, out1: Seq<Row>, out2: Seq<Row>)
    requires
        (QueryView { limit: Some(n), ..QueryView { limit: Some(m), ..q } }).results(out1),
        (QueryView { limit: Some(n), ..q }).results(out2),
    ensures
        out1 == out2,
{
    let q1 = QueryView { limit: Some(n), ..QueryView { limit: Some(m), ..q } };
    let q2 = QueryView { limit: Some(n), ..q };
    assert(q1 == q2);
    law_results_unique(q2, out1, out2);
}

/// Every row passes an empty list of filters, and a row passes a list with
/// one more filter at the end exactly when it passes the list and the added
/// filter.
pub proof fn lemma_matches_all_push(r: Row, fs: Seq<(Seq<char>, FilterOp)>, x: (Seq<char>, FilterOp))
    ensures
        matches_all(r, Seq::<(Seq<char>, FilterOp)>::empty()),
        matches_all(r, fs.push(x)) == (matches_all(r, fs) && row_matches(r, x.0, x.1)),
{
    let g = fs.push(x);
    if matches_all(r, g) {
        assert(row_matches(r, g[fs.len() as int].0, g[fs.len() as int].1));
        assert forall|i: int| 0 <= i < fs.len() implies #[trigger] row_matches(r, fs[i].0, fs[i].1) by {
            assert(g[i] == fs[i]);
            assert(row_matches(r, g[i].0, g[i].1));
        }
    }
    if matches_all(r, fs) && row_matches(r, x.0, x.1) {
        assert forall|i: int| 0 <= i < g.len() implies #[trigger] row_matches(r, g[i].0, g[i].1) by {
            if i < fs.len() {
                assert(g[i] == fs[i]);
            }
        }
    }
}

/// Filter lists that every row passes or fails alike keep the same rows.
proof fn lemma_filter_rows_same(
    rows: Seq<Row>,
    f1: Seq<(Seq<char>, FilterOp)>,
    f2: Seq<(Seq<char>, FilterOp)>,
)
    requires
        forall|r: Row| #[trigger] matches_all(r, f1) == matches_all(r, f2),
    ensures
        filter_rows(rows, f1) == filter_rows(rows, f2),
    decreases rows.len(),
{
    if rows.len() > 0 {
        lemma_filter_rows_same(rows.drop_last(), f1, f2);
        assert(matches_all(rows.last(), f1) == matches_all(rows.last(), f2));
    }
}

/// Filters combine by AND in any order: adding the filters `x` then `y` gives
/// exactly the rows, in the order, that adding `y` then `x` gives, and each of
/// them passes the earlier filters, `x` and `y`.
pub proof fn law_filters_commute(
    q: QueryView,
    x: (Seq<char>, FilterOp),
    y: (Seq<char>, FilterOp),
    out1: Seq<Row>,
    out2: Seq<Row>,
)
    requires
        (QueryView { filters: q.filters.push(x).push(y), ..q }).results(out1),
        (QueryView { filters: q.filters.push(y).push(x), ..q }).results(out2),
    ensures
        out1 == out2,
        forall|i: int|
            0 <= i < out1.len() ==> matches_all(#[trigger] out1[i], q.filters) && row_matches(
                out1[i],
                x.0,
                x.1,
            ) && row_matches(out1[i], y.0, y.1),
{
    let a = q.filters.push(x).push(y);
    let b = q.filters.push(y).push(x);
    let q1 = QueryView { filters: a, ..q };
    let q2 = QueryView { filters: b, ..q };
    assert forall|r: Row| #[trigger] matches_all(r, a) == matches_all(r, b) by {
        lemma_matches_all_push(r, q.filters.push(x), y);
        lemma_matches_all_push(r, q.filters, x);
        lemma_matches_all_push(r, q.filters.push(y), x);
        lemma_matches_all_push(r, q.filters, y);
    }
    lemma_filter_rows_same(q.table.rows, a, b);
    let s = choose|s: Seq<Row>| ordered(filter_rows(q.table.rows, a), s, q.sort) && out1 == limited(
        s,
        q.limit,
    );
    assert(ordered(filter_rows(q.table.rows, b), s, q2.sort) && out1 == limited(s, q2.limit));
    assert(q2.results(out1));
    law_results_unique(q2, out1, out2);
    law_results_pass_filters(q1, out1);
    assert forall|i: int| 0 <= i < out1.len() implies matches_all(#[trigger] out1[i], q.filters)
        && row_matches(out1[i], x.0, x.1) && row_matches(out1[i], y.0, y.1) by {
        lemma_matches_all_push(out1[i], q.filters.push(x), y);
        lemma_matches_all_push(out1[i], q.filters, x);
    }
}


/// How the six filters judge a row whose field holds a ternary value `u`:
/// by the order Neg < Zero < Pos, with equality meaning the same value.
pub proof fn law_filters_on_ternary_fields(r: Row, f: Seq<char>, u: Ternary, t: Ternary)
    requires
        r.field(f) == Some(FieldValue::Ternary(u)),
    ensures
        row_matches(r, f, FilterOp::Eq(t)) <==> u == t,
        row_matches(r, f, FilterOp::Ne(t)) <==> u != t,
        row_matches(r, f, FilterOp::Gt(t)) <==> (t == Ternary::Neg && u != Ternary::Neg) || (t
            == Ternary::Zero && u == Ternary::Pos),
        row_matches(r, f, FilterOp::Lt(t)) <==> (t == Ternary::Pos && u != Ternary::Pos) || (t
            == Ternary::Zero && u == Ternary::Neg),
        row_matches(r, f, FilterOp::Gte(t)) <==> u == t || (t == Ternary::Neg && u != Ternary::Neg)
            || (t == Ternary::Zero && u == Ternary::Pos),
        row_matches(r, f, FilterOp::Lte(t)) <==> u == t || (t == Ternary::Pos && u != Ternary::Pos)
            || (t == Ternary::Zero && u == Ternary::Neg),
{
}

/// How the filters judge a row whose field holds an integer `i`: by its low
/// byte `b` as an `i8`, compared with -1 for Neg, 0 for Zero and 1 for Pos.
pub proof fn law_filters_on_integer_fields(r: Row, f: Seq<char>, i: i64, t: Ternary)
    requires
        r.field(f) == Some(FieldValue::Integer(i)),
    ensures
        ({
            let b = (i as i8) as int;
            &&& row_matches(r, f, FilterOp::Eq(t)) <==> (t == Ternary::Neg && b == -1) || (t
                == Ternary::Zero && b == 0) || (t == Ternary::Pos && b == 1)
            &&& row_matches(r, f, FilterOp::Ne(t)) <==> !((t == Ternary::Neg && b == -1) || (t
                == Ternary::Zero && b == 0) || (t == Ternary::Pos && b == 1))
            &&& row_matches(r, f, FilterOp::Gt(t)) <==> (t == Ternary::Neg && b > -1) || (t
                == Ternary::Zero && b > 0) || (t == Ternary::Pos && b > 1)
            &&& row_matches(r, f, FilterOp::Lt(t)) <==> (t == Ternary::Neg && b < -1) || (t
                == Ternary::Zero && b < 0) || (t == Ternary::Pos && b < 1)
            &&& row_matches(r, f, FilterOp::Gte(t)) <==> (t == Ternary::Neg && b >= -1) || (t
                == Ternary::Zero && b >= 0) || (t == Ternary::Pos && b >= 1)
            &&& row_matches(r, f, FilterOp::Lte(t)) <==> (t == Ternary::Neg && b <= -1) || (t
                == Ternary::Zero && b <= 0) || (t == Ternary::Pos && b <= 1)
        }),
{
}

/// A row whose field is missing or holds neither a ternary value nor an
/// integer passes no filter.
pub proof fn law_filters_need_a_number(r: Row, f: Seq<char>, op: FilterOp)
    requires
        !(r.field(f) matches Some(FieldValue::Ternary(_))),
        !(r.field(f) matches Some(FieldValue::Integer(_))),
    ensures
        !row_matches(r, f, op),
{
}

/// Every row that passes every filter is kept, in the table's order.
proof fn lemma_filter_rows_complete(rows: Seq<Row>, filters: Seq<(Seq<char>, FilterOp)>, j: int)
    requires
        0 <= j < rows.len(),
        matches_all(rows[j], filters),
    ensures
        filter_rows(rows, filters).contains(rows[j]),
    decreases rows.len(),
{
    let prev = rows.drop_last();
    if j == rows.len() - 1 {
        assert(filter_rows(rows, filters) == filter_rows(prev, filters).push(rows.last()));
        assert(filter_rows(rows, filters)[filter_rows(prev, filters).len() as int] == rows[j]);
    } else {
        assert(prev[j] == rows[j]);
        lemma_filter_rows_complete(prev, filters, j);
        let p = filter_rows(prev, filters);
        let k = choose|k: int| 0 <= k < p.len() && p[k] == rows[j];
        assert(filter_rows(rows, filters)[k] == p[k]);
    }
}

/// Without a limit, a query returns every row of the table that passes every
/// filter.
pub proof fn law_results_complete(q: QueryView, out: Seq<Row>, j: int)
    requires
        q.results(out),
        q.limit is None,
        0 <= j < q.table.rows.len(),
        matches_all(q.table.rows[j], q.filters),
    ensures
        out.contains(q.table.rows[j]),
{
    let f = filter_rows(q.table.rows, q.filters);
    let s = choose|s: Seq<Row>| ordered(f, s, q.sort) && out == limited(s, q.limit);
    lemma_filter_rows_complete(q.table.rows, q.filters, j);
    let k = choose|k: int| 0 <= k < f.len() && f[k] == q.table.rows[j];
    match q.sort {
        Some((field, dir)) => {
            let p = choose|p: Seq<int>| sorts_by(f, s, p, field, dir);
            lemma_perm_onto(f, s, p, field, dir);
            assert(p.contains(k));
            let m = choose|m: int| 0 <= m < p.len() && p[m] == k;
            assert(out[m] == f[k]);
        },
        None => {
            assert(out[k] == f[k]);
        },
    }
}

/// The order rows are sorted in, by the field's content: rows holding ternary
/// values go Neg < Zero < Pos; integers go by size; Neg, Zero and Pos rank
/// with the integers -1, 0 and 1; a row without a number ranks below every
/// row with one; descending is the exact reverse of ascending.
pub proof fn law_sort_key_order(r1: Row, r2: Row, f: Seq<char>)
    ensures
        dir_rank(r1, f, SortDir::Desc) == -dir_rank(r1, f, SortDir::Asc),
        r1.field(f) matches Some(FieldValue::Ternary(a)) ==> r2.field(f) matches Some(
            FieldValue::Ternary(b),
        ) ==> {
            &&& (dir_rank(r1, f, SortDir::Asc) < dir_rank(r2, f, SortDir::Asc) <==> (a == Ternary::Neg
                && b != Ternary::Neg) || (a == Ternary::Zero && b == Ternary::Pos))
            &&& (dir_rank(r1, f, SortDir::Asc) == dir_rank(r2, f, SortDir::Asc) <==> a == b)
        },
        r1.field(f) matches Some(FieldValue::Integer(i)) ==> r2.field(f) matches Some(
            FieldValue::Integer(j),
        ) ==> {
            &&& (dir_rank(r1, f, SortDir::Asc) < dir_rank(r2, f, SortDir::Asc) <==> i < j)
            &&& (dir_rank(r1, f, SortDir::Asc) == dir_rank(r2, f, SortDir::Asc) <==> i == j)
        },
        r1.field(f) matches Some(FieldValue::Ternary(a)) ==> r2.field(f) matches Some(
            FieldValue::Integer(j),
        ) ==> (dir_rank(r1, f, SortDir::Asc) == dir_rank(r2, f, SortDir::Asc) <==> (a == Ternary::Neg
            && j == -1) || (a == Ternary::Zero && j == 0) || (a == Ternary::Pos && j == 1)),
        sort_key(r1, f) is None ==> sort_key(r2, f) is Some ==> dir_rank(r1, f, SortDir::Asc)
            < dir_rank(r2, f, SortDir::Asc),
        sort_key(r1, f) is Some <==> (r1.field(f) matches Some(FieldValue::Ternary(_)) || r1.field(
            f,
        ) matches Some(FieldValue::Integer(_))),
{
}

/// In a query sorted by a field, rows holding ternary values come Neg, then
/// Zero, then Pos when ascending, and Pos, then Zero, then Neg when
/// descending.
pub proof fn law_sorted_results_by_ternary(
    q: QueryView,
    out: Seq<Row>,
    f: Seq<char>,
    d: SortDir,
    i: int,
    j: int,
    a: Ternary,
    b: Ternary,
)
    requires
        q.results(out),
        q.sort == Some((f, d)),
        0 <= i < j < out.len(),
        out[i].field(f) == Some(FieldValue::Ternary(a)),
        out[j].field(f) == Some(FieldValue::Ternary(b)),
    ensures
        d == SortDir::Asc ==> !((a == Ternary::Pos && b != Ternary::Pos) || (a == Ternary::Zero && b
            == Ternary::Neg)),
        d == SortDir::Desc ==> !((a == Ternary::Neg && b != Ternary::Neg) || (a == Ternary::Zero && b
            == Ternary::Pos)),
{
    law_results_sorted(q, out);
    law_sort_key_order(out[i], out[j], f);
    law_sort_key_order(out[j], out[i], f);
}

/// Counting a value over rows with one more row at the end adds one exactly
/// when that row's field holds the value; over no rows the count is zero.
pub proof fn law_count_extend(rows: Seq<Row>, f: Seq<char>, t: Ternary, r: Row)
    ensures
        ternary_count(Seq::<Row>::empty(), f, t) == 0,
        ternary_count(rows.push(r), f, t) == ternary_count(rows, f, t) + if r.field(f) == Some(
            FieldValue::Ternary(t),
        ) {
            1int
        } else {
            0int
        },
{
    assert(rows.push(r).drop_last() =~= rows);
}

/// Summing over rows with one more row at the end adds 1 when that row's
/// field holds Pos, subtracts 1 when it holds Neg, and adds nothing otherwise;
/// over no rows the sum is zero.
pub proof fn law_sum_extend(rows: Seq<Row>, f: Seq<char>, r: Row)
    ensures
        ternary_sum(Seq::<Row>::empty(), f) == 0,
        ternary_sum(rows.push(r), f) == ternary_sum(rows, f) + if r.field(f) == Some(
            FieldValue::Ternary(Ternary::Pos),
        ) {
            1int
        } else if r.field(f) == Some(FieldValue::Ternary(Ternary::Neg)) {
            -1int
        } else {
            0int
        },
{
    assert(rows.push(r).drop_last() =~= rows);
}


/// A limit keeps the first rows of what the same query without a limit
/// returns: the first `n` of them, or all when there are fewer.
pub proof fn law_limit_is_prefix(q: QueryView, n: usize, out1: Seq<Row>, out2: Seq<Row>)
    requires
        (QueryView { limit: Some(n), ..q }).results(out1),
        (QueryView { limit: None, ..q }).results(out2),
    ensures
        out1 == if n < out2.len() {
            out2.take(n as int)
        } else {
            out2
        },
        out1.len() == if n < out2.len() {
            n as int
        } else {
            out2.len() as int
        },
{
    let f = filter_rows(q.table.rows, q.filters);
    let s1 = choose|s: Seq<Row>| ordered(f, s, q.sort) && out1 == limited(s, Some(n));
    let s2 = choose|s: Seq<Row>| ordered(f, s, q.sort) && out2 == limited(s, None);
    match q.sort {
        Some((field, dir)) => law_stable_sort_unique(f, s1, s2, field, dir),
        None => {},
    }
}

/// The rows that pass the filters are the passing rows taken in the table's
/// order: their positions in the table strictly increase.
proof fn lemma_filter_rows_in_order(rows: Seq<Row>, filters: Seq<(Seq<char>, FilterOp)>) -> (idx: Seq<int>)
    ensures
        idx.len() == filter_rows(rows, filters).len(),
        forall|k: int|
            0 <= k < idx.len() ==> 0 <= #[trigger] idx[k] < rows.len() && filter_rows(rows, filters)[k]
                == rows[idx[k]],
        forall|k: int, m: int| 0 <= k < m < idx.len() ==> #[trigger] idx[k] < #[trigger] idx[m],
    decreases rows.len(),
{
    if rows.len() == 0 {
        Seq::empty()
    } else {
        let prev = rows.drop_last();
        let pi = lemma_filter_rows_in_order(prev, filters);
        assert forall|k: int| 0 <= k < pi.len() implies prev[pi[k]] == rows[pi[k]] by {}
        if matches_all(rows.last(), filters) {
            let idx = pi.push(rows.len() - 1);
            assert forall|k: int| 0 <= k < idx.len() implies 0 <= #[trigger] idx[k] < rows.len()
                && filter_rows(rows, filters)[k] == rows[idx[k]] by {
                if k < pi.len() {
                    assert(idx[k] == pi[k]);
                    assert(filter_rows(rows, filters)[k] == filter_rows(prev, filters)[k]);
                }
            }
            assert forall|k: int, m: int| 0 <= k < m < idx.len() implies #[trigger] idx[k]
                < #[trigger] idx[m] by {
                if m < pi.len() {
                    assert(idx[k] == pi[k] && idx[m] == pi[m]);
                } else {
                    assert(idx[k] == pi[k]);
                }
            }
            idx
        } else {
            pi
        }
    }
}

/// A query without a sort returns its rows in the table's order: they are
/// table rows at strictly increasing positions.
pub proof fn law_unsorted_results_keep_table_order(q: QueryView, out: Seq<Row>)
    requires
        q.results(out),
        q.sort is None,
    ensures
        exists|idx: Seq<int>|
            idx.len() == out.len() && (forall|k: int|
                0 <= k < idx.len() ==> 0 <= #[trigger] idx[k] < q.table.rows.len() && out[k]
                    == q.table.rows[idx[k]]) && (forall|k: int, m: int|
                0 <= k < m < idx.len() ==> #[trigger] idx[k] < #[trigger] idx[m]),
{
    let f = filter_rows(q.table.rows, q.filters);
    let idx = lemma_filter_rows_in_order(q.table.rows, q.filters);
    assert(out == limited(f, q.limit));
    assert(out.len() <= idx.len());
    let w = idx.take(out.len() as int);
    assert(w.len() == out.len());
    assert forall|k: int| 0 <= k < w.len() implies 0 <= #[trigger] w[k] < q.table.rows.len() && out[k]
        == q.table.rows[w[k]] by {
        assert(w[k] == idx[k]);
        assert(out[k] == f[k]);
    }
    assert forall|k: int, m: int| 0 <= k < m < w.len() implies #[trigger] w[k] < #[trigger] w[m] by {
        assert(w[k] == idx[k] && w[m] == idx[m]);
    }
    assert(w.len() == out.len() && (forall|k: int|
        0 <= k < w.len() ==> 0 <= #[trigger] w[k] < q.table.rows.len() && out[k] == q.table.rows[w[k]])
        && (forall|k: int, m: int| 0 <= k < m < w.len() ==> #[trigger] w[k] < #[trigger] w[m]));
}

} // verus!
