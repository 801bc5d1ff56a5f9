use vstd::prelude::*;

use crate::row::Row;

verus! {

broadcast use vstd::string::to_string_from_display_ensures_for_str;

/// The abstract state of a table: its name, the ids of its rows in ascending order, the
/// rows in the same order, and the id that the next insertion assigns.
pub struct TableView {
    pub name: Seq<char>,
    pub ids: Seq<u64>,
    pub rows: Seq<Row>,
    pub next_id: u64,
}

impl TableView {
    /// Ids and rows correspond one to one, ids are strictly ascending (so no
    /// id occurs twice) and every id is below the next id to assign.
    pub open spec fn wf(self) -> bool {
        &&& self.ids.len() == self.rows.len()
        &&& forall|i: int, j: int|
            0 <= i < j < self.ids.len() ==> #[trigger] self.ids[i] < #[trigger] self.ids[j]
        &&& forall|i: int| 0 <= i < self.ids.len() ==> #[trigger] self.ids[i] < self.next_id
        &&& self.next_id >= 1
    }

    pub open spec fn contains(self, id: u64) -> bool {
        self.ids.contains(id)
    }

    /// The table's rows keyed by id.
    pub open spec fn row_map(self) -> Map<u64, Row> {
        Map::new(|k: u64| self.ids.contains(k), |k: u64| self.rows[self.ids.index_of(k)])
    }

    pub open spec fn len(self) -> nat {
        self.ids.len()
    }
}

/// In a well-formed table the row stored under an id is the one at that id's
/// position.
pub proof fn lemma_row_at(v: TableView, i: int)
    requires
        v.wf(),
        0 <= i < v.ids.len(),
    ensures
        v.row_map().contains_key(v.ids[i]),
        v.row_map()[v.ids[i]] == v.rows[i],
{
    assert(v.ids.contains(v.ids[i]));
    let j = v.ids.index_of(v.ids[i]);
    assert(0 <= j < v.ids.len() && v.ids[j] == v.ids[i]);
    if j < i {
        assert(v.ids[j] < v.ids[i]);
    } else if i < j {
        assert(v.ids[i] < v.ids[j]);
    }
}

/// Removing the entry at one position from a well-formed table removes that
/// id from the map of rows and keeps the table well-formed.
proof fn lemma_remove_at(o: TableView, n: TableView, i: int)
    requires
        o.wf(),
        0 <= i < o.ids.len(),
        n.ids == o.ids.remove(i),
        n.rows == o.rows.remove(i),
        n.next_id == o.next_id,
    ensures
        n.wf(),
        n.row_map() == o.row_map().remove(o.ids[i]),
{
    let id = o.ids[i];
    assert forall|a: int, b: int| 0 <= a < b < n.ids.len() implies #[trigger] n.ids[a] < #[trigger] n.ids[b] by {
        let oa = if a < i { a } else { a + 1 };
        let ob = if b < i { b } else { b + 1 };
        assert(o.ids[oa] < o.ids[ob]);
    }
    assert forall|a: int| 0 <= a < n.ids.len() implies #[trigger] n.ids[a] < n.next_id by {
        let oa = if a < i { a } else { a + 1 };
        assert(o.ids[oa] < o.next_id);
    }
    assert forall|k: u64| #[trigger] n.ids.contains(k) <==> o.ids.contains(k) && k != id by {
        if n.ids.contains(k) {
            let a = choose|a: int| 0 <= a < n.ids.len() && n.ids[a] == k;
            let oa = if a < i { a } else { a + 1 };
            assert(o.ids[oa] == k);
            if a < i {
                assert(o.ids[oa] < o.ids[i]);
            } else {
                assert(o.ids[i] < o.ids[oa]);
            }
        }
        if o.ids.contains(k) && k != id {
            let a = choose|a: int| 0 <= a < o.ids.len() && o.ids[a] == k;
            assert(a != i);
            let na = if a < i { a } else { a - 1 };
            assert(n.ids[na] == k);
        }
    }
    assert forall|k: u64| #[trigger] n.row_map().contains_key(k) implies n.row_map()[k]
        == o.row_map().remove(id)[k] by {
        let a = n.ids.index_of(k);
        lemma_row_at(n, a);
        let oa = if a < i { a } else { a + 1 };
        lemma_row_at(o, oa);
    }
    assert(n.row_map().dom() =~= o.row_map().remove(id).dom());
    assert(n.row_map() =~= o.row_map().remove(id));
}

/// The map of a well-formed table's rows has one entry per id.
proof fn lemma_map_len(v: TableView)
    requires
        v.wf(),
    ensures
        v.row_map().len() == v.ids.len(),
        v.row_map().dom() == v.ids.to_set(),
{
    assert(v.ids.no_duplicates()) by {
        assert forall|a: int, b: int| 0 <= a < v.ids.len() && 0 <= b < v.ids.len() && a != b
            implies v.ids[a] != v.ids[b] by {
            if a < b {
                assert(v.ids[a] < v.ids[b]);
            } else {
                assert(v.ids[b] < v.ids[a]);
            }
        }
    }
    assert(v.row_map().dom() =~= v.ids.to_set());
    v.ids.unique_seq_to_set();
}

/// The rows of a table: ids strictly ascending, each below the next id to
/// assign, with the rows in the same order.
struct RowStore {
    ids: Vec<u64>,
    rows: Vec<Row>,
    next_id: u64,
}

impl RowStore {
    spec fn view_named(self, name: Seq<char>) -> TableView {
        TableView { name, ids: self.ids@, rows: self.rows@, next_id: self.next_id }
    }

    #[verifier::type_invariant]
    spec fn well_formed(self) -> bool {
        self.view_named(Seq::empty()).wf()
    }
}

/// The well-formedness of a table does not depend on its name.
proof fn lemma_wf_any_name(v: TableView, name: Seq<char>)
    ensures
        v.wf() == (TableView { name, ..v }).wf(),
{
}

/// A ternary table storing rows under auto-incremented ids.
pub struct TernaryTable {
    pub name: String,
    store: RowStore,
}

impl View for TernaryTable {
    type V = TableView;

    closed spec fn view(&self) -> TableView {
        self.store.view_named(self.name@)
    }
}

impl TernaryTable {
    /// The table's view is well formed.
    proof fn lemma_wf(&self)
        requires
            self.store.view_named(Seq::empty()).wf(),
        ensures
            self@.wf(),
    {
        lemma_wf_any_name(self.store.view_named(Seq::empty()), self.name@);
    }

    pub fn new(name: &str) -> (t: Self)
        ensures
            t@.name == name@,
            t@.wf(),
            t@.ids == Seq::<u64>::empty(),
            t@.rows == Seq::<Row>::empty(),
            t@.next_id == 1,
            t@.row_map() == Map::<u64, Row>::empty(),
    {
        let t = TernaryTable {
            name: name.to_string(),
            store: RowStore { ids: Vec::new(), rows: Vec::new(), next_id: 1 },
        };
        assert(t@.row_map() =~= Map::<u64, Row>::empty());
        t
    }

    /// Position of `id` among the ids, found by binary search.
    fn find(&self, id: u64) -> (r: Option<usize>)
        ensures
            r matches Some(i) ==> i < self@.ids.len() && self@.ids[i as int] == id,
            r is None ==> !self@.ids.contains(id),
    {
        proof {
            use_type_invariant(&self.store);
            self.lemma_wf();
        }
        let ids = &self.store.ids;
        let mut lo: usize = 0;
        let mut hi: usize = ids.len();
        while lo < hi
            invariant
                self@.wf(),
                ids@ == self@.ids,
                0 <= lo <= hi <= self@.ids.len(),
                forall|j: int| 0 <= j < lo ==> #[trigger] self@.ids[j] < id,
                forall|j: int| hi <= j < self@.ids.len() ==> #[trigger] self@.ids[j] > id,
            decreases hi - lo,
        {
            let mid = lo + (hi - lo) / 2;
            let m = ids[mid];
            if m == id {
                return Some(mid);
            } else if m < id {
                assert forall|j: int| 0 <= j < mid + 1 implies #[trigger] self@.ids[j] < id by {
                    if j < mid {
                        assert(self@.ids[j] < self@.ids[mid as int]);
                    }
                }
                lo = mid + 1;
            } else {
                assert forall|j: int| mid <= j < self@.ids.len() implies #[trigger] self@.ids[j] > id by {
                    if j > mid {
                        assert(self@.ids[mid as int] < self@.ids[j]);
                    }
                }
                hi = mid;
            }
        }
        proof {
            if self@.ids.contains(id) {
                let j = choose|j: int| 0 <= j < self@.ids.len() && self@.ids[j] == id;
                assert(self@.ids[j] == id);
            }
        }
        None
    }

    /// Takes the rows out of the table, leaving it empty, and gives them back
    /// with the table's name.
    fn take_store(&mut self) -> (r: RowStore)
        ensures
            r.view_named(old(self)@.name) == old(self)@,
            final(self)@.name == old(self)@.name,
            r.view_named(Seq::empty()).wf(),
    {
        proof {
            use_type_invariant(&self.store);
        }
        let mut r = RowStore { ids: Vec::new(), rows: Vec::new(), next_id: 1 };
        std::mem::swap(&mut r, &mut self.store);
        proof {
            use_type_invariant(&r);
        }
        r
    }

    /// Stores `row` under the next id, which becomes the row's own id, and
    /// returns that id.
    pub fn insert(&mut self, row: Row) -> (id: u64)
        requires
            old(self)@.next_id < u64::MAX,
        ensures
            final(self)@.wf(),
            final(self)@.name == old(self)@.name,
            id == old(self)@.next_id,
            final(self)@.next_id == id + 1,
            !old(self)@.contains(id),
            final(self)@.ids == old(self)@.ids.push(id),
            final(self)@.rows == old(self)@.rows.push(Row { id, ..row }),
            final(self)@.row_map() == old(self)@.row_map().insert(id, Row { id, ..row }),
    {
        proof {
            use_type_invariant(&self.store);
            self.lemma_wf();
        }
        let ghost o = self@;
        let RowStore { mut ids, mut rows, next_id } = self.take_store();
        let mut row = row;
        let id = next_id;
        row.id = id;
        ids.push(id);
        rows.push(row);
        let ghost n = TableView { name: o.name, ids: ids@, rows: rows@, next_id: (id + 1) as u64 };
        proof {
            assert(!o.ids.contains(id)) by {
                if o.ids.contains(id) {
                    let j = choose|j: int| 0 <= j < o.ids.len() && o.ids[j] == id;
                    assert(o.ids[j] < o.next_id);
                }
            }
            assert(n.wf()) by {
                assert forall|i: int, j: int| 0 <= i < j < n.ids.len() implies #[trigger] n.ids[i]
                    < #[trigger] n.ids[j] by {
                    if j < o.ids.len() {
                        assert(o.ids[i] < o.ids[j]);
                    } else {
                        assert(o.ids[i] < o.next_id);
                    }
                }
                assert forall|i: int| 0 <= i < n.ids.len() implies #[trigger] n.ids[i] < n.next_id by {
                    if i < o.ids.len() {
                        assert(o.ids[i] < o.next_id);
                    }
                }
            }
            assert forall|k: u64| #[trigger] n.row_map().contains_key(k) implies n.row_map()[k]
                == o.row_map().insert(id, Row { id, ..row })[k] by {
                let i = n.ids.index_of(k);
                lemma_row_at(n, i);
                if k != id {
                    assert(i < o.ids.len());
                    lemma_row_at(o, i);
                }
            }
            assert(n.row_map().dom() =~= o.row_map().insert(id, Row { id, ..row }).dom()) by {
                broadcast use vstd::seq_lib::lemma_seq_contains_after_push;
            }
            assert(n.row_map() =~= o.row_map().insert(id, Row { id, ..row }));
            lemma_wf_any_name(n, Seq::empty());
        }
        self.store = RowStore { ids, rows, next_id: id + 1 };
        id
    }

    pub fn get(&self, id: u64) -> (r: Option<&Row>)
        ensures
            self@.wf(),
            r matches Some(row) ==> self@.row_map().contains_key(id) && *row == self@.row_map()[id],
            r is None <==> !self@.row_map().contains_key(id),
    {
        proof {
            use_type_invariant(&self.store);
            self.lemma_wf();
        }
        match self.find(id) {
            Some(i) => {
                proof {
                    lemma_row_at(self@, i as int);
                }
                Some(&self.store.rows[i])
            },
            None => None,
        }
    }

    pub fn get_mut(&mut self, id: u64) -> (r: Option<&mut Row>)
        ensures
            final(self)@.wf(),
            final(self)@.name == old(self)@.name,
            final(self)@.ids == old(self)@.ids,
            final(self)@.next_id == old(self)@.next_id,
            match r {
                Some(row) => {
                    &&& old(self)@.row_map().contains_key(id)
                    &&& *row == old(self)@.row_map()[id]
                    &&& final(self)@.row_map() == old(self)@.row_map().insert(id, *final(row))
                },
                None => {
                    &&& !old(self)@.row_map().contains_key(id)
                    &&& final(self)@ == old(self)@
                },
            },
    {
        proof {
            use_type_invariant(&self.store);
            self.lemma_wf();
        }
        match self.find(id) {
            Some(i) => {
                proof {
                    lemma_row_at(self@, i as int);
                }
                Some(&mut self.store.rows[i])
            },
            None => None,
        }
    }

    /// Removes the row stored under `id`; tells whether there was one.
    pub fn delete(&mut self, id: u64) -> (r: bool)
        ensures
            final(self)@.wf(),
            r == old(self)@.contains(id),
            final(self)@.name == old(self)@.name,
            final(self)@.next_id == old(self)@.next_id,
            final(self)@.row_map() == old(self)@.row_map().remove(id),
            r ==> exists|i: int|
                0 <= i < old(self)@.ids.len() && old(self)@.ids[i] == id
                    && final(self)@.ids == old(self)@.ids.remove(i)
                    && final(self)@.rows == old(self)@.rows.remove(i),
            !r ==> final(self)@ == old(self)@,
    {
        proof {
            use_type_invariant(&self.store);
            self.lemma_wf();
        }
        match self.find(id) {
            Some(i) => {
                let ghost o = self@;
                let RowStore { mut ids, mut rows, next_id } = self.take_store();
                ids.remove(i);
                rows.remove(i);
                let ghost n = TableView { name: o.name, ids: ids@, rows: rows@, next_id };
                proof {
                    lemma_remove_at(o, n, i as int);
                    assert(o.ids.contains(id));
                    lemma_wf_any_name(n, Seq::empty());
                }
                self.store = RowStore { ids, rows, next_id };
                true
            },
            None => {
                proof {
                    assert(self@.row_map() =~= self@.row_map().remove(id));
                }
                false
            },
        }
    }

    pub fn len(&self) -> (n: usize)
        ensures
            self@.wf(),
            n == self@.len(),
            n == self@.row_map().len(),
    {
        proof {
            use_type_invariant(&self.store);
            self.lemma_wf();
            lemma_map_len(self@);
        }
        self.store.ids.len()
    }

    pub fn is_empty(&self) -> (b: bool)
        ensures
            self@.wf(),
            b <==> self@.len() == 0,
            b <==> self@.row_map() == Map::<u64, Row>::empty(),
    {
        proof {
            use_type_invariant(&self.store);
            self.lemma_wf();
            lemma_map_len(self@);
            if self@.len() > 0 {
                lemma_row_at(self@, 0);
            } else {
                assert(self@.row_map() =~= Map::<u64, Row>::empty());
            }
        }
        self.store.ids.len() == 0
    }

    /// The rows, in ascending order of id.
    pub fn rows(&self) -> (r: Vec<&Row>)
        ensures
            self@.wf(),
            r@.len() == self@.rows.len(),
            forall|i: int| 0 <= i < r@.len() ==> *#[trigger] r@[i] == self@.rows[i],
    {
        proof {
            use_type_invariant(&self.store);
            self.lemma_wf();
        }
        let rows = &self.store.rows;
        let mut r: Vec<&Row> = Vec::new();
        let mut i: usize = 0;
        while i < rows.len()
            invariant
                rows@ == self@.rows,
                i <= self@.rows.len(),
                r@.len() == i,
                forall|j: int| 0 <= j < i ==> *#[trigger] r@[j] == self@.rows[j],
            decreases self@.rows.len() - i,
        {
            r.push(&rows[i]);
            i = i + 1;
        }
        r
    }

    /// All rows, in ascending order of id.
    pub fn scan_all(&self) -> (r: Vec<&Row>)
        ensures
            self@.wf(),
            r@.len() == self@.rows.len(),
            forall|i: int| 0 <= i < r@.len() ==> *#[trigger] r@[i] == self@.rows[i],
    {
        self.rows()
    }
}

/// Reading a row back after inserting it gives the row, carrying the id the
/// insertion returned; the table grows by one row and every other id reads as
/// before.
pub proof fn law_get_after_insert(before: TableView, after: TableView, row: Row, id: u64, other: u64)
    requires
        before.wf(),
        id == before.next_id,
        after.ids == before.ids.push(id),
        after.row_map() == before.row_map().insert(id, Row { id, ..row }),
        other != id,
    ensures
        after.row_map().contains_key(id),
        after.row_map()[id] == (Row { id, ..row }),
        after.row_map()[id].id == id,
        after.len() == before.len() + 1,
        after.row_map().contains_key(other) == before.row_map().contains_key(other),
        before.row_map().contains_key(other) ==> after.row_map()[other] == before.row_map()[other],
{
}

/// Ids are never reused: the id an insertion assigns differs from every id
/// assigned before it, whether or not that row has since been deleted, and the
/// next id only grows.
pub proof fn law_ids_never_reused(before: TableView, after: TableView, id: u64, earlier: u64)
    requires
        before.wf(),
        id == before.next_id,
        after.next_id == id + 1,
        earlier < before.next_id,
    ensures
        id != earlier,
        !before.contains(id),
        after.next_id > before.next_id,
{
    if before.contains(id) {
        let j = choose|j: int| 0 <= j < before.ids.len() && before.ids[j] == id;
        assert(before.ids[j] < before.next_id);
    }
}

/// After a row is deleted its id reads as absent, so deleting it again
/// reports that there was nothing to delete; every other id reads as before.
pub proof fn law_get_after_delete(before: TableView, after: TableView, id: u64, other: u64)
    requires
        after.row_map() == before.row_map().remove(id),
        other != id,
    ensures
        !after.row_map().contains_key(id),
        !after.contains(id),
        after.row_map().contains_key(other) == before.row_map().contains_key(other),
        before.row_map().contains_key(other) ==> after.row_map()[other] == before.row_map()[other],
{
    assert(!after.row_map().dom().contains(id));
}


/// An operation on a table: inserting a row, deleting an id, or changing the
/// row under an id through `get_mut`.
pub enum TableEvent {
    Insert(Row),
    Delete(u64),
    Modify(u64, Row),
}

/// Whether `after` is the state that the event's contract gives from
/// `before`.
pub open spec fn event_step(before: TableView, e: TableEvent, after: TableView) -> bool {
    &&& after.wf()
    &&& match e {
        TableEvent::Insert(row) => {
            &&& after.next_id == before.next_id + 1
            &&& after.row_map() == before.row_map().insert(
                before.next_id,
                Row { id: before.next_id, ..row },
            )
        },
        TableEvent::Delete(id) => {
            &&& after.next_id == before.next_id
            &&& after.row_map() == before.row_map().remove(id)
        },
        TableEvent::Modify(id, row) => {
            &&& after.next_id == before.next_id
            &&& before.row_map().contains_key(id)
            &&& after.row_map() == before.row_map().insert(id, row)
        },
    }
}

/// `states` is a run of a table from `new`: each state follows from the one
/// before by the event at that position.
pub open spec fn is_history(states: Seq<TableView>, events: Seq<TableEvent>) -> bool {
    &&& states.len() == events.len() + 1
    &&& states[0].next_id == 1
    &&& states[0].row_map() == Map::<u64, Row>::empty()
    &&& forall|i: int| 0 <= i < events.len() ==> event_step(states[i], #[trigger] events[i], states[i + 1])
}

/// The number of insertions among the events.
pub open spec fn insert_count(events: Seq<TableEvent>) -> nat
    decreases events.len(),
{
    if events.len() == 0 {
        0
    } else {
        insert_count(events.drop_last()) + if events.last() is Insert {
            1nat
        } else {
            0nat
        }
    }
}

/// The id that the insertion at position `j` assigns: one more than the
/// number of insertions before it.
pub open spec fn assigned_id(events: Seq<TableEvent>, j: int) -> int {
    insert_count(events.take(j)) + 1int
}

/// The rows that a run of events leaves: the `k`-th insertion stores its row
/// under id `k`, a delete removes its id, a change replaces a stored row.
pub open spec fn history_rows(events: Seq<TableEvent>) -> Map<u64, Row>
    decreases events.len(),
{
    if events.len() == 0 {
        Map::empty()
    } else {
        let prev = history_rows(events.drop_last());
        let id = (insert_count(events.drop_last()) + 1) as u64;
        match events.last() {
            TableEvent::Insert(row) => prev.insert(id, Row { id, ..row }),
            TableEvent::Delete(d) => prev.remove(d),
            TableEvent::Modify(m, row) => if prev.contains_key(m) {
                prev.insert(m, row)
            } else {
                prev
            },
        }
    }
}

/// Over any run of insertions, deletions and changes since `new`, the next id
/// is one more than the number of insertions so far (the `k`-th insertion
/// returns `k`), and the rows stored are those `history_rows` gives.
pub proof fn law_history(states: Seq<TableView>, events: Seq<TableEvent>)
    requires
        is_history(states, events),
    ensures
        forall|i: int|
            0 <= i <= events.len() ==> #[trigger] states[i].next_id == insert_count(events.take(i)) + 1
                && states[i].row_map() == history_rows(events.take(i)),
{
    assert forall|i: int| 0 <= i <= events.len() implies #[trigger] states[i].next_id == insert_count(
        events.take(i),
    ) + 1 && states[i].row_map() == history_rows(events.take(i)) by {
        lemma_history_prefix(states, events, i);
    }
}

proof fn lemma_history_prefix(states: Seq<TableView>, events: Seq<TableEvent>, i: int)
    requires
        is_history(states, events),
        0 <= i <= events.len(),
    ensures
        states[i].next_id == insert_count(events.take(i)) + 1,
        states[i].row_map() == history_rows(events.take(i)),
    decreases i,
{
    if i == 0 {
        assert(events.take(0) =~= Seq::<TableEvent>::empty());
    } else {
        lemma_history_prefix(states, events, i - 1);
        let t = events.take(i);
        assert(t.drop_last() =~= events.take(i - 1));
        assert(t.last() == events[i - 1]);
        assert(event_step(states[i - 1], events[i - 1], states[i]));
    }
}

/// Insertions at different positions of a run assign different ids, later
/// ones larger: an id is never handed out twice, even after a delete.
pub proof fn law_ids_unique_in_history(events: Seq<TableEvent>, j1: int, j2: int)
    requires
        0 <= j1 < j2 <= events.len(),
        events[j1] is Insert,
    ensures
        assigned_id(events, j1) < assigned_id(events, j2),
    decreases j2 - j1,
{
    let t = events.take(j2);
    assert(t.drop_last() =~= events.take(j2 - 1));
    assert(t.last() == events[j2 - 1]);
    if j2 - 1 > j1 {
        law_ids_unique_in_history(events, j1, j2 - 1);
    }
}

/// Whether `id` was assigned by an insertion of the run and no later event
/// deleted it.
pub open spec fn live_in_history(events: Seq<TableEvent>, id: u64) -> bool {
    exists|j: int|
        0 <= j < events.len() && #[trigger] events[j] is Insert && assigned_id(events, j) == id && forall|
            m: int,
        |
            j < m < events.len() ==> #[trigger] events[m] != TableEvent::Delete(id)
}

/// After any run of events, an id holds a row exactly when some insertion
/// assigned it and no later delete removed it.
pub proof fn law_live_ids(events: Seq<TableEvent>, id: u64)
    requires
        insert_count(events) < u64::MAX,
    ensures
        history_rows(events).contains_key(id) <==> live_in_history(events, id),
    decreases events.len(),
{
    if events.len() > 0 {
        let prev = events.drop_last();
        let e = events.last();
        let n = insert_count(prev);
        assert(insert_count(prev) <= insert_count(events));
        law_live_ids(prev, id);
        assert forall|j: int| 0 <= j < prev.len() implies #[trigger] assigned_id(prev, j) == assigned_id(
            events,
            j,
        ) by {
            assert(prev.take(j) =~= events.take(j));
        }
        assert(events.take(prev.len() as int) =~= prev);
        if live_in_history(events, id) {
            let j = choose|j: int|
                0 <= j < events.len() && #[trigger] events[j] is Insert && assigned_id(events, j) == id
                    && forall|m: int| j < m < events.len() ==> #[trigger] events[m] != TableEvent::Delete(id);
            if j < prev.len() {
                assert(prev[j] == events[j]);
                assert forall|m: int| j < m < prev.len() implies #[trigger] prev[m] != TableEvent::Delete(
                    id,
                ) by {
                    assert(prev[m] == events[m]);
                }
                assert(live_in_history(prev, id));
                assert(events[events.len() - 1] != TableEvent::Delete(id));
            } else {
                assert(assigned_id(events, j) == n + 1);
            }
        }
        if history_rows(events).contains_key(id) {
            match e {
                TableEvent::Insert(row) => {
                    if id == (n + 1) as u64 {
                        let j = prev.len() as int;
                        assert(events[j] is Insert);
                        assert(live_in_history(events, id));
                    } else {
                        assert(live_in_history(prev, id));
                        let j = choose|j: int|
                            0 <= j < prev.len() && #[trigger] prev[j] is Insert && assigned_id(prev, j) == id
                                && forall|m: int| j < m < prev.len() ==> #[trigger] prev[m] != TableEvent::Delete(id);
                        assert(events[j] == prev[j]);
                        assert forall|m: int| j < m < events.len() implies #[trigger] events[m]
                            != TableEvent::Delete(id) by {
                            if m < prev.len() {
                                assert(events[m] == prev[m]);
                            }
                        }
                    }
                },
                _ => {
                    assert(live_in_history(prev, id));
                    let j = choose|j: int|
                        0 <= j < prev.len() && #[trigger] prev[j] is Insert && assigned_id(prev, j) == id
                            && forall|m: int| j < m < prev.len() ==> #[trigger] prev[m] != TableEvent::Delete(id);
                    assert(events[j] == prev[j]);
                    assert forall|m: int| j < m < events.len() implies #[trigger] events[m]
                        != TableEvent::Delete(id) by {
                        if m < prev.len() {
                            assert(events[m] == prev[m]);
                        }
                    }
                },
            }
        }
    }
}

} // verus!
