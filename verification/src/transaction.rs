use vstd::prelude::*;

use crate::ternary::FieldValue;

verus! {

broadcast use vstd::string::to_string_from_display_ensures_for_str;

/// A transaction log entry.
#[derive(Clone, Debug)]
pub enum TxnOp {
    /// row id, table name
    Insert(u64, String),
    /// row id, table name
    Delete(u64, String),
    /// row id, table name, field name, value
    Update(u64, String, String, FieldValue),
}

/// A log entry with its names taken as character sequences.
pub enum TxnOpView {
    Insert(u64, Seq<char>),
    Delete(u64, Seq<char>),
    Update(u64, Seq<char>, Seq<char>, FieldValue),
}

impl View for TxnOp {
    type V = TxnOpView;

    open spec fn view(&self) -> TxnOpView {
        match self {
            TxnOp::Insert(id, t) => TxnOpView::Insert(*id, t@),
            TxnOp::Delete(id, t) => TxnOpView::Delete(*id, t@),
            TxnOp::Update(id, t, f, v) => TxnOpView::Update(*id, t@, f@, *v),
        }
    }
}

/// The log entries of a sequence, each taken by its view.
pub open spec fn ops_view(ops: Seq<TxnOp>) -> Seq<TxnOpView> {
    ops.map_values(|op: TxnOp| op@)
}

/// The abstract state of a transaction: its id, its log, in order, and whether it was
/// committed.
pub struct TxnView {
    pub id: u64,
    pub log: Seq<TxnOpView>,
    pub committed: bool,
}

/// A transaction that records the operations done under it, for
/// application-level undo.
pub struct TernaryTransaction {
    pub id: u64,
    log: Vec<TxnOp>,
    committed: bool,
}

impl View for TernaryTransaction {
    type V = TxnView;

    closed spec fn view(&self) -> TxnView {
        TxnView { id: self.id, log: ops_view(self.log@), committed: self.committed }
    }
}

impl TernaryTransaction {
    pub fn new(id: u64) -> (t: Self)
        ensures
            t@.id == id,
            t@.log == Seq::<TxnOpView>::empty(),
            !t@.committed,
    {
        let t = TernaryTransaction { id, log: Vec::new(), committed: false };
        assert(t@.log =~= Seq::<TxnOpView>::empty());
        t
    }

    fn log_op(&mut self, op: TxnOp)
        ensures
            final(self)@.id == old(self)@.id,
            final(self)@.committed == old(self)@.committed,
            final(self)@.log == old(self)@.log.push(op@),
    {
        self.log.push(op);
        assert(ops_view(self.log@) =~= ops_view(old(self).log@).push(op@));
    }

    pub fn log_insert(&mut self, row_id: u64, table_name: &str)
        ensures
            final(self)@.id == old(self)@.id,
            final(self)@.committed == old(self)@.committed,
            final(self)@.log == old(self)@.log.push(TxnOpView::Insert(row_id, table_name@)),
    {
        self.log_op(TxnOp::Insert(row_id, table_name.to_string()));
    }

    pub fn log_delete(&mut self, row_id: u64, table_name: &str)
        ensures
            final(self)@.id == old(self)@.id,
            final(self)@.committed == old(self)@.committed,
            final(self)@.log == old(self)@.log.push(TxnOpView::Delete(row_id, table_name@)),
    {
        self.log_op(TxnOp::Delete(row_id, table_name.to_string()));
    }

    pub fn log_update(&mut self, row_id: u64, table: &str, field: &str, value: FieldValue)
        ensures
            final(self)@.id == old(self)@.id,
            final(self)@.committed == old(self)@.committed,
            final(self)@.log == old(self)@.log.push(
                TxnOpView::Update(row_id, table@, field@, value),
            ),
    {
        self.log_op(TxnOp::Update(row_id, table.to_string(), field.to_string(), value));
    }

    /// Marks the transaction committed; the log stays as it is.
    pub fn commit(&mut self)
        ensures
            final(self)@.id == old(self)@.id,
            final(self)@.committed,
            final(self)@.log == old(self)@.log,
    {
        self.committed = true;
    }

    pub fn is_committed(&self) -> (b: bool)
        ensures
            b == self@.committed,
    {
        self.committed
    }

    /// The logged operations, oldest first.
    pub fn rollback_log(&self) -> (r: &[TxnOp])
        ensures
            ops_view(r@) == self@.log,
    {
        self.log.as_slice()
    }

    pub fn op_count(&self) -> (n: usize)
        ensures
            n == self@.log.len(),
    {
        self.log.len()
    }
}


/// The number of logged operations equals the length of the rollback log.
pub proof fn law_op_count_is_log_length(ops: Seq<TxnOp>, v: TxnView)
    requires
        ops_view(ops) == v.log,
    ensures
        ops.len() == v.log.len(),
{
}

} // verus!
