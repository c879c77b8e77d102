//! Where table rows come from.

use vstd::prelude::*;

use crate::babybear::canonical;

verus! {

/// What a table holds: `rows` rows of `cols` values each, and which of the rows can be read.
#[verifier::ext_equal]
pub struct TableModel {
    pub rows: u32,
    pub cols: u32,
    pub data: Seq<Seq<u32>>,
    pub readable: Seq<bool>,
}

/// Why a row could not be read. Each variant names the table.
#[derive(Debug)]
pub enum RowError {
    /// No table has that name.
    MissingTable(String),
    /// The table has no such row.
    RowOutOfRange(String),
    /// The table has the row, but its values could not be obtained.
    Unreadable(String),
}

/// The mathematical reading of a [`RowError`].
pub enum RowErrorView {
    MissingTable(Seq<char>),
    RowOutOfRange(Seq<char>),
    Unreadable(Seq<char>),
}

impl View for RowError {
    type V = RowErrorView;

    open spec fn view(&self) -> RowErrorView {
        match *self {
            RowError::MissingTable(t) => RowErrorView::MissingTable(t@),
            RowError::RowOutOfRange(t) => RowErrorView::RowOutOfRange(t@),
            RowError::Unreadable(t) => RowErrorView::Unreadable(t@),
        }
    }
}

/// The dimensions of a table, `(rows, cols)`.
pub open spec fn dims_of(tables: Map<Seq<char>, TableModel>, table: Seq<char>) -> Option<(u32, u32)> {
    if tables.contains_key(table) {
        Some((tables[table].rows, tables[table].cols))
    } else {
        None
    }
}

/// What reading a row gives.
pub open spec fn read_of(tables: Map<Seq<char>, TableModel>, table: Seq<char>, row: u32) -> Result<
    Seq<u32>,
    RowErrorView,
> {
    if !tables.contains_key(table) {
        Err(RowErrorView::MissingTable(table))
    } else if row >= tables[table].rows {
        Err(RowErrorView::RowOutOfRange(table))
    } else if !tables[table].readable[row as int] {
        Err(RowErrorView::Unreadable(table))
    } else {
        Ok(tables[table].data[row as int])
    }
}

/// Every value of the named table that can be read is a canonical field element.
pub open spec fn table_canonical(tables: Map<Seq<char>, TableModel>, table: Seq<char>) -> bool {
    tables.contains_key(table) ==> forall|i: int|
        0 <= i < tables[table].rows && tables[table].readable[i] ==> canonical(
            #[trigger] tables[table].data[i],
        )
}

/// Every table has as many rows as it says, and nothing is known of a row that cannot be read.
pub open spec fn normal(tables: Map<Seq<char>, TableModel>) -> bool {
    forall|t: Seq<char>| #[trigger] tables.contains_key(t) ==> normal_table(tables[t])
}

/// A table has as many rows as it says, and nothing is known of a row that cannot be read.
pub open spec fn normal_table(t: TableModel) -> bool {
    &&& t.data.len() == t.rows
    &&& t.readable.len() == t.rows
    &&& forall|i: int| 0 <= i < t.rows && !t.readable[i] ==> #[trigger] t.data[i] == Seq::<u32>::empty()
}

/// Abstraction over where tables come from (in-memory traces or a table container).
pub trait RowProvider {
    /// What the provider serves.
    spec fn tables(&self) -> Map<Seq<char>, TableModel>;

    /// What the provider serves is determined by what it answers.
    proof fn lemma_normal(&self)
        ensures
            normal(self.tables()),
    ;

    /// The dimensions `(rows, cols)` of a table, if there is one of that name.
    fn dims(&self, table: &str) -> (r: Option<(u32, u32)>)
        ensures
            r == dims_of(self.tables(), table@),
    ;

    /// Reads one row.
    fn read_row_u32(&mut self, table: &str, row: u32) -> (r: Result<Vec<u32>, RowError>)
        ensures
            final(self).tables() == old(self).tables(),
            match r {
                Ok(v) => {
                    &&& read_of(old(self).tables(), table@, row) == Ok::<Seq<u32>, RowErrorView>(v@)
                    &&& v@.len() == old(self).tables()[table@].cols
                },
                Err(e) => read_of(old(self).tables(), table@, row) == Err::<
                    Seq<u32>,
                    RowErrorView,
                >(e@),
            },
    ;
}

/// Two families of tables give the same answers.
pub open spec fn agree(a: Map<Seq<char>, TableModel>, b: Map<Seq<char>, TableModel>) -> bool {
    &&& forall|t: Seq<char>| #[trigger] dims_of(a, t) == dims_of(b, t)
    &&& forall|t: Seq<char>, row: u32| #[trigger] read_of(a, t, row) == read_of(b, t, row)
}

/// Providers that give the same answers serve the same tables.
pub proof fn law_equal_answers_mean_equal_tables<P: RowProvider, Q: RowProvider>(p: P, q: Q)
    requires
        agree(p.tables(), q.tables()),
    ensures
        p.tables() == q.tables(),
{
    p.lemma_normal();
    q.lemma_normal();
    let a = p.tables();
    let b = q.tables();
    assert forall|t: Seq<char>| a.contains_key(t) == b.contains_key(t) by {
        assert(dims_of(a, t) == dims_of(b, t));
    }
    assert forall|t: Seq<char>| #[trigger] a.contains_key(t) implies a[t] == b[t] by {
        assert(dims_of(a, t) == dims_of(b, t));
        assert(b.contains_key(t));
        assert forall|i: int| 0 <= i < a[t].rows implies a[t].readable[i] == b[t].readable[i]
            && a[t].data[i] == b[t].data[i] by {
            assert(read_of(a, t, i as u32) == read_of(b, t, i as u32));
        }
        assert(a[t].data =~= b[t].data);
        assert(a[t].readable =~= b[t].readable);
    }
    assert(a =~= b);
}

} // verus!
