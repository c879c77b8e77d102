//! Tables that are held in memory.

use vstd::prelude::*;

use crate::babybear::canonical;
use crate::matrix::{lemma_rows_canonical, MatrixView, RowMatrix};
use crate::rows::{normal_table, table_canonical, RowError, RowProvider, TableModel};
use crate::text::str_eq;

verus! {

/// The last of the first `n` entries of that name.
pub open spec fn find_entry(
    entries: Seq<(Seq<char>, MatrixView)>,
    name: Seq<char>,
    n: nat,
) -> Option<int>
    decreases n,
{
    if n == 0 {
        None
    } else if entries[n - 1].0 == name {
        Some(n - 1)
    } else {
        find_entry(entries, name, (n - 1) as nat)
    }
}

/// An entry that is found is in the list.
proof fn lemma_find_entry(entries: Seq<(Seq<char>, MatrixView)>, name: Seq<char>, n: nat)
    ensures
        find_entry(entries, name, n) matches Some(i) ==> 0 <= i < n,
    decreases n,
{
    if n > 0 {
        lemma_find_entry(entries, name, (n - 1) as nat);
    }
}

/// The tables of named matrices. Of several matrices of the same name the last one counts.
pub open spec fn entry_tables(entries: Seq<(Seq<char>, MatrixView)>) -> Map<Seq<char>, TableModel> {
    Map::new(
        |name: Seq<char>| find_entry(entries, name, entries.len()) is Some,
        |name: Seq<char>| entries[find_entry(entries, name, entries.len())->0].1.table(),
    )
}

/// The readings of a list of named matrices.
pub open spec fn entries_view(list: Seq<(&str, &RowMatrix)>) -> Seq<(Seq<char>, MatrixView)> {
    list.map_values(|x: (&str, &RowMatrix)| (x.0@, x.1@))
}

/// A matrix can be served: it holds field elements, and its number of columns fits in 32 bits.
pub open spec fn servable(m: MatrixView) -> bool {
    m.wf() && m.width <= u32::MAX
}

/// Serves traces that are held in memory.
pub struct InMemoryRowProvider<'a> {
    entries: Vec<(&'a str, &'a RowMatrix)>,
}

impl<'a> InMemoryRowProvider<'a> {
    /// The matrices that are served, by name.
    pub closed spec fn entries(&self) -> Seq<(Seq<char>, MatrixView)> {
        entries_view(self.entries@)
    }

    #[verifier::type_invariant]
    spec fn wf(&self) -> bool {
        forall|i: int| 0 <= i < self.entries@.len() ==> servable((#[trigger] self.entries@[i]).1@)
    }

    /// Serves main traces and preprocessed traces. Where names clash, a later one takes the place of
    /// an earlier one, and a preprocessed trace that of a main trace.
    pub fn new(
        main: &'a [(&'a str, &'a RowMatrix)],
        pre: &'a [(&'a str, &'a RowMatrix)],
    ) -> (r: InMemoryRowProvider<'a>)
        requires
            forall|i: int| 0 <= i < main@.len() ==> servable((#[trigger] main@[i]).1@),
            forall|i: int| 0 <= i < pre@.len() ==> servable((#[trigger] pre@[i]).1@),
        ensures
            r.entries() == entries_view(main@) + entries_view(pre@),
            forall|t: Seq<char>| #[trigger] table_canonical(r.tables(), t),
    {
        let mut entries: Vec<(&'a str, &'a RowMatrix)> = Vec::new();
        let mut i: usize = 0;
        while i < main.len()
            invariant
                i <= main@.len(),
                entries@ == main@.take(i as int),
            decreases main@.len() - i,
        {
            entries.push(main[i]);
            assert(main@.take(i as int).push(main@[i as int]) =~= main@.take(i + 1));
            i += 1;
        }
        assert(main@.take(main@.len() as int) =~= main@);
        let mut k: usize = 0;
        while k < pre.len()
            invariant
                k <= pre@.len(),
                entries@ == main@ + pre@.take(k as int),
            decreases pre@.len() - k,
        {
            entries.push(pre[k]);
            assert((main@ + pre@.take(k as int)).push(pre@[k as int]) =~= main@ + pre@.take(k + 1));
            k += 1;
        }
        assert(pre@.take(pre@.len() as int) =~= pre@);
        assert forall|j: int| 0 <= j < entries@.len() implies servable(
            (#[trigger] entries@[j]).1@,
        ) by {
            if j < main@.len() {
                assert(entries@[j] == main@[j]);
            } else {
                assert(entries@[j] == pre@[j - main@.len()]);
            }
        }
        assert(entries_view(entries@) =~= entries_view(main@) + entries_view(pre@));
        let r = InMemoryRowProvider { entries };
        assert forall|t: Seq<char>| #[trigger] table_canonical(r.tables(), t) by {
            let list = r.entries();
            lemma_find_entry(list, t, list.len());
            if let Some(j) = find_entry(list, t, list.len()) {
                assert(list[j].1 == entries@[j].1@);
                assert(servable(entries@[j].1@));
                let m = list[j].1;
                assert forall|i: int| 0 <= i < m.table().rows implies canonical(
                    #[trigger] m.table().data[i],
                ) by {
                    lemma_rows_canonical(m, i);
                }
            }
        }
        r
    }

    fn find(&self, name: &str) -> (r: Option<usize>)
        ensures
            match r {
                Some(i) => i < self.entries@.len() && find_entry(
                    self.entries(),
                    name@,
                    self.entries().len(),
                ) == Some(i as int),
                None => find_entry(self.entries(), name@, self.entries().len()) is None,
            },
    {
        let ghost view = self.entries();
        let mut i: usize = self.entries.len();
        while i > 0
            invariant
                i <= self.entries@.len(),
                view == entries_view(self.entries@),
                find_entry(view, name@, view.len()) == find_entry(view, name@, i as nat),
            decreases i,
        {
            assert(view[i - 1] == (self.entries@[i - 1].0@, self.entries@[i - 1].1@));
            if str_eq(self.entries[i - 1].0, name) {
                return Some(i - 1);
            }
            i -= 1;
        }
        None
    }
}

impl<'a> RowProvider for InMemoryRowProvider<'a> {
    open spec fn tables(&self) -> Map<Seq<char>, TableModel> {
        entry_tables(self.entries())
    }

    proof fn lemma_normal(&self) {
        let tables = self.tables();
        assert forall|t: Seq<char>| #[trigger] tables.contains_key(t) implies normal_table(
            tables[t],
        ) by {}
    }

    fn dims(&self, table: &str) -> (r: Option<(u32, u32)>) {
        match self.find(table) {
            Some(i) => {
                let m = self.entries[i].1;
                assert(self.entries()[i as int].1 == m@);
                Some((m.height() as u32, m.width as u32))
            },
            None => None,
        }
    }

    fn read_row_u32(&mut self, table: &str, row: u32) -> (r: Result<Vec<u32>, RowError>) {
        proof {
            use_type_invariant(&*self);
        }
        let i: usize = match self.find(table) {
            Some(i) => i,
            None => {
                return Err(RowError::MissingTable(table.to_owned()));
            },
        };
        let m = self.entries[i].1;
        let ghost entry = self.entries()[i as int];
        assert(entry.1 == m@);
        let height: usize = m.height();
        if row >= height as u32 {
            return Err(RowError::RowOutOfRange(table.to_owned()));
        }
        assert(servable(self.entries@[i as int].1@));
        Ok(m.row(row as usize))
    }
}

} // verus!
