//! Writing containers.

use vstd::prelude::*;
use vstd::utf8::encode_utf8;

use crate::bytes::{
    le_bytes, push_bytes, push_u16_le, push_u32_le, push_u64_le, words_bytes,
};
use crate::pvor::{fixed_part, meta_bytes, table_len, InfoView, FIXED_LEN, META_LEN, VERSION};

verus! {

/// A table to be written.
#[derive(Clone, Copy, Debug)]
pub struct TableMeta<'a> {
    pub name: &'a str,
    pub rows: u32,
    pub cols: u32,
    /// The values, row by row.
    pub values_u32_le: &'a [u32],
}

/// The mathematical reading of a [`TableMeta`].
pub struct MetaView {
    pub name: Seq<char>,
    pub rows: u32,
    pub cols: u32,
    pub values: Seq<u32>,
}

impl<'a> View for TableMeta<'a> {
    type V = MetaView;

    open spec fn view(&self) -> MetaView {
        MetaView {
            name: self.name@,
            rows: self.rows,
            cols: self.cols,
            values: self.values_u32_le@,
        }
    }
}

/// The readings of a list of tables.
pub open spec fn metas_view(tables: Seq<TableMeta<'_>>) -> Seq<MetaView> {
    tables.map_values(|t: TableMeta<'_>| t@)
}

/// Why tables could not be written.
#[derive(Debug)]
pub enum WriteError {
    /// The length of a table in bytes exceeds 64 bits.
    ByteLenOverflow,
    /// The end of a table lies beyond 64 bits.
    OffsetOverflow,
    /// The length of a name exceeds 16 bits.
    NameTooLong,
    /// A table has fewer values than its dimensions ask for.
    EndedEarly(String),
    /// A table has more values than its dimensions ask for.
    TooManyElements(String),
}

/// The mathematical reading of a [`WriteError`].
pub enum WriteErrorView {
    ByteLenOverflow,
    OffsetOverflow,
    NameTooLong,
    EndedEarly(Seq<char>),
    TooManyElements(Seq<char>),
}

impl View for WriteError {
    type V = WriteErrorView;

    open spec fn view(&self) -> WriteErrorView {
        match *self {
            WriteError::ByteLenOverflow => WriteErrorView::ByteLenOverflow,
            WriteError::OffsetOverflow => WriteErrorView::OffsetOverflow,
            WriteError::NameTooLong => WriteErrorView::NameTooLong,
            WriteError::EndedEarly(t) => WriteErrorView::EndedEarly(t@),
            WriteError::TooManyElements(t) => WriteErrorView::TooManyElements(t@),
        }
    }
}

/// The length of what stands before the table data, counting the first `n` descriptions.
pub open spec fn header_len(tables: Seq<MetaView>, n: nat) -> nat
    decreases n,
{
    if n == 0 {
        FIXED_LEN as nat
    } else {
        header_len(tables, (n - 1) as nat) + META_LEN as nat + encode_utf8(tables[n - 1].name).len()
    }
}

/// Where table number `i` begins: behind the header and the tables before it.
pub open spec fn offset_of(tables: Seq<MetaView>, i: nat) -> nat
    decreases i,
{
    if i == 0 {
        header_len(tables, tables.len())
    } else {
        offset_of(tables, (i - 1) as nat) + table_len(tables[i - 1].rows, tables[i - 1].cols)
    }
}

/// What is wrong with the layout of the first `n` tables, if anything.
pub open spec fn layout_error(tables: Seq<MetaView>, n: nat) -> Option<WriteErrorView>
    decreases n,
{
    if n == 0 {
        None
    } else {
        let before = layout_error(tables, (n - 1) as nat);
        if before is Some {
            before
        } else if table_len(tables[n - 1].rows, tables[n - 1].cols) > u64::MAX {
            Some(WriteErrorView::ByteLenOverflow)
        } else if offset_of(tables, n) > u64::MAX {
            Some(WriteErrorView::OffsetOverflow)
        } else {
            None
        }
    }
}

/// What the container says of table number `i`.
pub open spec fn info_of(tables: Seq<MetaView>, i: int) -> InfoView {
    InfoView {
        name: tables[i].name,
        rows: tables[i].rows,
        cols: tables[i].cols,
        offset: offset_of(tables, i as nat) as u64,
        byte_len: table_len(tables[i].rows, tables[i].cols) as u64,
    }
}

/// The descriptions of the first `n` tables.
pub open spec fn descriptions(tables: Seq<MetaView>, n: nat) -> Seq<u8>
    decreases n,
{
    if n == 0 {
        Seq::empty()
    } else {
        descriptions(tables, (n - 1) as nat) + meta_bytes(info_of(tables, n - 1))
    }
}

/// The data of the first `n` tables.
pub open spec fn data_bytes(tables: Seq<MetaView>, n: nat) -> Seq<u8>
    decreases n,
{
    if n == 0 {
        Seq::empty()
    } else {
        data_bytes(tables, (n - 1) as nat) + words_bytes(tables[n - 1].values)
    }
}

/// The name of a table is too long.
pub open spec fn has_long_name(t: MetaView) -> bool {
    encode_utf8(t.name).len() > u16::MAX
}

/// The number of values that the dimensions of a table ask for.
pub open spec fn num_values(t: MetaView) -> nat {
    (t.rows * t.cols) as nat
}

/// What writing the descriptions of the first `n` tables does: what is written, and how it ends.
pub open spec fn write_descriptions(tables: Seq<MetaView>, n: nat) -> (Seq<u8>, Option<
    WriteErrorView,
>)
    decreases n,
{
    if n == 0 {
        (fixed_part(tables.len()), None)
    } else {
        let (written, error) = write_descriptions(tables, (n - 1) as nat);
        if error is Some {
            (written, error)
        } else if has_long_name(tables[n - 1]) {
            (written, Some(WriteErrorView::NameTooLong))
        } else {
            (written + meta_bytes(info_of(tables, n - 1)), None)
        }
    }
}

/// What writing everything up to the data of the first `n` tables does.
pub open spec fn write_data(tables: Seq<MetaView>, n: nat) -> (Seq<u8>, Option<WriteErrorView>)
    decreases n,
{
    if n == 0 {
        write_descriptions(tables, tables.len())
    } else {
        let (written, error) = write_data(tables, (n - 1) as nat);
        let t = tables[n - 1];
        if error is Some {
            (written, error)
        } else if t.values.len() < num_values(t) {
            (written + words_bytes(t.values), Some(WriteErrorView::EndedEarly(t.name)))
        } else if t.values.len() > num_values(t) {
            (
                written + words_bytes(t.values.take(num_values(t) as int)),
                Some(WriteErrorView::TooManyElements(t.name)),
            )
        } else {
            (written + words_bytes(t.values), None)
        }
    }
}

/// What writing tables does: what is appended to the output, and how it ends.
pub open spec fn write_tables(tables: Seq<MetaView>) -> (Seq<u8>, Option<WriteErrorView>) {
    match layout_error(tables, tables.len()) {
        Some(e) => (Seq::empty(), Some(e)),
        None => write_data(tables, tables.len()),
    }
}

proof fn lemma_layout_prefix(tables: Seq<MetaView>, i: nat, n: nat)
    requires
        i <= n,
    ensures
        layout_error(tables, i) is Some ==> layout_error(tables, n) == layout_error(tables, i),
        layout_error(tables, n) is None ==> layout_error(tables, i) is None,
    decreases n - i,
{
    if i < n {
        lemma_layout_prefix(tables, i, (n - 1) as nat);
    }
}

proof fn lemma_write_prefix(tables: Seq<MetaView>, i: nat, n: nat)
    requires
        i <= n,
    ensures
        write_descriptions(tables, i).1 is Some ==> write_descriptions(tables, n)
            == write_descriptions(tables, i),
        write_data(tables, i).1 is Some ==> write_data(tables, n) == write_data(tables, i),
    decreases n - i,
{
    if i < n {
        lemma_write_prefix(tables, i, (n - 1) as nat);
    }
}

proof fn lemma_header_monotone(tables: Seq<MetaView>, i: nat, n: nat)
    requires
        i <= n,
    ensures
        header_len(tables, i) <= header_len(tables, n),
    decreases n - i,
{
    if i < n {
        lemma_header_monotone(tables, i, (n - 1) as nat);
    }
}

/// The length of what stands before the table data.
fn measure_header(tables: &[TableMeta<'_>]) -> (r: u64)
    requires
        header_len(metas_view(tables@), tables@.len()) <= u64::MAX,
    ensures
        r == header_len(metas_view(tables@), tables@.len()),
{
    let ghost view = metas_view(tables@);
    let mut len: u64 = FIXED_LEN as u64;
    let mut i: usize = 0;
    while i < tables.len()
        invariant
            i <= tables@.len(),
            view == metas_view(tables@),
            header_len(view, tables@.len()) <= u64::MAX,
            len == header_len(view, i as nat),
        decreases tables@.len() - i,
    {
        proof {
            assert(view[i as int] == tables@[i as int]@);
            lemma_header_monotone(view, (i + 1) as nat, tables@.len());
        }
        let name_len: usize = tables[i].name.as_bytes().len();
        len = len + META_LEN as u64 + name_len as u64;
        i += 1;
    }
    len
}

/// Where each table begins, and its length in bytes.
fn lay_out(tables: &[TableMeta<'_>]) -> (r: Result<Vec<(u64, u64)>, WriteError>)
    requires
        header_len(metas_view(tables@), tables@.len()) <= u64::MAX,
    ensures
        match r {
            Ok(v) => {
                &&& layout_error(metas_view(tables@), tables@.len()) is None
                &&& v@.len() == tables@.len()
                &&& forall|i: int|
                    0 <= i < v@.len() ==> {
                        &&& (#[trigger] v@[i]).0 == offset_of(metas_view(tables@), i as nat)
                        &&& v@[i].1 == table_len(tables@[i].rows, tables@[i].cols)
                    }
            },
            Err(e) => layout_error(metas_view(tables@), tables@.len()) == Some(e@),
        },
{
    let ghost view = metas_view(tables@);
    let mut r: Vec<(u64, u64)> = Vec::new();
    let mut cur: u64 = measure_header(tables);
    let mut i: usize = 0;
    while i < tables.len()
        invariant
            i <= tables@.len(),
            view == metas_view(tables@),
            cur == offset_of(view, i as nat),
            layout_error(view, i as nat) is None,
            r@.len() == i,
            forall|k: int|
                0 <= k < i ==> {
                    &&& (#[trigger] r@[k]).0 == offset_of(view, k as nat)
                    &&& r@[k].1 == table_len(tables@[k].rows, tables@[k].cols)
                },
        decreases tables@.len() - i,
    {
        proof {
            assert(view[i as int] == tables@[i as int]@);
            lemma_layout_prefix(view, (i + 1) as nat, tables@.len());
        }
        let t = &tables[i];
        let rows: u64 = t.rows as u64;
        let cols: u64 = t.cols as u64;
        assert(rows * cols <= 0xffff_ffff * 0xffff_ffff) by (nonlinear_arith)
            requires
                rows <= 0xffff_ffff,
                cols <= 0xffff_ffff,
        ;
        let byte_len: u64 = match (rows * cols).checked_mul(4) {
            Some(n) => n,
            None => {
                return Err(WriteError::ByteLenOverflow);
            },
        };
        let end: u64 = match cur.checked_add(byte_len) {
            Some(n) => n,
            None => {
                return Err(WriteError::OffsetOverflow);
            },
        };
        r.push((cur, byte_len));
        cur = end;
        i += 1;
    }
    Ok(r)
}

/// Appends the description of a table.
fn push_meta(out: &mut Vec<u8>, t: &TableMeta<'_>, name_len: u16, offset: u64, byte_len: u64)
    requires
        name_len == encode_utf8(t.name@).len(),
    ensures
        final(out)@ == old(out)@ + meta_bytes(
            (InfoView { name: t.name@, rows: t.rows, cols: t.cols, offset, byte_len }),
        ),
{
    let ghost start = out@;
    push_u16_le(out, name_len);
    push_bytes(out, t.name.as_bytes());
    push_u32_le(out, t.rows);
    push_u32_le(out, t.cols);
    out.push(4);
    out.push(0);
    push_u16_le(out, 0);
    push_u64_le(out, offset);
    push_u64_le(out, byte_len);
    assert(out@ =~= start + meta_bytes(
        InfoView { name: t.name@, rows: t.rows, cols: t.cols, offset, byte_len },
    ));
}

/// Appends the first `n` values.
fn push_words(out: &mut Vec<u8>, values: &[u32], n: usize)
    requires
        n <= values@.len(),
    ensures
        final(out)@ == old(out)@ + words_bytes(values@.take(n as int)),
{
    let ghost start = out@;
    let mut i: usize = 0;
    assert(out@ =~= start + words_bytes(values@.take(0)));
    while i < n
        invariant
            i <= n <= values@.len(),
            out@ == start + words_bytes(values@.take(i as int)),
        decreases n - i,
    {
        let ghost before = out@;
        push_u32_le(out, values[i]);
        proof {
            assert(values@.take(i + 1).drop_last() =~= values@.take(i as int));
            assert(out@ =~= start + words_bytes(values@.take(i + 1)));
        }
        i += 1;
    }
}

/// Appends tables to an output, for which the offsets count from the start of what is appended. Where
/// it fails, what was appended until then stays.
pub fn write_u32_tables_streaming(out: &mut Vec<u8>, tables: &[TableMeta<'_>]) -> (r: Result<
    (),
    WriteError,
>)
    requires
        header_len(metas_view(tables@), tables@.len()) <= u64::MAX,
    ensures
        final(out)@ == old(out)@ + write_tables(metas_view(tables@)).0,
        match r {
            Ok(_) => write_tables(metas_view(tables@)).1 is None,
            Err(e) => write_tables(metas_view(tables@)).1 == Some(e@),
        },
{
    let ghost view = metas_view(tables@);
    let ghost start = out@;
    let offsets = match lay_out(tables) {
        Ok(v) => v,
        Err(e) => {
            assert(out@ =~= start + Seq::<u8>::empty());
            return Err(e);
        },
    };
    push_bytes(out, "PVOR".as_bytes());
    push_u32_le(out, VERSION);
    let num_tables: u32 = (tables.len() as u64 % 0x1_0000_0000) as u32;
    push_u32_le(out, num_tables);
    push_u32_le(out, 0);
    proof {
        lemma_truncated_count(tables@.len());
        assert(out@ =~= start + fixed_part(tables@.len()));
    }
    let mut i: usize = 0;
    while i < tables.len()
        invariant
            i <= tables@.len(),
            view == metas_view(tables@),
            view.len() == tables@.len(),
            layout_error(view, tables@.len()) is None,
            offsets@.len() == tables@.len(),
            forall|k: int|
                0 <= k < tables@.len() ==> {
                    &&& (#[trigger] offsets@[k]).0 == offset_of(view, k as nat)
                    &&& offsets@[k].1 == table_len(tables@[k].rows, tables@[k].cols)
                },
            write_descriptions(view, i as nat).1 is None,
            out@ == start + write_descriptions(view, i as nat).0,
            start == old(out)@,
        decreases tables@.len() - i,
    {
        let ghost before = out@;
        let t = &tables[i];
        proof {
            assert(view[i as int] == t@);
            lemma_write_prefix(view, (i + 1) as nat, view.len());
            lemma_write_prefix(view, 0, view.len());
        }
        let name_len: usize = t.name.as_bytes().len();
        if name_len > 65535 {
            return Err(WriteError::NameTooLong);
        }
        let (offset, byte_len) = offsets[i];
        push_meta(out, t, name_len as u16, offset, byte_len);
        proof {
            assert(InfoView { name: t.name@, rows: t.rows, cols: t.cols, offset, byte_len }
                =~= info_of(view, i as int));
            assert(out@ =~= start + write_descriptions(view, (i + 1) as nat).0);
        }
        i += 1;
    }
    let mut k: usize = 0;
    while k < tables.len()
        invariant
            k <= tables@.len(),
            view == metas_view(tables@),
            view.len() == tables@.len(),
            layout_error(view, tables@.len()) is None,
            write_data(view, k as nat).1 is None,
            out@ == start + write_data(view, k as nat).0,
            start == old(out)@,
        decreases tables@.len() - k,
    {
        let ghost before = out@;
        let t = &tables[k];
        proof {
            assert(view[k as int] == t@);
            lemma_write_prefix(view, (k + 1) as nat, view.len());
        }
        let rows: u64 = t.rows as u64;
        let cols: u64 = t.cols as u64;
        assert(rows * cols <= 0xffff_ffff * 0xffff_ffff) by (nonlinear_arith)
            requires
                rows <= 0xffff_ffff,
                cols <= 0xffff_ffff,
        ;
        let expected: u64 = rows * cols;
        let got: usize = t.values_u32_le.len();
        if (got as u64) < expected {
            push_words(out, t.values_u32_le, got);
            proof {
                assert(t@.values.take(got as int) =~= t@.values);
                assert(out@ =~= start + write_data(view, (k + 1) as nat).0);
            }
            return Err(WriteError::EndedEarly(t.name.to_owned()));
        }
        push_words(out, t.values_u32_le, expected as usize);
        proof {
            if got as u64 == expected {
                assert(t@.values.take(got as int) =~= t@.values);
            }
            assert(out@ =~= start + write_data(view, (k + 1) as nat).0);
        }
        if (got as u64) > expected {
            return Err(WriteError::TooManyElements(t.name.to_owned()));
        }
        k += 1;
    }
    Ok(())
}

/// The low 32 bits of a count are its four lowest bytes.
proof fn lemma_truncated_count(n: nat)
    ensures
        le_bytes(n % 0x1_0000_0000, 4) == le_bytes(n, 4),
{
    let m = n % 0x1_0000_0000;
    reveal_with_fuel(le_bytes, 5);
    assert(m % 256 == n % 256);
    assert((m / 256) % 256 == (n / 256) % 256);
    assert((m / 256 / 256) % 256 == (n / 256 / 256) % 256);
    assert((m / 256 / 256 / 256) % 256 == (n / 256 / 256 / 256) % 256);
    assert(le_bytes(m, 4) =~= le_bytes(n, 4));
}

} // verus!
