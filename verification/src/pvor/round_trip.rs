//! A container that was written can be read.

use vstd::prelude::*;
use vstd::utf8::{encode_utf8, encode_utf8_decode_utf8, encode_utf8_valid_utf8};

use crate::bytes::{
    le_bytes, lemma_byte_ranges, lemma_le_bytes_len, lemma_le_round_trip, lemma_word_at,
    lemma_words_bytes_len, words_bytes,
};
use crate::pvor::reader::{
    container_tables, find_table, number_at, parse_container, parse_meta, parse_metas, row_start,
    row_values, row_within, rows_within, table_model, PvorErrorView,
};
use crate::pvor::writer::{
    data_bytes, descriptions, has_long_name, header_len, info_of, layout_error, num_values,
    offset_of, write_data, write_descriptions, write_tables, MetaView,
};
use crate::rows::TableModel;
use crate::pvor::{fixed_part, magic, meta_bytes, table_len, InfoView, FIXED_LEN, META_LEN, VERSION};

verus! {

pub proof fn lemma_magic()
    ensures
        magic().len() == 4,
{
    reveal_strlit("PVOR");
    assert(vstd::utf8::is_ascii_chars("PVOR"@));
    vstd::utf8::is_ascii_chars_encode_utf8("PVOR"@);
}

pub proof fn lemma_meta_len(info: InfoView)
    ensures
        meta_bytes(info).len() == META_LEN + encode_utf8(info.name).len(),
{
    lemma_le_bytes_len(encode_utf8(info.name).len(), 2);
    lemma_le_bytes_len(info.rows as nat, 4);
    lemma_le_bytes_len(info.cols as nat, 4);
    lemma_le_bytes_len(0, 2);
    lemma_le_bytes_len(info.offset as nat, 8);
    lemma_le_bytes_len(info.byte_len as nat, 8);
}

/// A part of a part is a part.
pub proof fn lemma_part(b: Seq<u8>, at: int, s: Seq<u8>, x: int, y: int)
    requires
        0 <= at,
        at + s.len() <= b.len(),
        b.subrange(at, at + s.len()) == s,
        0 <= x <= y <= s.len(),
    ensures
        b.subrange(at + x, at + y) == s.subrange(x, y),
{
    assert(b.subrange(at + x, at + y) =~= b.subrange(at, at + s.len()).subrange(x, y));
}

/// The description of a table is read as what it was written for.
proof fn lemma_parse_meta(b: Seq<u8>, at: int, info: InfoView)
    requires
        0 <= at,
        at + meta_bytes(info).len() <= b.len(),
        b.subrange(at, at + meta_bytes(info).len()) == meta_bytes(info),
        encode_utf8(info.name).len() <= u16::MAX,
        table_len(info.rows, info.cols) <= u64::MAX,
        info.byte_len == table_len(info.rows, info.cols),
    ensures
        parse_meta(b, at) == Ok::<(InfoView, int), PvorErrorView>(
            (info, at + META_LEN + encode_utf8(info.name).len()),
        ),
{
    let s = meta_bytes(info);
    let name = encode_utf8(info.name);
    let n = name.len() as int;
    lemma_meta_len(info);
    lemma_byte_ranges();
    lemma_le_round_trip(n as nat, 2);
    lemma_le_round_trip(info.rows as nat, 4);
    lemma_le_round_trip(info.cols as nat, 4);
    lemma_le_bytes_len(0, 2);
    lemma_le_round_trip(info.offset as nat, 8);
    lemma_le_round_trip(info.byte_len as nat, 8);
    let m = 2 + n;
    lemma_part(b, at, s, 0, 2);
    lemma_part(b, at, s, 2, m);
    lemma_part(b, at, s, m, m + 4);
    lemma_part(b, at, s, m + 4, m + 8);
    lemma_part(b, at, s, m + 8, m + 10);
    lemma_part(b, at, s, m + 12, m + 20);
    lemma_part(b, at, s, m + 20, m + 28);
    assert(s.subrange(0, 2) =~= le_bytes(n as nat, 2));
    assert(s.subrange(2, m) =~= name);
    assert(s.subrange(m, m + 4) =~= le_bytes(info.rows as nat, 4));
    assert(s.subrange(m + 4, m + 8) =~= le_bytes(info.cols as nat, 4));
    assert(s.subrange(m + 8, m + 10) =~= seq![4u8, 0u8]);
    assert(s.subrange(m + 12, m + 20) =~= le_bytes(info.offset as nat, 8));
    assert(s.subrange(m + 20, m + 28) =~= le_bytes(info.byte_len as nat, 8));
    assert(b[at + m + 8] == b.subrange(at + m + 8, at + m + 10)[0]);
    assert(b[at + m + 9] == b.subrange(at + m + 8, at + m + 10)[1]);
    encode_utf8_valid_utf8(info.name);
    encode_utf8_decode_utf8(info.name);
    assert(at + 2 + n == at + m);
    assert(number_at(b, at, 2) == n);
    assert(b.subrange(at + 2, at + 2 + n) == name);
}

/// What was written without an error, piece by piece.
proof fn lemma_written(tables: Seq<MetaView>, k: nat)
    ensures
        write_descriptions(tables, k).1 is None ==> {
            &&& write_descriptions(tables, k).0 == fixed_part(tables.len()) + descriptions(
                tables,
                k,
            )
            &&& forall|i: int| 0 <= i < k ==> !has_long_name(#[trigger] tables[i])
        },
    decreases k,
{
    if k > 0 {
        lemma_written(tables, (k - 1) as nat);
        assert(write_descriptions(tables, k).1 is None ==> write_descriptions(tables, k).0
            =~= fixed_part(tables.len()) + descriptions(tables, k));
    } else {
        assert(fixed_part(tables.len()) + descriptions(tables, 0) =~= fixed_part(tables.len()));
    }
}

proof fn lemma_written_data(tables: Seq<MetaView>, k: nat)
    requires
        write_data(tables, k).1 is None,
    ensures
        write_descriptions(tables, tables.len()).1 is None,
        write_data(tables, k).0 == write_descriptions(tables, tables.len()).0 + data_bytes(
            tables,
            k,
        ),
        forall|i: int|
            0 <= i < k ==> (#[trigger] tables[i]).values.len() == num_values(tables[i]),
    decreases k,
{
    let start = write_descriptions(tables, tables.len()).0;
    if k > 0 {
        lemma_written_data(tables, (k - 1) as nat);
        assert(write_data(tables, k).0 =~= start + data_bytes(tables, k));
    } else {
        assert(start + data_bytes(tables, 0) =~= start);
    }
}

proof fn lemma_descriptions_len(tables: Seq<MetaView>, k: nat)
    ensures
        FIXED_LEN + descriptions(tables, k).len() == header_len(tables, k),
    decreases k,
{
    if k > 0 {
        lemma_descriptions_len(tables, (k - 1) as nat);
        lemma_meta_len(info_of(tables, k - 1));
    }
}

proof fn lemma_data_len(tables: Seq<MetaView>, k: nat)
    requires
        forall|i: int|
            0 <= i < k ==> (#[trigger] tables[i]).values.len() == num_values(tables[i]),
    ensures
        header_len(tables, tables.len()) + data_bytes(tables, k).len() == offset_of(tables, k),
    decreases k,
{
    if k > 0 {
        lemma_data_len(tables, (k - 1) as nat);
        lemma_words_bytes_len(tables[k - 1].values);
        let t = tables[k - 1];
        assert(t.values.len() == num_values(t));
        assert(4 * (t.rows * t.cols) == t.rows * t.cols * 4) by (nonlinear_arith);
    }
}

/// The layout of tables without an error leaves room for each of them.
pub proof fn lemma_layout(tables: Seq<MetaView>, k: nat, n: nat)
    requires
        layout_error(tables, n) is None,
        k < n,
    ensures
        table_len(tables[k as int].rows, tables[k as int].cols) <= u64::MAX,
        offset_of(tables, k + 1) <= u64::MAX,
        offset_of(tables, k) <= offset_of(tables, k + 1),
    decreases n,
{
    if k < n - 1 {
        lemma_layout(tables, k, (n - 1) as nat);
    }
    assert(tables[k as int].rows * tables[k as int].cols * 4 >= 0) by (nonlinear_arith);
}

/// The description of table number `k` stands behind those before it.
pub proof fn lemma_description_at(tables: Seq<MetaView>, k: nat, n: nat)
    requires
        k < n,
    ensures
        ({
            let d = descriptions(tables, n);
            let at = (header_len(tables, k) - FIXED_LEN) as int;
            let s = meta_bytes(info_of(tables, k as int));
            &&& 0 <= at
            &&& at + s.len() <= d.len()
            &&& d.subrange(at, at + s.len()) == s
        }),
    decreases n,
{
    lemma_descriptions_len(tables, k);
    lemma_descriptions_len(tables, (n - 1) as nat);
    let d = descriptions(tables, n);
    let before = descriptions(tables, (n - 1) as nat);
    let at = (header_len(tables, k) - FIXED_LEN) as int;
    let s = meta_bytes(info_of(tables, k as int));
    if k < n - 1 {
        lemma_description_at(tables, k, (n - 1) as nat);
        assert(d.subrange(at, at + s.len()) =~= before.subrange(at, at + s.len()));
    } else {
        assert(d.subrange(at, at + s.len()) =~= s);
    }
}

/// The data of table number `k` stand behind those before it.
pub proof fn lemma_data_at(tables: Seq<MetaView>, k: nat, n: nat)
    requires
        k < n,
        forall|i: int|
            0 <= i < n ==> (#[trigger] tables[i]).values.len() == num_values(tables[i]),
    ensures
        ({
            let d = data_bytes(tables, n);
            let at = (offset_of(tables, k) - header_len(tables, tables.len())) as int;
            let s = words_bytes(tables[k as int].values);
            &&& 0 <= at
            &&& at + s.len() <= d.len()
            &&& d.subrange(at, at + s.len()) == s
        }),
    decreases n,
{
    lemma_data_len(tables, k);
    lemma_data_len(tables, (n - 1) as nat);
    let d = data_bytes(tables, n);
    let before = data_bytes(tables, (n - 1) as nat);
    let at = (offset_of(tables, k) - header_len(tables, tables.len())) as int;
    let s = words_bytes(tables[k as int].values);
    if k < n - 1 {
        lemma_data_at(tables, k, (n - 1) as nat);
        assert(d.subrange(at, at + s.len()) =~= before.subrange(at, at + s.len()));
    } else {
        assert(d.subrange(at, at + s.len()) =~= s);
    }
}

/// The bytes of written tables.
pub proof fn lemma_pieces(tables: Seq<MetaView>)
    requires
        write_tables(tables).1 is None,
    ensures
        layout_error(tables, tables.len()) is None,
        write_tables(tables).0 == fixed_part(tables.len()) + descriptions(tables, tables.len())
            + data_bytes(tables, tables.len()),
        fixed_part(tables.len()).len() == FIXED_LEN,
        FIXED_LEN + descriptions(tables, tables.len()).len() == header_len(tables, tables.len()),
        forall|i: int| 0 <= i < tables.len() ==> !has_long_name(#[trigger] tables[i]),
        forall|i: int|
            0 <= i < tables.len() ==> (#[trigger] tables[i]).values.len() == num_values(tables[i]),
{
    let n = tables.len();
    lemma_written_data(tables, n);
    lemma_written(tables, n);
    lemma_magic();
    lemma_le_bytes_len(VERSION as nat, 4);
    lemma_le_bytes_len(n, 4);
    lemma_le_bytes_len(0, 4);
    lemma_descriptions_len(tables, n);
}

/// The table descriptions are read as what they were written for.
proof fn lemma_parse_metas(tables: Seq<MetaView>, k: nat)
    requires
        write_tables(tables).1 is None,
        k <= tables.len(),
    ensures
        parse_metas(
            write_tables(tables).0,
            header_len(tables, k) as int,
            (tables.len() - k) as nat,
        ) == Ok::<Seq<InfoView>, PvorErrorView>(
            Seq::new((tables.len() - k) as nat, |i: int| info_of(tables, k + i)),
        ),
    decreases tables.len() - k,
{
    let n = tables.len();
    let b = write_tables(tables).0;
    if k < n {
        lemma_pieces(tables);
        lemma_parse_metas(tables, k + 1);
        lemma_description_at(tables, k, n);
        lemma_layout(tables, k, n);
        let info = info_of(tables, k as int);
        let s = meta_bytes(info);
        let at = header_len(tables, k) as int;
        let d = descriptions(tables, n);
        lemma_meta_len(info);
        assert(!has_long_name(tables[k as int]));
        assert(b.subrange(at, at + s.len()) =~= d.subrange(
            at - FIXED_LEN,
            at - FIXED_LEN + s.len(),
        ));
        lemma_parse_meta(b, at, info);
        let rest = Seq::new((n - k - 1) as nat, |i: int| info_of(tables, k + 1 + i));
        assert(seq![info] + rest =~= Seq::new((n - k) as nat, |i: int| info_of(tables, k + i)));
    } else {
        assert(Seq::<InfoView>::empty() =~= Seq::new(0, |i: int| info_of(tables, k + i)));
    }
}

/// What a container says of tables that were written.
pub open spec fn infos_of(tables: Seq<MetaView>) -> Seq<InfoView> {
    Seq::new(tables.len(), |i: int| info_of(tables, i))
}

/// Opening what was written gives a description of each table, in order.
pub proof fn law_written_tables_are_found(tables: Seq<MetaView>)
    requires
        write_tables(tables).1 is None,
        tables.len() <= u32::MAX,
    ensures
        parse_container(write_tables(tables).0) == Ok::<Seq<InfoView>, PvorErrorView>(
            infos_of(tables),
        ),
{
    let n = tables.len();
    let b = write_tables(tables).0;
    lemma_pieces(tables);
    lemma_magic();
    lemma_byte_ranges();
    lemma_le_round_trip(VERSION as nat, 4);
    lemma_le_round_trip(n, 4);
    lemma_le_bytes_len(0, 4);
    assert(b.take(4) =~= magic());
    assert(b.subrange(4, 8) =~= le_bytes(VERSION as nat, 4));
    assert(b.subrange(8, 12) =~= le_bytes(n, 4));
    lemma_parse_metas(tables, 0);
    assert(Seq::new(n, |i: int| info_of(tables, 0 + i)) =~= infos_of(tables));
}

/// Every row of a table that was written can be read, and holds the values that were written.
pub proof fn law_written_rows_read_back(tables: Seq<MetaView>, i: int, row: int)
    requires
        write_tables(tables).1 is None,
        0 <= i < tables.len(),
        0 <= row < tables[i].rows,
    ensures
        row_within(write_tables(tables).0, infos_of(tables)[i], row),
        row_values(write_tables(tables).0, infos_of(tables)[i], row) == tables[i].values.subrange(
            row * tables[i].cols,
            (row + 1) * tables[i].cols,
        ),
{
    let n = tables.len();
    let b = write_tables(tables).0;
    let t = tables[i];
    let info = info_of(tables, i);
    lemma_pieces(tables);
    lemma_data_at(tables, i as nat, n);
    lemma_layout(tables, i as nat, n);
    lemma_words_bytes_len(t.values);
    assert(t.values.len() == num_values(t));
    let s = words_bytes(t.values);
    let d = data_bytes(tables, n);
    let base = header_len(tables, n) as int;
    let at = offset_of(tables, i as nat) as int;
    assert(b.subrange(at, at + s.len()) =~= d.subrange(at - base, at - base + s.len()));
    let cols = t.cols as int;
    assert(0 <= row * cols && row * cols + cols == (row + 1) * cols && (row + 1) * cols <= t.rows
        * cols) by (nonlinear_arith)
        requires
            0 <= row < t.rows,
            cols >= 0,
    ;
    assert(row * cols * 4 == 4 * (row * cols)) by (nonlinear_arith);
    assert(row_start(info, row) == at + 4 * (row * cols));
    let want = t.values.subrange(row * cols, (row + 1) * cols);
    assert forall|j: int| 0 <= j < cols implies row_values(b, info, row)[j] == want[j] by {
        let w = row * cols + j;
        lemma_word_at(t.values, w);
        lemma_part(b, at, s, 4 * w, 4 * w + 4);
    }
    assert(row_values(b, info, row) =~= want);
}

/// A container that was written is complete: no row that can be looked up lies outside it.
pub proof fn law_written_container_is_complete(tables: Seq<MetaView>)
    requires
        write_tables(tables).1 is None,
    ensures
        rows_within(write_tables(tables).0, infos_of(tables)),
{
    let infos = infos_of(tables);
    assert forall|name: Seq<char>, row: int|
        #![trigger find_table(infos, name, infos.len()), row_within(write_tables(tables).0, infos[find_table(infos, name, infos.len())->0], row)]
        find_table(infos, name, infos.len()) is Some && 0 <= row < infos[find_table(
            infos,
            name,
            infos.len(),
        )->0].rows implies row_within(
        write_tables(tables).0,
        infos[find_table(infos, name, infos.len())->0],
        row,
    ) by {
        lemma_found_within(infos, name, infos.len());
        law_written_rows_read_back(tables, find_table(infos, name, infos.len())->0, row);
    }
}

pub proof fn lemma_found_within(infos: Seq<InfoView>, name: Seq<char>, n: nat)
    requires
        n <= infos.len(),
    ensures
        find_table(infos, name, n) matches Some(i) ==> 0 <= i < n && infos[i].name == name,
    decreases n,
{
    if n > 0 && infos[n - 1].name != name {
        lemma_found_within(infos, name, (n - 1) as nat);
    }
}

/// No later table has the name of table number `i`.
pub open spec fn is_last_of_name(tables: Seq<MetaView>, i: int) -> bool {
    forall|j: int| i < j < tables.len() ==> (#[trigger] tables[j]).name != tables[i].name
}

proof fn lemma_last_is_found(tables: Seq<MetaView>, i: int, n: nat)
    requires
        0 <= i < n <= tables.len(),
        is_last_of_name(tables, i),
    ensures
        find_table(infos_of(tables), tables[i].name, n) == Some(i),
    decreases n,
{
    if i < n - 1 {
        assert(tables[n - 1].name != tables[i].name);
        lemma_last_is_found(tables, i, (n - 1) as nat);
    }
}

/// What a table that was written holds.
pub open spec fn written_model(t: MetaView) -> TableModel {
    TableModel {
        rows: t.rows,
        cols: t.cols,
        data: Seq::new(
            t.rows as nat,
            |r: int| t.values.subrange(r * t.cols, (r + 1) * t.cols),
        ),
        readable: Seq::new(t.rows as nat, |r: int| true),
    }
}

/// A container serves what was written: each table by its name, with its dimensions and its rows. Of
/// several tables of the same name it serves the last one.
pub proof fn law_written_tables_are_served(tables: Seq<MetaView>, i: int)
    requires
        write_tables(tables).1 is None,
        0 <= i < tables.len(),
        is_last_of_name(tables, i),
    ensures
        ({
            let served = container_tables(write_tables(tables).0, infos_of(tables));
            &&& served.contains_key(tables[i].name)
            &&& served[tables[i].name] == written_model(tables[i])
        }),
{
    let b = write_tables(tables).0;
    let infos = infos_of(tables);
    lemma_last_is_found(tables, i, tables.len());
    let served = container_tables(b, infos)[tables[i].name];
    let want = written_model(tables[i]);
    assert(served == table_model(b, infos[i]));
    assert forall|r: int| 0 <= r < tables[i].rows implies served.data[r] == want.data[r]
        && served.readable[r] by {
        law_written_rows_read_back(tables, i, r);
    }
    assert(served.data =~= want.data);
    assert(served.readable =~= want.readable);
}

} // verus!
