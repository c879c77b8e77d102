//! Where everything stands in a table container, and which table and row a name and a number mean.

use vstd::prelude::*;
use vstd::utf8::{
    decode_utf8_encode_utf8, encode_utf8, encode_utf8_decode_utf8, encode_utf8_valid_utf8,
    is_ascii_chars_encode_utf8,
};

use crate::bytes::{
    le_bytes, le_value, lemma_byte_ranges, lemma_le_bytes_len, lemma_le_round_trip,
    lemma_le_value_bound, lemma_word_at,
    lemma_words_bytes_len, words_bytes,
};
use crate::matrix::MatrixView;
use crate::memory::{entry_tables, find_entry};
use crate::pvor::reader::{
    container_tables, find_table, parse_container, parse_meta, parse_metas, table_model,
    PvorErrorView,
};
use crate::pvor::round_trip::{
    lemma_data_at, lemma_description_at, lemma_layout, lemma_magic, lemma_meta_len, lemma_part,
    lemma_pieces,
};
use crate::pvor::writer::{
    data_bytes, descriptions, has_long_name, header_len, info_of, layout_error, num_values, offset_of,
    write_data, write_descriptions, write_tables, MetaView, WriteErrorView,
};
use crate::pvor::{fixed_part, magic, meta_bytes, table_len, InfoView, FIXED_LEN, VERSION};
use crate::rows::{dims_of, read_of, RowErrorView, TableModel};

verus! {

/// Where the description of table `i` begins: behind 16 bytes and the descriptions before it, of 30 bytes
/// and a name each.
pub open spec fn description_at(tables: Seq<MetaView>, i: nat) -> nat
    decreases i,
{
    if i == 0 {
        16
    } else {
        description_at(tables, (i - 1) as nat) + 30 + encode_utf8(tables[i - 1].name).len()
    }
}

/// Where the data of table `i` begins: behind all descriptions and the tables before it.
pub open spec fn data_at(tables: Seq<MetaView>, i: nat) -> nat
    decreases i,
{
    if i == 0 {
        description_at(tables, tables.len())
    } else {
        data_at(tables, (i - 1) as nat) + 4 * tables[i - 1].values.len()
    }
}

proof fn lemma_description_place(tables: Seq<MetaView>, i: nat)
    ensures
        description_at(tables, i) == header_len(tables, i),
    decreases i,
{
    if i > 0 {
        lemma_description_place(tables, (i - 1) as nat);
    }
}

proof fn lemma_data_place(tables: Seq<MetaView>, i: nat)
    requires
        i <= tables.len(),
        forall|j: int|
            0 <= j < tables.len() ==> (#[trigger] tables[j]).values.len() == num_values(tables[j]),
    ensures
        data_at(tables, i) == offset_of(tables, i),
    decreases i,
{
    lemma_description_place(tables, tables.len());
    if i > 0 {
        lemma_data_place(tables, (i - 1) as nat);
        let t = tables[i - 1];
        assert(t.values.len() == num_values(t));
        assert(4 * (t.rows * t.cols) == t.rows * t.cols * 4) by (nonlinear_arith);
    }
}

/// What was written begins with the letters `PVOR`, the version 1, the number of tables and a zero.
pub proof fn law_container_head(tables: Seq<MetaView>)
    requires
        write_tables(tables).1 is None,
        tables.len() <= u32::MAX,
    ensures
        ({
            let b = write_tables(tables).0;
            &&& b.len() >= 16
            &&& b[0] == 0x50 && b[1] == 0x56 && b[2] == 0x4f && b[3] == 0x52
            &&& le_value(b.subrange(4, 8)) == 1
            &&& le_value(b.subrange(8, 12)) == tables.len()
            &&& le_value(b.subrange(12, 16)) == 0
        }),
{
    let n = tables.len();
    let b = write_tables(tables).0;
    let h = fixed_part(n);
    lemma_pieces(tables);
    lemma_magic();
    lemma_byte_ranges();
    lemma_le_round_trip(1, 4);
    lemma_le_round_trip(n, 4);
    lemma_le_round_trip(0, 4);
    reveal_strlit("PVOR");
    is_ascii_chars_encode_utf8("PVOR"@);
    let m = magic();
    assert(m[0] == 'P' as u8 && m[1] == 'V' as u8 && m[2] == 'O' as u8 && m[3] == 'R' as u8);
    assert(b.subrange(0, 16) =~= h);
    assert(h.subrange(0, 4) =~= m);
    assert(b[0] == h[0] && b[1] == h[1] && b[2] == h[2] && b[3] == h[3]);
    assert(h[0] == m[0] && h[1] == m[1] && h[2] == m[2] && h[3] == m[3]);
    assert(b.subrange(4, 8) =~= le_bytes(1, 4));
    assert(b.subrange(8, 12) =~= le_bytes(n, 4));
    assert(b.subrange(12, 16) =~= le_bytes(0, 4));
}

/// The description of each table that was written: the length of its name and its name, its rows and
/// columns, the element size 4, the encoding 0 and two zeros, where its data begins and how long it is.
pub proof fn law_container_description(tables: Seq<MetaView>, i: int)
    requires
        write_tables(tables).1 is None,
        0 <= i < tables.len(),
    ensures
        ({
            let b = write_tables(tables).0;
            let t = tables[i];
            let name = encode_utf8(t.name);
            let at = description_at(tables, i as nat) as int;
            let m = at + 2 + name.len();
            &&& m + 28 <= b.len()
            &&& le_value(b.subrange(at, at + 2)) == name.len()
            &&& b.subrange(at + 2, m) == name
            &&& le_value(b.subrange(m, m + 4)) == t.rows
            &&& le_value(b.subrange(m + 4, m + 8)) == t.cols
            &&& b[m + 8] == 4 && b[m + 9] == 0 && b[m + 10] == 0 && b[m + 11] == 0
            &&& le_value(b.subrange(m + 12, m + 20)) == data_at(tables, i as nat)
            &&& le_value(b.subrange(m + 20, m + 28)) == t.rows * t.cols * 4
        }),
{
    let n = tables.len();
    let b = write_tables(tables).0;
    let t = tables[i];
    let info = info_of(tables, i);
    let s = meta_bytes(info);
    let d = descriptions(tables, n);
    lemma_pieces(tables);
    lemma_description_place(tables, i as nat);
    lemma_data_place(tables, i as nat);
    lemma_description_at(tables, i as nat, n);
    lemma_layout(tables, i as nat, n);
    lemma_meta_len(info);
    let at = header_len(tables, i as nat) as int;
    assert(b.subrange(at, at + s.len()) =~= d.subrange(at - FIXED_LEN, at - FIXED_LEN + s.len()));
    assert(!has_long_name(t));
    lemma_meta_parts(b, at, info);
}

/// The parts of a description.
proof fn lemma_meta_parts(b: Seq<u8>, at: int, info: InfoView)
    requires
        0 <= at,
        at + meta_bytes(info).len() <= b.len(),
        b.subrange(at, at + meta_bytes(info).len()) == meta_bytes(info),
        encode_utf8(info.name).len() <= u16::MAX,
    ensures
        ({
            let name = encode_utf8(info.name);
            let m = at + 2 + name.len();
            &&& le_value(b.subrange(at, at + 2)) == name.len()
            &&& b.subrange(at + 2, m) == name
            &&& le_value(b.subrange(m, m + 4)) == info.rows
            &&& le_value(b.subrange(m + 4, m + 8)) == info.cols
            &&& b[m + 8] == 4 && b[m + 9] == 0 && b[m + 10] == 0 && b[m + 11] == 0
            &&& le_value(b.subrange(m + 12, m + 20)) == info.offset
            &&& le_value(b.subrange(m + 20, m + 28)) == info.byte_len
        }),
{
    let s = meta_bytes(info);
    let name = encode_utf8(info.name);
    let n = name.len() as int;
    let m = 2 + n;
    lemma_meta_len(info);
    lemma_byte_ranges();
    lemma_le_round_trip(n as nat, 2);
    lemma_le_round_trip(info.rows as nat, 4);
    lemma_le_round_trip(info.cols as nat, 4);
    lemma_le_round_trip(info.offset as nat, 8);
    lemma_le_round_trip(info.byte_len as nat, 8);
    let z = le_bytes(0, 2);
    assert(z.len() == 2 && z[0] == 0 && z[1] == 0) by {
        reveal_with_fuel(le_bytes, 3);
    }
    lemma_part(b, at, s, 0, 2);
    lemma_part(b, at, s, 2, m);
    lemma_part(b, at, s, m, m + 4);
    lemma_part(b, at, s, m + 4, m + 8);
    lemma_part(b, at, s, m + 8, m + 12);
    lemma_part(b, at, s, m + 12, m + 20);
    lemma_part(b, at, s, m + 20, m + 28);
    assert(s.subrange(0, 2) =~= le_bytes(n as nat, 2));
    assert(s.subrange(2, m) =~= name);
    assert(s.subrange(m, m + 4) =~= le_bytes(info.rows as nat, 4));
    assert(s.subrange(m + 4, m + 8) =~= le_bytes(info.cols as nat, 4));
    let flags = seq![4u8, 0u8] + z;
    assert(s.subrange(m + 8, m + 12) =~= flags);
    assert(s.subrange(m + 12, m + 20) =~= le_bytes(info.offset as nat, 8));
    assert(s.subrange(m + 20, m + 28) =~= le_bytes(info.byte_len as nat, 8));
    let f = b.subrange(at + (m + 8), at + (m + 12));
    assert(f[0] == b[at + m + 8] && f[1] == b[at + m + 9] && f[2] == b[at + m + 10] && f[3] == b[at + m
        + 11]);
}

/// The values of each table that was written stand from its place on, four bytes each.
pub proof fn law_container_data(tables: Seq<MetaView>, i: int, j: int)
    requires
        write_tables(tables).1 is None,
        0 <= i < tables.len(),
        0 <= j < tables[i].values.len(),
    ensures
        ({
            let b = write_tables(tables).0;
            let at = data_at(tables, i as nat) + 4 * j;
            &&& at + 4 <= b.len()
            &&& le_value(b.subrange(at, at + 4)) == tables[i].values[j]
            &&& tables[i].values.len() == tables[i].rows * tables[i].cols
        }),
{
    let n = tables.len();
    let b = write_tables(tables).0;
    let v = tables[i].values;
    lemma_pieces(tables);
    lemma_data_place(tables, i as nat);
    lemma_data_at(tables, i as nat, n);
    lemma_words_bytes_len(v);
    lemma_word_at(v, j);
    let d = data_bytes(tables, n);
    let s = words_bytes(v);
    let base = header_len(tables, n) as int;
    let at = offset_of(tables, i as nat) as int;
    assert(d.subrange(at - base, at - base + s.len()) == s);
    assert(b.subrange(at + 4 * j, at + 4 * j + 4) =~= d.subrange(
        at - base,
        at - base + s.len(),
    ).subrange(4 * j, 4 * j + 4));
}

/// Writing succeeds exactly where every table has as many values as its dimensions ask for, every name
/// is shorter than 65536 bytes, and every table ends below 2^64.
pub proof fn law_writing_succeeds(tables: Seq<MetaView>)
    ensures
        write_tables(tables).1 is None <==> {
            &&& forall|i: int|
                0 <= i < tables.len() ==> {
                    &&& (#[trigger] tables[i]).values.len() == tables[i].rows * tables[i].cols
                    &&& encode_utf8(tables[i].name).len() <= 65535
                }
            &&& forall|i: nat|
                0 < i <= tables.len() ==> #[trigger] data_at(tables, i) <= 0xffff_ffff_ffff_ffff
        },
{
    let n = tables.len();
    if write_tables(tables).1 is None {
        lemma_pieces(tables);
        assert forall|i: int| 0 <= i < n implies {
            &&& (#[trigger] tables[i]).values.len() == tables[i].rows * tables[i].cols
            &&& encode_utf8(tables[i].name).len() <= 65535
        } by {
            assert(!has_long_name(tables[i]));
            assert(tables[i].values.len() == num_values(tables[i]));
        }
        assert forall|i: nat| 0 < i <= n implies #[trigger] data_at(tables, i)
            <= 0xffff_ffff_ffff_ffff by {
            lemma_layout(tables, (i - 1) as nat, n);
            lemma_data_place(tables, i);
        }
    }
    let fits = (forall|i: int|
        0 <= i < n ==> {
            &&& (#[trigger] tables[i]).values.len() == tables[i].rows * tables[i].cols
            &&& encode_utf8(tables[i].name).len() <= 65535
        }) && (forall|i: nat| 0 < i <= n ==> #[trigger] data_at(tables, i) <= 0xffff_ffff_ffff_ffff);
    if fits {
        assert forall|j: int| 0 <= j < n implies (#[trigger] tables[j]).values.len() == num_values(
            tables[j],
        ) by {}
        lemma_no_layout_error(tables, n);
        lemma_no_description_error(tables, n);
        lemma_no_data_error(tables, n);
    }
}

proof fn lemma_no_layout_error(tables: Seq<MetaView>, k: nat)
    requires
        k <= tables.len(),
        forall|j: int|
            0 <= j < tables.len() ==> (#[trigger] tables[j]).values.len() == num_values(tables[j]),
        forall|i: nat|
            0 < i <= tables.len() ==> #[trigger] data_at(tables, i) <= 0xffff_ffff_ffff_ffff,
    ensures
        layout_error(tables, k) is None,
    decreases k,
{
    if k > 0 {
        lemma_no_layout_error(tables, (k - 1) as nat);
        lemma_data_place(tables, k);
        lemma_data_place(tables, (k - 1) as nat);
        assert(data_at(tables, k) <= 0xffff_ffff_ffff_ffff);
        assert(table_len(tables[k - 1].rows, tables[k - 1].cols) <= offset_of(tables, k));
    }
}

proof fn lemma_no_description_error(tables: Seq<MetaView>, k: nat)
    requires
        k <= tables.len(),
        forall|i: int|
            0 <= i < tables.len() ==> encode_utf8((#[trigger] tables[i]).name).len() <= 65535,
    ensures
        write_descriptions(tables, k).1 is None,
    decreases k,
{
    if k > 0 {
        lemma_no_description_error(tables, (k - 1) as nat);
        assert(encode_utf8(tables[k - 1].name).len() <= 65535);
    }
}

proof fn lemma_no_data_error(tables: Seq<MetaView>, k: nat)
    requires
        k <= tables.len(),
        write_descriptions(tables, tables.len()).1 is None,
        forall|j: int|
            0 <= j < tables.len() ==> (#[trigger] tables[j]).values.len() == num_values(tables[j]),
    ensures
        write_data(tables, k).1 is None,
    decreases k,
{
    if k > 0 {
        lemma_no_data_error(tables, (k - 1) as nat);
        assert(tables[k - 1].values.len() == num_values(tables[k - 1]));
    }
}

/// A container that can be opened begins with the letters `PVOR` and the version 1, and every description
/// in it gives the length that its dimensions ask for.
pub proof fn law_opened_container(b: Seq<u8>)
    requires
        parse_container(b) is Ok,
    ensures
        b.len() >= 16,
        b[0] == 0x50 && b[1] == 0x56 && b[2] == 0x4f && b[3] == 0x52,
        le_value(b.subrange(4, 8)) == 1,
        parse_container(b)->Ok_0.len() == le_value(b.subrange(8, 12)),
        forall|i: int|
            0 <= i < parse_container(b)->Ok_0.len() ==> (#[trigger] parse_container(b)->Ok_0[i]).byte_len
                == parse_container(b)->Ok_0[i].rows * parse_container(b)->Ok_0[i].cols * 4,
{
    lemma_magic();
    reveal_strlit("PVOR");
    is_ascii_chars_encode_utf8("PVOR"@);
    let m = magic();
    assert(m[0] == 'P' as u8 && m[1] == 'V' as u8 && m[2] == 'O' as u8 && m[3] == 'R' as u8);
    let h = b.take(4);
    assert(b[0] == h[0] && b[1] == h[1] && b[2] == h[2] && b[3] == h[3]);
    lemma_parsed(b, 16, le_value(b.subrange(8, 12)));
}

proof fn lemma_parsed(b: Seq<u8>, at: int, n: nat)
    requires
        parse_metas(b, at, n) is Ok,
    ensures
        parse_metas(b, at, n)->Ok_0.len() == n,
        forall|i: int|
            0 <= i < n ==> (#[trigger] parse_metas(b, at, n)->Ok_0[i]).byte_len == parse_metas(
                b,
                at,
                n,
            )->Ok_0[i].rows * parse_metas(b, at, n)->Ok_0[i].cols * 4,
    decreases n,
{
    if n > 0 {
        let (info, next) = parse_meta(b, at)->Ok_0;
        lemma_parsed(b, next, (n - 1) as nat);
        let rest = parse_metas(b, next, (n - 1) as nat)->Ok_0;
        let all = parse_metas(b, at, n)->Ok_0;
        assert forall|i: int| 0 <= i < n implies (#[trigger] all[i]).byte_len == all[i].rows
            * all[i].cols * 4 by {
            if i > 0 {
                assert(all[i] == rest[i - 1]);
            }
        }
    }
}

/// The table that a name means is the last one of that name.
proof fn lemma_found(infos: Seq<InfoView>, name: Seq<char>, n: nat)
    requires
        n <= infos.len(),
    ensures
        match find_table(infos, name, n) {
            Some(i) => {
                &&& 0 <= i < n
                &&& infos[i].name == name
                &&& forall|j: int| i < j < n ==> (#[trigger] infos[j]).name != name
            },
            None => forall|j: int| 0 <= j < n ==> (#[trigger] infos[j]).name != name,
        },
    decreases n,
{
    if n > 0 {
        lemma_found(infos, name, (n - 1) as nat);
    }
}

/// What a container serves for a name is the last table of that name, with its dimensions; and value `j`
/// of row `row` are the four bytes from place `offset + 4 * (row * cols + j)` on, where all of the row
/// lies within the container.
pub proof fn law_container_serves(b: Seq<u8>, infos: Seq<InfoView>, i: int, row: u32, j: int)
    requires
        0 <= i < infos.len(),
        forall|k: int| i < k < infos.len() ==> (#[trigger] infos[k]).name != infos[i].name,
        row < infos[i].rows,
        0 <= j < infos[i].cols,
    ensures
        ({
            let served = container_tables(b, infos);
            let t = infos[i];
            let from = t.offset + 4 * (row * t.cols);
            let at = t.offset + 4 * (row * t.cols + j);
            &&& served.contains_key(t.name)
            &&& served[t.name].rows == t.rows
            &&& served[t.name].cols == t.cols
            &&& from + 4 * t.cols <= b.len() ==> {
                &&& read_of(served, t.name, row) is Ok
                &&& read_of(served, t.name, row)->Ok_0.len() == t.cols
                &&& read_of(served, t.name, row)->Ok_0[j] == le_value(b.subrange(at, at + 4))
            }
            &&& from + 4 * t.cols > b.len() ==> read_of(served, t.name, row) == Err::<
                Seq<u32>,
                RowErrorView,
            >(RowErrorView::Unreadable(t.name))
        }),
{
    let t = infos[i];
    lemma_found(infos, t.name, infos.len());
    let k = find_table(infos, t.name, infos.len());
    assert(k == Some(i)) by {
        if k is Some && k->0 > i {
            assert(infos[k->0].name != t.name);
        }
    }
    let served = container_tables(b, infos);
    assert(served[t.name] == table_model(b, t));
    let at = t.offset + 4 * (row * t.cols + j);
    assert(t.offset + row * t.cols * 4 + 4 * j == at) by (nonlinear_arith)
        requires
            at == t.offset + 4 * (row * t.cols + j),
    ;
    assert(row * t.cols * 4 == 4 * (row * t.cols)) by (nonlinear_arith);
    let word = b.subrange(at, at + 4);
    if t.offset + 4 * (row * t.cols) + 4 * t.cols <= b.len() {
        lemma_byte_ranges();
        assert(row * t.cols >= 0) by (nonlinear_arith);
        crate::bytes::lemma_le_value_bound(word);
    }
}

/// The matrix that a name means in memory is the last one of that name, preprocessed ones behind the main
/// ones; and value `j` of row `row` is value `row * width + j` of the matrix.
pub proof fn law_memory_serves(
    entries: Seq<(Seq<char>, MatrixView)>,
    i: int,
    row: u32,
    j: int,
)
    requires
        0 <= i < entries.len(),
        forall|k: int| i < k < entries.len() ==> (#[trigger] entries[k]).0 != entries[i].0,
        0 <= j < entries[i].1.width <= u32::MAX,
        (row + 1) * entries[i].1.width <= entries[i].1.values.len(),
        entries[i].1.values.len() < 0x1_0000_0000 * entries[i].1.width,
    ensures
        ({
            let served = entry_tables(entries);
            let (name, m) = entries[i];
            &&& served.contains_key(name)
            &&& served[name].cols == m.width
            &&& served[name].rows * m.width <= m.values.len() < (served[name].rows + 1) * m.width
            &&& read_of(served, name, row) is Ok
            &&& read_of(served, name, row)->Ok_0.len() == m.width
            &&& read_of(served, name, row)->Ok_0[j] == m.values[row * m.width + j]
        }),
{
    let (name, m) = entries[i];
    lemma_found_entry(entries, name, entries.len());
    let k = find_entry(entries, name, entries.len());
    assert(k == Some(i)) by {
        if k is Some && k->0 > i {
            assert(entries[k->0].0 != name);
        }
    }
    let w = m.width as int;
    let n = m.values.len() as int;
    let h = n / w;
    vstd::arithmetic::div_mod::lemma_fundamental_div_mod(n, w);
    vstd::arithmetic::div_mod::lemma_mod_bound(n, w);
    assert(h * w <= n < (h + 1) * w) by (nonlinear_arith)
        requires
            n == w * h + n % w,
            0 <= n % w < w,
    ;
    assert(row < h) by (nonlinear_arith)
        requires
            (row + 1) * w <= n,
            n < (h + 1) * w,
            w > 0,
    ;
    assert(h < 0x1_0000_0000) by (nonlinear_arith)
        requires
            h * w <= n,
            n < 0x1_0000_0000 * w,
            w > 0,
    ;
    assert(m.height() == h);
    assert((row + 1) * w == row * w + w) by (nonlinear_arith);
    assert(row * w >= 0) by (nonlinear_arith)
        requires
            w > 0,
    ;
}

proof fn lemma_found_entry(entries: Seq<(Seq<char>, MatrixView)>, name: Seq<char>, n: nat)
    requires
        n <= entries.len(),
    ensures
        match find_entry(entries, name, n) {
            Some(i) => {
                &&& 0 <= i < n
                &&& entries[i].0 == name
                &&& forall|j: int| i < j < n ==> (#[trigger] entries[j]).0 != name
            },
            None => forall|j: int| 0 <= j < n ==> (#[trigger] entries[j]).0 != name,
        },
    decreases n,
{
    if n > 0 {
        lemma_found_entry(entries, name, (n - 1) as nat);
    }
}

/// The bytes from `at` on describe a table: the length of its name in two bytes and the name, the numbers of
/// its rows and columns in four bytes each, the size of an element, which is 4, and its encoding, which is
/// 0, two bytes that say nothing, and in eight bytes each where its data begins and how long they are.
pub open spec fn describes(b: Seq<u8>, at: int, t: InfoView) -> bool {
    let name = encode_utf8(t.name);
    let m = at + 2 + name.len() as int;
    &&& 0 <= at
    &&& m + 28 <= b.len()
    &&& le_value(b.subrange(at, at + 2)) == name.len()
    &&& b.subrange(at + 2, m) == name
    &&& le_value(b.subrange(m, m + 4)) == t.rows
    &&& le_value(b.subrange(m + 4, m + 8)) == t.cols
    &&& b[m + 8] == 4
    &&& b[m + 9] == 0
    &&& le_value(b.subrange(m + 12, m + 20)) == t.offset
    &&& le_value(b.subrange(m + 20, m + 28)) == t.byte_len
    &&& t.byte_len == t.rows * t.cols * 4
}

/// Where the description of table `i` of a container begins.
pub open spec fn info_at(infos: Seq<InfoView>, i: nat) -> nat
    decreases i,
{
    if i == 0 {
        16
    } else {
        info_at(infos, (i - 1) as nat) + 30 + encode_utf8(infos[i - 1].name).len()
    }
}

/// A container with these bytes has these tables.
pub open spec fn is_container_of(b: Seq<u8>, infos: Seq<InfoView>) -> bool {
    &&& b.len() >= 16
    &&& b[0] == 0x50 && b[1] == 0x56 && b[2] == 0x4f && b[3] == 0x52
    &&& le_value(b.subrange(4, 8)) == 1
    &&& le_value(b.subrange(8, 12)) == infos.len()
    &&& forall|i: nat| i < infos.len() ==> describes(b, #[trigger] info_at(infos, i) as int, infos[i as int])
}

proof fn lemma_description_read(b: Seq<u8>, at: int, t: InfoView)
    requires
        0 <= at,
    ensures
        describes(b, at, t) ==> parse_meta(b, at) == Ok::<(InfoView, int), PvorErrorView>(
            (t, at + 30 + encode_utf8(t.name).len()),
        ),
        parse_meta(b, at) matches Ok((u, next)) ==> describes(b, at, u) && next == at + 30
            + encode_utf8(u.name).len(),
{
    lemma_byte_ranges();
    if describes(b, at, t) {
        encode_utf8_valid_utf8(t.name);
        encode_utf8_decode_utf8(t.name);
    }
    if let Ok((u, next)) = parse_meta(b, at) {
        let n = le_value(b.subrange(at, at + 2)) as int;
        let m = at + 2 + n;
        decode_utf8_encode_utf8(b.subrange(at + 2, m));
        lemma_le_value_bound(b.subrange(m, m + 4));
        lemma_le_value_bound(b.subrange(m + 4, m + 8));
        lemma_le_value_bound(b.subrange(m + 12, m + 20));
        lemma_le_value_bound(b.subrange(m + 20, m + 28));
    }
}

proof fn lemma_descriptions_read(b: Seq<u8>, infos: Seq<InfoView>, i: nat)
    requires
        i <= infos.len(),
        forall|k: nat|
            i <= k < infos.len() ==> describes(b, #[trigger] info_at(infos, k) as int, infos[k as int]),
    ensures
        parse_metas(b, info_at(infos, i) as int, (infos.len() - i) as nat) == Ok::<
            Seq<InfoView>,
            PvorErrorView,
        >(infos.skip(i as int)),
    decreases infos.len() - i,
{
    if i < infos.len() {
        lemma_description_read(b, info_at(infos, i) as int, infos[i as int]);
        lemma_descriptions_read(b, infos, i + 1);
        assert(info_at(infos, i + 1) == info_at(infos, i) + 30 + encode_utf8(infos[i as int].name).len());
        assert(seq![infos[i as int]] + infos.skip(i as int + 1) =~= infos.skip(i as int));
    } else {
        assert(infos.skip(i as int) =~= Seq::<InfoView>::empty());
    }
}

proof fn lemma_read_descriptions(b: Seq<u8>, infos: Seq<InfoView>, i: nat)
    requires
        i <= infos.len(),
        parse_metas(b, info_at(infos, i) as int, (infos.len() - i) as nat) == Ok::<
            Seq<InfoView>,
            PvorErrorView,
        >(infos.skip(i as int)),
    ensures
        forall|k: nat|
            i <= k < infos.len() ==> describes(b, #[trigger] info_at(infos, k) as int, infos[k as int]),
    decreases infos.len() - i,
{
    if i < infos.len() {
        let at = info_at(infos, i) as int;
        lemma_description_read(b, at, infos[i as int]);
        let (info, next) = parse_meta(b, at)->Ok_0;
        let rest = parse_metas(b, next, (infos.len() - i - 1) as nat)->Ok_0;
        assert(seq![info] + rest == infos.skip(i as int));
        assert((seq![info] + rest)[0] == info && infos.skip(i as int)[0] == infos[i as int]);
        assert(rest =~= infos.skip(i as int + 1)) by {
            assert((seq![info] + rest).skip(1) =~= rest);
            assert(infos.skip(i as int).skip(1) =~= infos.skip(i as int + 1));
        }
        assert(info_at(infos, i + 1) == next);
        lemma_read_descriptions(b, infos, i + 1);
    }
}

/// Opening gives exactly the tables that the bytes describe: a container of some tables opens with these
/// tables, and what opens is a container of the tables that it opens with.
pub proof fn law_opening_reads_descriptions(b: Seq<u8>, infos: Seq<InfoView>)
    ensures
        parse_container(b) == Ok::<Seq<InfoView>, PvorErrorView>(infos) <==> is_container_of(b, infos),
{
    lemma_magic();
    assert(infos.skip(0) =~= infos);
    assert(info_at(infos, 0) == 16);
    if is_container_of(b, infos) {
        lemma_magic_bytes(b);
        lemma_descriptions_read(b, infos, 0);
    }
    if parse_container(b) == Ok::<Seq<InfoView>, PvorErrorView>(infos) {
        law_opened_container(b);
        lemma_read_descriptions(b, infos, 0);
    }
}

/// What is wrong with the head of a container that does not open.
pub proof fn law_head_faults(b: Seq<u8>)
    ensures
        b.len() < 4 ==> parse_container(b) == Err::<Seq<InfoView>, PvorErrorView>(
            PvorErrorView::UnexpectedEnd,
        ),
        b.len() >= 4 && !(b[0] == 0x50 && b[1] == 0x56 && b[2] == 0x4f && b[3] == 0x52)
            <==> parse_container(b) == Err::<Seq<InfoView>, PvorErrorView>(PvorErrorView::BadMagic),
        parse_container(b) matches Err(PvorErrorView::UnsupportedVersion(v)) ==> b.len() >= 8 && v != 1 && v
            == le_value(b.subrange(4, 8)),
        b.len() >= 8 && b[0] == 0x50 && b[1] == 0x56 && b[2] == 0x4f && b[3] == 0x52 && le_value(
            b.subrange(4, 8),
        ) != 1 ==> parse_container(b) is Err && parse_container(b)->Err_0 is UnsupportedVersion,
        4 <= b.len() < 8 && b[0] == 0x50 && b[1] == 0x56 && b[2] == 0x4f && b[3] == 0x52
            ==> parse_container(b) == Err::<Seq<InfoView>, PvorErrorView>(PvorErrorView::UnexpectedEnd),
        8 <= b.len() < 16 && b[0] == 0x50 && b[1] == 0x56 && b[2] == 0x4f && b[3] == 0x52 && le_value(
            b.subrange(4, 8),
        ) == 1 ==> parse_container(b) == Err::<Seq<InfoView>, PvorErrorView>(PvorErrorView::UnexpectedEnd),
{
    lemma_byte_ranges();
    if b.len() >= 4 {
        lemma_magic_bytes(b);
    }
    if b.len() >= 8 {
        lemma_le_value_bound(b.subrange(4, 8));
    }
    lemma_no_head_faults(b, 16, le_value(b.subrange(8, 12)));
}

/// The four bytes that a container begins with.
proof fn lemma_magic_bytes(b: Seq<u8>)
    requires
        b.len() >= 4,
    ensures
        b.take(4) == magic() <==> b[0] == 0x50 && b[1] == 0x56 && b[2] == 0x4f && b[3] == 0x52,
{
    lemma_magic();
    reveal_strlit("PVOR");
    is_ascii_chars_encode_utf8("PVOR"@);
    let m = magic();
    assert(m.len() == 4);
    assert(m[0] == 'P' as u8 && m[1] == 'V' as u8 && m[2] == 'O' as u8 && m[3] == 'R' as u8);
    let t = b.take(4);
    assert(t[0] == b[0] && t[1] == b[1] && t[2] == b[2] && t[3] == b[3]);
    if b[0] == 0x50 && b[1] == 0x56 && b[2] == 0x4f && b[3] == 0x52 {
        assert(t =~= m);
    }
}

proof fn lemma_no_head_faults(b: Seq<u8>, at: int, n: nat)
    ensures
        parse_metas(b, at, n) matches Err(e) ==> !(e is BadMagic) && !(e is UnsupportedVersion),
    decreases n,
{
    if n > 0 {
        if let Ok((info, next)) = parse_meta(b, at) {
            lemma_no_head_faults(b, next, (n - 1) as nat);
        }
    }
}

/// What is wrong with a description whose name can be read: an element of another size than 4, another
/// encoding than 0, more data than can be counted, or another length than the dimensions give.
pub proof fn law_description_faults(b: Seq<u8>, infos: Seq<InfoView>, name: Seq<char>, count: nat)
    requires
        b.len() >= 16,
        b[0] == 0x50 && b[1] == 0x56 && b[2] == 0x4f && b[3] == 0x52,
        le_value(b.subrange(4, 8)) == 1,
        le_value(b.subrange(8, 12)) == count,
        infos.len() < count,
        forall|k: nat|
            k < infos.len() ==> describes(b, #[trigger] info_at(infos, k) as int, infos[k as int]),
        ({
            let at = info_at(infos, infos.len()) as int;
            let m = at + 2 + encode_utf8(name).len() as int;
            &&& m + 28 <= b.len()
            &&& le_value(b.subrange(at, at + 2)) == encode_utf8(name).len()
            &&& b.subrange(at + 2, m) == encode_utf8(name)
        }),
    ensures
        ({
            let m = info_at(infos, infos.len()) as int + 2 + encode_utf8(name).len() as int;
            let size = le_value(b.subrange(m, m + 4)) * le_value(b.subrange(m + 4, m + 8)) * 4;
            let got = le_value(b.subrange(m + 20, m + 28));
            let r = parse_container(b);
            &&& b[m + 8] != 4 ==> r == Err::<Seq<InfoView>, PvorErrorView>(PvorErrorView::ElementSize)
            &&& b[m + 8] == 4 && b[m + 9] != 0 ==> r == Err::<Seq<InfoView>, PvorErrorView>(
                PvorErrorView::Encoding,
            )
            &&& b[m + 8] == 4 && b[m + 9] == 0 && size > 0xffff_ffff_ffff_ffff ==> r == Err::<
                Seq<InfoView>,
                PvorErrorView,
            >(PvorErrorView::ByteLenOverflow)
            &&& b[m + 8] == 4 && b[m + 9] == 0 && size <= 0xffff_ffff_ffff_ffff && got != size ==> r
                == Err::<Seq<InfoView>, PvorErrorView>(
                PvorErrorView::ByteLenMismatch {
                    table: name,
                    got: got as u64,
                    expected: size as u64,
                },
            )
        }),
{
    lemma_byte_ranges();
    lemma_magic_bytes(b);
    encode_utf8_valid_utf8(name);
    encode_utf8_decode_utf8(name);
    let at = info_at(infos, infos.len()) as int;
    let m = at + 2 + encode_utf8(name).len() as int;
    lemma_le_value_bound(b.subrange(m, m + 4));
    lemma_le_value_bound(b.subrange(m + 4, m + 8));
    lemma_le_value_bound(b.subrange(m + 20, m + 28));
    lemma_fault_comes_through(b, infos, 0, count);
}

/// The fault of a description is the fault of the container, where the descriptions before it have none.
proof fn lemma_fault_comes_through(b: Seq<u8>, infos: Seq<InfoView>, i: nat, count: nat)
    requires
        i <= infos.len() < count,
        forall|k: nat|
            k < infos.len() ==> describes(b, #[trigger] info_at(infos, k) as int, infos[k as int]),
    ensures
        parse_meta(b, info_at(infos, infos.len()) as int) matches Err(e) ==> parse_metas(
            b,
            info_at(infos, i) as int,
            (count - i) as nat,
        ) == Err::<Seq<InfoView>, PvorErrorView>(e),
    decreases infos.len() - i,
{
    if i < infos.len() {
        lemma_description_read(b, info_at(infos, i) as int, infos[i as int]);
        assert(info_at(infos, i + 1) == info_at(infos, i) + 30 + encode_utf8(infos[i as int].name).len());
        lemma_fault_comes_through(b, infos, i + 1, count);
    }
}

/// Rows are asked for by the name of a table and a number below its number of rows; anything else is
/// refused, and the error names the table.
pub proof fn law_reads_outside_are_refused(
    tables: Map<Seq<char>, TableModel>,
    name: Seq<char>,
    row: u32,
)
    ensures
        dims_of(tables, name) is Some <==> tables.contains_key(name),
        dims_of(tables, name) matches Some((rows, cols)) ==> rows == tables[name].rows && cols
            == tables[name].cols,
        !tables.contains_key(name) <==> read_of(tables, name, row) == Err::<Seq<u32>, RowErrorView>(
            RowErrorView::MissingTable(name),
        ),
        tables.contains_key(name) && row >= tables[name].rows <==> read_of(tables, name, row) == Err::<
            Seq<u32>,
            RowErrorView,
        >(RowErrorView::RowOutOfRange(name)),
        read_of(tables, name, row) is Ok <==> tables.contains_key(name) && row < tables[name].rows
            && tables[name].readable[row as int],
{
}

proof fn lemma_named_somewhere(infos: Seq<InfoView>, name: Seq<char>, n: nat)
    requires
        n <= infos.len(),
    ensures
        find_table(infos, name, n) is Some <==> exists|i: int|
            0 <= i < n && (#[trigger] infos[i]).name == name,
    decreases n,
{
    if n > 0 {
        lemma_named_somewhere(infos, name, (n - 1) as nat);
        if infos[n - 1].name != name && find_table(infos, name, n) is Some {
            let i = choose|i: int| 0 <= i < n - 1 && (#[trigger] infos[i]).name == name;
            assert(infos[i].name == name);
        }
        if exists|i: int| 0 <= i < n && (#[trigger] infos[i]).name == name {
            let i = choose|i: int| 0 <= i < n && (#[trigger] infos[i]).name == name;
            if i < n - 1 {
                assert(infos[i].name == name);
            }
        }
    }
}

/// A container serves the tables that it describes and no others.
pub proof fn law_container_serves_described(b: Seq<u8>, infos: Seq<InfoView>, name: Seq<char>)
    ensures
        container_tables(b, infos).contains_key(name) <==> exists|i: int|
            0 <= i < infos.len() && (#[trigger] infos[i]).name == name,
{
    lemma_named_somewhere(infos, name, infos.len());
}

proof fn lemma_described(tables: Seq<MetaView>, n: nat)
    requires
        n <= tables.len(),
    ensures
        match write_descriptions(tables, n).1 {
            Some(e) => e is NameTooLong && exists|i: int|
                0 <= i < n && encode_utf8((#[trigger] tables[i]).name).len() > 65535
                    && write_descriptions(tables, n).0.len() == description_at(tables, i as nat),
            None => write_descriptions(tables, n).0.len() == description_at(tables, n),
        },
    decreases n,
{
    if n == 0 {
        lemma_magic();
        lemma_le_bytes_len(tables.len(), 4);
        lemma_le_bytes_len(VERSION as nat, 4);
        lemma_le_bytes_len(0, 4);
    } else {
        lemma_described(tables, (n - 1) as nat);
        lemma_meta_len(info_of(tables, n - 1));
        if write_descriptions(tables, (n - 1) as nat).1 is Some {
            let i = choose|i: int|
                0 <= i < n - 1 && encode_utf8((#[trigger] tables[i]).name).len() > 65535
                    && write_descriptions(tables, (n - 1) as nat).0.len() == description_at(
                    tables,
                    i as nat,
                );
            assert(encode_utf8(tables[i].name).len() > 65535);
        } else {
            assert(tables[n - 1].name == tables[n - 1].name);
        }
    }
}

/// The table at which writing stopped: it has not as many values as its dimensions say, and what was
/// written ends with those of its values that fit.
pub open spec fn stops_at(tables: Seq<MetaView>, i: int, written: nat, short: bool) -> bool {
    let size = tables[i].rows * tables[i].cols;
    if short {
        tables[i].values.len() < size && written == data_at(tables, i as nat) + 4
            * tables[i].values.len()
    } else {
        tables[i].values.len() > size && written == data_at(tables, i as nat) + 4 * size
    }
}

proof fn lemma_stopped(tables: Seq<MetaView>, n: nat)
    requires
        n <= tables.len(),
    ensures
        match write_data(tables, n).1 {
            Some(WriteErrorView::EndedEarly(name)) => exists|i: int|
                0 <= i < n && (#[trigger] tables[i]).name == name && stops_at(
                    tables,
                    i,
                    write_data(tables, n).0.len(),
                    true,
                ),
            Some(WriteErrorView::TooManyElements(name)) => exists|i: int|
                0 <= i < n && (#[trigger] tables[i]).name == name && stops_at(
                    tables,
                    i,
                    write_data(tables, n).0.len(),
                    false,
                ),
            Some(WriteErrorView::NameTooLong) => exists|i: int|
                0 <= i < tables.len() && encode_utf8((#[trigger] tables[i]).name).len() > 65535
                    && write_data(tables, n).0.len() == description_at(tables, i as nat),
            Some(_) => false,
            None => write_data(tables, n).0.len() == data_at(tables, n),
        },
    decreases n,
{
    if n == 0 {
        lemma_described(tables, tables.len());
    } else {
        let m = (n - 1) as nat;
        lemma_stopped(tables, m);
        let t = tables[n - 1];
        match write_data(tables, m).1 {
            Some(WriteErrorView::EndedEarly(name)) => {
                let i = choose|i: int|
                    0 <= i < m && (#[trigger] tables[i]).name == name && stops_at(
                        tables,
                        i,
                        write_data(tables, m).0.len(),
                        true,
                    );
                assert(tables[i].name == name);
            },
            Some(WriteErrorView::TooManyElements(name)) => {
                let i = choose|i: int|
                    0 <= i < m && (#[trigger] tables[i]).name == name && stops_at(
                        tables,
                        i,
                        write_data(tables, m).0.len(),
                        false,
                    );
                assert(tables[i].name == name);
            },
            Some(_) => {},
            None => {
                lemma_words_bytes_len(t.values);
                if t.values.len() > num_values(t) {
                    lemma_words_bytes_len(t.values.take(num_values(t) as int));
                }
                assert(tables[n - 1].name == t.name);
            },
        }
    }
}

proof fn lemma_layout_fault(tables: Seq<MetaView>, n: nat)
    requires
        n <= tables.len(),
    ensures
        match layout_error(tables, n) {
            Some(WriteErrorView::ByteLenOverflow) => exists|i: int|
                0 <= i < n && (#[trigger] tables[i]).rows * tables[i].cols * 4 > 0xffff_ffff_ffff_ffff,
            Some(WriteErrorView::OffsetOverflow) => exists|i: nat|
                0 < i <= n && #[trigger] offset_of(tables, i) > 0xffff_ffff_ffff_ffff,
            Some(_) => false,
            None => true,
        },
    decreases n,
{
    if n > 0 {
        lemma_layout_fault(tables, (n - 1) as nat);
        match layout_error(tables, (n - 1) as nat) {
            Some(WriteErrorView::ByteLenOverflow) => {
                let i = choose|i: int|
                    0 <= i < n - 1 && (#[trigger] tables[i]).rows * tables[i].cols * 4
                        > 0xffff_ffff_ffff_ffff;
                assert(tables[i].rows * tables[i].cols * 4 > 0xffff_ffff_ffff_ffff);
            },
            Some(_) => {},
            None => {
                assert(tables[n - 1].rows * tables[n - 1].cols * 4 == table_len(
                    tables[n - 1].rows,
                    tables[n - 1].cols,
                ));
            },
        }
    }
}

/// Where writing fails, the error tells the truth about the tables: one of them is too large to be counted,
/// or begins or ends where no number reaches, in which cases nothing is written; a name is too long; or a
/// table has fewer or more values than its dimensions say.
pub proof fn law_write_errors_tell_truth(tables: Seq<MetaView>)
    ensures
        ({
            let (written, error) = write_tables(tables);
            match error {
                None => true,
                Some(WriteErrorView::ByteLenOverflow) => written.len() == 0 && exists|i: int|
                    0 <= i < tables.len() && (#[trigger] tables[i]).rows * tables[i].cols * 4
                        > 0xffff_ffff_ffff_ffff,
                Some(WriteErrorView::OffsetOverflow) => written.len() == 0 && exists|i: nat|
                    0 < i <= tables.len() && #[trigger] offset_of(tables, i) > 0xffff_ffff_ffff_ffff,
                Some(WriteErrorView::NameTooLong) => exists|i: int|
                    0 <= i < tables.len() && encode_utf8((#[trigger] tables[i]).name).len() > 65535
                        && written.len() == description_at(tables, i as nat),
                Some(WriteErrorView::EndedEarly(name)) => exists|i: int|
                    0 <= i < tables.len() && (#[trigger] tables[i]).name == name && stops_at(
                        tables,
                        i,
                        written.len(),
                        true,
                    ),
                Some(WriteErrorView::TooManyElements(name)) => exists|i: int|
                    0 <= i < tables.len() && (#[trigger] tables[i]).name == name && stops_at(
                        tables,
                        i,
                        written.len(),
                        false,
                    ),
            }
        }),
{
    lemma_layout_fault(tables, tables.len());
    lemma_stopped(tables, tables.len());
}

} // verus!
