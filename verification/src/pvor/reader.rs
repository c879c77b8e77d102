//! Reading containers.

use vstd::prelude::*;
use vstd::utf8::{decode_utf8, valid_utf8};

use crate::bytes::{le_value, read_u16_le, read_u32_le, read_u64_le};
use crate::pvor::{magic, table_len, InfoView, TableInfo, VERSION};
use crate::rows::{normal_table, RowError, RowErrorView, RowProvider, TableModel};
use crate::text::{bytes_eq, str_eq};

verus! {

/// Why bytes are no container.
#[derive(Debug)]
pub enum PvorError {
    /// The bytes end too early.
    UnexpectedEnd,
    /// The magic bytes are wrong.
    BadMagic,
    /// The version is not supported.
    UnsupportedVersion(u32),
    /// The name of a table is not UTF-8.
    NameNotUtf8,
    /// The element size of a table is not 4.
    ElementSize,
    /// The encoding of a table is not 0.
    Encoding,
    /// The dimensions of a table ask for more bytes than 64 bits can count.
    ByteLenOverflow,
    /// The byte length of a table does not match its dimensions.
    ByteLenMismatch { table: String, got: u64, expected: u64 },
}

/// The mathematical reading of a [`PvorError`].
pub enum PvorErrorView {
    UnexpectedEnd,
    BadMagic,
    UnsupportedVersion(u32),
    NameNotUtf8,
    ElementSize,
    Encoding,
    ByteLenOverflow,
    ByteLenMismatch { table: Seq<char>, got: u64, expected: u64 },
}

impl View for PvorError {
    type V = PvorErrorView;

    open spec fn view(&self) -> PvorErrorView {
        match *self {
            PvorError::UnexpectedEnd => PvorErrorView::UnexpectedEnd,
            PvorError::BadMagic => PvorErrorView::BadMagic,
            PvorError::UnsupportedVersion(v) => PvorErrorView::UnsupportedVersion(v),
            PvorError::NameNotUtf8 => PvorErrorView::NameNotUtf8,
            PvorError::ElementSize => PvorErrorView::ElementSize,
            PvorError::Encoding => PvorErrorView::Encoding,
            PvorError::ByteLenOverflow => PvorErrorView::ByteLenOverflow,
            PvorError::ByteLenMismatch { table, got, expected } => PvorErrorView::ByteLenMismatch {
                table: table@,
                got,
                expected,
            },
        }
    }
}

/// The number of `n` bytes at a place.
pub open spec fn number_at(b: Seq<u8>, at: int, n: int) -> nat {
    le_value(b.subrange(at, at + n))
}

/// The table description at a place, and the place behind it.
pub open spec fn parse_meta(b: Seq<u8>, at: int) -> Result<(InfoView, int), PvorErrorView> {
    let name_len = number_at(b, at, 2) as int;
    let m = at + 2 + name_len;
    let name_bytes = b.subrange(at + 2, m);
    let info = InfoView {
        name: decode_utf8(name_bytes),
        rows: number_at(b, m, 4) as u32,
        cols: number_at(b, m + 4, 4) as u32,
        offset: number_at(b, m + 12, 8) as u64,
        byte_len: number_at(b, m + 20, 8) as u64,
    };
    if at + 2 > b.len() {
        Err(PvorErrorView::UnexpectedEnd)
    } else if m > b.len() {
        Err(PvorErrorView::UnexpectedEnd)
    } else if !valid_utf8(name_bytes) {
        Err(PvorErrorView::NameNotUtf8)
    } else if m + 12 > b.len() {
        Err(PvorErrorView::UnexpectedEnd)
    } else if b[m + 8] != 4 {
        Err(PvorErrorView::ElementSize)
    } else if b[m + 9] != 0 {
        Err(PvorErrorView::Encoding)
    } else if m + 28 > b.len() {
        Err(PvorErrorView::UnexpectedEnd)
    } else if table_len(info.rows, info.cols) > u64::MAX {
        Err(PvorErrorView::ByteLenOverflow)
    } else if info.byte_len != table_len(info.rows, info.cols) {
        Err(
            PvorErrorView::ByteLenMismatch {
                table: info.name,
                got: info.byte_len,
                expected: table_len(info.rows, info.cols) as u64,
            },
        )
    } else {
        Ok((info, m + 28))
    }
}

/// The `n` table descriptions from a place on.
pub open spec fn parse_metas(b: Seq<u8>, at: int, n: nat) -> Result<Seq<InfoView>, PvorErrorView>
    decreases n,
{
    if n == 0 {
        Ok(Seq::empty())
    } else {
        match parse_meta(b, at) {
            Err(e) => Err(e),
            Ok((info, next)) => match parse_metas(b, next, (n - 1) as nat) {
                Err(e) => Err(e),
                Ok(rest) => Ok(seq![info] + rest),
            },
        }
    }
}

/// The tables that a container describes.
pub open spec fn parse_container(b: Seq<u8>) -> Result<Seq<InfoView>, PvorErrorView> {
    if b.len() < 4 {
        Err(PvorErrorView::UnexpectedEnd)
    } else if b.take(4) != magic() {
        Err(PvorErrorView::BadMagic)
    } else if b.len() < 8 {
        Err(PvorErrorView::UnexpectedEnd)
    } else if number_at(b, 4, 4) != VERSION {
        Err(PvorErrorView::UnsupportedVersion(number_at(b, 4, 4) as u32))
    } else if b.len() < 16 {
        Err(PvorErrorView::UnexpectedEnd)
    } else {
        parse_metas(b, 16, number_at(b, 8, 4))
    }
}

/// A result with a list put in front.
pub open spec fn prepended(
    front: Seq<InfoView>,
    r: Result<Seq<InfoView>, PvorErrorView>,
) -> Result<Seq<InfoView>, PvorErrorView> {
    match r {
        Ok(rest) => Ok(front + rest),
        Err(e) => Err(e),
    }
}

/// The readings of a list of table descriptions.
pub open spec fn infos_view(list: Seq<TableInfo>) -> Seq<InfoView> {
    list.map_values(|t: TableInfo| t@)
}

/// The last of the first `n` tables of that name.
pub open spec fn find_table(infos: Seq<InfoView>, name: Seq<char>, n: nat) -> Option<int>
    decreases n,
{
    if n == 0 {
        None
    } else if infos[n - 1].name == name {
        Some(n - 1)
    } else {
        find_table(infos, name, (n - 1) as nat)
    }
}

/// Where a row of a table begins.
pub open spec fn row_start(info: InfoView, row: int) -> int {
    info.offset + row * info.cols * 4
}

/// The bytes of a row lie within the container. A row without columns has none.
pub open spec fn row_within(b: Seq<u8>, info: InfoView, row: int) -> bool {
    info.cols == 0 || row_start(info, row) + 4 * info.cols <= b.len()
}

/// A row of a table.
pub open spec fn row_values(b: Seq<u8>, info: InfoView, row: int) -> Seq<u32> {
    Seq::new(
        info.cols as nat,
        |j: int| number_at(b, row_start(info, row) + 4 * j, 4) as u32,
    )
}

/// What a table holds. Rows that do not lie within the container cannot be read.
pub open spec fn table_model(b: Seq<u8>, info: InfoView) -> TableModel {
    TableModel {
        rows: info.rows,
        cols: info.cols,
        data: Seq::new(
            info.rows as nat,
            |i: int|
                if row_within(b, info, i) {
                    row_values(b, info, i)
                } else {
                    Seq::empty()
                },
        ),
        readable: Seq::new(info.rows as nat, |i: int| row_within(b, info, i)),
    }
}

/// The tables of a container, by name. Of several tables of the same name the last one counts.
pub open spec fn container_tables(b: Seq<u8>, infos: Seq<InfoView>) -> Map<Seq<char>, TableModel> {
    Map::new(
        |name: Seq<char>| find_table(infos, name, infos.len()) is Some,
        |name: Seq<char>| table_model(b, infos[find_table(infos, name, infos.len())->0]),
    )
}

/// Every row that can be looked up lies within the container.
pub open spec fn rows_within(b: Seq<u8>, infos: Seq<InfoView>) -> bool {
    forall|name: Seq<char>, row: int|
        #![trigger find_table(infos, name, infos.len()), row_within(b, infos[find_table(infos, name, infos.len())->0], row)]
        find_table(infos, name, infos.len()) is Some && 0 <= row < infos[find_table(
            infos,
            name,
            infos.len(),
        )->0].rows ==> row_within(b, infos[find_table(infos, name, infos.len())->0], row)
}

/// Calls `String::from_utf8`: the string that the bytes encode, or nothing where they are not valid
/// UTF-8.
#[verifier::external_body]
fn string_from_utf8(bytes: Vec<u8>) -> (r: Option<String>)
    ensures
        match r {
            Some(s) => valid_utf8(bytes@) && s@ == decode_utf8(bytes@),
            None => !valid_utf8(bytes@),
        },
{
    String::from_utf8(bytes).ok()
}

/// Copies bytes.
fn copy_range(bytes: &[u8], from: usize, to: usize) -> (r: Vec<u8>)
    requires
        from <= to <= bytes@.len(),
    ensures
        r@ == bytes@.subrange(from as int, to as int),
{
    let mut r: Vec<u8> = Vec::new();
    let mut i: usize = from;
    while i < to
        invariant
            from <= i <= to <= bytes@.len(),
            r@ == bytes@.subrange(from as int, i as int),
        decreases to - i,
    {
        r.push(bytes[i]);
        assert(bytes@.subrange(from as int, i as int).push(bytes@[i as int]) =~= bytes@.subrange(
            from as int,
            i + 1,
        ));
        i += 1;
    }
    r
}

/// Reads the table description at a place, and moves behind it.
fn read_meta(bytes: &[u8], at: &mut usize) -> (r: Result<TableInfo, PvorError>)
    requires
        *old(at) <= bytes@.len(),
    ensures
        match r {
            Ok(t) => {
                &&& parse_meta(bytes@, *old(at) as int) == Ok::<(InfoView, int), PvorErrorView>(
                    (t@, *final(at) as int),
                )
                &&& *final(at) <= bytes@.len()
            },
            Err(e) => parse_meta(bytes@, *old(at) as int) == Err::<(InfoView, int), PvorErrorView>(
                e@,
            ),
        },
{
    let ghost start = *at as int;
    let name_len: usize = match read_u16_le(bytes, at) {
        Ok(n) => n as usize,
        Err(_) => {
            return Err(PvorError::UnexpectedEnd);
        },
    };
    let name_at: usize = *at;
    if bytes.len() - name_at < name_len {
        return Err(PvorError::UnexpectedEnd);
    }
    let ghost m = start + 2 + name_len;
    *at = name_at + name_len;
    let name = match string_from_utf8(copy_range(bytes, name_at, name_at + name_len)) {
        Some(s) => s,
        None => {
            return Err(PvorError::NameNotUtf8);
        },
    };
    let rows: u32 = match read_u32_le(bytes, at) {
        Ok(n) => n,
        Err(_) => {
            return Err(PvorError::UnexpectedEnd);
        },
    };
    let cols: u32 = match read_u32_le(bytes, at) {
        Ok(n) => n,
        Err(_) => {
            return Err(PvorError::UnexpectedEnd);
        },
    };
    let elem_at: usize = *at;
    if bytes.len() - elem_at < 2 {
        return Err(PvorError::UnexpectedEnd);
    }
    let elem_size: u8 = bytes[elem_at];
    let encoding: u8 = bytes[elem_at + 1];
    *at = elem_at + 2;
    if read_u16_le(bytes, at).is_err() {
        return Err(PvorError::UnexpectedEnd);
    }
    if elem_size != 4 {
        return Err(PvorError::ElementSize);
    }
    if encoding != 0 {
        return Err(PvorError::Encoding);
    }
    let offset: u64 = match read_u64_le(bytes, at) {
        Ok(n) => n,
        Err(_) => {
            return Err(PvorError::UnexpectedEnd);
        },
    };
    let byte_len: u64 = match read_u64_le(bytes, at) {
        Ok(n) => n,
        Err(_) => {
            return Err(PvorError::UnexpectedEnd);
        },
    };
    assert(rows * cols <= 0xffff_ffff * 0xffff_ffff) by (nonlinear_arith)
        requires
            rows <= 0xffff_ffff,
            cols <= 0xffff_ffff,
    ;
    let expected: u64 = match (rows as u64 * cols as u64).checked_mul(4) {
        Some(n) => n,
        None => {
            return Err(PvorError::ByteLenOverflow);
        },
    };
    if byte_len != expected {
        return Err(PvorError::ByteLenMismatch { table: name, got: byte_len, expected });
    }
    Ok(TableInfo { name, rows, cols, offset, byte_len })
}

/// A container that was read into memory.
#[derive(Debug)]
pub struct PvorReader {
    bytes: Vec<u8>,
    tables: Vec<TableInfo>,
}

impl PvorReader {
    /// The bytes of the container.
    pub closed spec fn content(&self) -> Seq<u8> {
        self.bytes@
    }

    /// What the container says of its tables.
    pub closed spec fn infos(&self) -> Seq<InfoView> {
        infos_view(self.tables@)
    }

    /// Reads the table descriptions of a container.
    pub fn open(bytes: Vec<u8>) -> (r: Result<PvorReader, PvorError>)
        ensures
            match r {
                Ok(reader) => {
                    &&& parse_container(bytes@) == Ok::<Seq<InfoView>, PvorErrorView>(
                        reader.infos(),
                    )
                    &&& reader.content() == bytes@
                },
                Err(e) => parse_container(bytes@) == Err::<Seq<InfoView>, PvorErrorView>(e@),
            },
    {
        let ghost b = bytes@;
        if bytes.len() < 4 {
            return Err(PvorError::UnexpectedEnd);
        }
        let head = copy_range(&bytes, 0, 4);
        assert(head@ =~= b.take(4));
        if !bytes_eq(&head, "PVOR".as_bytes()) {
            return Err(PvorError::BadMagic);
        }
        let mut at: usize = 4;
        let version: u32 = match read_u32_le(&bytes, &mut at) {
            Ok(n) => n,
            Err(_) => {
                return Err(PvorError::UnexpectedEnd);
            },
        };
        if version != VERSION {
            return Err(PvorError::UnsupportedVersion(version));
        }
        let num_tables: u32 = match read_u32_le(&bytes, &mut at) {
            Ok(n) => n,
            Err(_) => {
                return Err(PvorError::UnexpectedEnd);
            },
        };
        if read_u32_le(&bytes, &mut at).is_err() {
            return Err(PvorError::UnexpectedEnd);
        }
        let mut tables: Vec<TableInfo> = Vec::new();
        let mut i: u32 = 0;
        proof {
            let rest = parse_metas(b, 16, num_tables as nat);
            assert(infos_view(tables@) =~= Seq::<InfoView>::empty());
            if let Ok(list) = rest {
                assert(Seq::<InfoView>::empty() + list =~= list);
            }
            assert(parse_container(b) == prepended(infos_view(tables@), rest));
        }
        while i < num_tables
            invariant
                i <= num_tables,
                b == bytes@,
                at <= bytes@.len(),
                parse_container(b) == prepended(
                    infos_view(tables@),
                    parse_metas(b, at as int, (num_tables - i) as nat),
                ),
            decreases num_tables - i,
        {
            let ghost here = at as int;
            let ghost left = (num_tables - i) as nat;
            let ghost front = infos_view(tables@);
            let t = match read_meta(&bytes, &mut at) {
                Ok(t) => t,
                Err(e) => {
                    return Err(e);
                },
            };
            proof {
                let rest = parse_metas(b, at as int, (left - 1) as nat);
                assert(infos_view(tables@.push(t)) =~= front.push(t@));
                if let Ok(list) = rest {
                    assert(front + (seq![t@] + list) =~= front.push(t@) + list);
                }
            }
            tables.push(t);
            i += 1;
        }
        proof {
            assert(infos_view(tables@) + Seq::<InfoView>::empty() =~= infos_view(tables@));
        }
        Ok(PvorReader { bytes, tables })
    }

    /// The place of the last table of that name.
    fn find(&self, name: &str) -> (r: Option<usize>)
        ensures
            match r {
                Some(i) => i < self.tables@.len() && find_table(
                    self.infos(),
                    name@,
                    self.infos().len(),
                ) == Some(i as int),
                None => find_table(self.infos(), name@, self.infos().len()) is None,
            },
    {
        let ghost infos = self.infos();
        let mut i: usize = self.tables.len();
        while i > 0
            invariant
                i <= self.tables@.len(),
                infos == infos_view(self.tables@),
                find_table(infos, name@, infos.len()) == find_table(infos, name@, i as nat),
            decreases i,
        {
            assert(infos[i - 1] == self.tables@[i - 1]@);
            if str_eq(self.tables[i - 1].name.as_str(), name) {
                return Some(i - 1);
            }
            i -= 1;
        }
        None
    }

    /// What the container says of a table. Of several tables of the same name the last one counts.
    pub fn table(&self, name: &str) -> (r: Option<&TableInfo>)
        ensures
            match r {
                Some(t) => {
                    &&& find_table(self.infos(), name@, self.infos().len()) is Some
                    &&& t@ == self.infos()[find_table(self.infos(), name@, self.infos().len())->0]
                },
                None => find_table(self.infos(), name@, self.infos().len()) is None,
            },
    {
        match self.find(name) {
            Some(i) => {
                assert(self.infos()[i as int] == self.tables@[i as int]@);
                Some(&self.tables[i])
            },
            None => None,
        }
    }

    /// The names of all tables, in the order of the container.
    pub fn table_names(&self) -> (r: Vec<&str>)
        ensures
            r@.len() == self.infos().len(),
            forall|i: int| 0 <= i < r@.len() ==> (#[trigger] r@[i])@ == self.infos()[i].name,
    {
        let mut r: Vec<&str> = Vec::new();
        let mut i: usize = 0;
        while i < self.tables.len()
            invariant
                i <= self.tables@.len(),
                r@.len() == i,
                forall|k: int| 0 <= k < i ==> (#[trigger] r@[k])@ == self.tables@[k].name@,
            decreases self.tables@.len() - i,
        {
            r.push(self.tables[i].name.as_str());
            i += 1;
        }
        r
    }

    /// Reads one row of a table.
    pub fn read_row_u32(&self, table: &str, row: u32) -> (r: Result<Vec<u32>, RowError>)
        ensures
            ({
                let infos = self.infos();
                match find_table(infos, table@, infos.len()) {
                    None => r is Err && r->Err_0@ == RowErrorView::MissingTable(table@),
                    Some(i) => if row >= infos[i].rows {
                        r is Err && r->Err_0@ == RowErrorView::RowOutOfRange(table@)
                    } else if !row_within(self.content(), infos[i], row as int) {
                        r is Err && r->Err_0@ == RowErrorView::Unreadable(table@)
                    } else {
                        r is Ok && r->Ok_0@ == row_values(self.content(), infos[i], row as int)
                    },
                }
            }),
    {
        let i: usize = match self.find(table) {
            Some(i) => i,
            None => {
                return Err(RowError::MissingTable(table.to_owned()));
            },
        };
        let t = &self.tables[i];
        let ghost info = self.infos()[i as int];
        assert(info == t@);
        if row >= t.rows {
            return Err(RowError::RowOutOfRange(table.to_owned()));
        }
        let mut r: Vec<u32> = Vec::new();
        if t.cols == 0 {
            assert(r@ =~= row_values(self.content(), info, row as int));
            return Ok(r);
        }
        let len: usize = self.bytes.len();
        assert(row * t.cols <= 0xffff_ffff * 0xffff_ffff) by (nonlinear_arith)
            requires
                row <= 0xffff_ffff,
                t.cols <= 0xffff_ffff,
        ;
        let start: u128 = t.offset as u128 + row as u128 * t.cols as u128 * 4;
        if start + 4 * t.cols as u128 > len as u128 {
            return Err(RowError::Unreadable(table.to_owned()));
        }
        let mut at: usize = start as usize;
        let mut j: u32 = 0;
        while j < t.cols
            invariant
                j <= t.cols,
                info == t@,
                len == self.bytes@.len(),
                start == row_start(info, row as int),
                start + 4 * t.cols <= len,
                at == start + 4 * j,
                r@.len() == j,
                forall|k: int|
                    0 <= k < j ==> #[trigger] r@[k] == number_at(
                        self.bytes@,
                        start + 4 * k,
                        4,
                    ) as u32,
            decreases t.cols - j,
        {
            let v: u32 = match read_u32_le(&self.bytes, &mut at) {
                Ok(v) => v,
                Err(_) => 0,
            };
            r.push(v);
            j += 1;
        }
        assert(r@ =~= row_values(self.content(), info, row as int));
        Ok(r)
    }
}

impl RowProvider for PvorReader {
    open spec fn tables(&self) -> Map<Seq<char>, TableModel> {
        container_tables(self.content(), self.infos())
    }

    proof fn lemma_normal(&self) {
        let tables = self.tables();
        assert forall|t: Seq<char>| #[trigger] tables.contains_key(t) implies normal_table(
            tables[t],
        ) by {}
    }

    fn dims(&self, table: &str) -> (r: Option<(u32, u32)>) {
        match self.table(table) {
            Some(t) => Some((t.rows, t.cols)),
            None => None,
        }
    }

    fn read_row_u32(&mut self, table: &str, row: u32) -> (r: Result<Vec<u32>, RowError>) {
        PvorReader::read_row_u32(self, table, row)
    }
}

} // verus!
