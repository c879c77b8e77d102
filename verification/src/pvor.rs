//! PVOR, a minimal container of `u32` tables.
//!
//! Layout, all numbers little-endian:
//! - magic `PVOR`, version `u32` (1), number of tables `u32`, reserved `u32`
//! - for each table: length of its name `u16`, the name, rows `u32`, cols `u32`, element size `u8`
//!   (4), encoding `u8` (0: raw `u32`), reserved `u16`, offset `u64` from the start, byte length `u64`
//! - the tables at their offsets, row by row

use vstd::prelude::*;
use vstd::utf8::encode_utf8;

use crate::bytes::le_bytes;

pub mod reader;
pub mod reserved;
pub mod round_trip;
pub mod writer;

verus! {

/// The version of the format.
pub const VERSION: u32 = 1;

/// The length of what stands before the first table description.
pub const FIXED_LEN: usize = 16;

/// The length of a table description, without the name.
pub const META_LEN: usize = 30;

/// What a container says of a table.
#[derive(Debug)]
pub struct TableInfo {
    pub name: String,
    pub rows: u32,
    pub cols: u32,
    pub offset: u64,
    pub byte_len: u64,
}

/// The mathematical reading of a [`TableInfo`].
#[verifier::ext_equal]
pub struct InfoView {
    pub name: Seq<char>,
    pub rows: u32,
    pub cols: u32,
    pub offset: u64,
    pub byte_len: u64,
}

impl View for TableInfo {
    type V = InfoView;

    open spec fn view(&self) -> InfoView {
        InfoView {
            name: self.name@,
            rows: self.rows,
            cols: self.cols,
            offset: self.offset,
            byte_len: self.byte_len,
        }
    }
}

impl Clone for TableInfo {
    fn clone(&self) -> (r: TableInfo)
        ensures
            r@ == self@,
    {
        TableInfo {
            name: self.name.clone(),
            rows: self.rows,
            cols: self.cols,
            offset: self.offset,
            byte_len: self.byte_len,
        }
    }
}

/// The magic bytes.
pub open spec fn magic() -> Seq<u8> {
    encode_utf8("PVOR"@)
}

/// What stands before the first table description.
pub open spec fn fixed_part(num_tables: nat) -> Seq<u8> {
    magic() + le_bytes(VERSION as nat, 4) + le_bytes(num_tables, 4) + le_bytes(0, 4)
}

/// The description of a table.
pub open spec fn meta_bytes(info: InfoView) -> Seq<u8> {
    le_bytes(encode_utf8(info.name).len(), 2) + encode_utf8(info.name) + le_bytes(
        info.rows as nat,
        4,
    ) + le_bytes(info.cols as nat, 4) + seq![4u8, 0u8] + le_bytes(0, 2) + le_bytes(
        info.offset as nat,
        8,
    ) + le_bytes(info.byte_len as nat, 8)
}

/// The length of a table in bytes.
pub open spec fn table_len(rows: u32, cols: u32) -> nat {
    (rows * cols * 4) as nat
}

} // verus!
