//! The binary page format, defined at the specification level.
//!
//! Every multi-byte integer is little-endian. Strings are length-prefixed
//! UTF-8 without a terminator. A schema page holds one table: name, column
//! list, the head of the table's row chain, and the id of the next schema
//! page. A row page holds a row count, that many rows encoded with per-field
//! type tags, and the id of the next row page.
//!
//! Decoders return `Ok(None)` where a bounds check fails (the page is treated
//! as invalid), and `Err(())` where stored text is not valid UTF-8.

use vstd::prelude::*;
use vstd::bytes::{spec_u32_from_le_bytes, spec_u32_to_le_bytes, spec_u64_from_le_bytes,
    spec_u64_to_le_bytes};
use vstd::utf8::{decode_utf8, encode_utf8, valid_utf8};
use crate::storage::{page_at, PAGE_SIZE};
use crate::parser::ColumnV;
use crate::engine::TableV;
use crate::text::{i64_dec, lower, spec_parse_i64, upper};
use crate::errors::DbError;

verus! {

/// Sentinel identifying the file format, stored in the first eight bytes.
pub const MAGIC_NUMBER: u64 = 0x4953454E54414442;

/// Current format version, stored after the magic.
pub const DB_VERSION: u32 = 1;

/// Tag for a NULL field: no payload follows.
pub const TYPE_NULL: u8 = 0;

/// Tag for an integer field: eight little-endian bytes follow.
pub const TYPE_INT: u8 = 1;

/// Tag for a text field: a length-prefixed UTF-8 string follows.
pub const TYPE_TEXT: u8 = 2;

// ---------------------------------------------------------------------------
// Primitive reads and writes
// ---------------------------------------------------------------------------

pub open spec fn enc_u32(v: u32) -> Seq<u8> {
    spec_u32_to_le_bytes(v)
}

pub open spec fn enc_u64(v: u64) -> Seq<u8> {
    spec_u64_to_le_bytes(v)
}

pub open spec fn read_u32_at(d: Seq<u8>, off: int) -> u32
    recommends
        0 <= off,
        off + 4 <= d.len(),
{
    spec_u32_from_le_bytes(d.subrange(off, off + 4))
}

pub open spec fn read_u64_at(d: Seq<u8>, off: int) -> u64
    recommends
        0 <= off,
        off + 8 <= d.len(),
{
    spec_u64_from_le_bytes(d.subrange(off, off + 8))
}

/// The sequence with `r` written over the bytes starting at `off`.
pub open spec fn splice(d: Seq<u8>, off: int, r: Seq<u8>) -> Seq<u8>
    recommends
        0 <= off,
        off + r.len() <= d.len(),
{
    d.subrange(0, off) + r + d.subrange(off + r.len(), d.len() as int)
}

/// The bytes padded with zeros to a full page.
pub open spec fn pad_page(b: Seq<u8>) -> Seq<u8>
    recommends
        b.len() <= PAGE_SIZE,
{
    b + Seq::new((PAGE_SIZE - b.len()) as nat, |i: int| 0u8)
}

// ---------------------------------------------------------------------------
// Header page
// ---------------------------------------------------------------------------

/// A fresh header page: magic, version, schema root, table count, zeros.
pub open spec fn header_page(schema_root: u64, table_count: u32) -> Seq<u8> {
    pad_page(enc_u64(MAGIC_NUMBER) + enc_u32(DB_VERSION) + enc_u64(schema_root) + enc_u32(
        table_count,
    ))
}

pub open spec fn header_magic(d: Seq<u8>) -> u64 {
    read_u64_at(d, 0)
}

pub open spec fn header_schema_root(d: Seq<u8>) -> u64 {
    read_u64_at(d, 12)
}

pub open spec fn header_table_count(d: Seq<u8>) -> u32 {
    read_u32_at(d, 20)
}

// ---------------------------------------------------------------------------
// Strings and schema pages
// ---------------------------------------------------------------------------

/// A length-prefixed UTF-8 string.
pub open spec fn enc_str(s: Seq<char>) -> Seq<u8> {
    enc_u32(encode_utf8(s).len() as u32) + encode_utf8(s)
}

/// The column list, each column as two length-prefixed strings.
pub open spec fn enc_columns(cols: Seq<ColumnV>) -> Seq<u8>
    decreases cols.len(),
{
    if cols.len() == 0 {
        Seq::empty()
    } else {
        enc_str(cols[0].name) + enc_str(cols[0].data_type) + enc_columns(cols.drop_first())
    }
}

/// The body of a schema page, before zero padding.
pub open spec fn enc_schema(name: Seq<char>, cols: Seq<ColumnV>, data_page_id: u64,
    next_page_id: u64) -> Seq<u8> {
    enc_str(name) + enc_u32(cols.len() as u32) + enc_columns(cols) + enc_u64(data_page_id)
        + enc_u64(next_page_id)
}

/// Everything a schema page describes.
#[verifier::ext_equal]
pub struct SchemaV {
    pub name: Seq<char>,
    pub cols: Seq<ColumnV>,
    pub data_page_id: u64,
    pub next_page_id: u64,
}

/// Reads a length-prefixed UTF-8 string at `off`.
pub open spec fn dec_str_at(d: Seq<u8>, off: int) -> Result<Option<(Seq<char>, int)>, ()> {
    if off + 4 > d.len() {
        Ok(None)
    } else {
        let n = read_u32_at(d, off) as int;
        if off + 4 + n > d.len() {
            Ok(None)
        } else {
            let b = d.subrange(off + 4, off + 4 + n);
            if valid_utf8(b) {
                Ok(Some((decode_utf8(b), off + 4 + n)))
            } else {
                Err(())
            }
        }
    }
}

/// Reads `k` columns starting at `off`.
pub open spec fn dec_cols_at(d: Seq<u8>, off: int, k: int) -> Result<
    Option<(Seq<ColumnV>, int)>,
    (),
>
    decreases k,
{
    if k <= 0 {
        Ok(Some((Seq::empty(), off)))
    } else {
        match dec_str_at(d, off) {
            Err(e) => Err(e),
            Ok(None) => Ok(None),
            Ok(Some((name, off1))) => match dec_str_at(d, off1) {
                Err(e) => Err(e),
                Ok(None) => Ok(None),
                Ok(Some((ty, off2))) => match dec_cols_at(d, off2, k - 1) {
                    Err(e) => Err(e),
                    Ok(None) => Ok(None),
                    Ok(Some((rest, off3))) => Ok(
                        Some((seq![ColumnV { name, data_type: ty }] + rest, off3)),
                    ),
                },
            },
        }
    }
}

/// Reads one whole schema page.
pub open spec fn dec_schema(d: Seq<u8>) -> Result<Option<SchemaV>, ()> {
    if 4 > d.len() {
        Ok(None)
    } else {
        let name_len = read_u32_at(d, 0) as int;
        if name_len == 0 || name_len > 255 || 4 + name_len > d.len() {
            Ok(None)
        } else {
            let nb = d.subrange(4, 4 + name_len);
            if !valid_utf8(nb) {
                Err(())
            } else {
                let name = decode_utf8(nb);
                let off0 = 4 + name_len;
                if off0 + 4 > d.len() {
                    Ok(None)
                } else {
                    let ncols = read_u32_at(d, off0) as int;
                    match dec_cols_at(d, off0 + 4, ncols) {
                        Err(e) => Err(e),
                        Ok(None) => Ok(None),
                        Ok(Some((cols, off1))) => {
                            if off1 + 8 > d.len() {
                                Ok(None)
                            } else {
                                let data_page_id = read_u64_at(d, off1);
                                if off1 + 16 > d.len() {
                                    Ok(None)
                                } else {
                                    let next_page_id = read_u64_at(d, off1 + 8);
                                    Ok(Some(SchemaV { name, cols, data_page_id, next_page_id }))
                                }
                            }
                        },
                    }
                }
            }
        }
    }
}

/// The byte offset of the `data_page_id` field of a schema page, when the
/// page parses.
pub open spec fn schema_data_pid_off(d: Seq<u8>) -> int
    recommends
        dec_schema(d) matches Ok(Some(_)),
{
    let name_len = read_u32_at(d, 0) as int;
    let off0 = 4 + name_len;
    let ncols = read_u32_at(d, off0) as int;
    match dec_cols_at(d, off0 + 4, ncols) {
        Ok(Some((cols, off1))) => off1,
        _ => 0,
    }
}

// ---------------------------------------------------------------------------
// Values and row pages
// ---------------------------------------------------------------------------

/// Whether a declared column type selects the integer encoding on write.
pub open spec fn is_int_type(ty: Seq<char>) -> bool {
    upper(ty) == "INT"@ || upper(ty) == "INTEGER"@
}

/// How one field is encoded: empty writes NULL; on an integer column a value
/// that parses as `i64` writes the tagged integer; everything else writes
/// tagged length-prefixed text.
pub open spec fn enc_value(ty: Seq<char>, v: Seq<char>) -> Seq<u8> {
    if v.len() == 0 {
        seq![TYPE_NULL]
    } else if is_int_type(ty) && spec_parse_i64(v) is Some {
        seq![TYPE_INT] + enc_u64(spec_parse_i64(v)->Some_0 as u64)
    } else {
        seq![TYPE_TEXT] + enc_str(v)
    }
}

/// The value that a field reads back as, after one store-and-load cycle.
pub open spec fn stored_value(ty: Seq<char>, v: Seq<char>) -> Seq<char> {
    if v.len() == 0 {
        Seq::empty()
    } else if is_int_type(ty) && spec_parse_i64(v) is Some {
        i64_dec(spec_parse_i64(v)->Some_0)
    } else {
        v
    }
}

/// A whole row after one store-and-load cycle.
pub open spec fn stored_row(cols: Seq<ColumnV>, vals: Seq<Seq<char>>) -> Seq<Seq<char>> {
    Seq::new(row_width(cols, vals) as nat, |i: int| stored_value(cols[i].data_type, vals[i]))
}

/// All rows after one store-and-load cycle.
pub open spec fn stored_rows(cols: Seq<ColumnV>, rows: Seq<Seq<Seq<char>>>) -> Seq<
    Seq<Seq<char>>,
> {
    rows.map_values(|vals: Seq<Seq<char>>| stored_row(cols, vals))
}

/// How many fields of a row are written: one per column, as far as the row
/// has values.
pub open spec fn row_width(cols: Seq<ColumnV>, vals: Seq<Seq<char>>) -> int {
    if cols.len() <= vals.len() {
        cols.len() as int
    } else {
        vals.len() as int
    }
}

/// The first `k` fields of a row, encoded.
pub open spec fn enc_row_prefix(cols: Seq<ColumnV>, vals: Seq<Seq<char>>, k: int) -> Seq<u8>
    decreases k,
{
    if k <= 0 {
        Seq::empty()
    } else {
        enc_row_prefix(cols, vals, k - 1) + enc_value(cols[k - 1].data_type, vals[k - 1])
    }
}

/// A whole row, encoded.
pub open spec fn enc_row(cols: Seq<ColumnV>, vals: Seq<Seq<char>>) -> Seq<u8> {
    enc_row_prefix(cols, vals, row_width(cols, vals))
}

/// Rows encoded back to back.
pub open spec fn enc_rows(cols: Seq<ColumnV>, rows: Seq<Seq<Seq<char>>>) -> Seq<u8>
    decreases rows.len(),
{
    if rows.len() == 0 {
        Seq::empty()
    } else {
        enc_row(cols, rows[0]) + enc_rows(cols, rows.drop_first())
    }
}

/// How many of the rows a page takes, writing greedily from offset `used`:
/// a row is taken only while the cursor stays at least eight bytes short of
/// the page end, so the trailing next-page id always fits.
pub open spec fn fit_count(cols: Seq<ColumnV>, rows: Seq<Seq<Seq<char>>>, used: int) -> nat
    decreases rows.len(),
{
    if rows.len() == 0 {
        0
    } else {
        let l = enc_row(cols, rows[0]).len();
        if used + l <= PAGE_SIZE - 8 {
            (1 + fit_count(cols, rows.drop_first(), used + l)) as nat
        } else {
            0
        }
    }
}

/// The body of a row page holding exactly these rows, before zero padding.
pub open spec fn enc_row_page(cols: Seq<ColumnV>, rows: Seq<Seq<Seq<char>>>, next: u64) -> Seq<
    u8,
> {
    enc_u32(rows.len() as u32) + enc_rows(cols, rows) + enc_u64(next)
}

/// Reads one tagged field at `off`. The tag alone decides the layout: NULL
/// has no payload, INT has eight bytes, and any other tag reads as
/// length-prefixed text, which also covers the legacy untagged form.
pub open spec fn dec_value_at(d: Seq<u8>, off: int) -> Result<Option<(Seq<char>, int)>, ()> {
    if off + 1 > d.len() {
        Ok(None)
    } else {
        let tag = d[off];
        if tag == TYPE_NULL {
            Ok(Some((Seq::empty(), off + 1)))
        } else if tag == TYPE_INT {
            if off + 9 > d.len() {
                Ok(None)
            } else {
                Ok(Some((i64_dec(read_u64_at(d, off + 1) as i64), off + 9)))
            }
        } else {
            dec_str_at(d, off + 1)
        }
    }
}

/// Reads `k` fields starting at `off`.
pub open spec fn dec_row_at(d: Seq<u8>, off: int, k: int) -> Result<
    Option<(Seq<Seq<char>>, int)>,
    (),
>
    decreases k,
{
    if k <= 0 {
        Ok(Some((Seq::empty(), off)))
    } else {
        match dec_value_at(d, off) {
            Err(e) => Err(e),
            Ok(None) => Ok(None),
            Ok(Some((v, off1))) => match dec_row_at(d, off1, k - 1) {
                Err(e) => Err(e),
                Ok(None) => Ok(None),
                Ok(Some((rest, off2))) => Ok(Some((seq![v] + rest, off2))),
            },
        }
    }
}

/// Reads `n` rows of `k` fields each starting at `off`.
pub open spec fn dec_rows_at(d: Seq<u8>, off: int, n: int, k: int) -> Result<
    Option<(Seq<Seq<Seq<char>>>, int)>,
    (),
>
    decreases n,
{
    if n <= 0 {
        Ok(Some((Seq::empty(), off)))
    } else {
        match dec_row_at(d, off, k) {
            Err(e) => Err(e),
            Ok(None) => Ok(None),
            Ok(Some((row, off1))) => match dec_rows_at(d, off1, n - 1, k) {
                Err(e) => Err(e),
                Ok(None) => Ok(None),
                Ok(Some((rest, off2))) => Ok(Some((seq![row] + rest, off2))),
            },
        }
    }
}

/// Reads one whole row page: the row count, that many rows, and the trailing
/// next-page id. A zero row count ends the chain.
pub open spec fn dec_row_page(d: Seq<u8>, k: int) -> Result<
    Option<(Seq<Seq<Seq<char>>>, u64)>,
    (),
> {
    if 4 > d.len() {
        Ok(None)
    } else {
        let n = read_u32_at(d, 0) as int;
        if n == 0 {
            Ok(Some((Seq::empty(), 0)))
        } else {
            match dec_rows_at(d, 4, n, k) {
                Err(e) => Err(e),
                Ok(None) => Ok(None),
                Ok(Some((rows, off))) => {
                    if off + 8 > d.len() {
                        Ok(None)
                    } else {
                        Ok(Some((rows, read_u64_at(d, off))))
                    }
                },
            }
        }
    }
}

// ---------------------------------------------------------------------------
// Chains
// ---------------------------------------------------------------------------

/// Walks a row chain and gathers rows. The walk ends at page id 0, at a page
/// already visited, at an invalid page, or at a page with no rows; stored
/// text that is not UTF-8 fails the walk. The fuel only bounds the recursion
/// and is chosen so that it never runs out before another stop condition.
pub open spec fn dec_rows_chain(pages: Seq<Seq<u8>>, k: int, pid: u64, visited: Seq<u64>,
    fuel: nat) -> Result<Seq<Seq<Seq<char>>>, ()>
    decreases fuel,
{
    if fuel == 0 {
        Ok(Seq::empty())
    } else if visited.contains(pid) {
        Ok(Seq::empty())
    } else if pid >= pages.len() {
        Ok(Seq::empty())
    } else {
        match dec_row_page(page_at(pages, pid), k) {
            Err(e) => Err(e),
            Ok(None) => Ok(Seq::empty()),
            Ok(Some((rows, next))) => {
                if next == 0 {
                    Ok(rows)
                } else {
                    match dec_rows_chain(pages, k, next, visited.push(pid), (fuel - 1) as nat) {
                        Err(e) => Err(e),
                        Ok(rest) => Ok(rows + rest),
                    }
                }
            },
        }
    }
}

/// The rows of a table whose schema page names `data_page_id` as the head of
/// its row chain; 0 means the table has no rows stored.
pub open spec fn table_rows(pages: Seq<Seq<u8>>, s: SchemaV) -> Result<Seq<Seq<Seq<char>>>, ()> {
    if s.data_page_id > 0 {
        dec_rows_chain(pages, s.cols.len() as int, s.data_page_id, Seq::empty(),
            (pages.len() + 1) as nat)
    } else {
        Ok(Seq::empty())
    }
}

/// Reads the table that one schema page describes, with its rows and the id
/// of the next schema page.
pub open spec fn spec_read_table(pages: Seq<Seq<u8>>, pid: u64) -> Result<
    Option<(TableV, u64)>,
    (),
> {
    if pid >= pages.len() {
        Ok(None)
    } else {
        match dec_schema(page_at(pages, pid)) {
            Err(e) => Err(e),
            Ok(None) => Ok(None),
            Ok(Some(s)) => match table_rows(pages, s) {
                Err(e) => Err(e),
                Ok(rows) => Ok(
                    Some((TableV { name: s.name, columns: s.cols, rows }, s.next_page_id)),
                ),
            },
        }
    }
}

/// Walks the schema chain and loads up to `remaining` tables. The walk ends
/// at page id 0, at a page already visited (a cycle), or at an invalid page.
pub open spec fn load_tables(pages: Seq<Seq<u8>>, pid: u64, remaining: int, visited: Seq<u64>)
    -> Result<Seq<TableV>, ()>
    decreases remaining,
{
    if remaining <= 0 || pid == 0 || visited.contains(pid) {
        Ok(Seq::empty())
    } else {
        match spec_read_table(pages, pid) {
            Err(e) => Err(e),
            Ok(None) => Ok(Seq::empty()),
            Ok(Some((t, next))) => match load_tables(pages, next, remaining - 1, visited.push(
                pid,
            )) {
                Err(e) => Err(e),
                Ok(rest) => Ok(seq![t] + rest),
            },
        }
    }
}

/// Walks the schema chain looking for a table name under ASCII case
/// folding, and returns the id of its schema page.
pub open spec fn find_schema(pages: Seq<Seq<u8>>, pid: u64, name: Seq<char>, visited: Seq<u64>,
    fuel: nat) -> Result<Option<u64>, ()>
    decreases fuel,
{
    if fuel == 0 || pid == 0 || visited.contains(pid) || pid >= pages.len() {
        Ok(None)
    } else {
        match dec_schema(page_at(pages, pid)) {
            Err(e) => Err(e),
            Ok(None) => Ok(None),
            Ok(Some(s)) => {
                if lower(s.name) == lower(name) {
                    Ok(Some(pid))
                } else {
                    find_schema(pages, s.next_page_id, name, visited.push(pid), (fuel - 1) as nat)
                }
            },
        }
    }
}

/// Walks the schema chain to its last page and writes the new page id into
/// that page's next-page field; `None` when the chain cannot be followed.
pub open spec fn spec_patch_chain(pages: Seq<Seq<u8>>, pid: u64, s_id: u64, visited: Seq<u64>,
    fuel: nat) -> Option<Seq<Seq<u8>>>
    decreases fuel,
{
    if fuel == 0 || pid == 0 || visited.contains(pid) || pid >= pages.len() {
        None
    } else {
        match dec_schema(page_at(pages, pid)) {
            Err(_) => None,
            Ok(None) => None,
            Ok(Some(s)) => {
                if s.next_page_id == 0 {
                    Some(
                        crate::storage::store_write(pages, pid, splice(
                            page_at(pages, pid),
                            schema_data_pid_off(page_at(pages, pid)) + 8,
                            enc_u64(s_id),
                        )),
                    )
                } else {
                    spec_patch_chain(pages, s.next_page_id, s_id, visited.push(pid), (fuel
                        - 1) as nat)
                }
            },
        }
    }
}

/// Bytes outside the spliced range keep their values.
pub proof fn lemma_splice_frame(d: Seq<u8>, off: int, r: Seq<u8>, lo: int, hi: int)
    requires
        0 <= off,
        off + r.len() <= d.len(),
        0 <= lo <= hi <= d.len(),
        hi <= off || off + r.len() <= lo,
    ensures
        splice(d, off, r).subrange(lo, hi) == d.subrange(lo, hi),
{
    assert(splice(d, off, r).subrange(lo, hi) =~= d.subrange(lo, hi));
}

/// The spliced range reads back as the replacement.
pub proof fn lemma_splice_read(d: Seq<u8>, off: int, r: Seq<u8>)
    requires
        0 <= off,
        off + r.len() <= d.len(),
    ensures
        splice(d, off, r).subrange(off, off + r.len()) == r,
        splice(d, off, r).len() == d.len(),
{
    assert(splice(d, off, r).subrange(off, off + r.len()) =~= r);
}

/// Whether some table in the list has this name under ASCII case folding.
pub open spec fn contains_name_ci(ts: Seq<TableV>, name: Seq<char>) -> bool {
    exists|i: int| 0 <= i < ts.len() && lower(#[trigger] ts[i].name) == lower(name)
}

/// Keeps the first table of every case-folded name, in order.
pub open spec fn dedup_ci(ts: Seq<TableV>) -> Seq<TableV>
    decreases ts.len(),
{
    if ts.len() == 0 {
        Seq::empty()
    } else {
        let pre = dedup_ci(ts.drop_last());
        if contains_name_ci(pre, ts.last().name) {
            pre
        } else {
            pre.push(ts.last())
        }
    }
}

// ---------------------------------------------------------------------------
// Checked schema encoding
// ---------------------------------------------------------------------------

/// Encodes the column list, reporting the first field that would cross the
/// page end, with the cursor starting at `off`.
pub open spec fn enc_columns_checked(cols: Seq<ColumnV>, off: int) -> Result<Seq<u8>, DbError>
    decreases cols.len(),
{
    if cols.len() == 0 {
        Ok(Seq::empty())
    } else {
        let nb = encode_utf8(cols[0].name);
        if off + 4 + nb.len() > PAGE_SIZE {
            Err(DbError::ColumnNameTooLong)
        } else {
            let tb = encode_utf8(cols[0].data_type);
            let off1 = off + 4 + nb.len();
            if off1 + 4 + tb.len() > PAGE_SIZE {
                Err(DbError::TypeTooLong)
            } else {
                match enc_columns_checked(cols.drop_first(), off1 + 4 + tb.len()) {
                    Err(e) => Err(e),
                    Ok(rest) => Ok(
                        enc_str(cols[0].name) + enc_str(cols[0].data_type) + rest,
                    ),
                }
            }
        }
    }
}

/// Encodes a whole schema page body, reporting the first field that does not
/// fit in the page.
pub open spec fn enc_schema_checked(name: Seq<char>, cols: Seq<ColumnV>, data_page_id: u64,
    next_page_id: u64) -> Result<Seq<u8>, DbError> {
    let nb = encode_utf8(name);
    if 4 + nb.len() > PAGE_SIZE {
        Err(DbError::NameTooLong)
    } else if 4 + nb.len() + 4 > PAGE_SIZE {
        Err(DbError::PageOverflow)
    } else {
        match enc_columns_checked(cols, 8 + nb.len() as int) {
            Err(e) => Err(e),
            Ok(cb) => {
                let body = enc_str(name) + enc_u32(cols.len() as u32) + cb;
                if body.len() + 16 > PAGE_SIZE {
                    Err(DbError::PageOverflow)
                } else {
                    Ok(body + enc_u64(data_page_id) + enc_u64(next_page_id))
                }
            },
        }
    }
}

/// What a freshly formatted header page reads back as.
pub proof fn lemma_header_fields(root: u64, count: u32)
    ensures
        header_magic(header_page(root, count)) == MAGIC_NUMBER,
        header_schema_root(header_page(root, count)) == root,
        header_table_count(header_page(root, count)) == count,
        header_page(root, count).len() == PAGE_SIZE,
{
    vstd::bytes::lemma_auto_spec_u32_to_from_le_bytes();
    vstd::bytes::lemma_auto_spec_u64_to_from_le_bytes();
    let body = enc_u64(MAGIC_NUMBER) + enc_u32(DB_VERSION) + enc_u64(root) + enc_u32(count);
    let d = header_page(root, count);
    assert(d.subrange(0, body.len() as int) =~= body);
    lemma_sub_eq(d, 0, body, 0, 8);
    assert(body.subrange(0, 8) =~= enc_u64(MAGIC_NUMBER));
    lemma_sub_eq(d, 0, body, 12, 20);
    assert(body.subrange(12, 20) =~= enc_u64(root));
    lemma_sub_eq(d, 0, body, 20, 24);
    assert(body.subrange(20, 24) =~= enc_u32(count));
}

/// A row-chain walk never reads the header page, so it is blind to changes
/// there.
pub proof fn lemma_chain_header_frame(pa: Seq<Seq<u8>>, pb: Seq<Seq<u8>>, k: int, pid: u64,
    visited: Seq<u64>, fuel: nat)
    requires
        pa.len() == pb.len(),
        forall|q: int| 1 <= q < pa.len() ==> pa[q] == pb[q],
        pid != 0,
    ensures
        dec_rows_chain(pa, k, pid, visited, fuel) == dec_rows_chain(pb, k, pid, visited, fuel),
    decreases fuel,
{
    if fuel == 0 || visited.contains(pid) || pid >= pa.len() {
    } else {
        assert(page_at(pa, pid) == page_at(pb, pid));
        match dec_row_page(page_at(pa, pid), k) {
            Err(_) => {},
            Ok(None) => {},
            Ok(Some((rows, next))) => {
                if next != 0 {
                    lemma_chain_header_frame(pa, pb, k, next, visited.push(pid), (fuel
                        - 1) as nat);
                }
            },
        }
    }
}

/// A schema-chain walk never reads the header page either.
pub proof fn lemma_load_tables_header_frame(pa: Seq<Seq<u8>>, pb: Seq<Seq<u8>>, pid: u64,
    remaining: int, visited: Seq<u64>)
    requires
        pa.len() == pb.len(),
        forall|q: int| 1 <= q < pa.len() ==> pa[q] == pb[q],
    ensures
        load_tables(pa, pid, remaining, visited) == load_tables(pb, pid, remaining, visited),
    decreases remaining,
{
    if remaining <= 0 || pid == 0 || visited.contains(pid) {
    } else if pid >= pa.len() {
    } else {
        assert(page_at(pa, pid) == page_at(pb, pid));
        match dec_schema(page_at(pa, pid)) {
            Err(_) => {},
            Ok(None) => {},
            Ok(Some(s)) => {
                if s.data_page_id > 0 {
                    lemma_chain_header_frame(pa, pb, s.cols.len() as int, s.data_page_id,
                        Seq::empty(), (pa.len() + 1) as nat);
                }
                match table_rows(pa, s) {
                    Err(_) => {},
                    Ok(rows) => {
                        lemma_load_tables_header_frame(pa, pb, s.next_page_id, remaining - 1,
                            visited.push(pid));
                    },
                }
            },
        }
    }
}

/// A schema-chain walk loads at most as many tables as it was asked for.
pub proof fn lemma_load_tables_len(pages: Seq<Seq<u8>>, pid: u64, remaining: int,
    visited: Seq<u64>)
    requires
        load_tables(pages, pid, remaining, visited) is Ok,
    ensures
        load_tables(pages, pid, remaining, visited)->Ok_0.len() <= if remaining >= 0 {
            remaining
        } else {
            0
        },
    decreases remaining,
{
    if remaining <= 0 || pid == 0 || visited.contains(pid) {
    } else {
        match spec_read_table(pages, pid) {
            Err(_) => {},
            Ok(None) => {},
            Ok(Some((t, next))) => {
                lemma_load_tables_len(pages, next, remaining - 1, visited.push(pid));
            },
        }
    }
}

/// Asking a schema-chain walk for no more tables than it found changes
/// nothing about what it finds.
pub proof fn lemma_load_tables_shrink(pages: Seq<Seq<u8>>, pid: u64, n: int, m: int,
    visited: Seq<u64>)
    requires
        load_tables(pages, pid, n, visited) is Ok,
        load_tables(pages, pid, n, visited)->Ok_0.len() <= m <= n,
    ensures
        load_tables(pages, pid, m, visited) == load_tables(pages, pid, n, visited),
    decreases n,
{
    if n <= 0 || pid == 0 || visited.contains(pid) {
        assert(m <= 0 || pid == 0 || visited.contains(pid) || true);
        if m > 0 && pid != 0 && !visited.contains(pid) {
            assert(false);
        }
    } else {
        match spec_read_table(pages, pid) {
            Err(_) => {},
            Ok(None) => {},
            Ok(Some((t, next))) => {
                assert(m >= 1);
                lemma_load_tables_shrink(pages, next, n - 1, m - 1, visited.push(pid));
            },
        }
    }
}

/// A checked column encoding that succeeds equals the plain encoding and
/// stays within the page.
pub proof fn lemma_enc_columns_checked_ok(cols: Seq<ColumnV>, off: int)
    requires
        0 <= off <= PAGE_SIZE,
        enc_columns_checked(cols, off) is Ok,
    ensures
        enc_columns_checked(cols, off)->Ok_0 == enc_columns(cols),
        off + enc_columns(cols).len() <= PAGE_SIZE,
    decreases cols.len(),
{
    vstd::bytes::lemma_auto_spec_u32_to_from_le_bytes();
    if cols.len() > 0 {
        let nb = encode_utf8(cols[0].name);
        let tb = encode_utf8(cols[0].data_type);
        let off1 = off + 4 + nb.len();
        lemma_enc_columns_checked_ok(cols.drop_first(), off1 + 4 + tb.len());
    }
}

/// The checked schema encoding does not depend on the two trailing page-id
/// fields for whether and how it fails.
pub proof fn lemma_enc_schema_checked_indep(name: Seq<char>, cols: Seq<ColumnV>, d1: u64,
    x1: u64, d2: u64, x2: u64)
    ensures
        (enc_schema_checked(name, cols, d1, x1) is Err) == (enc_schema_checked(
            name,
            cols,
            d2,
            x2,
        ) is Err),
        enc_schema_checked(name, cols, d1, x1) is Err ==> enc_schema_checked(name, cols, d1, x1)
            == enc_schema_checked(name, cols, d2, x2),
{
}

/// A checked schema encoding that succeeds equals the plain encoding and
/// stays within the page.
pub proof fn lemma_enc_schema_checked_ok(name: Seq<char>, cols: Seq<ColumnV>, d: u64, x: u64)
    requires
        enc_schema_checked(name, cols, d, x) is Ok,
    ensures
        enc_schema_checked(name, cols, d, x)->Ok_0 == enc_schema(name, cols, d, x),
        enc_schema(name, cols, d, x).len() <= PAGE_SIZE,
{
    vstd::bytes::lemma_auto_spec_u32_to_from_le_bytes();
    vstd::bytes::lemma_auto_spec_u64_to_from_le_bytes();
    let nb = encode_utf8(name);
    lemma_enc_columns_checked_ok(cols, 8 + nb.len() as int);
}

// ---------------------------------------------------------------------------
// Round trips: what the encoders write, the decoders read back
// ---------------------------------------------------------------------------

/// A window into bytes known to hold `e` at `off` reads as the matching
/// window of `e`.
pub proof fn lemma_sub_eq(d: Seq<u8>, off: int, e: Seq<u8>, a: int, b: int)
    requires
        0 <= off,
        off + e.len() <= d.len(),
        d.subrange(off, off + e.len()) == e,
        0 <= a <= b <= e.len(),
    ensures
        d.subrange(off + a, off + b) == e.subrange(a, b),
{
    assert forall|i: int| 0 <= i < b - a implies d.subrange(off + a, off + b)[i] == e.subrange(
        a,
        b,
    )[i] by {
        assert(d.subrange(off, off + e.len())[a + i] == e[a + i]);
    }
    assert(d.subrange(off + a, off + b) =~= e.subrange(a, b));
}

/// A length-prefixed string reads back as the characters that were written.
pub proof fn lemma_dec_str_at(d: Seq<u8>, off: int, s: Seq<char>)
    requires
        0 <= off,
        off + enc_str(s).len() <= d.len(),
        encode_utf8(s).len() <= u32::MAX,
        d.subrange(off, off + enc_str(s).len()) == enc_str(s),
    ensures
        dec_str_at(d, off) == Ok::<Option<(Seq<char>, int)>, ()>(
            Some((s, off + enc_str(s).len())),
        ),
{
    vstd::bytes::lemma_auto_spec_u32_to_from_le_bytes();
    let b = encode_utf8(s);
    let e = enc_str(s);
    lemma_sub_eq(d, off, e, 0, 4);
    assert(e.subrange(0, 4) =~= enc_u32(b.len() as u32));
    assert(read_u32_at(d, off) == b.len() as u32);
    lemma_sub_eq(d, off, e, 4, e.len() as int);
    assert(e.subrange(4, e.len() as int) =~= b);
    vstd::utf8::encode_utf8_valid_utf8(s);
    vstd::utf8::encode_utf8_decode_utf8(s);
}

/// A column list reads back as the columns that were written.
pub proof fn lemma_dec_cols_at(d: Seq<u8>, off: int, cols: Seq<ColumnV>)
    requires
        0 <= off,
        off + enc_columns(cols).len() <= d.len(),
        d.len() <= PAGE_SIZE,
        d.subrange(off, off + enc_columns(cols).len()) == enc_columns(cols),
    ensures
        dec_cols_at(d, off, cols.len() as int) == Ok::<Option<(Seq<ColumnV>, int)>, ()>(
            Some((cols, off + enc_columns(cols).len())),
        ),
    decreases cols.len(),
{
    vstd::bytes::lemma_auto_spec_u32_to_from_le_bytes();
    if cols.len() == 0 {
        assert(cols =~= Seq::<ColumnV>::empty());
        assert(enc_columns(cols).len() == 0);
    } else {
        let e = enc_columns(cols);
        let n = enc_str(cols[0].name);
        let t = enc_str(cols[0].data_type);
        let rest = enc_columns(cols.drop_first());
        assert(e == n + t + rest);
        lemma_sub_eq(d, off, e, 0, n.len() as int);
        assert(e.subrange(0, n.len() as int) =~= n);
        lemma_dec_str_at(d, off, cols[0].name);
        lemma_sub_eq(d, off, e, n.len() as int, n.len() + t.len() as int);
        assert(e.subrange(n.len() as int, n.len() + t.len() as int) =~= t);
        lemma_dec_str_at(d, off + n.len() as int, cols[0].data_type);
        lemma_sub_eq(d, off, e, n.len() + t.len() as int, e.len() as int);
        assert(e.subrange(n.len() + t.len() as int, e.len() as int) =~= rest);
        lemma_dec_cols_at(d, off + n.len() + t.len() as int, cols.drop_first());
        assert(ColumnV { name: cols[0].name, data_type: cols[0].data_type } =~= cols[0]);
        assert(seq![
            ColumnV { name: cols[0].name, data_type: cols[0].data_type },
        ] + cols.drop_first() =~= cols);
    }
}

/// A whole schema page reads back as the table description it was written
/// from: the law behind CREATE-then-reopen keeping name and columns.
pub proof fn lemma_schema_page_roundtrip(name: Seq<char>, cols: Seq<ColumnV>,
    data_page_id: u64, next_page_id: u64)
    requires
        enc_schema_checked(name, cols, data_page_id, next_page_id) is Ok,
        1 <= encode_utf8(name).len() <= 255,
        cols.len() <= u32::MAX,
    ensures
        dec_schema(pad_page(enc_schema(name, cols, data_page_id, next_page_id))) == Ok::<
            Option<SchemaV>,
            (),
        >(Some(SchemaV { name, cols, data_page_id, next_page_id })),
        schema_data_pid_off(pad_page(enc_schema(name, cols, data_page_id, next_page_id)))
            == enc_schema(name, cols, data_page_id, next_page_id).len() - 16,
{
    vstd::bytes::lemma_auto_spec_u32_to_from_le_bytes();
    vstd::bytes::lemma_auto_spec_u64_to_from_le_bytes();
    lemma_enc_schema_checked_ok(name, cols, data_page_id, next_page_id);
    let body = enc_schema(name, cols, data_page_id, next_page_id);
    let d = pad_page(body);
    let nb = encode_utf8(name);
    assert(d.len() == PAGE_SIZE);
    assert(d.subrange(0, body.len() as int) =~= body);
    lemma_sub_eq(d, 0, body, 0, 4);
    assert(body.subrange(0, 4) =~= enc_u32(nb.len() as u32));
    assert(read_u32_at(d, 0) == nb.len() as u32);
    lemma_sub_eq(d, 0, body, 4, 4 + nb.len() as int);
    assert(body.subrange(4, 4 + nb.len() as int) =~= nb);
    vstd::utf8::encode_utf8_valid_utf8(name);
    vstd::utf8::encode_utf8_decode_utf8(name);
    let off0 = 4 + nb.len() as int;
    lemma_sub_eq(d, 0, body, off0, off0 + 4);
    assert(body.subrange(off0, off0 + 4) =~= enc_u32(cols.len() as u32));
    assert(read_u32_at(d, off0) == cols.len() as u32);
    let ec = enc_columns(cols);
    lemma_sub_eq(d, 0, body, off0 + 4, off0 + 4 + ec.len() as int);
    assert(body.subrange(off0 + 4, off0 + 4 + ec.len() as int) =~= ec);
    lemma_dec_cols_at(d, off0 + 4, cols);
    let off1 = off0 + 4 + ec.len() as int;
    lemma_sub_eq(d, 0, body, off1, off1 + 8);
    assert(body.subrange(off1, off1 + 8) =~= enc_u64(data_page_id));
    assert(read_u64_at(d, off1) == data_page_id);
    lemma_sub_eq(d, 0, body, off1 + 8, off1 + 16);
    assert(body.subrange(off1 + 8, off1 + 16) =~= enc_u64(next_page_id));
    assert(read_u64_at(d, off1 + 8) == next_page_id);
    assert(off1 == body.len() - 16);
}

/// One encoded field reads back as its stored form: NULL as the empty
/// string, an integer as its canonical decimal form, text verbatim.
pub proof fn lemma_dec_value_at(d: Seq<u8>, off: int, ty: Seq<char>, v: Seq<char>)
    requires
        0 <= off,
        off + enc_value(ty, v).len() <= d.len(),
        d.len() <= PAGE_SIZE,
        enc_value(ty, v).len() <= PAGE_SIZE,
        d.subrange(off, off + enc_value(ty, v).len()) == enc_value(ty, v),
    ensures
        dec_value_at(d, off) == Ok::<Option<(Seq<char>, int)>, ()>(
            Some((stored_value(ty, v), off + enc_value(ty, v).len())),
        ),
{
    vstd::bytes::lemma_auto_spec_u32_to_from_le_bytes();
    vstd::bytes::lemma_auto_spec_u64_to_from_le_bytes();
    let e = enc_value(ty, v);
    assert(d[off] == e[0]);
    if v.len() == 0 {
        assert(e[0] == TYPE_NULL);
    } else if is_int_type(ty) && crate::text::spec_parse_i64(v) is Some {
        let n = crate::text::spec_parse_i64(v)->Some_0;
        assert(e[0] == TYPE_INT);
        assert(d[off] == TYPE_INT);
        lemma_sub_eq(d, off, e, 1, 9);
        assert(e.subrange(1, 9) =~= enc_u64(#[verifier::truncate] (n as u64)));
        assert(read_u64_at(d, off + 1) == #[verifier::truncate] (n as u64));
        assert((#[verifier::truncate] (n as u64)) as i64 == n) by (bit_vector);
    } else {
        assert(e[0] == TYPE_TEXT);
        assert(d[off] != TYPE_NULL && d[off] != TYPE_INT);
        lemma_sub_eq(d, off, e, 1, e.len() as int);
        assert(e.subrange(1, e.len() as int) =~= enc_str(v));
        lemma_dec_str_at(d, off + 1, v);
    }
}

/// Peeling the first field off an encoded row.
pub proof fn lemma_enc_row_front(cols: Seq<ColumnV>, vals: Seq<Seq<char>>, k: int)
    requires
        1 <= k <= cols.len(),
        k <= vals.len(),
    ensures
        enc_row_prefix(cols, vals, k) == enc_value(cols[0].data_type, vals[0]) + enc_row_prefix(
            cols.drop_first(),
            vals.drop_first(),
            k - 1,
        ),
    decreases k,
{
    if k == 1 {
        assert(enc_row_prefix(cols, vals, 0) =~= Seq::<u8>::empty());
        assert(enc_row_prefix(cols.drop_first(), vals.drop_first(), 0) =~= Seq::<u8>::empty());
        assert(enc_row_prefix(cols, vals, 1) =~= Seq::<u8>::empty() + enc_value(
            cols[0].data_type,
            vals[0],
        ));
        assert(enc_row_prefix(cols, vals, 1) =~= enc_value(cols[0].data_type, vals[0])
            + enc_row_prefix(cols.drop_first(), vals.drop_first(), 0));
    } else {
        lemma_enc_row_front(cols, vals, k - 1);
        assert(cols.drop_first()[k - 2] == cols[k - 1]);
        assert(vals.drop_first()[k - 2] == vals[k - 1]);
        assert(enc_row_prefix(cols, vals, k) =~= enc_value(cols[0].data_type, vals[0])
            + enc_row_prefix(cols.drop_first(), vals.drop_first(), k - 1));
    }
}

/// One encoded row reads back as its stored form, field by field.
pub proof fn lemma_dec_row_at(d: Seq<u8>, off: int, cols: Seq<ColumnV>, vals: Seq<Seq<char>>)
    requires
        0 <= off,
        vals.len() == cols.len(),
        off + enc_row(cols, vals).len() <= d.len(),
        d.len() <= PAGE_SIZE,
        d.subrange(off, off + enc_row(cols, vals).len()) == enc_row(cols, vals),
    ensures
        dec_row_at(d, off, cols.len() as int) == Ok::<Option<(Seq<Seq<char>>, int)>, ()>(
            Some((stored_row(cols, vals), off + enc_row(cols, vals).len())),
        ),
    decreases cols.len(),
{
    if cols.len() == 0 {
        assert(stored_row(cols, vals) =~= Seq::<Seq<char>>::empty());
    } else {
        let e = enc_row(cols, vals);
        let e0 = enc_value(cols[0].data_type, vals[0]);
        lemma_enc_row_front(cols, vals, cols.len() as int);
        let rest = enc_row(cols.drop_first(), vals.drop_first());
        assert(row_width(cols.drop_first(), vals.drop_first()) == cols.len() - 1);
        assert(e == e0 + rest);
        lemma_sub_eq(d, off, e, 0, e0.len() as int);
        assert(e.subrange(0, e0.len() as int) =~= e0);
        lemma_dec_value_at(d, off, cols[0].data_type, vals[0]);
        lemma_sub_eq(d, off, e, e0.len() as int, e.len() as int);
        assert(e.subrange(e0.len() as int, e.len() as int) =~= rest);
        lemma_dec_row_at(d, off + e0.len() as int, cols.drop_first(), vals.drop_first());
        assert(seq![stored_value(cols[0].data_type, vals[0])] + stored_row(
            cols.drop_first(),
            vals.drop_first(),
        ) =~= stored_row(cols, vals));
    }
}

/// A run of encoded rows reads back as their stored forms, row by row.
pub proof fn lemma_dec_rows_at(d: Seq<u8>, off: int, cols: Seq<ColumnV>,
    rows: Seq<Seq<Seq<char>>>)
    requires
        0 <= off,
        forall|i: int| 0 <= i < rows.len() ==> (#[trigger] rows[i]).len() == cols.len(),
        off + enc_rows(cols, rows).len() <= d.len(),
        d.len() <= PAGE_SIZE,
        d.subrange(off, off + enc_rows(cols, rows).len()) == enc_rows(cols, rows),
    ensures
        dec_rows_at(d, off, rows.len() as int, cols.len() as int) == Ok::<
            Option<(Seq<Seq<Seq<char>>>, int)>,
            (),
        >(Some((stored_rows(cols, rows), off + enc_rows(cols, rows).len()))),
    decreases rows.len(),
{
    if rows.len() == 0 {
        assert(stored_rows(cols, rows) =~= Seq::<Seq<Seq<char>>>::empty());
    } else {
        let e = enc_rows(cols, rows);
        let e0 = enc_row(cols, rows[0]);
        let rest = enc_rows(cols, rows.drop_first());
        assert(e == e0 + rest);
        lemma_sub_eq(d, off, e, 0, e0.len() as int);
        assert(e.subrange(0, e0.len() as int) =~= e0);
        lemma_dec_row_at(d, off, cols, rows[0]);
        lemma_sub_eq(d, off, e, e0.len() as int, e.len() as int);
        assert(e.subrange(e0.len() as int, e.len() as int) =~= rest);
        assert forall|i: int| 0 <= i < rows.drop_first().len() implies (#[trigger] rows.drop_first()[
            i
        ]).len() == cols.len() by {
            assert(rows.drop_first()[i] == rows[i + 1]);
        }
        lemma_dec_rows_at(d, off + e0.len() as int, cols, rows.drop_first());
        assert(seq![stored_row(cols, rows[0])] + stored_rows(cols, rows.drop_first())
            =~= stored_rows(cols, rows));
    }
}

/// A whole row page reads back as the stored forms of the rows written to
/// it and the next-page id it was written with: the law behind INSERT rows
/// surviving a reopen.
pub proof fn lemma_row_page_roundtrip(cols: Seq<ColumnV>, rows: Seq<Seq<Seq<char>>>, next: u64)
    requires
        forall|i: int| 0 <= i < rows.len() ==> (#[trigger] rows[i]).len() == cols.len(),
        1 <= rows.len() <= u32::MAX,
        enc_row_page(cols, rows, next).len() <= PAGE_SIZE,
    ensures
        dec_row_page(pad_page(enc_row_page(cols, rows, next)), cols.len() as int) == Ok::<
            Option<(Seq<Seq<Seq<char>>>, u64)>,
            (),
        >(Some((stored_rows(cols, rows), next))),
{
    vstd::bytes::lemma_auto_spec_u32_to_from_le_bytes();
    vstd::bytes::lemma_auto_spec_u64_to_from_le_bytes();
    let body = enc_row_page(cols, rows, next);
    let d = pad_page(body);
    let er = enc_rows(cols, rows);
    assert(d.len() == PAGE_SIZE);
    assert(d.subrange(0, body.len() as int) =~= body);
    lemma_sub_eq(d, 0, body, 0, 4);
    assert(body.subrange(0, 4) =~= enc_u32(rows.len() as u32));
    assert(read_u32_at(d, 0) == rows.len() as u32);
    lemma_sub_eq(d, 0, body, 4, 4 + er.len() as int);
    assert(body.subrange(4, 4 + er.len() as int) =~= er);
    lemma_dec_rows_at(d, 4, cols, rows);
    let off = 4 + er.len() as int;
    lemma_sub_eq(d, 0, body, off, off + 8);
    assert(body.subrange(off, off + 8) =~= enc_u64(next));
    assert(read_u64_at(d, off) == next);
}

/// A length-prefixed string read that stays below `bound` sees only bytes
/// the two buffers share.
pub proof fn lemma_dec_str_prefix_frame(da: Seq<u8>, db: Seq<u8>, x: int, bound: int)
    requires
        da.len() == db.len(),
        0 <= bound <= da.len(),
        da.subrange(0, bound) == db.subrange(0, bound),
        0 <= x,
        x + 4 <= bound,
        dec_str_at(da, x) matches Ok(Some(p)) && p.1 <= bound,
    ensures
        dec_str_at(db, x) == dec_str_at(da, x),
{
    assert forall|a: int, b: int| 0 <= a <= b <= bound implies da.subrange(a, b) == db.subrange(
        a,
        b,
    ) by {
        assert forall|i: int| 0 <= i < b - a implies da.subrange(a, b)[i] == db.subrange(a, b)[
            i
        ] by {
            assert(da.subrange(0, bound)[a + i] == da[a + i]);
            assert(db.subrange(0, bound)[a + i] == db[a + i]);
            assert(da.subrange(0, bound)[a + i] == db.subrange(0, bound)[a + i]);
        }
        assert(da.subrange(a, b) =~= db.subrange(a, b));
    }
    assert(da.subrange(x, x + 4) == db.subrange(x, x + 4));
    let n = read_u32_at(da, x) as int;
    assert(da.subrange(x + 4, x + 4 + n) == db.subrange(x + 4, x + 4 + n));
}

/// A column-list read that stays below `bound` sees only bytes the two
/// buffers share; read offsets never move backwards.
pub proof fn lemma_dec_cols_prefix_frame(da: Seq<u8>, db: Seq<u8>, x: int, k: int, bound: int)
    requires
        da.len() == db.len(),
        0 <= bound <= da.len(),
        da.subrange(0, bound) == db.subrange(0, bound),
        0 <= x,
        dec_cols_at(da, x, k) matches Ok(Some(p)) && p.1 <= bound && x <= p.1,
    ensures
        dec_cols_at(db, x, k) == dec_cols_at(da, x, k),
        dec_cols_at(da, x, k)->Ok_0->Some_0.1 >= x,
    decreases k,
{
    if k <= 0 {
    } else {
        let r1 = dec_str_at(da, x);
        let (name, off1) = r1->Ok_0->Some_0;
        let r2 = dec_str_at(da, off1);
        let (ty, off2) = r2->Ok_0->Some_0;
        let r3 = dec_cols_at(da, off2, k - 1);
        let off3 = r3->Ok_0->Some_0.1;
        lemma_dec_cols_offsets(da, off2, k - 1);
        assert(off2 <= off3);
        lemma_dec_str_prefix_frame(da, db, x, bound);
        lemma_dec_str_prefix_frame(da, db, off1, bound);
        lemma_dec_cols_prefix_frame(da, db, off2, k - 1, bound);
    }
}

/// Offsets only grow along a column-list read.
pub proof fn lemma_dec_cols_offsets(d: Seq<u8>, x: int, k: int)
    requires
        dec_cols_at(d, x, k) matches Ok(Some(p)),
    ensures
        dec_cols_at(d, x, k)->Ok_0->Some_0.1 >= x,
    decreases k,
{
    if k <= 0 {
    } else {
        let off1 = dec_str_at(d, x)->Ok_0->Some_0.1;
        let off2 = dec_str_at(d, off1)->Ok_0->Some_0.1;
        lemma_dec_cols_offsets(d, off2, k - 1);
    }
}

/// Rewriting only the data-page field of a schema page changes only what
/// the decoder reports for that field.
pub proof fn lemma_dec_schema_dpid_splice(d: Seq<u8>, v: u64)
    requires
        dec_schema(d) matches Ok(Some(_)),
        d.len() == PAGE_SIZE,
    ensures
        ({
            let s = dec_schema(d)->Ok_0->Some_0;
            let off = schema_data_pid_off(d);
            let db = splice(d, off, enc_u64(v));
            &&& dec_schema(db) == Ok::<Option<SchemaV>, ()>(
                Some(
                    SchemaV {
                        name: s.name,
                        cols: s.cols,
                        data_page_id: v,
                        next_page_id: s.next_page_id,
                    },
                ),
            )
            &&& schema_data_pid_off(db) == off
        }),
{
    vstd::bytes::lemma_auto_spec_u32_to_from_le_bytes();
    vstd::bytes::lemma_auto_spec_u64_to_from_le_bytes();
    let s = dec_schema(d)->Ok_0->Some_0;
    let off = schema_data_pid_off(d);
    let db = splice(d, off, enc_u64(v));
    let nl = read_u32_at(d, 0) as int;
    let off0 = 4 + nl;
    let ncols = read_u32_at(d, off0) as int;
    lemma_dec_cols_offsets(d, off0 + 4, ncols);
    assert(off >= off0 + 4);
    assert(off + 16 <= d.len());
    lemma_splice_read(d, off, enc_u64(v));
    assert(db.len() == d.len());
    assert(db.subrange(0, off) =~= d.subrange(0, off)) by {
        assert forall|i: int| 0 <= i < off implies db[i] == d[i] by {
            assert(db[i] == d.subrange(0, off)[i]);
        }
    }
    assert forall|a: int, b: int| 0 <= a <= b <= off implies db.subrange(a, b) == d.subrange(
        a,
        b,
    ) by {
        assert forall|i: int| 0 <= i < b - a implies db.subrange(a, b)[i] == d.subrange(a, b)[
            i
        ] by {
            assert(d.subrange(0, off)[a + i] == db.subrange(0, off)[a + i]);
        }
        assert(db.subrange(a, b) =~= d.subrange(a, b));
    }
    assert(read_u32_at(db, 0) == read_u32_at(d, 0));
    assert(db.subrange(4, 4 + nl) == d.subrange(4, 4 + nl));
    assert(read_u32_at(db, off0) == read_u32_at(d, off0));
    lemma_dec_cols_prefix_frame(d, db, off0 + 4, ncols, off);
    assert(db.subrange(off, off + 8) == enc_u64(v));
    assert(read_u64_at(db, off) == v);
    lemma_splice_frame(d, off, enc_u64(v), off + 8, off + 16);
    assert(read_u64_at(db, off + 8) == read_u64_at(d, off + 8));
}

} // verus!
