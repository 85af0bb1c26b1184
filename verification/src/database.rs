//! The persistence core: header handling, schema-page chain, per-table row
//! chains, catalog load with validation and self-repair, and the write paths
//! for table creation and row rewrite.

use vstd::prelude::*;
use vstd::slice::{slice_subrange, slice_to_vec};
use vstd::utf8::encode_utf8_decode_utf8;
use crate::storage::{image_wf, page_at, store_write, zero_page, Page, StorageEngine, PAGE_SIZE};
use crate::codec::{pad_to_page, put_bytes, put_u32, put_u64, read_lp_str, read_u32, read_u64,
    splice_bytes};
use crate::format::{dec_cols_at, dec_schema, enc_u32, enc_u64, header_magic,
    header_page, header_schema_root, header_table_count, read_u32_at, read_u64_at,
    schema_data_pid_off, splice, SchemaV, DB_VERSION, MAGIC_NUMBER};
use crate::parser::{Column, ColumnV};
use crate::engine::col_views;
use crate::errors::DbError;
use crate::text::bytes_to_string;

verus! {

/// Folds a prefix of already-read columns into a pending decode result.
pub open spec fn cols_with_prefix(pre: Seq<ColumnV>, r: Result<Option<(Seq<ColumnV>, int)>, ()>)
    -> Result<Option<(Seq<ColumnV>, int)>, ()> {
    match r {
        Err(e) => Err(e),
        Ok(None) => Ok(None),
        Ok(Some((cs, o))) => Ok(Some((pre + cs, o))),
    }
}

/// A schema page, decoded: the table it describes, the head of its row
/// chain, the next schema page, and where the `data_page_id` field sits.
pub struct DecodedSchema {
    pub name: String,
    pub columns: Vec<Column>,
    pub data_page_id: u64,
    pub next_page_id: u64,
    pub dpid_off: usize,
}

/// Reads one schema page, mirroring `dec_schema` on its bytes.
pub fn decode_schema_page(d: &Vec<u8>) -> (r: Result<Option<DecodedSchema>, DbError>)
    requires
        d@.len() == PAGE_SIZE,
    ensures
        match dec_schema(d@) {
            Err(_) => r matches Err(e) && e matches DbError::BadEncoding,
            Ok(None) => r matches Ok(None),
            Ok(Some(s)) => r matches Ok(Some(ds)) && ds.name@ == s.name && col_views(ds.columns@)
                == s.cols && ds.data_page_id == s.data_page_id && ds.next_page_id
                == s.next_page_id && ds.dpid_off == schema_data_pid_off(d@) && ds.dpid_off + 16
                <= PAGE_SIZE,
        },
{
    let name_len32 = read_u32(d, 0);
    if name_len32 == 0 || name_len32 > 255 {
        return Ok(None);
    }
    let nl = name_len32 as usize;
    let nbytes = slice_to_vec(slice_subrange(d.as_slice(), 4, 4 + nl));
    proof {
        assert(nbytes@ =~= d@.subrange(4, 4 + nl as int));
    }
    let name = match bytes_to_string(nbytes) {
        Some(s) => s,
        None => {
            return Err(DbError::BadEncoding);
        },
    };
    proof {
        encode_utf8_decode_utf8(name@);
    }
    let off0 = 4 + nl;
    let ncols = read_u32(d, off0);
    let mut cols: Vec<Column> = Vec::new();
    let mut cur: usize = off0 + 4;
    let mut i: u32 = 0;
    let ghost start = cur as int;
    while i < ncols
        invariant
            d@.len() == PAGE_SIZE,
            i <= ncols,
            cur <= PAGE_SIZE,
            1 <= nl <= 255,
            nl == read_u32_at(d@, 0) as int,
            vstd::utf8::valid_utf8(d@.subrange(4, 4 + nl as int)),
            name@ == vstd::utf8::decode_utf8(d@.subrange(4, 4 + nl as int)),
            off0 == 4 + nl,
            ncols == read_u32_at(d@, off0 as int),
            start == off0 + 4,
            dec_cols_at(d@, start, ncols as int) == cols_with_prefix(
                col_views(cols@),
                dec_cols_at(d@, cur as int, (ncols - i) as int),
            ),
        decreases ncols - i,
    {
        let ghost pre = col_views(cols@);
        let ghost k = (ncols - i) as int;
        let (cname, cur1) = match read_lp_str(d, cur) {
            Err(e) => {
                proof {
                    assert(dec_cols_at(d@, cur as int, k) is Err);
                }
                return Err(DbError::BadEncoding);
            },
            Ok(None) => {
                proof {
                    assert(dec_cols_at(d@, cur as int, k) == Ok::<
                        Option<(Seq<ColumnV>, int)>,
                        (),
                    >(None));
                }
                return Ok(None);
            },
            Ok(Some(p)) => p,
        };
        let (cty, cur2) = match read_lp_str(d, cur1) {
            Err(e) => {
                proof {
                    assert(dec_cols_at(d@, cur as int, k) is Err);
                }
                return Err(DbError::BadEncoding);
            },
            Ok(None) => {
                proof {
                    assert(dec_cols_at(d@, cur as int, k) == Ok::<
                        Option<(Seq<ColumnV>, int)>,
                        (),
                    >(None));
                }
                return Ok(None);
            },
            Ok(Some(p)) => p,
        };
        let ghost cv = ColumnV { name: cname@, data_type: cty@ };
        cols.push(Column { name: cname, data_type: cty });
        proof {
            assert(col_views(cols@) =~= pre.push(cv));
            let inner = dec_cols_at(d@, cur2 as int, k - 1);
            assert(dec_cols_at(d@, cur as int, k) == cols_with_prefix(seq![cv], inner));
            match inner {
                Ok(Some((rest, o))) => {
                    assert(pre + (seq![cv] + rest) =~= pre.push(cv) + rest);
                },
                _ => {},
            }
            assert(cols_with_prefix(pre, cols_with_prefix(seq![cv], inner)) == cols_with_prefix(
                col_views(cols@),
                inner,
            ));
        }
        cur = cur2;
        i += 1;
    }
    proof {
        assert(dec_cols_at(d@, cur as int, 0) == Ok::<Option<(Seq<ColumnV>, int)>, ()>(
            Some((Seq::empty(), cur as int)),
        ));
        assert(col_views(cols@) + Seq::<ColumnV>::empty() =~= col_views(cols@));
        assert(dec_cols_at(d@, start, ncols as int) == Ok::<Option<(Seq<ColumnV>, int)>, ()>(
            Some((col_views(cols@), cur as int)),
        ));
    }
    if cur + 8 > PAGE_SIZE {
        return Ok(None);
    }
    let data_page_id = read_u64(d, cur);
    if cur + 16 > PAGE_SIZE {
        return Ok(None);
    }
    let next_page_id = read_u64(d, cur + 8);
    Ok(Some(DecodedSchema { name, columns: cols, data_page_id, next_page_id, dpid_off: cur }))
}

/// The persistence core over an in-memory file image.
pub struct Database {
    storage: StorageEngine,
}

impl Database {
    pub closed spec fn view(&self) -> Seq<Seq<u8>> {
        self.storage@
    }

    pub open spec fn wf(&self) -> bool {
        image_wf(self@) && self@.len() >= 1
    }

    /// The image after opening: an empty file gets a fresh header page;
    /// anything else is kept as it is.
    pub open spec fn spec_open(pages: Seq<Seq<u8>>) -> Seq<Seq<u8>> {
        if pages.len() == 0 {
            store_write(pages, 0, header_page(0, 0))
        } else {
            pages
        }
    }

    /// Whether an image is refused on open: it is non-empty and its magic
    /// neither matches the format nor reads as zero.
    pub open spec fn spec_open_refused(pages: Seq<Seq<u8>>) -> bool {
        pages.len() > 0 && header_magic(page_at(pages, 0)) != 0 && header_magic(page_at(pages, 0))
            != MAGIC_NUMBER
    }

    /// Opens a database over the given image: formats a header when the file
    /// is empty, and refuses a non-empty file whose magic is wrong.
    pub fn new(storage: StorageEngine) -> (r: Result<Database, DbError>)
        requires
            storage.wf(),
        ensures
            match r {
                Ok(db) => db.wf() && !Self::spec_open_refused(storage@) && db@ == Self::spec_open(
                    storage@,
                ),
                Err(e) => e matches DbError::CorruptFile && Self::spec_open_refused(storage@),
            },
    {
        let mut db = Database { storage };
        if db.storage.page_count() == 0 {
            let header = build_header_page(0, 0);
            db.storage.write_page(&header);
            return Ok(db);
        }
        let page0 = db.storage.read_page(0);
        let magic = read_u64(&page0.data, 0);
        if magic != 0 && magic != MAGIC_NUMBER {
            return Err(DbError::CorruptFile);
        }
        Ok(db)
    }

    /// The storage image, for persisting and inspection.
    pub fn storage(&self) -> (r: &StorageEngine)
        ensures
            r@ == self@,
    {
        &self.storage
    }

    /// Walks a row chain and gathers its rows, stopping at the end of the
    /// chain, at an invalid page, or at a cycle.
    fn load_rows_from_pages(&self, start_page_id: u64, ncols: usize) -> (r: Result<
        Vec<crate::engine::Row>,
        DbError,
    >)
        requires
            self.wf(),
        ensures
            match crate::format::dec_rows_chain(
                self@,
                ncols as int,
                start_page_id,
                Seq::empty(),
                (self@.len() + 1) as nat,
            ) {
                Err(_) => r matches Err(e) && e matches DbError::BadEncoding,
                Ok(rvs) => r matches Ok(rows) && crate::engine::row_views(rows@) == rvs,
            },
    {
        let npages_exec: u64 = self.storage.page_count();
        let ghost npages = self@.len();
        let ghost fuel0 = (npages + 1) as nat;
        let mut rows: Vec<crate::engine::Row> = Vec::new();
        let mut visited: Vec<u64> = Vec::new();
        let mut cur: u64 = start_page_id;
        let mut fin = false;
        proof {
            assert(Seq::<Seq<Seq<char>>>::empty() + crate::engine::row_views(rows@)
                =~= crate::engine::row_views(rows@));
            assert(crate::engine::row_views(rows@) =~= Seq::<Seq<Seq<char>>>::empty());
        }
        while !fin
            invariant
                self.wf(),
                npages == self@.len(),
                npages == npages_exec,
                fuel0 == (npages + 1) as nat,
                visited@.no_duplicates(),
                forall|t: int| 0 <= t < visited@.len() ==> (#[trigger] visited@[t] as nat)
                    < npages,
                visited@.len() <= npages,
                !fin ==> crate::format::dec_rows_chain(
                    self@,
                    ncols as int,
                    start_page_id,
                    Seq::empty(),
                    fuel0,
                ) == chain_with_prefix(
                    crate::engine::row_views(rows@),
                    crate::format::dec_rows_chain(
                        self@,
                        ncols as int,
                        cur,
                        visited@,
                        (fuel0 - visited@.len()) as nat,
                    ),
                ),
                fin ==> crate::format::dec_rows_chain(
                    self@,
                    ncols as int,
                    start_page_id,
                    Seq::empty(),
                    fuel0,
                ) == Ok::<Seq<Seq<Seq<char>>>, ()>(crate::engine::row_views(rows@)),
            decreases (if fin {
                0int
            } else {
                1int
            }), npages - visited@.len(),
        {
            proof {
                lemma_distinct_bounded(visited@, npages as nat);
            }
            // A page seen twice ends the walk.
            let mut seen = false;
            let mut vi: usize = 0;
            while vi < visited.len()
                invariant
                    vi <= visited@.len(),
                    seen == exists|t: int| 0 <= t < vi && visited@[t] == cur,
                decreases visited@.len() - vi,
            {
                if visited[vi] == cur {
                    seen = true;
                }
                vi += 1;
            }
            if seen {
                proof {
                    assert(visited@.contains(cur));
                    assert(crate::engine::row_views(rows@) + Seq::<Seq<Seq<char>>>::empty()
                        =~= crate::engine::row_views(rows@));
                }
                fin = true;
            } else {
                proof {
                    assert(!visited@.contains(cur));
                }
                if cur >= npages_exec {
                    proof {
                        assert(crate::engine::row_views(rows@) + Seq::<Seq<Seq<char>>>::empty()
                            =~= crate::engine::row_views(rows@));
                    }
                    fin = true;
                } else {
                    let page = self.storage.read_page(cur);
                    match decode_row_page(&page.data, ncols) {
                        Err(e) => {
                            return Err(e);
                        },
                        Ok(None) => {
                            proof {
                                assert(crate::engine::row_views(rows@) + Seq::<
                                    Seq<Seq<char>>,
                                >::empty() =~= crate::engine::row_views(rows@));
                            }
                            fin = true;
                        },
                        Ok(Some((mut prows, next))) => {
                            let ghost pre = crate::engine::row_views(rows@);
                            let ghost mid = crate::engine::row_views(prows@);
                            rows.append(&mut prows);
                            proof {
                                assert(crate::engine::row_views(rows@) =~= pre + mid);
                            }
                            if next == 0 {
                                proof {
                                    assert(pre + mid =~= crate::engine::row_views(rows@));
                                }
                                fin = true;
                            } else {
                                proof {
                                    let inner = crate::format::dec_rows_chain(
                                        self@,
                                        ncols as int,
                                        next,
                                        visited@.push(cur),
                                        (fuel0 - visited@.len() - 1) as nat,
                                    );
                                    match inner {
                                        Ok(rest) => {
                                            assert(pre + (mid + rest) =~= (pre + mid) + rest);
                                        },
                                        _ => {},
                                    }
                                }
                                visited.push(cur);
                                proof {
                                    lemma_distinct_bounded(visited@, npages as nat);
                                }
                                cur = next;
                            }
                        },
                    }
                }
            }
        }
        Ok(rows)
    }

    /// Rewrites the rows from `start_idx` on into a chain of row pages,
    /// reusing `start_page_id` as the head when given, and returns the head
    /// page id.
    fn save_rows_to_pages(&mut self, rows: &Vec<crate::engine::Row>, start_idx: usize,
        columns: &Vec<Column>, start_page_id: Option<u64>) -> (r: Result<u64, DbError>)
        requires
            old(self).wf(),
            start_idx <= rows@.len(),
        ensures
            ({
                let cv = col_views(columns@);
                let rv = crate::engine::row_views(rows@).skip(start_idx as int);
                match r {
                    Ok(head) => spec_save_rows(old(self)@, cv, rv, start_page_id) == Some(
                        (final(self)@, head),
                    ) && final(self).wf() && final(self)@.len() >= old(self)@.len() && head
                        < final(self)@.len() && (forall|pid: int|
                        0 <= pid < old(self)@.len() && (start_page_id matches Some(h) ==> pid
                            != h) ==> final(self)@[pid] == old(self)@[pid]),
                    Err(e) => e matches DbError::RowTooLarge && final(self)@ == old(self)@
                        && final(self).wf() && spec_save_rows(old(self)@, cv, rv, start_page_id)
                        is None,
                }
            }),
        decreases rows@.len() - start_idx,
    {
        let ghost cv = col_views(columns@);
        let ghost rv = crate::engine::row_views(rows@).skip(start_idx as int);
        // Refuse before any write: a row that cannot fill even an empty page
        // of its own would make the chain impossible to build.
        let mut j: usize = start_idx;
        while j < rows.len()
            invariant
                old(self).wf(),
                self@ == old(self)@,
                start_idx <= j <= rows@.len(),
                cv == col_views(columns@),
                rv == crate::engine::row_views(rows@).skip(start_idx as int),
                forall|t: int|
                    start_idx <= t < j ==> crate::format::enc_row(
                        col_views(columns@),
                        #[trigger] crate::engine::row_views(rows@)[t],
                    ).len() <= PAGE_SIZE - 12,
            decreases rows@.len() - j,
        {
            let rb = encode_row(columns, &rows[j]);
            proof {
                assert(crate::engine::row_views(rows@)[j as int] == rows@[j as int]@);
            }
            if rb.len() > PAGE_SIZE - 12 {
                proof {
                    assert(rv[j - start_idx] == crate::engine::row_views(rows@)[j as int]);
                    assert(crate::format::enc_row(cv, rv[j - start_idx]).len() > PAGE_SIZE - 12);
                    lemma_save_rows_none(old(self)@, cv, rv, start_page_id, j - start_idx);
                }
                return Err(DbError::RowTooLarge);
            }
            j += 1;
        }
        proof {
            assert forall|t: int| 0 <= t < rv.len() implies crate::format::enc_row(
                cv,
                #[trigger] rv[t],
            ).len() <= PAGE_SIZE - 12 by {
                assert(rv[t] == crate::engine::row_views(rows@)[t + start_idx]);
            }
        }
        // Head page: reuse the given one or append a fresh page.
        let head: u64 = match start_page_id {
            Some(id) => id,
            None => {
                let p = self.storage.allocate_page();
                p.id
            },
        };
        let ghost pages1 = self@;
        proof {
            if start_page_id is None {
                assert(pages1 =~= old(self)@ + seq![zero_page()]);
            }
        }
        // How many rows the head page takes, writing greedily.
        let rlen = rows.len();
        let mut k: usize = 0;
        let mut used: usize = 4;
        let mut done = false;
        proof {
            assert(rv.skip(0) =~= rv);
            assert(crate::format::enc_rows(col_views(columns@), rv.take(0)).len() == 0);
        }
        while start_idx + k < rlen && !done
            invariant
                old(self).wf(),
                self.wf(),
                self@ == pages1,
                rlen == rows@.len(),
                start_idx + k <= rlen,
                start_idx <= rlen,
                4 <= used <= PAGE_SIZE - 8,
                rv == crate::engine::row_views(rows@).skip(start_idx as int),
                forall|t: int|
                    0 <= t < rv.len() ==> crate::format::enc_row(
                        col_views(columns@),
                        #[trigger] rv[t],
                    ).len() <= PAGE_SIZE - 12,
                crate::format::fit_count(col_views(columns@), rv, 4) as int == k as int
                    + crate::format::fit_count(
                    col_views(columns@),
                    rv.skip(k as int),
                    used as int,
                ),
                used == 4 + crate::format::enc_rows(col_views(columns@), rv.take(k as int)).len(),
                done ==> crate::format::fit_count(
                    col_views(columns@),
                    rv.skip(k as int),
                    used as int,
                ) == 0,
            decreases rows@.len() - start_idx - k, if done {
                0int
            } else {
                1int
            },
        {
            let rb = encode_row(columns, &rows[start_idx + k]);
            proof {
                assert(crate::engine::row_views(rows@)[start_idx + k] == rows@[start_idx + k]@);
                assert(rv.skip(k as int)[0] == crate::engine::row_views(rows@)[start_idx + k]);
                assert(rv[k as int] == crate::engine::row_views(rows@)[start_idx + k]);
            }
            if rb.len() <= PAGE_SIZE - 8 - used {
                proof {
                    assert(rv.skip(k as int).drop_first() =~= rv.skip(k + 1 as int));
                    assert(rv.take(k + 1 as int) =~= rv.take(k as int).push(rv[k as int]));
                    lemma_enc_rows_snoc(col_views(columns@), rv.take(k as int), rv[k as int]);
                }
                used = used + rb.len();
                k = k + 1;
            } else {
                done = true;
            }
        }
        proof {
            if start_idx + k == rows@.len() {
                assert(rv.skip(k as int).len() == 0);
            }
            assert(crate::format::fit_count(cv, rv, 4) == k);
        }
        // Rows that did not fit go to fresh pages further down the chain.
        let next: u64 = if start_idx + k == rows.len() {
            0
        } else {
            proof {
                assert(k >= 1);
            }
            match self.save_rows_to_pages(rows, start_idx + k, columns, None) {
                Ok(h) => h,
                Err(e) => {
                    proof {
                        lemma_save_rows_total(pages1, cv, rv.skip(k as int), None);
                        assert(crate::engine::row_views(rows@).skip((start_idx + k) as int)
                            =~= rv.skip(k as int));
                        assert(false);
                    }
                    return Err(e);
                },
            }
        };
        let ghost pages2 = self@;
        let ghost chunk = rv.take(k as int);
        // Build and write the head page.
        let mut buf: Vec<u8> = Vec::new();
        put_u32(&mut buf, #[verifier::truncate] (k as u32));
        let mut j2: usize = 0;
        while j2 < k
            invariant
                j2 <= k,
                rlen == rows@.len(),
                start_idx + k <= rlen,
                rv == crate::engine::row_views(rows@).skip(start_idx as int),
                chunk == rv.take(k as int),
                buf@ == enc_u32(k as u32) + crate::format::enc_rows(
                    col_views(columns@),
                    chunk.take(j2 as int),
                ),
            decreases k - j2,
        {
            let rb = encode_row(columns, &rows[start_idx + j2]);
            proof {
                assert(crate::engine::row_views(rows@)[start_idx + j2] == rows@[start_idx + j2]@);
                assert(chunk[j2 as int] == crate::engine::row_views(rows@)[start_idx + j2]);
                assert(chunk.take(j2 + 1 as int) =~= chunk.take(j2 as int).push(
                    chunk[j2 as int],
                ));
                lemma_enc_rows_snoc(col_views(columns@), chunk.take(j2 as int),
                    chunk[j2 as int]);
            }
            put_bytes(&mut buf, &rb);
            j2 += 1;
        }
        proof {
            vstd::bytes::lemma_auto_spec_u32_to_from_le_bytes();
            assert(chunk.take(k as int) =~= chunk);
            assert(buf@.len() == used);
        }
        put_u64(&mut buf, next);
        proof {
            assert(buf@ =~= crate::format::enc_row_page(cv, chunk, next));
        }
        pad_to_page(&mut buf);
        let page = Page { id: head, data: buf };
        self.storage.write_page(&page);
        proof {
            let spec_pages1: Seq<Seq<u8>> = if start_page_id is Some {
                old(self)@
            } else {
                old(self)@ + seq![zero_page()]
            };
            let spec_head: u64 = if start_page_id is Some {
                start_page_id->Some_0
            } else {
                old(self)@.len() as u64
            };
            assert(pages1 == spec_pages1);
            assert(head == spec_head);
            let f = crate::format::fit_count(cv, rv, 4) as int;
            assert(f == k as int);
            assert(rv.len() == rows@.len() - start_idx);
            if start_idx + k == rows@.len() {
                assert(k as int == rv.len());
                assert(chunk =~= rv);
                assert(page.data@ == crate::format::pad_page(
                    crate::format::enc_row_page(cv, rv, 0),
                ));
                assert(self@ == store_write(spec_pages1, spec_head, crate::format::pad_page(
                    crate::format::enc_row_page(cv, rv, 0),
                )));
                assert(spec_save_rows(old(self)@, cv, rv, start_page_id) == Some(
                    (self@, head),
                ));
            } else {
                assert((k as int) < rv.len());
                assert(rv.skip(k as int) =~= crate::engine::row_views(rows@).skip(
                    (start_idx + k) as int,
                ));
                assert(spec_save_rows(spec_pages1, cv, rv.skip(k as int), None) == Some(
                    (pages2, next),
                ));
                assert(page.data@ == crate::format::pad_page(
                    crate::format::enc_row_page(cv, rv.take(k as int), next),
                ));
                assert(self@ == store_write(pages2, spec_head, crate::format::pad_page(
                    crate::format::enc_row_page(cv, rv.take(k as int), next),
                )));
                assert(spec_save_rows(old(self)@, cv, rv, start_page_id) == Some(
                    (self@, head),
                ));
            }
        }
        Ok(head)
    }
}

// ---------------------------------------------------------------------------
// Row writing
// ---------------------------------------------------------------------------

/// Whether the declared type selects the integer encoding.
pub fn is_int_type_exec(ty: &str) -> (r: bool)
    ensures
        r == crate::format::is_int_type(ty@),
{
    let u = crate::text::to_uppercase(ty);
    let a = crate::text::chars_eq_str(&u, "INT");
    let b = crate::text::chars_eq_str(&u, "INTEGER");
    a || b
}

/// Appends the tagged text encoding of a value.
fn encode_text_value(val: &String, buf: &mut Vec<u8>)
    ensures
        final(buf)@ == old(buf)@ + seq![crate::format::TYPE_TEXT] + crate::format::enc_str(val@),
{
    buf.push(crate::format::TYPE_TEXT);
    let bytes = crate::text::string_to_bytes(val.as_str());
    put_u32(buf, #[verifier::truncate] (bytes.len() as u32));
    put_bytes(buf, &bytes);
    proof {
        assert(final(buf)@ =~= old(buf)@ + seq![crate::format::TYPE_TEXT]
            + crate::format::enc_str(val@));
    }
}

/// Appends the encoding of one field, choosing the tag from the declared
/// column type and the value.
fn encode_value(ty: &String, val: &String, buf: &mut Vec<u8>)
    ensures
        final(buf)@ == old(buf)@ + crate::format::enc_value(ty@, val@),
{
    if val.as_str().is_empty() {
        buf.push(crate::format::TYPE_NULL);
        proof {
            assert(final(buf)@ =~= old(buf)@ + seq![crate::format::TYPE_NULL]);
        }
    } else if is_int_type_exec(ty.as_str()) {
        match crate::text::parse_i64(val.as_str()) {
            Some(n) => {
                buf.push(crate::format::TYPE_INT);
                put_u64(buf, n as u64);
                proof {
                    assert(final(buf)@ =~= old(buf)@ + crate::format::enc_value(ty@, val@));
                }
            },
            None => {
                encode_text_value(val, buf);
            },
        }
    } else {
        encode_text_value(val, buf);
    }
}

/// Encodes one whole row: a tagged field per column, as far as the row has
/// values.
pub fn encode_row(columns: &Vec<Column>, row: &crate::engine::Row) -> (r: Vec<u8>)
    ensures
        r@ == crate::format::enc_row(col_views(columns@), row@),
{
    let m: usize = if columns.len() <= row.values.len() {
        columns.len()
    } else {
        row.values.len()
    };
    let mut buf: Vec<u8> = Vec::new();
    let mut j: usize = 0;
    while j < m
        invariant
            j <= m,
            m == crate::format::row_width(col_views(columns@), row@),
            m <= columns@.len(),
            m <= row.values@.len(),
            buf@ == crate::format::enc_row_prefix(col_views(columns@), row@, j as int),
        decreases m - j,
    {
        encode_value(&columns[j].data_type, &row.values[j], &mut buf);
        j += 1;
    }
    buf
}

// ---------------------------------------------------------------------------
// Row chain writing
// ---------------------------------------------------------------------------

/// The image and head page after rewriting a row chain: the head page is
/// reused when given and appended otherwise; rows that do not fit go to
/// freshly appended pages; `None` when a single row cannot fill even an
/// empty page.
pub open spec fn spec_save_rows(pages: Seq<Seq<u8>>, cols: Seq<ColumnV>,
    rows: Seq<Seq<Seq<char>>>, start: Option<u64>) -> Option<(Seq<Seq<u8>>, u64)>
    decreases rows.len(),
{
    let pages1 = if start is Some {
        pages
    } else {
        pages + seq![zero_page()]
    };
    let head = if start is Some {
        start->Some_0
    } else {
        pages.len() as u64
    };
    let f = crate::format::fit_count(cols, rows, 4) as int;
    let k = if f > rows.len() {
        rows.len() as int
    } else {
        f
    };
    if k == 0 && rows.len() > 0 {
        None
    } else if k == rows.len() {
        Some(
            (
                store_write(pages1, head, crate::format::pad_page(
                    crate::format::enc_row_page(cols, rows, 0),
                )),
                head,
            ),
        )
    } else {
        match spec_save_rows(pages1, cols, rows.skip(k), None) {
            None => None,
            Some((pages2, next)) => Some(
                (
                    store_write(pages2, head, crate::format::pad_page(
                        crate::format::enc_row_page(cols, rows.take(k), next),
                    )),
                    head,
                ),
            ),
        }
    }
}

/// Appending one more row extends the encoding on the right.
pub proof fn lemma_enc_rows_snoc(cols: Seq<ColumnV>, rows: Seq<Seq<Seq<char>>>, x: Seq<Seq<char>>)
    ensures
        crate::format::enc_rows(cols, rows.push(x)) == crate::format::enc_rows(cols, rows)
            + crate::format::enc_row(cols, x),
    decreases rows.len(),
{
    if rows.len() == 0 {
        assert(rows.push(x)[0] == x);
        assert(rows.push(x).drop_first() =~= rows);
        assert(crate::format::enc_rows(cols, rows) == Seq::<u8>::empty());
        assert(crate::format::enc_rows(cols, rows.push(x)) =~= crate::format::enc_row(cols, x)
            + crate::format::enc_rows(cols, rows));
        assert(crate::format::enc_rows(cols, rows.push(x)) =~= crate::format::enc_rows(cols, rows)
            + crate::format::enc_row(cols, x));
    } else {
        assert(rows.push(x).drop_first() =~= rows.drop_first().push(x));
        assert(rows.push(x)[0] == rows[0]);
        lemma_enc_rows_snoc(cols, rows.drop_first(), x);
        assert(crate::format::enc_rows(cols, rows.push(x)) =~= crate::format::enc_rows(cols, rows)
            + crate::format::enc_row(cols, x));
    }
}

/// Every row that the greedy packer counts fits in a page of its own.
pub proof fn lemma_fit_rows_small(cols: Seq<ColumnV>, rows: Seq<Seq<Seq<char>>>, used: int)
    requires
        used >= 4,
    ensures
        crate::format::fit_count(cols, rows, used) <= rows.len(),
        forall|j: int|
            0 <= j < crate::format::fit_count(cols, rows, used) ==> crate::format::enc_row(
                cols,
                #[trigger] rows[j],
            ).len() <= PAGE_SIZE - 12,
    decreases rows.len(),
{
    if rows.len() > 0 {
        let l = crate::format::enc_row(cols, rows[0]).len();
        if used + l <= PAGE_SIZE - 8 {
            lemma_fit_rows_small(cols, rows.drop_first(), used + l);
            assert forall|j: int|
                0 <= j < crate::format::fit_count(cols, rows, used) implies crate::format::enc_row(
                cols,
                #[trigger] rows[j],
            ).len() <= PAGE_SIZE - 12 by {
                if j > 0 {
                    assert(rows.drop_first()[j - 1] == rows[j]);
                }
            }
        }
    }
}

/// Where some row alone overflows a page, the rewrite fails.
pub proof fn lemma_save_rows_none(pages: Seq<Seq<u8>>, cols: Seq<ColumnV>,
    rows: Seq<Seq<Seq<char>>>, start: Option<u64>, i: int)
    requires
        0 <= i < rows.len(),
        crate::format::enc_row(cols, rows[i]).len() > PAGE_SIZE - 12,
    ensures
        spec_save_rows(pages, cols, rows, start) is None,
    decreases rows.len(),
{
    let f = crate::format::fit_count(cols, rows, 4) as int;
    let k = if f > rows.len() {
        rows.len() as int
    } else {
        f
    };
    lemma_fit_rows_small(cols, rows, 4);
    if k == 0 && rows.len() > 0 {
    } else if k == rows.len() {
        assert(crate::format::enc_row(cols, rows[i]).len() <= PAGE_SIZE - 12);
    } else {
        assert(i >= k);
        let pages1 = if start is Some {
            pages
        } else {
            pages + seq![zero_page()]
        };
        assert(rows.skip(k)[i - k] == rows[i]);
        lemma_save_rows_none(pages1, cols, rows.skip(k), None, i - k);
    }
}

/// A row-chain rewrite only touches the head page it was given and pages
/// beyond the original end of the image.
pub proof fn lemma_save_rows_frame(pages: Seq<Seq<u8>>, cols: Seq<ColumnV>,
    rows: Seq<Seq<Seq<char>>>, start: Option<u64>)
    requires
        spec_save_rows(pages, cols, rows, start) is Some,
        pages.len() + rows.len() + 1 <= u64::MAX,
    ensures
        ({
            let pages2 = spec_save_rows(pages, cols, rows, start)->Some_0.0;
            &&& pages2.len() >= pages.len()
            &&& forall|pid: int|
                0 <= pid < pages.len() && (start matches Some(h) ==> pid != h) ==> pages2[pid]
                    == pages[pid]
        }),
    decreases rows.len(),
{
    let pages1 = if start is Some {
        pages
    } else {
        pages + seq![zero_page()]
    };
    let head = if start is Some {
        start->Some_0
    } else {
        pages.len() as u64
    };
    let f = crate::format::fit_count(cols, rows, 4) as int;
    let k = if f > rows.len() {
        rows.len() as int
    } else {
        f
    };
    if k == 0 && rows.len() > 0 {
    } else if k == rows.len() {
        let data = crate::format::pad_page(crate::format::enc_row_page(cols, rows, 0));
        let pages2 = store_write(pages1, head, data);
        assert forall|pid: int|
            0 <= pid < pages.len() && (start matches Some(h) ==> pid != h) implies pages2[pid]
            == pages[pid] by {
            assert(pages1[pid] == pages[pid]);
            assert(pid != head);
            if head < pages1.len() {
                assert(pages2 == pages1.update(head as int, data));
                assert(pages2[pid] == pages1[pid]);
            } else {
                assert(pages2 == pages1 + Seq::new((head - pages1.len()) as nat,
                    |x: int| zero_page()) + seq![data]);
                assert(pages2[pid] == pages1[pid]);
            }
        }
    } else {
        lemma_save_rows_frame(pages1, cols, rows.skip(k), None);
        let rec = spec_save_rows(pages1, cols, rows.skip(k), None)->Some_0;
        let pages2 = rec.0;
        let data = crate::format::pad_page(crate::format::enc_row_page(cols, rows.take(k),
            rec.1));
        let pages3 = store_write(pages2, head, data);
        assert forall|pid: int|
            0 <= pid < pages.len() && (start matches Some(h) ==> pid != h) implies pages3[pid]
            == pages[pid] by {
            assert(pages1[pid] == pages[pid]);
            assert(pages2[pid] == pages1[pid]);
            assert(pid != head);
            if head < pages2.len() {
                assert(pages3 == pages2.update(head as int, data));
                assert(pages3[pid] == pages2[pid]);
            } else {
                assert(pages3 == pages2 + Seq::new((head - pages2.len()) as nat,
                    |x: int| zero_page()) + seq![data]);
                assert(pages3[pid] == pages2[pid]);
            }
        }
    }
}

/// Where every row fits in a page of its own, the rewrite succeeds.
pub proof fn lemma_save_rows_total(pages: Seq<Seq<u8>>, cols: Seq<ColumnV>,
    rows: Seq<Seq<Seq<char>>>, start: Option<u64>)
    requires
        forall|j: int|
            0 <= j < rows.len() ==> crate::format::enc_row(cols, #[trigger] rows[j]).len()
                <= PAGE_SIZE - 12,
    ensures
        spec_save_rows(pages, cols, rows, start) is Some,
    decreases rows.len(),
{
    let f = crate::format::fit_count(cols, rows, 4) as int;
    let k = if f > rows.len() {
        rows.len() as int
    } else {
        f
    };
    if rows.len() > 0 {
        assert(4 + crate::format::enc_row(cols, rows[0]).len() <= PAGE_SIZE - 8);
        assert(f >= 1);
    }
    if k == 0 && rows.len() > 0 {
        assert(false);
    } else if k == rows.len() {
    } else {
        let pages1 = if start is Some {
            pages
        } else {
            pages + seq![zero_page()]
        };
        assert forall|j: int| 0 <= j < rows.skip(k).len() implies crate::format::enc_row(
            cols,
            #[trigger] rows.skip(k)[j],
        ).len() <= PAGE_SIZE - 12 by {
            assert(rows.skip(k)[j] == rows[j + k]);
        }
        lemma_save_rows_total(pages1, cols, rows.skip(k), None);
    }
}

// ---------------------------------------------------------------------------
// Row reading
// ---------------------------------------------------------------------------

/// Folds already-read fields into a pending row decode result.
pub open spec fn vals_with_prefix(pre: Seq<Seq<char>>, r: Result<
    Option<(Seq<Seq<char>>, int)>,
    (),
>) -> Result<Option<(Seq<Seq<char>>, int)>, ()> {
    match r {
        Err(e) => Err(e),
        Ok(None) => Ok(None),
        Ok(Some((vs, o))) => Ok(Some((pre + vs, o))),
    }
}

/// Folds already-read rows into a pending page decode result.
pub open spec fn rowseq_with_prefix(pre: Seq<Seq<Seq<char>>>, r: Result<
    Option<(Seq<Seq<Seq<char>>>, int)>,
    (),
>) -> Result<Option<(Seq<Seq<Seq<char>>>, int)>, ()> {
    match r {
        Err(e) => Err(e),
        Ok(None) => Ok(None),
        Ok(Some((rs, o))) => Ok(Some((pre + rs, o))),
    }
}

/// Folds already-gathered rows into a pending chain walk result.
pub open spec fn chain_with_prefix(pre: Seq<Seq<Seq<char>>>, r: Result<Seq<Seq<Seq<char>>>, ()>)
    -> Result<Seq<Seq<Seq<char>>>, ()> {
    match r {
        Err(e) => Err(e),
        Ok(rest) => Ok(pre + rest),
    }
}

/// Reads one tagged field at `off`, mirroring `dec_value_at`.
fn decode_value_at(d: &Vec<u8>, off: usize) -> (r: Result<Option<(String, usize)>, DbError>)
    requires
        off <= d@.len(),
        d@.len() <= PAGE_SIZE,
    ensures
        match crate::format::dec_value_at(d@, off as int) {
            Err(_) => r matches Err(e) && e matches DbError::BadEncoding,
            Ok(None) => r matches Ok(None),
            Ok(Some((v, o))) => r matches Ok(Some((rs, ro))) && rs@ == v && ro == o && o
                <= d@.len(),
        },
{
    if off + 1 > d.len() {
        return Ok(None);
    }
    let tag = d[off];
    if tag == crate::format::TYPE_NULL {
        Ok(Some((String::new(), off + 1)))
    } else if tag == crate::format::TYPE_INT {
        if off + 9 > d.len() {
            return Ok(None);
        }
        let v = read_u64(d, off + 1);
        let chars = crate::text::i64_to_dec_chars(#[verifier::truncate] (v as i64));
        let s = crate::text::chars_to_string(&chars);
        Ok(Some((s, off + 9)))
    } else {
        read_lp_str(d, off + 1)
    }
}

/// Reads one row of `ncols` tagged fields at `off`, mirroring `dec_row_at`.
fn decode_row_at(d: &Vec<u8>, off: usize, ncols: usize) -> (r: Result<
    Option<(crate::engine::Row, usize)>,
    DbError,
>)
    requires
        off <= d@.len(),
        d@.len() <= PAGE_SIZE,
    ensures
        match crate::format::dec_row_at(d@, off as int, ncols as int) {
            Err(_) => r matches Err(e) && e matches DbError::BadEncoding,
            Ok(None) => r matches Ok(None),
            Ok(Some((vs, o))) => r matches Ok(Some((row, ro))) && row@ == vs && ro == o && o
                <= d@.len(),
        },
{
    let mut values: Vec<String> = Vec::new();
    let mut cur: usize = off;
    let mut i: usize = 0;
    while i < ncols
        invariant
            i <= ncols,
            cur <= d@.len(),
            d@.len() <= PAGE_SIZE,
            crate::format::dec_row_at(d@, off as int, ncols as int) == vals_with_prefix(
                crate::engine::str_views(values@),
                crate::format::dec_row_at(d@, cur as int, (ncols - i) as int),
            ),
        decreases ncols - i,
    {
        let ghost pre = crate::engine::str_views(values@);
        let ghost k = (ncols - i) as int;
        let (v, cur1) = match decode_value_at(d, cur) {
            Err(e) => {
                proof {
                    assert(crate::format::dec_row_at(d@, cur as int, k) is Err);
                }
                return Err(e);
            },
            Ok(None) => {
                proof {
                    assert(crate::format::dec_row_at(d@, cur as int, k) == Ok::<
                        Option<(Seq<Seq<char>>, int)>,
                        (),
                    >(None));
                }
                return Ok(None);
            },
            Ok(Some(p)) => p,
        };
        let ghost vv = v@;
        values.push(v);
        proof {
            assert(crate::engine::str_views(values@) =~= pre.push(vv));
            let inner = crate::format::dec_row_at(d@, cur1 as int, k - 1);
            match inner {
                Ok(Some((rest, o))) => {
                    assert(pre + (seq![vv] + rest) =~= pre.push(vv) + rest);
                },
                _ => {},
            }
        }
        cur = cur1;
        i += 1;
    }
    proof {
        assert(crate::engine::str_views(values@) + Seq::<Seq<char>>::empty()
            =~= crate::engine::str_views(values@));
    }
    Ok(Some((crate::engine::Row { values }, cur)))
}

/// Reads one whole row page, mirroring `dec_row_page`.
fn decode_row_page(d: &Vec<u8>, ncols: usize) -> (r: Result<
    Option<(Vec<crate::engine::Row>, u64)>,
    DbError,
>)
    requires
        d@.len() == PAGE_SIZE,
    ensures
        match crate::format::dec_row_page(d@, ncols as int) {
            Err(_) => r matches Err(e) && e matches DbError::BadEncoding,
            Ok(None) => r matches Ok(None),
            Ok(Some((rs, next))) => r matches Ok(Some((rows, rn))) && crate::engine::row_views(
                rows@,
            ) == rs && rn == next,
        },
{
    let n = read_u32(d, 0);
    if n == 0 {
        return Ok(Some((Vec::new(), 0)));
    }
    let mut rows: Vec<crate::engine::Row> = Vec::new();
    let mut cur: usize = 4;
    let mut i: u32 = 0;
    while i < n
        invariant
            i <= n,
            cur <= d@.len(),
            d@.len() == PAGE_SIZE,
            n == read_u32_at(d@, 0),
            n > 0,
            crate::format::dec_rows_at(d@, 4, n as int, ncols as int) == rowseq_with_prefix(
                crate::engine::row_views(rows@),
                crate::format::dec_rows_at(d@, cur as int, (n - i) as int, ncols as int),
            ),
        decreases n - i,
    {
        let ghost pre = crate::engine::row_views(rows@);
        let ghost k = (n - i) as int;
        let (row, cur1) = match decode_row_at(d, cur, ncols) {
            Err(e) => {
                proof {
                    assert(crate::format::dec_rows_at(d@, cur as int, k, ncols as int) is Err);
                }
                return Err(e);
            },
            Ok(None) => {
                proof {
                    assert(crate::format::dec_rows_at(d@, cur as int, k, ncols as int) == Ok::<
                        Option<(Seq<Seq<Seq<char>>>, int)>,
                        (),
                    >(None));
                }
                return Ok(None);
            },
            Ok(Some(p)) => p,
        };
        let ghost rv = row@;
        rows.push(row);
        proof {
            assert(crate::engine::row_views(rows@) =~= pre.push(rv));
            let inner = crate::format::dec_rows_at(d@, cur1 as int, k - 1, ncols as int);
            match inner {
                Ok(Some((rest, o))) => {
                    assert(pre + (seq![rv] + rest) =~= pre.push(rv) + rest);
                },
                _ => {},
            }
        }
        cur = cur1;
        i += 1;
    }
    proof {
        assert(crate::engine::row_views(rows@) + Seq::<Seq<Seq<char>>>::empty()
            =~= crate::engine::row_views(rows@));
    }
    if cur + 8 > PAGE_SIZE {
        return Ok(None);
    }
    let next = read_u64(d, cur);
    Ok(Some((rows, next)))
}

// ---------------------------------------------------------------------------
// Pigeonhole facts for chain walks
// ---------------------------------------------------------------------------

/// The set of ids below `n` is finite and has `n` members.
pub proof fn lemma_u64_below_finite(n: nat)
    requires
        n <= u64::MAX + 1,
    ensures
        Set::new(|x: u64| (x as nat) < n).finite(),
        Set::new(|x: u64| (x as nat) < n).len() == n,
    decreases n,
{
    if n == 0 {
        assert(Set::new(|x: u64| (x as nat) < n) =~= Set::<u64>::empty());
    } else {
        lemma_u64_below_finite((n - 1) as nat);
        assert(Set::new(|x: u64| (x as nat) < n) =~= Set::new(
            |x: u64| (x as nat) < n - 1,
        ).insert((n - 1) as u64));
    }
}

/// Distinct ids below `n` number at most `n`.
pub proof fn lemma_distinct_bounded(s: Seq<u64>, n: nat)
    requires
        s.no_duplicates(),
        n <= u64::MAX + 1,
        forall|i: int| 0 <= i < s.len() ==> (#[trigger] s[i] as nat) < n,
    ensures
        s.len() <= n,
{
    s.unique_seq_to_set();
    let r = Set::new(|x: u64| (x as nat) < n);
    lemma_u64_below_finite(n);
    assert(s.to_set().subset_of(r));
    vstd::set_lib::lemma_len_subset(s.to_set(), r);
}

/// Folds already-loaded tables into a pending chain walk result.
pub open spec fn tables_with_prefix(pre: Seq<crate::engine::TableV>, r: Result<
    Seq<crate::engine::TableV>,
    (),
>) -> Result<Seq<crate::engine::TableV>, ()> {
    match r {
        Err(e) => Err(e),
        Ok(rest) => Ok(pre + rest),
    }
}

/// The image after a table is created: a schema page and its row chain are
/// appended, the chain is linked in, and the header count grows by one.
pub open spec fn spec_save_table(pages: Seq<Seq<u8>>, t: crate::engine::TableV, is_new: bool)
    -> Result<Seq<Seq<u8>>, DbError> {
    match crate::format::enc_schema_checked(t.name, t.columns, 0, 0) {
        Err(e) => Err(e),
        Ok(_) => {
            if exists|i: int|
                0 <= i < t.rows.len() && crate::format::enc_row(t.columns, #[trigger] t.rows[i]).len()
                    > PAGE_SIZE - 12 {
                Err(DbError::RowTooLarge)
            } else if is_new && header_table_count(page_at(pages, 0)) == u32::MAX {
                Err(DbError::BrokenChain)
            } else {
                let s_id = pages.len() as u64;
                let pages1 = pages + seq![zero_page()];
                let saved = spec_save_rows(pages1, t.columns, t.rows, None)->Some_0;
                let pages2 = saved.0;
                let dpid = saved.1;
                let body = crate::format::enc_schema(t.name, t.columns, dpid, 0);
                if !is_new {
                    Ok(store_write(pages2, s_id, crate::format::pad_page(body)))
                } else {
                    let root = header_schema_root(page_at(pages2, 0));
                    let patched = if root == 0 {
                        Some(
                            store_write(pages2, 0, splice(page_at(pages2, 0), 12, enc_u64(
                                s_id,
                            ))),
                        )
                    } else {
                        crate::format::spec_patch_chain(pages2, root, s_id, Seq::empty(), (
                        pages2.len() + 1) as nat)
                    };
                    match patched {
                        None => Err(DbError::BrokenChain),
                        Some(pages3) => {
                            let pages4 = store_write(pages3, s_id, crate::format::pad_page(
                                body,
                            ));
                            let h = page_at(pages4, 0);
                            Ok(
                                store_write(pages4, 0, splice(h, 20, enc_u32(
                                    (header_table_count(h) + 1) as u32,
                                ))),
                            )
                        },
                    }
                }
            }
        },
    }
}

/// The image after a table's rows are rewritten in place: the existing row
/// chain head is reused and the schema page's data-page field is refreshed;
/// a table never saved before is created instead.
pub open spec fn spec_update_table(pages: Seq<Seq<u8>>, t: crate::engine::TableV) -> Result<
    Seq<Seq<u8>>,
    DbError,
> {
    let root = header_schema_root(page_at(pages, 0));
    match crate::format::find_schema(pages, root, t.name, Seq::empty(), (pages.len() + 1) as nat) {
        Err(_) => Err(DbError::BadEncoding),
        Ok(None) => spec_save_table(pages, t, true),
        Ok(Some(spid)) => {
            if exists|i: int|
                0 <= i < t.rows.len() && crate::format::enc_row(t.columns, #[trigger] t.rows[i]).len()
                    > PAGE_SIZE - 12 {
                Err(DbError::RowTooLarge)
            } else {
                let d = page_at(pages, spid);
                let off = crate::format::schema_data_pid_off(d);
                let existing = read_u64_at(d, off);
                let saved = spec_save_rows(pages, t.columns, t.rows, if existing > 0 {
                    Some(existing)
                } else {
                    None
                })->Some_0;
                Ok(store_write(saved.0, spid, splice(d, off, enc_u64(saved.1))))
            }
        },
    }
}

/// Appends the checked encoding of the columns from `i` on, mirroring
/// `enc_columns_checked`.
fn encode_cols(columns: &Vec<Column>, i: usize, buf: &mut Vec<u8>) -> (r: Result<(), DbError>)
    requires
        i <= columns@.len(),
        old(buf)@.len() <= PAGE_SIZE,
    ensures
        match crate::format::enc_columns_checked(
            col_views(columns@).skip(i as int),
            old(buf)@.len() as int,
        ) {
            Ok(b) => r is Ok && final(buf)@ == old(buf)@ + b && final(buf)@.len() <= PAGE_SIZE,
            Err(e) => r matches Err(e2) && e2 == e,
        },
    decreases columns@.len() - i,
{
    proof {
        vstd::bytes::lemma_auto_spec_u32_to_from_le_bytes();
    }
    let ghost cvs = col_views(columns@);
    if i == columns.len() {
        proof {
            assert(cvs.skip(i as int) =~= Seq::<ColumnV>::empty());
            assert(old(buf)@ + Seq::<u8>::empty() =~= old(buf)@);
        }
        return Ok(());
    }
    proof {
        assert(cvs.skip(i as int)[0] == cvs[i as int]);
        assert(cvs.skip(i as int).drop_first() =~= cvs.skip(i + 1 as int));
    }
    let cnb = crate::text::string_to_bytes(columns[i].name.as_str());
    if cnb.len() > PAGE_SIZE - 4 || buf.len() > PAGE_SIZE - 4 - cnb.len() {
        return Err(DbError::ColumnNameTooLong);
    }
    let ctb = crate::text::string_to_bytes(columns[i].data_type.as_str());
    if ctb.len() > PAGE_SIZE - 4 || buf.len() + 4 + cnb.len() > PAGE_SIZE - 4 - ctb.len() {
        return Err(DbError::TypeTooLong);
    }
    let ghost mid0 = buf@;
    put_u32(buf, #[verifier::truncate] (cnb.len() as u32));
    put_bytes(buf, &cnb);
    put_u32(buf, #[verifier::truncate] (ctb.len() as u32));
    put_bytes(buf, &ctb);
    proof {
        assert(buf@ =~= mid0 + crate::format::enc_str(columns@[i as int]@.name)
            + crate::format::enc_str(columns@[i as int]@.data_type));
    }
    let ghost mid = buf@;
    let r = encode_cols(columns, i + 1, buf);
    proof {
        match crate::format::enc_columns_checked(cvs.skip(i + 1 as int), mid.len() as int) {
            Ok(b) => {
                assert(buf@ =~= old(buf)@ + (crate::format::enc_str(cvs[i as int].name)
                    + crate::format::enc_str(cvs[i as int].data_type) + b));
            },
            Err(_) => {},
        }
    }
    r
}

/// Encodes one whole schema page, zero-padded, mirroring
/// `enc_schema_checked`.
pub fn encode_schema_page(name: &String, columns: &Vec<Column>, data_page_id: u64,
    next_page_id: u64) -> (r: Result<Vec<u8>, DbError>)
    ensures
        match crate::format::enc_schema_checked(
            name@,
            col_views(columns@),
            data_page_id,
            next_page_id,
        ) {
            Ok(body) => r matches Ok(d) && d@ == crate::format::pad_page(body) && d@.len()
                == PAGE_SIZE,
            Err(e) => r matches Err(e2) && e2 == e,
        },
{
    proof {
        vstd::bytes::lemma_auto_spec_u32_to_from_le_bytes();
        vstd::bytes::lemma_auto_spec_u64_to_from_le_bytes();
    }
    let nb = crate::text::string_to_bytes(name.as_str());
    if nb.len() > PAGE_SIZE - 4 {
        return Err(DbError::NameTooLong);
    }
    if 4 + nb.len() + 4 > PAGE_SIZE {
        return Err(DbError::PageOverflow);
    }
    let mut buf: Vec<u8> = Vec::new();
    put_u32(&mut buf, #[verifier::truncate] (nb.len() as u32));
    put_bytes(&mut buf, &nb);
    put_u32(&mut buf, #[verifier::truncate] (columns.len() as u32));
    let ghost prefix = buf@;
    proof {
        assert(col_views(columns@).skip(0) =~= col_views(columns@));
        assert(prefix =~= crate::format::enc_str(name@) + enc_u32(columns@.len() as u32));
    }
    match encode_cols(columns, 0, &mut buf) {
        Err(e) => {
            return Err(e);
        },
        Ok(_) => {},
    }
    if buf.len() > PAGE_SIZE - 16 {
        return Err(DbError::PageOverflow);
    }
    put_u64(&mut buf, data_page_id);
    put_u64(&mut buf, next_page_id);
    pad_to_page(&mut buf);
    Ok(buf)
}

/// What a catalog load yields for this image: the tables reachable from
/// the header, first of every case-folded name, or a failure on text that
/// is not UTF-8.
pub open spec fn spec_load_result(pages: Seq<Seq<u8>>) -> Result<Seq<crate::engine::TableV>, ()> {
    let h = page_at(pages, 0);
    let root = header_schema_root(h);
    let cnt = header_table_count(h);
    if cnt == 0 || root == 0 {
        Ok(Seq::empty())
    } else {
        match crate::format::load_tables(pages, root, cnt as int, Seq::empty()) {
            Err(e) => Err(e),
            Ok(ts) => Ok(crate::format::dedup_ci(ts)),
        }
    }
}

/// The image after a catalog load: a header whose count and root disagree
/// is repaired, and a count larger than what was read shrinks to it.
pub open spec fn spec_load_repair(pages: Seq<Seq<u8>>) -> Seq<Seq<u8>> {
    let h = page_at(pages, 0);
    let root = header_schema_root(h);
    let cnt = header_table_count(h);
    if cnt == 0 {
        if root != 0 {
            store_write(pages, 0, splice(h, 12, enc_u64(0)))
        } else {
            pages
        }
    } else if root == 0 {
        store_write(pages, 0, splice(h, 20, enc_u32(0)))
    } else {
        match crate::format::load_tables(pages, root, cnt as int, Seq::empty()) {
            Err(_) => pages,
            Ok(ts) => if ts.len() != cnt {
                store_write(pages, 0, splice(h, 20, enc_u32(ts.len() as u32)))
            } else {
                pages
            },
        }
    }
}

impl Database {
    /// Reads the table one schema page describes, with its rows from disk,
    /// and the id of the next schema page.
    fn read_table_from_page(&self, page_id: u64) -> (r: Result<
        Option<(crate::engine::Table, u64)>,
        DbError,
    >)
        requires
            self.wf(),
        ensures
            match crate::format::spec_read_table(self@, page_id) {
                Err(_) => r matches Err(e) && e matches DbError::BadEncoding,
                Ok(None) => r matches Ok(None),
                Ok(Some((tv, next))) => r matches Ok(Some((t, n))) && t@ == tv && n == next,
            },
    {
        if page_id >= self.storage.page_count() {
            return Ok(None);
        }
        let page = self.storage.read_page(page_id);
        let ds = match decode_schema_page(&page.data) {
            Err(e) => {
                return Err(e);
            },
            Ok(None) => {
                return Ok(None);
            },
            Ok(Some(ds)) => ds,
        };
        let rows: Vec<crate::engine::Row> = if ds.data_page_id > 0 {
            match self.load_rows_from_pages(ds.data_page_id, ds.columns.len()) {
                Err(e) => {
                    return Err(e);
                },
                Ok(rows) => rows,
            }
        } else {
            Vec::new()
        };
        proof {
            assert(crate::engine::row_views(Seq::<crate::engine::Row>::empty()) =~= Seq::<
                Seq<Seq<char>>,
            >::empty());
        }
        let table = crate::engine::Table { name: ds.name, columns: ds.columns, rows };
        Ok(Some((table, ds.next_page_id)))
    }

    /// Walks the schema chain for the page that holds a table of this name,
    /// under ASCII case folding.
    fn find_table_schema_page(&self, name: &str) -> (r: Result<Option<u64>, DbError>)
        requires
            self.wf(),
        ensures
            ({
                let root = header_schema_root(page_at(self@, 0));
                match crate::format::find_schema(
                    self@,
                    root,
                    name@,
                    Seq::empty(),
                    (self@.len() + 1) as nat,
                ) {
                    Err(_) => r matches Err(e) && e matches DbError::BadEncoding,
                    Ok(opt) => r matches Ok(o2) && o2 == opt && (opt matches Some(pid) ==> pid
                        < self@.len() && (dec_schema(page_at(self@, pid)) matches Ok(Some(s))
                        && crate::text::lower(s.name) == crate::text::lower(name@))),
                }
            }),
    {
        let header = self.storage.read_page(0);
        let root = read_u64(&header.data, 12);
        let ghost npages = self@.len();
        let ghost fuel0 = (npages + 1) as nat;
        let npages_exec: u64 = self.storage.page_count();
        let mut visited: Vec<u64> = Vec::new();
        let mut cur: u64 = root;
        loop
            invariant
                self.wf(),
                npages == self@.len(),
                npages == npages_exec,
                fuel0 == (npages + 1) as nat,
                root == header_schema_root(page_at(self@, 0)),
                visited@.no_duplicates(),
                forall|t: int| 0 <= t < visited@.len() ==> (#[trigger] visited@[t] as nat)
                    < npages,
                visited@.len() <= npages,
                crate::format::find_schema(self@, root, name@, Seq::empty(), fuel0)
                    == crate::format::find_schema(
                    self@,
                    cur,
                    name@,
                    visited@,
                    (fuel0 - visited@.len()) as nat,
                ),
            decreases npages - visited@.len(),
        {
            proof {
                lemma_distinct_bounded(visited@, npages as nat);
            }
            if cur == 0 {
                return Ok(None);
            }
            let mut seen = false;
            let mut vi: usize = 0;
            while vi < visited.len()
                invariant
                    vi <= visited@.len(),
                    seen == exists|t: int| 0 <= t < vi && visited@[t] == cur,
                decreases visited@.len() - vi,
            {
                if visited[vi] == cur {
                    seen = true;
                }
                vi += 1;
            }
            if seen {
                proof {
                    assert(visited@.contains(cur));
                }
                return Ok(None);
            }
            proof {
                assert(!visited@.contains(cur));
            }
            if cur >= npages_exec {
                return Ok(None);
            }
            let page = self.storage.read_page(cur);
            let ds = match decode_schema_page(&page.data) {
                Err(e) => {
                    return Err(e);
                },
                Ok(None) => {
                    return Ok(None);
                },
                Ok(Some(ds)) => ds,
            };
            if crate::text::eq_ignore_case(ds.name.as_str(), name) {
                return Ok(Some(cur));
            }
            visited.push(cur);
            proof {
                lemma_distinct_bounded(visited@, npages as nat);
            }
            cur = ds.next_page_id;
        }
    }

    /// Loads the catalog from the image, repairing a header whose count and
    /// root disagree, and shrinking the count to what was actually read.
    pub fn load_catalog(&mut self) -> (r: Result<crate::engine::Catalog, DbError>)
        requires
            old(self).wf(),
        ensures
            final(self).wf(),
            final(self)@ == spec_load_repair(old(self)@),
            match r {
                Ok(catalog) => spec_load_result(old(self)@) matches Ok(cs) && catalog@ == cs,
                Err(e) => e matches DbError::BadEncoding && spec_load_result(old(self)@) is Err,
            },
    {
        let mut header = self.storage.read_page(0);
        let num_tables = read_u32(&header.data, 20);
        let schema_root = read_u64(&header.data, 12);
        if num_tables == 0 {
            if schema_root != 0 {
                let z = vstd::bytes::u64_to_le_bytes(0);
                splice_bytes(&mut header.data, 12, &z);
                self.storage.write_page(&header);
            }
            return Ok(crate::engine::Catalog::new());
        }
        if schema_root == 0 {
            let z = vstd::bytes::u32_to_le_bytes(0);
            splice_bytes(&mut header.data, 20, &z);
            self.storage.write_page(&header);
            return Ok(crate::engine::Catalog::new());
        }
        let ghost pages = self@;
        let mut catalog = crate::engine::Catalog::new();
        let ghost gts: Seq<crate::engine::TableV> = Seq::empty();
        let mut gts_tracker: Ghost<Seq<crate::engine::TableV>> = Ghost(gts);
        let mut visited: Vec<u64> = Vec::new();
        let mut current: u64 = schema_root;
        let mut loaded: u32 = 0;
        let mut fin = false;
        proof {
            assert(Seq::<crate::engine::TableV>::empty() + Seq::<
                crate::engine::TableV,
            >::empty() =~= Seq::<crate::engine::TableV>::empty());
        }
        while !fin
            invariant
                self.wf(),
                self@ == pages,
                pages == old(self)@,
                num_tables == header_table_count(page_at(pages, 0)),
                schema_root == header_schema_root(page_at(pages, 0)),
                num_tables != 0,
                schema_root != 0,
                loaded <= num_tables,
                loaded == gts_tracker@.len(),
                catalog@ == crate::format::dedup_ci(gts_tracker@),
                !fin ==> crate::format::load_tables(
                    pages,
                    schema_root,
                    num_tables as int,
                    Seq::empty(),
                ) == tables_with_prefix(
                    gts_tracker@,
                    crate::format::load_tables(
                        pages,
                        current,
                        (num_tables - loaded) as int,
                        visited@,
                    ),
                ),
                fin ==> crate::format::load_tables(
                    pages,
                    schema_root,
                    num_tables as int,
                    Seq::empty(),
                ) == Ok::<Seq<crate::engine::TableV>, ()>(gts_tracker@),
            decreases (if fin {
                0int
            } else {
                1int
            }), num_tables - loaded,
        {
            if loaded == num_tables || current == 0 {
                proof {
                    assert(gts_tracker@ + Seq::<crate::engine::TableV>::empty()
                        =~= gts_tracker@);
                }
                fin = true;
            } else {
                let mut seen = false;
                let mut vi: usize = 0;
                while vi < visited.len()
                    invariant
                        vi <= visited@.len(),
                        seen == exists|t: int| 0 <= t < vi && visited@[t] == current,
                    decreases visited@.len() - vi,
                {
                    if visited[vi] == current {
                        seen = true;
                    }
                    vi += 1;
                }
                if seen {
                    proof {
                        assert(visited@.contains(current));
                        assert(gts_tracker@ + Seq::<crate::engine::TableV>::empty()
                            =~= gts_tracker@);
                    }
                    fin = true;
                } else {
                    proof {
                        assert(!visited@.contains(current));
                    }
                    match self.read_table_from_page(current) {
                        Err(e) => {
                            return Err(e);
                        },
                        Ok(None) => {
                            proof {
                                assert(gts_tracker@ + Seq::<crate::engine::TableV>::empty()
                                    =~= gts_tracker@);
                            }
                            fin = true;
                        },
                        Ok(Some((table, next))) => {
                            let ghost tv = table@;
                            catalog.add_table(table);
                            proof {
                                let g2 = gts_tracker@.push(tv);
                                assert(g2.drop_last() =~= gts_tracker@);
                                assert(crate::format::dedup_ci(g2)
                                    == if crate::format::contains_name_ci(
                                    crate::format::dedup_ci(gts_tracker@),
                                    tv.name,
                                ) {
                                    crate::format::dedup_ci(gts_tracker@)
                                } else {
                                    crate::format::dedup_ci(gts_tracker@).push(tv)
                                });
                                let inner = crate::format::load_tables(
                                    pages,
                                    next,
                                    (num_tables - loaded - 1) as int,
                                    visited@.push(current),
                                );
                                match inner {
                                    Ok(rest) => {
                                        assert(gts_tracker@ + (seq![tv] + rest) =~= g2 + rest);
                                    },
                                    _ => {},
                                }
                            }
                            gts_tracker = Ghost(gts_tracker@.push(tv));
                            visited.push(current);
                            current = next;
                            loaded = loaded + 1;
                        },
                    }
                }
            }
        }
        if loaded != num_tables {
            let z = vstd::bytes::u32_to_le_bytes(loaded);
            splice_bytes(&mut header.data, 20, &z);
            self.storage.write_page(&header);
        }
        Ok(catalog)
    }

    /// Writes a table to fresh pages: its rows, then its schema page, then
    /// the chain link and the header count when the table is new.
    pub fn save_table(&mut self, table: &crate::engine::Table, is_new: bool) -> (r: Result<
        (),
        DbError,
    >)
        requires
            old(self).wf(),
        ensures
            final(self).wf(),
            match r {
                Ok(_) => spec_save_table(old(self)@, table@, is_new) matches Ok(p)
                    && final(self)@ == p,
                Err(e) => spec_save_table(old(self)@, table@, is_new) == Err::<
                    Seq<Seq<u8>>,
                    DbError,
                >(e) && (e matches DbError::BrokenChain || final(self)@ == old(self)@),
            },
    {
        let ghost t = table@;
        match encode_schema_page(&table.name, &table.columns, 0, 0) {
            Err(e) => {
                return Err(e);
            },
            Ok(_) => {},
        }
        // Refuse oversized rows before any write.
        let mut j: usize = 0;
        while j < table.rows.len()
            invariant
                old(self).wf(),
                self@ == old(self)@,
                t == table@,
                crate::format::enc_schema_checked(t.name, t.columns, 0, 0) is Ok,
                j <= table.rows@.len(),
                forall|u: int|
                    0 <= u < j ==> crate::format::enc_row(t.columns, #[trigger] t.rows[u]).len()
                        <= PAGE_SIZE - 12,
            decreases table.rows@.len() - j,
        {
            let rb = encode_row(&table.columns, &table.rows[j]);
            proof {
                assert(t.rows[j as int] == table.rows@[j as int]@);
            }
            if rb.len() > PAGE_SIZE - 12 {
                return Err(DbError::RowTooLarge);
            }
            j += 1;
        }
        // Refuse a header whose count cannot grow.
        let h0 = self.storage.read_page(0);
        let cnt0 = read_u32(&h0.data, 20);
        if is_new && cnt0 == u32::MAX {
            return Err(DbError::BrokenChain);
        }
        // Allocate the schema page, then write the row chain.
        let s_page = self.storage.allocate_page();
        let s_id = s_page.id;
        let ghost pages1 = self@;
        let dpid: u64 = match self.save_rows_to_pages(&table.rows, 0, &table.columns, None) {
            Ok(h) => h,
            Err(e) => {
                proof {
                    assert(crate::engine::row_views(table.rows@).skip(0) =~= t.rows);
                    lemma_save_rows_total(pages1, t.columns, t.rows, None);
                }
                return Err(e);
            },
        };
        let ghost pages2 = self@;
        proof {
            assert(crate::engine::row_views(table.rows@).skip(0) =~= t.rows);
            assert(spec_save_rows(pages1, t.columns, t.rows, None) == Some((pages2, dpid)));
            assert(page_at(pages2, 0) == page_at(old(self)@, 0));
        }
        let pagebytes = match encode_schema_page(&table.name, &table.columns, dpid, 0) {
            Ok(b) => b,
            Err(e) => {
                proof {
                    crate::format::lemma_enc_schema_checked_indep(t.name, t.columns, 0, 0, dpid,
                        0);
                    assert(false);
                }
                return Err(e);
            },
        };
        proof {
            crate::format::lemma_enc_schema_checked_ok(t.name, t.columns, dpid, 0);
        }
        if !is_new {
            self.storage.write_page(&Page { id: s_id, data: pagebytes });
            return Ok(());
        }
        // Link the new schema page into the chain.
        let header = self.storage.read_page(0);
        let root = read_u64(&header.data, 12);
        if root == 0 {
            let mut hdata = header.data;
            let sid_bytes = vstd::bytes::u64_to_le_bytes(s_id);
            splice_bytes(&mut hdata, 12, &sid_bytes);
            self.storage.write_page(&Page { id: 0, data: hdata });
            proof {
                vstd::bytes::lemma_auto_spec_u64_to_from_le_bytes();
                assert(page_at(self@, 0) == splice(page_at(pages2, 0), 12, enc_u64(s_id)));
                crate::format::lemma_splice_frame(page_at(pages2, 0), 12, enc_u64(s_id), 20, 24);
                assert(page_at(self@, 0).subrange(20, 24) == page_at(pages2, 0).subrange(
                    20,
                    24,
                ));
                assert(self@.len() == pages2.len());
            }
        } else {
            let ghost npages = pages2.len();
            let ghost fuel0 = (npages + 1) as nat;
            let npages_exec: u64 = self.storage.page_count();
            let mut visited: Vec<u64> = Vec::new();
            let mut cur: u64 = root;
            let mut patched = false;
            while !patched
                invariant
                    old(self).wf(),
                    image_wf(pages2),
                    pages2.len() >= 1,
                    npages == pages2.len(),
                    npages == npages_exec,
                    fuel0 == (npages + 1) as nat,
                    t == table@,
                    is_new,
                    crate::format::enc_schema_checked(t.name, t.columns, 0, 0) is Ok,
                    forall|u: int|
                        0 <= u < t.rows.len() ==> crate::format::enc_row(
                            t.columns,
                            #[trigger] t.rows[u],
                        ).len() <= PAGE_SIZE - 12,
                    header_table_count(page_at(old(self)@, 0)) != u32::MAX,
                    s_id == old(self)@.len(),
                    pages1 == old(self)@ + seq![zero_page()],
                    spec_save_rows(pages1, t.columns, t.rows, None) == Some((pages2, dpid)),
                    root != 0,
                    root == header_schema_root(page_at(pages2, 0)),
                    visited@.no_duplicates(),
                    forall|u: int| 0 <= u < visited@.len() ==> (#[trigger] visited@[u] as nat)
                        < npages,
                    visited@.len() <= npages,
                    !patched ==> self@ == pages2,
                    patched ==> page_at(self@, 0) == page_at(pages2, 0),
                    patched ==> self@.len() == pages2.len(),
                    !patched ==> crate::format::spec_patch_chain(
                        pages2,
                        root,
                        s_id,
                        Seq::empty(),
                        fuel0,
                    ) == crate::format::spec_patch_chain(
                        pages2,
                        cur,
                        s_id,
                        visited@,
                        (fuel0 - visited@.len()) as nat,
                    ),
                    patched ==> crate::format::spec_patch_chain(
                        pages2,
                        root,
                        s_id,
                        Seq::empty(),
                        fuel0,
                    ) == Some(self@),
                    self.wf(),
                decreases (if patched {
                    0int
                } else {
                    1int
                }), npages - visited@.len(),
            {
                proof {
                    lemma_distinct_bounded(visited@, npages as nat);
                }
                if cur == 0 {
                    return Err(DbError::BrokenChain);
                }
                let mut seen = false;
                let mut vi: usize = 0;
                while vi < visited.len()
                    invariant
                        vi <= visited@.len(),
                        seen == exists|u: int| 0 <= u < vi && visited@[u] == cur,
                    decreases visited@.len() - vi,
                {
                    if visited[vi] == cur {
                        seen = true;
                    }
                    vi += 1;
                }
                if seen {
                    proof {
                        assert(visited@.contains(cur));
                    }
                    return Err(DbError::BrokenChain);
                }
                proof {
                    assert(!visited@.contains(cur));
                }
                if cur >= npages_exec {
                    return Err(DbError::BrokenChain);
                }
                let page = self.storage.read_page(cur);
                let ds = match decode_schema_page(&page.data) {
                    Err(_) => {
                        return Err(DbError::BrokenChain);
                    },
                    Ok(None) => {
                        return Err(DbError::BrokenChain);
                    },
                    Ok(Some(ds)) => ds,
                };
                if ds.next_page_id == 0 {
                    let mut pdata = page.data;
                    let sid_bytes = vstd::bytes::u64_to_le_bytes(s_id);
                    splice_bytes(&mut pdata, ds.dpid_off + 8, &sid_bytes);
                    self.storage.write_page(&Page { id: cur, data: pdata });
                    proof {
                        assert(self@ == pages2.update(cur as int, pdata@));
                        assert(page_at(self@, 0) == page_at(pages2, 0));
                        assert(self@.len() == pages2.len());
                    }
                    patched = true;
                } else {
                    visited.push(cur);
                    proof {
                        lemma_distinct_bounded(visited@, npages as nat);
                    }
                    cur = ds.next_page_id;
                }
            }
        }
        let ghost pages3 = self@;
        proof {
            assert(page_at(pages3, 0).subrange(20, 24) == page_at(pages2, 0).subrange(20, 24));
            assert(pages3.len() == pages2.len());
        }
        // Write the schema page itself, ending the chain.
        self.storage.write_page(&Page { id: s_id, data: pagebytes });
        let ghost pages4 = self@;
        // Grow the stored table count by one.
        let header2 = self.storage.read_page(0);
        let cnt = read_u32(&header2.data, 20);
        proof {
            vstd::bytes::lemma_auto_spec_u32_to_from_le_bytes();
            assert(s_id < pages3.len());
            assert(pages4 == pages3.update(s_id as int, pagebytes@));
            assert(page_at(pages4, 0) == page_at(pages3, 0));
            assert(page_at(pages2, 0) == page_at(old(self)@, 0));
            assert(header2.data@ == page_at(pages4, 0));
            assert(header2.data@.subrange(20, 24) == page_at(old(self)@, 0).subrange(20, 24));
            assert(cnt == cnt0);
            assert(cnt < u32::MAX);
        }
        let mut h2 = header2.data;
        let cnt_bytes = vstd::bytes::u32_to_le_bytes(cnt + 1);
        splice_bytes(&mut h2, 20, &cnt_bytes);
        self.storage.write_page(&Page { id: 0, data: h2 });
        Ok(())
    }

    /// Rewrites a table's rows in place, reusing its existing row chain
    /// head; a table with no schema page yet is saved as new.
    pub fn update_table_data(&mut self, table: &crate::engine::Table) -> (r: Result<(), DbError>)
        requires
            old(self).wf(),
        ensures
            final(self).wf(),
            match r {
                Ok(_) => spec_update_table(old(self)@, table@) matches Ok(p) && final(self)@
                    == p,
                Err(e) => spec_update_table(old(self)@, table@) == Err::<Seq<Seq<u8>>, DbError>(
                    e,
                ) && (e matches DbError::BrokenChain || final(self)@ == old(self)@),
            },
    {
        let ghost t = table@;
        let spid = match self.find_table_schema_page(table.name.as_str()) {
            Err(e) => {
                return Err(e);
            },
            Ok(None) => {
                return self.save_table(table, true);
            },
            Ok(Some(spid)) => spid,
        };
        // Refuse oversized rows before any write.
        let mut j: usize = 0;
        while j < table.rows.len()
            invariant
                old(self).wf(),
                self@ == old(self)@,
                t == table@,
                crate::format::find_schema(
                    old(self)@,
                    header_schema_root(page_at(old(self)@, 0)),
                    t.name,
                    Seq::empty(),
                    (old(self)@.len() + 1) as nat,
                ) == Ok::<Option<u64>, ()>(Some(spid)),
                j <= table.rows@.len(),
                forall|u: int|
                    0 <= u < j ==> crate::format::enc_row(t.columns, #[trigger] t.rows[u]).len()
                        <= PAGE_SIZE - 12,
            decreases table.rows@.len() - j,
        {
            let rb = encode_row(&table.columns, &table.rows[j]);
            proof {
                assert(t.rows[j as int] == table.rows@[j as int]@);
            }
            if rb.len() > PAGE_SIZE - 12 {
                return Err(DbError::RowTooLarge);
            }
            j += 1;
        }
        let spage = self.storage.read_page(spid);
        let ds = match decode_schema_page(&spage.data) {
            Err(_) => {
                proof {
                    assert(false);
                }
                return Err(DbError::BadEncoding);
            },
            Ok(None) => {
                proof {
                    assert(false);
                }
                return Err(DbError::BadEncoding);
            },
            Ok(Some(ds)) => ds,
        };
        let start: Option<u64> = if ds.data_page_id > 0 {
            Some(ds.data_page_id)
        } else {
            None
        };
        let head = match self.save_rows_to_pages(&table.rows, 0, &table.columns, start) {
            Ok(h) => h,
            Err(e) => {
                proof {
                    assert(crate::engine::row_views(table.rows@).skip(0) =~= t.rows);
                    lemma_save_rows_total(old(self)@, t.columns, t.rows, start);
                }
                return Err(e);
            },
        };
        proof {
            assert(crate::engine::row_views(table.rows@).skip(0) =~= t.rows);
        }
        let mut d2 = spage.data;
        let head_bytes = vstd::bytes::u64_to_le_bytes(head);
        splice_bytes(&mut d2, ds.dpid_off, &head_bytes);
        self.storage.write_page(&Page { id: spid, data: d2 });
        Ok(())
    }
}

// ---------------------------------------------------------------------------
// The rows round trip: a rewritten chain reads back as the stored forms
// ---------------------------------------------------------------------------

/// How many pages a row-chain rewrite lays down.
pub open spec fn chain_pages(cols: Seq<ColumnV>, rows: Seq<Seq<Seq<char>>>) -> nat
    decreases rows.len(),
{
    let f = crate::format::fit_count(cols, rows, 4) as int;
    let k = if f > rows.len() {
        rows.len() as int
    } else {
        f
    };
    if k == rows.len() {
        1
    } else if k == 0 {
        1
    } else {
        (1 + chain_pages(cols, rows.skip(k))) as nat
    }
}

/// Reading back the page a write put down.
pub proof fn lemma_store_write_read(pages: Seq<Seq<u8>>, id: u64, data: Seq<u8>)
    ensures
        page_at(store_write(pages, id, data), id) == data,
        store_write(pages, id, data).len() == if id < pages.len() {
            pages.len() as int
        } else {
            id + 1
        },
        forall|q: u64| q != id && q < pages.len() ==> page_at(
            #[trigger] store_write(pages, id, data),
            q,
        ) == page_at(pages, q),
{
    if id < pages.len() {
        assert(store_write(pages, id, data) == pages.update(id as int, data));
    } else {
        let w = store_write(pages, id, data);
        assert(w == pages + Seq::new((id - pages.len()) as nat, |i: int| zero_page())
            + seq![data]);
        assert(w[id as int] == data);
        assert forall|q: u64| q != id && q < pages.len() implies page_at(w, q) == page_at(
            pages,
            q,
        ) by {
            assert(w[q as int] == pages[q as int]);
        }
    }
}

/// Everything the greedy packer takes stays within the page.
pub proof fn lemma_fit_prefix_size(cols: Seq<ColumnV>, rows: Seq<Seq<Seq<char>>>, used: int,
    m: int)
    requires
        0 <= m <= crate::format::fit_count(cols, rows, used),
        m <= rows.len(),
    ensures
        used + crate::format::enc_rows(cols, rows.take(m)).len() <= if m == 0 {
            used as int
        } else {
            PAGE_SIZE - 8
        },
    decreases m,
{
    if m == 0 {
        assert(rows.take(0) =~= Seq::<Seq<Seq<char>>>::empty());
    } else {
        let l = crate::format::enc_row(cols, rows[0]).len();
        assert(used + l <= PAGE_SIZE - 8);
        lemma_fit_prefix_size(cols, rows.drop_first(), used + l, m - 1);
        assert(rows.take(m)[0] == rows[0]);
        assert(rows.take(m).drop_first() =~= rows.drop_first().take(m - 1));
        assert(crate::format::enc_rows(cols, rows.take(m)) == crate::format::enc_row(
            cols,
            rows[0],
        ) + crate::format::enc_rows(cols, rows.drop_first().take(m - 1)));
    }
}

/// A rewritten row chain, read from any image that agrees with the rewrite
/// on the head page and on every page at or past the old end, yields
/// exactly the stored forms of the rows, in order.
pub proof fn lemma_save_rows_chain(pages: Seq<Seq<u8>>, cols: Seq<ColumnV>,
    rows: Seq<Seq<Seq<char>>>, start: Option<u64>, pages_f: Seq<Seq<u8>>, visited: Seq<u64>,
    fuel: nat)
    requires
        spec_save_rows(pages, cols, rows, start) is Some,
        forall|i: int| 0 <= i < rows.len() ==> (#[trigger] rows[i]).len() == cols.len(),
        rows.len() <= u32::MAX,
        pages.len() + rows.len() + 1 <= u64::MAX,
        start matches Some(h) ==> h < pages.len(),
        ({
            let r = spec_save_rows(pages, cols, rows, start)->Some_0;
            &&& page_at(pages_f, r.1) == page_at(r.0, r.1)
            &&& forall|q: u64| pages.len() <= q < r.0.len() ==> page_at(pages_f, q) == page_at(
                r.0,
                q,
            )
            &&& pages_f.len() >= r.0.len()
        }),
        fuel >= chain_pages(cols, rows) + 1,
        forall|t: int| 0 <= t < visited.len() ==> #[trigger] visited[t] < pages.len()
            && (start matches Some(h) ==> visited[t] != h),
    ensures
        ({
            let r = spec_save_rows(pages, cols, rows, start)->Some_0;
            crate::format::dec_rows_chain(pages_f, cols.len() as int, r.1, visited, fuel)
                == Ok::<Seq<Seq<Seq<char>>>, ()>(crate::format::stored_rows(cols, rows))
        }),
    decreases rows.len(),
{
    vstd::bytes::lemma_auto_spec_u32_to_from_le_bytes();
    vstd::bytes::lemma_auto_spec_u64_to_from_le_bytes();
    let pages1 = if start is Some {
        pages
    } else {
        pages + seq![zero_page()]
    };
    let head = if start is Some {
        start->Some_0
    } else {
        pages.len() as u64
    };
    let f = crate::format::fit_count(cols, rows, 4) as int;
    let k = if f > rows.len() {
        rows.len() as int
    } else {
        f
    };
    lemma_fit_rows_small(cols, rows, 4);
    assert(!visited.contains(head)) by {
        if visited.contains(head) {
            let t = choose|t: int| 0 <= t < visited.len() && visited[t] == head;
            assert(visited[t] < pages.len());
        }
    }
    if k == rows.len() {
        let data = crate::format::pad_page(crate::format::enc_row_page(cols, rows, 0));
        let pages2 = store_write(pages1, head, data);
        lemma_store_write_read(pages1, head, data);
        assert(page_at(pages_f, head) == data);
        assert(head < pages_f.len());
        if rows.len() == 0 {
            assert(crate::format::enc_rows(cols, rows).len() == 0);
            let body = crate::format::enc_row_page(cols, rows, 0);
            assert(data.subrange(0, body.len() as int) =~= body);
            crate::format::lemma_sub_eq(data, 0, body, 0, 4);
            assert(body.subrange(0, 4) =~= enc_u32(0));
            assert(crate::format::read_u32_at(data, 0) == 0);
            assert(crate::format::dec_row_page(data, cols.len() as int) == Ok::<
                Option<(Seq<Seq<Seq<char>>>, u64)>,
                (),
            >(Some((Seq::empty(), 0))));
            assert(crate::format::stored_rows(cols, rows) =~= Seq::<Seq<Seq<char>>>::empty());
        } else {
            lemma_fit_prefix_size(cols, rows, 4, k);
            assert(rows.take(k) =~= rows);
            crate::format::lemma_row_page_roundtrip(cols, rows, 0);
        }
    } else {
        assert(k >= 1) by {
            if k == 0 {
                assert(rows.len() > 0);
            }
        }
        let rec = spec_save_rows(pages1, cols, rows.skip(k), None)->Some_0;
        let pages_r = rec.0;
        let next = rec.1;
        let chunk = rows.take(k);
        let data = crate::format::pad_page(crate::format::enc_row_page(cols, chunk, next));
        let pages2 = store_write(pages_r, head, data);
        assert(next == pages1.len() as u64);
        lemma_save_rows_frame(pages1, cols, rows.skip(k), None);
        assert(pages_r.len() >= pages1.len());
        assert(head < pages1.len());
        lemma_store_write_read(pages_r, head, data);
        assert(pages2.len() == pages_r.len());
        assert(page_at(pages_f, head) == data);
        assert(head < pages_f.len());
        // The head page holds the first chunk and points at the rest.
        lemma_fit_prefix_size(cols, rows, 4, k);
        assert forall|i: int| 0 <= i < chunk.len() implies (#[trigger] chunk[i]).len()
            == cols.len() by {
            assert(chunk[i] == rows[i]);
        }
        crate::format::lemma_row_page_roundtrip(cols, chunk, next);
        assert(next != 0);
        // The rest of the chain reads back by induction.
        assert forall|i: int| 0 <= i < rows.skip(k).len() implies (#[trigger] rows.skip(k)[
            i
        ]).len() == cols.len() by {
            assert(rows.skip(k)[i] == rows[i + k]);
        }
        assert forall|q: u64| pages1.len() <= q < pages_r.len() implies page_at(pages_f, q)
            == page_at(pages_r, q) by {
            assert(q != head);
            assert(page_at(pages2, q) == page_at(pages_r, q)) by {
                assert(pages2 == pages_r.update(head as int, data));
            }
            assert(pages.len() <= q < pages2.len());
        }
        assert(page_at(pages_f, next) == page_at(pages_r, next)) by {
            assert(next != head);
            assert(pages2 == pages_r.update(head as int, data));
            assert(pages.len() <= next < pages2.len());
        }
        assert forall|t: int| 0 <= t < visited.push(head).len() implies #[trigger] visited.push(
            head,
        )[t] < pages1.len() by {
            if t < visited.len() {
                assert(visited.push(head)[t] == visited[t]);
            } else {
                assert(visited.push(head)[t] == head);
            }
        }
        lemma_save_rows_chain(pages1, cols, rows.skip(k), None, pages_f, visited.push(head), (
        fuel - 1) as nat);
        // Gather the two parts.
        assert(crate::format::stored_rows(cols, chunk) + crate::format::stored_rows(
            cols,
            rows.skip(k),
        ) =~= crate::format::stored_rows(cols, rows)) by {
            assert forall|i: int| 0 <= i < rows.len() implies (crate::format::stored_rows(
                cols,
                chunk,
            ) + crate::format::stored_rows(cols, rows.skip(k)))[i]
                == crate::format::stored_rows(cols, rows)[i] by {
                if i < k {
                    assert(chunk[i] == rows[i]);
                } else {
                    assert(rows.skip(k)[i - k] == rows[i]);
                }
            }
        }
        assert(crate::format::dec_rows_chain(
            pages_f,
            cols.len() as int,
            head,
            visited,
            fuel,
        ) == Ok::<Seq<Seq<Seq<char>>>, ()>(crate::format::stored_rows(cols, rows)));
    }
}

/// A row-chain rewrite never lays down more pages than it grew the image
/// by, plus the head.
pub proof fn lemma_chain_pages_bound(pages: Seq<Seq<u8>>, cols: Seq<ColumnV>,
    rows: Seq<Seq<Seq<char>>>, start: Option<u64>)
    requires
        spec_save_rows(pages, cols, rows, start) is Some,
    ensures
        chain_pages(cols, rows) <= spec_save_rows(pages, cols, rows, start)->Some_0.0.len()
            - pages.len() + (if start is Some {
            1int
        } else {
            0int
        }),
        spec_save_rows(pages, cols, rows, start)->Some_0.0.len() >= pages.len(),
    decreases rows.len(),
{
    let pages1 = if start is Some {
        pages
    } else {
        pages + seq![zero_page()]
    };
    let head = if start is Some {
        start->Some_0
    } else {
        pages.len() as u64
    };
    let f = crate::format::fit_count(cols, rows, 4) as int;
    let k = if f > rows.len() {
        rows.len() as int
    } else {
        f
    };
    if k == rows.len() {
        let data = crate::format::pad_page(crate::format::enc_row_page(cols, rows, 0));
        lemma_store_write_read(pages1, head, data);
    } else {
        let rec = spec_save_rows(pages1, cols, rows.skip(k), None)->Some_0;
        lemma_chain_pages_bound(pages1, cols, rows.skip(k), None);
        let data = crate::format::pad_page(crate::format::enc_row_page(cols, rows.take(k),
            rec.1));
        lemma_store_write_read(rec.0, head, data);
    }
}

/// The rows round trip, stated for the rewrite itself: loading the chain a
/// rewrite put down, from its head, yields exactly the stored forms of the
/// rows that were written — integers in canonical decimal form, text
/// verbatim, empty values as NULL.
pub proof fn lemma_rows_roundtrip(pages: Seq<Seq<u8>>, cols: Seq<ColumnV>,
    rows: Seq<Seq<Seq<char>>>, start: Option<u64>)
    requires
        spec_save_rows(pages, cols, rows, start) is Some,
        forall|i: int| 0 <= i < rows.len() ==> (#[trigger] rows[i]).len() == cols.len(),
        rows.len() <= u32::MAX,
        pages.len() + rows.len() + 1 <= u64::MAX,
        start matches Some(h) ==> h < pages.len(),
    ensures
        ({
            let r = spec_save_rows(pages, cols, rows, start)->Some_0;
            crate::format::dec_rows_chain(
                r.0,
                cols.len() as int,
                r.1,
                Seq::empty(),
                (r.0.len() + 1) as nat,
            ) == Ok::<Seq<Seq<Seq<char>>>, ()>(crate::format::stored_rows(cols, rows))
        }),
{
    let r = spec_save_rows(pages, cols, rows, start)->Some_0;
    lemma_chain_pages_bound(pages, cols, rows, start);
    assert(chain_pages(cols, rows) + 1 <= r.0.len() + 1) by {
        if start is Some {
            assert(pages.len() >= 1);
        }
    }
    lemma_save_rows_chain(pages, cols, rows, start, r.0, Seq::empty(), (r.0.len() + 1) as nat);
}

/// The schema round trip through the whole pipeline: creating a table in a
/// freshly formatted database and loading the catalog back yields exactly
/// that table — same name, same columns in order, and its rows in their
/// stored forms.
pub proof fn lemma_create_table_roundtrip(t: crate::engine::TableV)
    requires
        spec_save_table(seq![header_page(0, 0)], t, true) is Ok,
        1 <= vstd::utf8::encode_utf8(t.name).len() <= 255,
        t.columns.len() <= u32::MAX,
        t.rows.len() <= u32::MAX,
        forall|i: int| 0 <= i < t.rows.len() ==> (#[trigger] t.rows[i]).len()
            == t.columns.len(),
    ensures
        ({
            let p = spec_save_table(seq![header_page(0, 0)], t, true)->Ok_0;
            spec_load_result(p) == Ok::<Seq<crate::engine::TableV>, ()>(
                seq![
                    crate::engine::TableV {
                        name: t.name,
                        columns: t.columns,
                        rows: crate::format::stored_rows(t.columns, t.rows),
                    },
                ],
            )
        }),
        ({
            // The stored count agrees with what the schema chain reaches.
            let p = spec_save_table(seq![header_page(0, 0)], t, true)->Ok_0;
            let h = page_at(p, 0);
            &&& header_table_count(h) == 1
            &&& crate::format::load_tables(p, header_schema_root(h), 1, Seq::empty())
                matches Ok(ts) && ts.len() == 1
        }),
{
    vstd::bytes::lemma_auto_spec_u32_to_from_le_bytes();
    vstd::bytes::lemma_auto_spec_u64_to_from_le_bytes();
    let hp = header_page(0, 0);
    let pages = seq![hp];
    crate::format::lemma_header_fields(0, 0);
    assert(page_at(pages, 0) == hp);
    // The save succeeds, so no row overflows a page and the chain exists.
    assert(!(exists|i: int|
        0 <= i < t.rows.len() && crate::format::enc_row(t.columns, #[trigger] t.rows[i]).len()
            > PAGE_SIZE - 12));
    assert(forall|i: int|
        0 <= i < t.rows.len() ==> crate::format::enc_row(t.columns, #[trigger] t.rows[i]).len()
            <= PAGE_SIZE - 12);
    let s_id = 1u64;
    let pages1 = pages + seq![zero_page()];
    lemma_save_rows_total(pages1, t.columns, t.rows, None);
    let saved = spec_save_rows(pages1, t.columns, t.rows, None)->Some_0;
    let pages2 = saved.0;
    let dpid = saved.1;
    assert(dpid == 2);
    lemma_save_rows_frame(pages1, t.columns, t.rows, None);
    assert(pages2.len() >= pages1.len());
    assert(page_at(pages2, 0) == hp) by {
        assert(pages2[0] == pages1[0]);
        assert(pages1[0] == hp);
    }
    assert(page_at(pages2, 1) == zero_page()) by {
        assert(pages2[1] == pages1[1]);
        assert(pages1[1] == zero_page());
    }
    let body = crate::format::enc_schema(t.name, t.columns, dpid, 0);
    let root0 = header_schema_root(page_at(pages2, 0));
    assert(root0 == 0);
    let h3 = splice(hp, 12, enc_u64(s_id));
    let pages3 = store_write(pages2, 0, h3);
    lemma_store_write_read(pages2, 0, h3);
    let pages4 = store_write(pages3, s_id, crate::format::pad_page(body));
    lemma_store_write_read(pages3, s_id, crate::format::pad_page(body));
    let h4 = page_at(pages4, 0);
    assert(h4 == h3);
    crate::format::lemma_splice_frame(hp, 12, enc_u64(s_id), 20, 24);
    assert(header_table_count(h3) == 0);
    let h5 = splice(h4, 20, enc_u32(1));
    let p = store_write(pages4, 0, h5);
    lemma_store_write_read(pages4, 0, h5);
    assert(spec_save_table(pages, t, true) == Ok::<Seq<Seq<u8>>, DbError>(p));
    // What the final header reads back as.
    assert(h3.len() == PAGE_SIZE) by {
        crate::format::lemma_splice_read(hp, 12, enc_u64(s_id));
    }
    crate::format::lemma_splice_read(h4, 20, enc_u32(1));
    assert(header_table_count(h5) == 1) by {
        assert(h5.subrange(20, 24) == enc_u32(1));
    }
    crate::format::lemma_splice_frame(h4, 20, enc_u32(1), 12, 20);
    assert(header_schema_root(h5) == s_id) by {
        crate::format::lemma_splice_read(hp, 12, enc_u64(s_id));
        assert(h5.subrange(12, 20) == h4.subrange(12, 20));
        assert(h4.subrange(12, 20) == enc_u64(s_id));
    }
    assert(page_at(p, 0) == h5);
    // The schema page reads back as the table's description.
    crate::format::lemma_enc_schema_checked_indep(t.name, t.columns, 0, 0, dpid, 0);
    crate::format::lemma_schema_page_roundtrip(t.name, t.columns, dpid, 0);
    assert(page_at(p, s_id) == crate::format::pad_page(body)) by {
        assert(p == pages4.update(0, h5));
        assert(s_id < pages4.len());
    }
    assert(s_id < p.len());
    // The row chain reads back as the stored rows.
    lemma_chain_pages_bound(pages1, t.columns, t.rows, None);
    assert forall|q: u64| pages1.len() <= q < pages2.len() implies page_at(p, q) == page_at(
        pages2,
        q,
    ) by {
        assert(q != 0 && q != s_id);
        assert(page_at(pages3, q) == page_at(pages2, q)) by {
            assert(pages3 == pages2.update(0, h3));
        }
        assert(page_at(pages4, q) == page_at(pages3, q)) by {
            assert(pages4 == pages3.update(s_id as int, crate::format::pad_page(body)));
        }
        assert(p == pages4.update(0, h5));
    }
    assert(page_at(p, dpid) == page_at(pages2, dpid)) by {
        assert(pages1.len() <= dpid < pages2.len());
    }
    assert(p.len() == pages2.len());
    lemma_save_rows_chain(pages1, t.columns, t.rows, None, p, Seq::empty(), (p.len()
        + 1) as nat);
    // One step of the catalog walk finds the table; the chain ends there.
    let s = crate::format::SchemaV { name: t.name, cols: t.columns, data_page_id: dpid,
        next_page_id: 0 };
    assert(crate::format::dec_schema(page_at(p, s_id)) == Ok::<
        Option<crate::format::SchemaV>,
        (),
    >(Some(s)));
    let tv = crate::engine::TableV {
        name: t.name,
        columns: t.columns,
        rows: crate::format::stored_rows(t.columns, t.rows),
    };
    assert(crate::format::table_rows(p, s) == Ok::<Seq<Seq<Seq<char>>>, ()>(tv.rows));
    assert(crate::format::spec_read_table(p, s_id) == Ok::<
        Option<(crate::engine::TableV, u64)>,
        (),
    >(Some((tv, 0))));
    assert(crate::format::load_tables(p, 0, 0, Seq::empty().push(s_id)) == Ok::<
        Seq<crate::engine::TableV>,
        (),
    >(Seq::empty()));
    assert(crate::format::load_tables(p, s_id, 1, Seq::empty()) == Ok::<
        Seq<crate::engine::TableV>,
        (),
    >(seq![tv] + Seq::empty()));
    assert(seq![tv] + Seq::<crate::engine::TableV>::empty() =~= seq![tv]);
    // A single table needs no case-folded dropping.
    let ts = seq![tv];
    assert(crate::format::dedup_ci(ts) =~= ts) by {
        assert(ts.drop_last() =~= Seq::<crate::engine::TableV>::empty());
        assert(crate::format::dedup_ci(Seq::<crate::engine::TableV>::empty()) =~= Seq::<
            crate::engine::TableV,
        >::empty());
        assert(!crate::format::contains_name_ci(
            Seq::<crate::engine::TableV>::empty(),
            tv.name,
        ));
        assert(Seq::<crate::engine::TableV>::empty().push(tv) =~= ts);
    }
}

/// The rows round trip through a rewrite of a stored table: after its row
/// chain is rewritten and its schema page repointed, reading that schema
/// page back yields the same table description with exactly the rewritten
/// rows in their stored forms.
pub proof fn lemma_update_rows_roundtrip(pages: Seq<Seq<u8>>, t: crate::engine::TableV,
    spid: u64)
    requires
        image_wf(pages),
        dec_schema(page_at(pages, spid)) matches Ok(Some(s)) && s.cols == t.columns,
        spid < pages.len(),
        forall|i: int| 0 <= i < t.rows.len() ==> (#[trigger] t.rows[i]).len()
            == t.columns.len(),
        forall|i: int|
            0 <= i < t.rows.len() ==> crate::format::enc_row(
                t.columns,
                #[trigger] t.rows[i],
            ).len() <= PAGE_SIZE - 12,
        t.rows.len() <= u32::MAX,
        pages.len() + t.rows.len() + 1 <= u64::MAX,
        ({
            let d = page_at(pages, spid);
            let existing = read_u64_at(d, crate::format::schema_data_pid_off(d));
            existing == 0 || (existing < pages.len() && existing != spid)
        }),
    ensures
        ({
            let s = dec_schema(page_at(pages, spid))->Ok_0->Some_0;
            let d = page_at(pages, spid);
            let off = crate::format::schema_data_pid_off(d);
            let existing = read_u64_at(d, off);
            let saved = spec_save_rows(pages, t.columns, t.rows, if existing > 0 {
                Some(existing)
            } else {
                None
            })->Some_0;
            let p = store_write(saved.0, spid, splice(d, off, enc_u64(saved.1)));
            crate::format::spec_read_table(p, spid) == Ok::<
                Option<(crate::engine::TableV, u64)>,
                (),
            >(
                Some(
                    (
                        crate::engine::TableV {
                            name: s.name,
                            columns: s.cols,
                            rows: crate::format::stored_rows(t.columns, t.rows),
                        },
                        s.next_page_id,
                    ),
                ),
            )
        }),
{
    vstd::bytes::lemma_auto_spec_u64_to_from_le_bytes();
    let s = dec_schema(page_at(pages, spid))->Ok_0->Some_0;
    let d = page_at(pages, spid);
    let off = crate::format::schema_data_pid_off(d);
    let existing = read_u64_at(d, off);
    let start: Option<u64> = if existing > 0 {
        Some(existing)
    } else {
        None
    };
    lemma_save_rows_total(pages, t.columns, t.rows, start);
    let saved = spec_save_rows(pages, t.columns, t.rows, start)->Some_0;
    let pages2 = saved.0;
    let head = saved.1;
    lemma_save_rows_frame(pages, t.columns, t.rows, start);
    assert(pages2.len() >= pages.len());
    let patched = splice(d, off, enc_u64(head));
    let p = store_write(pages2, spid, patched);
    lemma_store_write_read(pages2, spid, patched);
    assert(p.len() == pages2.len());
    assert(page_at(p, spid) == patched);
    // The schema page still describes the same table, repointed.
    assert(d.len() == PAGE_SIZE) by {
        assert(page_at(pages, spid) == pages[spid as int]);
    }
    crate::format::lemma_dec_schema_dpid_splice(d, head);
    assert(dec_schema(patched) == Ok::<Option<crate::format::SchemaV>, ()>(
        Some(
            crate::format::SchemaV {
                name: s.name,
                cols: s.cols,
                data_page_id: head,
                next_page_id: s.next_page_id,
            },
        ),
    ));
    // The rewritten chain reads back from the final image.
    assert(head != spid) by {
        if start is None {
            assert(head == pages.len() as u64);
        }
    }
    assert(head > 0) by {
        if start is None {
            assert(head == pages.len() as u64);
            assert(pages.len() >= 1);
        }
    }
    assert(page_at(p, head) == page_at(pages2, head)) by {
        assert(p == pages2.update(spid as int, patched));
    }
    assert forall|q: u64| pages.len() <= q < pages2.len() implies page_at(p, q) == page_at(
        pages2,
        q,
    ) by {
        assert(q != spid);
        assert(p == pages2.update(spid as int, patched));
    }
    lemma_chain_pages_bound(pages, t.columns, t.rows, start);
    assert(chain_pages(t.columns, t.rows) + 1 <= p.len() + 1) by {
        assert(pages.len() >= 1);
    }
    lemma_save_rows_chain(pages, t.columns, t.rows, start, p, Seq::empty(), (p.len()
        + 1) as nat);
    assert(crate::format::table_rows(
        p,
        crate::format::SchemaV {
            name: s.name,
            cols: s.cols,
            data_page_id: head,
            next_page_id: s.next_page_id,
        },
    ) == Ok::<Seq<Seq<Seq<char>>>, ()>(crate::format::stored_rows(t.columns, t.rows)));
}

/// Loading is idempotent: the catalog read from a repaired image is the
/// catalog that was read from the original image, so two loads in a row
/// with no mutation in between agree on every table and every row.
pub proof fn lemma_load_idempotent(pages: Seq<Seq<u8>>)
    requires
        image_wf(pages),
        pages.len() >= 1,
    ensures
        spec_load_result(spec_load_repair(pages)) == spec_load_result(pages),
{
    vstd::bytes::lemma_auto_spec_u32_to_from_le_bytes();
    vstd::bytes::lemma_auto_spec_u64_to_from_le_bytes();
    let h = page_at(pages, 0);
    let root = header_schema_root(h);
    let cnt = header_table_count(h);
    assert(h.len() == PAGE_SIZE);
    if cnt == 0 {
        if root != 0 {
            let h2 = splice(h, 12, enc_u64(0));
            let pages2 = store_write(pages, 0, h2);
            assert(pages2 == pages.update(0, h2));
            assert(page_at(pages2, 0) == h2);
            crate::format::lemma_splice_frame(h, 12, enc_u64(0), 20, 24);
            assert(header_table_count(h2) == cnt);
        }
    } else if root == 0 {
        let h2 = splice(h, 20, enc_u32(0));
        let pages2 = store_write(pages, 0, h2);
        assert(pages2 == pages.update(0, h2));
        assert(page_at(pages2, 0) == h2);
        crate::format::lemma_splice_read(h, 20, enc_u32(0));
        assert(h2.subrange(20, 24) == enc_u32(0));
        assert(header_table_count(h2) == 0);
    } else {
        match crate::format::load_tables(pages, root, cnt as int, Seq::empty()) {
            Err(_) => {},
            Ok(ts) => {
                if ts.len() != cnt {
                    crate::format::lemma_load_tables_len(pages, root, cnt as int, Seq::empty());
                    let h2 = splice(h, 20, enc_u32(ts.len() as u32));
                    let pages2 = store_write(pages, 0, h2);
                    assert(pages2 == pages.update(0, h2));
                    assert(page_at(pages2, 0) == h2);
                    crate::format::lemma_splice_read(h, 20, enc_u32(ts.len() as u32));
                    assert(h2.subrange(20, 24) == enc_u32(ts.len() as u32));
                    assert(header_table_count(h2) == ts.len() as u32);
                    crate::format::lemma_splice_frame(h, 20, enc_u32(ts.len() as u32), 12, 20);
                    assert(header_schema_root(h2) == root);
                    assert(forall|q: int| 1 <= q < pages.len() ==> pages2[q] == pages[q]);
                    crate::format::lemma_load_tables_header_frame(pages2, pages, root,
                        ts.len() as int, Seq::empty());
                    if ts.len() == 0 {
                        assert(crate::format::dedup_ci(ts) =~= Seq::<
                            crate::engine::TableV,
                        >::empty());
                        assert(spec_load_result(pages2) == Ok::<
                            Seq<crate::engine::TableV>,
                            (),
                        >(Seq::empty()));
                    } else {
                        crate::format::lemma_load_tables_shrink(pages, root, cnt as int,
                            ts.len() as int, Seq::empty());
                        assert(crate::format::load_tables(pages2, root, ts.len() as int,
                            Seq::empty()) == Ok::<Seq<crate::engine::TableV>, ()>(ts));
                    }
                }
            },
        }
    }
}

/// Builds a header page with the given schema root and table count.
pub fn build_header_page(schema_root: u64, table_count: u32) -> (r: Page)
    ensures
        r.id == 0,
        r.wf(),
        r.data@ == header_page(schema_root, table_count),
{
    let mut buf: Vec<u8> = Vec::new();
    put_u64(&mut buf, MAGIC_NUMBER);
    put_u32(&mut buf, DB_VERSION);
    put_u64(&mut buf, schema_root);
    put_u32(&mut buf, table_count);
    pad_to_page(&mut buf);
    Page { id: 0, data: buf }
}

} // verus!
