//! Executable byte-level readers and writers for the page format.

use vstd::prelude::*;
use vstd::bytes::{u32_from_le_bytes, u32_to_le_bytes, u64_from_le_bytes, u64_to_le_bytes};
use vstd::slice::{slice_subrange, slice_to_vec};
use vstd::utf8::encode_utf8_decode_utf8;
use crate::storage::PAGE_SIZE;
use crate::format::{dec_str_at, enc_u32, enc_u64, pad_page, read_u32_at, read_u64_at, splice};
use crate::errors::DbError;
use crate::text::bytes_to_string;

verus! {

/// Reads the little-endian `u32` at `off`.
pub fn read_u32(d: &Vec<u8>, off: usize) -> (r: u32)
    requires
        off + 4 <= d@.len(),
        d@.len() <= PAGE_SIZE,
    ensures
        r == read_u32_at(d@, off as int),
{
    u32_from_le_bytes(slice_subrange(d.as_slice(), off, off + 4))
}

/// Reads the little-endian `u64` at `off`.
pub fn read_u64(d: &Vec<u8>, off: usize) -> (r: u64)
    requires
        off + 8 <= d@.len(),
        d@.len() <= PAGE_SIZE,
    ensures
        r == read_u64_at(d@, off as int),
{
    u64_from_le_bytes(slice_subrange(d.as_slice(), off, off + 8))
}

/// Appends the little-endian bytes of a `u32`.
pub fn put_u32(buf: &mut Vec<u8>, v: u32)
    ensures
        final(buf)@ == old(buf)@ + enc_u32(v),
        final(buf)@.len() == old(buf)@.len() + 4,
{
    let mut b = u32_to_le_bytes(v);
    buf.append(&mut b);
}

/// Appends the little-endian bytes of a `u64`.
pub fn put_u64(buf: &mut Vec<u8>, v: u64)
    ensures
        final(buf)@ == old(buf)@ + enc_u64(v),
        final(buf)@.len() == old(buf)@.len() + 8,
{
    let mut b = u64_to_le_bytes(v);
    buf.append(&mut b);
}

/// Appends a copy of the given bytes.
pub fn put_bytes(buf: &mut Vec<u8>, src: &Vec<u8>)
    ensures
        final(buf)@ == old(buf)@ + src@,
{
    let mut i: usize = 0;
    while i < src.len()
        invariant
            i <= src@.len(),
            buf@ =~= old(buf)@ + src@.take(i as int),
        decreases src@.len() - i,
    {
        buf.push(src[i]);
        proof {
            assert(buf@ =~= old(buf)@ + src@.take(i + 1 as int));
        }
        i += 1;
    }
    proof {
        assert(buf@ =~= old(buf)@ + src@);
    }
}

/// Overwrites the bytes at `off` with `src`.
pub fn splice_bytes(d: &mut Vec<u8>, off: usize, src: &Vec<u8>)
    requires
        off + src@.len() <= old(d)@.len(),
    ensures
        final(d)@ == splice(old(d)@, off as int, src@),
        final(d)@.len() == old(d)@.len(),
{
    let dlen = d.len();
    let mut i: usize = 0;
    while i < src.len()
        invariant
            i <= src@.len(),
            off + src@.len() <= d@.len(),
            d@.len() == dlen,
            d@.len() == old(d)@.len(),
            forall|j: int| 0 <= j < off ==> d@[j] == old(d)@[j],
            forall|j: int| 0 <= j < i ==> d@[off + j] == src@[j],
            forall|j: int| off + src@.len() <= j < d@.len() ==> d@[j] == old(d)@[j],
            forall|j: int| off + i <= j < d@.len() ==> d@[j] == old(d)@[j],
        decreases src@.len() - i,
    {
        d.set(off + i, src[i]);
        i += 1;
    }
    proof {
        assert(d@ =~= splice(old(d)@, off as int, src@));
    }
}

/// Pads the buffer with zeros to a whole page.
pub fn pad_to_page(buf: &mut Vec<u8>)
    requires
        old(buf)@.len() <= PAGE_SIZE,
    ensures
        final(buf)@ == pad_page(old(buf)@),
        final(buf)@.len() == PAGE_SIZE,
{
    while buf.len() < PAGE_SIZE
        invariant
            old(buf)@.len() <= buf@.len() <= PAGE_SIZE,
            buf@ =~= old(buf)@ + Seq::new((buf@.len() - old(buf)@.len()) as nat, |i: int| 0u8),
        decreases PAGE_SIZE - buf@.len(),
    {
        let ghost prev = buf@;
        buf.push(0u8);
        proof {
            assert(buf@ =~= prev + seq![0u8]);
            assert(buf@ =~= old(buf)@ + Seq::new((buf@.len() - old(buf)@.len()) as nat,
                |i: int| 0u8));
        }
    }
    proof {
        assert(buf@ =~= pad_page(old(buf)@));
    }
}

/// Reads the length-prefixed UTF-8 string at `off`. Returns the string and
/// the offset just past it; `Ok(None)` where the bounds fail, and
/// `Err(BadEncoding)` where the bytes are not valid UTF-8.
pub fn read_lp_str(d: &Vec<u8>, off: usize) -> (r: Result<Option<(String, usize)>, DbError>)
    requires
        off <= d@.len(),
        d@.len() <= PAGE_SIZE,
    ensures
        match dec_str_at(d@, off as int) {
            Err(_) => r matches Err(e) && e matches DbError::BadEncoding,
            Ok(None) => r matches Ok(None),
            Ok(Some((s, o))) => r matches Ok(Some((rs, ro))) && rs@ == s && ro == o && o <= d@.len(),
        },
{
    if off + 4 > d.len() {
        return Ok(None);
    }
    let n64 = read_u32(d, off) as u64;
    if (off as u64) + 4 + n64 > d.len() as u64 {
        return Ok(None);
    }
    let n = n64 as usize;
    let bytes = slice_to_vec(slice_subrange(d.as_slice(), off + 4, off + 4 + n));
    proof {
        assert(bytes@ =~= d@.subrange(off + 4 as int, off + 4 + n as int));
    }
    match bytes_to_string(bytes) {
        Some(s) => {
            proof {
                encode_utf8_decode_utf8(s@);
            }
            Ok(Some((s, off + 4 + n)))
        },
        None => Err(DbError::BadEncoding),
    }
}

} // verus!
