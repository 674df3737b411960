//! The binary layout of the index file and of the identifier counter.
//!
//! Index file: `[magic:4][version:u32 LE][dim:u32 LE]`, then records
//! `[id:u64 LE][dim x component:u32 LE]`. A vector component is carried as
//! the bit pattern of its single-precision value, so that storing and
//! reading it back is exact. Counter file: `[next_id:u64 LE]`.
use crate::le::{
    lemma_u32_le_round_trip, lemma_u64_le_round_trip, read_u32_le, read_u64_le, u32_from_le,
    u32_le, u64_from_le, u64_le, write_u32_le, write_u64_le,
};
use vstd::arithmetic::div_mod::lemma_fundamental_div_mod_converse;
use vstd::prelude::*;
use vstd::slice::slice_subrange;

verus! {

/// Why a file or an argument was refused.
#[derive(Debug, Clone, Copy, PartialEq, Eq, Structural)]
pub enum IndexError {
    /// Bad magic tag, a header shorter than its fixed size, or a record cut
    /// short at the end of the file.
    Format,
    /// The header names a format version other than the supported one.
    Version,
    /// A vector, a query or an existing file has another dimension than the
    /// one asked for.
    DimensionMismatch,
}

/// Size of the fixed header in bytes.
pub const HEADER_LEN: usize = 12;

/// The only format version this library reads and writes.
pub const FORMAT_VERSION: u32 = 1;

/// The four bytes that open every index file: "RVIX".
pub open spec fn magic() -> Seq<u8> {
    seq![0x52u8, 0x56u8, 0x49u8, 0x58u8]
}

/// The header of an index file of dimension `dim`.
pub open spec fn header_bytes(dim: u32) -> Seq<u8> {
    magic() + u32_le(FORMAT_VERSION) + u32_le(dim)
}

/// The error that opening a file whose contents are `file` with dimension
/// `dim` meets at the header, if any.
pub open spec fn header_error(file: Seq<u8>, dim: nat) -> Option<IndexError> {
    if file.len() < HEADER_LEN || file.take(4) != magic() {
        Some(IndexError::Format)
    } else if u32_from_le(file.subrange(4, 8)) != FORMAT_VERSION {
        Some(IndexError::Version)
    } else if u32_from_le(file.subrange(8, 12)) as nat != dim {
        Some(IndexError::DimensionMismatch)
    } else {
        None
    }
}

/// Size in bytes of one record of dimension `dim`.
pub open spec fn record_len(dim: nat) -> nat {
    8 + 4 * dim
}

/// The components of `v`, four little-endian bytes each, in order.
pub open spec fn vector_bytes(v: Seq<u32>) -> Seq<u8>
    decreases v.len(),
{
    if v.len() == 0 {
        Seq::empty()
    } else {
        vector_bytes(v.drop_last()) + u32_le(v.last())
    }
}

/// The bytes of one record.
pub open spec fn record_bytes(id: u64, v: Seq<u32>) -> Seq<u8> {
    u64_le(id) + vector_bytes(v)
}

/// The record held by the `record_len(dim)` bytes `b`.
pub open spec fn decode_record(b: Seq<u8>, dim: nat) -> (u64, Seq<u32>) {
    (u64_from_le(b), Seq::new(dim, |j: int| u32_from_le(b.subrange(8 + 4 * j, 12 + 4 * j))))
}

/// The records held by the record stream `b`, in file order (meaningful
/// where `b.len()` is a multiple of `record_len(dim)`).
pub open spec fn decode_body(b: Seq<u8>, dim: nat) -> Seq<(u64, Seq<u32>)>
    decreases b.len(),
{
    if b.len() < record_len(dim) {
        Seq::empty()
    } else {
        let n = b.len() - record_len(dim);
        decode_body(b.take(n), dim).push(decode_record(b.skip(n), dim))
    }
}

/// One stored record: its identifier and the bit patterns of its components.
#[derive(Debug, Clone, PartialEq, Eq)]
pub struct Record {
    pub id: u64,
    pub vector: Vec<u32>,
}

impl View for Record {
    type V = (u64, Seq<u32>);

    open spec fn view(&self) -> (u64, Seq<u32>) {
        (self.id, self.vector@)
    }
}

/// The views of a sequence of records.
pub open spec fn records_view(r: Seq<Record>) -> Seq<(u64, Seq<u32>)> {
    r.map_values(|x: Record| x@)
}

/// The encoding of `v` has four bytes per component, and its `j`-th four
/// bytes encode `v[j]`.
pub proof fn lemma_vector_bytes(v: Seq<u32>)
    ensures
        vector_bytes(v).len() == 4 * v.len(),
        forall|j: int|
            0 <= j < v.len() ==> #[trigger] vector_bytes(v).subrange(4 * j, 4 * j + 4) == u32_le(
                v[j],
            ),
    decreases v.len(),
{
    if v.len() > 0 {
        let p = v.drop_last();
        lemma_vector_bytes(p);
        let b = vector_bytes(v);
        assert(b == vector_bytes(p) + u32_le(v.last()));
        assert forall|j: int| 0 <= j < v.len() implies #[trigger] b.subrange(4 * j, 4 * j + 4)
            == u32_le(v[j]) by {
            if j < v.len() - 1 {
                assert(b.subrange(4 * j, 4 * j + 4) =~= vector_bytes(p).subrange(4 * j, 4 * j + 4));
                assert(p[j] == v[j]);
            } else {
                assert(b.subrange(4 * j, 4 * j + 4) =~= u32_le(v.last()));
            }
        }
    }
}

/// Decoding the bytes of a record gives the record back.
pub proof fn lemma_record_round_trip(id: u64, v: Seq<u32>)
    ensures
        record_bytes(id, v).len() == record_len(v.len()),
        decode_record(record_bytes(id, v), v.len()) == (id, v),
{
    let b = record_bytes(id, v);
    lemma_vector_bytes(v);
    lemma_u64_le_round_trip(id, vector_bytes(v));
    let d = decode_record(b, v.len());
    assert forall|j: int| 0 <= j < v.len() implies d.1[j] == v[j] by {
        let s = b.subrange(8 + 4 * j, 12 + 4 * j);
        assert(s =~= vector_bytes(v).subrange(4 * j, 4 * j + 4));
        lemma_u32_le_round_trip(v[j], Seq::empty());
        assert(u32_le(v[j]) + Seq::<u8>::empty() =~= u32_le(v[j]));
    }
    assert(d.1 =~= v);
}

/// A record stream followed by one more whole record decodes to the records
/// of the stream followed by that record.
pub proof fn lemma_decode_body_push(b: Seq<u8>, r: Seq<u8>, dim: nat)
    requires
        r.len() == record_len(dim),
    ensures
        decode_body(b + r, dim) == decode_body(b, dim).push(decode_record(r, dim)),
{
    let c = b + r;
    assert(c.take(b.len() as int) =~= b);
    assert(c.skip(b.len() as int) =~= r);
}

/// The header bytes for dimension `dim`.
pub fn encode_header(dim: u32) -> (r: Vec<u8>)
    ensures
        r@ == header_bytes(dim),
{
    let mut out: Vec<u8> = vec![0x52u8, 0x56u8, 0x49u8, 0x58u8];
    let mut v = write_u32_le(FORMAT_VERSION);
    out.append(&mut v);
    let mut d = write_u32_le(dim);
    out.append(&mut d);
    assert(out@ =~= header_bytes(dim));
    out
}

/// Checks the header at the start of `file` against the dimension `dim`.
pub fn check_header(file: &[u8], dim: usize) -> (r: Result<(), IndexError>)
    ensures
        r is Ok <==> header_error(file@, dim as nat) is None,
        r matches Err(e) ==> header_error(file@, dim as nat) == Some(e),
{
    if file.len() < HEADER_LEN {
        return Err(IndexError::Format);
    }
    if file[0] != 0x52u8 || file[1] != 0x56u8 || file[2] != 0x49u8 || file[3] != 0x58u8 {
        assert(file@.take(4) != magic()) by {
            if file@.take(4) == magic() {
                assert(file@.take(4)[0] == file@[0]);
                assert(file@.take(4)[1] == file@[1]);
                assert(file@.take(4)[2] == file@[2]);
                assert(file@.take(4)[3] == file@[3]);
            }
        }
        return Err(IndexError::Format);
    }
    assert(file@.take(4) =~= magic());
    let version = read_u32_le(slice_subrange(file, 4, 8));
    if version != FORMAT_VERSION {
        return Err(IndexError::Version);
    }
    let file_dim = read_u32_le(slice_subrange(file, 8, 12));
    if file_dim as usize != dim {
        return Err(IndexError::DimensionMismatch);
    }
    Ok(())
}

/// The bytes of the record `(id, vector)`.
pub fn encode_record(id: u64, vector: &[u32]) -> (r: Vec<u8>)
    ensures
        r@ == record_bytes(id, vector@),
{
    let mut out = write_u64_le(id);
    let mut j: usize = 0;
    while j < vector.len()
        invariant
            j <= vector@.len(),
            out@ == u64_le(id) + vector_bytes(vector@.take(j as int)),
        decreases vector.len() - j,
    {
        let mut c = write_u32_le(vector[j]);
        out.append(&mut c);
        proof {
            let t = vector@.take(j + 1);
            assert(t.drop_last() =~= vector@.take(j as int));
            assert(vector_bytes(t) == vector_bytes(t.drop_last()) + u32_le(t.last()));
            assert(out@ =~= u64_le(id) + vector_bytes(t));
        }
        j = j + 1;
    }
    assert(vector@.take(j as int) =~= vector@);
    out
}

/// The size of a record of dimension `dim`, where it fits in `usize`.
fn record_size(dim: usize) -> (r: Option<usize>)
    ensures
        r matches Some(n) ==> n == record_len(dim as nat),
        r is None ==> record_len(dim as nat) > usize::MAX,
{
    match dim.checked_mul(4) {
        Some(m) => m.checked_add(8),
        None => None,
    }
}

/// Reads the `dim` components of the record that starts at `off`.
fn decode_vector(body: &[u8], off: usize, dim: usize) -> (r: Vec<u32>)
    requires
        off + record_len(dim as nat) <= body@.len(),
    ensures
        r@ == decode_record(body@.subrange(off as int, off + record_len(dim as nat)), dim as nat).1,
{
    let ghost chunk = body@.subrange(off as int, off + record_len(dim as nat));
    let len = body.len();
    let mut v: Vec<u32> = Vec::new();
    let mut j: usize = 0;
    let mut p: usize = off + 8;
    while j < dim
        invariant
            off + record_len(dim as nat) <= body@.len(),
            len == body@.len(),
            chunk == body@.subrange(off as int, off + record_len(dim as nat)),
            j <= dim,
            p == off + 8 + 4 * j,
            v@ == decode_record(chunk, dim as nat).1.take(j as int),
        decreases dim - j,
    {
        let c = read_u32_le(slice_subrange(body, p, p + 4));
        proof {
            assert(body@.subrange(p as int, p + 4) =~= chunk.subrange(8 + 4 * j, 12 + 4 * j));
        }
        v.push(c);
        proof {
            assert(v@ =~= decode_record(chunk, dim as nat).1.take(j + 1));
        }
        j = j + 1;
        p = p + 4;
    }
    assert(v@ =~= decode_record(chunk, dim as nat).1);
    v
}

/// Decodes the record stream `body` (the file after its header). It
/// succeeds exactly when `body` is a whole number of records.
pub fn decode_records(body: &[u8], dim: usize) -> (r: Result<Vec<Record>, IndexError>)
    ensures
        r is Ok <==> body@.len() % record_len(dim as nat) == 0,
        r matches Ok(recs) ==> records_view(recs@) == decode_body(body@, dim as nat),
        r matches Err(e) ==> e == IndexError::Format,
{
    let ghost rl = record_len(dim as nat);
    let size = match record_size(dim) {
        Some(n) => n,
        None => {
            if body.len() == 0 {
                assert(body@.len() % rl == 0);
                assert(decode_body(body@, dim as nat) =~= Seq::empty());
                return Ok(Vec::new());
            }
            assert(body@.len() % rl == body@.len()) by {
                lemma_fundamental_div_mod_converse(body@.len() as int, rl as int, 0, body@.len() as int);
            }
            return Err(IndexError::Format);
        },
    };
    let mut out: Vec<Record> = Vec::new();
    let mut off: usize = 0;
    let ghost mut count: int = 0;
    while body.len() - off >= size
        invariant
            size == rl,
            rl == record_len(dim as nat),
            off <= body@.len(),
            off == count * rl,
            records_view(out@) == decode_body(body@.take(off as int), dim as nat),
        decreases body.len() - off,
    {
        let id = read_u64_le(slice_subrange(body, off, off + size));
        let vector = decode_vector(body, off, dim);
        let rec = Record { id, vector };
        proof {
            let t = body@.take(off + rl);
            let chunk = body@.subrange(off as int, off + rl);
            assert(t.take(off as int) =~= body@.take(off as int));
            assert(t.skip(off as int) =~= chunk);
            assert(decode_body(t, dim as nat) == decode_body(t.take(off as int), dim as nat).push(
                decode_record(t.skip(off as int), dim as nat),
            ));
            assert(rec@ == decode_record(chunk, dim as nat));
        }
        out.push(rec);
        proof {
            assert(records_view(out@) =~= decode_body(body@.take(off + rl), dim as nat));
            assert((count + 1) * rl == count * rl + rl) by (nonlinear_arith);
            count = count + 1;
        }
        off = off + size;
    }
    let ghost rest = body@.len() - off;
    proof {
        lemma_fundamental_div_mod_converse(body@.len() as int, rl as int, count, rest);
    }
    if off != body.len() {
        return Err(IndexError::Format);
    }
    assert(body@.take(off as int) =~= body@);
    Ok(out)
}

/// Counts the records of the record stream `body` without keeping them.
/// It fails exactly when the stream ends inside a record.
pub fn count_records(body: &[u8], dim: usize) -> (r: Result<u64, IndexError>)
    ensures
        r is Ok <==> body@.len() % record_len(dim as nat) == 0,
        r matches Ok(n) ==> n == body@.len() / record_len(dim as nat) && n == decode_body(
            body@,
            dim as nat,
        ).len() && 8 * n <= body@.len(),
        r matches Err(e) ==> e == IndexError::Format,
{
    let ghost rl = record_len(dim as nat);
    let size = match record_size(dim) {
        Some(n) => n,
        None => {
            if body.len() == 0 {
                proof {
                    lemma_fundamental_div_mod_converse(0, rl as int, 0, 0);
                }
                assert(decode_body(body@, dim as nat) =~= Seq::empty());
                return Ok(0);
            }
            assert(body@.len() % rl == body@.len()) by {
                lemma_fundamental_div_mod_converse(body@.len() as int, rl as int, 0, body@.len() as int);
            }
            return Err(IndexError::Format);
        },
    };
    let mut count: u64 = 0;
    let mut off: usize = 0;
    while body.len() - off >= size
        invariant
            size == rl,
            rl == record_len(dim as nat),
            off <= body@.len(),
            off == count * rl,
            8 * count <= off,
            count == decode_body(body@.take(off as int), dim as nat).len(),
        decreases body.len() - off,
    {
        proof {
            let t = body@.take(off + rl);
            assert(t.take(off as int) =~= body@.take(off as int));
            assert(decode_body(t, dim as nat) == decode_body(t.take(off as int), dim as nat).push(
                decode_record(t.skip(off as int), dim as nat),
            ));
            assert((count + 1) * rl == count * rl + rl) by (nonlinear_arith);
        }
        count = count + 1;
        off = off + size;
    }
    proof {
        lemma_fundamental_div_mod_converse(body@.len() as int, rl as int, count as int, body@.len() - off);
    }
    if off != body.len() {
        return Err(IndexError::Format);
    }
    assert(body@.take(off as int) =~= body@);
    Ok(count)
}

/// The bytes of a counter file holding `next_id`.
pub fn encode_next_id(next_id: u64) -> (r: Vec<u8>)
    ensures
        r@ == u64_le(next_id),
{
    write_u64_le(next_id)
}

/// Reads the next identifier from the contents of a counter file.
pub fn decode_next_id(counter: &[u8]) -> (r: Result<u64, IndexError>)
    ensures
        r is Ok <==> counter@.len() >= 8,
        r matches Ok(n) ==> n == u64_from_le(counter@),
        r matches Err(e) ==> e == IndexError::Format,
{
    if counter.len() < 8 {
        return Err(IndexError::Format);
    }
    Ok(read_u64_le(counter))
}

} // verus!
