//! The store handle and the decisions of opening, appending and searching.
//!
//! Reading and writing the two files is left to the caller: each operation
//! here takes the bytes it needs to look at and returns the bytes to write.
use crate::format::{
    HEADER_LEN, IndexError, Record, check_header, count_records, decode_body, decode_next_id,
    decode_records, encode_header, encode_next_id, encode_record, header_bytes, header_error,
    lemma_decode_body_push, lemma_record_round_trip, record_bytes, record_len, records_view,
};
use crate::topk::{best_of, min_nat, select_top_k, sorted_by_key};
use crate::le::{lemma_u64_le_round_trip, u64_from_le, u64_le};
use vstd::arithmetic::div_mod::lemma_mod_add_multiples_vanish;
use vstd::prelude::*;
use vstd::slice::slice_subrange;
use vstd::string::StringExecFns;

verus! {

/// A handle on an open index: the index file, its counter sidecar and the
/// dimension every vector must have.
#[derive(Debug, Clone)]
pub struct FlatIndex {
    index_path: String,
    meta_path: String,
    dim: usize,
}

/// What a handle stands for.
pub struct FlatIndexModel {
    pub index_path: Seq<char>,
    pub meta_path: Seq<char>,
    pub dim: nat,
}

impl View for FlatIndex {
    type V = FlatIndexModel;

    closed spec fn view(&self) -> FlatIndexModel {
        FlatIndexModel { index_path: self.index_path@, meta_path: self.meta_path@, dim: self.dim as nat }
    }
}

/// The result of opening: the handle and the files to write before using it.
pub struct Opened {
    pub index: FlatIndex,
    /// The header of a new index file, when none existed.
    pub header: Option<Vec<u8>>,
    /// New contents of the counter file, when it must be (re)written.
    pub counter: Option<Vec<u8>>,
}

/// The contents of an optional file write.
pub open spec fn write_view(w: Option<Vec<u8>>) -> Option<Seq<u8>> {
    match w {
        Some(b) => Some(b@),
        None => None,
    }
}

impl Opened {
    /// The header and counter writes that opening asks for.
    pub open spec fn writes(self) -> (Option<Seq<u8>>, Option<Seq<u8>>) {
        (write_view(self.header), write_view(self.counter))
    }
}

/// The result of an append: the identifier given out, the record to add at
/// the end of the index file (and flush) and then the new counter contents.
pub struct Appended {
    pub id: u64,
    pub record: Vec<u8>,
    pub counter: Vec<u8>,
}

/// The counter file of a fresh store.
pub open spec fn fresh_counter() -> Seq<u8> {
    u64_le(1)
}

/// The identifiers that `n` appends in a row give out, starting from the
/// counter contents `counter` (each append writes back the next value).
pub open spec fn appended_ids(counter: Seq<u8>, n: nat) -> Seq<u64>
    decreases n,
{
    if n == 0 {
        Seq::empty()
    } else {
        let id = u64_from_le(counter);
        seq![id] + appended_ids(u64_le((id + 1) as u64), (n - 1) as nat)
    }
}

/// The next identifier held by the contents of a counter file, if they
/// hold one.
pub open spec fn counter_value(counter: Seq<u8>) -> Option<u64> {
    if counter.len() >= 8 {
        Some(u64_from_le(counter))
    } else {
        None
    }
}

/// The records of an index file whose contents are `file`.
pub open spec fn file_records(file: Seq<u8>, dim: nat) -> Seq<(u64, Seq<u32>)> {
    decode_body(file.skip(HEADER_LEN as int), dim)
}

impl FlatIndex {
    /// Opens the index at `index_path` with dimension `dim`. `index_file` is
    /// the contents of that file, `None` if it does not exist;
    /// `counter_present` tells whether the counter sidecar exists.
    pub fn open_or_create(index_path: String, dim: usize, index_file: Option<&[u8]>, counter_present: bool) -> (r: Result<Opened, IndexError>)
        requires
            dim <= u32::MAX,
        ensures
            r matches Ok(o) ==> o.index@.dim == dim && o.index@.index_path == index_path@
                && o.index@.meta_path == index_path@ + ".meta"@,
            index_file is None ==> r is Ok && r->Ok_0.writes() == (
            Some(header_bytes(dim as u32)),
            Some(fresh_counter()),
            ),
            index_file matches Some(f) ==> match header_error(f@, dim as nat) {
                Some(e) => r == Err::<Opened, IndexError>(e),
                None => if counter_present {
                    r is Ok && r->Ok_0.writes() == (None::<Seq<u8>>, None::<Seq<u8>>)
                } else if (f@.len() - HEADER_LEN) % (record_len(dim as nat) as int) != 0 {
                    r == Err::<Opened, IndexError>(IndexError::Format)
                } else {
                    &&& r is Ok
                    &&& r->Ok_0.writes() == (
                        None::<Seq<u8>>,
                        Some(u64_le((file_records(f@, dim as nat).len() + 1) as u64)),
                    )
                    &&& file_records(f@, dim as nat).len() < u64::MAX
                },
            },
    {
        let meta_path = index_path.clone().concat(".meta");
        let index = FlatIndex { index_path, meta_path, dim };
        match index_file {
            None => {
                Ok(Opened { index, header: Some(encode_header(dim as u32)), counter: Some(encode_next_id(1)) })
            },
            Some(f) => {
                match check_header(f, dim) {
                    Err(e) => Err(e),
                    Ok(()) => {
                        if counter_present {
                            Ok(Opened { index, header: None, counter: None })
                        } else {
                            let body = slice_subrange(f, HEADER_LEN, f.len());
                            assert(body@ =~= f@.skip(HEADER_LEN as int));
                            match count_records(body, dim) {
                                Err(e) => Err(e),
                                Ok(n) => Ok(Opened { index, header: None, counter: Some(encode_next_id(n + 1)) }),
                            }
                        }
                    },
                }
            },
        }
    }

    /// Appends `vector` (the bit patterns of its components). `counter` is
    /// the contents of the counter file. The caller writes and flushes the
    /// record before it writes the new counter.
    pub fn append(&self, vector: &[u32], counter: &[u8]) -> (r: Result<Appended, IndexError>)
        ensures
            vector@.len() != self@.dim ==> r == Err::<Appended, IndexError>(IndexError::DimensionMismatch),
            vector@.len() == self@.dim ==> match counter_value(counter@) {
                None => r == Err::<Appended, IndexError>(IndexError::Format),
                Some(id) => if id == u64::MAX {
                    r == Err::<Appended, IndexError>(IndexError::Format)
                } else {
                    &&& r is Ok
                    &&& r->Ok_0.id == id
                    &&& r->Ok_0.record@ == record_bytes(id, vector@)
                    &&& r->Ok_0.counter@ == u64_le((id + 1) as u64)
                },
            },
    {
        if vector.len() != self.dim {
            return Err(IndexError::DimensionMismatch);
        }
        let id = match decode_next_id(counter) {
            Ok(n) => n,
            Err(e) => return Err(e),
        };
        if id == u64::MAX {
            return Err(IndexError::Format);
        }
        let record = encode_record(id, vector);
        let counter = encode_next_id(id + 1);
        Ok(Appended { id, record, counter })
    }

    /// The records a search for `query` must score, read from `index_file`
    /// (the contents of the index file): none when `top_k` is zero.
    pub fn search_candidates(&self, query: &[u32], top_k: usize, index_file: &[u8]) -> (r: Result<Vec<Record>, IndexError>)
        ensures
            query@.len() != self@.dim ==> r == Err::<Vec<Record>, IndexError>(IndexError::DimensionMismatch),
            query@.len() == self@.dim && top_k == 0 ==> r is Ok && r->Ok_0@.len() == 0,
            query@.len() == self@.dim && top_k > 0 ==> if index_file@.len() < HEADER_LEN || (
            index_file@.len() - HEADER_LEN) % (record_len(self@.dim) as int) != 0 {
                r == Err::<Vec<Record>, IndexError>(IndexError::Format)
            } else {
                r is Ok && records_view(r->Ok_0@) == file_records(index_file@, self@.dim)
            },
    {
        if query.len() != self.dim {
            return Err(IndexError::DimensionMismatch);
        }
        if top_k == 0 {
            return Ok(Vec::new());
        }
        if index_file.len() < HEADER_LEN {
            return Err(IndexError::Format);
        }
        let body = slice_subrange(index_file, HEADER_LEN, index_file.len());
        assert(body@ =~= index_file@.skip(HEADER_LEN as int));
        decode_records(body, self.dim)
    }

    /// The dimension of every vector of this index.
    pub fn dim(&self) -> (r: usize)
        ensures
            r == self@.dim,
    {
        self.dim
    }

    /// Path of the index file.
    pub fn index_path(&self) -> (r: &String)
        ensures
            r@ == self@.index_path,
    {
        &self.index_path
    }

    /// Path of the counter sidecar.
    pub fn meta_path(&self) -> (r: &String)
        ensures
            r@ == self@.meta_path,
    {
        &self.meta_path
    }
}

/// Pairs each candidate's identifier with its distance key and keeps the
/// best `top_k`, closest first, ties in file order.
pub fn rank(candidates: &[Record], keys: &[u32], top_k: usize) -> (r: Vec<(u64, u32)>)
    requires
        keys@.len() == candidates@.len(),
    ensures
        r@ == best_of(scored(candidates@, keys@), top_k as nat),
        r@.len() == min_nat(top_k as nat, candidates@.len()),
        sorted_by_key(r@),
{
    let mut pairs: Vec<(u64, u32)> = Vec::new();
    let mut i: usize = 0;
    while i < candidates.len()
        invariant
            keys@.len() == candidates@.len(),
            i <= candidates@.len(),
            pairs@ == scored(candidates@, keys@).take(i as int),
        decreases candidates.len() - i,
    {
        pairs.push((candidates[i].id, keys[i]));
        assert(pairs@ =~= scored(candidates@, keys@).take(i + 1));
        i = i + 1;
    }
    assert(pairs@ =~= scored(candidates@, keys@));
    select_top_k(pairs.as_slice(), top_k)
}

/// Each candidate's identifier with the key at the same place.
pub open spec fn scored(candidates: Seq<Record>, keys: Seq<u32>) -> Seq<(u64, u32)> {
    Seq::new(candidates.len(), |i: int| (candidates[i].id, keys[i]))
}

/// Appending a record and then scanning the whole file gives back the
/// records that were there, followed by the appended one with the
/// identifier and the vector exactly as given.
pub proof fn lemma_append_then_scan(file: Seq<u8>, id: u64, v: Seq<u32>)
    requires
        file.len() >= HEADER_LEN,
        (file.len() - HEADER_LEN) % (record_len(v.len()) as int) == 0,
    ensures
        ((file + record_bytes(id, v)).len() - HEADER_LEN) % (record_len(v.len()) as int) == 0,
        file_records(file + record_bytes(id, v), v.len()) == file_records(file, v.len()).push((id, v)),
{
    let r = record_bytes(id, v);
    let after = file + r;
    lemma_record_round_trip(id, v);
    assert(after.skip(HEADER_LEN as int) =~= file.skip(HEADER_LEN as int) + r);
    lemma_decode_body_push(file.skip(HEADER_LEN as int), r, v.len());
    lemma_mod_add_multiples_vanish(file.len() - HEADER_LEN, record_len(v.len()) as int);
}

proof fn lemma_ids_from(start: u64, n: nat)
    requires
        start + n <= u64::MAX,
    ensures
        appended_ids(u64_le(start), n) == Seq::new(n, |i: int| (start + i) as u64),
    decreases n,
{
    if n > 0 {
        lemma_u64_le_round_trip(start, Seq::empty());
        assert(u64_le(start) + Seq::<u8>::empty() =~= u64_le(start));
        lemma_ids_from((start + 1) as u64, (n - 1) as nat);
        assert(appended_ids(u64_le(start), n) =~= Seq::new(n, |i: int| (start + i) as u64));
    }
}

/// From a fresh store, `n` appends give out `1, 2, ..., n` in call order.
/// Reopening in between changes nothing: opening with the counter present
/// writes no counter.
pub proof fn lemma_ids_sequential(n: nat)
    requires
        n < u64::MAX,
    ensures
        appended_ids(fresh_counter(), n) == Seq::new(n, |i: int| (i + 1) as u64),
{
    lemma_ids_from(1, n);
}

/// The index file and counter contents after appending each vector of `vs`
/// in turn, as `append` prescribes, to a store whose files hold `file` and
/// `counter`.
pub open spec fn after_appends(file: Seq<u8>, counter: Seq<u8>, vs: Seq<Seq<u32>>) -> (Seq<u8>, Seq<u8>)
    decreases vs.len(),
{
    if vs.len() == 0 {
        (file, counter)
    } else {
        let prev = after_appends(file, counter, vs.drop_last());
        let id = u64_from_le(prev.1);
        (prev.0 + record_bytes(id, vs.last()), u64_le((id + 1) as u64))
    }
}

/// Appending the vectors `vs` of dimension `dim` to a fresh store gives a
/// file whose records, read in order, are `(1, vs[0]), ..., (n, vs[n - 1])`,
/// each vector exactly as given, and a counter that holds `n + 1`.
pub proof fn lemma_fresh_store_records(dim: u32, vs: Seq<Seq<u32>>)
    requires
        vs.len() < u64::MAX,
        forall|i: int| 0 <= i < vs.len() ==> #[trigger] vs[i].len() == dim,
    ensures
        after_appends(header_bytes(dim), fresh_counter(), vs).0.len() >= HEADER_LEN,
        (after_appends(header_bytes(dim), fresh_counter(), vs).0.len() - HEADER_LEN) % (record_len(
            dim as nat,
        ) as int) == 0,
        file_records(after_appends(header_bytes(dim), fresh_counter(), vs).0, dim as nat)
            == Seq::new(vs.len(), |i: int| ((i + 1) as u64, vs[i])),
        after_appends(header_bytes(dim), fresh_counter(), vs).1 == u64_le((vs.len() + 1) as u64),
    decreases vs.len(),
{
    let d = dim as nat;
    if vs.len() == 0 {
        let h = header_bytes(dim);
        assert(h.skip(HEADER_LEN as int) =~= Seq::<u8>::empty());
        assert(file_records(h, d) =~= Seq::new(0, |i: int| ((i + 1) as u64, vs[i])));
    } else {
        let p = vs.drop_last();
        assert forall|i: int| 0 <= i < p.len() implies #[trigger] p[i].len() == dim by {
            assert(p[i] == vs[i]);
        }
        lemma_fresh_store_records(dim, p);
        let prev = after_appends(header_bytes(dim), fresh_counter(), p);
        let id = (p.len() + 1) as u64;
        lemma_u64_le_round_trip(id, Seq::empty());
        assert(u64_le(id) + Seq::<u8>::empty() =~= u64_le(id));
        assert(u64_from_le(prev.1) == id);
        assert(vs.last().len() == dim);
        lemma_append_then_scan(prev.0, id, vs.last());
        assert(file_records(after_appends(header_bytes(dim), fresh_counter(), vs).0, d) =~= Seq::new(
            vs.len(),
            |i: int| ((i + 1) as u64, vs[i]),
        ));
    }
}

/// After the counter of an index file with `N` records is rebuilt, the
/// next append gives out `N + 1`.
pub proof fn lemma_recovered_next_id(file: Seq<u8>, dim: nat)
    requires
        file_records(file, dim).len() < u64::MAX,
    ensures
        appended_ids(u64_le((file_records(file, dim).len() + 1) as u64), 1) == seq![
            (file_records(file, dim).len() + 1) as u64,
        ],
{
    let next = (file_records(file, dim).len() + 1) as u64;
    lemma_u64_le_round_trip(next, Seq::empty());
    assert(u64_le(next) + Seq::<u8>::empty() =~= u64_le(next));
    assert(u64_from_le(u64_le(next)) == next);
    assert(appended_ids(u64_le((next + 1) as u64), 0) == Seq::<u64>::empty());
    assert(appended_ids(u64_le(next), 1) =~= seq![next]);
}

} // verus!
