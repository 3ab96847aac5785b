//! The snapshot format: an index as bytes, and bytes as an index.
//!
//! A snapshot starts with a header of thirty bytes and goes on with one
//! record per entry, in stored order. All integers are little-endian.
//!
//! | bytes  | holds                                               |
//! |--------|-----------------------------------------------------|
//! | 0..4   | the letters `ANNX`                                  |
//! | 4..8   | the format version, 1                               |
//! | 8..16  | the dimension                                       |
//! | 16     | the metric: 0 Euclidean, 1 Cosine, 2 Manhattan, 3 Chebyshev |
//! | 17     | 1 where a Minkowski exponent is set, else 0         |
//! | 18..22 | the bit pattern of the exponent, 0 where none is set |
//! | 22..30 | the number of entries                               |
//!
//! A record holds the id in eight bytes, the bit pattern of the squared norm
//! in four, and the bit pattern of each coordinate in four.

use vstd::prelude::*;
use crate::bytes::{
    from_le32, from_le64, get_le32, get_le64, le32, le64, lemma_le32_round_trip,
    lemma_le64_round_trip, lemma_sign_round_trip, put_le32, put_le64, to_signed, to_unsigned,
    unsigned_of,
};
use crate::errors::RustAnnError;
use crate::index::{views, Entry, EntryView, IndexView, Point};
use crate::metrics::Distance;
use crate::scalar::{at_most_zero, is_at_most_zero};

verus! {

/// The name of the file that holds the snapshot saved under `path`: the
/// path with `.bin` behind it.
pub fn snapshot_path(path: &str) -> (full: String)
    ensures
        full@ == path@ + ".bin"@,
{
    String::from_str(path).concat(".bin")
}

/// The length of the header.
pub const HEADER_LEN: usize = 30;

/// The version of the format that this crate writes and reads.
pub const FORMAT_VERSION: u32 = 1;

/// The four bytes with which every snapshot starts.
pub open spec fn magic() -> Seq<u8> {
    seq![0x41u8, 0x4eu8, 0x4eu8, 0x58u8]
}

/// The numbers that a header holds.
pub struct Header {
    pub dim: u64,
    pub tag: u8,
    pub flag: u8,
    pub exponent: u32,
    pub count: u64,
}

/// The byte that stands for a metric.
pub open spec fn metric_tag(metric: Distance) -> u8 {
    match metric {
        Distance::Euclidean => 0,
        Distance::Cosine => 1,
        Distance::Manhattan => 2,
        Distance::Chebyshev => 3,
    }
}

/// The metric that a byte stands for; bytes above 3 stand for none.
pub open spec fn metric_of_tag(tag: u8) -> Distance {
    if tag == 0 {
        Distance::Euclidean
    } else if tag == 1 {
        Distance::Cosine
    } else if tag == 2 {
        Distance::Manhattan
    } else {
        Distance::Chebyshev
    }
}

/// The header of the snapshot of an index.
pub open spec fn header_of(v: IndexView) -> Header {
    Header {
        dim: v.dim as u64,
        tag: metric_tag(v.metric),
        flag: if v.minkowski_p is Some {
            1
        } else {
            0
        },
        exponent: match v.minkowski_p {
            Some(p) => p,
            None => 0,
        },
        count: v.entries.len() as u64,
    }
}

/// The header is one that a well-formed index can have on this machine.
pub open spec fn header_valid(h: Header) -> bool {
    &&& 0 < h.dim <= usize::MAX
    &&& h.tag <= 3
    &&& h.flag <= 1
    &&& h.flag == 0 ==> h.exponent == 0
    &&& h.flag == 1 ==> !at_most_zero(h.exponent)
    &&& h.count <= usize::MAX
}

/// The thirty bytes of a header.
pub open spec fn header_bytes(h: Header) -> Seq<u8> {
    magic() + le32(FORMAT_VERSION) + le64(h.dim) + seq![h.tag, h.flag] + le32(h.exponent) + le64(
        h.count,
    )
}

/// The header that the first thirty bytes spell.
pub open spec fn read_header(bytes: Seq<u8>) -> Header {
    Header {
        dim: from_le64(bytes.subrange(8, 16)),
        tag: bytes[16],
        flag: bytes[17],
        exponent: from_le32(bytes.subrange(18, 22)),
        count: from_le64(bytes.subrange(22, 30)),
    }
}

/// The bytes of a list of coordinates.
pub open spec fn coords_bytes(coords: Seq<u32>) -> Seq<u8>
    decreases coords.len(),
{
    if coords.len() == 0 {
        Seq::empty()
    } else {
        coords_bytes(coords.drop_last()) + le32(coords.last())
    }
}

/// The record of one entry.
pub open spec fn entry_bytes(e: EntryView) -> Seq<u8> {
    le64(unsigned_of(e.id)) + le32(e.point.sq_norm) + coords_bytes(e.point.coords)
}

/// The records of a list of entries.
pub open spec fn entries_bytes(entries: Seq<EntryView>) -> Seq<u8>
    decreases entries.len(),
{
    if entries.len() == 0 {
        Seq::empty()
    } else {
        entries_bytes(entries.drop_last()) + entry_bytes(entries.last())
    }
}

/// The snapshot of an index.
pub open spec fn encoding(v: IndexView) -> Seq<u8> {
    header_bytes(header_of(v)) + entries_bytes(v.entries)
}

/// The length of the record of an entry of `dim` coordinates.
pub open spec fn record_len(dim: int) -> int {
    12 + 4 * dim
}

/// A header is thirty bytes long, and reading it gives its numbers back.
pub proof fn lemma_header_round_trip(h: Header, rest: Seq<u8>)
    ensures
        header_bytes(h).len() == HEADER_LEN,
        read_header(header_bytes(h) + rest) == h,
        (header_bytes(h) + rest).subrange(0, 4) == magic(),
        from_le32((header_bytes(h) + rest).subrange(4, 8)) == FORMAT_VERSION,
{
    let b = header_bytes(h) + rest;
    lemma_le32_round_trip(FORMAT_VERSION, Seq::empty());
    lemma_le32_round_trip(h.exponent, Seq::empty());
    lemma_le64_round_trip(h.dim, Seq::empty());
    lemma_le64_round_trip(h.count, Seq::empty());
    assert(b.subrange(0, 4) =~= magic());
    assert(b.subrange(4, 8) =~= le32(FORMAT_VERSION));
    assert(b.subrange(8, 16) =~= le64(h.dim));
    assert(b.subrange(18, 22) =~= le32(h.exponent));
    assert(b.subrange(22, 30) =~= le64(h.count));
    assert(b[16] == h.tag);
    assert(b[17] == h.flag);
}

/// Thirty bytes that start with the magic letters and the version are the
/// header of the numbers they spell.
pub proof fn lemma_header_read_back(bytes: Seq<u8>)
    requires
        bytes.len() >= HEADER_LEN,
        bytes.subrange(0, 4) == magic(),
        from_le32(bytes.subrange(4, 8)) == FORMAT_VERSION,
    ensures
        header_bytes(read_header(bytes)) == bytes.subrange(0, HEADER_LEN as int),
{
    let h = read_header(bytes);
    lemma_le32_round_trip(0, bytes.subrange(4, 8));
    lemma_le32_round_trip(0, bytes.subrange(18, 22));
    lemma_le64_round_trip(0, bytes.subrange(8, 16));
    lemma_le64_round_trip(0, bytes.subrange(22, 30));
    let head = bytes.subrange(0, HEADER_LEN as int);
    assert(head =~= bytes.subrange(0, 4) + bytes.subrange(4, 8) + bytes.subrange(8, 16)
        + seq![bytes[16], bytes[17]] + bytes.subrange(18, 22) + bytes.subrange(22, 30));
}

/// Coordinates take four bytes each, and coordinate `j` stands at `4 * j`.
pub proof fn lemma_coords_bytes(coords: Seq<u32>)
    ensures
        coords_bytes(coords).len() == 4 * coords.len(),
        forall|j: int|
            0 <= j < coords.len() ==> #[trigger] coords_bytes(coords).subrange(4 * j, 4 * j + 4)
                == le32(coords[j]),
    decreases coords.len(),
{
    if coords.len() > 0 {
        let front = coords.drop_last();
        lemma_coords_bytes(front);
        lemma_le32_round_trip(coords.last(), Seq::empty());
        let all = coords_bytes(coords);
        assert forall|j: int| 0 <= j < coords.len() implies #[trigger] all.subrange(
            4 * j,
            4 * j + 4,
        ) == le32(coords[j]) by {
            if j < front.len() {
                assert(all.subrange(4 * j, 4 * j + 4) =~= coords_bytes(front).subrange(
                    4 * j,
                    4 * j + 4,
                ));
                assert(front[j] == coords[j]);
            } else {
                assert(all.subrange(4 * j, 4 * j + 4) =~= le32(coords.last()));
            }
        }
    }
}

/// A record is as long as its dimension says.
pub proof fn lemma_entry_len(e: EntryView)
    ensures
        entry_bytes(e).len() == record_len(e.point.coords.len() as int),
{
    lemma_le64_round_trip(unsigned_of(e.id), Seq::empty());
    lemma_le32_round_trip(e.point.sq_norm, Seq::empty());
    lemma_coords_bytes(e.point.coords);
}

/// Records of one dimension stand one after the other: record `i` starts at
/// `i` times the record length.
pub proof fn lemma_entries_bytes(entries: Seq<EntryView>, dim: int)
    requires
        forall|i: int| 0 <= i < entries.len() ==> (#[trigger] entries[i]).point.coords.len() == dim,
    ensures
        entries_bytes(entries).len() == entries.len() * record_len(dim),
        forall|i: int|
            0 <= i < entries.len() ==> #[trigger] entries_bytes(entries).subrange(
                i * record_len(dim),
                (i + 1) * record_len(dim),
            ) == entry_bytes(entries[i]),
    decreases entries.len(),
{
    let size = record_len(dim);
    if entries.len() > 0 {
        let front = entries.drop_last();
        lemma_entries_bytes(front, dim);
        lemma_entry_len(entries.last());
        let all = entries_bytes(entries);
        assert(front.len() * size + size == entries.len() * size) by (nonlinear_arith)
            requires
                front.len() + 1 == entries.len(),
        ;
        assert forall|i: int| 0 <= i < entries.len() implies #[trigger] all.subrange(
            i * size,
            (i + 1) * size,
        ) == entry_bytes(entries[i]) by {
            assert(i * size + size == (i + 1) * size) by (nonlinear_arith);
            if i < front.len() {
                assert((i + 1) * size <= front.len() * size) by (nonlinear_arith)
                    requires
                        i + 1 <= front.len(),
                        0 <= size,
                ;
                assert(0 <= i * size) by (nonlinear_arith)
                    requires
                        0 <= i,
                        0 <= size,
                ;
                assert(all.subrange(i * size, (i + 1) * size) =~= entries_bytes(front).subrange(
                    i * size,
                    (i + 1) * size,
                ));
                assert(front[i] == entries[i]);
            } else {
                assert(all.subrange(i * size, (i + 1) * size) =~= entry_bytes(entries.last()));
            }
        }
    } else {
        assert(entries.len() * size == 0) by (nonlinear_arith)
            requires
                entries.len() == 0,
        ;
    }
}

/// What can be read off the snapshot of a well-formed index: its length, its
/// first eight bytes, and a valid header with the numbers of the index.
pub proof fn lemma_encoding_shape(v: IndexView)
    requires
        v.wf(),
    ensures
        encoding(v).len() == HEADER_LEN + v.entries.len() * record_len(v.dim as int),
        encoding(v).subrange(0, 4) == magic(),
        from_le32(encoding(v).subrange(4, 8)) == FORMAT_VERSION,
        read_header(encoding(v)) == header_of(v),
        header_valid(header_of(v)),
{
    lemma_header_round_trip(header_of(v), entries_bytes(v.entries));
    lemma_entries_bytes(v.entries, v.dim as int);
}

/// Computes the byte that stands for a metric.
pub fn tag_of(metric: Distance) -> (tag: u8)
    ensures
        tag == metric_tag(metric),
{
    match metric {
        Distance::Euclidean => 0,
        Distance::Cosine => 1,
        Distance::Manhattan => 2,
        Distance::Chebyshev => 3,
    }
}

/// Writes the snapshot of an index with the given configuration and
/// entries.
pub fn encode(dim: usize, metric: Distance, minkowski_p: Option<u32>, entries: &Vec<Entry>) -> (out:
    Vec<u8>)
    ensures
        out@ == encoding(IndexView { dim, metric, minkowski_p, entries: views(entries@) }),
{
    let ghost v = IndexView { dim, metric, minkowski_p, entries: views(entries@) };
    let mut out: Vec<u8> = Vec::new();
    out.push(0x41);
    out.push(0x4e);
    out.push(0x4e);
    out.push(0x58);
    put_le32(&mut out, FORMAT_VERSION);
    put_le64(&mut out, dim as u64);
    out.push(tag_of(metric));
    match minkowski_p {
        Some(p) => {
            out.push(1);
            put_le32(&mut out, p);
        },
        None => {
            out.push(0);
            put_le32(&mut out, 0);
        },
    }
    put_le64(&mut out, entries.len() as u64);
    assert(out@ =~= header_bytes(header_of(v)));
    let mut i: usize = 0;
    while i < entries.len()
        invariant
            i <= entries.len(),
            v.entries == views(entries@),
            out@ == header_bytes(header_of(v)) + entries_bytes(v.entries.take(i as int)),
        decreases entries.len() - i,
    {
        let ghost before = out@;
        let entry = &entries[i];
        put_le64(&mut out, to_unsigned(entry.id));
        put_le32(&mut out, entry.point.sq_norm);
        let ghost start = out@;
        let mut j: usize = 0;
        while j < entry.point.coords.len()
            invariant
                j <= entry.point.coords.len(),
                out@ == start + coords_bytes(entry.point.coords@.take(j as int)),
            decreases entry.point.coords.len() - j,
        {
            put_le32(&mut out, entry.point.coords[j]);
            proof {
                let done = entry.point.coords@.take(j as int);
                let next = entry.point.coords@.take(j + 1);
                assert(next.drop_last() =~= done);
                assert(out@ =~= start + coords_bytes(next));
            }
            j = j + 1;
        }
        proof {
            assert(entry.point.coords@.take(j as int) =~= entry.point.coords@);
            let done = v.entries.take(i as int);
            let next = v.entries.take(i + 1);
            assert(next.drop_last() =~= done);
            assert(next.last() == entry@);
            assert(out@ =~= before + entry_bytes(entry@));
            assert(out@ =~= header_bytes(header_of(v)) + entries_bytes(next));
        }
        i = i + 1;
    }
    assert(v.entries.take(i as int) =~= v.entries);
    out
}

/// The configuration and the entries that [`decode`] reads from a snapshot.
pub struct Decoded {
    pub dim: usize,
    pub metric: Distance,
    pub minkowski_p: Option<u32>,
    pub entries: Vec<Entry>,
}

impl View for Decoded {
    type V = IndexView;

    open spec fn view(&self) -> IndexView {
        IndexView {
            dim: self.dim,
            metric: self.metric,
            minkowski_p: self.minkowski_p,
            entries: views(self.entries@),
        }
    }
}

/// The bytes are the snapshot of no well-formed index.
pub open spec fn is_corrupt(bytes: Seq<u8>) -> bool {
    forall|v: IndexView| v.wf() ==> #[trigger] encoding(v) != bytes
}

/// What the header of a snapshot says, once it was found valid.
struct Shape {
    dim: usize,
    metric: Distance,
    minkowski_p: Option<u32>,
    count: usize,
}

/// The checks that the snapshot of every well-formed index passes.
pub open spec fn passes_checks(bytes: Seq<u8>) -> bool {
    &&& bytes.len() >= HEADER_LEN
    &&& bytes.subrange(0, 4) == magic()
    &&& from_le32(bytes.subrange(4, 8)) == FORMAT_VERSION
    &&& header_valid(read_header(bytes))
    &&& bytes.len() == HEADER_LEN + read_header(bytes).count * record_len(
        read_header(bytes).dim as int,
    )
}

/// Bytes that fail a check are the snapshot of no well-formed index.
pub proof fn lemma_failed_check_is_corrupt(bytes: Seq<u8>)
    requires
        !passes_checks(bytes),
    ensures
        is_corrupt(bytes),
{
    assert forall|v: IndexView| v.wf() implies #[trigger] encoding(v) != bytes by {
        lemma_encoding_shape(v);
        assert(v.entries.len() * record_len(v.dim as int) >= 0) by (nonlinear_arith)
            requires
                v.entries.len() >= 0,
                record_len(v.dim as int) >= 0,
        ;
    }
}

/// Reads and checks the header of a snapshot, and checks that records of
/// the dimension it names, as many as it counts, fill the rest of the bytes
/// exactly. Fails where no well-formed index has such a snapshot.
fn read_shape(bytes: &Vec<u8>) -> (r: Result<Shape, RustAnnError>)
    ensures
        r matches Ok(shape) ==> {
            &&& passes_checks(bytes@)
            &&& read_header(bytes@).dim == shape.dim
            &&& metric_of_tag(read_header(bytes@).tag) == shape.metric
            &&& shape.minkowski_p == (if read_header(bytes@).flag == 1 {
                Some(read_header(bytes@).exponent)
            } else {
                None
            })
            &&& read_header(bytes@).count == shape.count
        },
        r matches Err(e) ==> e == RustAnnError::CorruptData && is_corrupt(bytes@),
{
    let len: usize = bytes.len();
    if len < HEADER_LEN {
        proof {
            lemma_failed_check_is_corrupt(bytes@);
        }
        return Err(RustAnnError::CorruptData);
    }
    let version: u32 = get_le32(bytes, 4);
    if bytes[0] != 0x41 || bytes[1] != 0x4e || bytes[2] != 0x4e || bytes[3] != 0x58 || version
        != FORMAT_VERSION {
        proof {
            assert(bytes@.subrange(0, 4)[0] == bytes@[0]);
            assert(bytes@.subrange(0, 4)[1] == bytes@[1]);
            assert(bytes@.subrange(0, 4)[2] == bytes@[2]);
            assert(bytes@.subrange(0, 4)[3] == bytes@[3]);
            lemma_failed_check_is_corrupt(bytes@);
        }
        return Err(RustAnnError::CorruptData);
    }
    assert(bytes@.subrange(0, 4) =~= magic());
    let dim64: u64 = get_le64(bytes, 8);
    let tag: u8 = bytes[16];
    let flag: u8 = bytes[17];
    let exponent: u32 = get_le32(bytes, 18);
    let count64: u64 = get_le64(bytes, 22);
    let ghost h = read_header(bytes@);
    assert(h == Header { dim: dim64, tag, flag, exponent, count: count64 });
    let valid: bool = dim64 > 0 && dim64 <= usize::MAX as u64 && tag <= 3 && flag <= 1 && (flag != 0
        || exponent == 0) && (flag != 1 || !is_at_most_zero(exponent)) && count64
        <= usize::MAX as u64;
    if !valid {
        proof {
            assert(!header_valid(h));
            lemma_failed_check_is_corrupt(bytes@);
        }
        return Err(RustAnnError::CorruptData);
    }
    let dim: usize = dim64 as usize;
    let count: usize = count64 as usize;
    if !records_fill(dim, count, len - HEADER_LEN) {
        proof {
            lemma_failed_check_is_corrupt(bytes@);
        }
        return Err(RustAnnError::CorruptData);
    }
    let metric = if tag == 0 {
        Distance::Euclidean
    } else if tag == 1 {
        Distance::Cosine
    } else if tag == 2 {
        Distance::Manhattan
    } else {
        Distance::Chebyshev
    };
    let minkowski_p: Option<u32> = if flag == 1 {
        Some(exponent)
    } else {
        None
    };
    Ok(Shape { dim, metric, minkowski_p, count })
}

/// Tests whether `count` records of dimension `dim` take `body` bytes.
pub fn records_fill(dim: usize, count: usize, body: usize) -> (fits: bool)
    ensures
        fits == (count * record_len(dim as int) == body),
{
    // A record takes at least twelve bytes and more than four times the
    // dimension, so a larger count or dimension leaves room for no record.
    let ghost size = record_len(dim as int);
    if dim > body / 4 || count > body / 12 {
        proof {
            if count > 0 {
                assert(count * size >= size && count * size >= count * 12) by (nonlinear_arith)
                    requires
                        count >= 1,
                        size >= 12,
                ;
            } else {
                assert(count * size == 0) by (nonlinear_arith)
                    requires
                        count == 0,
                ;
            }
        }
        count == 0 && body == 0
    } else {
        let wide: u128 = 12 + 4 * (dim as u128);
        assert(count * wide <= u128::MAX) by (nonlinear_arith)
            requires
                0 <= count <= 0x2000_0000_0000_0000,
                0 <= wide <= 0x2_0000_0000_0000_0000,
        ;
        (count as u128) * wide == body as u128
    }
}

/// Reads the record that starts at `at`.
fn read_entry(bytes: &Vec<u8>, at: usize, dim: usize) -> (entry: Entry)
    requires
        at + record_len(dim as int) <= bytes.len(),
    ensures
        entry@.point.coords.len() == dim,
        entry_bytes(entry@) == bytes@.subrange(at as int, at + record_len(dim as int)),
{
    let id: i64 = to_signed(get_le64(bytes, at));
    let sq_norm: u32 = get_le32(bytes, at + 8);
    let start: usize = at + 12;
    let mut coords: Vec<u32> = Vec::with_capacity(dim);
    let mut j: usize = 0;
    while j < dim
        invariant
            j <= dim,
            start + 4 * dim <= bytes.len(),
            coords@.len() == j,
            coords_bytes(coords@) == bytes@.subrange(start as int, start + 4 * j),
        decreases dim - j,
    {
        let ghost done = coords@;
        let x: u32 = get_le32(bytes, start + 4 * j);
        coords.push(x);
        proof {
            let piece = bytes@.subrange(start + 4 * j, start + 4 * j + 4);
            lemma_le32_round_trip(0, piece);
            assert(coords@.drop_last() =~= done);
            assert(coords_bytes(coords@) =~= bytes@.subrange(start as int, start + 4 * (j + 1)));
        }
        j = j + 1;
    }
    let entry = Entry { id, point: Point { coords, sq_norm } };
    proof {
        let id_piece = bytes@.subrange(at as int, at + 8);
        let norm_piece = bytes@.subrange(at + 8, at + 12);
        lemma_le64_round_trip(0, id_piece);
        lemma_le32_round_trip(0, norm_piece);
        lemma_sign_round_trip(0, from_le64(id_piece));
        assert(entry_bytes(entry@) =~= bytes@.subrange(at as int, at + record_len(dim as int)));
    }
    entry
}

/// Reads the `count` records of dimension `dim` that follow the header.
fn read_entries(bytes: &Vec<u8>, dim: usize, count: usize) -> (entries: Vec<Entry>)
    requires
        bytes.len() == HEADER_LEN + count * record_len(dim as int),
    ensures
        entries@.len() == count,
        forall|n: int|
            0 <= n < count ==> (#[trigger] views(entries@)[n]).point.coords.len() == dim,
        entries_bytes(views(entries@)) == bytes@.subrange(HEADER_LEN as int, bytes@.len() as int),
{
    let ghost size: int = record_len(dim as int);
    let mut entries: Vec<Entry> = Vec::new();
    let mut at: usize = HEADER_LEN;
    let mut i: usize = 0;
    proof {
        assert(0 * size == 0) by (nonlinear_arith);
    }
    while i < count
        invariant
            i <= count,
            size == record_len(dim as int),
            bytes.len() == HEADER_LEN + count * size,
            at == HEADER_LEN + i * size,
            at <= bytes.len(),
            entries@.len() == i,
            forall|n: int|
                0 <= n < i ==> (#[trigger] views(entries@)[n]).point.coords.len() == dim,
            entries_bytes(views(entries@)) == bytes@.subrange(HEADER_LEN as int, at as int),
        decreases count - i,
    {
        proof {
            assert(i * size + size == (i + 1) * size) by (nonlinear_arith);
            assert((i + 1) * size <= count * size) by (nonlinear_arith)
                requires
                    i + 1 <= count,
                    0 <= size,
            ;
        }
        let ghost held = views(entries@);
        let entry = read_entry(bytes, at, dim);
        let ghost added = entry@;
        entries.push(entry);
        proof {
            assert(views(entries@) =~= held.push(added));
            assert(views(entries@).drop_last() =~= held);
            assert(entries_bytes(views(entries@)) =~= bytes@.subrange(
                HEADER_LEN as int,
                at + size,
            ));
        }
        at = at + (12 + 4 * dim);
        i = i + 1;
    }
    entries
}

/// Reads a snapshot. Succeeds exactly on the bytes that [`encode`] writes
/// for a well-formed index, and then returns that index; fails with
/// `CorruptData` on all other bytes.
pub fn decode(bytes: &Vec<u8>) -> (r: Result<Decoded, RustAnnError>)
    ensures
        r matches Ok(d) ==> d@.wf() && encoding(d@) == bytes@,
        r matches Err(e) ==> e == RustAnnError::CorruptData && is_corrupt(bytes@),
{
    match read_shape(bytes) {
        Err(e) => Err(e),
        Ok(shape) => {
            let entries = read_entries(bytes, shape.dim, shape.count);
            let decoded = Decoded {
                dim: shape.dim,
                metric: shape.metric,
                minkowski_p: shape.minkowski_p,
                entries,
            };
            proof {
                lemma_header_read_back(bytes@);
                assert(header_of(decoded@) == read_header(bytes@));
                assert(bytes@ =~= bytes@.subrange(0, HEADER_LEN as int) + bytes@.subrange(
                    HEADER_LEN as int,
                    bytes@.len() as int,
                ));
            }
            Ok(decoded)
        },
    }
}

/// Two well-formed indexes with the same snapshot are the same index.
pub proof fn lemma_encoding_is_injective(a: IndexView, b: IndexView)
    requires
        a.wf(),
        b.wf(),
        encoding(a) == encoding(b),
    ensures
        a == b,
{
    lemma_encoding_shape(a);
    lemma_encoding_shape(b);
    let size = record_len(a.dim as int);
    lemma_entries_bytes(a.entries, a.dim as int);
    lemma_entries_bytes(b.entries, b.dim as int);
    assert(a.entries.len() == b.entries.len());
    let head = header_bytes(header_of(a));
    assert(entries_bytes(a.entries) =~= encoding(a).subrange(
        HEADER_LEN as int,
        encoding(a).len() as int,
    ));
    assert(entries_bytes(b.entries) =~= encoding(b).subrange(
        HEADER_LEN as int,
        encoding(b).len() as int,
    ));
    assert forall|i: int| 0 <= i < a.entries.len() implies a.entries[i] == b.entries[i] by {
        assert(entries_bytes(a.entries).subrange(i * size, (i + 1) * size) == entry_bytes(
            a.entries[i],
        ));
        assert(entries_bytes(b.entries).subrange(i * size, (i + 1) * size) == entry_bytes(
            b.entries[i],
        ));
        lemma_entry_is_injective(a.entries[i], b.entries[i]);
    }
    assert(a.entries =~= b.entries);
}

/// Two entries of one dimension with the same record are the same entry.
pub proof fn lemma_entry_is_injective(x: EntryView, y: EntryView)
    requires
        x.point.coords.len() == y.point.coords.len(),
        entry_bytes(x) == entry_bytes(y),
    ensures
        x == y,
{
    lemma_le64_round_trip(unsigned_of(x.id), Seq::empty());
    lemma_le64_round_trip(unsigned_of(y.id), Seq::empty());
    lemma_le32_round_trip(x.point.sq_norm, Seq::empty());
    lemma_le32_round_trip(y.point.sq_norm, Seq::empty());
    lemma_sign_round_trip(x.id, 0);
    lemma_sign_round_trip(y.id, 0);
    lemma_coords_bytes(x.point.coords);
    lemma_coords_bytes(y.point.coords);
    let bx = entry_bytes(x);
    let by = entry_bytes(y);
    assert(bx.subrange(0, 8) =~= le64(unsigned_of(x.id)));
    assert(by.subrange(0, 8) =~= le64(unsigned_of(y.id)));
    assert(bx.subrange(8, 12) =~= le32(x.point.sq_norm));
    assert(by.subrange(8, 12) =~= le32(y.point.sq_norm));
    assert(bx.subrange(12, bx.len() as int) =~= coords_bytes(x.point.coords));
    assert(by.subrange(12, by.len() as int) =~= coords_bytes(y.point.coords));
    assert forall|j: int| 0 <= j < x.point.coords.len() implies x.point.coords[j]
        == y.point.coords[j] by {
        assert(coords_bytes(x.point.coords).subrange(4 * j, 4 * j + 4) == le32(x.point.coords[j]));
        assert(coords_bytes(y.point.coords).subrange(4 * j, 4 * j + 4) == le32(y.point.coords[j]));
        lemma_le32_round_trip(x.point.coords[j], Seq::empty());
        lemma_le32_round_trip(y.point.coords[j], Seq::empty());
    }
    assert(x.point.coords =~= y.point.coords);
}

} // verus!
