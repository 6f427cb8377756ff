//! The byte layout of a package, written as an encoder, and the law that
//! reading the header of an encoded package gives back its entries.

use crate::unpacker::{
    be32, spec_entries, spec_entry_at, spec_read_header, HeaderError, RawEntry, HEADER_FIRST, HEADER_LAST,
    MAX_FILE_COUNT, MAX_NAME_LEN,
};
use vstd::prelude::*;

verus! {

/// The big-endian bytes of `v`.
pub open spec fn encode_be32(v: u32) -> Seq<u8> {
    seq![
        (v / 0x1000000) as u8,
        ((v / 0x10000) % 0x100) as u8,
        ((v / 0x100) % 0x100) as u8,
        (v % 0x100) as u8,
    ]
}

/// The bytes of one index entry: name length, name, offset, size.
pub open spec fn encode_entry(e: RawEntry) -> Seq<u8> {
    encode_be32(e.name.len() as u32) + e.name + encode_be32(e.offset) + encode_be32(e.size)
}

/// The bytes of a sequence of index entries, one after another.
pub open spec fn encode_entries(es: Seq<RawEntry>) -> Seq<u8>
    decreases es.len(),
{
    if es.len() == 0 {
        Seq::empty()
    } else {
        encode_entries(es.drop_last()) + encode_entry(es.last())
    }
}

/// The declared index length: the entry count and the entries.
pub open spec fn index_len(es: Seq<RawEntry>) -> int {
    4 + encode_entries(es).len() as int
}

/// A package with header field `info1`, the index entries `es` and the body
/// bytes `body`.
pub open spec fn encode_package(info1: u32, es: Seq<RawEntry>, body: Seq<u8>) -> Seq<u8> {
    seq![HEADER_FIRST] + encode_be32(info1) + encode_be32(index_len(es) as u32) + encode_be32(
        body.len() as u32,
    ) + seq![HEADER_LAST] + encode_be32(es.len() as u32) + encode_entries(es) + body
}

/// Entries and a body that the format can hold and the reader accepts.
pub open spec fn encodable(es: Seq<RawEntry>, body: Seq<u8>) -> bool {
    &&& es.len() <= MAX_FILE_COUNT
    &&& forall|i: int| 0 <= i < es.len() ==> #[trigger] es[i].name.len() <= MAX_NAME_LEN
    &&& index_len(es) <= u32::MAX
    &&& body.len() <= u32::MAX
}

proof fn lemma_be32_roundtrip(v: u32)
    ensures
        encode_be32(v)[0] as int * 0x1000000 + encode_be32(v)[1] as int * 0x10000 + encode_be32(
            v,
        )[2] as int * 0x100 + encode_be32(v)[3] as int == v,
{
    let b0 = v / 0x1000000;
    let b1 = (v / 0x10000) % 0x100;
    let b2 = (v / 0x100) % 0x100;
    let b3 = v % 0x100;
    assert(b0 < 0x100 && b1 < 0x100 && b2 < 0x100 && b3 < 0x100) by (bit_vector)
        requires
            b0 == v / 0x1000000,
            b1 == (v / 0x10000) % 0x100,
            b2 == (v / 0x100) % 0x100,
            b3 == v % 0x100,
    ;
    assert(b0 * 0x1000000 + b1 * 0x10000 + b2 * 0x100 + b3 == v) by (bit_vector)
        requires
            b0 == v / 0x1000000,
            b1 == (v / 0x10000) % 0x100,
            b2 == (v / 0x100) % 0x100,
            b3 == v % 0x100,
    ;
}

proof fn lemma_be32_at(data: Seq<u8>, pos: int, v: u32)
    requires
        0 <= pos,
        pos + 4 <= data.len(),
        forall|j: int| 0 <= j < 4 ==> data[pos + j] == #[trigger] encode_be32(v)[j],
    ensures
        be32(data, pos) == v,
{
    lemma_be32_roundtrip(v);
    assert(data[pos] == encode_be32(v)[0]);
    assert(data[pos + 1] == encode_be32(v)[1]);
    assert(data[pos + 2] == encode_be32(v)[2]);
    assert(data[pos + 3] == encode_be32(v)[3]);
}

proof fn lemma_encode_prefix(es: Seq<RawEntry>, k: int)
    requires
        0 <= k <= es.len(),
    ensures
        encode_entries(es.take(k)).len() <= encode_entries(es).len(),
        forall|j: int|
            0 <= j < encode_entries(es.take(k)).len() ==> #[trigger] encode_entries(es)[j]
                == encode_entries(es.take(k))[j],
    decreases es.len(),
{
    if k < es.len() {
        lemma_encode_prefix(es.drop_last(), k);
        assert(es.drop_last().take(k) =~= es.take(k));
    } else {
        assert(es.take(k) =~= es);
    }
}

proof fn lemma_encode_take_step(es: Seq<RawEntry>, k: int)
    requires
        0 <= k < es.len(),
    ensures
        encode_entries(es.take(k + 1)) == encode_entries(es.take(k)) + encode_entry(es[k]),
{
    assert(es.take(k + 1).drop_last() =~= es.take(k));
    assert(es.take(k + 1).last() == es[k]);
}

proof fn lemma_entry_read_at(data: Seq<u8>, es: Seq<RawEntry>, km: int)
    requires
        0 <= km < es.len(),
        es[km].name.len() <= MAX_NAME_LEN,
        18 + encode_entries(es).len() <= data.len(),
        forall|j: int|
            0 <= j < encode_entries(es).len() ==> data[18 + j] == #[trigger] encode_entries(es)[j],
    ensures
        spec_entry_at(data, index_len(es), index_len(es.take(km))) == Ok::<(RawEntry, int), HeaderError>(
            (es[km], index_len(es.take(km + 1))),
        ),
{
    let k = km + 1;
    lemma_encode_take_step(es, km);
    lemma_encode_prefix(es, k);
    let off = encode_entries(es.take(km)).len() as int;
    let e = es[km];
    let enc = encode_entry(e);
    let n = e.name.len();
    assert forall|j: int| 0 <= j < enc.len() implies data[18 + off + j] == enc[j] by {
        assert(encode_entries(es.take(k))[off + j] == enc[j]);
        assert(data[18 + (off + j)] == encode_entries(es)[off + j]);
    }
    let pos = 18 + off;
    assert forall|j: int| 0 <= j < 4 implies data[pos + j] == #[trigger] encode_be32(n as u32)[j] by {
        assert(enc[j] == encode_be32(n as u32)[j]);
    }
    lemma_be32_at(data, pos, n as u32);
    assert forall|j: int| 0 <= j < 4 implies data[pos + 4 + n + j] == #[trigger] encode_be32(
        e.offset,
    )[j] by {
        assert(enc[4 + n + j] == encode_be32(e.offset)[j]);
    }
    lemma_be32_at(data, pos + 4 + n, e.offset);
    assert forall|j: int| 0 <= j < 4 implies data[pos + 8 + n + j] == #[trigger] encode_be32(
        e.size,
    )[j] by {
        assert(enc[8 + n + j] == encode_be32(e.size)[j]);
    }
    lemma_be32_at(data, pos + 8 + n, e.size);
    assert(data.subrange(pos + 4, pos + 4 + n) =~= e.name) by {
        assert forall|j: int| 0 <= j < n implies data.subrange(pos + 4, pos + 4 + n)[j]
            == e.name[j] by {
            assert(enc[4 + j] == e.name[j]);
        }
    }
}

proof fn lemma_entries_read(data: Seq<u8>, es: Seq<RawEntry>, k: nat)
    requires
        k <= es.len(),
        forall|i: int| 0 <= i < es.len() ==> #[trigger] es[i].name.len() <= MAX_NAME_LEN,
        18 + encode_entries(es).len() <= data.len(),
        forall|j: int|
            0 <= j < encode_entries(es).len() ==> data[18 + j] == #[trigger] encode_entries(es)[j],
    ensures
        spec_entries(data, index_len(es), k) == Ok::<(Seq<RawEntry>, int), HeaderError>(
            (es.take(k as int), index_len(es.take(k as int))),
        ),
    decreases k,
{
    if k == 0 {
        assert(es.take(0) =~= Seq::<RawEntry>::empty());
    } else {
        let km = (k - 1) as int;
        lemma_entries_read(data, es, (k - 1) as nat);
        lemma_entry_read_at(data, es, km);
        assert(es.take(k as int) =~= es.take(km).push(es[km]));
    }
}

/// Reading the header of an encoded package gives back its entries, whenever
/// the entries and body are within the format's limits.
pub proof fn read_header_of_encoded(info1: u32, es: Seq<RawEntry>, body: Seq<u8>)
    requires
        encodable(es, body),
    ensures
        spec_read_header(
            encode_package(info1, es, body),
            encode_package(info1, es, body).len() as u64,
        ) == Ok::<Seq<RawEntry>, HeaderError>(es),
{
    let idx = index_len(es);
    let enc = encode_entries(es);
    let header = seq![HEADER_FIRST] + encode_be32(info1) + encode_be32(idx as u32) + encode_be32(
        body.len() as u32,
    ) + seq![HEADER_LAST] + encode_be32(es.len() as u32);
    let data = encode_package(info1, es, body);
    assert(data =~= header + enc + body);
    assert(header.len() == 18);
    assert forall|j: int| 0 <= j < enc.len() implies data[18 + j] == #[trigger] enc[j] by {
        assert((header + enc + body)[18 + j] == enc[j]);
    }
    assert(forall|j: int| 0 <= j < 4 ==> data[1 + j] == #[trigger] encode_be32(info1)[j]);
    assert forall|j: int| 0 <= j < 4 implies data[5 + j] == #[trigger] encode_be32(idx as u32)[j] by {
        assert(header[5 + j] == encode_be32(idx as u32)[j]);
    }
    lemma_be32_at(data, 5, idx as u32);
    assert forall|j: int| 0 <= j < 4 implies data[9 + j] == #[trigger] encode_be32(
        body.len() as u32,
    )[j] by {
        assert(header[9 + j] == encode_be32(body.len() as u32)[j]);
    }
    lemma_be32_at(data, 9, body.len() as u32);
    assert forall|j: int| 0 <= j < 4 implies data[14 + j] == #[trigger] encode_be32(
        es.len() as u32,
    )[j] by {
        assert(header[14 + j] == encode_be32(es.len() as u32)[j]);
    }
    lemma_be32_at(data, 14, es.len() as u32);
    assert(data[0] == HEADER_FIRST);
    assert(data[13] == HEADER_LAST);
    lemma_entries_read(data, es, es.len());
    assert(es.take(es.len() as int) =~= es);
}

} // verus!
