//! The `.wxapkg` container format: a fixed header, an index of named entries
//! and a body holding their contents. Parsing works on the package bytes;
//! the file system work of unpacking is done by the caller.

use crate::text::{
    chars_of, debug_str, decimal, decode_utf8_lossy, push_chars, push_decimal, str_debug, utf8_lossy,
};
use vstd::prelude::*;
use vstd::utf8::{decode_utf8, valid_utf8};

verus! {

/// First byte of every package header.
pub const HEADER_FIRST: u8 = 0xBE;

/// Last byte of the fixed header.
pub const HEADER_LAST: u8 = 0xED;

/// Length of the fixed header: mark, three `u32` fields, mark.
pub const HEADER_PREFIX_LEN: u64 = 14;

/// Smallest index: just the entry count.
pub const INDEX_MIN_LEN: u64 = 4;

/// Bytes of an index entry besides its name: name length, offset, size.
pub const ENTRY_FIXED_LEN: u64 = 12;

/// More entries than this mark the package as corrupt.
pub const MAX_FILE_COUNT: u32 = 1000000;

/// Largest entry that is unpacked.
pub const MAX_ENTRY_SIZE: u64 = 536870912;

/// Longest entry name accepted.
pub const MAX_NAME_LEN: u32 = 16384;

/// The header field that a read was after.
#[derive(Clone, Copy, Debug, PartialEq, Eq, Structural)]
pub enum HeaderField {
    FirstMark,
    Info1,
    IndexInfoLength,
    BodyInfoLength,
    LastMark,
    FileCount,
    NameLength,
    Offset,
    Size,
}

/// Why a package header was refused.
#[derive(Clone, Copy, Debug, PartialEq, Eq, Structural)]
pub enum HeaderError {
    /// The data ended inside the named field.
    Truncated(HeaderField),
    /// The data ended inside an entry name.
    NameTruncated,
    /// The first or last header mark is wrong.
    BadMagic,
    /// Header length plus index and body lengths exceeds `u64`.
    LengthOverflow,
    /// Header length plus index and body lengths is not the file length.
    LayoutMismatch { expected: u64, actual: u64 },
    /// The declared index cannot even hold the entry count.
    IndexTooShort { index_len: u32 },
    /// More entries than [`MAX_FILE_COUNT`].
    TooManyFiles { count: u32 },
    /// An entry name longer than [`MAX_NAME_LEN`].
    NameTooLong { len: u32 },
    /// The entries read so far already exceed the declared index length.
    IndexOverrun { used: u64, cap: u64 },
    /// All entries were read but they do not fill the declared index exactly.
    IndexMismatch { used: u64, cap: u64 },
}

/// One file of a package: its name inside the package and where its
/// contents lie in the package.
#[derive(Debug)]
pub struct Entry {
    pub name: String,
    pub offset: u32,
    pub size: u32,
}

/// The model of an [`Entry`].
pub struct EntryView {
    pub name: Seq<char>,
    pub offset: u32,
    pub size: u32,
}

impl View for Entry {
    type V = EntryView;

    open spec fn view(&self) -> EntryView {
        EntryView { name: self.name@, offset: self.offset, size: self.size }
    }
}

/// The parsed index of a package.
#[derive(Debug)]
pub struct Header {
    pub entries: Vec<Entry>,
}

pub open spec fn entries_view(entries: Seq<Entry>) -> Seq<EntryView> {
    entries.map_values(|e: Entry| e@)
}

impl View for Header {
    type V = Seq<EntryView>;

    open spec fn view(&self) -> Seq<EntryView> {
        entries_view(self.entries@)
    }
}

/// An index entry as stored: the raw bytes of its name, then where its
/// contents lie.
pub struct RawEntry {
    pub name: Seq<u8>,
    pub offset: u32,
    pub size: u32,
}

/// What the reader makes of a stored entry.
pub open spec fn decoded_entry(e: RawEntry) -> EntryView {
    EntryView { name: utf8_lossy(e.name), offset: e.offset, size: e.size }
}

pub open spec fn decoded(es: Seq<RawEntry>) -> Seq<EntryView> {
    es.map_values(|e: RawEntry| decoded_entry(e))
}

/// The big-endian `u32` stored at `pos`.
pub open spec fn be32(b: Seq<u8>, pos: int) -> u32 {
    (b[pos] as int * 0x1000000 + b[pos + 1] as int * 0x10000 + b[pos + 2] as int * 0x100 + b[pos
        + 3] as int) as u32
}

/// The layout check: the fixed header, the index and the body must make up
/// the whole file.
pub open spec fn spec_file_layout(file_len: u64, index_len: u64, body_len: u64) -> Result<
    (),
    HeaderError,
> {
    let expected = HEADER_PREFIX_LEN + index_len + body_len;
    if expected > u64::MAX {
        Err(HeaderError::LengthOverflow)
    } else if expected != file_len {
        Err(HeaderError::LayoutMismatch { expected: expected as u64, actual: file_len })
    } else {
        Ok(())
    }
}

/// The index entry that follows `used` bytes of index (the index starts at
/// byte 14, so the entry starts at byte `used + 14`), with the number of index
/// bytes used once it is read. `cap` is the declared index length.
pub open spec fn spec_entry_at(data: Seq<u8>, cap: int, used: int) -> Result<
    (RawEntry, int),
    HeaderError,
> {
    let pos = used + 14;
    if pos + 4 > data.len() {
        Err(HeaderError::Truncated(HeaderField::NameLength))
    } else {
        let n = be32(data, pos);
        let next = used + 12 + n;
        if n > MAX_NAME_LEN {
            Err(HeaderError::NameTooLong { len: n })
        } else if next > cap {
            Err(HeaderError::IndexOverrun { used: next as u64, cap: cap as u64 })
        } else if pos + 4 + n > data.len() {
            Err(HeaderError::NameTruncated)
        } else if pos + 8 + n > data.len() {
            Err(HeaderError::Truncated(HeaderField::Offset))
        } else if pos + 12 + n > data.len() {
            Err(HeaderError::Truncated(HeaderField::Size))
        } else {
            Ok(
                (
                    RawEntry {
                        name: data.subrange(pos + 4, pos + 4 + n),
                        offset: be32(data, pos + 4 + n),
                        size: be32(data, pos + 8 + n),
                    },
                    next,
                ),
            )
        }
    }
}

/// The first `k` index entries and the index bytes they use (counting the
/// 4-byte entry count), or the first error met while reading them.
pub open spec fn spec_entries(data: Seq<u8>, cap: int, k: nat) -> Result<
    (Seq<RawEntry>, int),
    HeaderError,
>
    decreases k,
{
    if k == 0 {
        Ok((Seq::empty(), INDEX_MIN_LEN as int))
    } else {
        match spec_entries(data, cap, (k - 1) as nat) {
            Err(e) => Err(e),
            Ok((es, used)) => match spec_entry_at(data, cap, used) {
                Err(e) => Err(e),
                Ok((e, next)) => Ok((es.push(e), next)),
            },
        }
    }
}

/// The entries of a completely read index, which must fill its declared
/// length `cap` exactly.
pub open spec fn spec_index_result(
    read: Result<(Seq<RawEntry>, int), HeaderError>,
    cap: u32,
) -> Result<Seq<RawEntry>, HeaderError> {
    match read {
        Err(e) => Err(e),
        Ok((es, used)) => if used != cap {
            Err(HeaderError::IndexMismatch { used: used as u64, cap: cap as u64 })
        } else {
            Ok(es)
        },
    }
}

/// What reading the header of a package gives: its entries, or the first
/// fault, checked in the order in which the bytes are read.
pub open spec fn spec_read_header(data: Seq<u8>, file_len: u64) -> Result<
    Seq<RawEntry>,
    HeaderError,
> {
    if data.len() < 1 {
        Err(HeaderError::Truncated(HeaderField::FirstMark))
    } else if data.len() < 5 {
        Err(HeaderError::Truncated(HeaderField::Info1))
    } else if data.len() < 9 {
        Err(HeaderError::Truncated(HeaderField::IndexInfoLength))
    } else if data.len() < 13 {
        Err(HeaderError::Truncated(HeaderField::BodyInfoLength))
    } else if data.len() < 14 {
        Err(HeaderError::Truncated(HeaderField::LastMark))
    } else if data[0] != HEADER_FIRST || data[13] != HEADER_LAST {
        Err(HeaderError::BadMagic)
    } else {
        let cap = be32(data, 5);
        match spec_file_layout(file_len, cap as u64, be32(data, 9) as u64) {
            Err(e) => Err(e),
            Ok(_) => if (cap as u64) < INDEX_MIN_LEN {
                Err(HeaderError::IndexTooShort { index_len: cap })
            } else if data.len() < 18 {
                Err(HeaderError::Truncated(HeaderField::FileCount))
            } else if be32(data, 14) > MAX_FILE_COUNT {
                Err(HeaderError::TooManyFiles { count: be32(data, 14) })
            } else {
                spec_index_result(spec_entries(data, cap as int, be32(data, 14) as nat), cap)
            },
        }
    }
}

proof fn lemma_entries_err_sticks(data: Seq<u8>, cap: int, k: nat, n: nat)
    requires
        k <= n,
        spec_entries(data, cap, k) is Err,
    ensures
        spec_entries(data, cap, n) == spec_entries(data, cap, k),
    decreases n - k,
{
    if n > k {
        lemma_entries_err_sticks(data, cap, k, (n - 1) as nat);
    }
}

proof fn lemma_entries_count(data: Seq<u8>, cap: int, k: nat)
    ensures
        spec_entries(data, cap, k) matches Ok((es, used)) ==> es.len() == k && INDEX_MIN_LEN
            <= used && (k > 0 ==> used <= cap),
    decreases k,
{
    if k > 0 {
        lemma_entries_count(data, cap, (k - 1) as nat);
    }
}

/// A header that is read has at most [`MAX_FILE_COUNT`] entries, and its
/// fixed part, declared index and declared body make up exactly `file_len`
/// bytes, of which the index is read in full.
pub proof fn read_header_limits(data: Seq<u8>, file_len: u64)
    ensures
        spec_read_header(data, file_len) matches Ok(es) ==> {
            &&& es.len() <= MAX_FILE_COUNT
            &&& data.len() >= HEADER_PREFIX_LEN + be32(data, 5)
            &&& HEADER_PREFIX_LEN + be32(data, 5) + be32(data, 9) == file_len
        },
{
    if data.len() >= 18 {
        lemma_entries_count(data, be32(data, 5) as int, be32(data, 14) as nat);
        lemma_entries_in_data(data, be32(data, 5) as int, be32(data, 14) as nat);
    }
}

proof fn lemma_entries_in_data(data: Seq<u8>, cap: int, k: nat)
    ensures
        spec_entries(data, cap, k) matches Ok((es, used)) ==> used + 14 <= data.len() || k == 0,
    decreases k,
{
    if k > 0 {
        lemma_entries_in_data(data, cap, (k - 1) as nat);
    }
}

proof fn lemma_entry_at_prefix(data: Seq<u8>, l: int, cap: int, used: int)
    requires
        0 <= used <= cap,
        cap + 18 <= l <= data.len(),
    ensures
        spec_entry_at(data.take(l), cap, used) == spec_entry_at(data, cap, used),
{
    let p = data.take(l);
    let pos = used + 14;
    assert(be32(p, pos) == be32(data, pos));
    let n = be32(data, pos);
    if used + 12 + n <= cap {
        assert(be32(p, pos + 4 + n) == be32(data, pos + 4 + n));
        assert(be32(p, pos + 8 + n) == be32(data, pos + 8 + n));
        assert(p.subrange(pos + 4, pos + 4 + n) =~= data.subrange(pos + 4, pos + 4 + n));
    }
}

proof fn lemma_entries_prefix(data: Seq<u8>, l: int, cap: int, k: nat)
    requires
        INDEX_MIN_LEN <= cap,
        cap + 18 <= l <= data.len(),
    ensures
        spec_entries(data.take(l), cap, k) == spec_entries(data, cap, k),
    decreases k,
{
    if k > 0 {
        lemma_entries_prefix(data, l, cap, (k - 1) as nat);
        lemma_entries_count(data, cap, (k - 1) as nat);
        if let Ok((es, used)) = spec_entries(data, cap, (k - 1) as nat) {
            if k - 1 == 0 {
                assert(used == INDEX_MIN_LEN);
            }
            lemma_entry_at_prefix(data, l, cap, used);
        }
    }
}

/// How many leading bytes of a package of `file_len` bytes its header
/// reader needs, given its first bytes `head`: the fixed header, the
/// declared index and four bytes more, or the whole file when it is shorter
/// or `head` too short to declare an index length.
pub open spec fn spec_header_region_len(head: Seq<u8>, file_len: u64) -> u64 {
    if head.len() >= 9 && 18 + be32(head, 5) < file_len {
        (18 + be32(head, 5)) as u64
    } else {
        file_len
    }
}

/// How many leading bytes of a package of `file_len` bytes to hand to
/// [`read_header`], given at least its first 18 bytes (or the whole file
/// when shorter).
pub fn header_region_len(head: &[u8], file_len: u64) -> (n: u64)
    ensures
        n == spec_header_region_len(head@, file_len),
{
    if head.len() >= 9 {
        let mut pos: usize = 5;
        let cap = match read_u32_be(head, &mut pos, HeaderField::IndexInfoLength) {
            Ok(v) => v,
            Err(_) => 0,
        };
        if 18 + (cap as u64) < file_len {
            return 18 + cap as u64;
        }
    }
    file_len
}

/// Reading the first `spec_header_region_len` bytes of a package gives what
/// reading the whole package gives: the reader never looks further.
pub proof fn header_region_suffices(data: Seq<u8>, file_len: u64, head_len: int)
    requires
        data.len() == file_len,
        0 <= head_len <= data.len(),
        head_len >= 18 || head_len == data.len(),
    ensures
        spec_header_region_len(data.take(head_len), file_len) <= data.len(),
        spec_read_header(data.take(spec_header_region_len(data.take(head_len), file_len) as int), file_len)
            == spec_read_header(data, file_len),
{
    let head = data.take(head_len);
    let l = spec_header_region_len(head, file_len) as int;
    if l == data.len() {
        assert(data.take(l) =~= data);
    } else {
        assert(be32(head, 5) == be32(data, 5));
        let cap = be32(data, 5) as int;
        let p = data.take(l);
        assert(l == 18 + cap);
        assert(p[0] == data[0] && p[13] == data[13]);
        assert(be32(p, 5) == be32(data, 5));
        assert(be32(p, 9) == be32(data, 9));
        assert(be32(p, 14) == be32(data, 14));
        if cap >= INDEX_MIN_LEN {
            lemma_entries_prefix(data, l, cap, be32(data, 14) as nat);
        }
    }
}

/// Reads the byte at `*pos` and moves past it.
pub fn read_u8(data: &[u8], pos: &mut usize, what: HeaderField) -> (r: Result<u8, HeaderError>)
    ensures
        *old(pos) < data.len() ==> r == Ok::<u8, HeaderError>(data@[*old(pos) as int])
            && *final(pos) == *old(pos) + 1,
        *old(pos) >= data.len() ==> r == Err::<u8, HeaderError>(HeaderError::Truncated(what))
            && *final(pos) == *old(pos),
{
    if *pos < data.len() {
        let b = data[*pos];
        *pos = *pos + 1;
        Ok(b)
    } else {
        Err(HeaderError::Truncated(what))
    }
}

/// Reads the big-endian `u32` at `*pos` and moves past it.
pub fn read_u32_be(data: &[u8], pos: &mut usize, what: HeaderField) -> (r: Result<
    u32,
    HeaderError,
>)
    ensures
        *old(pos) + 4 <= data.len() ==> r == Ok::<u32, HeaderError>(be32(data@, *old(pos) as int))
            && *final(pos) == *old(pos) + 4,
        *old(pos) + 4 > data.len() ==> r == Err::<u32, HeaderError>(HeaderError::Truncated(what))
            && *final(pos) == *old(pos),
{
    let p = *pos;
    if p <= data.len() && data.len() - p >= 4 {
        let v: u32 = data[p] as u32 * 0x1000000 + data[p + 1] as u32 * 0x10000 + data[p + 2] as u32
            * 0x100 + data[p + 3] as u32;
        *pos = p + 4;
        Ok(v)
    } else {
        Err(HeaderError::Truncated(what))
    }
}

/// Checks that the fixed header, the index and the body make up the whole file.
pub fn validate_file_layout(file_len: u64, index_info_length: u64, body_info_length: u64) -> (r:
    Result<(), HeaderError>)
    ensures
        r == spec_file_layout(file_len, index_info_length, body_info_length),
{
    let expected = match HEADER_PREFIX_LEN.checked_add(index_info_length) {
        Some(v) => v.checked_add(body_info_length),
        None => None,
    };
    match expected {
        None => Err(HeaderError::LengthOverflow),
        Some(expected) => if expected != file_len {
            Err(HeaderError::LayoutMismatch { expected, actual: file_len })
        } else {
            Ok(())
        },
    }
}

/// Reads the header and index of a package from its bytes `data`;
/// `file_len` is the length of the whole package file.
pub fn read_header(data: &[u8], file_len: u64) -> (r: Result<Header, HeaderError>)
    ensures
        match spec_read_header(data@, file_len) {
            Ok(raw) => r matches Ok(h) && h@ == decoded(raw) && forall|j: int|
                0 <= j < raw.len() && valid_utf8(raw[j].name) ==> #[trigger] h.entries@[j].name@
                    == decode_utf8(raw[j].name),
            Err(e) => r == Err::<Header, HeaderError>(e),
        },
{
    let mut pos: usize = 0;
    let first = read_u8(data, &mut pos, HeaderField::FirstMark)?;
    let _info1 = read_u32_be(data, &mut pos, HeaderField::Info1)?;
    let index_info_length = read_u32_be(data, &mut pos, HeaderField::IndexInfoLength)?;
    let body_info_length = read_u32_be(data, &mut pos, HeaderField::BodyInfoLength)?;
    let last = read_u8(data, &mut pos, HeaderField::LastMark)?;
    if first != HEADER_FIRST || last != HEADER_LAST {
        return Err(HeaderError::BadMagic);
    }
    validate_file_layout(file_len, index_info_length as u64, body_info_length as u64)?;
    if (index_info_length as u64) < INDEX_MIN_LEN {
        return Err(HeaderError::IndexTooShort { index_len: index_info_length });
    }
    let file_count = read_u32_be(data, &mut pos, HeaderField::FileCount)?;
    if file_count > MAX_FILE_COUNT {
        return Err(HeaderError::TooManyFiles { count: file_count });
    }
    let cap: u64 = index_info_length as u64;
    let ghost icap: int = cap as int;
    let mut used: u64 = INDEX_MIN_LEN;
    let mut entries: Vec<Entry> = Vec::new();
    let mut i: u32 = 0;
    let ghost mut raws: Seq<RawEntry> = Seq::empty();
    assert(entries_view(entries@) =~= decoded(raws));
    while i < file_count
        invariant
            spec_read_header(data@, file_len) == spec_index_result(
                spec_entries(data@, icap, file_count as nat),
                index_info_length,
            ),
            INDEX_MIN_LEN <= used <= cap,
            cap == index_info_length,
            icap == cap as int,
            pos as int == used as int + 14,
            pos <= data.len(),
            i <= file_count,
            spec_entries(data@, icap, i as nat) == Ok::<(Seq<RawEntry>, int), HeaderError>(
                (raws, used as int),
            ),
            entries_view(entries@) == decoded(raws),
            raws.len() == entries@.len(),
            forall|j: int|
                0 <= j < raws.len() && valid_utf8(raws[j].name) ==> #[trigger] entries@[j].name@
                    == decode_utf8(raws[j].name),
        decreases file_count - i,
    {
        let name_len = match read_u32_be(data, &mut pos, HeaderField::NameLength) {
            Ok(n) => n,
            Err(e) => {
                proof {
                    lemma_entries_err_sticks(data@, icap, (i + 1) as nat, file_count as nat);
                }
                return Err(e);
            },
        };
        if name_len > MAX_NAME_LEN {
            proof {
                lemma_entries_err_sticks(data@, icap, (i + 1) as nat, file_count as nat);
            }
            return Err(HeaderError::NameTooLong { len: name_len });
        }
        let next = used + ENTRY_FIXED_LEN + name_len as u64;
        if next > cap {
            proof {
                lemma_entries_err_sticks(data@, icap, (i + 1) as nat, file_count as nat);
            }
            return Err(HeaderError::IndexOverrun { used: next, cap });
        }
        let n = name_len as usize;
        if data.len() - pos < n {
            proof {
                lemma_entries_err_sticks(data@, icap, (i + 1) as nat, file_count as nat);
            }
            return Err(HeaderError::NameTruncated);
        }
        let ghost name_bytes = data@.subrange(pos as int, pos + n);
        let name = decode_utf8_lossy(&data[pos..pos + n]);
        pos = pos + n;
        let offset = match read_u32_be(data, &mut pos, HeaderField::Offset) {
            Ok(v) => v,
            Err(e) => {
                proof {
                    lemma_entries_err_sticks(data@, icap, (i + 1) as nat, file_count as nat);
                }
                return Err(e);
            },
        };
        let size = match read_u32_be(data, &mut pos, HeaderField::Size) {
            Ok(v) => v,
            Err(e) => {
                proof {
                    lemma_entries_err_sticks(data@, icap, (i + 1) as nat, file_count as nat);
                }
                return Err(e);
            },
        };
        let entry = Entry { name, offset, size };
        let ghost old_entries = entries@;
        let ghost old_raws = raws;
        entries.push(entry);
        proof {
            raws = raws.push(RawEntry { name: name_bytes, offset, size });
            assert(entries_view(entries@) =~= entries_view(old_entries).push(entry@));
            assert(decoded(raws) =~= decoded(old_raws).push(decoded_entry(raws.last())));
            assert forall|j: int|
                0 <= j < raws.len() && valid_utf8(raws[j].name) implies #[trigger] entries@[j].name@
                == decode_utf8(raws[j].name) by {
                if j < old_raws.len() {
                    assert(entries@[j] == old_entries[j]);
                    assert(raws[j] == old_raws[j]);
                }
            }
        }
        used = next;
        i = i + 1;
    }
    if used != cap {
        return Err(HeaderError::IndexMismatch { used, cap });
    }
    Ok(Header { entries })
}

/// Suffix of the directory that a package is unpacked into.
pub const DEFAULT_UNPACK_TO: &'static str = "_unpack";

/// The name of the directory that the package file called `base` is
/// unpacked into, beside the package.
pub fn unpack_dir_name(base: &str) -> (r: String)
    ensures
        r@ == base@ + DEFAULT_UNPACK_TO@,
{
    let mut r = String::from_str(base);
    r.append(DEFAULT_UNPACK_TO);
    r
}

/// How the standard library describes reading past the end of the data.
pub const EOF_TEXT: &'static str = "failed to fill whole buffer";

impl HeaderField {
    /// The field's name as it appears in messages.
    pub open spec fn spec_label(self) -> Seq<char> {
        match self {
            HeaderField::FirstMark => "first header mark"@,
            HeaderField::Info1 => "info1"@,
            HeaderField::IndexInfoLength => "indexInfoLength"@,
            HeaderField::BodyInfoLength => "bodyInfoLength"@,
            HeaderField::LastMark => "last header mark"@,
            HeaderField::FileCount => "fileCount"@,
            HeaderField::NameLength => "name length"@,
            HeaderField::Offset => "offset"@,
            HeaderField::Size => "size"@,
        }
    }

    /// The field's name as it appears in messages.
    pub fn label(&self) -> (s: &'static str)
        ensures
            s@ == self.spec_label(),
    {
        match self {
            HeaderField::FirstMark => "first header mark",
            HeaderField::Info1 => "info1",
            HeaderField::IndexInfoLength => "indexInfoLength",
            HeaderField::BodyInfoLength => "bodyInfoLength",
            HeaderField::LastMark => "last header mark",
            HeaderField::FileCount => "fileCount",
            HeaderField::NameLength => "name length",
            HeaderField::Offset => "offset",
            HeaderField::Size => "size",
        }
    }
}

impl HeaderError {
    /// The message shown for this error.
    pub open spec fn spec_message(self) -> Seq<char> {
        match self {
            HeaderError::Truncated(f) => "读取 "@ + f.spec_label() + " 失败: "@ + EOF_TEXT@,
            HeaderError::NameTruncated => "读取文件名失败: "@ + EOF_TEXT@,
            HeaderError::BadMagic => "不是有效的 wxapkg 文件（header magic 不匹配）"@,
            HeaderError::LengthOverflow => "header 长度溢出，文件可能损坏"@,
            HeaderError::LayoutMismatch { expected, actual } => "header 长度不一致: header 计算 "@
                + decimal(expected as nat) + " 字节，实际文件 "@ + decimal(actual as nat) + " 字节"@,
            HeaderError::IndexTooShort { index_len } => "indexInfoLength="@ + decimal(
                index_len as nat,
            ) + " 小于最小值 "@ + decimal(INDEX_MIN_LEN as nat) + "，文件可能损坏"@,
            HeaderError::TooManyFiles { count } => "fileCount="@ + decimal(count as nat)
                + " 超出上限 "@ + decimal(MAX_FILE_COUNT as nat) + "，文件可能损坏"@,
            HeaderError::NameTooLong { len } => "文件名长度 "@ + decimal(len as nat) + " 超出上限 "@
                + decimal(MAX_NAME_LEN as nat) + "，文件可能损坏"@,
            HeaderError::IndexOverrun { used, cap } => "索引区超长: 已读取 "@ + decimal(used as nat)
                + " 字节，声明上限 "@ + decimal(cap as nat) + " 字节，文件可能损坏"@,
            HeaderError::IndexMismatch { used, cap } => "索引区长度不匹配: 实际读取 "@ + decimal(
                used as nat,
            ) + " 字节，header 声明 "@ + decimal(cap as nat) + " 字节"@,
        }
    }

    /// The message shown for this error.
    pub fn message(&self) -> (m: String)
        ensures
            m@ == self.spec_message(),
    {
        let mut m = String::new();
        match self {
            HeaderError::Truncated(f) => {
                m.append("读取 ");
                m.append(f.label());
                m.append(" 失败: ");
                m.append(EOF_TEXT);
            },
            HeaderError::NameTruncated => {
                m.append("读取文件名失败: ");
                m.append(EOF_TEXT);
            },
            HeaderError::BadMagic => {
                m.append("不是有效的 wxapkg 文件（header magic 不匹配）");
            },
            HeaderError::LengthOverflow => {
                m.append("header 长度溢出，文件可能损坏");
            },
            HeaderError::LayoutMismatch { expected, actual } => {
                m.append("header 长度不一致: header 计算 ");
                push_decimal(&mut m, *expected);
                m.append(" 字节，实际文件 ");
                push_decimal(&mut m, *actual);
                m.append(" 字节");
            },
            HeaderError::IndexTooShort { index_len } => {
                m.append("indexInfoLength=");
                push_decimal(&mut m, *index_len as u64);
                m.append(" 小于最小值 ");
                push_decimal(&mut m, INDEX_MIN_LEN);
                m.append("，文件可能损坏");
            },
            HeaderError::TooManyFiles { count } => {
                m.append("fileCount=");
                push_decimal(&mut m, *count as u64);
                m.append(" 超出上限 ");
                push_decimal(&mut m, MAX_FILE_COUNT as u64);
                m.append("，文件可能损坏");
            },
            HeaderError::NameTooLong { len } => {
                m.append("文件名长度 ");
                push_decimal(&mut m, *len as u64);
                m.append(" 超出上限 ");
                push_decimal(&mut m, MAX_NAME_LEN as u64);
                m.append("，文件可能损坏");
            },
            HeaderError::IndexOverrun { used, cap } => {
                m.append("索引区超长: 已读取 ");
                push_decimal(&mut m, *used);
                m.append(" 字节，声明上限 ");
                push_decimal(&mut m, *cap);
                m.append(" 字节，文件可能损坏");
            },
            HeaderError::IndexMismatch { used, cap } => {
                m.append("索引区长度不匹配: 实际读取 ");
                push_decimal(&mut m, *used);
                m.append(" 字节，header 声明 ");
                push_decimal(&mut m, *cap);
                m.append(" 字节");
            },
        }
        m
    }
}

/// Why an entry of a parsed package is not unpacked.
#[derive(Debug)]
pub enum UnpackError {
    /// The entry is larger than [`MAX_ENTRY_SIZE`].
    EntryTooLarge { name: String, size: u64 },
    /// The entry's bytes `offset..end` run past the end of the file.
    EntryOutOfRange { name: String, offset: u64, end: u64, file_len: u64 },
    /// The entry's name would leave the destination directory.
    SuspiciousPath { raw: String },
}

impl UnpackError {
    /// The message shown for this error.
    pub open spec fn spec_message(self) -> Seq<char> {
        match self {
            UnpackError::EntryTooLarge { name, size } => name@ + " 大小 "@ + decimal(size as nat)
                + " 超出单文件上限 "@ + decimal(MAX_ENTRY_SIZE as nat) + "，文件可能损坏"@,
            UnpackError::EntryOutOfRange { name, offset, end, file_len } => name@ + " 范围 ["@
                + decimal(offset as nat) + ".."@ + decimal(end as nat) + ") 超出文件长度 "@ + decimal(
                file_len as nat,
            ) + "，文件可能损坏"@,
            UnpackError::SuspiciousPath { raw } => "wxapkg 内含可疑路径 "@ + str_debug(raw@)
                + "，已拒绝（防止路径穿越）"@,
        }
    }

    /// The message shown for this error.
    pub fn message(&self) -> (m: String)
        ensures
            m@ == self.spec_message(),
    {
        let mut m = String::new();
        match self {
            UnpackError::EntryTooLarge { name, size } => {
                m.append(name.as_str());
                m.append(" 大小 ");
                push_decimal(&mut m, *size);
                m.append(" 超出单文件上限 ");
                push_decimal(&mut m, MAX_ENTRY_SIZE);
                m.append("，文件可能损坏");
            },
            UnpackError::EntryOutOfRange { name, offset, end, file_len } => {
                m.append(name.as_str());
                m.append(" 范围 [");
                push_decimal(&mut m, *offset);
                m.append("..");
                push_decimal(&mut m, *end);
                m.append(") 超出文件长度 ");
                push_decimal(&mut m, *file_len);
                m.append("，文件可能损坏");
            },
            UnpackError::SuspiciousPath { raw } => {
                m.append("wxapkg 内含可疑路径 ");
                let quoted = debug_str(raw.as_str());
                m.append(quoted.as_str());
                m.append("，已拒绝（防止路径穿越）");
            },
        }
        m
    }
}

/// Checks that an entry is not oversized and lies inside a file of
/// `file_len` bytes.
pub fn validate_entry_bounds(entry: &Entry, file_len: u64) -> (r: Result<(), UnpackError>)
    ensures
        r is Ok <==> entry.size <= MAX_ENTRY_SIZE && entry.offset + entry.size <= file_len,
        entry.size > MAX_ENTRY_SIZE ==> (r matches Err(UnpackError::EntryTooLarge { name, size })
            && name@ == entry.name@ && size == entry.size),
        entry.size <= MAX_ENTRY_SIZE && entry.offset + entry.size > file_len ==> (r matches Err(
            UnpackError::EntryOutOfRange { name, offset, end, file_len: len },
        ) && name@ == entry.name@ && offset == entry.offset && end == entry.offset + entry.size
            && len == file_len),
{
    let offset = entry.offset as u64;
    let size = entry.size as u64;
    if size > MAX_ENTRY_SIZE {
        return Err(UnpackError::EntryTooLarge { name: entry.name.clone(), size });
    }
    let end = offset + size;
    if end > file_len {
        return Err(
            UnpackError::EntryOutOfRange { name: entry.name.clone(), offset, end, file_len },
        );
    }
    Ok(())
}

/// `s` without its leading `/` characters.
pub open spec fn trim_leading_slashes(s: Seq<char>) -> Seq<char>
    decreases s.len(),
{
    if s.len() > 0 && s[0] == '/' {
        trim_leading_slashes(s.drop_first())
    } else {
        s
    }
}

/// The path conventions of a platform, as `std::path::Path` follows them.
#[derive(Clone, Copy, Debug, PartialEq, Eq, Structural)]
pub enum PathStyle {
    /// `/` separates components; there are no prefixes.
    Unix,
    /// `/` and `\` separate components; a path may start with a prefix such
    /// as `C:` or `\\server\share`.
    Windows,
}

/// `c` separates path components in `style`.
pub open spec fn is_separator(style: PathStyle, c: char) -> bool {
    c == '/' || (style == PathStyle::Windows && c == '\\')
}

/// A `..` component of `rel` starts at `i`.
pub open spec fn is_parent_component_at(style: PathStyle, rel: Seq<char>, i: int) -> bool {
    &&& 0 <= i
    &&& i + 2 <= rel.len()
    &&& rel[i] == '.'
    &&& rel[i + 1] == '.'
    &&& (i == 0 || is_separator(style, rel[i - 1]))
    &&& (i + 2 == rel.len() || is_separator(style, rel[i + 2]))
}

/// `rel` holds a `..` component.
pub open spec fn has_parent_component(style: PathStyle, rel: Seq<char>) -> bool {
    exists|i: int| #[trigger] is_parent_component_at(style, rel, i)
}

pub open spec fn is_ascii_alpha(c: char) -> bool {
    ('a' <= c <= 'z') || ('A' <= c <= 'Z')
}

/// `rel` starts with a root or a prefix component: a leading separator (on
/// Windows every prefix of the `\\...` kinds starts with one), or a drive
/// such as `C:`.
pub open spec fn has_root_or_prefix(style: PathStyle, rel: Seq<char>) -> bool {
    rel.len() > 0 && (is_separator(style, rel[0]) || (style == PathStyle::Windows && rel.len()
        >= 2 && is_ascii_alpha(rel[0]) && rel[1] == ':'))
}

/// The components of `rel` in `style` are not all normal or `.` components:
/// joined under a directory, it could leave that directory.
pub open spec fn path_refused(style: PathStyle, rel: Seq<char>) -> bool {
    has_root_or_prefix(style, rel) || has_parent_component(style, rel)
}

/// A path refused by the Unix rules is refused by the Windows rules too.
pub proof fn unix_refusal_implies_windows_refusal(rel: Seq<char>)
    ensures
        path_refused(PathStyle::Unix, rel) ==> path_refused(PathStyle::Windows, rel),
{
    if has_parent_component(PathStyle::Unix, rel) {
        let i = choose|i: int| is_parent_component_at(PathStyle::Unix, rel, i);
        assert(is_parent_component_at(PathStyle::Windows, rel, i));
    }
}

/// The platform's main path separator (`std::path::MAIN_SEPARATOR`), which
/// is `\` on Windows and `/` elsewhere; the contract states only that it is
/// one of the two.
#[verifier::external_body]
fn main_separator() -> (c: char)
    ensures
        c == '/' || c == '\\',
{
    std::path::MAIN_SEPARATOR
}

/// The path conventions of the platform the program runs on.
pub fn host_path_style() -> PathStyle {
    if main_separator() == '\\' {
        PathStyle::Windows
    } else {
        PathStyle::Unix
    }
}

/// The package path `raw` made relative (its leading `/`s dropped), or a
/// refusal when, in `style`, it has a root, prefix or `..` component.
pub fn safe_relative_path(style: PathStyle, raw: &str) -> (r: Result<String, UnpackError>)
    ensures
        path_refused(style, trim_leading_slashes(raw@)) <==> r is Err,
        r matches Ok(rel) ==> rel@ == trim_leading_slashes(raw@),
        r matches Err(e) ==> (e matches UnpackError::SuspiciousPath { raw: x } && x@ == raw@),
{
    let v = chars_of(raw);
    let len = v.len();
    let mut k: usize = 0;
    assert(v@.skip(0) =~= v@);
    while k < len && v[k] == '/'
        invariant
            k <= len == v@.len(),
            v@ == raw@,
            trim_leading_slashes(raw@) == trim_leading_slashes(v@.skip(k as int)),
        decreases len - k,
    {
        assert(v@.skip(k as int).drop_first() =~= v@.skip(k + 1));
        k = k + 1;
    }
    let ghost rel = v@.skip(k as int);
    assert(trim_leading_slashes(rel) == rel);
    let windows = style == PathStyle::Windows;
    if k < len {
        let c0 = v[k];
        let sep0 = c0 == '/' || (windows && c0 == '\\');
        let drive = windows && len - k >= 2 && (('a' <= c0 && c0 <= 'z') || ('A' <= c0 && c0
            <= 'Z')) && v[k + 1] == ':';
        if sep0 || drive {
            assert(has_root_or_prefix(style, rel));
            return Err(UnpackError::SuspiciousPath { raw: String::from_str(raw) });
        }
    }
    assert(!has_root_or_prefix(style, rel));
    let mut i: usize = k;
    while i < len
        invariant
            k <= i <= len == v@.len(),
            rel == v@.skip(k as int),
            trim_leading_slashes(raw@) == rel,
            windows == (style == PathStyle::Windows),
            !has_root_or_prefix(style, rel),
            forall|j: int| 0 <= j < i - k ==> !is_parent_component_at(style, rel, j),
        decreases len - i,
    {
        let at_start = i == k || v[i - 1] == '/' || (windows && v[i - 1] == '\\');
        let at_end = len - i == 2 || (len - i > 2 && (v[i + 2] == '/' || (windows && v[i + 2]
            == '\\')));
        if at_start && len - i >= 2 && v[i] == '.' && v[i + 1] == '.' && at_end {
            assert(is_parent_component_at(style, rel, i - k));
            return Err(UnpackError::SuspiciousPath { raw: String::from_str(raw) });
        }
        assert(!is_parent_component_at(style, rel, i - k));
        i = i + 1;
    }
    assert(!has_parent_component(style, rel));
    let mut out = String::new();
    push_chars(&mut out, &v, k, len);
    assert(v@.subrange(k as int, len as int) =~= rel);
    Ok(out)
}

/// Where a package entry is written: `relative` under the directory
/// `dest_root`, as `Path::join` puts it there.
#[derive(Debug)]
pub struct SafeTarget {
    pub dest_root: String,
    pub relative: String,
}

/// Places the package path `raw` under the directory `dest_root`, after
/// dropping its leading `/`s; refuses a path that, by the rules of the
/// platform it runs on, has a root, prefix or `..` component, which could
/// leave `dest_root`. Whatever the platform, a path refused by the Unix rules
/// is refused and a path accepted by the Windows rules is accepted.
pub fn resolve_safe_path(dest_root: &str, raw: &str) -> (r: Result<SafeTarget, UnpackError>)
    ensures
        exists|style: PathStyle|
            #[trigger] path_refused(style, trim_leading_slashes(raw@)) <==> r is Err,
        path_refused(PathStyle::Unix, trim_leading_slashes(raw@)) ==> r is Err,
        !path_refused(PathStyle::Windows, trim_leading_slashes(raw@)) ==> r is Ok,
        r matches Ok(t) ==> t.dest_root@ == dest_root@ && t.relative@ == trim_leading_slashes(
            raw@,
        ),
        r matches Err(e) ==> (e matches UnpackError::SuspiciousPath { raw: x } && x@ == raw@),
{
    let style = host_path_style();
    proof {
        unix_refusal_implies_windows_refusal(trim_leading_slashes(raw@));
    }
    match safe_relative_path(style, raw) {
        Ok(relative) => Ok(SafeTarget { dest_root: String::from_str(dest_root), relative }),
        Err(e) => Err(e),
    }
}

/// An entry that is unpacked: the entry at `index`, written to `relative`
/// under the destination, with the package bytes `start..end`.
#[derive(Debug)]
pub struct PlannedFile {
    pub index: usize,
    pub relative: String,
    pub start: u64,
    pub end: u64,
}

/// The entry is small enough and lies inside a file of `file_len` bytes.
pub open spec fn entry_fits(e: EntryView, file_len: u64) -> bool {
    e.size <= MAX_ENTRY_SIZE && e.offset + e.size <= file_len
}

/// The entry is unpacked.
pub open spec fn entry_accepted(style: PathStyle, e: EntryView, file_len: u64) -> bool {
    entry_fits(e, file_len) && !path_refused(style, trim_leading_slashes(e.name))
}

/// `err` is the error for the refused entry `e`: its size is checked first,
/// then its range, then its path.
pub open spec fn is_entry_fault(style: PathStyle, e: EntryView, file_len: u64, err: UnpackError) -> bool {
    if e.size > MAX_ENTRY_SIZE {
        err matches UnpackError::EntryTooLarge { name, size } && name@ == e.name && size == e.size
    } else if e.offset + e.size > file_len {
        err matches UnpackError::EntryOutOfRange { name, offset, end, file_len: l } && name@
            == e.name && offset == e.offset && end == e.offset + e.size && l == file_len
    } else {
        path_refused(style, trim_leading_slashes(e.name)) && (err matches UnpackError::SuspiciousPath {
            raw,
        } && raw@ == e.name)
    }
}

/// `p` is the plan for entry `j` of `entries`: it is accepted and written
/// from its own bytes to its relative path.
pub open spec fn is_planned_entry(
    style: PathStyle,
    entries: Seq<Entry>,
    file_len: u64,
    p: PlannedFile,
    j: int,
) -> bool {
    &&& p.index == j
    &&& p.relative@ == trim_leading_slashes(entries[j].name@)
    &&& p.start == entries[j].offset
    &&& p.end == entries[j].offset + entries[j].size
    &&& entry_accepted(style, entries[j]@, file_len)
}

/// What unpacking the entries of a file of `file_len` bytes writes, in
/// order: every entry up to the first refused one, and the error for that
/// one, if any.
pub fn plan_unpack(style: PathStyle, entries: &Vec<Entry>, file_len: u64) -> (r: (
    Vec<PlannedFile>,
    Option<UnpackError>,
))
    ensures
        r.0@.len() <= entries@.len(),
        forall|j: int|
            0 <= j < r.0@.len() ==> is_planned_entry(style, entries@, file_len, #[trigger] r.0@[j], j),
        r.1 is None ==> r.0@.len() == entries@.len(),
        r.1 matches Some(e) ==> r.0@.len() < entries@.len() && is_entry_fault(
            style,
            entries@[r.0@.len() as int]@,
            file_len,
            e,
        ),
{
    let mut planned: Vec<PlannedFile> = Vec::new();
    let n = entries.len();
    for i in 0..n
        invariant
            n == entries@.len(),
            planned@.len() == i,
            forall|j: int|
                0 <= j < i ==> is_planned_entry(style, entries@, file_len, #[trigger] planned@[j], j),
    {
        let entry = &entries[i];
        if let Err(e) = validate_entry_bounds(entry, file_len) {
            return (planned, Some(e));
        }
        match safe_relative_path(style, entry.name.as_str()) {
            Ok(relative) => {
                let ghost old_planned = planned@;
                planned.push(
                    PlannedFile {
                        index: i,
                        relative,
                        start: entry.offset as u64,
                        end: entry.offset as u64 + entry.size as u64,
                    },
                );
                assert forall|j: int| 0 <= j < i + 1 implies is_planned_entry(
                    style,
                    entries@,
                    file_len,
                    #[trigger] planned@[j],
                    j,
                ) by {
                    if j < i {
                        assert(planned@[j] == old_planned[j]);
                    }
                }
            },
            Err(e) => {
                return (planned, Some(e));
            },
        }
    }
    (planned, None)
}

} // verus!
