//! Reading the central directory of a zip archive.
use vstd::prelude::*;
use vstd::slice::slice_to_vec;
use crate::compression::{decompress_sync, decompress_sync_spec, result_view, CompressError};

verus! {

/// The little-endian 16-bit integer at `i`.
pub open spec fn le16(b: Seq<u8>, i: int) -> int {
    b[i] + 256 * b[i + 1]
}

/// The little-endian 32-bit integer at `i`.
pub open spec fn le32(b: Seq<u8>, i: int) -> int {
    le16(b, i) + 65536 * le16(b, i + 2)
}

fn read_le16(b: &[u8], i: usize) -> (r: Option<usize>)
    ensures
        match r {
            Some(v) => i + 2 <= b@.len() && v == le16(b@, i as int),
            None => i + 2 > b@.len(),
        },
{
    if i >= b.len() || b.len() - i < 2 {
        return None;
    }
    Some(b[i] as usize + 256 * (b[i + 1] as usize))
}

fn read_le32(b: &[u8], i: usize) -> (r: Option<usize>)
    ensures
        match r {
            Some(v) => i + 4 <= b@.len() && v == le32(b@, i as int),
            None => i + 4 > b@.len(),
        },
{
    if i >= b.len() || b.len() - i < 4 {
        return None;
    }
    let lo = b[i] as usize + 256 * (b[i + 1] as usize);
    let hi = b[i + 2] as usize + 256 * (b[i + 3] as usize);
    Some(lo + 65536 * hi)
}

/// Whether the end-of-central-directory signature `PK\x05\x06` starts at `s`.
pub open spec fn eocd_at(raw: Seq<u8>, s: int) -> bool {
    &&& 0 <= s
    &&& s + 4 <= raw.len()
    &&& raw[s] == 0x50
    &&& raw[s + 1] == 0x4b
    &&& raw[s + 2] == 0x05
    &&& raw[s + 3] == 0x06
}

/// The last position in (`bound`, `s`] where the signature starts.
pub open spec fn scan_eocd(raw: Seq<u8>, s: int, bound: int) -> Option<int>
    decreases s - bound,
{
    if s <= bound {
        None
    } else if eocd_at(raw, s) {
        Some(s)
    } else {
        scan_eocd(raw, s - 1, bound)
    }
}

/// The lowest position searched: the record sits in the last 65,535 + 22
/// bytes, and never at position 2 or below.
pub open spec fn eocd_bound(len: int) -> int {
    let search = len - 20;
    if search > 65516 && search - 65516 > 2 {
        search - 65516
    } else {
        2
    }
}

/// Where the end-of-central-directory record starts, searching backwards
/// from 20 bytes before the end.
pub open spec fn find_eocd_spec(raw: Seq<u8>) -> Option<int> {
    if raw.len() < 20 {
        None
    } else {
        scan_eocd(raw, raw.len() - 20, eocd_bound(raw.len() as int))
    }
}

fn find_end_central_directory(raw: &[u8]) -> (r: Option<usize>)
    ensures
        match r {
            Some(s) => find_eocd_spec(raw@) == Some(s as int),
            None => find_eocd_spec(raw@) is None,
        },
{
    if raw.len() < 20 {
        return None;
    }
    let mut search = raw.len() - 20;
    let bound = if search > 65516 && search - 65516 > 2 {
        search - 65516
    } else {
        2
    };
    while search > bound
        invariant
            raw@.len() >= 20,
            bound == eocd_bound(raw@.len() as int),
            search <= raw@.len() - 20,
            find_eocd_spec(raw@) == scan_eocd(raw@, search as int, bound as int),
        decreases search,
    {
        if raw[search] == 0x50 && raw[search + 1] == 0x4b && raw[search + 2] == 0x05 && raw[search
            + 3] == 0x06 {
            return Some(search);
        }
        search = search - 1;
    }
    None
}

/// What `String::from_utf8_lossy` makes of `b`.
pub uninterp spec fn utf8_lossy(b: Seq<u8>) -> Seq<char>;

/// Relies on String::from_utf8_lossy: decodes UTF-8, replacing invalid
/// sequences; valid input decodes exactly.
#[verifier::external_body]
fn lossy_string(b: &[u8]) -> (r: String)
    ensures
        r@ == utf8_lossy(b@),
        vstd::utf8::valid_utf8(b@) ==> r@ == vstd::utf8::decode_utf8(b@),
{
    String::from_utf8_lossy(b).into_owned()
}

/// An entry of a zip archive: its name, comment, compression method and
/// stored bytes.
pub struct ZipItem {
    /// The file name.
    pub filename: String,
    /// The file comment.
    pub comment: String,
    /// The compression method of the stored bytes.
    pub method: u16,
    /// The stored bytes.
    pub data: Vec<u8>,
}

/// The contents of a zip entry: inflated when the method has bit 3 set,
/// the stored bytes for method 0, an error for any other method.
pub open spec fn zip_read_spec(method: u16, data: Seq<u8>) -> Result<Seq<u8>, CompressError> {
    if method & 8 != 0 {
        match decompress_sync_spec(data, None) {
            Ok(v) => Ok(v),
            Err(_) => Err(CompressError::ReadError),
        }
    } else if method > 0 {
        Err(CompressError::InvalidCompressionMethod)
    } else {
        Ok(data)
    }
}

impl ZipItem {
    /// The entry's contents.
    pub fn read(&self) -> (r: Result<Vec<u8>, CompressError>)
        ensures
            match r {
                Ok(v) => zip_read_spec(self.method, self.data@) == Ok::<Seq<u8>, CompressError>(v@),
                Err(e) => zip_read_spec(self.method, self.data@) == Err::<Seq<u8>, CompressError>(e),
            },
    {
        if self.method & 8 != 0 {
            let r = decompress_sync(self.data.as_slice(), None);
            proof {
                assert(result_view(r) == decompress_sync_spec(self.data@, None));
            }
            match r {
                Ok(v) => Ok(v),
                Err(_) => Err(CompressError::ReadError),
            }
        } else if self.method > 0 {
            Err(CompressError::InvalidCompressionMethod)
        } else {
            Ok(slice_to_vec(self.data.as_slice()))
        }
    }
}

/// A position found by the backward search lies at or before its start.
pub proof fn lemma_scan_bound(raw: Seq<u8>, s: int, bound: int)
    ensures
        scan_eocd(raw, s, bound) matches Some(x) ==> bound < x <= s,
    decreases s - bound,
{
    if s > bound && !eocd_at(raw, s) {
        lemma_scan_bound(raw, s - 1, bound);
    }
}

/// A central directory entry as read from `raw` at `at`: the name bytes,
/// the comment bytes, the compression method and the stored bytes; `None`
/// when a field lies past the end of the archive.
pub open spec fn entry_spec(raw: Seq<u8>, at: int) -> Option<(Seq<u8>, Seq<u8>, int, Seq<u8>)> {
    if at + 46 > raw.len() {
        None
    } else {
        let method = le16(raw, at + 10);
        let name_len = le16(raw, at + 28);
        let extra_len = le16(raw, at + 30);
        let comment_len = le16(raw, at + 32);
        let size = le32(raw, at + 20);
        let local = le32(raw, at + 42);
        let name_end = at + 46 + name_len;
        let comment_start = name_end + extra_len;
        let comment_end = comment_start + comment_len;
        if comment_end > raw.len() || local + 30 > raw.len() {
            None
        } else {
            let start = local + 30 + le16(raw, local + 26) + le16(raw, local + 28);
            let stop = start + size;
            if stop > raw.len() {
                None
            } else {
                Some(
                    (
                        raw.subrange(at + 46, name_end),
                        raw.subrange(comment_start, comment_end),
                        method,
                        raw.subrange(start, stop),
                    ),
                )
            }
        }
    }
}

/// Whether `item` holds the entry `e`.
pub open spec fn item_holds(item: ZipItem, e: (Seq<u8>, Seq<u8>, int, Seq<u8>)) -> bool {
    &&& item.filename@ == utf8_lossy(e.0)
    &&& item.comment@ == utf8_lossy(e.1)
    &&& item.method == e.2
    &&& item.data@ == e.3
}

/// The entry count of the end record at `e`, the count of entries on this
/// disk, and where the central directory starts.
pub open spec fn eocd_fields(raw: Seq<u8>, e: int) -> (int, int, int) {
    (le16(raw, e + 10), le16(raw, e + 8), le32(raw, e + 16))
}

fn read_entry(raw: &[u8], at: usize) -> (r: Option<(ZipItem, u128)>)
    ensures
        match r {
            Some((item, next)) => entry_spec(raw@, at as int) matches Some(e) && item_holds(item, e)
                && next == next_record(raw@, at as int),
            None => entry_spec(raw@, at as int) is None,
        },
{
    let len = raw.len() as u128;
    let at64 = at as u128;
    if at64 + 46 > len {
        return None;
    }
    let method = read_le16(raw, at + 10).unwrap();
    let name_len = read_le16(raw, at + 28).unwrap() as u128;
    let extra_len = read_le16(raw, at + 30).unwrap() as u128;
    let comment_len = read_le16(raw, at + 32).unwrap() as u128;
    let size = read_le32(raw, at + 20).unwrap() as u128;
    let local = read_le32(raw, at + 42).unwrap() as u128;
    let name_end = at64 + 46 + name_len;
    let comment_start = name_end + extra_len;
    let comment_end = comment_start + comment_len;
    if comment_end > len || local + 30 > len {
        return None;
    }
    let l = local as usize;
    let start = local + 30 + read_le16(raw, l + 26).unwrap() as u128 + read_le16(raw, l + 28).unwrap() as u128;
    let stop = start + size;
    if stop > len {
        return None;
    }
    let filename = lossy_string(&raw[at + 46..name_end as usize]);
    let comment = lossy_string(&raw[comment_start as usize..comment_end as usize]);
    let data = slice_to_vec(&raw[start as usize..stop as usize]);
    Some((ZipItem { filename, comment, method: method as u16, data }, comment_end))
}

/// Where the central directory record after the one at `at` starts: past
/// its 46 fixed bytes, its name, its extra field and its comment.
pub open spec fn next_record(raw: Seq<u8>, at: int) -> int {
    at + 46 + le16(raw, at + 28) + le16(raw, at + 30) + le16(raw, at + 32)
}

/// Where the `m`-th central directory record starts, the first at `dir`.
pub open spec fn record_at(raw: Seq<u8>, dir: int, m: nat) -> int
    decreases m,
{
    if m == 0 {
        dir
    } else {
        next_record(raw, record_at(raw, dir, (m - 1) as nat))
    }
}

/// Whether the first `n` records from `dir` can all be read.
pub open spec fn records_readable(raw: Seq<u8>, dir: int, n: nat) -> bool {
    forall|m: nat| m < n ==> #[trigger] entry_spec(raw, record_at(raw, dir, m)) is Some
}

/// Whether `item` holds the `m`-th record from `dir`.
pub open spec fn record_held(raw: Seq<u8>, dir: int, item: ZipItem, m: int) -> bool {
    entry_spec(raw, record_at(raw, dir, m as nat)) matches Some(e) && item_holds(item, e)
}

/// Where the central directory starts, by the end record.
pub open spec fn directory_start(raw: Seq<u8>) -> int {
    eocd_fields(raw, find_eocd_spec(raw)->Some_0).2
}

/// The number of entries of the archive, or why it cannot be listed: no
/// end record, an archive over several disks, or a record that cannot be
/// read.
pub open spec fn zip_listing(raw: Seq<u8>) -> Result<int, CompressError> {
    match find_eocd_spec(raw) {
        None => Err(CompressError::BadZipFormat),
        Some(e) => {
            let (count, on_disk, dir) = eocd_fields(raw, e);
            if count != on_disk {
                Err(CompressError::ZipMultiDiskNotSupported)
            } else if !records_readable(raw, dir, count as nat) {
                Err(CompressError::BadZipFormat)
            } else {
                Ok(count)
            }
        },
    }
}

/// Lists the entries of a zip archive, reading its central directory
/// records one after another.
pub fn iter_items(raw: &[u8]) -> (r: Result<Vec<ZipItem>, CompressError>)
    ensures
        match r {
            Ok(items) => zip_listing(raw@) == Ok::<int, CompressError>(items@.len() as int)
                && forall|m: int|
                0 <= m < items@.len() ==> record_held(raw@, directory_start(raw@), #[trigger] items@[m], m),
            Err(err) => zip_listing(raw@) == Err::<int, CompressError>(err),
        },
{
    let e = match find_end_central_directory(raw) {
        Some(e) => e,
        None => return Err(CompressError::BadZipFormat),
    };
    let n = raw.len();
    proof {
        assert(n == raw@.len());
        assert(raw@.len() >= 20);
        assert(find_eocd_spec(raw@) == scan_eocd(raw@, raw@.len() - 20, eocd_bound(raw@.len() as int)));
        lemma_scan_bound(raw@, raw@.len() - 20, eocd_bound(raw@.len() as int));
        assert(e + 20 <= raw@.len());
    }
    let file_count = read_le16(raw, e + 10).unwrap();
    if file_count != read_le16(raw, e + 8).unwrap() {
        return Err(CompressError::ZipMultiDiskNotSupported);
    }
    let dir = read_le32(raw, e + 16).unwrap();
    let ghost d = dir as int;
    let mut items: Vec<ZipItem> = Vec::new();
    let mut at: u128 = dir as u128;
    let mut k: usize = 0;
    while k < file_count
        invariant
            0 <= k <= file_count,
            n == raw@.len(),
            find_eocd_spec(raw@) == Some(e as int),
            file_count == eocd_fields(raw@, e as int).0,
            file_count == eocd_fields(raw@, e as int).1,
            d == eocd_fields(raw@, e as int).2,
            d == directory_start(raw@),
            items@.len() == k,
            at == record_at(raw@, d, k as nat),
            forall|m: int| 0 <= m < k ==> record_held(raw@, d, #[trigger] items@[m], m),
        decreases file_count - k,
    {
        if at > n as u128 {
            proof {
                assert(entry_spec(raw@, record_at(raw@, d, k as nat)) is None);
                assert(!records_readable(raw@, d, file_count as nat));
            }
            return Err(CompressError::BadZipFormat);
        }
        let at_u = at as usize;
        assert(at_u as int == record_at(raw@, d, k as nat));
        let entry = read_entry(raw, at_u);
        if entry.is_none() {
            proof {
                assert(entry_spec(raw@, record_at(raw@, d, k as nat)) is None);
                assert(!records_readable(raw@, d, file_count as nat));
            }
            return Err(CompressError::BadZipFormat);
        }
        let (item, next) = entry.unwrap();
        let ghost before = items@;
        let ghost gi = item;
        proof {
            assert(entry_spec(raw@, record_at(raw@, d, k as nat)) matches Some(en) && item_holds(gi, en));
        }
        items.push(item);
        at = next;
        proof {
            assert(record_at(raw@, d, (k + 1) as nat) == next_record(raw@, record_at(raw@, d, k as nat)));
            assert(at == record_at(raw@, d, (k + 1) as nat));
            assert(items@.len() == k + 1);
            assert forall|m: int| 0 <= m < k + 1 implies record_held(raw@, d, #[trigger] items@[m], m) by {
                if m < k {
                    assert(items@[m] == before[m]);
                } else {
                    assert(items@[m] == gi);
                    assert(m as nat == k as nat);
                }
            }
        }
        k = k + 1;
    }
    proof {
        assert forall|m: nat| m < file_count as nat implies #[trigger] entry_spec(
            raw@,
            record_at(raw@, d, m),
        ) is Some by {
            assert(k == file_count);
            let mi = m as int;
            assert(0 <= mi < k);
            assert(mi as nat == m);
            assert(record_held(raw@, d, items@[mi], mi));
        }
    }
    Ok(items)
}

} // verus!
