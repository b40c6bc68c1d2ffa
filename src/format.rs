use vstd::prelude::*;
use vstd::utf8::*;
use crate::wad::FileRecord;

verus! {

/// The five signature bytes `KIWAD` (ASCII) that open every archive.
pub open spec fn magic() -> Seq<u8> {
    seq![75u8, 73u8, 87u8, 65u8, 68u8]
}

/// Length of the fixed part of an entry record, up to and including the
/// length prefix of its name.
pub const RECORD_FIXED_LEN: usize = 21;

/// An archive-level failure: nothing of the archive is returned.
#[derive(Debug, Clone, Copy, PartialEq, Eq, Structural)]
pub enum ParseError {
    /// The first five bytes are not `KIWAD`.
    MalformedHeader,
    /// The buffer ends before a field that the format requires.
    TruncatedRecord,
    /// An entry name is not valid UTF-8 once its NUL bytes are removed.
    InvalidName,
}

/// One decoded entry record, as a mathematical value.
pub struct EntryModel {
    pub offset: u32,
    pub size: u32,
    pub zip_size: u32,
    pub zipped: bool,
    pub crc32: u32,
    pub name: Seq<char>,
}

/// A decoded archive: its header fields, its entries in file order, and the
/// position just past the entry table.
pub struct ArchiveModel {
    pub version: u32,
    pub count: u32,
    pub entries: Seq<EntryModel>,
    pub table_end: int,
}

/// The little-endian `u32` stored at `b[p..p + 4]`.
pub open spec fn u32_at(b: Seq<u8>, p: int) -> u32 {
    (b[p] as int + b[p + 1] as int * 0x100 + b[p + 2] as int * 0x1_0000
        + b[p + 3] as int * 0x100_0000) as u32
}

/// `s` with every zero byte removed.
pub open spec fn strip_nul(s: Seq<u8>) -> Seq<u8>
    decreases s.len(),
{
    if s.len() == 0 {
        Seq::empty()
    } else {
        let r = strip_nul(s.drop_last());
        if s.last() == 0 {
            r
        } else {
            r.push(s.last())
        }
    }
}

pub open spec fn has_suffix(s: Seq<u8>, t: Seq<u8>) -> bool {
    t.len() <= s.len() && s.subrange(s.len() - t.len(), s.len() as int) == t
}

/// Names ending in `.wav`, `.ogg` or `.mp3` (ASCII): audio files, which are
/// never inflated whatever their flag says.
pub open spec fn is_audio_name(n: Seq<u8>) -> bool {
    has_suffix(n, seq![46u8, 119u8, 97u8, 118u8]) || has_suffix(n, seq![46u8, 111u8, 103u8, 103u8])
        || has_suffix(n, seq![46u8, 109u8, 112u8, 51u8])
}

/// The record that starts at `p`: offset, raw size, stored size, flag byte,
/// checksum, then a name whose length is a signed 32-bit prefix. A negative
/// length, like any field that runs past the buffer, is a truncation.
pub open spec fn decode_entry(b: Seq<u8>, p: int) -> Result<(EntryModel, int), ParseError> {
    if p + 21 > b.len() {
        Err(ParseError::TruncatedRecord)
    } else {
        let l = u32_at(b, p + 17) as int;
        if l >= 0x8000_0000 || p + 21 + l > b.len() {
            Err(ParseError::TruncatedRecord)
        } else {
            let n = strip_nul(b.subrange(p + 21, p + 21 + l));
            if !valid_utf8(n) {
                Err(ParseError::InvalidName)
            } else {
                Ok(
                    (
                        EntryModel {
                            offset: u32_at(b, p),
                            size: u32_at(b, p + 4),
                            zip_size: u32_at(b, p + 8),
                            zipped: b[p + 12] != 0 && !is_audio_name(n),
                            crc32: u32_at(b, p + 13),
                            name: decode_utf8(n),
                        },
                        p + 21 + l,
                    ),
                )
            }
        }
    }
}

/// The first `n` records of the table that starts at `start`, and the
/// position after them.
pub open spec fn decode_entries(b: Seq<u8>, start: int, n: nat) -> Result<
    (Seq<EntryModel>, int),
    ParseError,
>
    decreases n,
{
    if n == 0 {
        Ok((Seq::empty(), start))
    } else {
        match decode_entries(b, start, (n - 1) as nat) {
            Err(e) => Err(e),
            Ok((es, q)) => match decode_entry(b, q) {
                Err(e) => Err(e),
                Ok((e, r)) => Ok((es.push(e), r)),
            },
        }
    }
}

/// Where the entry table begins: one reserved byte follows the header from
/// version 2 on.
pub open spec fn table_start(version: u32) -> int {
    if version >= 2 {
        14
    } else {
        13
    }
}

/// The whole archive read from `b`.
pub open spec fn parse_archive(b: Seq<u8>) -> Result<ArchiveModel, ParseError> {
    if b.len() < 5 {
        Err(ParseError::TruncatedRecord)
    } else if b.subrange(0, 5) != magic() {
        Err(ParseError::MalformedHeader)
    } else if b.len() < 13 {
        Err(ParseError::TruncatedRecord)
    } else {
        let version = u32_at(b, 5);
        let count = u32_at(b, 9);
        if b.len() < table_start(version) {
            Err(ParseError::TruncatedRecord)
        } else {
            match decode_entries(b, table_start(version), count as nat) {
                Err(e) => Err(e),
                Ok((es, end)) => Ok(
                    ArchiveModel { version, count, entries: es, table_end: end },
                ),
            }
        }
    }
}

pub open spec fn records_view(fs: Seq<FileRecord>) -> Seq<EntryModel> {
    fs.map_values(|f: FileRecord| f@)
}

/// `true` exactly when `input` is the signature `KIWAD`.
pub fn is_magic(input: &[u8]) -> (r: bool)
    ensures
        r == (input@ == magic()),
{
    if input.len() != 5 {
        return false;
    }
    let r = input[0] == 75u8 && input[1] == 73u8 && input[2] == 87u8 && input[3] == 65u8
        && input[4] == 68u8;
    if r {
        assert(input@ =~= magic());
    }
    r
}

fn read_u32_le(b: &[u8], p: usize) -> (r: u32)
    requires
        p + 4 <= b@.len(),
    ensures
        r == u32_at(b@, p as int),
{
    b[p] as u32 + b[p + 1] as u32 * 0x100 + b[p + 2] as u32 * 0x1_0000 + b[p + 3] as u32
        * 0x100_0000
}

fn strip_nul_bytes(s: &[u8]) -> (r: Vec<u8>)
    ensures
        r@ == strip_nul(s@),
{
    let mut out: Vec<u8> = Vec::new();
    let mut i: usize = 0;
    while i < s.len()
        invariant
            i <= s@.len(),
            out@ == strip_nul(s@.subrange(0, i as int)),
        decreases s@.len() - i,
    {
        assert(s@.subrange(0, i + 1).drop_last() =~= s@.subrange(0, i as int));
        if s[i] != 0 {
            out.push(s[i]);
        }
        i += 1;
    }
    assert(s@.subrange(0, s@.len() as int) =~= s@);
    out
}

fn has_suffix4(s: &[u8], a: u8, b: u8, c: u8, d: u8) -> (r: bool)
    ensures
        r == has_suffix(s@, seq![a, b, c, d]),
{
    let n = s.len();
    if n < 4 {
        return false;
    }
    let r = s[n - 4] == a && s[n - 3] == b && s[n - 2] == c && s[n - 1] == d;
    let ghost sub = s@.subrange(n - 4, n as int);
    if r {
        assert(sub =~= seq![a, b, c, d]);
    } else {
        assert(sub[0] != a || sub[1] != b || sub[2] != c || sub[3] != d);
    }
    r
}

fn is_audio(n: &[u8]) -> (r: bool)
    ensures
        r == is_audio_name(n@),
{
    has_suffix4(n, 46u8, 119u8, 97u8, 118u8) || has_suffix4(n, 46u8, 111u8, 103u8, 103u8)
        || has_suffix4(n, 46u8, 109u8, 112u8, 51u8)
}

/// Relies on `String::from_utf8`: it succeeds exactly on valid UTF-8, and the
/// string then holds the characters that the bytes encode.
#[verifier::external_body]
fn utf8_string(bytes: Vec<u8>) -> (r: Option<String>)
    ensures
        r is Some <==> valid_utf8(bytes@),
        r matches Some(s) ==> s@ == decode_utf8(bytes@),
{
    String::from_utf8(bytes).ok()
}

/// Decodes the record that starts at `p`.
pub fn read_entry(b: &[u8], p: usize) -> (r: Result<(FileRecord, usize), ParseError>)
    ensures
        match r {
            Ok((rec, q)) => decode_entry(b@, p as int) == Ok::<(EntryModel, int), ParseError>(
                (rec@, q as int),
            ),
            Err(e) => decode_entry(b@, p as int) == Err::<(EntryModel, int), ParseError>(e),
        },
{
    if b.len() < RECORD_FIXED_LEN || p > b.len() - RECORD_FIXED_LEN {
        return Err(ParseError::TruncatedRecord);
    }
    let l = read_u32_le(b, p + 17);
    if l >= 0x8000_0000 || l as usize > b.len() - p - RECORD_FIXED_LEN {
        return Err(ParseError::TruncatedRecord);
    }
    let start = p + RECORD_FIXED_LEN;
    let end = start + l as usize;
    let mut raw: Vec<u8> = Vec::new();
    let mut i: usize = start;
    while i < end
        invariant
            start <= i <= end <= b@.len(),
            raw@ == b@.subrange(start as int, i as int),
        decreases end - i,
    {
        raw.push(b[i]);
        assert(raw@ =~= b@.subrange(start as int, i + 1));
        i += 1;
    }
    let stripped = strip_nul_bytes(raw.as_slice());
    let audio = is_audio(stripped.as_slice());
    let file_name = match utf8_string(stripped) {
        Some(s) => s,
        None => {
            return Err(ParseError::InvalidName);
        },
    };
    let offset = read_u32_le(b, p);
    let size = read_u32_le(b, p + 4);
    let zip_size = read_u32_le(b, p + 8);
    let crc32 = read_u32_le(b, p + 13);
    let zipped = b[p + 12] != 0 && !audio;
    Ok((FileRecord { offset, size, zip_size, zipped, crc32, file_name }, end))
}

/// Once the table fails at some record, every longer prefix of it fails the
/// same way.
proof fn lemma_entries_err_stays(b: Seq<u8>, start: int, i: nat, j: nat)
    requires
        decode_entries(b, start, i) is Err,
        i <= j,
    ensures
        decode_entries(b, start, j) == decode_entries(b, start, i),
    decreases j - i,
{
    if j > i {
        lemma_entries_err_stays(b, start, i, (j - 1) as nat);
    }
}

/// Decodes the header and the whole entry table, in file order.
pub fn read_archive(b: &[u8]) -> (r: Result<(u32, u32, Vec<FileRecord>), ParseError>)
    ensures
        match r {
            Ok((version, count, files)) => parse_archive(b@) matches Ok(a) && a.version == version
                && a.count == count && a.entries == records_view(files@),
            Err(e) => parse_archive(b@) == Err::<ArchiveModel, ParseError>(e),
        },
{
    if b.len() < 5 {
        return Err(ParseError::TruncatedRecord);
    }
    let mut header: Vec<u8> = Vec::new();
    header.push(b[0]);
    header.push(b[1]);
    header.push(b[2]);
    header.push(b[3]);
    header.push(b[4]);
    assert(header@ =~= b@.subrange(0, 5));
    if !is_magic(header.as_slice()) {
        return Err(ParseError::MalformedHeader);
    }
    if b.len() < 13 {
        return Err(ParseError::TruncatedRecord);
    }
    let version = read_u32_le(b, 5);
    let count = read_u32_le(b, 9);
    let start: usize = if version >= 2 {
        14
    } else {
        13
    };
    if b.len() < start {
        return Err(ParseError::TruncatedRecord);
    }
    let mut files: Vec<FileRecord> = Vec::new();
    let mut pos: usize = start;
    let mut i: u32 = 0;
    assert(records_view(files@) =~= Seq::<EntryModel>::empty());
    while i < count
        invariant
            i <= count,
            b@.len() >= 13,
            b@.subrange(0, 5) == magic(),
            version == u32_at(b@, 5),
            count == u32_at(b@, 9),
            start == table_start(version),
            start <= b@.len(),
            decode_entries(b@, start as int, i as nat) == Ok::<(Seq<EntryModel>, int), ParseError>(
                (records_view(files@), pos as int),
            ),
        decreases count - i,
    {
        match read_entry(b, pos) {
            Err(e) => {
                assert(decode_entries(b@, start as int, (i + 1) as nat) == Err::<
                    (Seq<EntryModel>, int),
                    ParseError,
                >(e));
                proof {
                    lemma_entries_err_stays(b@, start as int, (i + 1) as nat, count as nat);
                    assert(decode_entries(b@, table_start(version), count as nat) == Err::<
                        (Seq<EntryModel>, int),
                        ParseError,
                    >(e));
                }
                return Err(e);
            },
            Ok((rec, next)) => {
                let ghost old_files = files@;
                files.push(rec);
                assert(records_view(files@) =~= records_view(old_files).push(rec@));
                pos = next;
                i += 1;
            },
        }
    }
    Ok((version, count, files))
}

} // verus!

verus! {

proof fn lemma_entries_len(b: Seq<u8>, start: int, n: nat)
    requires
        decode_entries(b, start, n) is Ok,
    ensures
        decode_entries(b, start, n)->Ok_0.0.len() == n,
    decreases n,
{
    if n > 0 {
        lemma_entries_len(b, start, (n - 1) as nat);
    }
}

/// A successful parse yields exactly as many entries as the header counts.
pub proof fn lemma_entry_count(b: Seq<u8>)
    requires
        parse_archive(b) is Ok,
    ensures
        parse_archive(b)->Ok_0.entries.len() == parse_archive(b)->Ok_0.count,
{
    let version = u32_at(b, 5);
    lemma_entries_len(b, table_start(version), u32_at(b, 9) as nat);
}

} // verus!

verus! {

proof fn lemma_entries_audio(b: Seq<u8>, start: int, n: nat)
    requires
        decode_entries(b, start, n) is Ok,
    ensures
        forall|i: int|
            0 <= i < decode_entries(b, start, n)->Ok_0.0.len() && is_audio_name(
                encode_utf8(#[trigger] decode_entries(b, start, n)->Ok_0.0[i].name),
            ) ==> !decode_entries(b, start, n)->Ok_0.0[i].zipped,
    decreases n,
{
    if n > 0 {
        lemma_entries_audio(b, start, (n - 1) as nat);
        let q = decode_entries(b, start, (n - 1) as nat)->Ok_0.1;
        let l = u32_at(b, q + 17) as int;
        let nm = strip_nul(b.subrange(q + 21, q + 21 + l));
        decode_utf8_encode_utf8(nm);
    }
}

/// Every entry whose name ends in `.wav`, `.ogg` or `.mp3` is read as not
/// compressed, whatever its stored flag.
pub proof fn lemma_audio_never_zipped(b: Seq<u8>, i: int)
    requires
        parse_archive(b) is Ok,
        0 <= i < parse_archive(b)->Ok_0.entries.len(),
        is_audio_name(encode_utf8(parse_archive(b)->Ok_0.entries[i].name)),
    ensures
        !parse_archive(b)->Ok_0.entries[i].zipped,
{
    let version = u32_at(b, 5);
    lemma_entries_audio(b, table_start(version), u32_at(b, 9) as nat);
}

/// A buffer of at least five bytes that does not open with `KIWAD` is
/// refused as a malformed header.
pub proof fn lemma_bad_signature(b: Seq<u8>)
    requires
        b.len() >= 5,
        b.subrange(0, 5) != magic(),
    ensures
        parse_archive(b) == Err::<ArchiveModel, ParseError>(ParseError::MalformedHeader),
{
}

proof fn lemma_u32_prefix(b: Seq<u8>, t: int, p: int)
    requires
        0 <= p,
        p + 4 <= t <= b.len(),
    ensures
        u32_at(b.subrange(0, t), p) == u32_at(b, p),
{
}

proof fn lemma_entry_prefix(b: Seq<u8>, t: int, p: int)
    requires
        0 <= p <= t <= b.len(),
        decode_entry(b, p) is Ok,
    ensures
        decode_entry(b, p)->Ok_0.1 <= t ==> decode_entry(b.subrange(0, t), p) == decode_entry(b, p),
        decode_entry(b, p)->Ok_0.1 > t ==> decode_entry(b.subrange(0, t), p) == Err::<
            (EntryModel, int),
            ParseError,
        >(ParseError::TruncatedRecord),
{
    let c = b.subrange(0, t);
    if p + 21 <= t {
        lemma_u32_prefix(b, t, p);
        lemma_u32_prefix(b, t, p + 4);
        lemma_u32_prefix(b, t, p + 8);
        lemma_u32_prefix(b, t, p + 13);
        lemma_u32_prefix(b, t, p + 17);
        let l = u32_at(b, p + 17) as int;
        if p + 21 + l <= t {
            assert(c.subrange(p + 21, p + 21 + l) =~= b.subrange(p + 21, p + 21 + l));
        }
    }
}

proof fn lemma_entries_prefix(b: Seq<u8>, t: int, start: int, n: nat)
    requires
        0 <= start <= t <= b.len(),
        decode_entries(b, start, n) is Ok,
    ensures
        decode_entries(b, start, n)->Ok_0.1 <= t ==> decode_entries(b.subrange(0, t), start, n)
            == decode_entries(b, start, n),
        decode_entries(b, start, n)->Ok_0.1 > t ==> decode_entries(b.subrange(0, t), start, n)
            == Err::<(Seq<EntryModel>, int), ParseError>(ParseError::TruncatedRecord),
        decode_entries(b, start, n)->Ok_0.1 >= start,
    decreases n,
{
    if n > 0 {
        lemma_entries_prefix(b, t, start, (n - 1) as nat);
        let q = decode_entries(b, start, (n - 1) as nat)->Ok_0.1;
        if q <= t {
            lemma_entry_prefix(b, t, q);
        }
    }
}

/// Cutting the buffer anywhere before the end of the entry table makes the
/// parse fail as truncated.
pub proof fn lemma_truncated_table(b: Seq<u8>, t: int)
    requires
        parse_archive(b) is Ok,
        0 <= t < parse_archive(b)->Ok_0.table_end,
    ensures
        parse_archive(b.subrange(0, t)) == Err::<ArchiveModel, ParseError>(
            ParseError::TruncatedRecord,
        ),
{
    let c = b.subrange(0, t);
    let version = u32_at(b, 5);
    let count = u32_at(b, 9);
    let start = table_start(version);
    lemma_entries_prefix(b, b.len() as int, start, count as nat);
    if t >= 5 {
        assert(c.subrange(0, 5) =~= b.subrange(0, 5));
    }
    if t >= 13 {
        lemma_u32_prefix(b, t, 5);
        lemma_u32_prefix(b, t, 9);
        if t >= start {
            lemma_entries_prefix(b, t, start, count as nat);
        }
    }
}

} // verus!
