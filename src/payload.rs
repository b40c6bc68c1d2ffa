use vstd::prelude::*;

verus! {

/// A failure local to one entry: other entries are not affected.
#[derive(Debug, Clone, Copy, PartialEq, Eq, Structural)]
pub enum ExtractError {
    /// The entry's byte range runs past the end of the buffer.
    OutOfBoundsRead,
    /// The stored bytes are not a valid raw deflate stream.
    DecompressionFailed,
    /// No entry has the requested name.
    NotFound,
}

/// What inflating `data` as a raw (headerless) deflate stream yields, or
/// `None` where the stream is corrupt or incomplete.
pub uninterp spec fn raw_inflate(data: Seq<u8>) -> Option<Seq<u8>>;

/// Relies on `flate2::read::DeflateDecoder` read to its end: the inflated
/// bytes of a raw deflate stream, or an error for a corrupt or incomplete one.
#[verifier::external_body]
fn inflate(data: &[u8]) -> (r: Option<Vec<u8>>)
    ensures
        r is Some <==> raw_inflate(data@) is Some,
        r matches Some(v) ==> raw_inflate(data@) == Some(v@),
{
    let mut out: Vec<u8> = Vec::new();
    match std::io::Read::read_to_end(&mut flate2::read::DeflateDecoder::new(data), &mut out) {
        Ok(_) => Some(out),
        Err(_) => None,
    }
}

/// Every byte of `s` is zero (trivially so when `s` is empty).
pub open spec fn all_zero(s: Seq<u8>) -> bool {
    forall|i: int| 0 <= i < s.len() ==> s[i] == 0
}

/// Number of bytes an entry occupies in the archive: the stored size when it
/// is compressed, the raw size otherwise.
pub open spec fn span_len(zipped: bool, size: u32, zip_size: u32) -> int {
    if zipped {
        zip_size as int
    } else {
        size as int
    }
}

/// What an entry's stored bytes `data` decode to.
pub open spec fn decode_data(data: Seq<u8>, zipped: bool) -> Result<Seq<u8>, ExtractError> {
    if !zipped {
        Ok(data)
    } else if all_zero(data) {
        Ok(Seq::empty())
    } else {
        match raw_inflate(data) {
            Some(out) => Ok(out),
            None => Err(ExtractError::DecompressionFailed),
        }
    }
}

/// The payload of an entry read from `buf`.
pub open spec fn payload(buf: Seq<u8>, offset: u32, size: u32, zip_size: u32, zipped: bool) -> Result<
    Seq<u8>,
    ExtractError,
> {
    let len = span_len(zipped, size, zip_size);
    if offset as int + len > buf.len() {
        Err(ExtractError::OutOfBoundsRead)
    } else {
        decode_data(buf.subrange(offset as int, offset as int + len), zipped)
    }
}

/// `true` when `slice` is empty or holds only zero bytes, which cannot be
/// inflated.
pub fn all_zero_bytes(slice: &[u8]) -> (r: bool)
    ensures
        r == all_zero(slice@),
{
    let mut i: usize = 0;
    while i < slice.len()
        invariant
            i <= slice@.len(),
            forall|j: int| 0 <= j < i ==> slice@[j] == 0,
        decreases slice@.len() - i,
    {
        if slice[i] != 0 {
            return false;
        }
        i += 1;
    }
    true
}

/// Decodes an entry's stored bytes: verbatim when not compressed, empty when
/// compressed but all zero, inflated otherwise.
pub fn decode_stored(data: &[u8], zipped: bool) -> (r: Result<Vec<u8>, ExtractError>)
    ensures
        match r {
            Ok(v) => decode_data(data@, zipped) == Ok::<Seq<u8>, ExtractError>(v@),
            Err(e) => decode_data(data@, zipped) == Err::<Seq<u8>, ExtractError>(e),
        },
{
    if !zipped {
        let mut out: Vec<u8> = Vec::new();
        let mut i: usize = 0;
        while i < data.len()
            invariant
                i <= data@.len(),
                out@ == data@.subrange(0, i as int),
            decreases data@.len() - i,
        {
            out.push(data[i]);
            assert(out@ =~= data@.subrange(0, i + 1));
            i += 1;
        }
        assert(out@ =~= data@);
        Ok(out)
    } else if all_zero_bytes(data) {
        Ok(Vec::new())
    } else {
        match inflate(data) {
            Some(v) => Ok(v),
            None => Err(ExtractError::DecompressionFailed),
        }
    }
}

/// Resolves an entry's byte range in `buf` and decodes it.
pub fn read_payload(buf: &[u8], offset: u32, size: u32, zip_size: u32, zipped: bool) -> (r: Result<
    Vec<u8>,
    ExtractError,
>)
    ensures
        match r {
            Ok(v) => payload(buf@, offset, size, zip_size, zipped) == Ok::<Seq<u8>, ExtractError>(
                v@,
            ),
            Err(e) => payload(buf@, offset, size, zip_size, zipped) == Err::<Seq<u8>, ExtractError>(
                e,
            ),
        },
{
    let len: u32 = if zipped {
        zip_size
    } else {
        size
    };
    let start = offset as usize;
    if start > buf.len() || len as usize > buf.len() - start {
        return Err(ExtractError::OutOfBoundsRead);
    }
    let end = start + len as usize;
    let data = vstd::slice::slice_subrange(buf, start, end);
    decode_stored(data, zipped)
}

/// A compressed entry whose stored bytes are all zero, or that stores
/// nothing, reads as an empty payload, without the decompressor.
pub proof fn lemma_zero_payload_is_empty(buf: Seq<u8>, offset: u32, size: u32, zip_size: u32)
    requires
        offset as int + zip_size as int <= buf.len(),
        all_zero(buf.subrange(offset as int, offset as int + zip_size as int)),
    ensures
        payload(buf, offset, size, zip_size, true) == Ok::<Seq<u8>, ExtractError>(Seq::empty()),
{
}

} // verus!
