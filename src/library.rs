use vstd::prelude::*;
use crate::format::{ArchiveModel, EntryModel, ParseError, parse_archive, read_archive, records_view, is_magic, magic};
use crate::payload::{ExtractError, payload, read_payload, all_zero, all_zero_bytes};

verus! {

/// One entry of the archive's table, kept in file order.
#[derive(Debug, Clone)]
pub struct LibraryRecord {
    pub offset: u32,
    pub size: u32,
    pub zip_size: u32,
    pub zipped: bool,
    pub crc32: u32,
    pub file_name: String,
}

impl View for LibraryRecord {
    type V = EntryModel;

    open spec fn view(&self) -> EntryModel {
        EntryModel {
            offset: self.offset,
            size: self.size,
            zip_size: self.zip_size,
            zipped: self.zipped,
            crc32: self.crc32,
            name: self.file_name@,
        }
    }
}

pub open spec fn library_view(fs: Seq<LibraryRecord>) -> Seq<EntryModel> {
    fs.map_values(|f: LibraryRecord| f@)
}

/// A parsed archive whose entries are kept in file order, duplicates
/// included, over the buffer that holds it.
#[derive(Debug)]
pub struct Library<'a> {
    pub version: u32,
    pub file_count: u32,
    pub files: Vec<LibraryRecord>,
    pub buffer: &'a [u8],
}

impl<'a> Library<'a> {
    /// Header fields as read and every record in file order.
    pub open spec fn wf(&self) -> bool {
        parse_archive(self.buffer@) matches Ok(a) && a.version == self.version && a.count
            == self.file_count && a.entries == library_view(self.files@)
    }

    /// Parses the archive held in `buffer`.
    pub fn new(buffer: &'a [u8]) -> (r: Result<Self, ParseError>)
        ensures
            match r {
                Ok(l) => l.wf() && l.buffer@ == buffer@ && l.files@.len() == l.file_count,
                Err(e) => parse_archive(buffer@) == Err::<ArchiveModel, ParseError>(e),
            },
    {
        let (version, file_count, all) = match read_archive(buffer) {
            Ok(t) => t,
            Err(e) => {
                return Err(e);
            },
        };
        let mut files: Vec<LibraryRecord> = Vec::new();
        let mut i: usize = 0;
        while i < all.len()
            invariant
                i <= all@.len(),
                library_view(files@) == records_view(all@).subrange(0, i as int),
            decreases all@.len() - i,
        {
            let r = &all[i];
            let ghost before = library_view(files@);
            files.push(
                LibraryRecord {
                    offset: r.offset,
                    size: r.size,
                    zip_size: r.zip_size,
                    zipped: r.zipped,
                    crc32: r.crc32,
                    file_name: r.file_name.clone(),
                },
            );
            assert(library_view(files@) =~= before.push(all@[i as int]@));
            assert(library_view(files@) =~= records_view(all@).subrange(0, i + 1));
            i += 1;
        }
        assert(library_view(files@) =~= records_view(all@));
        proof {
            crate::format::lemma_entry_count(buffer@);
        }
        Ok(Library { version, file_count, files, buffer })
    }

    /// The decoded payload of the record at `index`.
    pub fn read_record(&self, index: usize) -> (r: Result<Vec<u8>, ExtractError>)
        requires
            index < self.files@.len(),
        ensures
            ({
                let e = self.files@[index as int]@;
                match r {
                    Ok(v) => payload(self.buffer@, e.offset, e.size, e.zip_size, e.zipped) == Ok::<
                        Seq<u8>,
                        ExtractError,
                    >(v@),
                    Err(err) => payload(self.buffer@, e.offset, e.size, e.zip_size, e.zipped)
                        == Err::<Seq<u8>, ExtractError>(err),
                }
            }),
    {
        let rec = &self.files[index];
        read_payload(self.buffer, rec.offset, rec.size, rec.zip_size, rec.zipped)
    }

    /// `true` exactly when `input_bytes` is the signature `KIWAD`.
    pub fn is_magic_header(input_bytes: &[u8]) -> (r: bool)
        ensures
            r == (input_bytes@ == magic()),
    {
        is_magic(input_bytes)
    }

    /// `true` when `slice` is empty or holds only zero bytes.
    pub fn is_empty(slice: &[u8]) -> (r: bool)
        ensures
            r == all_zero(slice@),
    {
        all_zero_bytes(slice)
    }
}

} // verus!
