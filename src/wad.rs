use vstd::prelude::*;
use crate::format::{EntryModel, ParseError, parse_archive, read_archive, records_view, is_magic, magic};
use crate::payload::{ExtractError, payload, read_payload, all_zero, all_zero_bytes};

verus! {

/// One entry of the archive's table.
#[derive(Debug, Clone)]
pub struct FileRecord {
    pub offset: u32,
    pub size: u32,
    pub zip_size: u32,
    pub zipped: bool,
    pub crc32: u32,
    pub file_name: String,
}

impl View for FileRecord {
    type V = EntryModel;

    open spec fn view(&self) -> EntryModel {
        EntryModel {
            offset: self.offset,
            size: self.size,
            zip_size: self.zip_size,
            zipped: self.zipped,
            crc32: self.crc32,
            name: self.file_name@,
        }
    }
}

/// Entries keyed by name: where two share a name, the later one wins.
pub open spec fn index_of(es: Seq<EntryModel>) -> Map<Seq<char>, EntryModel>
    decreases es.len(),
{
    if es.len() == 0 {
        Map::empty()
    } else {
        index_of(es.drop_last()).insert(es.last().name, es.last())
    }
}

pub open spec fn unique_names(es: Seq<EntryModel>) -> bool {
    forall|i: int, j: int| 0 <= i < j < es.len() ==> es[i].name != es[j].name
}

/// The archive in `buf` keyed by entry name (empty if it does not parse).
pub open spec fn archive_index(buf: Seq<u8>) -> Map<Seq<char>, EntryModel> {
    match parse_archive(buf) {
        Ok(a) => index_of(a.entries),
        Err(_) => Map::empty(),
    }
}

/// The payload of the entry called `name` in the archive `buf`.
pub open spec fn named_payload(buf: Seq<u8>, name: Seq<char>) -> Result<Seq<u8>, ExtractError> {
    if !archive_index(buf).contains_key(name) {
        Err(ExtractError::NotFound)
    } else {
        let e = archive_index(buf)[name];
        payload(buf, e.offset, e.size, e.zip_size, e.zipped)
    }
}

proof fn lemma_index_absent(es: Seq<EntryModel>, k: Seq<char>)
    requires
        forall|i: int| 0 <= i < es.len() ==> es[i].name != k,
    ensures
        !index_of(es).contains_key(k),
    decreases es.len(),
{
    if es.len() > 0 {
        lemma_index_absent(es.drop_last(), k);
    }
}

proof fn lemma_index_member(es: Seq<EntryModel>, j: int)
    requires
        unique_names(es),
        0 <= j < es.len(),
    ensures
        index_of(es).contains_key(es[j].name),
        index_of(es)[es[j].name] == es[j],
    decreases es.len(),
{
    if j < es.len() - 1 {
        lemma_index_member(es.drop_last(), j);
    }
}

/// Where several entries share a name, the keyed index holds the last of
/// them in file order.
pub proof fn lemma_last_write_wins(es: Seq<EntryModel>, j: int)
    requires
        0 <= j < es.len(),
        forall|i: int| j < i < es.len() ==> es[i].name != es[j].name,
    ensures
        index_of(es).contains_key(es[j].name),
        index_of(es)[es[j].name] == es[j],
    decreases es.len(),
{
    if j < es.len() - 1 {
        lemma_last_write_wins(es.drop_last(), j);
    }
}

proof fn lemma_index_update(es: Seq<EntryModel>, j: int, e: EntryModel)
    requires
        unique_names(es),
        0 <= j < es.len(),
        es[j].name == e.name,
    ensures
        index_of(es.update(j, e)) == index_of(es).insert(e.name, e),
        unique_names(es.update(j, e)),
    decreases es.len(),
{
    let pre = es.drop_last();
    if j == es.len() - 1 {
        assert(es.update(j, e).drop_last() =~= pre);
        assert(index_of(es.update(j, e)) =~= index_of(es).insert(e.name, e));
    } else {
        lemma_index_update(pre, j, e);
        assert(es.update(j, e).drop_last() =~= pre.update(j, e));
        assert(index_of(es.update(j, e)) =~= index_of(es).insert(e.name, e));
    }
}

fn copy_record(r: &FileRecord) -> (c: FileRecord)
    ensures
        c@ == r@,
{
    FileRecord {
        offset: r.offset,
        size: r.size,
        zip_size: r.zip_size,
        zipped: r.zipped,
        crc32: r.crc32,
        file_name: r.file_name.clone(),
    }
}

fn position_of(files: &Vec<FileRecord>, name: &String) -> (r: Option<usize>)
    ensures
        match r {
            Some(j) => j < files@.len() && files@[j as int].file_name@ == name@,
            None => forall|j: int| 0 <= j < files@.len() ==> files@[j].file_name@ != name@,
        },
{
    let mut j: usize = 0;
    while j < files.len()
        invariant
            j <= files@.len(),
            forall|i: int| 0 <= i < j ==> files@[i].file_name@ != name@,
        decreases files@.len() - j,
    {
        if files[j].file_name == *name {
            return Some(j);
        }
        j += 1;
    }
    None
}

/// A parsed archive whose entries are keyed by name, over the buffer that
/// holds it.
#[derive(Debug)]
pub struct WadRework<'a> {
    pub version: u32,
    pub file_count: u32,
    pub files: Vec<FileRecord>,
    pub buffer: &'a [u8],
}

impl<'a> WadRework<'a> {
    /// The entries, keyed by name.
    pub open spec fn index(&self) -> Map<Seq<char>, EntryModel> {
        index_of(records_view(self.files@))
    }

    /// Header fields as read, one record per distinct name, and for each name
    /// the last record that bears it.
    pub open spec fn wf(&self) -> bool {
        &&& parse_archive(self.buffer@) matches Ok(a) && a.version == self.version && a.count
            == self.file_count && self.index() == index_of(a.entries)
        &&& unique_names(records_view(self.files@))
    }

    /// Parses the archive held in `buffer`.
    pub fn new(buffer: &'a [u8]) -> (r: Result<Self, ParseError>)
        ensures
            match r {
                Ok(w) => w.wf() && w.buffer@ == buffer@,
                Err(e) => parse_archive(buffer@) == Err::<crate::format::ArchiveModel, ParseError>(e),
            },
    {
        let (version, file_count, all) = match read_archive(buffer) {
            Ok(t) => t,
            Err(e) => {
                return Err(e);
            },
        };
        let ghost entries = records_view(all@);
        let mut files: Vec<FileRecord> = Vec::new();
        let mut i: usize = 0;
        assert(entries.subrange(0, 0) =~= Seq::<EntryModel>::empty());
        assert(records_view(files@) =~= Seq::<EntryModel>::empty());
        while i < all.len()
            invariant
                entries == records_view(all@),
                i <= all@.len(),
                unique_names(records_view(files@)),
                index_of(records_view(files@)) == index_of(entries.subrange(0, i as int)),
            decreases all@.len() - i,
        {
            let rec = copy_record(&all[i]);
            let ghost before = records_view(files@);
            assert(entries.subrange(0, i + 1).drop_last() =~= entries.subrange(0, i as int));
            match position_of(&files, &rec.file_name) {
                Some(j) => {
                    proof {
                        lemma_index_update(before, j as int, rec@);
                    }
                    files.set(j, rec);
                    assert(records_view(files@) =~= before.update(j as int, rec@));
                },
                None => {
                    files.push(rec);
                    assert(records_view(files@) =~= before.push(rec@));
                    assert(records_view(files@).drop_last() =~= before);
                },
            }
            i += 1;
        }
        assert(entries.subrange(0, all@.len() as int) =~= entries);
        Ok(WadRework { version, file_count, files, buffer })
    }

    /// The decoded payload of the entry called `name`.
    pub fn read_file(&self, name: &str) -> (r: Result<Vec<u8>, ExtractError>)
        requires
            self.wf(),
        ensures
            match r {
                Ok(v) => named_payload(self.buffer@, name@) == Ok::<Seq<u8>, ExtractError>(v@),
                Err(e) => named_payload(self.buffer@, name@) == Err::<Seq<u8>, ExtractError>(e),
            },
    {
        let key = name.to_owned();
        match position_of(&self.files, &key) {
            None => {
                proof {
                    lemma_index_absent(records_view(self.files@), name@);
                }
                Err(ExtractError::NotFound)
            },
            Some(j) => {
                proof {
                    lemma_index_member(records_view(self.files@), j as int);
                }
                let rec = &self.files[j];
                read_payload(self.buffer, rec.offset, rec.size, rec.zip_size, rec.zipped)
            },
        }
    }

    /// `true` exactly when `input_bytes` is the signature `KIWAD`.
    pub fn is_magic_header(input_bytes: &[u8]) -> (r: bool)
        ensures
            r == (input_bytes@ == magic()),
    {
        is_magic(input_bytes)
    }

    /// `true` when `slice` is empty or holds only zero bytes.
    pub fn is_empty(slice: &[u8]) -> (r: bool)
        ensures
            r == all_zero(slice@),
    {
        all_zero_bytes(slice)
    }
}

} // verus!
