//! The rows of the content store: files, unique chunks, and file sections.
use vstd::prelude::*;

verus! {

/// Copies a byte vector.
pub fn copy_bytes(v: &Vec<u8>) -> (r: Vec<u8>)
    ensures
        r@ == v@,
{
    let mut r: Vec<u8> = Vec::new();
    for i in 0..v.len()
        invariant
            r@ == v@.subrange(0, i as int),
    {
        r.push(v[i]);
        assert(r@ =~= v@.subrange(0, i + 1));
    }
    assert(r@ =~= v@);
    r
}

/// Tells whether two byte vectors hold the same bytes.
pub fn bytes_equal(a: &Vec<u8>, b: &Vec<u8>) -> (r: bool)
    ensures
        r == (a@ == b@),
{
    if a.len() != b.len() {
        return false;
    }
    for i in 0..a.len()
        invariant
            a@.len() == b@.len(),
            forall|k: int| 0 <= k < i ==> a@[k] == b@[k],
    {
        if a[i] != b[i] {
            return false;
        }
    }
    assert(a@ =~= b@);
    true
}

/// A row of the `chunks` table: a unique digest and the chunk's size.
#[derive(Debug, Clone)]
pub struct ChunkTableEntry {
    pub hash: Vec<u8>,
    pub size: i64,
}

/// The content of a chunk row.
pub struct ChunkRow {
    pub hash: Seq<u8>,
    pub size: int,
}

impl View for ChunkTableEntry {
    type V = ChunkRow;

    open spec fn view(&self) -> ChunkRow {
        ChunkRow { hash: self.hash@, size: self.size as int }
    }
}

impl ChunkTableEntry {
    /// A copy of the row.
    pub fn duplicate(&self) -> (r: ChunkTableEntry)
        ensures
            r@ == self@,
    {
        ChunkTableEntry { hash: copy_bytes(&self.hash), size: self.size }
    }
}

/// Two chunk rows are the same chunk when their digests agree.
impl PartialEq for ChunkTableEntry {
    fn eq(&self, other: &ChunkTableEntry) -> (r: bool) {
        bytes_equal(&self.hash, &other.hash)
    }
}

impl vstd::std_specs::cmp::PartialEqSpecImpl for ChunkTableEntry {
    open spec fn obeys_eq_spec() -> bool {
        true
    }

    open spec fn eq_spec(&self, other: &ChunkTableEntry) -> bool {
        self.hash@ == other.hash@
    }
}

/// A row of the `files` table.
#[derive(Debug, Clone)]
pub struct FileTableEntry {
    pub file_id: String,
    pub name: String,
    pub path: String,
    /// Digest of the whole file at its last indexing.
    pub hash: Vec<u8>,
}

/// The content of a file row.
pub struct FileRow {
    pub file_id: Seq<char>,
    pub name: Seq<char>,
    pub path: Seq<char>,
    pub hash: Seq<u8>,
}

impl View for FileTableEntry {
    type V = FileRow;

    open spec fn view(&self) -> FileRow {
        FileRow { file_id: self.file_id@, name: self.name@, path: self.path@, hash: self.hash@ }
    }
}

impl FileTableEntry {
    /// A copy of the row.
    pub fn duplicate(&self) -> (r: FileTableEntry)
        ensures
            r@ == self@,
    {
        FileTableEntry {
            file_id: self.file_id.clone(),
            name: self.name.clone(),
            path: self.path.clone(),
            hash: copy_bytes(&self.hash),
        }
    }
}

/// A row of the `file_sections` table: the chunk found in a file at an
/// offset. The key is `(file_id, offset)`.
#[derive(Debug, Clone)]
pub struct FileSectionEntry {
    pub file_id: String,
    pub chunk_hash: Vec<u8>,
    pub length: i64,
    pub offset: i64,
}

/// The content of a section row.
pub struct SectionRow {
    pub file_id: Seq<char>,
    pub chunk_hash: Seq<u8>,
    pub length: int,
    pub offset: int,
}

impl View for FileSectionEntry {
    type V = SectionRow;

    open spec fn view(&self) -> SectionRow {
        SectionRow {
            file_id: self.file_id@,
            chunk_hash: self.chunk_hash@,
            length: self.length as int,
            offset: self.offset as int,
        }
    }
}

impl FileSectionEntry {
    /// A copy of the row.
    pub fn duplicate(&self) -> (r: FileSectionEntry)
        ensures
            r@ == self@,
    {
        FileSectionEntry {
            file_id: self.file_id.clone(),
            chunk_hash: copy_bytes(&self.chunk_hash),
            length: self.length,
            offset: self.offset,
        }
    }
}

/// The views of a list of section rows.
pub open spec fn section_rows(v: Seq<FileSectionEntry>) -> Seq<SectionRow> {
    v.map_values(|e: FileSectionEntry| e@)
}

/// The views of a list of chunk rows.
pub open spec fn chunk_rows(v: Seq<ChunkTableEntry>) -> Seq<ChunkRow> {
    v.map_values(|e: ChunkTableEntry| e@)
}

/// The views of a list of file rows.
pub open spec fn file_rows(v: Seq<FileTableEntry>) -> Seq<FileRow> {
    v.map_values(|e: FileTableEntry| e@)
}

} // verus!
