//! The content store: files, unique chunks and the per-file section map,
//! with upsert and all-or-nothing batch writes.
use vstd::prelude::*;
use crate::chunking::HashEngineError;
use crate::ids::{uuid_text, ChunkID, FileID};
use crate::entries::{
    bytes_equal, chunk_rows, file_rows, section_rows, ChunkRow, ChunkTableEntry, FileRow,
    FileSectionEntry, FileTableEntry, SectionRow,
};
use crate::keyed::{
    has_key, keyed, lemma_keyed_empty, lemma_keyed_index, lemma_keyed_insert, lemma_keyed_len,
    lemma_keyed_push, lemma_keyed_subseq, lemma_keyed_update, unique_keys,
};

verus! {

/// The error of the content store.
#[derive(Debug)]
pub enum DataStoreError {
    /// Chunking the source failed.
    ChunkingError(HashEngineError),
    /// A write would break a reference: a section whose file or chunk is
    /// not stored.
    ForeignKeyViolation,
    /// The database backend reported an error.
    DbError(String),
    /// Bringing the schema up to date failed.
    MigrationError(String),
    /// The requested record is not in the store.
    NotFound,
}

/// Writing rows of kind `Data`, singly or as one all-or-nothing batch.
pub trait Persist<Data> {
    /// Stores every item in one transaction: if one fails, none is stored.
    fn store_all(&mut self, items: Vec<Data>) -> Result<(), DataStoreError>;

    /// Stores one item.
    fn store(&mut self, item: Data) -> Result<(), DataStoreError>;
}

/// Reading rows of kind `Data` by keys of kind `ID`.
pub trait Fetch<ID, Data> {
    /// The record for `key`, or `NotFound`.
    fn fetch_by(&self, key: &ID) -> Result<Data, DataStoreError>;

    /// The records for the keys that are present; absent keys are dropped.
    fn fetch_many(&self, keys: &[ID]) -> Result<Vec<Data>, DataStoreError>;
}

/// Files are keyed by their id text.
pub open spec fn file_key() -> spec_fn(FileRow) -> Seq<char> {
    |r: FileRow| r.file_id
}

/// Chunks are keyed by their digest.
pub open spec fn chunk_key() -> spec_fn(ChunkRow) -> Seq<u8> {
    |r: ChunkRow| r.hash
}

/// Sections are keyed by file id and offset.
pub open spec fn section_key() -> spec_fn(SectionRow) -> (Seq<char>, int) {
    |r: SectionRow| (r.file_id, r.offset)
}

/// The content of the store: each table as a map from its key to its row.
pub struct StoreContents {
    pub files: Map<Seq<char>, FileRow>,
    pub chunks: Map<Seq<u8>, ChunkRow>,
    pub sections: Map<(Seq<char>, int), SectionRow>,
}

/// The store after upserting a file row: a row with the same id is replaced.
pub open spec fn with_file(v: StoreContents, row: FileRow) -> StoreContents {
    StoreContents { files: v.files.insert(row.file_id, row), ..v }
}

/// The store after an insert-or-ignore of a chunk row: the first size seen
/// for a digest stays.
pub open spec fn with_chunk(v: StoreContents, row: ChunkRow) -> StoreContents {
    if v.chunks.contains_key(row.hash) {
        v
    } else {
        StoreContents { chunks: v.chunks.insert(row.hash, row), ..v }
    }
}

/// A section row may be written: its file and its chunk are stored.
pub open spec fn section_allowed(v: StoreContents, row: SectionRow) -> bool {
    v.files.contains_key(row.file_id) && v.chunks.contains_key(row.chunk_hash)
}

/// The store after upserting a section row: the row at the same file and
/// offset is replaced.
pub open spec fn with_section(v: StoreContents, row: SectionRow) -> StoreContents {
    StoreContents { sections: v.sections.insert((row.file_id, row.offset), row), ..v }
}

/// The store after upserting file rows in order.
pub open spec fn with_files(v: StoreContents, rows: Seq<FileRow>) -> StoreContents
    decreases rows.len(),
{
    if rows.len() == 0 {
        v
    } else {
        with_file(with_files(v, rows.drop_last()), rows.last())
    }
}

/// The store after inserting-or-ignoring chunk rows in order.
pub open spec fn with_chunks(v: StoreContents, rows: Seq<ChunkRow>) -> StoreContents
    decreases rows.len(),
{
    if rows.len() == 0 {
        v
    } else {
        with_chunk(with_chunks(v, rows.drop_last()), rows.last())
    }
}

/// The store after upserting section rows in order.
pub open spec fn with_sections(v: StoreContents, rows: Seq<SectionRow>) -> StoreContents
    decreases rows.len(),
{
    if rows.len() == 0 {
        v
    } else {
        with_section(with_sections(v, rows.drop_last()), rows.last())
    }
}

/// Every one of the section rows may be written.
pub open spec fn sections_allowed(v: StoreContents, rows: Seq<SectionRow>) -> bool {
    forall|i: int| 0 <= i < rows.len() ==> section_allowed(v, #[trigger] rows[i])
}

/// Rows of one file come in increasing offset order.
pub open spec fn sorted_within_files(rows: Seq<SectionRow>) -> bool {
    forall|i: int, j: int|
        0 <= i < j < rows.len() && (#[trigger] rows[i]).file_id == (#[trigger] rows[j]).file_id
            ==> rows[i].offset < rows[j].offset
}

/// The texts of a list of strings.
pub open spec fn texts(v: Seq<String>) -> Seq<Seq<char>> {
    v.map_values(|t: String| t@)
}

/// `v` lists every stored file whose id is among `ids`, each once, as stored.
pub open spec fn files_among(m: Map<Seq<char>, FileRow>, ids: Seq<Seq<char>>, v: Seq<FileRow>) -> bool {
    &&& forall|a: int|
        #![trigger v[a]]
        0 <= a < v.len() ==> ids.contains(v[a].file_id) && m.contains_key(v[a].file_id) && m[v[a].file_id]
            == v[a]
    &&& forall|t: Seq<char>|
        ids.contains(t) && #[trigger] m.contains_key(t) ==> exists|a: int|
            0 <= a < v.len() && (#[trigger] v[a]).file_id == t
    &&& forall|a: int, b: int| 0 <= a < b < v.len() ==> (#[trigger] v[a]).file_id != (#[trigger] v[b]).file_id
}

/// `v` lists every stored chunk whose digest is among `ids`, each once, as
/// stored.
pub open spec fn chunks_among(m: Map<Seq<u8>, ChunkRow>, ids: Seq<Seq<u8>>, v: Seq<ChunkRow>) -> bool {
    &&& forall|a: int|
        #![trigger v[a]]
        0 <= a < v.len() ==> ids.contains(v[a].hash) && m.contains_key(v[a].hash) && m[v[a].hash] == v[a]
    &&& forall|t: Seq<u8>|
        ids.contains(t) && #[trigger] m.contains_key(t) ==> exists|a: int|
            0 <= a < v.len() && (#[trigger] v[a]).hash == t
    &&& forall|a: int, b: int| 0 <= a < b < v.len() ==> (#[trigger] v[a]).hash != (#[trigger] v[b]).hash
}

/// Some section of the file `id` is stored.
pub open spec fn has_sections(m: Map<(Seq<char>, int), SectionRow>, id: Seq<char>) -> bool {
    exists|o: int| #[trigger] m.contains_key((id, o))
}

/// `v` is exactly the stored sections of the file `id`, in increasing
/// offset order.
pub open spec fn sections_of(m: Map<(Seq<char>, int), SectionRow>, id: Seq<char>, v: Seq<SectionRow>) -> bool {
    &&& forall|a: int|
        #![trigger v[a]]
        0 <= a < v.len() ==> v[a].file_id == id && m.contains_key((id, v[a].offset)) && m[(id, v[a].offset)]
            == v[a]
    &&& forall|a: int, b: int| 0 <= a < b < v.len() ==> (#[trigger] v[a]).offset < (#[trigger] v[b]).offset
    &&& forall|o: int| #[trigger] m.contains_key((id, o)) ==> exists|a: int| 0 <= a < v.len() && (#[trigger] v[a]).offset == o
}

/// `g` holds one non-empty group per file among `ids` that has sections,
/// each group exactly that file's sections in offset order.
pub open spec fn grouped_sections(
    m: Map<(Seq<char>, int), SectionRow>,
    ids: Seq<Seq<char>>,
    g: Seq<Seq<SectionRow>>,
) -> bool {
    &&& forall|q: int|
        #![trigger g[q]]
        0 <= q < g.len() ==> g[q].len() > 0 && ids.contains(g[q][0].file_id) && sections_of(m, g[q][0].file_id, g[q])
    &&& forall|q1: int, q2: int| 0 <= q1 < q2 < g.len() ==> (#[trigger] g[q1])[0].file_id != (#[trigger] g[q2])[0].file_id
    &&& forall|t: Seq<char>|
        ids.contains(t) && #[trigger] has_sections(m, t) ==> exists|q: int| 0 <= q < g.len() && (#[trigger] g[q])[0].file_id == t
}

/// The views of a list of section groups.
pub open spec fn section_groups(g: Seq<Vec<FileSectionEntry>>) -> Seq<Seq<SectionRow>> {
    g.map_values(|v: Vec<FileSectionEntry>| section_rows(v@))
}

/// The id texts of a list of file ids.
pub open spec fn file_id_texts(keys: Seq<FileID>) -> Seq<Seq<char>> {
    keys.map_values(|k: FileID| uuid_text(k.value))
}

/// The digests of a list of chunk ids.
pub open spec fn chunk_id_bytes(keys: Seq<ChunkID>) -> Seq<Seq<u8>> {
    keys.map_values(|k: ChunkID| k.bytes@)
}

/// Tells whether `s` is among `v`.
fn contains_string(v: &Vec<String>, s: &String) -> (r: bool)
    ensures
        r == texts(v@).contains(s@),
{
    for i in 0..v.len()
        invariant
            forall|j: int| 0 <= j < i ==> (#[trigger] v@[j])@ != s@,
    {
        if v[i] == *s {
            assert(texts(v@)[i as int] == s@);
            return true;
        }
    }
    assert(!texts(v@).contains(s@)) by {
        if texts(v@).contains(s@) {
            let j = choose|j: int| 0 <= j < texts(v@).len() && texts(v@)[j] == s@;
            assert(v@[j]@ == s@);
        }
    }
    false
}

/// Tells whether the bytes `s` are among `v`.
fn contains_bytes(v: &Vec<Vec<u8>>, s: &Vec<u8>) -> (r: bool)
    ensures
        r == v@.map_values(|t: Vec<u8>| t@).contains(s@),
{
    let ghost tv = v@.map_values(|t: Vec<u8>| t@);
    for i in 0..v.len()
        invariant
            tv == v@.map_values(|t: Vec<u8>| t@),
            forall|j: int| 0 <= j < i ==> (#[trigger] v@[j])@ != s@,
    {
        if bytes_equal(&v[i], s) {
            assert(tv[i as int] == s@);
            return true;
        }
    }
    assert(!tv.contains(s@)) by {
        if tv.contains(s@) {
            let j = choose|j: int| 0 <= j < tv.len() && tv[j] == s@;
            assert(v@[j]@ == s@);
        }
    }
    false
}

/// The stored file `id` is at `path`.
pub open spec fn at_path(v: StoreContents, id: Seq<char>, path: Seq<char>) -> bool {
    v.files.contains_key(id) && v.files[id].path == path
}

/// The store after forgetting every file at `path` together with its
/// sections; chunks stay.
pub open spec fn without_path(v: StoreContents, path: Seq<char>) -> StoreContents {
    StoreContents {
        files: Map::new(|k: Seq<char>| v.files.contains_key(k) && v.files[k].path != path, |k: Seq<char>| v.files[k]),
        chunks: v.chunks,
        sections: Map::new(
            |k: (Seq<char>, int)| v.sections.contains_key(k) && !at_path(v, k.0, path),
            |k: (Seq<char>, int)| v.sections[k],
        ),
    }
}

/// The three tables of the store.
struct Tables {
    files: Vec<FileTableEntry>,
    chunks: Vec<ChunkTableEntry>,
    sections: Vec<FileSectionEntry>,
}

impl View for Tables {
    type V = StoreContents;

    closed spec fn view(&self) -> StoreContents {
        StoreContents {
            files: keyed(file_rows(self.files@), file_key()),
            chunks: keyed(chunk_rows(self.chunks@), chunk_key()),
            sections: keyed(section_rows(self.sections@), section_key()),
        }
    }
}

impl Tables {
    /// The tables have unique keys, each file's sections are kept in offset
    /// order, and every section refers to a stored file and chunk.
    spec fn wf(&self) -> bool {
        &&& unique_keys(file_rows(self.files@), file_key())
        &&& unique_keys(chunk_rows(self.chunks@), chunk_key())
        &&& unique_keys(section_rows(self.sections@), section_key())
        &&& sorted_within_files(section_rows(self.sections@))
        &&& forall|i: int|
            0 <= i < self.sections@.len() ==> section_allowed(self@, #[trigger] self.sections@[i]@)
    }

    /// An empty store.
    fn new() -> (r: Tables)
        ensures
            r.wf(),
            r@.files == Map::<Seq<char>, FileRow>::empty(),
            r@.chunks == Map::<Seq<u8>, ChunkRow>::empty(),
            r@.sections == Map::<(Seq<char>, int), SectionRow>::empty(),
    {
        let r = Tables { files: Vec::new(), chunks: Vec::new(), sections: Vec::new() };
        proof {
            assert(file_rows(r.files@) =~= Seq::empty());
            assert(chunk_rows(r.chunks@) =~= Seq::empty());
            assert(section_rows(r.sections@) =~= Seq::empty());
            lemma_keyed_empty(file_key());
            lemma_keyed_empty(chunk_key());
            lemma_keyed_empty(section_key());
        }
        r
    }

    /// Number of rows in the `chunks` table.
    fn chunk_count(&self) -> (r: usize)
        requires
            self.wf(),
        ensures
            r == self@.chunks.len(),
    {
        proof {
            lemma_keyed_len(chunk_rows(self.chunks@), chunk_key());
        }
        self.chunks.len()
    }

    /// Number of rows in the `files` table.
    fn file_count(&self) -> (r: usize)
        requires
            self.wf(),
        ensures
            r == self@.files.len(),
    {
        proof {
            lemma_keyed_len(file_rows(self.files@), file_key());
        }
        self.files.len()
    }

    /// Number of rows in the `file_sections` table.
    fn section_count(&self) -> (r: usize)
        requires
            self.wf(),
        ensures
            r == self@.sections.len(),
    {
        proof {
            lemma_keyed_len(section_rows(self.sections@), section_key());
        }
        self.sections.len()
    }

    fn find_file(&self, id: &String) -> (r: Option<usize>)
        ensures
            match r {
                Some(i) => i < self.files@.len() && self.files@[i as int].file_id@ == id@
                    && self@.files.contains_key(id@),
                None => !self@.files.contains_key(id@),
            },
    {
        for i in 0..self.files.len()
            invariant
                forall|j: int| 0 <= j < i ==> (#[trigger] self.files@[j]).file_id@ != id@,
        {
            if self.files[i].file_id == *id {
                proof {
                    assert(file_key()(file_rows(self.files@)[i as int]) == id@);
                }
                return Some(i);
            }
        }
        proof {
            if has_key(file_rows(self.files@), file_key(), id@) {
                let c = choose|c: int|
                    0 <= c < file_rows(self.files@).len() && file_key()(
                        #[trigger] file_rows(self.files@)[c],
                    ) == id@;
                assert(self.files@[c].file_id@ == id@);
            }
        }
        None
    }

    fn find_chunk(&self, hash: &Vec<u8>) -> (r: Option<usize>)
        ensures
            match r {
                Some(i) => i < self.chunks@.len() && self.chunks@[i as int].hash@ == hash@
                    && self@.chunks.contains_key(hash@),
                None => !self@.chunks.contains_key(hash@),
            },
    {
        for i in 0..self.chunks.len()
            invariant
                forall|j: int| 0 <= j < i ==> (#[trigger] self.chunks@[j]).hash@ != hash@,
        {
            if bytes_equal(&self.chunks[i].hash, hash) {
                proof {
                    assert(chunk_key()(chunk_rows(self.chunks@)[i as int]) == hash@);
                }
                return Some(i);
            }
        }
        proof {
            if has_key(chunk_rows(self.chunks@), chunk_key(), hash@) {
                let c = choose|c: int|
                    0 <= c < chunk_rows(self.chunks@).len() && chunk_key()(
                        #[trigger] chunk_rows(self.chunks@)[c],
                    ) == hash@;
                assert(self.chunks@[c].hash@ == hash@);
            }
        }
        None
    }

    fn find_section(&self, file_id: &String, offset: i64) -> (r: Option<usize>)
        ensures
            match r {
                Some(i) => i < self.sections@.len() && self.sections@[i as int].file_id@ == file_id@
                    && self.sections@[i as int].offset == offset,
                None => !self@.sections.contains_key((file_id@, offset as int)),
            },
    {
        for i in 0..self.sections.len()
            invariant
                forall|j: int|
                    0 <= j < i ==> !((#[trigger] self.sections@[j]).file_id@ == file_id@
                        && self.sections@[j].offset == offset),
        {
            if self.sections[i].offset == offset && self.sections[i].file_id == *file_id {
                return Some(i);
            }
        }
        proof {
            if has_key(section_rows(self.sections@), section_key(), (file_id@, offset as int)) {
                let c = choose|c: int|
                    0 <= c < section_rows(self.sections@).len() && section_key()(
                        #[trigger] section_rows(self.sections@)[c],
                    ) == (file_id@, offset as int);
                assert(self.sections@[c].file_id@ == file_id@);
            }
        }
        None
    }

    /// Upserts a file row by id.
    fn store_file(&mut self, entry: FileTableEntry)
        requires
            old(self).wf(),
        ensures
            final(self).wf(),
            final(self)@ == with_file(old(self)@, entry@),
    {
        let ghost old_rows = file_rows(self.files@);
        let ghost row = entry@;
        match self.find_file(&entry.file_id) {
            Some(i) => {
                self.files.set(i, entry);
                proof {
                    assert(file_rows(self.files@) =~= old_rows.update(i as int, row));
                    lemma_keyed_update(old_rows, file_key(), i as int, row);
                }
            },
            None => {
                self.files.push(entry);
                proof {
                    assert(file_rows(self.files@) =~= old_rows.push(row));
                    lemma_keyed_push(old_rows, file_key(), row);
                }
            },
        }
        proof {
            assert(self@ =~= with_file(old(self)@, row));
            assert forall|i: int| 0 <= i < self.sections@.len() implies section_allowed(
                self@,
                #[trigger] self.sections@[i]@,
            ) by {
                assert(section_allowed(old(self)@, old(self).sections@[i]@));
            }
        }
    }

    /// Inserts a chunk row unless one with the same digest is stored.
    fn store_chunk(&mut self, entry: ChunkTableEntry)
        requires
            old(self).wf(),
        ensures
            final(self).wf(),
            final(self)@ == with_chunk(old(self)@, entry@),
    {
        let ghost old_rows = chunk_rows(self.chunks@);
        let ghost row = entry@;
        match self.find_chunk(&entry.hash) {
            Some(i) => {
                proof {
                    assert(chunk_rows(self.chunks@)[i as int] == self.chunks@[i as int]@);
                    lemma_keyed_index(old_rows, chunk_key(), i as int);
                }
            },
            None => {
                self.chunks.push(entry);
                proof {
                    assert(chunk_rows(self.chunks@) =~= old_rows.push(row));
                    lemma_keyed_push(old_rows, chunk_key(), row);
                    assert(self@ =~= with_chunk(old(self)@, row));
                }
            },
        }
        proof {
            assert forall|i: int| 0 <= i < self.sections@.len() implies section_allowed(
                self@,
                #[trigger] self.sections@[i]@,
            ) by {
                assert(section_allowed(old(self)@, old(self).sections@[i]@));
            }
        }
    }

    /// Where a new section of `file_id` at `offset` goes to keep the file's
    /// sections in offset order.
    fn section_slot(&self, file_id: &String, offset: i64) -> (r: usize)
        requires
            sorted_within_files(section_rows(self.sections@)),
        ensures
            r <= self.sections@.len(),
            forall|j: int|
                0 <= j < r && (#[trigger] self.sections@[j]).file_id@ == file_id@
                    ==> self.sections@[j].offset <= offset,
            forall|j: int|
                r <= j < self.sections@.len() && (#[trigger] self.sections@[j]).file_id@
                    == file_id@ ==> self.sections@[j].offset > offset,
    {
        let n = self.sections.len();
        for i in 0..n
            invariant
                n == self.sections@.len(),
                sorted_within_files(section_rows(self.sections@)),
                forall|j: int|
                    0 <= j < i && (#[trigger] self.sections@[j]).file_id@ == file_id@
                        ==> self.sections@[j].offset <= offset,
        {
            if self.sections[i].offset > offset && self.sections[i].file_id == *file_id {
                proof {
                    assert forall|j: int|
                        i <= j < self.sections@.len() && (#[trigger] self.sections@[j]).file_id@
                            == file_id@ implies self.sections@[j].offset > offset by {
                        if j > i {
                            let rows = section_rows(self.sections@);
                            assert(rows[i as int].file_id == rows[j].file_id);
                            assert(rows[i as int].offset < rows[j].offset);
                        }
                    }
                }
                return i;
            }
        }
        n
    }

    /// Upserts a section row by file and offset; refused when its file or
    /// its chunk is not stored.
    fn store_section(&mut self, entry: FileSectionEntry) -> (r: Result<(), DataStoreError>)
        requires
            old(self).wf(),
        ensures
            final(self).wf(),
            section_allowed(old(self)@, entry@) ==> r is Ok && final(self)@ == with_section(
                old(self)@,
                entry@,
            ),
            !section_allowed(old(self)@, entry@) ==> (r matches Err(
                DataStoreError::ForeignKeyViolation,
            )) && final(self)@ == old(self)@,
    {
        if self.find_file(&entry.file_id).is_none() || self.find_chunk(&entry.chunk_hash).is_none() {
            return Err(DataStoreError::ForeignKeyViolation);
        }
        self.put_section(entry);
        Ok(())
    }

    fn put_section(&mut self, entry: FileSectionEntry)
        requires
            old(self).wf(),
            section_allowed(old(self)@, entry@),
        ensures
            final(self).wf(),
            final(self)@ == with_section(old(self)@, entry@),
    {
        let ghost old_rows = section_rows(self.sections@);
        let ghost row = entry@;
        match self.find_section(&entry.file_id, entry.offset) {
            Some(i) => {
                self.sections.set(i, entry);
                proof {
                    assert(section_rows(self.sections@) =~= old_rows.update(i as int, row));
                    lemma_keyed_update(old_rows, section_key(), i as int, row);
                    let rows = section_rows(self.sections@);
                    assert forall|a: int, b: int|
                        0 <= a < b < rows.len() && (#[trigger] rows[a]).file_id == (
                        #[trigger] rows[b]).file_id implies rows[a].offset < rows[b].offset by {
                        assert(old_rows[a].file_id == old_rows[b].file_id);
                    }
                    assert forall|k: int| 0 <= k < self.sections@.len() implies section_allowed(
                        old(self)@,
                        #[trigger] self.sections@[k]@,
                    ) by {
                        if k != i {
                            assert(self.sections@[k] == old(self).sections@[k]);
                        }
                    }
                }
            },
            None => {
                let p = self.section_slot(&entry.file_id, entry.offset);
                self.sections.insert(p, entry);
                proof {
                    assert(section_rows(self.sections@) =~= old_rows.insert(p as int, row));
                    lemma_keyed_insert(old_rows, section_key(), p as int, row);
                    let rows = section_rows(self.sections@);
                    assert forall|a: int, b: int|
                        0 <= a < b < rows.len() && (#[trigger] rows[a]).file_id == (
                        #[trigger] rows[b]).file_id implies rows[a].offset < rows[b].offset by {
                        if a < p && b < p {
                            assert(old_rows[a].file_id == old_rows[b].file_id);
                        } else if a < p && b == p {
                            assert(old(self).sections@[a].file_id@ == row.file_id);
                            assert(section_key()(old_rows[a]) != (row.file_id, row.offset)) by {
                                if section_key()(old_rows[a]) == (row.file_id, row.offset) {
                                    assert(has_key(old_rows, section_key(), section_key()(row)));
                                }
                            }
                        } else if a < p && b > p {
                            assert(old_rows[a].file_id == old_rows[b - 1].file_id);
                        } else if a == p {
                            assert(old(self).sections@[b - 1].file_id@ == row.file_id);
                        } else {
                            assert(old_rows[a - 1].file_id == old_rows[b - 1].file_id);
                        }
                    }
                    assert forall|k: int| 0 <= k < self.sections@.len() implies section_allowed(
                        old(self)@,
                        #[trigger] self.sections@[k]@,
                    ) by {
                        if k < p {
                            assert(self.sections@[k] == old(self).sections@[k]);
                        } else if k > p {
                            assert(self.sections@[k] == old(self).sections@[k - 1]);
                        }
                    }
                }
            },
        }
        proof {
            assert(self@ =~= with_section(old(self)@, row));
        }
    }

    fn files_for(&self, ids: &Vec<String>) -> (r: Vec<FileTableEntry>)
        requires
            self.wf(),
        ensures
            files_among(self@.files, texts(ids@), file_rows(r@)),
    {
        let ghost rows = file_rows(self.files@);
        let ghost m = self@.files;
        let ghost tx = texts(ids@);
        let mut out: Vec<FileTableEntry> = Vec::new();
        let ghost mut src: Seq<int> = Seq::empty();
        for i in 0..self.files.len()
            invariant
                self.wf(),
                rows == file_rows(self.files@),
                m == self@.files,
                tx == texts(ids@),
                src.len() == out@.len(),
                forall|a: int| 0 <= a < src.len() ==> 0 <= #[trigger] src[a] < i,
                forall|a: int| 0 <= a < src.len() ==> (#[trigger] out@[a])@ == rows[src[a]],
                forall|a: int| 0 <= a < src.len() ==> tx.contains((#[trigger] out@[a])@.file_id),
                forall|a: int, b: int| 0 <= a < b < src.len() ==> #[trigger] src[a] < #[trigger] src[b],
                forall|j: int|
                    0 <= j < i && tx.contains((#[trigger] rows[j]).file_id) ==> exists|a: int|
                        0 <= a < src.len() && src[a] == j,
        {
            let ghost old_src = src;
            let took = contains_string(ids, &self.files[i].file_id);
            if took {
                let e = self.files[i].duplicate();
                out.push(e);
                proof {
                    src = src.push(i as int);
                    assert(rows[i as int] == self.files@[i as int]@);
                }
            }
            proof {
                assert(rows[i as int] == self.files@[i as int]@);
                assert forall|j: int|
                    0 <= j < i + 1 && tx.contains((#[trigger] rows[j]).file_id) implies exists|a: int|
                    0 <= a < src.len() && src[a] == j by {
                    if j == i {
                        assert(took);
                        assert(src[src.len() - 1] == j);
                    } else {
                        let a = choose|a: int| 0 <= a < old_src.len() && old_src[a] == j;
                        assert(src[a] == j);
                    }
                }
            }
        }
        proof {
            let v = file_rows(out@);
            assert forall|a: int| 0 <= a < v.len() implies tx.contains(v[a].file_id) && m.contains_key(
                v[a].file_id,
            ) && m[v[a].file_id] == v[a] by {
                assert(v[a] == out@[a]@);
                lemma_keyed_index(rows, file_key(), src[a]);
            }
            assert forall|t: Seq<char>| tx.contains(t) && #[trigger] m.contains_key(t) implies exists|a: int|
                0 <= a < v.len() && (#[trigger] v[a]).file_id == t by {
                let c = choose|c: int| 0 <= c < rows.len() && file_key()(#[trigger] rows[c]) == t;
                assert(tx.contains(rows[c].file_id));
                let a = choose|a: int| 0 <= a < src.len() && src[a] == c;
                assert(v[a] == out@[a]@);
            }
            assert forall|a: int, b: int| 0 <= a < b < v.len() implies (#[trigger] v[a]).file_id != (
            #[trigger] v[b]).file_id by {
                assert(v[a] == out@[a]@);
                assert(v[b] == out@[b]@);
                assert(src[a] < src[b]);
            }
        }
        out
    }

    fn chunks_for(&self, ids: &Vec<Vec<u8>>) -> (r: Vec<ChunkTableEntry>)
        requires
            self.wf(),
        ensures
            chunks_among(self@.chunks, ids@.map_values(|t: Vec<u8>| t@), chunk_rows(r@)),
    {
        let ghost rows = chunk_rows(self.chunks@);
        let ghost m = self@.chunks;
        let ghost tx = ids@.map_values(|t: Vec<u8>| t@);
        let mut out: Vec<ChunkTableEntry> = Vec::new();
        let ghost mut src: Seq<int> = Seq::empty();
        for i in 0..self.chunks.len()
            invariant
                self.wf(),
                rows == chunk_rows(self.chunks@),
                m == self@.chunks,
                tx == ids@.map_values(|t: Vec<u8>| t@),
                src.len() == out@.len(),
                forall|a: int| 0 <= a < src.len() ==> 0 <= #[trigger] src[a] < i,
                forall|a: int| 0 <= a < src.len() ==> (#[trigger] out@[a])@ == rows[src[a]],
                forall|a: int| 0 <= a < src.len() ==> tx.contains((#[trigger] out@[a])@.hash),
                forall|a: int, b: int| 0 <= a < b < src.len() ==> #[trigger] src[a] < #[trigger] src[b],
                forall|j: int|
                    0 <= j < i && tx.contains((#[trigger] rows[j]).hash) ==> exists|a: int|
                        0 <= a < src.len() && src[a] == j,
        {
            let ghost old_src = src;
            let took = contains_bytes(ids, &self.chunks[i].hash);
            if took {
                let e = self.chunks[i].duplicate();
                out.push(e);
                proof {
                    src = src.push(i as int);
                    assert(rows[i as int] == self.chunks@[i as int]@);
                }
            }
            proof {
                assert(rows[i as int] == self.chunks@[i as int]@);
                assert forall|j: int|
                    0 <= j < i + 1 && tx.contains((#[trigger] rows[j]).hash) implies exists|a: int|
                    0 <= a < src.len() && src[a] == j by {
                    if j == i {
                        assert(took);
                        assert(src[src.len() - 1] == j);
                    } else {
                        let a = choose|a: int| 0 <= a < old_src.len() && old_src[a] == j;
                        assert(src[a] == j);
                    }
                }
            }
        }
        proof {
            let v = chunk_rows(out@);
            assert forall|a: int| 0 <= a < v.len() implies tx.contains(v[a].hash) && m.contains_key(
                v[a].hash,
            ) && m[v[a].hash] == v[a] by {
                assert(v[a] == out@[a]@);
                lemma_keyed_index(rows, chunk_key(), src[a]);
            }
            assert forall|t: Seq<u8>| tx.contains(t) && #[trigger] m.contains_key(t) implies exists|a: int|
                0 <= a < v.len() && (#[trigger] v[a]).hash == t by {
                let c = choose|c: int| 0 <= c < rows.len() && chunk_key()(#[trigger] rows[c]) == t;
                assert(tx.contains(rows[c].hash));
                let a = choose|a: int| 0 <= a < src.len() && src[a] == c;
                assert(v[a] == out@[a]@);
            }
            assert forall|a: int, b: int| 0 <= a < b < v.len() implies (#[trigger] v[a]).hash != (
            #[trigger] v[b]).hash by {
                assert(v[a] == out@[a]@);
                assert(v[b] == out@[b]@);
                assert(src[a] < src[b]);
            }
        }
        out
    }

    fn sections_for(&self, id: &String) -> (r: Vec<FileSectionEntry>)
        requires
            self.wf(),
        ensures
            sections_of(self@.sections, id@, section_rows(r@)),
            r@.len() == 0 <==> !has_sections(self@.sections, id@),
    {
        let ghost rows = section_rows(self.sections@);
        let ghost m = self@.sections;
        let mut out: Vec<FileSectionEntry> = Vec::new();
        let ghost mut src: Seq<int> = Seq::empty();
        for i in 0..self.sections.len()
            invariant
                self.wf(),
                rows == section_rows(self.sections@),
                m == self@.sections,
                src.len() == out@.len(),
                forall|a: int| 0 <= a < src.len() ==> 0 <= #[trigger] src[a] < i,
                forall|a: int| 0 <= a < src.len() ==> (#[trigger] out@[a])@ == rows[src[a]],
                forall|a: int| 0 <= a < src.len() ==> (#[trigger] out@[a])@.file_id == id@,
                forall|a: int, b: int| 0 <= a < b < src.len() ==> #[trigger] src[a] < #[trigger] src[b],
                forall|j: int|
                    0 <= j < i && (#[trigger] rows[j]).file_id == id@ ==> exists|a: int|
                        0 <= a < src.len() && src[a] == j,
        {
            let ghost old_src = src;
            let took = self.sections[i].file_id == *id;
            if took {
                let e = self.sections[i].duplicate();
                out.push(e);
                proof {
                    src = src.push(i as int);
                }
            }
            proof {
                assert(rows[i as int] == self.sections@[i as int]@);
                assert forall|j: int|
                    0 <= j < i + 1 && (#[trigger] rows[j]).file_id == id@ implies exists|a: int|
                    0 <= a < src.len() && src[a] == j by {
                    if j == i {
                        assert(src[src.len() - 1] == j);
                    } else {
                        let a = choose|a: int| 0 <= a < old_src.len() && old_src[a] == j;
                        assert(src[a] == j);
                    }
                }
            }
        }
        proof {
            let v = section_rows(out@);
            assert forall|a: int| 0 <= a < v.len() implies v[a].file_id == id@ && m.contains_key(
                (id@, v[a].offset),
            ) && m[(id@, v[a].offset)] == v[a] by {
                assert(v[a] == out@[a]@);
                lemma_keyed_index(rows, section_key(), src[a]);
            }
            assert forall|a: int, b: int| 0 <= a < b < v.len() implies (#[trigger] v[a]).offset < (
            #[trigger] v[b]).offset by {
                assert(v[a] == out@[a]@);
                assert(v[b] == out@[b]@);
                assert(src[a] < src[b]);
                assert(rows[src[a]].file_id == rows[src[b]].file_id);
            }
            assert forall|o: int| #[trigger] m.contains_key((id@, o)) implies exists|a: int|
                0 <= a < v.len() && (#[trigger] v[a]).offset == o by {
                let c = choose|c: int| 0 <= c < rows.len() && section_key()(#[trigger] rows[c]) == (id@, o);
                let a = choose|a: int| 0 <= a < src.len() && src[a] == c;
                assert(v[a] == out@[a]@);
            }
            if v.len() > 0 {
                assert(m.contains_key((id@, v[0].offset)));
            }
            if has_sections(m, id@) {
                let o = choose|o: int| #[trigger] m.contains_key((id@, o));
                let a = choose|a: int| 0 <= a < v.len() && (#[trigger] v[a]).offset == o;
            }
        }
        out
    }

    fn file_by_id(&self, id: &String) -> (r: Option<FileTableEntry>)
        requires
            self.wf(),
        ensures
            match r {
                Some(e) => self@.files.contains_key(id@) && e@ == self@.files[id@],
                None => !self@.files.contains_key(id@),
            },
    {
        match self.find_file(id) {
            Some(i) => {
                proof {
                    assert(file_rows(self.files@)[i as int] == self.files@[i as int]@);
                    lemma_keyed_index(file_rows(self.files@), file_key(), i as int);
                }
                Some(self.files[i].duplicate())
            },
            None => None,
        }
    }

    fn chunk_by_hash(&self, hash: &Vec<u8>) -> (r: Option<ChunkTableEntry>)
        requires
            self.wf(),
        ensures
            match r {
                Some(e) => self@.chunks.contains_key(hash@) && e@ == self@.chunks[hash@],
                None => !self@.chunks.contains_key(hash@),
            },
    {
        match self.find_chunk(hash) {
            Some(i) => {
                proof {
                    assert(chunk_rows(self.chunks@)[i as int] == self.chunks@[i as int]@);
                    lemma_keyed_index(chunk_rows(self.chunks@), chunk_key(), i as int);
                }
                Some(self.chunks[i].duplicate())
            },
            None => None,
        }
    }

    fn forget_path(self, path: &String) -> (r: (Tables, bool))
        requires
            self.wf(),
        ensures
            r.0.wf(),
            r.0@ == without_path(self@, path@),
            r.1 == exists|id: Seq<char>| at_path(self@, id, path@),
    {
        let ghost v = self@;
        let ghost frows = file_rows(self.files@);
        let ghost srows = section_rows(self.sections@);
        let Tables { files, chunks, sections } = self;
        let mut kept: Vec<FileTableEntry> = Vec::new();
        let mut removed: Vec<String> = Vec::new();
        let ghost mut src: Seq<int> = Seq::empty();
        let ghost mut rsrc: Seq<int> = Seq::empty();
        for f in it: files.into_iter()
            invariant
                it.seq() == files@,
                frows == file_rows(files@),
                src.len() == kept@.len(),
                forall|a: int| 0 <= a < src.len() ==> 0 <= #[trigger] src[a] < it.index(),
                forall|a: int| 0 <= a < src.len() ==> (#[trigger] file_rows(kept@)[a]) == frows[src[a]],
                forall|a: int| 0 <= a < src.len() ==> (#[trigger] file_rows(kept@)[a]).path != path@,
                forall|a: int, b: int| 0 <= a < b < src.len() ==> #[trigger] src[a] < #[trigger] src[b],
                forall|j: int|
                    0 <= j < it.index() && (#[trigger] frows[j]).path != path@ ==> exists|a: int|
                        0 <= a < src.len() && src[a] == j,
                rsrc.len() == removed@.len(),
                forall|a: int|
                    0 <= a < rsrc.len() ==> 0 <= #[trigger] rsrc[a] < it.index() && frows[rsrc[a]].path
                        == path@ && frows[rsrc[a]].file_id == texts(removed@)[a],
                forall|j: int|
                    0 <= j < it.index() && (#[trigger] frows[j]).path == path@ ==> texts(removed@).contains(
                        frows[j].file_id,
                    ),
        {
            let ghost i = it.index() as int;
            assert(f@ == frows[i]);
            let ghost old_src = src;
            let ghost old_removed = removed@;
            let ghost old_kept = kept@;
            if f.path == *path {
                removed.push(f.file_id);
                proof {
                    rsrc = rsrc.push(i);
                    assert(texts(removed@) =~= texts(old_removed).push(frows[i].file_id));
                    assert forall|j: int|
                        0 <= j < i + 1 && (#[trigger] frows[j]).path == path@ implies texts(
                            removed@,
                        ).contains(frows[j].file_id) by {
                        if j == i {
                            assert(texts(removed@)[old_removed.len() as int] == frows[j].file_id);
                        } else {
                            let w = choose|w: int|
                                0 <= w < texts(old_removed).len() && texts(old_removed)[w] == frows[j].file_id;
                            assert(texts(removed@)[w] == frows[j].file_id);
                        }
                    }
                }
            } else {
                kept.push(f);
                proof {
                    src = src.push(i);
                    assert(file_rows(kept@) =~= file_rows(old_kept).push(frows[i]));
                    assert forall|j: int|
                        0 <= j < i + 1 && (#[trigger] frows[j]).path != path@ implies exists|a: int|
                        0 <= a < src.len() && src[a] == j by {
                        if j == i {
                            assert(src[src.len() - 1] == j);
                        } else {
                            let a = choose|a: int| 0 <= a < old_src.len() && old_src[a] == j;
                            assert(src[a] == j);
                        }
                    }
                }
            }
        }
        proof {
            lemma_keyed_subseq(frows, file_key(), file_rows(kept@), src, |r: FileRow| r.path != path@);
            assert(keyed(file_rows(kept@), file_key()) =~= without_path(v, path@).files);
        }
        let any_removed = removed.len() > 0;
        proof {
            if any_removed {
                let j = rsrc[0];
                lemma_keyed_index(frows, file_key(), j);
                assert(at_path(v, frows[j].file_id, path@));
            }
            if exists|id: Seq<char>| at_path(v, id, path@) {
                let id = choose|id: Seq<char>| at_path(v, id, path@);
                let c = choose|c: int| 0 <= c < frows.len() && file_key()(#[trigger] frows[c]) == id;
                lemma_keyed_index(frows, file_key(), c);
                assert(texts(removed@).contains(frows[c].file_id));
            }
        }
        let mut kept_sections: Vec<FileSectionEntry> = Vec::new();
        let ghost mut ssrc: Seq<int> = Seq::empty();
        let ghost keep = |r: SectionRow| !at_path(v, r.file_id, path@);
        for e in it: sections.into_iter()
            invariant
                it.seq() == sections@,
                srows == section_rows(sections@),
                keep == (|r: SectionRow| !at_path(v, r.file_id, path@)),
                frows == file_rows(files@),
                unique_keys(frows, file_key()),
                v.files == keyed(frows, file_key()),
                rsrc.len() == removed@.len(),
                forall|a: int|
                    0 <= a < rsrc.len() ==> 0 <= #[trigger] rsrc[a] < frows.len() && frows[rsrc[a]].path
                        == path@ && frows[rsrc[a]].file_id == texts(removed@)[a],
                forall|j: int|
                    0 <= j < frows.len() && (#[trigger] frows[j]).path == path@ ==> texts(removed@).contains(
                        frows[j].file_id,
                    ),
                ssrc.len() == kept_sections@.len(),
                forall|a: int| 0 <= a < ssrc.len() ==> 0 <= #[trigger] ssrc[a] < it.index(),
                forall|a: int| 0 <= a < ssrc.len() ==> (#[trigger] section_rows(kept_sections@)[a]) == srows[ssrc[a]],
                forall|a: int| 0 <= a < ssrc.len() ==> keep(#[trigger] section_rows(kept_sections@)[a]),
                forall|a: int, b: int| 0 <= a < b < ssrc.len() ==> #[trigger] ssrc[a] < #[trigger] ssrc[b],
                forall|j: int|
                    0 <= j < it.index() && keep(#[trigger] srows[j]) ==> exists|a: int|
                        0 <= a < ssrc.len() && ssrc[a] == j,
        {
            let ghost i = it.index() as int;
            assert(e@ == srows[i]);
            let ghost old_src = ssrc;
            let ghost old_kept = kept_sections@;
            let gone = contains_string(&removed, &e.file_id);
            proof {
                if gone {
                    let w = choose|w: int| 0 <= w < texts(removed@).len() && texts(removed@)[w] == e.file_id@;
                    let j = rsrc[w];
                    lemma_keyed_index(frows, file_key(), j);
                    assert(!keep(srows[i]));
                } else if at_path(v, e.file_id@, path@) {
                    let c = choose|c: int| 0 <= c < frows.len() && file_key()(#[trigger] frows[c]) == e.file_id@;
                    lemma_keyed_index(frows, file_key(), c);
                    assert(texts(removed@).contains(frows[c].file_id));
                }
            }
            if !gone {
                kept_sections.push(e);
                proof {
                    ssrc = ssrc.push(i);
                    assert(section_rows(kept_sections@) =~= section_rows(old_kept).push(srows[i]));
                }
            }
            proof {
                assert forall|j: int|
                    0 <= j < i + 1 && keep(#[trigger] srows[j]) implies exists|a: int|
                    0 <= a < ssrc.len() && ssrc[a] == j by {
                    if j == i {
                        assert(ssrc[ssrc.len() - 1] == j);
                    } else {
                        let a = choose|a: int| 0 <= a < old_src.len() && old_src[a] == j;
                        assert(ssrc[a] == j);
                    }
                }
            }
        }
        let r = Tables { files: kept, chunks, sections: kept_sections };
        proof {
            let ks = section_rows(r.sections@);
            lemma_keyed_subseq(srows, section_key(), ks, ssrc, keep);
            let ms = keyed(srows, section_key());
            assert forall|k: (Seq<char>, int)| #[trigger] ms.contains_key(k) implies ms[k].file_id == k.0 by {
                let c = choose|c: int| 0 <= c < srows.len() && section_key()(#[trigger] srows[c]) == k;
                lemma_keyed_index(srows, section_key(), c);
            }
            assert(r@.sections =~= without_path(v, path@).sections);
            assert(r@ =~= without_path(v, path@));
            assert forall|a: int, b: int|
                0 <= a < b < ks.len() && (#[trigger] ks[a]).file_id == (#[trigger] ks[b]).file_id implies ks[a].offset
                < ks[b].offset by {
                assert(ssrc[a] < ssrc[b]);
                assert(srows[ssrc[a]].file_id == srows[ssrc[b]].file_id);
            }
            assert forall|a: int| 0 <= a < r.sections@.len() implies section_allowed(
                r@,
                #[trigger] r.sections@[a]@,
            ) by {
                assert(ks[a] == r.sections@[a]@);
                assert(section_allowed(v, self.sections@[ssrc[a]]@));
                assert(srows[ssrc[a]] == self.sections@[ssrc[a]]@);
            }
        }
        (r, any_removed)
    }

    fn store_files(&mut self, items: Vec<FileTableEntry>)
        requires
            old(self).wf(),
        ensures
            final(self).wf(),
            final(self)@ == with_files(old(self)@, file_rows(items@)),
    {
        let ghost rows = file_rows(items@);
        let ghost start = self@;
        for item in it: items.into_iter()
            invariant
                it.seq() == items@,
                rows == file_rows(items@),
                self.wf(),
                self@ == with_files(start, rows.take(it.index() as int)),
        {
            let ghost k = it.index() as int;
            assert(rows.take(k + 1).drop_last() =~= rows.take(k));
            assert(item@ == rows[k]);
            self.store_file(item);
        }
        assert(rows.take(rows.len() as int) =~= rows);
    }

    fn store_chunks(&mut self, items: Vec<ChunkTableEntry>)
        requires
            old(self).wf(),
        ensures
            final(self).wf(),
            final(self)@ == with_chunks(old(self)@, chunk_rows(items@)),
    {
        let ghost rows = chunk_rows(items@);
        let ghost start = self@;
        for item in it: items.into_iter()
            invariant
                it.seq() == items@,
                rows == chunk_rows(items@),
                self.wf(),
                self@ == with_chunks(start, rows.take(it.index() as int)),
        {
            let ghost k = it.index() as int;
            assert(rows.take(k + 1).drop_last() =~= rows.take(k));
            assert(item@ == rows[k]);
            self.store_chunk(item);
        }
        assert(rows.take(rows.len() as int) =~= rows);
    }

    fn store_sections(&mut self, items: Vec<FileSectionEntry>) -> (r: Result<(), DataStoreError>)
        requires
            old(self).wf(),
        ensures
            final(self).wf(),
            sections_allowed(old(self)@, section_rows(items@)) ==> r is Ok && final(self)@
                == with_sections(old(self)@, section_rows(items@)),
            !sections_allowed(old(self)@, section_rows(items@)) ==> (r matches Err(
                DataStoreError::ForeignKeyViolation,
            )) && final(self)@ == old(self)@,
    {
        let ghost rows = section_rows(items@);
        let ghost start = self@;
        for i in 0..items.len()
            invariant
                rows == section_rows(items@),
                self.wf(),
                self@ == start,
                forall|j: int| 0 <= j < i ==> section_allowed(start, #[trigger] rows[j]),
        {
            if self.find_file(&items[i].file_id).is_none() || self.find_chunk(
                &items[i].chunk_hash,
            ).is_none() {
                proof {
                    assert(!section_allowed(start, rows[i as int]));
                }
                return Err(DataStoreError::ForeignKeyViolation);
            }
            assert(section_allowed(start, rows[i as int]));
        }
        for item in it: items.into_iter()
            invariant
                it.seq() == items@,
                rows == section_rows(items@),
                sections_allowed(start, rows),
                self.wf(),
                self@ == with_sections(start, rows.take(it.index() as int)),
        {
            let ghost k = it.index() as int;
            assert(rows.take(k + 1).drop_last() =~= rows.take(k));
            assert(item@ == rows[k]);
            proof {
                lemma_sections_keep_parents(start, rows.take(k));
                assert(section_allowed(start, rows[k]));
            }
            self.put_section(item);
        }
        assert(rows.take(rows.len() as int) =~= rows);
        Ok(())
    }
}

/// Section writes leave the files and chunks tables as they are.
pub proof fn lemma_sections_keep_parents(v: StoreContents, rows: Seq<SectionRow>)
    ensures
        with_sections(v, rows).files == v.files,
        with_sections(v, rows).chunks == v.chunks,
    decreases rows.len(),
{
    if rows.len() > 0 {
        lemma_sections_keep_parents(v, rows.drop_last());
    }
}

/// Storing the same chunk row `k >= 1` times leaves exactly one row for its
/// digest, with the size of the first write.
pub proof fn lemma_chunk_dedup(v: StoreContents, row: ChunkRow, k: nat)
    requires
        k >= 1,
    ensures
        with_chunks(v, Seq::new(k, |i: int| row)) == with_chunk(v, row),
        with_chunk(v, row).chunks.dom() == v.chunks.dom().insert(row.hash),
        with_chunk(v, row).chunks[row.hash] == if v.chunks.contains_key(row.hash) {
            v.chunks[row.hash]
        } else {
            row
        },
    decreases k,
{
    let rows = Seq::new(k, |i: int| row);
    assert(rows.drop_last() =~= Seq::new((k - 1) as nat, |i: int| row));
    assert(rows.last() == row);
    if k > 1 {
        lemma_chunk_dedup(v, row, (k - 1) as nat);
        assert(with_chunk(v, row).chunks.contains_key(row.hash));
        assert(with_chunk(with_chunk(v, row), row) == with_chunk(v, row));
    } else {
        assert(rows.drop_last() =~= Seq::<ChunkRow>::empty());
        assert(with_chunks(v, rows.drop_last()) == v);
    }
    if !v.chunks.contains_key(row.hash) {
        assert(with_chunk(v, row).chunks.dom() =~= v.chunks.dom().insert(row.hash));
    } else {
        assert(v.chunks.dom() =~= v.chunks.dom().insert(row.hash));
    }
}

/// Writing a section and then another at the same file and offset leaves
/// one section there: the second.
pub proof fn lemma_section_upsert(v: StoreContents, first: SectionRow, second: SectionRow)
    requires
        first.file_id == second.file_id,
        first.offset == second.offset,
    ensures
        with_section(with_section(v, first), second) == with_section(v, second),
        with_section(v, second).sections[(second.file_id, second.offset)] == second,
{
    assert(with_section(with_section(v, first), second).sections =~= with_section(v, second).sections);
}

/// Asking for the sections of no file gives no group.
pub proof fn lemma_no_keys_no_groups(m: Map<(Seq<char>, int), SectionRow>, g: Seq<Seq<SectionRow>>)
    requires
        grouped_sections(m, Seq::empty(), g),
    ensures
        g.len() == 0,
{
    if g.len() > 0 {
        assert(Seq::<Seq<char>>::empty().contains(g[0][0].file_id));
    }
}

/// For two distinct files, each group holds the sections of one file only,
/// in increasing offset order, and each file with sections has its group.
pub proof fn lemma_fetch_many_isolation(
    m: Map<(Seq<char>, int), SectionRow>,
    a: Seq<char>,
    b: Seq<char>,
    g: Seq<Seq<SectionRow>>,
)
    requires
        a != b,
        grouped_sections(m, seq![a, b], g),
    ensures
        g.len() <= 2,
        forall|q: int, x: int|
            0 <= q < g.len() && 0 <= x < g[q].len() ==> (#[trigger] g[q][x]).file_id == g[q][0].file_id,
        forall|q: int, x: int, y: int|
            0 <= q < g.len() && 0 <= x < y < g[q].len() ==> (#[trigger] g[q][x]).offset < (
            #[trigger] g[q][y]).offset,
        has_sections(m, a) ==> exists|q: int| 0 <= q < g.len() && sections_of(m, a, #[trigger] g[q]),
        has_sections(m, b) ==> exists|q: int| 0 <= q < g.len() && sections_of(m, b, #[trigger] g[q]),
{
    let ids = seq![a, b];
    assert(ids.contains(a)) by {
        assert(ids[0] == a);
    }
    assert(ids.contains(b)) by {
        assert(ids[1] == b);
    }
    if g.len() > 2 {
        assert(ids.contains(g[0][0].file_id));
        assert(ids.contains(g[1][0].file_id));
        assert(ids.contains(g[2][0].file_id));
        assert(g[0][0].file_id != g[1][0].file_id);
        assert(g[0][0].file_id != g[2][0].file_id);
        assert(g[1][0].file_id != g[2][0].file_id);
    }
    assert forall|q: int, x: int| 0 <= q < g.len() && 0 <= x < g[q].len() implies (#[trigger] g[q][x]).file_id
        == g[q][0].file_id by {
        assert(sections_of(m, g[q][0].file_id, g[q]));
    }
    assert forall|q: int, x: int, y: int|
        0 <= q < g.len() && 0 <= x < y < g[q].len() implies (#[trigger] g[q][x]).offset < (
        #[trigger] g[q][y]).offset by {
        assert(sections_of(m, g[q][0].file_id, g[q]));
    }
}

/// An in-memory content store with the semantics of the relational one:
/// files upserted by id, chunks unique by digest (first size wins), sections
/// upserted by file and offset and only over stored files and chunks, and
/// batches that are stored whole or not at all.
pub struct DataStore {
    tables: Tables,
}

impl View for DataStore {
    type V = StoreContents;

    closed spec fn view(&self) -> StoreContents {
        self.tables@
    }
}

impl DataStore {
    #[verifier::type_invariant]
    spec fn inv(self) -> bool {
        self.tables.wf()
    }

    /// An empty store.
    pub fn new() -> (r: DataStore)
        ensures
            r@.files == Map::<Seq<char>, FileRow>::empty(),
            r@.chunks == Map::<Seq<u8>, ChunkRow>::empty(),
            r@.sections == Map::<(Seq<char>, int), SectionRow>::empty(),
    {
        DataStore { tables: Tables::new() }
    }

    /// Number of rows in the `chunks` table.
    pub fn chunk_count(&self) -> (r: usize)
        ensures
            r == self@.chunks.len(),
    {
        proof {
            use_type_invariant(self);
        }
        self.tables.chunk_count()
    }

    /// Number of rows in the `files` table.
    pub fn file_count(&self) -> (r: usize)
        ensures
            r == self@.files.len(),
    {
        proof {
            use_type_invariant(self);
        }
        self.tables.file_count()
    }

    /// Forgets every file stored at `path`, with its sections; the chunks
    /// stay. Tells whether a file was there.
    pub fn remove_path(&mut self, path: &String) -> (r: bool)
        ensures
            final(self)@ == without_path(old(self)@, path@),
            r == exists|id: Seq<char>| at_path(old(self)@, id, path@),
    {
        proof {
            use_type_invariant(&*self);
        }
        let mut t = Tables::new();
        std::mem::swap(&mut t, &mut self.tables);
        let (t, r) = t.forget_path(path);
        self.tables = t;
        r
    }

    /// Number of rows in the `file_sections` table.
    pub fn section_count(&self) -> (r: usize)
        ensures
            r == self@.sections.len(),
    {
        proof {
            use_type_invariant(self);
        }
        self.tables.section_count()
    }
}

impl Persist<FileTableEntry> for DataStore {
    /// Upserts every row by id, in order.
    fn store_all(&mut self, items: Vec<FileTableEntry>) -> (r: Result<(), DataStoreError>)
        ensures
            r is Ok,
            final(self)@ == with_files(old(self)@, file_rows(items@)),
    {
        proof {
            use_type_invariant(&*self);
        }
        let mut t = Tables::new();
        std::mem::swap(&mut t, &mut self.tables);
        t.store_files(items);
        self.tables = t;
        Ok(())
    }

    /// Upserts the row by id: a rename never duplicates a file.
    fn store(&mut self, item: FileTableEntry) -> (r: Result<(), DataStoreError>)
        ensures
            r is Ok,
            final(self)@ == with_file(old(self)@, item@),
    {
        proof {
            use_type_invariant(&*self);
        }
        let mut t = Tables::new();
        std::mem::swap(&mut t, &mut self.tables);
        t.store_file(item);
        self.tables = t;
        Ok(())
    }
}

impl Persist<ChunkTableEntry> for DataStore {
    /// Inserts each row unless its digest is stored, in order.
    fn store_all(&mut self, items: Vec<ChunkTableEntry>) -> (r: Result<(), DataStoreError>)
        ensures
            r is Ok,
            final(self)@ == with_chunks(old(self)@, chunk_rows(items@)),
    {
        proof {
            use_type_invariant(&*self);
        }
        let mut t = Tables::new();
        std::mem::swap(&mut t, &mut self.tables);
        t.store_chunks(items);
        self.tables = t;
        Ok(())
    }

    /// Inserts the row unless its digest is stored.
    fn store(&mut self, item: ChunkTableEntry) -> (r: Result<(), DataStoreError>)
        ensures
            r is Ok,
            final(self)@ == with_chunk(old(self)@, item@),
    {
        proof {
            use_type_invariant(&*self);
        }
        let mut t = Tables::new();
        std::mem::swap(&mut t, &mut self.tables);
        t.store_chunk(item);
        self.tables = t;
        Ok(())
    }
}

impl Persist<FileSectionEntry> for DataStore {
    /// Upserts every row by file and offset, or none of them when one
    /// refers to a file or chunk that is not stored.
    fn store_all(&mut self, items: Vec<FileSectionEntry>) -> (r: Result<(), DataStoreError>)
        ensures
            sections_allowed(old(self)@, section_rows(items@)) ==> r is Ok && final(self)@
                == with_sections(old(self)@, section_rows(items@)),
            !sections_allowed(old(self)@, section_rows(items@)) ==> (r matches Err(
                DataStoreError::ForeignKeyViolation,
            )) && final(self)@ == old(self)@,
    {
        proof {
            use_type_invariant(&*self);
        }
        let mut t = Tables::new();
        std::mem::swap(&mut t, &mut self.tables);
        let r = t.store_sections(items);
        self.tables = t;
        r
    }

    /// Upserts the row by file and offset; refused when its file or chunk
    /// is not stored.
    fn store(&mut self, item: FileSectionEntry) -> (r: Result<(), DataStoreError>)
        ensures
            section_allowed(old(self)@, item@) ==> r is Ok && final(self)@ == with_section(
                old(self)@,
                item@,
            ),
            !section_allowed(old(self)@, item@) ==> (r matches Err(
                DataStoreError::ForeignKeyViolation,
            )) && final(self)@ == old(self)@,
    {
        proof {
            use_type_invariant(&*self);
        }
        let mut t = Tables::new();
        std::mem::swap(&mut t, &mut self.tables);
        let r = t.store_section(item);
        self.tables = t;
        r
    }
}

/// The id texts of `keys`, in order.
fn id_strings(keys: &[FileID]) -> (r: Vec<String>)
    ensures
        texts(r@) == file_id_texts(keys@),
{
    let mut r: Vec<String> = Vec::new();
    for i in 0..keys.len()
        invariant
            texts(r@) == file_id_texts(keys@).take(i as int),
    {
        let t = keys[i].to_string();
        let ghost before = r@;
        r.push(t);
        assert(texts(r@) =~= texts(before).push(t@));
        assert(texts(r@) =~= file_id_texts(keys@).take(i + 1));
    }
    assert(file_id_texts(keys@).take(keys@.len() as int) =~= file_id_texts(keys@));
    r
}

/// The digests of `keys`, in order.
fn digest_vectors(keys: &[ChunkID]) -> (r: Vec<Vec<u8>>)
    ensures
        r@.map_values(|t: Vec<u8>| t@) == chunk_id_bytes(keys@),
{
    let mut r: Vec<Vec<u8>> = Vec::new();
    for i in 0..keys.len()
        invariant
            r@.map_values(|t: Vec<u8>| t@) == chunk_id_bytes(keys@).take(i as int),
    {
        let t = keys[i].to_vec();
        let ghost before = r@;
        r.push(t);
        assert(r@.map_values(|t: Vec<u8>| t@) =~= before.map_values(|t: Vec<u8>| t@).push(t@));
        assert(r@.map_values(|t: Vec<u8>| t@) =~= chunk_id_bytes(keys@).take(i + 1));
    }
    assert(chunk_id_bytes(keys@).take(keys@.len() as int) =~= chunk_id_bytes(keys@));
    r
}

impl Fetch<FileID, FileTableEntry> for DataStore {
    /// The file row with this id.
    fn fetch_by(&self, key: &FileID) -> (r: Result<FileTableEntry, DataStoreError>)
        ensures
            match r {
                Ok::<FileTableEntry, DataStoreError>(e) => self@.files.contains_key(uuid_text(key.value))
                    && e@ == self@.files[uuid_text(key.value)],
                Err(e) => !self@.files.contains_key(uuid_text(key.value)) && e is NotFound,
            },
    {
        proof {
            use_type_invariant(self);
        }
        match self.tables.file_by_id(&key.to_string()) {
            Some(e) => Ok(e),
            None => Err(DataStoreError::NotFound),
        }
    }

    /// The rows of the ids that are stored, each once.
    fn fetch_many(&self, keys: &[FileID]) -> (r: Result<Vec<FileTableEntry>, DataStoreError>)
        ensures
            r matches Ok(v) && files_among(self@.files, file_id_texts(keys@), file_rows(v@)),
    {
        proof {
            use_type_invariant(self);
        }
        let ids = id_strings(keys);
        Ok(self.tables.files_for(&ids))
    }
}

impl Fetch<ChunkID, ChunkTableEntry> for DataStore {
    /// The chunk row with this digest.
    fn fetch_by(&self, key: &ChunkID) -> (r: Result<ChunkTableEntry, DataStoreError>)
        ensures
            match r {
                Ok(e) => self@.chunks.contains_key(key.bytes@) && e@ == self@.chunks[key.bytes@],
                Err(e) => !self@.chunks.contains_key(key.bytes@) && e is NotFound,
            },
    {
        proof {
            use_type_invariant(self);
        }
        match self.tables.chunk_by_hash(&key.to_vec()) {
            Some(e) => Ok(e),
            None => Err(DataStoreError::NotFound),
        }
    }

    /// The rows of the digests that are stored, each once.
    fn fetch_many(&self, keys: &[ChunkID]) -> (r: Result<Vec<ChunkTableEntry>, DataStoreError>)
        ensures
            r matches Ok(v) && chunks_among(self@.chunks, chunk_id_bytes(keys@), chunk_rows(v@)),
    {
        proof {
            use_type_invariant(self);
        }
        let ids = digest_vectors(keys);
        Ok(self.tables.chunks_for(&ids))
    }
}

impl Fetch<FileID, Vec<FileSectionEntry>> for DataStore {
    /// All sections of the file, in increasing offset order; `NotFound`
    /// when it has none.
    fn fetch_by(&self, key: &FileID) -> (r: Result<Vec<FileSectionEntry>, DataStoreError>)
        ensures
            match r {
                Ok::<Vec<FileSectionEntry>, DataStoreError>(v) => has_sections(self@.sections, uuid_text(key.value)) && sections_of(
                    self@.sections,
                    uuid_text(key.value),
                    section_rows(v@),
                ),
                Err(e) => !has_sections(self@.sections, uuid_text(key.value)) && e is NotFound,
            },
    {
        proof {
            use_type_invariant(self);
        }
        let v = self.tables.sections_for(&key.to_string());
        if v.len() == 0 {
            Err(DataStoreError::NotFound)
        } else {
            Ok(v)
        }
    }

    /// One group per requested file that has sections, each group that
    /// file's sections in increasing offset order; no keys, no groups.
    fn fetch_many(&self, keys: &[FileID]) -> (r: Result<Vec<Vec<FileSectionEntry>>, DataStoreError>)
        ensures
            r matches Ok(g) && grouped_sections(self@.sections, file_id_texts(keys@), section_groups(g@)),
    {
        proof {
            use_type_invariant(self);
        }
        let ghost m = self@.sections;
        let ghost all = file_id_texts(keys@);
        let mut seen: Vec<String> = Vec::new();
        let mut groups: Vec<Vec<FileSectionEntry>> = Vec::new();
        for i in 0..keys.len()
            invariant
                self.tables.wf(),
                m == self@.sections,
                all == file_id_texts(keys@),
                texts(seen@) == all.take(i as int),
                grouped_sections(m, all.take(i as int), section_groups(groups@)),
        {
            let t = keys[i].to_string();
            let ghost prefix = all.take(i as int);
            let ghost g0 = section_groups(groups@);
            let dup = contains_string(&seen, &t);
            let ghost mut pushed = false;
            if !dup {
                let v = self.tables.sections_for(&t);
                if v.len() > 0 {
                    groups.push(v);
                    proof {
                        pushed = true;
                    }
                }
            }
            let ghost before = seen@;
            seen.push(t);
            proof {
                let next = all.take(i + 1);
                assert(next =~= prefix.push(t@));
                assert(texts(seen@) =~= texts(before).push(t@));
                let g = section_groups(groups@);
                assert forall|q: int| 0 <= q < g.len() implies #[trigger] g[q].len() > 0 && next.contains(
                    g[q][0].file_id,
                ) && sections_of(m, g[q][0].file_id, g[q]) by {
                    if q < g0.len() {
                        assert(g[q] == g0[q]);
                        let w = choose|w: int| 0 <= w < prefix.len() && prefix[w] == g0[q][0].file_id;
                        assert(next[w] == prefix[w]);
                    } else {
                        assert(next[i as int] == t@);
                    }
                }
                assert forall|q1: int, q2: int| 0 <= q1 < q2 < g.len() implies (#[trigger] g[q1])[0].file_id
                    != (#[trigger] g[q2])[0].file_id by {
                    assert(g[q1] == g0[q1]);
                    if q2 < g0.len() {
                        assert(g[q2] == g0[q2]);
                    } else {
                        assert(pushed && !dup);
                        assert(g[q2][0].file_id == t@);
                        let w = choose|w: int| 0 <= w < prefix.len() && prefix[w] == g0[q1][0].file_id;
                        if g[q1][0].file_id == t@ {
                            assert(texts(before)[w] == t@);
                            assert(texts(before).contains(t@));
                        }
                    }
                }
                assert forall|u: Seq<char>| next.contains(u) && #[trigger] has_sections(m, u) implies exists|q: int|
                    0 <= q < g.len() && (#[trigger] g[q])[0].file_id == u by {
                    let w = choose|w: int| 0 <= w < next.len() && next[w] == u;
                    if w < i {
                        assert(prefix[w] == u);
                        let q = choose|q: int| 0 <= q < g0.len() && (#[trigger] g0[q])[0].file_id == u;
                        assert(g[q] == g0[q]);
                    } else if dup {
                        let w2 = choose|w2: int| 0 <= w2 < texts(before).len() && texts(before)[w2] == u;
                        assert(prefix[w2] == u);
                        let q = choose|q: int| 0 <= q < g0.len() && (#[trigger] g0[q])[0].file_id == u;
                        assert(g[q] == g0[q]);
                    } else {
                        assert(g[g.len() - 1][0].file_id == u);
                    }
                }
            }
        }
        proof {
            assert(all.take(keys@.len() as int) =~= all);
        }
        Ok(groups)
    }
}

/// The groups' rows, one group after another.
pub open spec fn concat_groups(g: Seq<Seq<SectionRow>>) -> Seq<SectionRow>
    decreases g.len(),
{
    if g.len() == 0 {
        Seq::empty()
    } else {
        concat_groups(g.drop_last()) + g.last()
    }
}

/// All rows of `v` belong to one file.
pub open spec fn one_file(v: Seq<SectionRow>) -> bool {
    forall|x: int| 0 <= x < v.len() ==> (#[trigger] v[x]).file_id == v[0].file_id
}

/// `g` cuts `flat` into its maximal runs of rows of one file.
pub open spec fn runs_of(flat: Seq<SectionRow>, g: Seq<Seq<SectionRow>>) -> bool {
    &&& concat_groups(g) == flat
    &&& forall|q: int| 0 <= q < g.len() ==> (#[trigger] g[q]).len() > 0 && one_file(g[q])
    &&& forall|q: int| 1 <= q < g.len() ==> (#[trigger] g[q])[0].file_id != g[q - 1][0].file_id
}

/// Splits rows ordered by file and offset (as the relational backend
/// returns them) into one group per run of rows of the same file.
pub fn group_sections(flat: Vec<FileSectionEntry>) -> (r: Vec<Vec<FileSectionEntry>>)
    ensures
        runs_of(section_rows(flat@), section_groups(r@)),
{
    let ghost rows = section_rows(flat@);
    let mut grouped: Vec<Vec<FileSectionEntry>> = Vec::new();
    let mut current: Vec<FileSectionEntry> = Vec::new();
    for entry in it: flat.into_iter()
        invariant
            it.seq() == flat@,
            rows == section_rows(flat@),
            concat_groups(section_groups(grouped@)) + section_rows(current@) == rows.take(it.index() as int),
            forall|q: int|
                0 <= q < grouped@.len() ==> (#[trigger] section_groups(grouped@)[q]).len() > 0
                    && one_file(section_groups(grouped@)[q]),
            forall|q: int|
                1 <= q < grouped@.len() ==> (#[trigger] section_groups(grouped@)[q])[0].file_id
                    != section_groups(grouped@)[q - 1][0].file_id,
            one_file(section_rows(current@)),
            grouped@.len() > 0 ==> current@.len() > 0,
            grouped@.len() > 0 ==> section_rows(current@)[0].file_id != section_groups(
                grouped@,
            ).last()[0].file_id,
    {
        let ghost k = it.index() as int;
        let ghost g0 = section_groups(grouped@);
        let ghost c0 = section_rows(current@);
        if current.len() > 0 && current[current.len() - 1].file_id != entry.file_id {
            let mut done: Vec<FileSectionEntry> = Vec::new();
            std::mem::swap(&mut done, &mut current);
            grouped.push(done);
            proof {
                let g = section_groups(grouped@);
                assert(g =~= g0.push(c0));
                assert(g.drop_last() =~= g0);
                assert(c0[c0.len() - 1].file_id == c0[0].file_id);
                assert(concat_groups(g) =~= concat_groups(g0) + c0);
            }
        }
        let ghost g1 = section_groups(grouped@);
        let ghost c1 = section_rows(current@);
        current.push(entry);
        proof {
            let c = section_rows(current@);
            assert(c =~= c1.push(rows[k]));
            assert(rows.take(k + 1) =~= rows.take(k).push(rows[k]));
            assert(concat_groups(g1) + c =~= (concat_groups(g1) + c1).push(rows[k]));
            if c1.len() > 0 {
                assert(c1[c1.len() - 1].file_id == c1[0].file_id);
            }
        }
    }
    let ghost g0 = section_groups(grouped@);
    let ghost c0 = section_rows(current@);
    if current.len() > 0 {
        grouped.push(current);
        proof {
            let g = section_groups(grouped@);
            assert(g =~= g0.push(c0));
            assert(g.drop_last() =~= g0);
        }
    } else {
        proof {
            assert(c0 =~= Seq::<SectionRow>::empty());
            assert(concat_groups(g0) + c0 =~= concat_groups(g0));
        }
    }
    assert(rows.take(rows.len() as int) =~= rows);
    grouped
}

/// Most keys one multi-key query binds; callers split longer key lists.
pub const MAX_KEYS_PER_QUERY: usize = 512;

/// `n` positional placeholders separated by commas: `?,?,?`.
pub open spec fn placeholders(n: nat) -> Seq<char>
    decreases n,
{
    if n == 0 {
        Seq::empty()
    } else if n == 1 {
        seq!['?']
    } else {
        placeholders((n - 1) as nat) + seq![',', '?']
    }
}

/// The placeholder list of a query that binds `n` keys in an `IN (...)`
/// clause.
pub fn placeholder_list(n: usize) -> (r: String)
    ensures
        r@ == placeholders(n as nat),
{
    let mut r = String::new();
    for i in 0..n
        invariant
            r@ == placeholders(i as nat),
    {
        proof {
            reveal_strlit("?");
            reveal_strlit(",?");
        }
        if i == 0 {
            r.append("?");
        } else {
            r.append(",?");
        }
        assert(r@ =~= placeholders((i + 1) as nat));
    }
    r
}

} // verus!
