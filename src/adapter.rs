//! From a file's bytes to the rows the content store keeps for it.
use vstd::prelude::*;
use crate::chunking::{
    chunk_records, chunked, get_chunk_hashes, lemma_record_in_bounds, records_view, ChunkMetadata,
    HashEngineError, RecordView,
};
use crate::config::{default_chunk_config, ChunkConfig};
use crate::entries::{chunk_rows, section_rows, ChunkRow, ChunkTableEntry, FileSectionEntry, SectionRow};
use crate::ids::{uuid_text, FileID};
use crate::store::DataStoreError;

verus! {

/// The rows for `recs`: the chunk row and the section row of each record,
/// in record order, the sections naming the file whose id text is `file`.
pub open spec fn rows_of_records(
    file: Seq<char>,
    recs: Seq<RecordView>,
    chunks: Seq<ChunkRow>,
    sections: Seq<SectionRow>,
) -> bool {
    &&& chunks.len() == recs.len()
    &&& sections.len() == recs.len()
    &&& forall|i: int|
        0 <= i < recs.len() ==> #[trigger] chunks[i] == (ChunkRow {
            hash: recs[i].digest,
            size: recs[i].length,
        })
    &&& forall|i: int|
        0 <= i < recs.len() ==> #[trigger] sections[i] == (SectionRow {
            file_id: file,
            chunk_hash: recs[i].digest,
            length: recs[i].length,
            offset: recs[i].offset,
        })
}

/// Maps each record to a chunk row and a section row of the file `file_id`.
pub fn records_to_rows(file_id: &FileID, recs: &Vec<ChunkMetadata>) -> (r: (
    Vec<ChunkTableEntry>,
    Vec<FileSectionEntry>,
))
    requires
        forall|i: int| 0 <= i < recs@.len() ==> (#[trigger] recs@[i]).offset <= i64::MAX && recs@[i].length <= i64::MAX,
    ensures
        rows_of_records(uuid_text(file_id.value), records_view(recs@), chunk_rows(r.0@), section_rows(r.1@)),
{
    let ghost expected = records_view(recs@);
    let id_text = file_id.to_string();
    let mut chunks: Vec<ChunkTableEntry> = Vec::new();
    let mut sections: Vec<FileSectionEntry> = Vec::new();
    for i in 0..recs.len()
        invariant
            expected == records_view(recs@),
            forall|j: int| 0 <= j < recs@.len() ==> (#[trigger] recs@[j]).offset <= i64::MAX && recs@[j].length <= i64::MAX,
            id_text@ == uuid_text(file_id.value),
            chunks@.len() == i,
            sections@.len() == i,
            forall|k: int|
                0 <= k < i ==> (#[trigger] chunks@[k])@ == (ChunkRow {
                    hash: expected[k].digest,
                    size: expected[k].length,
                }),
            forall|k: int|
                0 <= k < i ==> (#[trigger] sections@[k])@ == (SectionRow {
                    file_id: id_text@,
                    chunk_hash: expected[k].digest,
                    length: expected[k].length,
                    offset: expected[k].offset,
                }),
    {
        let rec = &recs[i];
        assert(expected[i as int] == rec@);
        let hash = rec.hash.to_vec();
        chunks.push(ChunkTableEntry { hash: rec.hash.to_vec(), size: rec.length as i64 });
        sections.push(
            FileSectionEntry {
                file_id: id_text.clone(),
                chunk_hash: hash,
                length: rec.length as i64,
                offset: rec.offset as i64,
            },
        );
    }
    assert(chunk_rows(chunks@) =~= Seq::new(chunks@.len(), |k: int| chunks@[k]@));
    assert(section_rows(sections@) =~= Seq::new(sections@.len(), |k: int| sections@[k]@));
    (chunks, sections)
}

/// Chunks `source` and maps each record to a chunk row and a section row of
/// the file `file_id`. Without a configuration the protocol's default
/// bounds are used. Duplicate chunk rows are kept: the store collapses them.
pub fn chunk_source(file_id: &FileID, source: &[u8], chunk_config: Option<ChunkConfig>) -> (r: Result<
    (Vec<ChunkTableEntry>, Vec<FileSectionEntry>),
    DataStoreError,
>)
    requires
        source@.len() <= i64::MAX,
    ensures
        ({
            let cfg = match chunk_config {
                Some(c) => c,
                None => default_chunk_config(),
            };
            match r {
                Ok((chunks, sections)) => {
                    &&& chunked(source@, cfg, chunk_records(source@, cfg))
                    &&& rows_of_records(
                        uuid_text(file_id.value),
                        chunk_records(source@, cfg),
                        chunk_rows(chunks@),
                        section_rows(sections@),
                    )
                },
                Err(e) => !cfg.valid() && (e matches DataStoreError::ChunkingError(
                    HashEngineError::InvalidChunkConfig,
                )),
            }
        }),
{
    let ghost cfg = match chunk_config {
        Some(c) => c,
        None => default_chunk_config(),
    };
    let recs = match get_chunk_hashes(source, chunk_config) {
        Ok(recs) => recs,
        Err(e) => return Err(DataStoreError::ChunkingError(e)),
    };
    proof {
        assert forall|i: int| 0 <= i < recs@.len() implies (#[trigger] recs@[i]).offset <= i64::MAX
            && recs@[i].length <= i64::MAX by {
            assert(records_view(recs@)[i] == recs@[i]@);
            lemma_record_in_bounds(records_view(recs@), source@.len() as int, i);
        }
    }
    let (chunks, sections) = records_to_rows(file_id, &recs);
    Ok((chunks, sections))
}

} // verus!
