//! The chunking/hashing pipeline: cut a byte source into content-defined
//! chunks and name each chunk by its digest.
use vstd::prelude::*;
use crate::config::{cdc_library_bounds, default_chunk_config, ChunkConfig};
use crate::ids::{blake3_of, ChunkID};

verus! {

/// The cut points the content-defined chunker chooses for `data`, as
/// `(offset, length)` pairs in source order.
pub uninterp spec fn cdc_cuts(data: Seq<u8>, min: u32, avg: u32, max: u32) -> Seq<(usize, usize)>;

/// `cuts` split `0 .. len` into non-empty, contiguous spans in order.
pub open spec fn tiles(cuts: Seq<(usize, usize)>, len: int) -> bool {
    &&& (cuts.len() == 0 <==> len == 0)
    &&& cuts.len() > 0 ==> cuts[0].0 == 0
    &&& cuts.len() > 0 ==> cuts.last().0 + cuts.last().1 == len
    &&& forall|i: int| 1 <= i < cuts.len() ==> #[trigger] cuts[i].0 == cuts[i - 1].0 + cuts[i - 1].1
    &&& forall|i: int| 0 <= i < cuts.len() ==> #[trigger] cuts[i].1 > 0
}

/// Relies on `fastcdc::v2020::FastCDC` (normalization level 1, seed 0):
/// with `min <= avg <= max` inside the bounds it asserts, it walks the whole
/// slice, each chunk starting where the previous one ended; a chunk is never
/// empty and never longer than `max`; when no more than `min` bytes remain
/// they form one last chunk. The cuts depend on the bytes and bounds alone.
#[verifier::external_body]
fn fastcdc_cuts(data: &[u8], min: u32, avg: u32, max: u32) -> (r: Vec<(usize, usize)>)
    requires
        min <= avg <= max,
        cdc_library_bounds(min, avg, max),
    ensures
        r@ == cdc_cuts(data@, min, avg, max),
        tiles(r@, data@.len() as int),
        forall|i: int| 0 <= i < r@.len() ==> #[trigger] r@[i].1 <= max,
        data@.len() <= min ==> r@.len() <= 1,
{
    fastcdc::v2020::FastCDC::new(data, min, avg, max).map(|c| (c.offset, c.length)).collect()
}

/// One chunk of a source: its ordinal, where it starts, how long it is, and
/// its digest.
#[derive(Clone, Copy, Debug, PartialEq, Eq)]
pub struct ChunkMetadata {
    pub index: usize,
    pub hash: ChunkID,
    pub offset: u64,
    pub length: usize,
}

/// The mathematical content of a chunk record.
pub struct RecordView {
    pub index: int,
    pub offset: int,
    pub length: int,
    pub digest: Seq<u8>,
}

impl View for ChunkMetadata {
    type V = RecordView;

    open spec fn view(&self) -> RecordView {
        RecordView {
            index: self.index as int,
            offset: self.offset as int,
            length: self.length as int,
            digest: self.hash.bytes@,
        }
    }
}

/// The views of a list of records.
pub open spec fn records_view(v: Seq<ChunkMetadata>) -> Seq<RecordView> {
    v.map_values(|m: ChunkMetadata| m@)
}

/// The record the pipeline owes for the `i`-th cut of `data`.
pub open spec fn record_for(data: Seq<u8>, i: int, cut: (usize, usize)) -> RecordView {
    RecordView {
        index: i,
        offset: cut.0 as int,
        length: cut.1 as int,
        digest: blake3_of(data.subrange(cut.0 as int, cut.0 + cut.1)),
    }
}

/// The records of `data` under `cfg`: one per cut, in source order.
pub open spec fn chunk_records(data: Seq<u8>, cfg: ChunkConfig) -> Seq<RecordView> {
    let cuts = cdc_cuts(data, cfg.min_chunk_size, cfg.avg_chunk_size, cfg.max_chunk_size);
    Seq::new(cuts.len(), |i: int| record_for(data, i, cuts[i]))
}

/// The records split `0 .. len` into non-empty, contiguous spans in order.
pub open spec fn records_tile(recs: Seq<RecordView>, len: int) -> bool {
    &&& (recs.len() == 0 <==> len == 0)
    &&& recs.len() > 0 ==> recs[0].offset == 0
    &&& recs.len() > 0 ==> recs.last().offset + recs.last().length == len
    &&& forall|i: int|
        1 <= i < recs.len() ==> #[trigger] recs[i].offset == recs[i - 1].offset + recs[i - 1].length
    &&& forall|i: int| 0 <= i < recs.len() ==> #[trigger] recs[i].length > 0
}

/// `recs` is what chunking `data` under `cfg` yields: the records of the
/// chunker's cuts, which tile the source, no chunk longer than the maximum,
/// and a source no longer than the minimum in at most one chunk.
pub open spec fn chunked(data: Seq<u8>, cfg: ChunkConfig, recs: Seq<RecordView>) -> bool {
    &&& cfg.valid()
    &&& recs == chunk_records(data, cfg)
    &&& records_tile(recs, data.len() as int)
    &&& forall|i: int| 0 <= i < recs.len() ==> #[trigger] recs[i].length <= cfg.max_chunk_size
    &&& data.len() <= cfg.min_chunk_size ==> recs.len() <= 1
}

/// Sum of the records' lengths.
pub open spec fn total_length(recs: Seq<RecordView>) -> int
    decreases recs.len(),
{
    if recs.len() == 0 {
        0
    } else {
        total_length(recs.drop_last()) + recs.last().length
    }
}

/// The bytes of `data` that the records cover, concatenated in record order.
pub open spec fn reassemble(data: Seq<u8>, recs: Seq<RecordView>) -> Seq<u8>
    decreases recs.len(),
{
    if recs.len() == 0 {
        Seq::empty()
    } else {
        reassemble(data, recs.drop_last()) + data.subrange(
            recs.last().offset,
            recs.last().offset + recs.last().length,
        )
    }
}

/// The error of the pipeline.
#[derive(Debug)]
pub enum HashEngineError {
    /// The chunker bounds are out of order or out of the chunker's range.
    InvalidChunkConfig,
    /// Reading the source failed.
    IoError(String),
    /// The chunker reported an error.
    ChunkError(String),
    /// The worker pool could not be built.
    ThreadPoolError(String),
    /// A stage handed on a record that could not be placed: its index was
    /// out of range or seen twice.
    MisplacedRecord(usize),
    /// Some records failed; every failure, in the order it was seen.
    HashError(Vec<HashEngineError>),
}

/// Hashes the `length` bytes of `data` at `offset` into the record of the
/// `index`-th chunk.
pub fn hash_chunk(data: &[u8], index: usize, offset: usize, length: usize) -> (r: ChunkMetadata)
    requires
        offset + length <= data@.len(),
    ensures
        r@ == record_for(data@, index as int, (offset, length)),
{
    let n = data.len();
    let slice = &data[offset..offset + length];
    assert(slice@ == data@.subrange(offset as int, offset + length));
    ChunkMetadata { index, hash: ChunkID::of_bytes(slice), offset: offset as u64, length }
}

/// The records of the given cuts of `data`: the `i`-th cut's bytes hashed
/// into the record of the `i`-th chunk.
pub fn hash_cuts(data: &[u8], cuts: &Vec<(usize, usize)>) -> (r: Vec<ChunkMetadata>)
    requires
        forall|i: int| 0 <= i < cuts@.len() ==> #[trigger] cuts@[i].0 + cuts@[i].1 <= data@.len(),
    ensures
        records_view(r@) == Seq::new(cuts@.len(), |i: int| record_for(data@, i, cuts@[i])),
{
    let ghost expected = Seq::new(cuts@.len(), |i: int| record_for(data@, i, cuts@[i]));
    let mut recs: Vec<ChunkMetadata> = Vec::new();
    for i in 0..cuts.len()
        invariant
            forall|j: int| 0 <= j < cuts@.len() ==> #[trigger] cuts@[j].0 + cuts@[j].1 <= data@.len(),
            expected == Seq::new(cuts@.len(), |i: int| record_for(data@, i, cuts@[i])),
            records_view(recs@) =~= expected.subrange(0, i as int),
    {
        let (offset, length) = cuts[i];
        assert(cuts@[i as int].0 + cuts@[i as int].1 <= data@.len());
        let rec = hash_chunk(data, i, offset, length);
        let ghost before = recs@;
        recs.push(rec);
        assert(expected[i as int] == rec@);
        assert(records_view(recs@) =~= records_view(before).push(rec@));
        assert(records_view(recs@) =~= expected.subrange(0, i + 1));
    }
    assert(expected.subrange(0, cuts@.len() as int) =~= expected);
    recs
}

/// Cuts `data` with the bounds of `cfg`, without hashing.
pub fn cut_points(data: &[u8], cfg: &ChunkConfig) -> (r: Result<Vec<(usize, usize)>, HashEngineError>)
    ensures
        match r {
            Ok(cuts) => cfg.valid() && cuts@ == cdc_cuts(
                data@,
                cfg.min_chunk_size,
                cfg.avg_chunk_size,
                cfg.max_chunk_size,
            ) && tiles(cuts@, data@.len() as int) && (forall|i: int|
                0 <= i < cuts@.len() ==> #[trigger] cuts@[i].1 <= cfg.max_chunk_size) && (data@.len()
                <= cfg.min_chunk_size ==> cuts@.len() <= 1),
            Err(e) => !cfg.valid() && e is InvalidChunkConfig,
        },
{
    if !cfg.is_valid() {
        return Err(HashEngineError::InvalidChunkConfig);
    }
    Ok(fastcdc_cuts(data, cfg.min_chunk_size, cfg.avg_chunk_size, cfg.max_chunk_size))
}

/// Runs the pipeline over `data`: every chunk record, in source order.
/// Without a configuration the protocol's default bounds are used.
pub fn get_chunk_hashes(data: &[u8], config: Option<ChunkConfig>) -> (r: Result<
    Vec<ChunkMetadata>,
    HashEngineError,
>)
    ensures
        ({
            let cfg = match config {
                Some(c) => c,
                None => default_chunk_config(),
            };
            match r {
                Ok(recs) => chunked(data@, cfg, records_view(recs@)),
                Err(e) => !cfg.valid() && e is InvalidChunkConfig,
            }
        }),
{
    let cfg = match config {
        Some(c) => c,
        None => ChunkConfig::default(),
    };
    let cuts = match cut_points(data, &cfg) {
        Ok(cuts) => cuts,
        Err(e) => return Err(e),
    };
    proof {
        assert forall|i: int| 0 <= i < cuts@.len() implies #[trigger] cuts@[i].0 + cuts@[i].1 <= data@.len() by {
            lemma_cut_in_bounds(cuts@, data@.len() as int, i);
        }
    }
    let recs = hash_cuts(data, &cuts);
    proof {
        let expected = chunk_records(data@, cfg);
        assert(records_view(recs@) =~= expected);
        assert(records_tile(expected, data@.len() as int));
    }
    Ok(recs)
}

/// Each cut of a tiling lies within `0 .. len`.
pub proof fn lemma_cut_in_bounds(cuts: Seq<(usize, usize)>, len: int, i: int)
    requires
        tiles(cuts, len),
        0 <= i < cuts.len(),
    ensures
        cuts[i].0 + cuts[i].1 <= len,
    decreases cuts.len() - i,
{
    if i < cuts.len() - 1 {
        lemma_cut_in_bounds(cuts, len, i + 1);
        assert(cuts[i + 1].0 == cuts[i].0 + cuts[i].1);
    }
}

/// Some stage reported a failure.
pub open spec fn has_failure(results: Seq<Result<ChunkMetadata, HashEngineError>>) -> bool {
    exists|j: int| 0 <= j < results.len() && (#[trigger] results[j]) is Err
}

/// The failures among `results`, in order.
pub open spec fn failures(results: Seq<Result<ChunkMetadata, HashEngineError>>) -> Seq<HashEngineError>
    decreases results.len(),
{
    if results.len() == 0 {
        Seq::empty()
    } else {
        match results.last() {
            Ok(_) => failures(results.drop_last()),
            Err(e) => failures(results.drop_last()).push(e),
        }
    }
}

/// Every result is a record, and their indices are exactly `0 .. n` for
/// `n` results: each below `n`, no two alike.
pub open spec fn indices_form_range(results: Seq<Result<ChunkMetadata, HashEngineError>>) -> bool {
    &&& forall|j: int| 0 <= j < results.len() ==> (#[trigger] results[j]) is Ok
    &&& forall|j: int| 0 <= j < results.len() ==> (#[trigger] results[j])->Ok_0.index < results.len()
    &&& forall|j: int, k: int|
        0 <= j < k < results.len() ==> (#[trigger] results[j])->Ok_0.index != (#[trigger] results[k])->Ok_0.index
}

/// Number of filled slots.
pub open spec fn filled(slots: Seq<Option<ChunkMetadata>>) -> int
    decreases slots.len(),
{
    if slots.len() == 0 {
        0
    } else {
        filled(slots.drop_last()) + if slots.last() is Some { 1int } else { 0int }
    }
}

proof fn lemma_filled_bounds(slots: Seq<Option<ChunkMetadata>>)
    ensures
        0 <= filled(slots) <= slots.len(),
        filled(slots) == slots.len() ==> forall|k: int| 0 <= k < slots.len() ==> (#[trigger] slots[k]) is Some,
    decreases slots.len(),
{
    if slots.len() > 0 {
        let p = slots.drop_last();
        lemma_filled_bounds(p);
        if filled(slots) == slots.len() {
            assert forall|k: int| 0 <= k < slots.len() implies (#[trigger] slots[k]) is Some by {
                if k < p.len() {
                    assert(p[k] == slots[k]);
                }
            }
        }
    }
}

proof fn lemma_filled_update(slots: Seq<Option<ChunkMetadata>>, k: int, m: ChunkMetadata)
    requires
        0 <= k < slots.len(),
        slots[k] is None,
    ensures
        filled(slots.update(k, Some(m))) == filled(slots) + 1,
    decreases slots.len(),
{
    let u = slots.update(k, Some(m));
    if k < slots.len() - 1 {
        lemma_filled_update(slots.drop_last(), k, m);
        assert(u.drop_last() =~= slots.drop_last().update(k, Some(m)));
    } else {
        assert(u.drop_last() =~= slots.drop_last());
    }
}

/// Gathers what the hashing stage handed on, in whatever order it came, into
/// the records of the source in index order. If any stage failed, the result
/// is one error that carries every failure; if the indices are not exactly
/// `0 .. n`, the first record that does not fit is named.
pub fn collect_records(results: Vec<Result<ChunkMetadata, HashEngineError>>) -> (r: Result<
    Vec<ChunkMetadata>,
    HashEngineError,
>)
    ensures
        has_failure(results@) ==> (r matches Err(HashEngineError::HashError(errs)) && errs@ == failures(results@)),
        !has_failure(results@) && indices_form_range(results@) ==> r is Ok,
        !has_failure(results@) && !indices_form_range(results@) ==> (r matches Err(HashEngineError::MisplacedRecord(_))),
        (r matches Ok(recs) ==> {
            &&& recs@.len() == results@.len()
            &&& forall|i: int| 0 <= i < recs@.len() ==> (#[trigger] recs@[i]).index == i
            &&& forall|i: int|
                #![trigger recs@[i]]
                0 <= i < recs@.len() ==> exists|j: int|
                    0 <= j < results@.len() && #[trigger] results@[j] == Ok::<ChunkMetadata, HashEngineError>(recs@[i])
        }),
{
    let n = results.len();
    let mut failed = false;
    for j in 0..n
        invariant
            n == results@.len(),
            failed <==> exists|k: int| 0 <= k < j && (#[trigger] results@[k]) is Err,
    {
        if results[j].is_err() {
            failed = true;
        }
    }
    if failed {
        let ghost all = results@;
        let mut errs: Vec<HashEngineError> = Vec::new();
        for item in it: results.into_iter()
            invariant
                it.seq() == all,
                errs@ == failures(all.take(it.index() as int)),
        {
            let ghost before = all.take(it.index() as int);
            assert(all.take(it.index() + 1).drop_last() =~= before);
            match item {
                Ok(_) => {},
                Err(e) => errs.push(e),
            }
        }
        assert(all.take(all.len() as int) =~= all);
        return Err(HashEngineError::HashError(errs));
    }
    let ghost all = results@;
    let mut slots: Vec<Option<ChunkMetadata>> = Vec::new();
    for i in 0..n
        invariant
            slots@.len() == i,
            forall|k: int| 0 <= k < i ==> (#[trigger] slots@[k]) is None,
    {
        slots.push(None);
    }
    proof {
        assert(filled(slots@) == 0) by {
            lemma_filled_zero(slots@);
        }
    }
    for item in it: results.into_iter()
        invariant
            it.seq() == all,
            n == all.len(),
            !has_failure(all),
            slots@.len() == n,
            filled(slots@) == it.index(),
            forall|k: int|
                0 <= k < n ==> ((#[trigger] slots@[k]) is Some <==> exists|j: int|
                    0 <= j < it.index() && all[j]->Ok_0.index == k),
            forall|k: int|
                0 <= k < n && (#[trigger] slots@[k]) is Some ==> slots@[k]->0.index == k && exists|j: int|
                    0 <= j < it.index() && all[j] == Ok::<ChunkMetadata, HashEngineError>(slots@[k]->0),
            forall|j: int| 0 <= j < it.index() ==> (#[trigger] all[j])->Ok_0.index < n,
            forall|j: int, k: int|
                0 <= j < k < it.index() ==> (#[trigger] all[j])->Ok_0.index != (#[trigger] all[k])->Ok_0.index,
    {
        let ghost j0 = it.index() as int;
        assert(all[j0] is Ok);
        let m = match item {
            Ok(m) => m,
            Err(_) => {
                assert(all[j0] is Err);
                return Err(HashEngineError::MisplacedRecord(0));
            },
        };
        if m.index >= n || slots[m.index].is_some() {
            proof {
                if m.index < n {
                    let j1 = choose|j: int| 0 <= j < j0 && all[j]->Ok_0.index == m.index;
                    assert(all[j1]->Ok_0.index == all[j0]->Ok_0.index);
                }
                assert(!indices_form_range(all));
            }
            return Err(HashEngineError::MisplacedRecord(m.index));
        }
        proof {
            lemma_filled_update(slots@, m.index as int, m);
        }
        slots.set(m.index, Some(m));
    }
    proof {
        lemma_filled_bounds(slots@);
        assert(indices_form_range(all));
    }
    let mut recs: Vec<ChunkMetadata> = Vec::new();
    for i in 0..n
        invariant
            slots@.len() == n,
            n == all.len(),
            forall|k: int| 0 <= k < n ==> (#[trigger] slots@[k]) is Some,
            forall|k: int|
                0 <= k < n ==> (#[trigger] slots@[k])->0.index == k && exists|j: int|
                    0 <= j < n && all[j] == Ok::<ChunkMetadata, HashEngineError>(slots@[k]->0),
            recs@.len() == i,
            forall|k: int| 0 <= k < i ==> (#[trigger] recs@[k]) == slots@[k]->0,
    {
        match slots[i] {
            Some(m) => recs.push(m),
            None => return Err(HashEngineError::MisplacedRecord(i)),
        }
    }
    Ok(recs)
}

proof fn lemma_filled_zero(slots: Seq<Option<ChunkMetadata>>)
    requires
        forall|k: int| 0 <= k < slots.len() ==> (#[trigger] slots[k]) is None,
    ensures
        filled(slots) == 0,
    decreases slots.len(),
{
    if slots.len() > 0 {
        let p = slots.drop_last();
        assert forall|k: int| 0 <= k < p.len() implies (#[trigger] p[k]) is None by {
            assert(p[k] == slots[k]);
        }
        lemma_filled_zero(p);
    }
}

/// Each record of a tiling lies within `0 .. len`.
pub proof fn lemma_record_in_bounds(recs: Seq<RecordView>, len: int, i: int)
    requires
        records_tile(recs, len),
        0 <= i < recs.len(),
    ensures
        0 <= recs[i].offset,
        recs[i].offset + recs[i].length <= len,
    decreases recs.len() - i,
{
    if i < recs.len() - 1 {
        lemma_record_in_bounds(recs, len, i + 1);
        assert(recs[i + 1].offset == recs[i].offset + recs[i].length);
    }
    if i > 0 {
        lemma_offsets_nonnegative(recs, len, i);
    }
}

proof fn lemma_offsets_nonnegative(recs: Seq<RecordView>, len: int, i: int)
    requires
        records_tile(recs, len),
        0 <= i < recs.len(),
    ensures
        0 <= recs[i].offset,
    decreases i,
{
    if i > 0 {
        lemma_offsets_nonnegative(recs, len, i - 1);
        assert(recs[i].offset == recs[i - 1].offset + recs[i - 1].length);
    }
}

/// The first `k` records cover exactly `0 .. end`, where `end` is where the
/// `k`-th record ends.
proof fn lemma_prefix_covers(data: Seq<u8>, recs: Seq<RecordView>, k: int)
    requires
        records_tile(recs, data.len() as int),
        0 <= k <= recs.len(),
    ensures
        ({
            let end = if k == 0 { 0 } else { recs[k - 1].offset + recs[k - 1].length };
            &&& total_length(recs.take(k)) == end
            &&& reassemble(data, recs.take(k)) == data.subrange(0, end)
        }),
    decreases k,
{
    if k == 0 {
        assert(reassemble(data, recs.take(0)) =~= data.subrange(0, 0));
    } else {
        lemma_prefix_covers(data, recs, k - 1);
        let p = recs.take(k);
        assert(p.drop_last() =~= recs.take(k - 1));
        assert(p.last() == recs[k - 1]);
        let start = if k - 1 == 0 { 0 } else { recs[k - 2].offset + recs[k - 2].length };
        assert(start == recs[k - 1].offset);
        lemma_record_in_bounds(recs, data.len() as int, k - 1);
        assert(data.subrange(0, start) + data.subrange(start, recs[k - 1].offset + recs[k - 1].length)
            =~= data.subrange(0, recs[k - 1].offset + recs[k - 1].length));
    }
}

/// Chunking is deterministic: two runs over the same bytes with the same
/// bounds yield the same records.
pub proof fn lemma_chunking_deterministic(
    data: Seq<u8>,
    cfg: ChunkConfig,
    first: Seq<RecordView>,
    second: Seq<RecordView>,
)
    requires
        chunked(data, cfg, first),
        chunked(data, cfg, second),
    ensures
        first == second,
{
}

/// Concatenating the chunks' bytes in offset order gives back the source.
pub proof fn lemma_chunks_reassemble(data: Seq<u8>, cfg: ChunkConfig, recs: Seq<RecordView>)
    requires
        chunked(data, cfg, recs),
    ensures
        reassemble(data, recs) == data,
{
    lemma_prefix_covers(data, recs, recs.len() as int);
    assert(recs.take(recs.len() as int) =~= recs);
    assert(data.subrange(0, data.len() as int) =~= data);
}

/// The chunks cover the source: the lengths sum to its size, the first
/// chunk starts at zero, and each chunk starts where the previous ended.
pub proof fn lemma_chunks_cover(data: Seq<u8>, cfg: ChunkConfig, recs: Seq<RecordView>)
    requires
        chunked(data, cfg, recs),
    ensures
        total_length(recs) == data.len(),
        recs.len() > 0 ==> recs[0].offset == 0,
        forall|i: int|
            1 <= i < recs.len() ==> #[trigger] recs[i].offset == recs[i - 1].offset + recs[i - 1].length,
{
    lemma_prefix_covers(data, recs, recs.len() as int);
    assert(recs.take(recs.len() as int) =~= recs);
}

/// Each record's digest is the digest of exactly the bytes it covers.
pub proof fn lemma_chunk_digests(data: Seq<u8>, cfg: ChunkConfig, recs: Seq<RecordView>)
    requires
        chunked(data, cfg, recs),
    ensures
        forall|i: int|
            0 <= i < recs.len() ==> (#[trigger] recs[i]).digest == blake3_of(
                data.subrange(recs[i].offset, recs[i].offset + recs[i].length),
            ),
{
}

/// An empty source yields no record.
pub proof fn lemma_empty_source(data: Seq<u8>, cfg: ChunkConfig, recs: Seq<RecordView>)
    requires
        chunked(data, cfg, recs),
        data.len() == 0,
    ensures
        recs.len() == 0,
{
}

/// A source of exactly the minimum size yields one record.
pub proof fn lemma_min_size_source(data: Seq<u8>, cfg: ChunkConfig, recs: Seq<RecordView>)
    requires
        chunked(data, cfg, recs),
        data.len() == cfg.min_chunk_size,
    ensures
        recs.len() == 1,
{
}

/// No fewer records than the source size divided by the maximum, rounded
/// up: `recs.len() * max >= data.len()`.
pub proof fn lemma_records_at_least(data: Seq<u8>, cfg: ChunkConfig, recs: Seq<RecordView>)
    requires
        chunked(data, cfg, recs),
    ensures
        recs.len() * cfg.max_chunk_size >= data.len(),
{
    lemma_chunks_cover(data, cfg, recs);
    lemma_total_bounded(recs, cfg.max_chunk_size as int);
}

proof fn lemma_total_bounded(recs: Seq<RecordView>, max: int)
    requires
        forall|i: int| 0 <= i < recs.len() ==> #[trigger] recs[i].length <= max,
    ensures
        total_length(recs) <= recs.len() * max,
    decreases recs.len(),
{
    if recs.len() > 0 {
        let p = recs.drop_last();
        assert forall|i: int| 0 <= i < p.len() implies #[trigger] p[i].length <= max by {
            assert(p[i] == recs[i]);
        }
        lemma_total_bounded(p, max);
        assert(recs.last().length <= max);
        assert(p.len() * max + max == recs.len() * max) by (nonlinear_arith)
            requires
                p.len() + 1 == recs.len(),
        ;
    }
}

} // verus!
