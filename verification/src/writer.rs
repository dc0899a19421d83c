//! What the writers of output files decide, and the metadata that they write.

use crate::error::{ArrowConvertError, ArrowConvertErrorV};
use crate::schema::{
    all_tags, heuristics_named, heuristics_text, law_heuristics_parse_back, Heuristic, HeuristicSet,
    TypeTag,
};
use crate::text;
use crate::types::{lookup, pairs_map, AuxMap, RdbMetadata};
use vstd::prelude::*;

verus! {

// ---- Parquet settings ----

/// Compression codecs of Parquet files.
#[derive(Debug, Clone, Copy, PartialEq, Eq, Structural)]
pub enum Compression {
    Zstd,
    Snappy,
    Lz4,
    Lz4Raw,
    Gzip,
    Uncompressed,
}

/// The codec of a name, whatever the case of its letters.
pub open spec fn codec_named(name: Seq<char>) -> Option<Compression> {
    let l = text::lower_text(name);
    if l == "zstd"@ {
        Some(Compression::Zstd)
    } else if l == "snappy"@ {
        Some(Compression::Snappy)
    } else if l == "lz4"@ {
        Some(Compression::Lz4)
    } else if l == "lz4-raw"@ || l == "lz4_raw"@ {
        Some(Compression::Lz4Raw)
    } else if l == "gzip"@ {
        Some(Compression::Gzip)
    } else if l == "none"@ {
        Some(Compression::Uncompressed)
    } else {
        None
    }
}

/// What is said of a name that no codec has.
pub open spec fn unknown_codec(name: Seq<char>) -> Seq<char> {
    "unknown compression: '"@ + text::lower_text(name)
        + "'. Valid: zstd, snappy, lz4, lz4-raw, gzip, none"@
}

/// Parses a compression name. Accepted names (case-insensitive): `zstd`, `snappy`, `lz4`,
/// `lz4-raw` or `lz4_raw`, `gzip`, `none`.
pub fn parse_compression(name: &str) -> (r: Result<Compression, String>)
    ensures
        match codec_named(name@) {
            Some(c) => r == Ok::<Compression, String>(c),
            None => r matches Err(e) && e@ == unknown_codec(name@),
        },
{
    let lower = text::to_lower(name);
    let l = lower.as_str();
    if text::same_text(l, "zstd") {
        Ok(Compression::Zstd)
    } else if text::same_text(l, "snappy") {
        Ok(Compression::Snappy)
    } else if text::same_text(l, "lz4") {
        Ok(Compression::Lz4)
    } else if text::same_text(l, "lz4-raw") || text::same_text(l, "lz4_raw") {
        Ok(Compression::Lz4Raw)
    } else if text::same_text(l, "gzip") {
        Ok(Compression::Gzip)
    } else if text::same_text(l, "none") {
        Ok(Compression::Uncompressed)
    } else {
        Err(
            text::join3(
                "unknown compression: '",
                l,
                "'. Valid: zstd, snappy, lz4, lz4-raw, gzip, none",
            ),
        )
    }
}

/// Configuration for Parquet output.
#[derive(Debug)]
pub struct ParquetConfig {
    /// Compression codec applied to each column chunk.
    pub compression: Compression,
    /// Target rows per Parquet row group.
    pub max_row_group_size: usize,
    /// Metadata written into the Arrow schema of every Parquet file.
    pub file_metadata: AuxMap,
}

impl Default for ParquetConfig {
    /// Zstd, 1,048,576 rows per group, no metadata.
    fn default() -> (r: Self)
        ensures
            r.compression == Compression::Zstd,
            r.max_row_group_size == 1_048_576,
            r.file_metadata@ == Map::<Seq<char>, Seq<char>>::empty(),
    {
        ParquetConfig {
            compression: Compression::Zstd,
            max_row_group_size: 1_048_576,
            file_metadata: AuxMap::new(),
        }
    }
}

// ---- File metadata ----

/// Key of the metadata that says what wrote a file.
pub const RDB_EXPORTED_BY_KEY: &'static str = "rdb.exported_by";

/// Key of the metadata that says which heuristics were active.
pub const RDB_HEURISTICS_KEY: &'static str = "rdb.heuristics";

/// What wrote a file.
pub const RDB_EXPORTED_BY_VALUE: &'static str = "valkey-rdb-tools";

/// The metadata of a file at a key: what wrote it, the active heuristics, and every AUX field
/// under its name behind `rdb.`.
pub open spec fn metadata_at(
    aux: Map<Seq<char>, Seq<char>>,
    heuristics: Set<Heuristic>,
    key: Seq<char>,
) -> Option<Seq<char>> {
    if key == "rdb.heuristics"@ {
        Some(heuristics_text(heuristics))
    } else if key == "rdb.exported_by"@ {
        Some("valkey-rdb-tools"@)
    } else if text::has_prefix(key, "rdb."@) {
        lookup(aux, key.skip(4))
    } else {
        None
    }
}

/// Whether a map holds, at every key, what stands in `aux` under the key without `rdb.`.
spec fn prefixed(map: Map<Seq<char>, Seq<char>>, aux: Map<Seq<char>, Seq<char>>) -> bool {
    forall|key: Seq<char>| #[trigger]
        lookup(map, key) == if text::has_prefix(key, "rdb."@) {
            lookup(aux, key.skip(4))
        } else {
            None
        }
}

proof fn lemma_prefixed(
    map: Map<Seq<char>, Seq<char>>,
    aux: Map<Seq<char>, Seq<char>>,
    k: Seq<char>,
    v: Seq<char>,
)
    requires
        prefixed(map, aux),
    ensures
        prefixed(map.insert("rdb."@ + k, v), aux.insert(k, v)),
{
    reveal_strlit("rdb.");
    let full = "rdb."@ + k;
    assert(full.take(4) == "rdb."@);
    assert(full.skip(4) == k);
    assert forall|key: Seq<char>| #[trigger]
        lookup(map.insert(full, v), key) == if text::has_prefix(key, "rdb."@) {
            lookup(aux.insert(k, v), key.skip(4))
        } else {
            None
        } by {
        assert(lookup(map, key) == if text::has_prefix(key, "rdb."@) {
            lookup(aux, key.skip(4))
        } else {
            None
        });
        if text::has_prefix(key, "rdb."@) && key.skip(4) == k {
            assert(key == key.take(4) + key.skip(4));
            assert(key == full);
        }
    }
}

/// Builds file metadata from the AUX fields of an RDB and the heuristics of the export.
pub fn metadata_from_rdb(meta: &RdbMetadata, heuristics: &HeuristicSet) -> (r: AuxMap)
    ensures
        forall|key: Seq<char>| #[trigger]
            lookup(r@, key) == metadata_at(meta.aux@, heuristics@, key),
{
    let mut map = AuxMap::new();
    let ghost pairs = meta.aux.listed();
    let n: usize = meta.aux.len();
    let mut i: usize = 0;
    assert(pairs.take(0) == Seq::<(Seq<char>, Seq<char>)>::empty());
    while i < n
        invariant
            i <= n,
            n == pairs.len(),
            pairs == meta.aux.listed(),
            prefixed(map@, pairs_map(pairs.take(i as int))),
        decreases n - i,
    {
        let (k, v) = meta.aux.entry(i);
        assert(pairs.take(i + 1).drop_last() == pairs.take(i as int));
        assert(pairs.take(i + 1).last() == pairs[i as int]);
        proof {
            lemma_prefixed(map@, pairs_map(pairs.take(i as int)), k@, v@);
        }
        map.insert(text::join2("rdb.", k), v.to_owned());
        i += 1;
    }
    assert(pairs.take(i as int) == pairs);
    proof {
        meta.aux.lemma_listed();
    }
    let ghost listed = map@;
    map.insert(RDB_EXPORTED_BY_KEY.to_owned(), RDB_EXPORTED_BY_VALUE.to_owned());
    map.insert(RDB_HEURISTICS_KEY.to_owned(), Heuristic::format_set(heuristics));
    assert forall|key: Seq<char>| #[trigger]
        lookup(map@, key) == metadata_at(meta.aux@, heuristics@, key) by {
        assert(lookup(listed, key) == if text::has_prefix(key, "rdb."@) {
            lookup(meta.aux@, key.skip(4))
        } else {
            None
        });
    }
    map
}

/// The heuristics that an export writes into its metadata are those that validation reads
/// back.
pub proof fn law_heuristics_survive_export(
    aux: Map<Seq<char>, Seq<char>>,
    heuristics: Set<Heuristic>,
)
    ensures
        metadata_at(aux, heuristics, "rdb.heuristics"@) matches Some(t) && heuristics_named(t)
            == Ok::<Set<Heuristic>, Seq<char>>(heuristics),
{
    law_heuristics_parse_back(heuristics);
}

// ---- Writing ----

/// What is to be done next.
#[derive(Debug, Clone, Copy, PartialEq, Eq, Structural)]
pub enum WriterAction {
    /// Get the next batch.
    Fetch,
    /// Create the output of a type.
    Open(TypeTag),
    /// Write the batch to the output of its type.
    Write(TypeTag),
    /// Finish the output of a type.
    Close(TypeTag),
    /// Nothing: all outputs are finished.
    Done,
}

/// The state of a run of writers: the types whose output is open, what went wrong while
/// there were batches, and what went wrong first while outputs were finished.
#[verifier::ext_equal]
pub struct PipelineV {
    pub open: Set<TypeTag>,
    pub error: Option<ArrowConvertErrorV>,
    pub close_error: Option<ArrowConvertErrorV>,
}

/// The first of the tags from a place on that is in a set.
pub open spec fn first_open(open: Set<TypeTag>, from: int) -> Option<TypeTag>
    decreases 9 - from,
{
    if from < 0 || from >= 9 {
        None
    } else if open.contains(all_tags()[from]) {
        Some(all_tags()[from])
    } else {
        first_open(open, from + 1)
    }
}

impl PipelineV {
    /// Closes the first open output, or is done.
    pub open spec fn close_next(self) -> (PipelineV, WriterAction) {
        match first_open(self.open, 0) {
            Some(tag) => (
                PipelineV { open: self.open.remove(tag), ..self },
                WriterAction::Close(tag),
            ),
            None => (self, WriterAction::Done),
        }
    }

    /// Goes on to close the outputs, after an error.
    pub open spec fn fail(self, e: ArrowConvertErrorV) -> (PipelineV, WriterAction) {
        (PipelineV { error: Some(e), ..self }).close_next()
    }

    /// After a batch of a type has come, the source has ended, or it has failed.
    pub open spec fn fetched(self, item: Result<Option<TypeTag>, ArrowConvertErrorV>) -> (
        PipelineV,
        WriterAction,
    ) {
        match item {
            Ok(Some(tag)) => if self.open.contains(tag) {
                (self, WriterAction::Write(tag))
            } else {
                (self, WriterAction::Open(tag))
            },
            Ok(None) => self.close_next(),
            Err(e) => self.fail(e),
        }
    }

    /// After the output of a type was to be created.
    pub open spec fn opened(self, tag: TypeTag, r: Result<(), ArrowConvertErrorV>) -> (
        PipelineV,
        WriterAction,
    ) {
        match r {
            Ok(_) => (
                PipelineV { open: self.open.insert(tag), ..self },
                WriterAction::Write(tag),
            ),
            Err(e) => self.fail(e),
        }
    }

    /// After a batch was to be written.
    pub open spec fn written(self, r: Result<(), ArrowConvertErrorV>) -> (PipelineV, WriterAction) {
        match r {
            Ok(_) => (self, WriterAction::Fetch),
            Err(e) => self.fail(e),
        }
    }

    /// After an output was to be finished. Only the first error is kept.
    pub open spec fn closed(self, r: Result<(), ArrowConvertErrorV>) -> (PipelineV, WriterAction) {
        match r {
            Ok(_) => self.close_next(),
            Err(e) => (PipelineV {
                close_error: match self.close_error {
                    Some(first) => Some(first),
                    None => Some(e),
                },
                ..self
            }).close_next(),
        }
    }

    /// What the run comes to: an error while there were batches goes before one while outputs
    /// were finished.
    pub open spec fn outcome(self) -> Result<(), ArrowConvertErrorV> {
        match self.error {
            Some(e) => Err(e),
            None => match self.close_error {
                Some(e) => Err(e),
                None => Ok(()),
            },
        }
    }
}

/// A result, its error by what it holds.
pub open spec fn result_view<T>(r: Result<T, ArrowConvertError>) -> Result<T, ArrowConvertErrorV> {
    match r {
        Ok(x) => Ok(x),
        Err(e) => Err(e@),
    }
}

/// An error that may be missing, by what it holds.
pub open spec fn error_view(e: Option<ArrowConvertError>) -> Option<ArrowConvertErrorV> {
    match e {
        Some(e) => Some(e@),
        None => None,
    }
}

/// Decides what a run of writers does: an output is created when the first batch of its type
/// comes, and every output that was created is finished, in the order of the types, whether
/// or not something went wrong.
#[derive(Debug)]
pub struct WriterPipeline {
    open: Vec<bool>,
    error: Option<ArrowConvertError>,
    close_error: Option<ArrowConvertError>,
}

impl View for WriterPipeline {
    type V = PipelineV;

    closed spec fn view(&self) -> PipelineV {
        PipelineV {
            open: all_tags().to_set().filter(|t: TypeTag| self.open@[t.rank()]),
            error: error_view(self.error),
            close_error: error_view(self.close_error),
        }
    }
}

impl WriterPipeline {
    /// Whether there is a mark for each type.
    pub closed spec fn valid(&self) -> bool {
        self.open@.len() == 9
    }

    proof fn lemma_open(&self)
        ensures
            forall|t: TypeTag| #[trigger] self@.open.contains(t) == self.open@[t.rank()],
    {
        assert forall|t: TypeTag| #[trigger] self@.open.contains(t) == self.open@[t.rank()] by {
            assert(all_tags()[t.rank()] == t);
            assert(all_tags().contains(t));
        }
    }

    /// A run that has not begun.
    pub fn new() -> (r: Self)
        ensures
            r.valid(),
            r@ == (PipelineV { open: Set::empty(), error: None, close_error: None }),
    {
        let mut open: Vec<bool> = Vec::new();
        while open.len() < 9
            invariant
                open@.len() <= 9,
                forall|i: int| 0 <= i < open@.len() ==> !open@[i],
            decreases 9 - open@.len(),
        {
            open.push(false);
        }
        let r = WriterPipeline { open, error: None, close_error: None };
        proof {
            r.lemma_open();
            assert(r@.open == Set::<TypeTag>::empty());
        }
        r
    }

    /// Marks the output of a type as open or not.
    fn mark(&mut self, tag: TypeTag, open: bool)
        requires
            old(self).valid(),
        ensures
            final(self).valid(),
            final(self)@ == (PipelineV {
                open: if open {
                    old(self)@.open.insert(tag)
                } else {
                    old(self)@.open.remove(tag)
                },
                ..old(self)@
            }),
    {
        proof {
            self.lemma_open();
        }
        let i: usize = tag.index();
        self.open.set(i, open);
        proof {
            self.lemma_open();
            assert forall|t: TypeTag| t != tag implies t.rank() != tag.rank() by {}
            assert(self@.open == if open {
                old(self)@.open.insert(tag)
            } else {
                old(self)@.open.remove(tag)
            });
        }
    }

    /// Closes the first open output, or is done.
    fn close_next(&mut self) -> (r: WriterAction)
        requires
            old(self).valid(),
        ensures
            final(self).valid(),
            (final(self)@, r) == old(self)@.close_next(),
    {
        let tags = TypeTag::all();
        let mut i: usize = 0;
        proof {
            self.lemma_open();
        }
        while i < tags.len()
            invariant
                tags@ == all_tags(),
                i <= 9,
                self.valid(),
                *self == *old(self),
                forall|t: TypeTag| #[trigger] self@.open.contains(t) == self.open@[t.rank()],
                first_open(self@.open, 0) == first_open(self@.open, i as int),
            decreases 9 - i,
        {
            let tag = tags[i];
            assert(tag.rank() == i);
            if self.open[i] {
                assert(self@.open.contains(tag));
                self.mark(tag, false);
                return WriterAction::Close(tag);
            }
            i += 1;
        }
        WriterAction::Done
    }

    /// Goes on to close the outputs, after an error.
    fn fail(&mut self, e: ArrowConvertError) -> (r: WriterAction)
        requires
            old(self).valid(),
        ensures
            final(self).valid(),
            (final(self)@, r) == old(self)@.fail(e@),
    {
        self.error = Some(e);
        self.close_next()
    }

    /// After a batch of a type has come, the source has ended, or it has failed.
    pub fn fetched(&mut self, item: Result<Option<TypeTag>, ArrowConvertError>) -> (r: WriterAction)
        requires
            old(self).valid(),
        ensures
            final(self).valid(),
            (final(self)@, r) == old(self)@.fetched(result_view(item)),
    {
        proof {
            self.lemma_open();
        }
        match item {
            Ok(Some(tag)) => if self.open[tag.index()] {
                WriterAction::Write(tag)
            } else {
                WriterAction::Open(tag)
            },
            Ok(None) => self.close_next(),
            Err(e) => self.fail(e),
        }
    }

    /// After the output of a type was to be created.
    pub fn opened(&mut self, tag: TypeTag, result: Result<(), ArrowConvertError>) -> (r: WriterAction)
        requires
            old(self).valid(),
        ensures
            final(self).valid(),
            (final(self)@, r) == old(self)@.opened(tag, result_view(result)),
    {
        match result {
            Ok(_) => {
                self.mark(tag, true);
                WriterAction::Write(tag)
            },
            Err(e) => self.fail(e),
        }
    }

    /// After a batch was to be written.
    pub fn written(&mut self, result: Result<(), ArrowConvertError>) -> (r: WriterAction)
        requires
            old(self).valid(),
        ensures
            final(self).valid(),
            (final(self)@, r) == old(self)@.written(result_view(result)),
    {
        match result {
            Ok(_) => WriterAction::Fetch,
            Err(e) => self.fail(e),
        }
    }

    /// After an output was to be finished.
    pub fn closed(&mut self, result: Result<(), ArrowConvertError>) -> (r: WriterAction)
        requires
            old(self).valid(),
        ensures
            final(self).valid(),
            (final(self)@, r) == old(self)@.closed(result_view(result)),
    {
        match result {
            Ok(_) => {},
            Err(e) => {
                if self.close_error.is_none() {
                    self.close_error = Some(e);
                }
            },
        }
        self.close_next()
    }

    /// What the run comes to.
    pub fn outcome(self) -> (r: Result<(), ArrowConvertError>)
        ensures
            result_view(r) == self@.outcome(),
    {
        match self.error {
            Some(e) => Err(e),
            None => match self.close_error {
                Some(e) => Err(e),
                None => Ok(()),
            },
        }
    }
}

// ---- Laws of writing ----

/// The outputs that are left to finish, in the order of the types, from a place on.
pub open spec fn left_to_close(open: Set<TypeTag>, from: int) -> Seq<TypeTag>
    decreases 9 - from,
{
    if from < 0 || from >= 9 {
        Seq::empty()
    } else if open.contains(all_tags()[from]) {
        seq![all_tags()[from]] + left_to_close(open, from + 1)
    } else {
        left_to_close(open, from + 1)
    }
}

proof fn lemma_beyond(open: Set<TypeTag>, tag: TypeTag, from: int)
    requires
        tag.rank() < from <= 9,
    ensures
        left_to_close(open.remove(tag), from) == left_to_close(open, from),
    decreases 9 - from,
{
    if from < 9 {
        lemma_beyond(open, tag, from + 1);
        assert(all_tags()[from].rank() == from);
    }
}

proof fn lemma_close_first(open: Set<TypeTag>, from: int)
    requires
        0 <= from <= 9,
    ensures
        match first_open(open, from) {
            Some(t) => {
                &&& from <= t.rank()
                &&& left_to_close(open, from) == seq![t] + left_to_close(open.remove(t), from)
            },
            None => left_to_close(open, from) == Seq::<TypeTag>::empty(),
        },
    decreases 9 - from,
{
    if from < 9 {
        let tag = all_tags()[from];
        assert(tag.rank() == from);
        if open.contains(tag) {
            lemma_beyond(open, tag, from + 1);
        } else {
            lemma_close_first(open, from + 1);
            if let Some(t) = first_open(open, from + 1) {
                assert(!open.remove(t).contains(tag));
            }
        }
    }
}

/// Once outputs are being finished, each open one is finished exactly once, in the order of
/// the types, whether or not finishing another fails, and only then the run is done.
pub proof fn law_open_outputs_are_closed(p: PipelineV, r: Result<(), ArrowConvertErrorV>)
    ensures
        match p.closed(r) {
            (after, WriterAction::Close(t)) => left_to_close(p.open, 0) == seq![t]
                + left_to_close(after.open, 0),
            (_, action) => action == WriterAction::Done && left_to_close(p.open, 0) == Seq::<
                TypeTag,
            >::empty(),
        },
{
    lemma_close_first(p.open, 0);
}

/// What was open when the source ended or something failed is what is finished.
pub proof fn law_failures_close_outputs(p: PipelineV, tag: TypeTag, e: ArrowConvertErrorV)
    ensures
        p.fetched(Err(e)) == p.fail(e),
        p.opened(tag, Err(e)) == p.fail(e),
        p.written(Err(e)) == p.fail(e),
        match p.fail(e) {
            (after, WriterAction::Close(t)) => left_to_close(p.open, 0) == seq![t]
                + left_to_close(after.open, 0) && after.error == Some(e),
            (after, action) => action == WriterAction::Done && left_to_close(p.open, 0) == Seq::<
                TypeTag,
            >::empty() && after.error == Some(e),
        },
{
    lemma_close_first(p.open, 0);
}

/// A type has its output created at most once: only if it is not open, and it stays open
/// until outputs are finished.
pub proof fn law_outputs_open_once(p: PipelineV, tag: TypeTag, other: TypeTag)
    ensures
        p.fetched(Ok(Some(tag))).1 == WriterAction::Open(tag) <==> !p.open.contains(tag),
        p.opened(tag, Ok(())).0.fetched(Ok(Some(tag))).1 == WriterAction::Write(tag),
        p.open.contains(other) ==> p.opened(tag, Ok(())).0.open.contains(other)
            && p.written(Ok(())).0.open.contains(other),
{
}

/// An error while there were batches goes before any error while outputs were finished, and
/// of those the first counts.
pub proof fn law_first_error_wins(p: PipelineV, r: Result<(), ArrowConvertErrorV>)
    ensures
        p.outcome() is Err ==> p.closed(r).0.outcome() == p.outcome(),
        p.error matches Some(e) ==> p.closed(r).0.outcome() == Err::<(), ArrowConvertErrorV>(e),
{
}

/// The state after a batch of a type has come and been written, its output created first if
/// that has to be.
pub open spec fn with_batch(p: PipelineV, tag: TypeTag) -> PipelineV {
    let (q, action) = p.fetched(Ok(Some(tag)));
    let ready = match action {
        WriterAction::Open(t) => q.opened(t, Ok(())).0,
        _ => q,
    };
    ready.written(Ok(())).0
}

/// The state after batches of types have come and been written.
pub open spec fn with_batches(p: PipelineV, tags: Seq<TypeTag>) -> PipelineV
    decreases tags.len(),
{
    if tags.len() == 0 {
        p
    } else {
        with_batch(with_batches(p, tags.drop_last()), tags.last())
    }
}

/// There is an output for each type of which a batch has come, and for no other.
pub proof fn law_outputs_are_the_types(p: PipelineV, tags: Seq<TypeTag>, tag: TypeTag)
    ensures
        with_batches(p, tags).open.contains(tag) <==> p.open.contains(tag) || tags.contains(tag),
    decreases tags.len(),
{
    if tags.len() > 0 {
        let front = tags.drop_last();
        law_outputs_are_the_types(p, front, tag);
        if front.contains(tag) {
            let i = front.index_of(tag);
            assert(tags[i] == tag);
        }
        if tags.contains(tag) && tags.last() != tag {
            let i = tags.index_of(tag);
            assert(front[i] == tag);
        }
        assert(tags[tags.len() - 1] == tags.last());
    }
}

/// A batch that has come is written once, to the output of its type, before the next one is
/// fetched, as long as nothing fails. No error comes of it, and no other output changes.
pub proof fn law_each_batch_is_written(p: PipelineV, tag: TypeTag)
    ensures
        ({
            let (q, first) = p.fetched(Ok(Some(tag)));
            let (ready, action) = match first {
                WriterAction::Open(t) => q.opened(t, Ok(())),
                _ => (q, first),
            };
            let (after, next) = ready.written(Ok(()));
            &&& first == WriterAction::Open(tag) || first == WriterAction::Write(tag)
            &&& action == WriterAction::Write(tag)
            &&& next == WriterAction::Fetch
            &&& after == (PipelineV { open: p.open.insert(tag), ..p })
        }),
{
    assert(p.open.contains(tag) ==> p.open.insert(tag) == p.open);
}

/// A run comes to an error exactly if something has failed: the source, creating, writing or
/// finishing an output. At the end of the source outputs are finished without an error.
pub proof fn law_outcome_of_a_run(p: PipelineV, tag: TypeTag, e: ArrowConvertErrorV)
    ensures
        p.outcome() is Ok <==> p.error is None && p.close_error is None,
        p.fetched(Ok(None)).0.outcome() == p.outcome(),
        p.closed(Ok(())).0.outcome() == p.outcome(),
        p.fetched(Err(e)).0.outcome() == Err::<(), ArrowConvertErrorV>(e),
        p.opened(tag, Err(e)).0.outcome() == Err::<(), ArrowConvertErrorV>(e),
        p.written(Err(e)).0.outcome() == Err::<(), ArrowConvertErrorV>(e),
        p.outcome() is Ok ==> p.closed(Err(e)).0.outcome() == Err::<(), ArrowConvertErrorV>(e),
        p.fetched(Ok(None)) == p.closed(Ok(())),
{
}

} // verus!
