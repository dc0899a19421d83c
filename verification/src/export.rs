//! What `export` decides before and while it writes.

use crate::args::ExportArgs;
use crate::batcher::BatcherConfig;
use crate::cli_error::{CliError, CliErrorV};
use crate::entries::EntrySource;
use crate::filter::EntryFilter;
use crate::io::name_texts;
use crate::reader::{RdbReader, ReaderV};
use crate::schema::{heuristics_named, tags_of, Heuristic, HeuristicSet, TagSet, TypeTag};
use crate::text;
use crate::wire::ByteSource;
use vstd::prelude::*;

verus! {

// ---- Arguments ----

/// Whether a character may stand in a shard identifier.
pub open spec fn shard_char(c: char) -> bool {
    'A' <= c <= 'Z' || 'a' <= c <= 'z' || '0' <= c <= '9' || c == '-' || c == '_'
}

/// Whether a shard identifier can be part of a file name.
pub open spec fn shard_id_allowed(s: Seq<char>) -> bool {
    s.len() > 0 && forall|i: int| 0 <= i < s.len() ==> shard_char(#[trigger] s[i])
}

/// Whether a shard identifier can be part of a file name.
pub fn is_valid_shard_id(s: &str) -> (r: bool)
    ensures
        r == shard_id_allowed(s@),
{
    let chars = text::chars_of(s);
    if chars.len() == 0 {
        return false;
    }
    let mut i: usize = 0;
    while i < chars.len()
        invariant
            i <= chars@.len(),
            chars@ == s@,
            forall|k: int| 0 <= k < i ==> shard_char(#[trigger] chars@[k]),
        decreases chars@.len() - i,
    {
        let c: char = chars[i];
        let fine = ('A' <= c && c <= 'Z') || ('a' <= c && c <= 'z') || ('0' <= c && c <= '9') || c
            == '-' || c == '_';
        if !fine {
            assert(!shard_char(chars@[i as int]));
            return false;
        }
        i += 1;
    }
    true
}

/// What an export does, as far as the arguments say.
#[derive(Debug)]
pub struct ExportPlan {
    /// Which entries are taken.
    pub filter: EntryFilter,
    /// Which types are written; all of them if none is named.
    pub output_tags: Option<TagSet>,
    /// How batches are made.
    pub config: BatcherConfig,
}

/// The text of a string that may be missing.
pub open spec fn text_of(s: Option<String>) -> Option<Seq<char>> {
    match s {
        Some(s) => Some(s@),
        None => None,
    }
}

/// The types that are asked for, or what is wrong with them.
pub open spec fn types_asked(names: Option<Seq<char>>) -> Result<Option<Set<TypeTag>>, Seq<char>> {
    match names {
        None => Ok(None),
        Some(s) => match tags_of(text::comma_pieces(s)) {
            Ok(tags) => Ok(Some(tags)),
            Err(e) => Err(e),
        },
    }
}

/// The text of the error for a shard identifier that is not allowed.
pub open spec fn bad_shard_id() -> Seq<char> {
    "shard-id must be non-empty and contain only [A-Za-z0-9_-]"@
}

/// What is wrong with arguments: the types, then the shard identifier, then the heuristics.
pub open spec fn usage_error(args: ExportArgs) -> Option<Seq<char>> {
    match types_asked(text_of(args.type_names)) {
        Err(e) => Some(e),
        Ok(_) => if args.shard_id is Some && !shard_id_allowed(args.shard_id->0@) {
            Some(bad_shard_id())
        } else {
            match heuristics_named(args.heuristic@) {
                Err(e) => Some(e),
                Ok(_) => None,
            }
        },
    }
}

/// A set of tags that may be missing.
pub open spec fn tags_view(tags: Option<TagSet>) -> Option<Set<TypeTag>> {
    match tags {
        Some(t) => Some(t@),
        None => None,
    }
}

/// Whether a plan is the one that the arguments ask for.
pub open spec fn is_plan_for(plan: ExportPlan, args: ExportArgs) -> bool {
    let tags = types_asked(text_of(args.type_names))->Ok_0;
    let heuristics = heuristics_named(args.heuristic@)->Ok_0;
    &&& tags_view(plan.output_tags) == tags
    &&& tags_view(plan.filter.type_tags) == tags
    &&& plan.filter.db == args.db
    &&& text_of(plan.filter.key_pattern) == text_of(args.key_pattern)
    &&& plan.filter.heuristics@ == heuristics
    &&& plan.config.batch_size == args.batch_size
    &&& plan.config.batch_bytes == match args.batch_bytes {
        Some(n) => Some(n),
        None => Some(67_108_864usize),
    }
    &&& plan.config.max_entry_bytes == args.max_entry_bytes
    &&& plan.config.heuristics@ == heuristics
}

/// Checks the arguments and says what the export does. Nothing has been read yet.
pub fn plan_export(args: &ExportArgs) -> (r: Result<ExportPlan, CliError>)
    ensures
        match (r, usage_error(*args)) {
            (Ok(plan), None) => is_plan_for(plan, *args),
            (Err(e), Some(m)) => e@ == CliErrorV::Usage(m),
            _ => false,
        },
{
    let mut type_tags: Option<TagSet> = None;
    let mut output_tags: Option<TagSet> = None;
    if let Some(names) = &args.type_names {
        match TypeTag::parse_set(names.as_str()) {
            Ok(tags) => {
                output_tags = Some(tags.copy());
                type_tags = Some(tags);
            },
            Err(e) => {
                return Err(CliError::Usage(e));
            },
        }
    }
    if let Some(s) = &args.shard_id {
        if !is_valid_shard_id(s.as_str()) {
            return Err(
                CliError::Usage(
                    "shard-id must be non-empty and contain only [A-Za-z0-9_-]".to_owned(),
                ),
            );
        }
    }
    let heuristics = match Heuristic::parse_set(args.heuristic.as_str()) {
        Ok(set) => set,
        Err(e) => {
            return Err(CliError::Usage(e));
        },
    };
    let key_pattern = match &args.key_pattern {
        Some(p) => Some(p.clone()),
        None => None,
    };
    let filter = EntryFilter { db: args.db, type_tags, key_pattern, heuristics };
    let config = batcher_config(
        args.batch_size,
        args.batch_bytes,
        args.max_entry_bytes,
        heuristics,
    );
    Ok(ExportPlan { filter, output_tags, config })
}

/// How batches are made. Where no byte budget is given, the default stands.
pub fn batcher_config(
    batch_size: usize,
    batch_bytes: Option<usize>,
    max_entry_bytes: Option<usize>,
    heuristics: HeuristicSet,
) -> (r: BatcherConfig)
    ensures
        r == (BatcherConfig {
            batch_size,
            batch_bytes: match batch_bytes {
                Some(n) => Some(n),
                None => Some(67_108_864usize),
            },
            max_entry_bytes,
            heuristics,
        }),
{
    let mut config = BatcherConfig::default();
    config.batch_size = batch_size;
    if let Some(n) = batch_bytes {
        config.batch_bytes = Some(n);
    }
    config.max_entry_bytes = max_entry_bytes;
    config.heuristics = heuristics;
    config
}

/// Sets how a reader cuts large collections.
pub fn configure_reader<R: ByteSource>(
    reader: RdbReader<R>,
    no_chunking: bool,
    max_key_elements: Option<usize>,
) -> (r: RdbReader<R>)
    requires
        max_key_elements != Some(0usize),
    ensures
        r@ == (ReaderV {
            max: if no_chunking {
                None
            } else {
                match max_key_elements {
                    Some(n) => Some(n as nat),
                    None => reader@.max,
                }
            },
            ..reader@
        }),
        reader.valid() ==> r.valid(),
{
    if no_chunking {
        reader.without_chunking()
    } else if let Some(max) = max_key_elements {
        reader.with_max_key_elements(max)
    } else {
        reader
    }
}

/// Whether the batches of a type are written. A filter by types lets entries pass that have
/// rows of other types too.
pub fn wants_output(output_tags: &Option<TagSet>, tag: TypeTag) -> (r: bool)
    ensures
        r == match tags_view(*output_tags) {
            Some(tags) => tags.contains(tag),
            None => true,
        },
{
    match output_tags {
        Some(tags) => tags.contains(tag),
        None => true,
    }
}

// ---- Output directory ----

/// What `Path::file_stem` gives for a plain path, as text: the last component without its
/// extension.
pub uninterp spec fn stem_text(path: Seq<char>) -> Option<Seq<char>>;

/// Whether a path has the same components on all systems: it has no backslashes and colons,
/// and does not start with two slashes, which some systems take for the name of a server.
pub open spec fn plain_path(path: Seq<char>) -> bool {
    !path.contains('\\') && !path.contains(':') && !(path.len() >= 2 && path[0] == '/' && path[1]
        == '/')
}

/// Calls `Path::file_stem`, which gives the last component of a path without its extension,
/// if it has one. What it gives depends on nothing but the path, except that backslashes, drive
/// letters and two slashes at the start mean something on some systems only.
#[verifier::external_body]
fn file_stem(path: &str) -> (r: Option<String>)
    ensures
        plain_path(path@) ==> text_of(r) == stem_text(path@),
{
    std::path::Path::new(path).file_stem().map(|s| s.to_string_lossy().into_owned())
}

/// The output directory, given the stem of the input file.
pub open spec fn directory_for(
    output: Option<Seq<char>>,
    file: Seq<char>,
    stem: Option<Seq<char>>,
) -> Seq<char> {
    match output {
        Some(dir) => dir,
        None => if file == "-"@ {
            "rdb_export"@
        } else {
            match stem {
                Some(s) => if s.len() > 0 {
                    s
                } else {
                    "rdb_export"@
                },
                None => "rdb_export"@,
            }
        },
    }
}

/// The output directory, given the stem of the input file: what is asked for, or else the
/// stem, or else `rdb_export`.
pub fn choose_output_dir(output: Option<&str>, file: &str, stem: Option<String>) -> (r: String)
    ensures
        r@ == directory_for(
            match output {
                Some(dir) => Some(dir@),
                None => None,
            },
            file@,
            text_of(stem),
        ),
{
    match output {
        Some(dir) => dir.to_owned(),
        None => {
            if text::same_text(file, "-") {
                return "rdb_export".to_owned();
            }
            match stem {
                Some(s) => {
                    if text::chars_of(s.as_str()).len() > 0 {
                        s
                    } else {
                        "rdb_export".to_owned()
                    }
                },
                None => "rdb_export".to_owned(),
            }
        },
    }
}

/// The output directory of an export. Where it is named after a path that is not plain, the
/// system says what its stem is, if it has one.
pub fn output_dir(args: &ExportArgs) -> (r: String)
    ensures
        exists|stem: Option<Seq<char>>|
            r@ == #[trigger] directory_for(text_of(args.output), args.file@, stem),
        args.output is Some || args.file@ == "-"@ || plain_path(args.file@) ==> r@ == directory_for(
            text_of(args.output),
            args.file@,
            stem_text(args.file@),
        ),
{
    let output: Option<&str> = match &args.output {
        Some(dir) => Some(dir.as_str()),
        None => None,
    };
    let stem = file_stem(args.file.as_str());
    let ghost named = text_of(stem);
    let dir = choose_output_dir(output, args.file.as_str(), stem);
    assert(dir@ == directory_for(text_of(args.output), args.file@, named));
    dir
}

/// Whether a name is that of an exported file.
pub open spec fn is_export_name(name: Seq<char>) -> bool {
    text::has_suffix(name, ".parquet"@) || text::has_suffix(name, ".arrow"@) || text::has_suffix(
        name,
        ".csv"@,
    ) || text::has_suffix(name, ".json"@)
}

/// How many of the names are those of exported files.
pub open spec fn exports_among(names: Seq<Seq<char>>) -> nat
    decreases names.len(),
{
    if names.len() == 0 {
        0
    } else {
        exports_among(names.drop_last()) + if is_export_name(names.last()) {
            1nat
        } else {
            0
        }
    }
}

/// The warning for files that an export may overwrite.
pub open spec fn warning_text(dir: Seq<char>, n: nat) -> Option<Seq<char>> {
    if n == 0 {
        None
    } else {
        Some(
            "Warning: output directory '"@ + dir + "' contains "@ + text::dec(n as int)
                + " existing file(s) that will be overwritten"@,
        )
    }
}

/// The warning for the names of an output directory, if one is due.
pub fn overwrite_warning(dir: &str, names: &Vec<String>) -> (r: Option<String>)
    ensures
        text_of(r) == warning_text(dir@, exports_among(name_texts(names@))),
{
    let ghost all = name_texts(names@);
    let mut n: u64 = 0;
    let mut i: usize = 0;
    assert(all.take(0) == Seq::<Seq<char>>::empty());
    while i < names.len()
        invariant
            i <= names.len(),
            all == name_texts(names@),
            n as nat == exports_among(all.take(i as int)),
            n <= i,
        decreases names@.len() - i,
    {
        assert(all.take(i + 1).drop_last() == all.take(i as int));
        assert(all.take(i + 1).last() == names@[i as int]@);
        let name = names[i].as_str();
        if text::ends_with(name, ".parquet") || text::ends_with(name, ".arrow") || text::ends_with(
            name,
            ".csv",
        ) || text::ends_with(name, ".json") {
            n = n + 1;
        }
        i += 1;
    }
    assert(all.take(i as int) == all);
    if n == 0 {
        return None;
    }
    let head = text::join3("Warning: output directory '", dir, "' contains ");
    Some(
        head.concat(text::dec_string(n).as_str()).concat(
            " existing file(s) that will be overwritten",
        ),
    )
}

} // verus!
