//! The command line.

use valkey_rdb_tools::args::{
    parse_byte_size, parse_positive_usize, CompressionArg, ExportArgs, FormatArg,
};
use valkey_rdb_tools::cli_error::{CliError, IoFailure, OtherFailure};
use valkey_rdb_tools::error::ArrowConvertError;
use valkey_rdb_tools::export::{
    choose_output_dir, configure_reader, output_dir, overwrite_warning, plan_export, wants_output,
};
use valkey_rdb_tools::io::{
    build_rdb_reader, find_parquet_files, is_stdin, output_file_name, shard_suffix, IoContext,
    RdbOpenError,
};
use valkey_rdb_tools::listing::{schema_lines, tags_to_show};
use valkey_rdb_tools::schema::{Heuristic, HeuristicSet, TypeTag};
use valkey_rdb_tools::types::{AuxMap, IoError, RdbError, RdbHeader, RdbMagic};
use valkey_rdb_tools::validate::{
    compare, format_num, heading, input_lines, line_text, parquet_meta, provenance_warning,
    total_rows, verdict,
};
use valkey_rdb_tools::summarize::{TagMap, TypeCount};
use valkey_rdb_tools::wire::Source;
use valkey_rdb_tools::writer::Compression;

fn failed(s: &str) -> IoError {
    IoError::Failed(s.to_string())
}

#[test]
fn exit_codes_are_distinct_per_variant() {
    let codes = [
        CliError::Usage(String::new()).exit_code(),
        CliError::Io(IoFailure::Bare(failed("x"))).exit_code(),
        CliError::Corrupt(RdbError::CorruptData("x".into())).exit_code(),
        CliError::ValidationFailed(String::new()).exit_code(),
        CliError::Other(OtherFailure::Message("x".into())).exit_code(),
    ];
    // Every code should be unique so an exit-status consumer can
    // fan out on them unambiguously.
    let mut sorted: Vec<i32> = codes.to_vec();
    sorted.sort_unstable();
    sorted.dedup();
    assert_eq!(sorted.len(), codes.len(), "exit codes collide: {codes:?}");
    // None should collide with success (0).
    assert!(!codes.contains(&0));
    assert_eq!(codes, [2, 3, 4, 5, 1]);
}

#[test]
fn rdb_open_io_maps_to_io_variant() {
    let io = IoContext::new("/x".to_string(), failed("boom"));
    let err: CliError = RdbOpenError::Io(io).into();
    assert!(matches!(err, CliError::Io(_)));
    assert_eq!(err.exit_code(), 3);
    assert_eq!(err.message(), "/x: boom");
    assert_eq!(err.causes(), vec!["/x: boom", "boom"]);
}

#[test]
fn rdb_open_rdb_maps_to_corrupt_variant() {
    let rdb = RdbError::CorruptData("bad magic".into());
    let err: CliError = RdbOpenError::Rdb(rdb).into();
    assert!(matches!(err, CliError::Corrupt(_)));
    assert_eq!(err.exit_code(), 4);
}

#[test]
fn shard_suffix_empty_without_id() {
    assert_eq!(shard_suffix(None), "");
}

#[test]
fn shard_suffix_dot_prefixed_with_id() {
    assert_eq!(shard_suffix(Some("n1")), ".n1");
}

#[test]
fn open_file_attaches_path_to_error() {
    let path = "/this/definitely/does/not/exist.rdb";
    let err = build_rdb_reader::<Source>(path, Err(failed("No such file or directory")))
        .err()
        .unwrap();
    let display = err.message();
    assert!(
        display.contains("/this/definitely/does/not/exist.rdb"),
        "error display should include the path: {display}"
    );
    assert_eq!(display, "/this/definitely/does/not/exist.rdb: No such file or directory");
}

#[test]
fn find_parquet_files_returns_base_and_shards() {
    let names: Vec<String> = [
        "string.parquet",
        "string.shard-a.parquet",
        "string.shard-b.parquet",
        "list.parquet",
        "notes.txt",
    ]
    .iter()
    .map(|s| s.to_string())
    .collect();
    let mut got = find_parquet_files(TypeTag::String, true, &names);
    got.sort();
    assert_eq!(
        got,
        vec!["string.parquet", "string.shard-a.parquet", "string.shard-b.parquet"]
    );
    assert_eq!(find_parquet_files(TypeTag::Geo, false, &names), Vec::<String>::new());
}

#[test]
fn exported_names_are_found_again() {
    for tag in TypeTag::all() {
        let base = output_file_name(tag, None, "parquet");
        let shard = output_file_name(tag, Some("n-1"), "parquet");
        assert_eq!(base, format!("{}.parquet", tag.as_str()));
        assert_eq!(shard, format!("{}.n-1.parquet", tag.as_str()));
        let names = vec![base.clone(), shard.clone()];
        assert_eq!(find_parquet_files(tag, true, &names), vec![base, shard]);
    }
}

#[test]
fn conversion_errors_are_classified() {
    let corrupt: CliError = ArrowConvertError::Parser(RdbError::InvalidMagic).into();
    assert_eq!(corrupt.exit_code(), 4);
    assert_eq!(corrupt.causes(), vec!["invalid RDB magic string"]);
    let io: CliError = ArrowConvertError::Io(failed("disk full")).into();
    assert_eq!(io.exit_code(), 3);
    assert_eq!(io.message(), "disk full");
    let other: CliError = ArrowConvertError::Parquet("p".into()).into();
    assert_eq!(other.exit_code(), 1);
    assert_eq!(other.message(), "Parquet error: p");
    assert_eq!(other.causes(), vec!["Parquet error: p", "p"]);
    let full: CliError = ArrowConvertError::BatchFull.into();
    assert_eq!(full.message(), "Arrow error: a batch has outgrown its columns");
    let usage: CliError = "bad".to_string().into();
    assert_eq!((usage.exit_code(), usage.causes().len()), (2, 0));
    let eof: CliError = RdbError::Io(IoError::UnexpectedEof).into();
    assert_eq!(
        eof.causes(),
        vec!["I/O error: failed to fill whole buffer", "failed to fill whole buffer"]
    );
}

#[test]
fn readers_are_built_from_what_was_opened() {
    let reader = build_rdb_reader("x", Ok(Source::new(b"VALKEY080\xff".to_vec()))).unwrap();
    assert_eq!(reader.header().version, 80);
    let err = build_rdb_reader("x", Ok(Source::new(b"GARBAGE00xx".to_vec()))).err().unwrap();
    assert!(matches!(err, RdbOpenError::Rdb(RdbError::InvalidMagic)));
    assert_eq!(err.message(), "invalid RDB magic string");
    assert!(is_stdin("-"));
    assert!(!is_stdin("dump.rdb"));
}

fn export_args(file: &str) -> ExportArgs {
    ExportArgs {
        file: file.to_string(),
        output: None,
        format: FormatArg::Parquet,
        compression: CompressionArg::Zstd,
        db: None,
        type_names: None,
        key_pattern: None,
        batch_size: 65_536,
        batch_bytes: None,
        max_entry_bytes: None,
        row_group_size: 1_048_576,
        shard_id: None,
        heuristic: "all".to_string(),
        no_chunking: false,
        max_key_elements: None,
    }
}

#[test]
fn export_plans() {
    let plan = plan_export(&export_args("dump.rdb")).unwrap();
    assert_eq!(plan.config.batch_bytes, Some(64 * 1024 * 1024));
    assert_eq!(plan.config.heuristics, HeuristicSet::all());
    assert!(wants_output(&plan.output_tags, TypeTag::Stream));

    let mut args = export_args("dump.rdb");
    args.type_names = Some("hash, geo".to_string());
    args.batch_bytes = Some(1000);
    args.max_entry_bytes = Some(10);
    args.db = Some(3);
    args.key_pattern = Some("user:*".to_string());
    args.heuristic = "none".to_string();
    let plan = plan_export(&args).unwrap();
    assert_eq!(plan.config.batch_bytes, Some(1000));
    assert_eq!(plan.config.max_entry_bytes, Some(10));
    assert_eq!(plan.filter.db, Some(3));
    assert_eq!(plan.filter.key_pattern.as_deref(), Some("user:*"));
    assert!(!plan.filter.heuristics.contains(Heuristic::Geo));
    assert!(wants_output(&plan.output_tags, TypeTag::Hash));
    assert!(wants_output(&plan.output_tags, TypeTag::Geo));
    assert!(!wants_output(&plan.output_tags, TypeTag::SortedSet));
}

#[test]
fn export_plans_reject_bad_arguments() {
    let mut args = export_args("dump.rdb");
    args.type_names = Some("hash,nope".to_string());
    args.shard_id = Some(String::new());
    args.heuristic = "bad".to_string();
    let err = plan_export(&args).unwrap_err();
    assert_eq!(err.exit_code(), 2);
    assert_eq!(
        err.message(),
        "unknown type 'nope'. Valid: string, list, set, zset, hash, geo, hll, module, stream"
    );
    args.type_names = None;
    let shard = "shard-id must be non-empty and contain only [A-Za-z0-9_-]";
    assert_eq!(plan_export(&args).unwrap_err().message(), shard);
    args.shard_id = Some("../x".to_string());
    assert_eq!(plan_export(&args).unwrap_err().message(), shard);
    args.shard_id = Some("n_1-B".to_string());
    assert_eq!(
        plan_export(&args).unwrap_err().message(),
        "unknown heuristic 'bad'. Valid: all, geo, none"
    );
}

#[test]
fn output_directories() {
    assert_eq!(output_dir(&export_args("/data/dump.rdb")), "dump");
    assert_eq!(output_dir(&export_args("dump.tar.gz")), "dump.tar");
    assert_eq!(output_dir(&export_args("-")), "rdb_export");
    assert_eq!(output_dir(&export_args("/")), "rdb_export");
    let mut args = export_args("dump.rdb");
    args.output = Some("out".to_string());
    assert_eq!(output_dir(&args), "out");
    assert_eq!(choose_output_dir(None, "x", Some(String::new())), "rdb_export");
}

#[test]
fn overwriting_is_announced() {
    let names: Vec<String> = ["a.parquet", "b.txt", "c.json", "d.arrow", "e.csv"]
        .iter()
        .map(|s| s.to_string())
        .collect();
    assert_eq!(
        overwrite_warning("out", &names).unwrap(),
        "Warning: output directory 'out' contains 4 existing file(s) that will be overwritten"
    );
    assert_eq!(overwrite_warning("out", &vec!["b.txt".to_string()]), None);
}

#[test]
fn readers_are_configured() {
    let bytes = b"VALKEY080\x01\x01k\x03\x01a\x01b\x01c\xff\0\0\0\0\0\0\0\0".to_vec();
    for (no_chunking, max, expected) in [(false, Some(2), 2), (true, Some(2), 1), (false, None, 1)] {
        let reader = build_rdb_reader("x", Ok(Source::new(bytes.clone()))).unwrap();
        let mut reader = configure_reader(reader, no_chunking, max);
        let mut n = 0;
        while let Some(item) = reader.next() {
            item.unwrap();
            n += 1;
        }
        assert_eq!(n, expected);
    }
}

#[test]
fn numbers_on_the_command_line() {
    assert_eq!(parse_positive_usize("65536"), Ok(65536));
    assert_eq!(parse_positive_usize("+7"), Ok(7));
    assert_eq!(parse_positive_usize("0").unwrap_err(), "value must be > 0");
    for bad in ["", "+", "-3", "12x", "99999999999999999999", "99999999999999999999x"] {
        let expected = bad.parse::<usize>().unwrap_err().to_string();
        assert_eq!(parse_positive_usize(bad).unwrap_err(), expected, "{bad:?}");
    }
    assert_eq!(parse_byte_size("50mb"), Ok(50 * 1024 * 1024));
    assert_eq!(parse_byte_size("2KB"), Ok(2048));
    assert_eq!(parse_byte_size("1Gb"), Ok(1024 * 1024 * 1024));
    assert_eq!(parse_byte_size("1000"), Ok(1000));
    assert_eq!(parse_byte_size("0mb").unwrap_err(), "value must be > 0");
    assert!(parse_byte_size("mb").is_err());
    assert_eq!(
        parse_byte_size("99999999999gb").unwrap_err(),
        "number too large to fit in target type"
    );
}

#[test]
fn formats_and_codecs() {
    assert_eq!(FormatArg::Parquet.extension(), "parquet");
    assert_eq!(FormatArg::ArrowIpc.extension(), "arrow");
    assert_eq!(FormatArg::Csv.extension(), "csv");
    assert_eq!(FormatArg::Json.extension(), "json");
    assert_eq!(CompressionArg::Zstd.to_parquet_compression(), Compression::Zstd);
    assert_eq!(CompressionArg::Snappy.to_parquet_compression(), Compression::Snappy);
    assert_eq!(CompressionArg::Lz4.to_parquet_compression(), Compression::Lz4);
    assert_eq!(CompressionArg::Gzip.to_parquet_compression(), Compression::Gzip);
    assert_eq!(
        CompressionArg::Uncompressed.to_parquet_compression(),
        Compression::Uncompressed
    );
}

#[test]
fn numbers_are_grouped() {
    assert_eq!(format_num(0), "0");
    assert_eq!(format_num(999), "999");
    assert_eq!(format_num(1000), "1,000");
    assert_eq!(format_num(1234567), "1,234,567");
    assert_eq!(format_num(u64::MAX), "18,446,744,073,709,551,615");
    assert_eq!(format_num(u64::MAX).replace(',', ""), u64::MAX.to_string());
}

#[test]
fn comparisons() {
    let mut rdb: TagMap<TypeCount> = TagMap::new();
    let mut files: TagMap<u64> = TagMap::new();
    rdb.insert(TypeTag::String, TypeCount { keys: 1500, rows: 1500 });
    files.insert(TypeTag::String, 1500);
    let lines = compare(&rdb, &files);
    assert_eq!(verdict(&lines).unwrap(), "Result: PASS (1/1 types match)");

    rdb.insert(TypeTag::List, TypeCount { keys: 1, rows: 8 });
    files.insert(TypeTag::List, 7);
    rdb.insert(TypeTag::Hash, TypeCount { keys: 2, rows: 4 });
    files.insert(TypeTag::Geo, 2);
    let lines = compare(&rdb, &files);
    let words: Vec<&str> = lines.iter().map(|l| l.status.as_str()).collect();
    assert_eq!(words, vec!["ok", "MISMATCH", "MISSING", "EXTRA"]);
    let err = verdict(&lines).unwrap_err();
    assert_eq!(err.message(), "FAIL: 3 of 4 types mismatched");
    assert_eq!(err.exit_code(), 5);
    let row = |a: &str, b: &str, c: &str, d: &str, e: &str| {
        format!("  {a:<15} {b:>10} {c:>12} {d:>14}  {e}")
    };
    assert_eq!(heading(), row("Type", "Keys", "Rows", "Parquet Rows", "Status"));
    assert_eq!(line_text(&lines[0]), row("string", "1,500", "1,500", "1,500", "ok"));
    assert_eq!(line_text(&lines[2]), row("hash", "2", "4", "-", "MISSING"));
    assert_eq!(line_text(&lines[3]), row("geo", "-", "-", "2", "EXTRA"));
}

#[test]
fn row_counts_of_files_add_up() {
    let files = vec![("a".to_string(), 3i64), ("b".to_string(), 4)];
    assert_eq!(total_rows(&files).unwrap(), 7);
    let files = vec![("a".to_string(), 3i64), ("dir/b".to_string(), -4)];
    assert_eq!(total_rows(&files).unwrap_err().message(), "negative row count -4 in dir/b");
}

#[test]
fn exported_metadata_is_read() {
    let none = parquet_meta(None).unwrap();
    assert!(!none.has_exported_by);
    assert_eq!(none.heuristics, HeuristicSet::all());
    assert_eq!(
        provenance_warning(&none).unwrap(),
        "Warning: rdb.exported_by metadata tag not found in Parquet files"
    );
    let mut map = AuxMap::new();
    map.insert("rdb.exported_by".to_string(), "valkey-rdb-tools".to_string());
    let legacy = parquet_meta(Some(&map)).unwrap();
    assert!(legacy.has_exported_by);
    assert_eq!(legacy.heuristics, HeuristicSet::all());
    assert_eq!(provenance_warning(&legacy), None);
    map.insert("rdb.heuristics".to_string(), "none".to_string());
    assert_eq!(parquet_meta(Some(&map)).unwrap().heuristics, HeuristicSet::none());
    map.insert("rdb.heuristics".to_string(), "what".to_string());
    assert_eq!(
        parquet_meta(Some(&map)).unwrap_err().message(),
        "unknown heuristic 'what'. Valid: all, geo, none in rdb.heuristics"
    );
}

#[test]
fn input_is_described() {
    let header = RdbHeader { magic: RdbMagic::Valkey, version: 80 };
    let (first, second) = input_lines("dump.rdb", &header, true);
    assert_eq!(first, format!("RDB: dump.rdb ({}, RDB v80)", RdbMagic::Valkey.as_str()));
    assert_eq!(second, "CRC-64: verified");
    assert_eq!(input_lines("x", &header, false).1, "CRC-64: not available (RDB v80)");
}

#[test]
fn schemas_are_listed() {
    assert_eq!(tags_to_show(None).unwrap(), TypeTag::all());
    assert_eq!(tags_to_show(Some("HLL")).unwrap(), vec![TypeTag::HyperLogLog]);
    assert_eq!(
        tags_to_show(Some("x")).unwrap_err().message(),
        "unknown type 'x'. Valid types: string, list, set, zset, hash, geo, hll"
    );
    let lines = schema_lines(&vec![TypeTag::String, TypeTag::UnorderedSet]);
    assert_eq!(lines.len(), 10 + 1 + 10);
    assert_eq!(lines[0], "--- string ---");
    assert_eq!(lines[1], format!("  {:<20} {:<12} {}", "db", "UInt32", "required"));
    assert_eq!(lines[4], format!("  {:<20} {:<12} {}", "expiry_ms", "Int64", "nullable"));
    assert_eq!(lines[9], format!("  {:<20} {:<12} {}", "value", "Binary", "required"));
    assert_eq!(lines[10], "");
    assert_eq!(lines[11], "--- set ---");
}

#[test]
fn files_of_types_and_shards_have_names_of_their_own() {
    let mut names = Vec::new();
    for tag in TypeTag::all() {
        for shard in [None, Some("a"), Some("b"), Some("geo")] {
            names.push(output_file_name(tag, shard, "parquet"));
        }
    }
    assert_eq!(names[1], "string.a.parquet");
    let count = names.len();
    names.sort();
    names.dedup();
    assert_eq!(names.len(), count);
}
