//! Names and codes: type codes, encodings, types, heuristics, file names, exit codes and
//! exceptions, and that each is told by what it stands for.

use crate::args::ExportArgs;
use crate::bindings::{convert_exception, rdb_exception, ExceptionKind};
use crate::cli_error::CliErrorV;
use crate::columns::Cell;
use crate::detect::{hll_encoding_name, looks_like_hll};
use crate::error::ArrowConvertErrorV;
use crate::export::{
    directory_for, is_plan_for, shard_id_allowed, text_of, types_asked, usage_error, ExportPlan,
};
use crate::filter::{glob_can_take, law_filter_by_database, opening_braces, scanned};
use crate::io::{base_name, file_name, is_shard_name, parquet_names, shards_in, IoContextV};
use crate::numerals::law_decimal;
use crate::opcodes::{encoding_label, object_type, type_label};
use crate::rows::rows_of;
use crate::schema::{
    columns_of, heuristics_in, heuristics_named, heuristics_of, tag_named, tags_of, Heuristic,
    TypeTag,
};
use crate::text;
use crate::types::{
    ModuleDataV, ModuleValueV, RdbEntryV, RdbErrorV, RdbValueV, StreamDataV,
};
use vstd::prelude::*;

verus! {

// ---- Type codes ----

/// Each logical type is saved under codes of its own.
pub proof fn law_codes_of_types(t: u8)
    ensures
        type_label(t) == "string"@ <==> t == 0,
        type_label(t) == "list"@ <==> (t == 1 || t == 10 || t == 14 || t == 18),
        type_label(t) == "set"@ <==> (t == 2 || t == 11 || t == 20),
        type_label(t) == "zset"@ <==> (t == 3 || t == 5 || t == 12 || t == 17),
        type_label(t) == "hash"@ <==> (t == 4 || t == 9 || t == 13 || t == 16 || t == 22),
        type_label(t) == "stream"@ <==> (t == 15 || t == 19 || t == 21),
        type_label(t) == "module"@ <==> (t == 6 || t == 7),
        type_label(t) == "unknown"@ <==> !object_type(t),
{
    reveal_strlit("string");
    reveal_strlit("list");
    reveal_strlit("set");
    reveal_strlit("zset");
    reveal_strlit("hash");
    reveal_strlit("stream");
    reveal_strlit("module");
    reveal_strlit("unknown");
    let l = type_label(t);
    assert(l == "string"@ ==> l.len() == 6 && l[3] == 'i');
    assert(l == "list"@ ==> l.len() == 4 && l[0] == 'l');
    assert(l == "set"@ ==> l.len() == 3);
    assert(l == "zset"@ ==> l.len() == 4 && l[0] == 'z');
    assert(l == "hash"@ ==> l.len() == 4 && l[0] == 'h');
    assert(l == "stream"@ ==> l.len() == 6 && l[3] == 'e');
    assert(l == "module"@ ==> l.len() == 6 && l[3] == 'u');
    assert(l == "unknown"@ ==> l.len() == 7);
}

/// Each encoding is saved under codes of its own.
pub proof fn law_codes_of_encodings(t: u8)
    ensures
        encoding_label(t) == "string"@ <==> t == 0,
        encoding_label(t) == "linkedlist"@ <==> t == 1,
        encoding_label(t) == "hashtable"@ <==> (t == 2 || t == 4 || t == 22),
        encoding_label(t) == "skiplist"@ <==> (t == 3 || t == 5),
        encoding_label(t) == "module"@ <==> (t == 6 || t == 7),
        encoding_label(t) == "zipmap"@ <==> t == 9,
        encoding_label(t) == "ziplist"@ <==> (t == 10 || t == 12 || t == 13),
        encoding_label(t) == "intset"@ <==> t == 11,
        encoding_label(t) == "quicklist"@ <==> t == 14,
        encoding_label(t) == "stream"@ <==> t == 15,
        encoding_label(t) == "listpack"@ <==> (t == 16 || t == 17 || t == 20),
        encoding_label(t) == "quicklist2"@ <==> t == 18,
        encoding_label(t) == "stream2"@ <==> t == 19,
        encoding_label(t) == "stream3"@ <==> t == 21,
        encoding_label(t) == "unknown"@ <==> !object_type(t),
{
    reveal_strlit("string");
    reveal_strlit("linkedlist");
    reveal_strlit("hashtable");
    reveal_strlit("skiplist");
    reveal_strlit("module");
    reveal_strlit("zipmap");
    reveal_strlit("ziplist");
    reveal_strlit("intset");
    reveal_strlit("quicklist");
    reveal_strlit("stream");
    reveal_strlit("listpack");
    reveal_strlit("quicklist2");
    reveal_strlit("stream2");
    reveal_strlit("stream3");
    reveal_strlit("unknown");
    let l = encoding_label(t);
    assert(l == "string"@ ==> l.len() == 6 && l[3] == 'i');
    assert(l == "module"@ ==> l.len() == 6 && l[3] == 'u');
    assert(l == "zipmap"@ ==> l.len() == 6 && l[3] == 'm');
    assert(l == "intset"@ ==> l.len() == 6 && l[3] == 's');
    assert(l == "stream"@ ==> l.len() == 6 && l[3] == 'e');
    assert(l == "ziplist"@ ==> l.len() == 7 && l[0] == 'z');
    assert(l == "stream2"@ ==> l.len() == 7 && l[0] == 's' && l[6] == '2');
    assert(l == "stream3"@ ==> l.len() == 7 && l[0] == 's' && l[6] == '3');
    assert(l == "unknown"@ ==> l.len() == 7 && l[0] == 'u');
    assert(l == "skiplist"@ ==> l.len() == 8 && l[0] == 's');
    assert(l == "listpack"@ ==> l.len() == 8 && l[0] == 'l');
    assert(l == "hashtable"@ ==> l.len() == 9 && l[0] == 'h');
    assert(l == "quicklist"@ ==> l.len() == 9 && l[0] == 'q');
    assert(l == "linkedlist"@ ==> l.len() == 10 && l[0] == 'l');
    assert(l == "quicklist2"@ ==> l.len() == 10 && l[0] == 'q');
}

// ---- HyperLogLog ----

/// A HyperLogLog starts with its magic and its encoding, and has a header of sixteen bytes.
pub proof fn law_hll_header(encoding: u8, rest: Seq<u8>)
    ensures
        ({
            let data = seq!['H' as u8, 'Y' as u8, 'L' as u8, 'L' as u8, encoding] + rest;
            &&& looks_like_hll(data) <==> encoding <= 1 && rest.len() >= 11
            &&& hll_encoding_name(data) == if encoding == 0 {
                "dense"@
            } else if encoding == 1 {
                "sparse"@
            } else {
                "unknown"@
            }
        }),
{
    let data = seq!['H' as u8, 'Y' as u8, 'L' as u8, 'L' as u8, encoding] + rest;
    assert(data[4] == encoding);
    assert(data.take(4) == seq![72u8, 89, 76, 76]);
}

/// Without the magic no data is a HyperLogLog. With more bytes behind it, data stays what it
/// is.
pub proof fn law_hll_magic(data: Seq<u8>, more: Seq<u8>)
    ensures
        looks_like_hll(data) ==> data[0] as int == 'H' as int && data[1] as int == 'Y' as int
            && data[2] as int == 'L' as int && data[3] as int == 'L' as int,
        looks_like_hll(data) ==> looks_like_hll(data + more),
        data.len() >= 16 ==> looks_like_hll(data + more) == looks_like_hll(data),
{
    if data.len() >= 16 {
        assert((data + more).take(4) == data.take(4));
        assert((data + more)[4] == data[4]);
        let four = data.take(4);
        assert(four[0] == data[0] && four[1] == data[1] && four[2] == data[2] && four[3]
            == data[3]);
    }
}

// ---- Types and heuristics by name ----

/// A name that stands for a type is the name of that type in letters of either case, or the
/// short form of `hyperloglog`.
pub proof fn law_names_of_types(s: Seq<char>, tag: TypeTag)
    ensures
        tag_named(s) == Some(tag) <==> (text::lower_text(s) == tag.label() || (tag
            == TypeTag::HyperLogLog && text::lower_text(s) == "hll"@)),
{
    reveal_strlit("string");
    reveal_strlit("list");
    reveal_strlit("set");
    reveal_strlit("zset");
    reveal_strlit("hash");
    reveal_strlit("geo");
    reveal_strlit("hll");
    reveal_strlit("hyperloglog");
    reveal_strlit("module");
    reveal_strlit("stream");
    let l = text::lower_text(s);
    assert(l == "string"@ ==> l.len() == 6 && l[3] == 'i');
    assert(l == "list"@ ==> l.len() == 4 && l[0] == 'l');
    assert(l == "set"@ ==> l.len() == 3 && l[0] == 's');
    assert(l == "zset"@ ==> l.len() == 4 && l[0] == 'z');
    assert(l == "hash"@ ==> l.len() == 4 && l[0] == 'h');
    assert(l == "geo"@ ==> l.len() == 3 && l[0] == 'g');
    assert(l == "hll"@ ==> l.len() == 3 && l[0] == 'h');
    assert(l == "hyperloglog"@ ==> l.len() == 11);
    assert(l == "module"@ ==> l.len() == 6 && l[3] == 'u');
    assert(l == "stream"@ ==> l.len() == 6 && l[3] == 'e');
}

/// The types of two lists of names are those of both together; a list with a name that stands
/// for none is refused, whatever follows.
pub proof fn law_types_in_lists(a: Seq<Seq<char>>, b: Seq<Seq<char>>, name: Seq<char>)
    ensures
        tags_of(a) is Ok && tags_of(b) is Ok ==> tags_of(a + b) == Ok::<Set<TypeTag>, Seq<char>>(
            tags_of(a)->Ok_0.union(tags_of(b)->Ok_0),
        ),
        tags_of(a) is Err ==> tags_of(a + b) == tags_of(a),
        tags_of(a) is Ok && tags_of(b) is Err ==> tags_of(a + b) == tags_of(b),
        tag_named(text::trimmed(name)) is Some ==> tags_of(seq![name]) == Ok::<
            Set<TypeTag>,
            Seq<char>,
        >(set![tag_named(text::trimmed(name))->0]),
        tag_named(text::trimmed(name)) is None ==> tags_of(seq![name]) is Err,
    decreases b.len(),
{
    let one = seq![name];
    assert(one.drop_last() == Seq::<Seq<char>>::empty());
    assert(tags_of(one.drop_last()) == Ok::<Set<TypeTag>, Seq<char>>(Set::empty()));
    if b.len() == 0 {
        assert(a + b == a);
        if tags_of(a) is Ok {
            assert(tags_of(a)->Ok_0.union(Set::empty()) == tags_of(a)->Ok_0);
        }
    } else {
        let front = b.drop_last();
        law_types_in_lists(a, front, name);
        assert((a + b).drop_last() == a + front);
        assert((a + b).last() == b.last());
        if tags_of(a) is Ok && tags_of(b) is Ok {
            let t = tag_named(text::trimmed(b.last()))->0;
            assert(tags_of(a)->Ok_0.union(tags_of(front)->Ok_0).insert(t) == tags_of(
                a,
            )->Ok_0.union(tags_of(front)->Ok_0.insert(t)));
        }
    }
}

/// The heuristics of two lists of names are those of both together; a list with a name that
/// stands for none is refused, whatever follows.
pub proof fn law_heuristics_in_lists(a: Seq<Seq<char>>, b: Seq<Seq<char>>, name: Seq<char>)
    ensures
        heuristics_of(a) is Ok && heuristics_of(b) is Ok ==> heuristics_of(a + b) == Ok::<
            Set<Heuristic>,
            Seq<char>,
        >(heuristics_of(a)->Ok_0.union(heuristics_of(b)->Ok_0)),
        heuristics_of(a) is Err ==> heuristics_of(a + b) == heuristics_of(a),
        heuristics_of(a) is Ok && heuristics_of(b) is Err ==> heuristics_of(a + b)
            == heuristics_of(b),
        ({
            let l = text::lower_text(text::trimmed(name));
            &&& l == "none"@ ==> heuristics_of(seq![name]) == Ok::<Set<Heuristic>, Seq<char>>(
                Set::empty(),
            )
            &&& l == "geo"@ || l == "all"@ ==> heuristics_of(seq![name]) == Ok::<
                Set<Heuristic>,
                Seq<char>,
            >(set![Heuristic::Geo])
            &&& l != "none"@ && l != "geo"@ && l != "all"@ ==> heuristics_of(seq![name]) is Err
        }),
    decreases b.len(),
{
    reveal_strlit("none");
    reveal_strlit("geo");
    reveal_strlit("all");
    assert("geo"@[0] == 'g' && "all"@[0] == 'a');
    let one = seq![name];
    assert(one.drop_last() == Seq::<Seq<char>>::empty());
    assert(heuristics_of(one.drop_last()) == Ok::<Set<Heuristic>, Seq<char>>(Set::empty()));
    if let Ok(found) = heuristics_in(text::trimmed(name)) {
        assert(Set::<Heuristic>::empty().union(found) == found);
    }
    if b.len() == 0 {
        assert(a + b == a);
        if heuristics_of(a) is Ok {
            assert(heuristics_of(a)->Ok_0.union(Set::empty()) == heuristics_of(a)->Ok_0);
        }
    } else {
        let front = b.drop_last();
        law_heuristics_in_lists(a, front, name);
        assert((a + b).drop_last() == a + front);
        assert((a + b).last() == b.last());
        if heuristics_of(a) is Ok && heuristics_of(b) is Ok {
            let more = heuristics_in(text::trimmed(b.last()))->Ok_0;
            let x = heuristics_of(a)->Ok_0;
            let y = heuristics_of(front)->Ok_0;
            assert(x.union(y).union(more) == x.union(y.union(more)));
        }
    }
}

// ---- Files ----

/// The shards of a type are the files that an export of that type has written for a shard.
pub proof fn law_shard_names(tag: TypeTag, name: Seq<char>)
    ensures
        is_shard_name(tag, name) <==> exists|s: Seq<char>|
            name == #[trigger] file_name(tag, Some(s), "parquet"@),
{
    reveal_strlit(".");
    reveal_strlit(".parquet");
    reveal_strlit("parquet");
    assert("."@ + "parquet"@ == ".parquet"@);
    let head = tag.label() + "."@;
    if is_shard_name(tag, name) {
        assert(name.len() >= head.len() && name.len() >= 8);
        if name.len() < head.len() + 8 {
            // The two overlap in more than nothing: only the dot can be shared.
            lemma_overlap(tag, name);
        }
        let s = name.subrange(head.len() as int, name.len() - 8);
        assert(name == head + s + ".parquet"@) by {
            assert(name.take(head.len() as int) == head);
            assert(name.skip(name.len() - 8) == ".parquet"@);
            assert(name == name.take(head.len() as int) + s + name.skip(name.len() - 8));
        }
        assert(file_name(tag, Some(s), "parquet"@) == name);
    }
    if exists|s: Seq<char>| name == #[trigger] file_name(tag, Some(s), "parquet"@) {
        let s = choose|s: Seq<char>| name == #[trigger] file_name(tag, Some(s), "parquet"@);
        crate::io::law_export_is_found(tag, Some(s));
        assert(name.len() == tag.label().len() + 1 + s.len() + 8);
        assert(base_name(tag).len() == tag.label().len() + 8);
    }
}

proof fn lemma_overlap(tag: TypeTag, name: Seq<char>)
    requires
        text::has_prefix(name, tag.label() + "."@),
        text::has_suffix(name, ".parquet"@),
        name.len() < tag.label().len() + 9,
    ensures
        name == base_name(tag),
{
    reveal_strlit(".");
    reveal_strlit(".parquet");
    crate::io::lemma_label_has_no_dot(tag);
    let n = tag.label().len() as int;
    let head = tag.label() + "."@;
    assert(name[n] == '.') by {
        assert(name.take(n + 1)[n] == head[n]);
    }
    let k = name.len() - 8;
    let end = name.skip(k);
    assert(end.len() == 8 && end == ".parquet"@);
    assert(end[0] == name[k]);
    assert(name[k] == '.');
    if k < n {
        assert(name.take(n + 1)[k] == head[k]);
        assert(head[k] == tag.label()[k]);
    }
    assert(k == n);
    assert(name == tag.label() + ".parquet"@) by {
        assert(name.take(n) == tag.label()) by {
            assert forall|i: int| 0 <= i < n implies name.take(n)[i] == tag.label()[i] by {
                assert(name.take(n + 1)[i] == head[i]);
            }
        }
        assert(name == name.take(n) + end);
    }
}

/// The Parquet files of a type are its own file, where there is one, and before all others,
/// and those names of the directory that are its shards, in their order.
pub proof fn law_files_of_a_type(tag: TypeTag, base: bool, names: Seq<Seq<char>>)
    ensures
        shards_in(tag, names) == names.filter(|name: Seq<char>| is_shard_name(tag, name)),
        parquet_names(tag, base, names).len() == shards_in(tag, names).len() + if base {
            1nat
        } else {
            0
        },
        base ==> parquet_names(tag, base, names)[0] == file_name(tag, None, "parquet"@)
            && parquet_names(tag, base, names).skip(1) == shards_in(tag, names),
        !base ==> parquet_names(tag, base, names) == shards_in(tag, names),
    decreases names.len(),
{
    reveal(Seq::filter);
    crate::io::law_export_is_found(tag, None);
    if names.len() > 0 {
        law_files_of_a_type(tag, base, names.drop_last());
    }
    if base {
        assert(parquet_names(tag, base, names).skip(1) == shards_in(tag, names));
    }
}

/// The output directory is the one that was asked for. Where none was, it has a name: that of
/// the input file without its extension, and `rdb_export` where there is no such name.
pub proof fn law_output_directory(
    output: Option<Seq<char>>,
    file: Seq<char>,
    stem: Option<Seq<char>>,
)
    ensures
        output is Some ==> directory_for(output, file, stem) == output->0,
        output is None ==> directory_for(output, file, stem).len() > 0,
        output is None && file != "-"@ && stem is Some && stem->0.len() > 0 ==> directory_for(
            output,
            file,
            stem,
        ) == stem->0,
        output is None && (file == "-"@ || stem is None || stem->0.len() == 0) ==> directory_for(
            output,
            file,
            stem,
        ) == "rdb_export"@,
{
    reveal_strlit("rdb_export");
}

/// Arguments are in order exactly if the types, the shard identifier and the heuristics are.
pub proof fn law_usage_errors(args: ExportArgs)
    ensures
        usage_error(args) is None <==> (types_asked(text_of(args.type_names)) is Ok && (
        args.shard_id is Some ==> shard_id_allowed(args.shard_id->0@)) && heuristics_named(
            args.heuristic@,
        ) is Ok),
{
}

// ---- Columns ----

/// A column may hold nulls only if there is an entry whose first row has a null there.
pub proof fn law_nullable_columns(tag: TypeTag, j: int) -> (e: RdbEntryV)
    requires
        0 <= j < columns_of(tag).len(),
        columns_of(tag)[j].nullable,
    ensures
        rows_of(tag, e).len() > 0,
        rows_of(tag, e)[0].cells[j] == Cell::Null,
{
    let module = ModuleDataV {
        module_name: Seq::empty(),
        module_version: 0,
        values: seq![
            if j == 14 {
                ModuleValueV::UnsignedInt(0)
            } else {
                ModuleValueV::String(Seq::empty())
            },
        ],
    };
    let stream = StreamDataV { entries: Seq::empty(), length: 0, last_id: Seq::empty() };
    let value = match tag {
        TypeTag::String | TypeTag::HyperLogLog => RdbValueV::String(Seq::empty()),
        TypeTag::List => RdbValueV::List(Seq::empty()),
        TypeTag::UnorderedSet => RdbValueV::UnorderedSet(Seq::empty()),
        TypeTag::SortedSet | TypeTag::Geo => RdbValueV::SortedSet(Seq::empty()),
        TypeTag::Hash => RdbValueV::Hash(Seq::empty()),
        TypeTag::Module => RdbValueV::Module(module),
        TypeTag::Stream => RdbValueV::Stream(stream),
    };
    RdbEntryV {
        db: 0,
        key: Seq::empty(),
        value,
        type_code: 0,
        expiry_ms: None,
        lru_idle_secs: None,
        lfu_frequency: None,
        total_elements: None,
        element_offset: None,
    }
}

// ---- Errors ----

/// The exit code tells the class of an error.
pub proof fn law_exit_codes(e: CliErrorV)
    ensures
        e.code() == 2 <==> e is Usage,
        e.code() == 3 <==> e is Io || e is IoAt,
        e.code() == 4 <==> e is Corrupt,
        e.code() == 5 <==> e is ValidationFailed,
        e.code() == 1 <==> e is Convert || e is Message,
{
}

/// An error of the arguments or of a validation has nothing behind it. Any other has its own
/// text first, and an input or output error at the bottom has its text last.
pub proof fn law_causes(e: CliErrorV)
    ensures
        e.causes().len() == 0 <==> e is Usage || e is ValidationFailed,
        e.causes().len() > 0 ==> e.causes()[0] == e.text(),
        e is IoAt ==> e.causes().last() == e->IoAt_0.source.text() && e.causes().len() == 2,
        e is Corrupt && e->Corrupt_0 is Io ==> e.causes().last() == e->Corrupt_0->Io_0.text()
            && e.causes().len() == 2,
        e is Corrupt && !(e->Corrupt_0 is Io) ==> e.causes().len() == 1,
        e is Convert && e->Convert_0 is Parser ==> e.causes()[1] == e->Convert_0->Parser_0.text(),
{
}

/// Whether an error comes from reading or writing.
pub open spec fn is_io(e: ArrowConvertErrorV) -> bool {
    match e {
        ArrowConvertErrorV::Io(_) => true,
        ArrowConvertErrorV::Parser(p) => p is Io,
        _ => false,
    }
}

/// An error of reading or writing is raised as `OSError`, one of the input as `ValueError`,
/// and one of the conversion as `RuntimeError`. It makes no difference whether a parser error
/// comes by itself or through a conversion.
pub proof fn law_exceptions(rdb: RdbErrorV, e: ArrowConvertErrorV)
    ensures
        rdb_exception(rdb).0 == ExceptionKind::OsError <==> rdb is Io,
        rdb_exception(rdb).0 == ExceptionKind::ValueError <==> !(rdb is Io),
        !(rdb is Io) ==> rdb_exception(rdb).1 == rdb.text(),
        convert_exception(ArrowConvertErrorV::Parser(rdb)) == rdb_exception(rdb),
        convert_exception(e).0 == ExceptionKind::OsError <==> is_io(e),
        convert_exception(e).0 == ExceptionKind::ValueError <==> e is Parser && !is_io(e),
        convert_exception(e).0 == ExceptionKind::RuntimeError ==> convert_exception(e).1
            == e.text(),
{
}

// ---- Plans and patterns ----

/// What an export does is what its arguments ask for: only entries of the database that is
/// asked for pass, only the types that are asked for are written, and batches are as large as
/// is asked for, or 64 MiB. The heuristics are the same for what passes and for what is written.
pub proof fn law_plan_follows_arguments(plan: ExportPlan, args: ExportArgs, e: RdbEntryV)
    requires
        usage_error(args) is None,
        is_plan_for(plan, args),
    ensures
        args.db is Some && plan.filter.may_select(e) ==> Some(e.db) == args.db,
        args.type_names is None <==> plan.output_tags is None,
        args.type_names is Some ==> tags_of(text::comma_pieces(args.type_names->0@)) == Ok::<
            Set<TypeTag>,
            Seq<char>,
        >(plan.output_tags->0@) && plan.filter.type_tags is Some && plan.filter.type_tags->0@
            == plan.output_tags->0@,
        args.key_pattern is Some <==> plan.filter.key_pattern is Some,
        args.key_pattern is Some ==> plan.filter.key_pattern->0@ == args.key_pattern->0@,
        heuristics_named(args.heuristic@) == Ok::<Set<Heuristic>, Seq<char>>(
            plan.config.heuristics@,
        ),
        plan.filter.heuristics@ == plan.config.heuristics@,
        plan.config.batch_size == args.batch_size,
        args.batch_bytes is Some ==> plan.config.batch_bytes == args.batch_bytes,
        args.batch_bytes is None ==> plan.config.batch_bytes is Some
            && plan.config.batch_bytes->0 == 64 * 1024 * 1024,
        plan.config.max_entry_bytes == args.max_entry_bytes,
{
    law_filter_by_database(plan.filter, e, 0);
}

proof fn lemma_plain_pattern(pattern: Seq<char>)
    requires
        !pattern.contains('{'),
    ensures
        scanned(pattern).open == Some(0nat),
        scanned(pattern).within is None,
        scanned(pattern).ends,
        opening_braces(pattern) == 0,
    decreases pattern.len(),
{
    if pattern.len() > 0 {
        let front = pattern.drop_last();
        assert(!front.contains('{')) by {
            if front.contains('{') {
                let i = choose|i: int| 0 <= i < front.len() && front[i] == '{';
                assert(pattern[i] == '{');
            }
        }
        assert(pattern.last() != '{') by {
            assert(pattern[pattern.len() - 1] == pattern.last());
        }
        lemma_plain_pattern(front);
    }
}

/// Keys are matched against every pattern without braces, and keys without separators against
/// every pattern, up to 4 GiB of either and 2 billion braces.
pub proof fn law_patterns_that_are_taken(pattern: Seq<char>, s: Seq<char>)
    requires
        crate::rows::text_size(pattern) <= u32::MAX,
        crate::rows::text_size(s) < u32::MAX,
    ensures
        !pattern.contains('{') ==> glob_can_take(pattern, s),
        !s.contains('/') && !s.contains('\\') && opening_braces(pattern) < i32::MAX
            ==> glob_can_take(pattern, s),
{
    if !pattern.contains('{') {
        lemma_plain_pattern(pattern);
    }
}

// ---- Error texts ----

proof fn lemma_same_tail(a: Seq<char>, x: Seq<char>, y: Seq<char>)
    requires
        a + x == a + y,
    ensures
        x == y,
{
    assert((a + x).skip(a.len() as int) == x);
    assert((a + y).skip(a.len() as int) == y);
}

proof fn lemma_same_decimal(m: nat, n: nat)
    requires
        text::dec(m as int) == text::dec(n as int),
    ensures
        m == n,
{
    law_decimal(m);
    law_decimal(n);
}

/// The text of an error tells it: errors of the parser with the same text are of the same kind,
/// and say the same of what was found.
pub proof fn law_error_texts_differ(a: RdbErrorV, b: RdbErrorV)
    requires
        a.text() == b.text(),
    ensures
        a is Io <==> b is Io,
        a is Io ==> a->Io_0.text() == b->Io_0.text(),
        !(a is Io) ==> a == b,
{
    reveal_strlit("I/O error: ");
    reveal_strlit("invalid RDB magic string");
    reveal_strlit("unsupported RDB version: ");
    reveal_strlit("corrupt RDB data: ");
    reveal_strlit("unknown RDB type code: ");
    let x = a.text();
    let y = b.text();
    assert(a is Io ==> x[0] == 'I');
    assert(b is Io ==> y[0] == 'I');
    assert(a is InvalidMagic ==> x[0] == 'i');
    assert(b is InvalidMagic ==> y[0] == 'i');
    assert(a is CorruptData ==> x[0] == 'c');
    assert(b is CorruptData ==> y[0] == 'c');
    assert(a is UnsupportedVersion ==> x[0] == 'u' && x[2] == 's');
    assert(b is UnsupportedVersion ==> y[0] == 'u' && y[2] == 's');
    assert(a is UnknownType ==> x[0] == 'u' && x[2] == 'k');
    assert(b is UnknownType ==> y[0] == 'u' && y[2] == 'k');
    match (a, b) {
        (RdbErrorV::Io(e), RdbErrorV::Io(f)) => {
            lemma_same_tail("I/O error: "@, e.text(), f.text());
        },
        (RdbErrorV::UnsupportedVersion(v), RdbErrorV::UnsupportedVersion(w)) => {
            lemma_same_tail(
                "unsupported RDB version: "@,
                text::dec(v as int),
                text::dec(w as int),
            );
            lemma_same_decimal(v as nat, w as nat);
        },
        (RdbErrorV::CorruptData(m), RdbErrorV::CorruptData(n)) => {
            lemma_same_tail("corrupt RDB data: "@, m, n);
        },
        (RdbErrorV::UnknownType(t), RdbErrorV::UnknownType(u)) => {
            lemma_same_tail("unknown RDB type code: "@, text::dec(t as int), text::dec(u as int));
            lemma_same_decimal(t as nat, u as nat);
        },
        _ => {},
    }
}

/// The text of an error ends in the text of what lies behind it.
pub proof fn law_error_texts_end_in_causes(c: IoContextV, rdb: RdbErrorV, e: ArrowConvertErrorV)
    ensures
        text::has_suffix(c.text(), c.source.text()),
        text::has_prefix(c.text(), c.path),
        rdb is Io ==> text::has_suffix(rdb.text(), rdb->Io_0.text()),
        rdb is CorruptData ==> text::has_suffix(rdb.text(), rdb->CorruptData_0),
        e is Parser ==> text::has_suffix(e.text(), e->Parser_0.text()),
        e is Arrow ==> text::has_suffix(e.text(), e->Arrow_0),
        e is Parquet ==> text::has_suffix(e.text(), e->Parquet_0),
        e is Io ==> text::has_suffix(e.text(), e->Io_0.text()),
{
    lemma_ends_in(c.path + ": "@, c.source.text());
    assert(c.text().take(c.path.len() as int) == c.path);
    match rdb {
        RdbErrorV::Io(io) => {
            lemma_ends_in("I/O error: "@, io.text());
        },
        RdbErrorV::CorruptData(m) => {
            lemma_ends_in("corrupt RDB data: "@, m);
        },
        _ => {},
    }
    match e {
        ArrowConvertErrorV::Parser(p) => {
            lemma_ends_in("RDB parser error: "@, p.text());
        },
        ArrowConvertErrorV::Arrow(m) => {
            lemma_ends_in("Arrow error: "@, m);
        },
        ArrowConvertErrorV::Parquet(m) => {
            lemma_ends_in("Parquet error: "@, m);
        },
        ArrowConvertErrorV::Io(io) => {
            lemma_ends_in("I/O error: "@, io.text());
        },
        ArrowConvertErrorV::BatchFull => {},
    }
}

proof fn lemma_ends_in(a: Seq<char>, b: Seq<char>)
    ensures
        text::has_suffix(a + b, b),
{
    assert((a + b).skip((a + b).len() - b.len()) == b);
}

} // verus!
