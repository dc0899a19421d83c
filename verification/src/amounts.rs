//! What users type and are told: numbers, sizes, codecs, shard identifiers, reports and
//! listings.

use crate::args::{digits_read, positive_read, size_read, FormatArg};
use crate::columns::ColumnV;
use crate::export::{exports_among, is_export_name, shard_id_allowed, warning_text};
use crate::listing::{column_line, listing};
use crate::numerals::law_decimal;
use crate::schema::{all_tags, columns_of, heuristics_text, Heuristic, TypeTag};
use crate::summarize::{TagMap, TypeCount};
use crate::text;
use crate::text::{all_digits, dec, digits_value};
use crate::types::lookup;
use crate::validate::{grouped, passed, reports, rows_together, table_line, Status, TypeReport};
use crate::writer::{codec_named, metadata_at, Compression};
use vstd::prelude::*;

verus! {

// ---- Numbers ----

proof fn lemma_digits_read(s: Seq<char>)
    requires
        all_digits(s),
    ensures
        digits_value(s) <= usize::MAX ==> digits_read(s) == Ok::<nat, Seq<char>>(digits_value(s)),
        digits_value(s) > usize::MAX ==> digits_read(s) == Err::<nat, Seq<char>>(
            "number too large to fit in target type"@,
        ),
    decreases s.len(),
{
    if s.len() > 0 {
        let front = s.drop_last();
        assert forall|i: int| 0 <= i < front.len() implies '0' <= #[trigger] front[i] <= '9' by {
            assert(front[i] == s[i]);
        }
        assert('0' <= s[s.len() - 1] <= '9');
        lemma_digits_read(front);
    }
}

/// A number that is typed in decimal, with a plus sign or without, is that number. Zero and
/// numbers that are too large are refused, each with its own words.
pub proof fn law_typed_numbers(n: nat)
    ensures
        0 < n <= usize::MAX ==> positive_read(dec(n as int)) == Ok::<nat, Seq<char>>(n)
            && positive_read("+"@ + dec(n as int)) == Ok::<nat, Seq<char>>(n),
        n > usize::MAX ==> positive_read(dec(n as int)) == Err::<nat, Seq<char>>(
            "number too large to fit in target type"@,
        ),
        n == 0 ==> positive_read(dec(n as int)) == Err::<nat, Seq<char>>("value must be > 0"@),
{
    let t = dec(n as int);
    lemma_typed(n);
    lemma_digits_read(t);
    reveal_strlit("+");
    let plus = "+"@ + t;
    assert(plus.skip(1) == t);
    assert(plus[0] == '+');
}

proof fn lemma_typed(n: nat)
    ensures
        ({
            let t = dec(n as int);
            &&& t.len() > 0
            &&& all_digits(t)
            &&& digits_value(t) == n
            &&& t[0] != '+'
        }),
{
    law_decimal(n);
    let t = dec(n as int);
    assert('0' <= t[0] <= '9');
}

/// What a unit stands for: a letter, in either case, for a power of 1024.
pub open spec fn unit_bytes(letter: char) -> nat {
    if letter == 'k' || letter == 'K' {
        1024
    } else if letter == 'm' || letter == 'M' {
        1024 * 1024
    } else {
        1024 * 1024 * 1024
    }
}

/// A size that is typed is that many bytes, or that many units of them. It is refused where
/// it comes to nothing or to too many.
pub proof fn law_typed_sizes(n: nat, letter: char, b: char)
    requires
        letter == 'k' || letter == 'K' || letter == 'm' || letter == 'M' || letter == 'g' || letter
            == 'G',
        b == 'b' || b == 'B',
    ensures
        0 < n <= usize::MAX ==> size_read(dec(n as int)) == Ok::<nat, Seq<char>>(n),
        0 < n && n * unit_bytes(letter) <= usize::MAX ==> size_read(
            dec(n as int).push(letter).push(b),
        ) == Ok::<nat, Seq<char>>(n * unit_bytes(letter)),
        n * unit_bytes(letter) > usize::MAX || n == 0 ==> size_read(
            dec(n as int).push(letter).push(b),
        ) is Err,
{
    let t = dec(n as int);
    lemma_typed(n);
    law_typed_numbers(n);
    reveal_strlit("kb");
    reveal_strlit("mb");
    reveal_strlit("gb");
    // Without a unit.
    let l = text::lower_text(t);
    assert(l.last() != 'b') by {
        assert('0' <= t[t.len() - 1] <= '9');
    }
    assert(!text::has_suffix(l, "kb"@)) by {
        assert(l.len() >= 2 ==> l.skip(l.len() - 2)[1] == l.last());
    }
    assert(!text::has_suffix(l, "mb"@)) by {
        assert(l.len() >= 2 ==> l.skip(l.len() - 2)[1] == l.last());
    }
    assert(!text::has_suffix(l, "gb"@)) by {
        assert(l.len() >= 2 ==> l.skip(l.len() - 2)[1] == l.last());
    }
    assert(n * 1 == n);
    // With one.
    let full = t.push(letter).push(b);
    let low = text::lower_text(full);
    let end = low.skip(low.len() - 2);
    assert(end.len() == 2 && end[0] == text::lower(letter) && end[1] == text::lower(b));
    assert(text::lower(b) == 'b');
    assert(full.take(full.len() - 2) == t);
    if letter == 'k' || letter == 'K' {
        assert(end == "kb"@);
    } else if letter == 'm' || letter == 'M' {
        assert(end == "mb"@);
        assert(end[0] != "kb"@[0]);
    } else {
        assert(end == "gb"@);
        assert(end[0] != "kb"@[0] && end[0] != "mb"@[0]);
    }
    let unit = unit_bytes(letter);
    assert(n > usize::MAX ==> n * unit > usize::MAX) by (nonlinear_arith)
        requires
            unit >= 1,
    ;
    assert(n * unit <= usize::MAX ==> n <= usize::MAX);
}

// ---- Codecs and metadata ----

/// The name of a codec.
pub open spec fn codec_name(c: Compression) -> Seq<char> {
    match c {
        Compression::Zstd => "zstd"@,
        Compression::Snappy => "snappy"@,
        Compression::Lz4 => "lz4"@,
        Compression::Lz4Raw => "lz4-raw"@,
        Compression::Gzip => "gzip"@,
        Compression::Uncompressed => "none"@,
    }
}

/// Every codec is found by its name, in letters of either case, and by no other name; but
/// `lz4_raw` stands for `lz4-raw`.
pub proof fn law_codecs_by_name(c: Compression, s: Seq<char>)
    ensures
        text::lower_text(s) == codec_name(c) ==> codec_named(s) == Some(c),
        codec_named(s) == Some(c) ==> text::lower_text(s) == codec_name(c) || text::lower_text(s)
            == "lz4_raw"@,
{
    reveal_strlit("zstd");
    reveal_strlit("snappy");
    reveal_strlit("lz4");
    reveal_strlit("lz4-raw");
    reveal_strlit("lz4_raw");
    reveal_strlit("gzip");
    reveal_strlit("none");
    assert("zstd"@[0] == 'z' && "snappy"@[0] == 's' && "lz4"@[0] == 'l' && "gzip"@[0] == 'g'
        && "none"@[0] == 'n' && "lz4-raw"@[0] == 'l' && "lz4_raw"@[0] == 'l');
    assert("lz4"@.len() == 3 && "lz4-raw"@.len() == 7 && "lz4_raw"@.len() == 7);
}

/// The metadata of an exported file holds every AUX field under its name behind `rdb.`, but
/// for two names that the export keeps for itself, and nothing that does not start so.
pub proof fn law_metadata_holds_aux_fields(
    aux: Map<Seq<char>, Seq<char>>,
    heuristics: Set<Heuristic>,
    name: Seq<char>,
    key: Seq<char>,
)
    ensures
        name != "exported_by"@ && name != "heuristics"@ ==> metadata_at(
            aux,
            heuristics,
            "rdb."@ + name,
        ) == lookup(aux, name),
        metadata_at(aux, heuristics, "rdb."@ + "exported_by"@) == Some("valkey-rdb-tools"@),
        metadata_at(aux, heuristics, "rdb."@ + "heuristics"@) == Some(heuristics_text(heuristics)),
        (forall|n: Seq<char>| key != #[trigger] ("rdb."@ + n)) ==> metadata_at(
            aux,
            heuristics,
            key,
        ) is None,
{
    reveal_strlit("rdb.");
    reveal_strlit("rdb.heuristics");
    reveal_strlit("rdb.exported_by");
    reveal_strlit("heuristics");
    reveal_strlit("exported_by");
    assert("rdb."@ + "heuristics"@ == "rdb.heuristics"@);
    assert("rdb."@ + "exported_by"@ == "rdb.exported_by"@);
    assert("rdb.heuristics"@.len() != "rdb.exported_by"@.len());
    let full = "rdb."@ + name;
    assert(full.take(4) == "rdb."@);
    assert(full.skip(4) == name);
    assert("rdb.heuristics"@.skip(4) == "heuristics"@);
    assert("rdb.exported_by"@.skip(4) == "exported_by"@);
    if text::has_prefix(key, "rdb."@) {
        assert(key == "rdb."@ + key.skip(4));
    }
    if key == "rdb.heuristics"@ {
        assert(key == "rdb."@ + "heuristics"@);
    }
    if key == "rdb.exported_by"@ {
        assert(key == "rdb."@ + "exported_by"@);
    }
}

// ---- Shards and outputs ----

/// A shard identifier is made of letters, digits, hyphens and underscores, and of at least
/// one of them: joining two gives one, and so does taking one apart.
pub proof fn law_shard_ids(a: Seq<char>, b: Seq<char>, c: char)
    ensures
        !shard_id_allowed(Seq::empty()),
        shard_id_allowed(seq![c]) <==> ('a' <= c <= 'z' || 'A' <= c <= 'Z' || '0' <= c <= '9' || c
            == '-' || c == '_'),
        a.len() > 0 && b.len() > 0 ==> (shard_id_allowed(a + b) <==> shard_id_allowed(a)
            && shard_id_allowed(b)),
{
    assert(seq![c][0] == c);
    if a.len() > 0 && b.len() > 0 {
        if shard_id_allowed(a + b) {
            assert forall|i: int| 0 <= i < a.len() implies crate::export::shard_char(
                #[trigger] a[i],
            ) by {
                assert((a + b)[i] == a[i]);
            }
            assert forall|i: int| 0 <= i < b.len() implies crate::export::shard_char(
                #[trigger] b[i],
            ) by {
                assert((a + b)[a.len() + i] == b[i]);
            }
        }
    }
}

/// The files that an export is warned about are counted by their names: those that end in the
/// extension of a format.
pub proof fn law_exports_are_counted(names: Seq<Seq<char>>)
    ensures
        exports_among(names) == names.filter(
            |name: Seq<char>|
                exists|f: FormatArg, start: Seq<char>| name == #[trigger] (start + "."@ + f.ext()),
        ).len(),
    decreases names.len(),
{
    reveal(Seq::filter);
    let p = |name: Seq<char>|
        exists|f: FormatArg, start: Seq<char>| name == #[trigger] (start + "."@ + f.ext());
    if names.len() > 0 {
        law_exports_are_counted(names.drop_last());
        lemma_export_name(names.last());
        names.drop_last().lemma_filter_len(p);
    }
}

proof fn lemma_export_name(name: Seq<char>)
    ensures
        is_export_name(name) <==> exists|f: FormatArg, start: Seq<char>|
            name == #[trigger] (start + "."@ + f.ext()),
{
    reveal_strlit(".");
    reveal_strlit(".parquet");
    reveal_strlit(".arrow");
    reveal_strlit(".csv");
    reveal_strlit(".json");
    reveal_strlit("parquet");
    reveal_strlit("arrow");
    reveal_strlit("csv");
    reveal_strlit("json");
    assert("."@ + FormatArg::Parquet.ext() == ".parquet"@);
    assert("."@ + FormatArg::ArrowIpc.ext() == ".arrow"@);
    assert("."@ + FormatArg::Csv.ext() == ".csv"@);
    assert("."@ + FormatArg::Json.ext() == ".json"@);
    if is_export_name(name) {
        let f = if text::has_suffix(name, ".parquet"@) {
            FormatArg::Parquet
        } else if text::has_suffix(name, ".arrow"@) {
            FormatArg::ArrowIpc
        } else if text::has_suffix(name, ".csv"@) {
            FormatArg::Csv
        } else {
            FormatArg::Json
        };
        let end = "."@ + f.ext();
        let start = name.take(name.len() - end.len());
        assert(name == start + "."@ + f.ext()) by {
            assert(name == start + end);
            assert(start + end == start + "."@ + f.ext());
        }
    }
    if exists|f: FormatArg, start: Seq<char>| name == #[trigger] (start + "."@ + f.ext()) {
        let (f, start) = choose|f: FormatArg, start: Seq<char>|
            name == #[trigger] (start + "."@ + f.ext());
        let end = "."@ + f.ext();
        assert(name == start + end);
        assert(name.skip(name.len() - end.len()) == end);
    }
}

// ---- Validation ----

/// The rows of files add up: those of two groups of files are those of both together. A
/// negative count, and nothing else, is refused.
pub proof fn law_rows_of_files(
    a: Seq<(Seq<char>, i64)>,
    b: Seq<(Seq<char>, i64)>,
    path: Seq<char>,
    rows: i64,
)
    ensures
        rows >= 0 ==> rows_together(seq![(path, rows)]) == Ok::<nat, Seq<char>>(rows as nat),
        rows_together(a) is Ok && rows_together(b) is Ok ==> rows_together(a + b) == Ok::<
            nat,
            Seq<char>,
        >((rows_together(a)->Ok_0 + rows_together(b)->Ok_0) as nat),
        rows_together(a) is Ok <==> forall|i: int| 0 <= i < a.len() ==> (#[trigger] a[i]).1 >= 0,
    decreases a.len() + b.len(),
{
    let one = seq![(path, rows)];
    assert(one.drop_last() == Seq::<(Seq<char>, i64)>::empty());
    assert(rows_together(one.drop_last()) == Ok::<nat, Seq<char>>(0));
    if b.len() == 0 {
        assert(a + b == a);
        if a.len() > 0 {
            let front = a.drop_last();
            law_rows_of_files(front, b, path, rows);
            assert(forall|i: int| 0 <= i < front.len() ==> #[trigger] front[i] == a[i]);
            if forall|i: int| 0 <= i < a.len() ==> (#[trigger] a[i]).1 >= 0 {
                assert(a[a.len() - 1].1 >= 0);
                assert forall|i: int| 0 <= i < front.len() implies (#[trigger] front[i]).1 >= 0 by {
                    assert(a[i].1 >= 0);
                }
            }
            if rows_together(a) is Ok {
                assert forall|i: int| 0 <= i < a.len() implies (#[trigger] a[i]).1 >= 0 by {
                    if i < front.len() {
                        assert(front[i].1 >= 0);
                    }
                }
            }
        }
    } else {
        law_rows_of_files(a, b.drop_last(), path, rows);
        assert((a + b).drop_last() == a + b.drop_last());
        assert((a + b).last() == b.last());
    }
}

/// How often the counts match is the number of lines that say so.
pub proof fn law_passes_are_counted(lines: Seq<TypeReport>)
    ensures
        passed(lines) == lines.filter(|line: TypeReport| line.status == Status::Match).len(),
    decreases lines.len(),
{
    reveal(Seq::filter);
    if lines.len() > 0 {
        law_passes_are_counted(lines.drop_last());
    }
}

/// Whether a line says of a type what the two counts are and how they compare.
pub open spec fn tells(line: TypeReport, rdb: Option<TypeCount>, parquet: Option<u64>) -> bool {
    &&& line.rdb == rdb
    &&& line.parquet == parquet
    &&& line.status == Status::Match <==> (rdb is Some && parquet is Some && rdb->0.rows
        == parquet->0)
    &&& line.status == Status::Mismatch <==> (rdb is Some && parquet is Some && rdb->0.rows
        != parquet->0)
    &&& line.status == Status::Missing <==> (rdb is Some && parquet is None)
    &&& line.status == Status::Extra <==> (rdb is None && parquet is Some)
}

proof fn lemma_report_lines(rdb: TagMap<TypeCount>, parquet: TagMap<u64>, n: int)
    requires
        0 <= n <= 9,
    ensures
        ({
            let lines = reports(rdb, parquet, n);
            &&& forall|i: int|
                0 <= i < lines.len() ==> (#[trigger] lines[i]).tag.rank() < n && tells(
                    lines[i],
                    rdb.at(lines[i].tag),
                    parquet.at(lines[i].tag),
                ) && (rdb.at(lines[i].tag) is Some || parquet.at(lines[i].tag) is Some)
            &&& forall|i: int, j: int|
                0 <= i < j < lines.len() ==> (#[trigger] lines[i]).tag.rank() < (
                #[trigger] lines[j]).tag.rank()
            &&& forall|t: TypeTag|
                (#[trigger] t.rank()) < n && (rdb.at(t) is Some || parquet.at(t) is Some)
                    ==> exists|i: int| 0 <= i < lines.len() && (#[trigger] lines[i]).tag == t
        }),
    decreases n,
{
    if n > 0 {
        lemma_report_lines(rdb, parquet, n - 1);
        let tag = all_tags()[n - 1];
        assert(tag.rank() == n - 1);
        let before = reports(rdb, parquet, n - 1);
        let lines = reports(rdb, parquet, n);
        assert forall|t: TypeTag|
            (#[trigger] t.rank()) < n && (rdb.at(t) is Some || parquet.at(t)
                is Some) implies exists|i: int|
            0 <= i < lines.len() && (#[trigger] lines[i]).tag == t by {
            if t.rank() == n - 1 {
                assert(t == tag);
                assert(lines[lines.len() - 1].tag == tag);
            } else {
                let i = choose|i: int| 0 <= i < before.len() && (#[trigger] before[i]).tag == t;
                assert(lines[i] == before[i]);
            }
        }
    }
}

/// A comparison has one line for every type that is in the RDB or in the exported files, in
/// the order of the types, and the line tells the counts of that type and how they compare.
pub proof fn law_report_lines(rdb: TagMap<TypeCount>, parquet: TagMap<u64>)
    ensures
        ({
            let lines = reports(rdb, parquet, 9);
            &&& forall|i: int|
                0 <= i < lines.len() ==> tells(
                    #[trigger] lines[i],
                    rdb.at(lines[i].tag),
                    parquet.at(lines[i].tag),
                )
            &&& forall|i: int, j: int|
                0 <= i < j < lines.len() ==> (#[trigger] lines[i]).tag.rank() < (
                #[trigger] lines[j]).tag.rank()
            &&& forall|t: TypeTag|
                (rdb.at(t) is Some || parquet.at(t) is Some) <==> exists|i: int|
                    0 <= i < lines.len() && (#[trigger] lines[i]).tag == t
        }),
{
    lemma_report_lines(rdb, parquet, 9);
    assert(forall|t: TypeTag| #[trigger] t.rank() < 9);
    let lines = reports(rdb, parquet, 9);
    assert forall|t: TypeTag|
        (rdb.at(t) is Some || parquet.at(t) is Some) <==> exists|i: int|
            0 <= i < lines.len() && (#[trigger] lines[i]).tag == t by {
        assert(t.rank() < 9);
    }
}

// ---- Listings ----

/// The listing of types is that of some, an empty line, and that of the others. That of one
/// type has a heading and a line for each column.
pub proof fn law_listing_in_parts(a: Seq<TypeTag>, b: Seq<TypeTag>, tag: TypeTag, j: int)
    ensures
        a.len() > 0 && b.len() > 0 ==> listing(a + b) == listing(a) + seq![Seq::<char>::empty()]
            + listing(b),
        listing(seq![tag]).len() == 1 + columns_of(tag).len(),
        listing(seq![tag])[0] == "--- "@ + tag.label() + " ---"@,
        0 <= j < columns_of(tag).len() ==> listing(seq![tag])[1 + j] == column_line(
            columns_of(tag)[j],
        ),
    decreases b.len(),
{
    if a.len() > 0 && b.len() > 0 {
        let both = a + b;
        assert(both.drop_last() == a + b.drop_last());
        assert(both.last() == b.last());
        if b.len() == 1 {
            assert(a + b.drop_last() == a);
            assert(b[0] == b.last());
            assert(listing(both) == listing(a).push(Seq::empty()) + listing(b));
            assert(listing(a).push(Seq::empty()) + listing(b) == listing(a) + seq![
                Seq::<char>::empty(),
            ] + listing(b));
        } else {
            law_listing_in_parts(a, b.drop_last(), tag, j);
            assert(listing(both) == listing(a) + seq![Seq::<char>::empty()] + listing(b));
        }
    }
}

/// The line of a column has the name from its third character on, the kind from the 24th on,
/// and at the end whether there may be nulls.
pub proof fn law_column_line(c: ColumnV)
    requires
        c.name.len() <= 20,
        c.kind.label().len() <= 12,
    ensures
        ({
            let line = column_line(c);
            &&& line.subrange(2, 2 + c.name.len() as int) == c.name
            &&& line.subrange(23, 23 + c.kind.label().len() as int) == c.kind.label()
            &&& line.skip(36) == if c.nullable {
                "nullable"@
            } else {
                "required"@
            }
        }),
{
    reveal_strlit("  ");
    reveal_strlit(" ");
    let line = column_line(c);
    assert(line.subrange(2, 2 + c.name.len() as int) == c.name);
    assert(line.subrange(23, 23 + c.kind.label().len() as int) == c.kind.label());
    assert(line.skip(36) == if c.nullable {
        "nullable"@
    } else {
        "required"@
    });
}

/// A line of the comparison has its texts in columns: the type to the left from the third
/// character on, the three counts to the right, and the word at the end.
pub proof fn law_table_line(
    tag: Seq<char>,
    keys: Seq<char>,
    rows: Seq<char>,
    parquet: Seq<char>,
    word: Seq<char>,
)
    requires
        tag.len() <= 15,
        keys.len() <= 10,
        rows.len() <= 12,
        parquet.len() <= 14,
    ensures
        ({
            let line = table_line(tag, keys, rows, parquet, word);
            &&& line.subrange(2, 2 + tag.len() as int) == tag
            &&& line.subrange(28 - keys.len(), 28) == keys
            &&& line.subrange(41 - rows.len(), 41) == rows
            &&& line.subrange(56 - parquet.len(), 56) == parquet
            &&& line.skip(58) == word
        }),
{
    reveal_strlit("  ");
    reveal_strlit(" ");
    let line = table_line(tag, keys, rows, parquet, word);
    assert(line.subrange(2, 2 + tag.len() as int) == tag);
    assert(line.subrange(28 - keys.len(), 28) == keys);
    assert(line.subrange(41 - rows.len(), 41) == rows);
    assert(line.subrange(56 - parquet.len(), 56) == parquet);
    assert(line.skip(58) == word);
}

/// Digits in groups have a comma in every fourth place from the end, and in the other places
/// the digits as they were.
pub proof fn law_commas_by_place(digits: Seq<char>, k: int)
    requires
        digits.len() > 0,
        0 <= k < grouped(digits).len(),
    ensures
        grouped(digits).len() == digits.len() + (digits.len() - 1) / 3,
        ({
            let c = grouped(digits)[grouped(digits).len() - 1 - k];
            &&& k % 4 == 3 ==> c == ','
            &&& k % 4 != 3 ==> c == digits[digits.len() - 1 - (k - k / 4)]
        }),
    decreases digits.len(),
{
    reveal_strlit(",");
    let n = digits.len() as int;
    if n > 3 {
        let head = digits.take(n - 3);
        let tail = digits.skip(n - 3);
        let g = grouped(head);
        let all = grouped(digits);
        assert(all == g + ","@ + tail);
        lemma_grouped_len(head);
        lemma_grouped_len(digits);
        let i = all.len() - 1 - k;
        if k < 3 {
            assert(all[i] == tail[2 - k]);
        } else if k == 3 {
            assert(all[i] == ","@[0]);
        } else {
            law_commas_by_place(head, k - 4);
            assert(all[i] == g[g.len() - 1 - (k - 4)]);
            assert(k / 4 == (k - 4) / 4 + 1 && k % 4 == (k - 4) % 4);
        }
    }
}

proof fn lemma_grouped_len(digits: Seq<char>)
    requires
        digits.len() > 0,
    ensures
        grouped(digits).len() == digits.len() + (digits.len() - 1) / 3,
    decreases digits.len(),
{
    reveal_strlit(",");
    if digits.len() > 3 {
        lemma_grouped_len(digits.take(digits.len() - 3));
    }
}

/// A warning is due exactly if there is an exported file in the output directory.
pub proof fn law_overwriting_is_warned_of(dir: Seq<char>, names: Seq<Seq<char>>)
    ensures
        warning_text(dir, exports_among(names)) is Some <==> exists|i: int|
            0 <= i < names.len() && is_export_name(#[trigger] names[i]),
{
    lemma_exports_among(names);
}

proof fn lemma_exports_among(names: Seq<Seq<char>>)
    ensures
        exports_among(names) > 0 <==> exists|i: int|
            0 <= i < names.len() && is_export_name(#[trigger] names[i]),
    decreases names.len(),
{
    if names.len() > 0 {
        let front = names.drop_last();
        lemma_exports_among(front);
        if is_export_name(names.last()) {
            assert(is_export_name(names[names.len() - 1]));
        }
        if exists|i: int| 0 <= i < front.len() && is_export_name(#[trigger] front[i]) {
            let i = choose|i: int| 0 <= i < front.len() && is_export_name(#[trigger] front[i]);
            assert(is_export_name(names[i]));
        }
        if exists|i: int| 0 <= i < names.len() && is_export_name(#[trigger] names[i]) {
            let i = choose|i: int| 0 <= i < names.len() && is_export_name(#[trigger] names[i]);
            if i < front.len() {
                assert(is_export_name(front[i]));
            }
        }
    }
}

} // verus!
