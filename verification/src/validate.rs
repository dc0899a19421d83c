//! Holds exported row counts against those of the RDB.

use crate::batcher::{rows_in, run, BatcherV};
use crate::cli_error::{CliError, CliErrorV};
use crate::rows::{law_expected_rows, RowV};
use crate::schema::{
    all_heuristics, all_tags, capped, heuristics_named, Heuristic, HeuristicSet, TypeTag,
};
use crate::summarize::{
    law_summary_agrees_with_export, row_total, seen, shown_count, type_count, under, TagMap,
    TypeCount,
};
use crate::text;
use crate::types::{lookup, AuxMap, RdbEntryV, RdbHeader};
use crate::writer::{RDB_EXPORTED_BY_KEY, RDB_HEURISTICS_KEY};
use vstd::prelude::*;

verus! {

// ---- Exported metadata ----

/// What the metadata of exported files says.
#[derive(Debug, Clone, Copy)]
pub struct ParquetMeta {
    /// Whether it says what wrote them.
    pub has_exported_by: bool,
    /// The heuristics of the export.
    pub heuristics: HeuristicSet,
}

/// Reads the metadata of exported files. Where there is none, or nothing about heuristics,
/// all heuristics are taken to have been active.
pub fn parquet_meta(metadata: Option<&AuxMap>) -> (r: Result<ParquetMeta, CliError>)
    ensures
        match metadata {
            None => r matches Ok(m) && !m.has_exported_by && m.heuristics@ == all_heuristics(),
            Some(map) => match lookup(map@, "rdb.heuristics"@) {
                None => r matches Ok(m) && m.has_exported_by == map@.contains_key(
                    "rdb.exported_by"@,
                ) && m.heuristics@ == all_heuristics(),
                Some(s) => match heuristics_named(s) {
                    Ok(set) => r matches Ok(m) && m.has_exported_by == map@.contains_key(
                        "rdb.exported_by"@,
                    ) && m.heuristics@ == set,
                    Err(e) => r matches Err(x) && x@ == CliErrorV::Usage(
                        e + " in "@ + "rdb.heuristics"@,
                    ),
                },
            },
        },
{
    match metadata {
        None => Ok(ParquetMeta { has_exported_by: false, heuristics: HeuristicSet::all() }),
        Some(map) => {
            let has_exported_by = map.get(RDB_EXPORTED_BY_KEY).is_some();
            match map.get(RDB_HEURISTICS_KEY) {
                None => Ok(ParquetMeta { has_exported_by, heuristics: HeuristicSet::all() }),
                Some(s) => match Heuristic::parse_set(s.as_str()) {
                    Ok(heuristics) => Ok(ParquetMeta { has_exported_by, heuristics }),
                    Err(e) => Err(
                        CliError::Usage(text::join3(e.as_str(), " in ", RDB_HEURISTICS_KEY)),
                    ),
                },
            }
        },
    }
}

/// The warning for files that do not say what wrote them.
pub fn provenance_warning(meta: &ParquetMeta) -> (r: Option<String>)
    ensures
        match r {
            Some(w) => !meta.has_exported_by && w@ == "Warning: "@ + "rdb.exported_by"@
                + " metadata tag not found in Parquet files"@,
            None => meta.has_exported_by,
        },
{
    if meta.has_exported_by {
        None
    } else {
        Some(
            text::join3(
                "Warning: ",
                RDB_EXPORTED_BY_KEY,
                " metadata tag not found in Parquet files",
            ),
        )
    }
}

/// Row counts of files, by what they hold.
pub open spec fn counts_view(files: Seq<(String, i64)>) -> Seq<(Seq<char>, i64)> {
    files.map_values(|f: (String, i64)| (f.0@, f.1))
}

/// The rows of files together, or what is said of the first count that is negative.
pub open spec fn rows_together(files: Seq<(Seq<char>, i64)>) -> Result<nat, Seq<char>>
    decreases files.len(),
{
    if files.len() == 0 {
        Ok(0)
    } else {
        match rows_together(files.drop_last()) {
            Err(e) => Err(e),
            Ok(n) => {
                let (path, rows) = files.last();
                if rows < 0 {
                    Err("negative row count "@ + text::dec(rows as int) + " in "@ + path)
                } else {
                    Ok(n + rows as nat)
                }
            },
        }
    }
}

proof fn lemma_negative_stops(files: Seq<(Seq<char>, i64)>, n: int)
    requires
        0 <= n <= files.len(),
        rows_together(files.take(n)) is Err,
    ensures
        rows_together(files) == rows_together(files.take(n)),
    decreases files.len() - n,
{
    if n == files.len() {
        assert(files.take(n) == files);
    } else {
        assert(files.take(n + 1).drop_last() == files.take(n));
        lemma_negative_stops(files, n + 1);
    }
}

/// Adds up the row counts of the files of a type, given with their paths. The sum stops at
/// the largest 64-bit number.
pub fn total_rows(files: &Vec<(String, i64)>) -> (r: Result<u64, CliError>)
    ensures
        match rows_together(counts_view(files@)) {
            Ok(n) => r matches Ok(x) && x as nat == capped(n),
            Err(e) => r matches Err(x) && x@ == CliErrorV::Usage(e),
        },
{
    let ghost all = counts_view(files@);
    let mut total: u64 = 0;
    let ghost mut exact: nat = 0;
    let mut i: usize = 0;
    assert(all.take(0) == Seq::<(Seq<char>, i64)>::empty());
    while i < files.len()
        invariant
            i <= files@.len(),
            all == counts_view(files@),
            rows_together(all.take(i as int)) == Ok::<nat, Seq<char>>(exact),
            total as nat == capped(exact),
        decreases files@.len() - i,
    {
        assert(all.take(i + 1).drop_last() == all.take(i as int));
        assert(all.take(i + 1).last() == (files@[i as int].0@, files@[i as int].1));
        let rows: i64 = files[i].1;
        if rows < 0 {
            proof {
                lemma_negative_stops(all, i + 1);
            }
            let head = text::join3(
                "negative row count ",
                text::dec_string_signed(rows).as_str(),
                " in ",
            );
            return Err(CliError::Usage(head.concat(files[i].0.as_str())));
        }
        total = total.saturating_add(rows as u64);
        proof {
            exact = exact + rows as nat;
        }
        i += 1;
    }
    assert(all.take(i as int) == all);
    Ok(total)
}

// ---- Comparison ----

/// How the counts of a type compare.
#[derive(Debug, Clone, Copy, PartialEq, Eq, Structural)]
pub enum Status {
    /// Both have as many rows.
    Match,
    /// The numbers of rows differ.
    Mismatch,
    /// There is no exported file.
    Missing,
    /// The type is not in the RDB.
    Extra,
}

impl Status {
    /// The word for it.
    pub open spec fn label(self) -> Seq<char> {
        match self {
            Status::Match => "ok"@,
            Status::Mismatch => "MISMATCH"@,
            Status::Missing => "MISSING"@,
            Status::Extra => "EXTRA"@,
        }
    }

    /// The word for it.
    pub fn as_str(self) -> (r: &'static str)
        ensures
            r@ == self.label(),
    {
        match self {
            Status::Match => "ok",
            Status::Mismatch => "MISMATCH",
            Status::Missing => "MISSING",
            Status::Extra => "EXTRA",
        }
    }
}

/// How the counts of a type compare, if it is in either.
pub open spec fn status_of(rdb: Option<TypeCount>, parquet: Option<u64>) -> Option<Status> {
    match (rdb, parquet) {
        (Some(c), Some(n)) => if c.rows == n {
            Some(Status::Match)
        } else {
            Some(Status::Mismatch)
        },
        (Some(_), None) => Some(Status::Missing),
        (None, Some(_)) => Some(Status::Extra),
        (None, None) => None,
    }
}

/// A line of the comparison.
#[derive(Debug, Clone, Copy, PartialEq, Eq, Structural)]
pub struct TypeReport {
    pub tag: TypeTag,
    pub rdb: Option<TypeCount>,
    pub parquet: Option<u64>,
    pub status: Status,
}

/// The lines of the first `n` types, in the order of the types, those left out that are in
/// neither.
pub open spec fn reports(rdb: TagMap<TypeCount>, parquet: TagMap<u64>, n: int) -> Seq<TypeReport>
    decreases n,
{
    if n <= 0 {
        Seq::empty()
    } else {
        let tag = all_tags()[n - 1];
        let before = reports(rdb, parquet, n - 1);
        match status_of(rdb.at(tag), parquet.at(tag)) {
            Some(status) => before.push(
                TypeReport { tag, rdb: rdb.at(tag), parquet: parquet.at(tag), status },
            ),
            None => before,
        }
    }
}

/// Compares the counts of the RDB with those of the exported files.
pub fn compare(rdb: &TagMap<TypeCount>, parquet: &TagMap<u64>) -> (r: Vec<TypeReport>)
    ensures
        r@ == reports(*rdb, *parquet, 9),
        r@.len() <= 9,
{
    let tags = TypeTag::all();
    let mut out: Vec<TypeReport> = Vec::new();
    let mut i: usize = 0;
    while i < tags.len()
        invariant
            tags@ == all_tags(),
            i <= 9,
            out@ == reports(*rdb, *parquet, i as int),
            out@.len() <= i,
        decreases 9 - i,
    {
        let tag = tags[i];
        let counts = rdb.get(tag);
        let rows = parquet.get(tag);
        let status = match (counts, rows) {
            (Some(c), Some(n)) => if c.rows == n {
                Some(Status::Match)
            } else {
                Some(Status::Mismatch)
            },
            (Some(_), None) => Some(Status::Missing),
            (None, Some(_)) => Some(Status::Extra),
            (None, None) => None,
        };
        if let Some(status) = status {
            out.push(TypeReport { tag, rdb: counts, parquet: rows, status });
        }
        i += 1;
    }
    out
}

/// The number of types whose counts match.
pub open spec fn passed(lines: Seq<TypeReport>) -> nat
    decreases lines.len(),
{
    if lines.len() == 0 {
        0
    } else {
        passed(lines.drop_last()) + if lines.last().status == Status::Match {
            1nat
        } else {
            0
        }
    }
}

/// What a comparison comes to: the text of a pass, or of a failure.
pub open spec fn verdict_of(lines: Seq<TypeReport>) -> Result<Seq<char>, Seq<char>> {
    let total = lines.len() as int;
    let good = passed(lines) as int;
    if good == total {
        Ok(
            "Result: PASS ("@ + text::dec(good) + "/"@ + text::dec(total) + " types match)"@,
        )
    } else {
        Err(
            "FAIL: "@ + text::dec(total - good) + " of "@ + text::dec(total)
                + " types mismatched"@,
        )
    }
}

/// What a comparison comes to.
pub fn verdict(lines: &Vec<TypeReport>) -> (r: Result<String, CliError>)
    ensures
        match verdict_of(lines@) {
            Ok(m) => r matches Ok(s) && s@ == m,
            Err(m) => r matches Err(e) && e@ == CliErrorV::ValidationFailed(m),
        },
{
    let mut good: u64 = 0;
    let mut i: usize = 0;
    assert(lines@.take(0) == Seq::<TypeReport>::empty());
    while i < lines.len()
        invariant
            i <= lines.len(),
            good <= i,
            good as nat == passed(lines@.take(i as int)),
        decreases lines@.len() - i,
    {
        assert(lines@.take(i + 1).drop_last() == lines@.take(i as int));
        assert(lines@.take(i + 1).last() == lines@[i as int]);
        if lines[i].status == Status::Match {
            good = good + 1;
        }
        i += 1;
    }
    assert(lines@.take(i as int) == lines@);
    let total: u64 = lines.len() as u64;
    if good == total {
        Ok(text::with_numbers("Result: PASS (", good, "/", total, " types match)"))
    } else {
        Err(
            CliError::ValidationFailed(
                text::with_numbers("FAIL: ", total - good, " of ", total, " types mismatched"),
            ),
        )
    }
}

// ---- Text ----

/// Digits with a comma before every third from the end.
pub open spec fn grouped(digits: Seq<char>) -> Seq<char>
    decreases digits.len(),
{
    if digits.len() <= 3 {
        digits
    } else {
        grouped(digits.take(digits.len() - 3)) + ","@ + digits.skip(digits.len() - 3)
    }
}

fn group(digits: &Vec<char>, end: usize) -> (r: String)
    requires
        end <= digits@.len(),
    ensures
        r@ == grouped(digits@.take(end as int)),
    decreases end,
{
    let ghost s = digits@.take(end as int);
    if end <= 3 {
        let mut out = String::new();
        let mut i: usize = 0;
        while i < end
            invariant
                i <= end <= digits@.len(),
                out@ == digits@.take(i as int),
            decreases end - i,
        {
            out.push(digits[i]);
            i += 1;
            assert(out@ == digits@.take(i as int));
        }
        return out;
    }
    assert(s.take(s.len() - 3) == digits@.take(end - 3));
    let mut out = group(digits, end - 3).concat(",");
    out.push(digits[end - 3]);
    out.push(digits[end - 2]);
    out.push(digits[end - 1]);
    assert(out@ == grouped(digits@.take(end - 3)) + ","@ + s.skip(s.len() - 3));
    out
}

/// A number with a comma before every third digit from the end.
pub fn format_num(n: u64) -> (r: String)
    ensures
        r@ == grouped(text::dec(n as int)),
{
    let digits = text::chars_of(text::dec_string(n).as_str());
    assert(digits@.take(digits@.len() as int) == digits@);
    group(&digits, digits.len())
}

/// Text without its commas.
pub open spec fn without_commas(s: Seq<char>) -> Seq<char>
    decreases s.len(),
{
    if s.len() == 0 {
        s
    } else if s.last() == ',' {
        without_commas(s.drop_last())
    } else {
        without_commas(s.drop_last()).push(s.last())
    }
}

proof fn lemma_no_commas(s: Seq<char>, t: Seq<char>)
    requires
        forall|i: int| 0 <= i < t.len() ==> t[i] != ',',
    ensures
        without_commas(s + t) == without_commas(s) + t,
    decreases t.len(),
{
    if t.len() == 0 {
        assert(s + t == s);
        assert(without_commas(s) + t == without_commas(s));
    } else {
        assert((s + t).drop_last() == s + t.drop_last());
        assert((s + t).last() == t.last());
        lemma_no_commas(s, t.drop_last());
        assert(without_commas(s) + t == (without_commas(s) + t.drop_last()).push(t.last()));
    }
}

/// Grouping only adds commas: without them, the digits are as they were.
pub proof fn law_grouping_keeps_digits(digits: Seq<char>)
    requires
        forall|i: int| 0 <= i < digits.len() ==> digits[i] != ',',
    ensures
        without_commas(grouped(digits)) == digits,
    decreases digits.len(),
{
    if digits.len() <= 3 {
        lemma_no_commas(Seq::empty(), digits);
        assert(Seq::<char>::empty() + digits == digits);
    } else {
        reveal_strlit(",");
        let head = digits.take(digits.len() - 3);
        let tail = digits.skip(digits.len() - 3);
        law_grouping_keeps_digits(head);
        let with = grouped(head) + ","@;
        assert(with.drop_last() == grouped(head));
        assert(with.last() == ',');
        lemma_no_commas(with, tail);
        assert(head + tail == digits);
    }
}

/// The cells of a line, in text.
pub open spec fn line_cells(line: TypeReport) -> (Seq<char>, Seq<char>, Seq<char>) {
    let (keys, rows) = match line.rdb {
        Some(c) => (grouped(text::dec(c.keys as int)), grouped(text::dec(c.rows as int))),
        None => ("-"@, "-"@),
    };
    let parquet = match line.parquet {
        Some(n) => grouped(text::dec(n as int)),
        None => "-"@,
    };
    (keys, rows, parquet)
}

/// Columns of text: the type to the left, three counts to the right, and a word.
pub open spec fn table_line(
    tag: Seq<char>,
    keys: Seq<char>,
    rows: Seq<char>,
    parquet: Seq<char>,
    word: Seq<char>,
) -> Seq<char> {
    "  "@ + (tag + text::spaces(text::missing(tag, 15))) + " "@ + (text::spaces(
        text::missing(keys, 10),
    ) + keys) + " "@ + (text::spaces(text::missing(rows, 12)) + rows) + " "@ + (text::spaces(
        text::missing(parquet, 14),
    ) + parquet) + "  "@ + word
}

fn make_line(tag: &str, keys: &str, rows: &str, parquet: &str, word: &str) -> (r: String)
    ensures
        r@ == table_line(tag@, keys@, rows@, parquet@, word@),
{
    let head = text::join2("  ", text::pad_right(tag, 15).as_str()).concat(" ");
    let counts = head.concat(text::pad_left(keys, 10).as_str()).concat(" ").concat(
        text::pad_left(rows, 12).as_str(),
    ).concat(" ");
    counts.concat(text::pad_left(parquet, 14).as_str()).concat("  ").concat(word)
}

/// The heading of the comparison.
pub fn heading() -> (r: String)
    ensures
        r@ == table_line("Type"@, "Keys"@, "Rows"@, "Parquet Rows"@, "Status"@),
{
    make_line("Type", "Keys", "Rows", "Parquet Rows", "Status")
}

/// A line of the comparison in text.
pub fn line_text(line: &TypeReport) -> (r: String)
    ensures
        ({
            let (keys, rows, parquet) = line_cells(*line);
            r@ == table_line(line.tag.label(), keys, rows, parquet, line.status.label())
        }),
{
    let (keys, rows) = match line.rdb {
        Some(c) => (format_num(c.keys), format_num(c.rows)),
        None => ("-".to_owned(), "-".to_owned()),
    };
    let parquet = match line.parquet {
        Some(n) => format_num(n),
        None => "-".to_owned(),
    };
    make_line(
        line.tag.as_str(),
        keys.as_str(),
        rows.as_str(),
        parquet.as_str(),
        line.status.as_str(),
    )
}

/// The lines about the input: its path, magic and version, and its checksum.
pub fn input_lines(file: &str, header: &RdbHeader, crc_verified: bool) -> (r: (String, String))
    ensures
        r.0@ == "RDB: "@ + file@ + " ("@ + header.magic.label() + ", RDB v"@ + text::dec(
            header.version as int,
        ) + ")"@,
        r.1@ == if crc_verified {
            "CRC-64: verified"@
        } else {
            "CRC-64: not available (RDB v"@ + text::dec(header.version as int) + ")"@
        },
{
    let version: u64 = header.version as u64;
    let head = text::join3("RDB: ", file, " (").concat(header.magic.as_str());
    let first = head.concat(", RDB v").concat(text::dec_string(version).as_str()).concat(")");
    let second = if crc_verified {
        "CRC-64: verified".to_owned()
    } else {
        text::with_number("CRC-64: not available (RDB v", version, ")")
    };
    (first, second)
}

// ---- Laws ----

proof fn lemma_all_match(lines: Seq<TypeReport>)
    ensures
        passed(lines) <= lines.len(),
        passed(lines) == lines.len() <==> forall|i: int|
            0 <= i < lines.len() ==> (#[trigger] lines[i]).status == Status::Match,
    decreases lines.len(),
{
    if lines.len() > 0 {
        let front = lines.drop_last();
        lemma_all_match(front);
        if passed(lines) == lines.len() {
            assert forall|i: int| 0 <= i < lines.len() implies (#[trigger] lines[i]).status
                == Status::Match by {
                if i < front.len() {
                    assert(front[i].status == Status::Match);
                }
            }
        } else if forall|i: int|
            0 <= i < lines.len() ==> (#[trigger] lines[i]).status == Status::Match {
            assert(lines[lines.len() - 1].status == Status::Match);
            assert forall|i: int| 0 <= i < front.len() implies (#[trigger] front[i]).status
                == Status::Match by {
                assert(lines[i].status == Status::Match);
            }
        }
    }
}

proof fn lemma_reports(rdb: TagMap<TypeCount>, parquet: TagMap<u64>, n: int)
    requires
        0 <= n <= 9,
    ensures
        (forall|i: int|
            0 <= i < reports(rdb, parquet, n).len() ==> (#[trigger] reports(
                rdb,
                parquet,
                n,
            )[i]).status == Status::Match) <==> forall|t: TypeTag|
            t.rank() < n ==> #[trigger] agree(rdb, parquet, t),
    decreases n,
{
    let lines = reports(rdb, parquet, n);
    if n > 0 {
        let front = reports(rdb, parquet, n - 1);
        let tag = all_tags()[n - 1];
        assert(tag.rank() == n - 1);
        lemma_reports(rdb, parquet, n - 1);
        let all_front = forall|i: int|
            0 <= i < front.len() ==> (#[trigger] front[i]).status == Status::Match;
        let all_lines = forall|i: int|
            0 <= i < lines.len() ==> (#[trigger] lines[i]).status == Status::Match;
        assert(all_lines <==> all_front && agree(rdb, parquet, tag)) by {
            if all_lines {
                assert forall|i: int| 0 <= i < front.len() implies (#[trigger] front[i]).status
                    == Status::Match by {
                    assert(lines[i] == front[i]);
                }
                if lines.len() > front.len() {
                    assert(lines[front.len() as int].status == Status::Match);
                }
            }
            if all_front && agree(rdb, parquet, tag) {
                assert forall|i: int| 0 <= i < lines.len() implies (#[trigger] lines[i]).status
                    == Status::Match by {
                    if i < front.len() {
                        assert(lines[i] == front[i]);
                    }
                }
            }
        }
        assert forall|t: TypeTag| t.rank() < n implies t.rank() < n - 1 || t == tag by {
            if t.rank() == n - 1 {
                assert(all_tags()[t.rank()] == t);
            }
        }
    }
}

/// Whether a type has as many rows in the RDB as in the exported files, or is in neither.
pub open spec fn agree(rdb: TagMap<TypeCount>, parquet: TagMap<u64>, tag: TypeTag) -> bool {
    match (rdb.at(tag), parquet.at(tag)) {
        (Some(c), Some(n)) => c.rows == n,
        (None, None) => true,
        _ => false,
    }
}

/// Validation passes exactly if every type has as many rows in the RDB as in the exported
/// files, or is in neither.
pub proof fn law_pass_means_agreement(rdb: TagMap<TypeCount>, parquet: TagMap<u64>)
    ensures
        verdict_of(reports(rdb, parquet, 9)) is Ok <==> forall|t: TypeTag| #[trigger]
            agree(rdb, parquet, t),
{
    lemma_all_match(reports(rdb, parquet, 9));
    lemma_reports(rdb, parquet, 9);
    if verdict_of(reports(rdb, parquet, 9)) is Ok {
        assert forall|t: TypeTag| #[trigger] agree(rdb, parquet, t) by {
            assert(t.rank() < 9);
        }
    }
}

proof fn lemma_seen_has_rows(h: Set<Heuristic>, entries: Seq<RdbEntryV>, tag: TypeTag)
    ensures
        seen(h, entries, tag) <==> row_total(h, entries, tag) > 0,
    decreases entries.len(),
{
    if entries.len() > 0 {
        let front = entries.drop_last();
        let e = entries.last();
        lemma_seen_has_rows(h, front, tag);
        law_expected_rows(e);
        if under(h, e, tag) {
            assert(under(h, entries[entries.len() - 1], tag));
        }
        if seen(h, front, tag) {
            let i = choose|i: int| 0 <= i < front.len() && under(h, #[trigger] front[i], tag);
            assert(under(h, entries[i], tag));
        }
        if seen(h, entries, tag) && !under(h, e, tag) {
            let i = choose|i: int| 0 <= i < entries.len() && under(h, #[trigger] entries[i], tag);
            assert(under(h, front[i], tag));
        }
    }
}

/// An export passes validation: if no entry is left out for its size, and each type that has
/// batches has a file with as many rows as its batches have together, then the counts of the
/// RDB under the heuristics of the export agree with those of the files.
pub proof fn law_export_validates(
    b: BatcherV,
    entries: Seq<RdbEntryV>,
    rdb: TagMap<TypeCount>,
    parquet: TagMap<u64>,
)
    requires
        b.config.max_entry_bytes is None,
        b.tables == Seq::new(9, |i: int| Seq::<RowV>::empty()),
        run(b, entries) is Some,
        forall|t: TypeTag| #[trigger]
            rdb.at(t) == type_count(b.config.heuristics@, entries, t),
        ({
            let (after, out) = run(b, entries)->0;
            forall|t: TypeTag| #[trigger]
                parquet.at(t) == shown_count(rows_in(out + after.flush().1, t).len())
        }),
    ensures
        verdict_of(reports(rdb, parquet, 9)) is Ok,
{
    let h = b.config.heuristics@;
    assert forall|t: TypeTag| #[trigger] agree(rdb, parquet, t) by {
        law_summary_agrees_with_export(b, entries, t);
        lemma_seen_has_rows(h, entries, t);
        assert(rdb.at(t) == type_count(h, entries, t));
        let (after, out) = run(b, entries)->0;
        assert(parquet.at(t) == shown_count(rows_in(out + after.flush().1, t).len()));
    }
    law_pass_means_agreement(rdb, parquet);
}

} // verus!
