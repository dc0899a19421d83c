//! What the command line asks for.

use crate::text;
use crate::writer::Compression;
use vstd::prelude::*;

verus! {

/// The command line.
#[derive(Debug)]
pub struct Cli {
    pub command: Command,
}

/// The commands.
#[derive(Debug)]
pub enum Command {
    /// Export RDB data to Parquet, Arrow IPC, CSV, or JSON.
    Export(ExportArgs),
    /// Print the Arrow schema of each type.
    Schema(SchemaArgs),
    /// Hold exported Parquet files against the RDB.
    Validate(ValidateArgs),
}

/// What `export` is asked for.
#[derive(Debug)]
pub struct ExportArgs {
    /// Path to the RDB file (`-` for standard input).
    pub file: String,
    /// Output directory. The default is derived from the input file name.
    pub output: Option<String>,
    /// Output format.
    pub format: FormatArg,
    /// Parquet compression codec.
    pub compression: CompressionArg,
    /// Database to export.
    pub db: Option<u32>,
    /// Types to export, separated by commas.
    pub type_names: Option<String>,
    /// Pattern of the keys to export.
    pub key_pattern: Option<String>,
    /// Rows per batch.
    pub batch_size: usize,
    /// Bytes per batch.
    pub batch_bytes: Option<usize>,
    /// Size of entries beyond which they are left out.
    pub max_entry_bytes: Option<usize>,
    /// Rows per Parquet row group.
    pub row_group_size: usize,
    /// Shard identifier for parallel writes without conflicts.
    pub shard_id: Option<String>,
    /// Active heuristics, separated by commas.
    pub heuristic: String,
    /// Whether large collections are read in one piece.
    pub no_chunking: bool,
    /// Elements of a collection per entry.
    pub max_key_elements: Option<usize>,
}

/// What `schema` is asked for.
#[derive(Debug)]
pub struct SchemaArgs {
    /// The only type to show.
    pub only: Option<String>,
    /// Output format.
    pub output: OutputFormat,
}

/// What `validate` is asked for.
#[derive(Debug)]
pub struct ValidateArgs {
    /// Path to the RDB file (`-` for standard input).
    pub file: String,
    /// Directory of the exported files.
    pub output: String,
}

/// Formats of exported files.
#[derive(Debug, Clone, Copy, PartialEq, Eq, Structural)]
pub enum FormatArg {
    Parquet,
    ArrowIpc,
    Csv,
    Json,
}

impl FormatArg {
    /// The extension of the files of a format.
    pub open spec fn ext(self) -> Seq<char> {
        match self {
            FormatArg::Parquet => "parquet"@,
            FormatArg::ArrowIpc => "arrow"@,
            FormatArg::Csv => "csv"@,
            FormatArg::Json => "json"@,
        }
    }

    /// The extension of the files of a format.
    pub fn extension(self) -> (r: &'static str)
        ensures
            r@ == self.ext(),
    {
        match self {
            FormatArg::Parquet => "parquet",
            FormatArg::ArrowIpc => "arrow",
            FormatArg::Csv => "csv",
            FormatArg::Json => "json",
        }
    }
}

/// Parquet compression codecs on the command line.
#[derive(Debug, Clone, Copy, PartialEq, Eq, Structural)]
pub enum CompressionArg {
    Zstd,
    Snappy,
    Lz4,
    Gzip,
    Uncompressed,
}

impl CompressionArg {
    /// The codec that is asked for.
    pub fn to_parquet_compression(&self) -> (r: Compression)
        ensures
            r == match *self {
                CompressionArg::Zstd => Compression::Zstd,
                CompressionArg::Snappy => Compression::Snappy,
                CompressionArg::Lz4 => Compression::Lz4,
                CompressionArg::Gzip => Compression::Gzip,
                CompressionArg::Uncompressed => Compression::Uncompressed,
            },
    {
        match self {
            CompressionArg::Zstd => Compression::Zstd,
            CompressionArg::Snappy => Compression::Snappy,
            CompressionArg::Lz4 => Compression::Lz4,
            CompressionArg::Gzip => Compression::Gzip,
            CompressionArg::Uncompressed => Compression::Uncompressed,
        }
    }
}

/// Formats of the schema listing.
#[derive(Debug, Clone, Copy, PartialEq, Eq, Structural)]
pub enum OutputFormat {
    Text,
    Json,
}

// ---- Numbers ----

/// The number that digits stand for, or what is wrong with the first of them that cannot
/// stand.
pub open spec fn digits_read(s: Seq<char>) -> Result<nat, Seq<char>>
    decreases s.len(),
{
    if s.len() == 0 {
        Ok(0)
    } else {
        match digits_read(s.drop_last()) {
            Err(e) => Err(e),
            Ok(n) => if !('0' <= s.last() <= '9') {
                Err("invalid digit found in string"@)
            } else if n * 10 + (s.last() as int - '0' as int) > usize::MAX {
                Err("number too large to fit in target type"@)
            } else {
                Ok((n * 10 + (s.last() as int - '0' as int)) as nat)
            },
        }
    }
}

/// The number that a text stands for: digits, behind a plus sign or not.
pub open spec fn number_read(s: Seq<char>) -> Result<nat, Seq<char>> {
    if s.len() == 0 {
        Err("cannot parse integer from empty string"@)
    } else if s.len() > 1 && s[0] == '+' {
        digits_read(s.skip(1))
    } else {
        digits_read(s)
    }
}

/// A number that a user typed: not zero.
pub open spec fn positive_read(s: Seq<char>) -> Result<nat, Seq<char>> {
    match number_read(s) {
        Err(e) => Err(e),
        Ok(n) => if n == 0 {
            Err("value must be > 0"@)
        } else {
            Ok(n)
        },
    }
}

/// A number of bytes: a number, in units of 1024, 1024 squared or 1024 cubed bytes behind
/// which `kb`, `mb` or `gb` stands, whatever the case of its letters.
pub open spec fn size_read(s: Seq<char>) -> Result<nat, Seq<char>> {
    let (digits, unit) = size_parts(s);
    match positive_read(digits) {
        Err(e) => Err(e),
        Ok(n) => if n * unit > usize::MAX {
            Err("number too large to fit in target type"@)
        } else {
            Ok(n * unit)
        },
    }
}

/// The number and the unit of a number of bytes.
pub open spec fn size_parts(s: Seq<char>) -> (Seq<char>, nat) {
    let l = text::lower_text(s);
    if text::has_suffix(l, "kb"@) {
        (s.take(s.len() - 2), 1024)
    } else if text::has_suffix(l, "mb"@) {
        (s.take(s.len() - 2), 1_048_576)
    } else if text::has_suffix(l, "gb"@) {
        (s.take(s.len() - 2), 1_073_741_824)
    } else {
        (s, 1)
    }
}

/// What came of reading a number, by what it holds.
pub open spec fn read_view(r: Result<usize, String>) -> Result<nat, Seq<char>> {
    match r {
        Ok(n) => Ok(n as nat),
        Err(e) => Err(e@),
    }
}

proof fn lemma_digits_stop(s: Seq<char>, n: int)
    requires
        0 <= n <= s.len(),
        digits_read(s.take(n)) is Err,
    ensures
        digits_read(s) == digits_read(s.take(n)),
    decreases s.len() - n,
{
    if n == s.len() {
        assert(s.take(n) == s);
    } else {
        assert(s.take(n + 1).drop_last() == s.take(n));
        lemma_digits_stop(s, n + 1);
    }
}

/// Reads the digits from a place to another.
fn read_digits(chars: &Vec<char>, start: usize, end: usize) -> (r: Result<usize, String>)
    requires
        start <= end <= chars@.len(),
    ensures
        read_view(r) == digits_read(chars@.subrange(start as int, end as int)),
{
    let ghost s = chars@.subrange(start as int, end as int);
    let mut n: usize = 0;
    let mut i: usize = start;
    assert(s.take(0) == Seq::<char>::empty());
    while i < end
        invariant
            start <= i <= end <= chars@.len(),
            s == chars@.subrange(start as int, end as int),
            digits_read(s.take(i - start)) == Ok::<nat, Seq<char>>(n as nat),
        decreases end - i,
    {
        let c: char = chars[i];
        assert(s.take(i - start + 1).drop_last() == s.take(i - start));
        assert(s.take(i - start + 1).last() == c);
        if !('0' <= c && c <= '9') {
            proof {
                lemma_digits_stop(s, i - start + 1);
            }
            return Err("invalid digit found in string".to_owned());
        }
        let wide: u128 = n as u128 * 10 + (c as u32 - 48) as u128;
        if wide > usize::MAX as u128 {
            proof {
                lemma_digits_stop(s, i - start + 1);
            }
            return Err("number too large to fit in target type".to_owned());
        }
        n = wide as usize;
        i += 1;
    }
    assert(s.take(i - start) == s);
    Ok(n)
}

/// Reads the number that stands before a place.
fn read_positive(chars: &Vec<char>, end: usize) -> (r: Result<usize, String>)
    requires
        end <= chars@.len(),
    ensures
        read_view(r) == positive_read(chars@.take(end as int)),
{
    let ghost s = chars@.take(end as int);
    if end == 0 {
        return Err("cannot parse integer from empty string".to_owned());
    }
    let start: usize = if end > 1 && chars[0] == '+' {
        1
    } else {
        0
    };
    assert(s[0] == chars@[0]);
    assert(chars@.subrange(start as int, end as int) == if start == 1 {
        s.skip(1)
    } else {
        s
    });
    match read_digits(chars, start, end) {
        Err(e) => Err(e),
        Ok(n) => if n == 0 {
            Err("value must be > 0".to_owned())
        } else {
            Ok(n)
        },
    }
}

/// Reads a number that must not be zero.
pub fn parse_positive_usize(s: &str) -> (r: Result<usize, String>)
    ensures
        read_view(r) == positive_read(s@),
{
    let chars = text::chars_of(s);
    assert(s@.take(s@.len() as int) == s@);
    read_positive(&chars, chars.len())
}

/// Reads a number of bytes, such as `50mb`.
pub fn parse_byte_size(s: &str) -> (r: Result<usize, String>)
    ensures
        read_view(r) == size_read(s@),
{
    let lower = text::to_lower(s);
    let l = lower.as_str();
    let chars = text::chars_of(s);
    proof {
        reveal_strlit("kb");
        reveal_strlit("mb");
        reveal_strlit("gb");
    }
    let mut end: usize = chars.len();
    let mut unit: usize = 1;
    if text::ends_with(l, "kb") {
        end = chars.len() - 2;
        unit = 1024;
    } else if text::ends_with(l, "mb") {
        end = chars.len() - 2;
        unit = 1_048_576;
    } else if text::ends_with(l, "gb") {
        end = chars.len() - 2;
        unit = 1_073_741_824;
    }
    assert(s@.take(s@.len() as int) == s@);
    match read_positive(&chars, end) {
        Err(e) => Err(e),
        Ok(n) => {
            assert(n as int * unit as int <= u128::MAX) by (nonlinear_arith)
                requires
                    0 <= n <= 0xffff_ffff_ffff_ffff,
                    0 <= unit <= 0xffff_ffff_ffff_ffff,
            ;
            let wide: u128 = n as u128 * unit as u128;
            if wide > usize::MAX as u128 {
                Err("number too large to fit in target type".to_owned())
            } else {
                Ok(wide as usize)
            }
        },
    }
}

} // verus!
