//! Input and output files: names, and errors with the path in them.

use crate::entries::EntrySource;
use crate::reader::{opened, RdbReader};
use crate::schema::{law_tag_names_parse_back, TypeTag};
use crate::text;
use crate::types::{IoError, IoErrorV, RdbError, RdbErrorV};
use crate::wire::ByteSource;
use vstd::prelude::*;

verus! {

/// An error with the name of the file that the operation was about.
#[derive(Debug)]
pub struct IoContext {
    path: String,
    source: IoError,
}

/// What an `IoContext` holds.
#[verifier::ext_equal]
pub struct IoContextV {
    pub path: Seq<char>,
    pub source: IoErrorV,
}

impl View for IoContext {
    type V = IoContextV;

    closed spec fn view(&self) -> IoContextV {
        IoContextV { path: self.path@, source: self.source@ }
    }
}

impl IoContextV {
    /// The text of the error, behind the path.
    pub open spec fn text(self) -> Seq<char> {
        self.path + ": "@ + self.source.text()
    }
}

impl IoContext {
    /// An error at a path.
    pub fn new(path: String, source: IoError) -> (r: Self)
        ensures
            r@ == (IoContextV { path: path@, source: source@ }),
    {
        IoContext { path, source }
    }

    /// The text of the error, behind the path.
    pub fn message(&self) -> (r: String)
        ensures
            r@ == self@.text(),
    {
        text::join3(self.path.as_str(), ": ", self.source.message().as_str())
    }

    /// The text of the error alone.
    pub fn cause(&self) -> (r: String)
        ensures
            r@ == self@.source.text(),
    {
        self.source.message()
    }
}

/// Why an RDB file could not be opened: it could not be read, or its header was rejected.
#[derive(Debug)]
pub enum RdbOpenError {
    Io(IoContext),
    Rdb(RdbError),
}

/// What an `RdbOpenError` holds.
#[verifier::ext_equal]
pub enum RdbOpenErrorV {
    Io(IoContextV),
    Rdb(RdbErrorV),
}

impl View for RdbOpenError {
    type V = RdbOpenErrorV;

    open spec fn view(&self) -> RdbOpenErrorV {
        match *self {
            RdbOpenError::Io(c) => RdbOpenErrorV::Io(c@),
            RdbOpenError::Rdb(e) => RdbOpenErrorV::Rdb(e@),
        }
    }
}

impl RdbOpenErrorV {
    /// The text of the error.
    pub open spec fn text(self) -> Seq<char> {
        match self {
            RdbOpenErrorV::Io(c) => c.text(),
            RdbOpenErrorV::Rdb(e) => e.text(),
        }
    }
}

impl RdbOpenError {
    /// The text of the error.
    pub fn message(&self) -> (r: String)
        ensures
            r@ == self@.text(),
    {
        match self {
            RdbOpenError::Io(c) => c.message(),
            RdbOpenError::Rdb(e) => e.message(),
        }
    }
}

/// Whether an input path stands for standard input.
pub fn is_stdin(path: &str) -> (r: bool)
    ensures
        r == (path@ == "-"@),
{
    text::same_text(path, "-")
}

/// Opens an RDB file, given what came of opening the input at a path. A failure to open keeps
/// the path; a rejected header is a case of its own.
pub fn build_rdb_reader<R: ByteSource>(path: &str, input: Result<R, IoError>) -> (r: Result<
    RdbReader<R>,
    RdbOpenError,
>)
    ensures
        match input {
            Err(e) => r matches Err(x) && x@ == RdbOpenErrorV::Io(
                IoContextV { path: path@, source: e@ },
            ),
            Ok(source) => match opened(source.unread()) {
                Ok(v) => r matches Ok(reader) && reader@ == v && reader.valid(),
                Err(e) => r matches Err(x) && x@ == RdbOpenErrorV::Rdb(e),
            },
        },
{
    match input {
        Err(e) => Err(RdbOpenError::Io(IoContext::new(path.to_owned(), e))),
        Ok(source) => match RdbReader::new(source) {
            Ok(reader) => Ok(reader),
            Err(e) => Err(RdbOpenError::Rdb(e)),
        },
    }
}

/// What stands between the name of a type and the extension of a file.
pub open spec fn suffix_text(shard_id: Option<Seq<char>>) -> Seq<char> {
    match shard_id {
        Some(s) => "."@ + s,
        None => Seq::empty(),
    }
}

/// The suffix of output file names: `".<id>"` for a shard, or nothing.
pub fn shard_suffix(shard_id: Option<&str>) -> (r: String)
    ensures
        r@ == suffix_text(
            match shard_id {
                Some(s) => Some(s@),
                None => None,
            },
        ),
{
    match shard_id {
        Some(s) => text::join2(".", s),
        None => String::new(),
    }
}

/// The name of the file of a type.
pub open spec fn file_name(tag: TypeTag, shard_id: Option<Seq<char>>, ext: Seq<char>) -> Seq<char> {
    tag.label() + suffix_text(shard_id) + "."@ + ext
}

/// The name of the file of a type: the type, the suffix of the shard, and the extension.
pub fn output_file_name(tag: TypeTag, shard_id: Option<&str>, ext: &str) -> (r: String)
    ensures
        r@ == file_name(
            tag,
            match shard_id {
                Some(s) => Some(s@),
                None => None,
            },
            ext@,
        ),
{
    text::join3(tag.as_str(), shard_suffix(shard_id).as_str(), ".").concat(ext)
}

/// The name of the Parquet file of a type without shards.
pub open spec fn base_name(tag: TypeTag) -> Seq<char> {
    tag.label() + ".parquet"@
}

/// Whether a name is that of a shard of a type: it starts with the type and a dot, ends with
/// `.parquet`, and is not the base file.
pub open spec fn is_shard_name(tag: TypeTag, name: Seq<char>) -> bool {
    &&& text::has_prefix(name, tag.label() + "."@)
    &&& text::has_suffix(name, ".parquet"@)
    &&& name != base_name(tag)
}

/// The shards among the names of a directory, in their order.
pub open spec fn shards_in(tag: TypeTag, names: Seq<Seq<char>>) -> Seq<Seq<char>>
    decreases names.len(),
{
    if names.len() == 0 {
        Seq::empty()
    } else if is_shard_name(tag, names.last()) {
        shards_in(tag, names.drop_last()).push(names.last())
    } else {
        shards_in(tag, names.drop_last())
    }
}

/// The base file, if there is one, and the shards of a type.
pub open spec fn parquet_names(tag: TypeTag, base_exists: bool, names: Seq<Seq<char>>) -> Seq<
    Seq<char>,
> {
    if base_exists {
        seq![base_name(tag)] + shards_in(tag, names)
    } else {
        shards_in(tag, names)
    }
}

/// Strings, each by its text.
pub open spec fn name_texts(names: Seq<String>) -> Seq<Seq<char>> {
    names.map_values(|s: String| s@)
}

/// The name of the Parquet file of a type without shards.
pub fn base_file_name(tag: TypeTag) -> (r: String)
    ensures
        r@ == base_name(tag),
{
    text::join2(tag.as_str(), ".parquet")
}

/// Finds every Parquet file of a type: the base `{tag}.parquet`, if it exists, and the shards
/// `{tag}.*.parquet` among the names of the directory.
pub fn find_parquet_files(tag: TypeTag, base_exists: bool, names: &Vec<String>) -> (r: Vec<String>)
    ensures
        name_texts(r@) == parquet_names(tag, base_exists, name_texts(names@)),
{
    let ghost all = name_texts(names@);
    let mut files: Vec<String> = Vec::new();
    let base = base_file_name(tag);
    let prefix = text::join2(tag.as_str(), ".");
    if base_exists {
        files.push(base_file_name(tag));
    }
    let ghost start = name_texts(files@);
    assert(start == if base_exists {
        seq![base_name(tag)]
    } else {
        Seq::empty()
    });
    let mut i: usize = 0;
    assert(all.take(0) == Seq::<Seq<char>>::empty());
    assert(name_texts(files@) == start + shards_in(tag, all.take(0)));
    while i < names.len()
        invariant
            i <= names@.len(),
            all == name_texts(names@),
            base@ == base_name(tag),
            prefix@ == tag.label() + "."@,
            name_texts(files@) == start + shards_in(tag, all.take(i as int)),
        decreases names@.len() - i,
    {
        assert(all.take(i + 1).drop_last() == all.take(i as int));
        assert(all.take(i + 1).last() == names@[i as int]@);
        let name = names[i].as_str();
        let is_shard = text::starts_with(name, prefix.as_str()) && text::ends_with(name, ".parquet")
            && !text::same_text(name, base.as_str());
        if is_shard {
            let ghost before = name_texts(files@);
            files.push(name.to_owned());
            assert(name_texts(files@) == before.push(name@));
            assert(name_texts(files@) == start + shards_in(tag, all.take(i + 1)));
        }
        i += 1;
    }
    assert(all.take(i as int) == all);
    assert(name_texts(files@) == parquet_names(tag, base_exists, all));
    files
}

/// Validation finds what an export wrote: the Parquet file of a type, whatever its shard, is
/// the base file or a shard of that type.
pub proof fn law_export_is_found(tag: TypeTag, shard_id: Option<Seq<char>>)
    ensures
        file_name(tag, shard_id, "parquet"@) == base_name(tag) || is_shard_name(
            tag,
            file_name(tag, shard_id, "parquet"@),
        ),
        shard_id is None ==> file_name(tag, shard_id, "parquet"@) == base_name(tag),
{
    reveal_strlit(".");
    reveal_strlit(".parquet");
    reveal_strlit("parquet");
    assert("."@ + "parquet"@ == ".parquet"@);
    let name = file_name(tag, shard_id, "parquet"@);
    match shard_id {
        None => {
            assert(name == tag.label() + ("."@ + "parquet"@));
        },
        Some(s) => {
            let head = tag.label() + "."@;
            assert(name == head + (s + ".parquet"@)) by {
                assert(name == tag.label() + ("."@ + s) + ("."@ + "parquet"@));
                assert(tag.label() + ("."@ + s) == head + s);
                assert(head + s + ".parquet"@ == head + (s + ".parquet"@));
            }
            assert(name.take(head.len() as int) == head);
            assert(name.skip(name.len() - ".parquet"@.len()) == ".parquet"@);
            assert(name.len() >= ".parquet"@.len());
        },
    }
}

pub proof fn lemma_label_has_no_dot(tag: TypeTag)
    ensures
        forall|i: int| 0 <= i < tag.label().len() ==> #[trigger] tag.label()[i] != '.',
{
    reveal_strlit("string");
    reveal_strlit("list");
    reveal_strlit("set");
    reveal_strlit("zset");
    reveal_strlit("hash");
    reveal_strlit("geo");
    reveal_strlit("hyperloglog");
    reveal_strlit("module");
    reveal_strlit("stream");
}

proof fn lemma_same_label(a: TypeTag, b: TypeTag)
    requires
        a.label() == b.label(),
    ensures
        a == b,
{
    law_tag_names_parse_back(a);
    law_tag_names_parse_back(b);
}

/// Parallel exports do not get in each other's way: the files of different types, and those
/// of different shards of a type, have different names.
pub proof fn law_file_names_differ(
    a: TypeTag,
    x: Option<Seq<char>>,
    b: TypeTag,
    y: Option<Seq<char>>,
    ext: Seq<char>,
)
    requires
        a != b || x != y,
    ensures
        file_name(a, x, ext) != file_name(b, y, ext),
{
    if file_name(a, x, ext) == file_name(b, y, ext) {
        reveal_strlit(".");
        let (la, lb) = (a.label(), b.label());
        let (p, q) = (la + suffix_text(x), lb + suffix_text(y));
        let end = "."@ + ext;
        assert(file_name(a, x, ext) == p + end);
        assert(file_name(b, y, ext) == q + end);
        assert((p + end).len() == p.len() + end.len());
        assert((q + end).len() == q.len() + end.len());
        assert((p + end).take(p.len() as int) == p);
        assert((q + end).take(q.len() as int) == q);
        assert(p == q);
        lemma_label_has_no_dot(a);
        lemma_label_has_no_dot(b);
        if la.len() < lb.len() {
            assert(q[la.len() as int] == lb[la.len() as int]);
            assert(x is Some ==> p[la.len() as int] == suffix_text(x)[0]);
        } else if lb.len() < la.len() {
            assert(p[lb.len() as int] == la[lb.len() as int]);
            assert(y is Some ==> q[lb.len() as int] == suffix_text(y)[0]);
        } else {
            assert(p.take(la.len() as int) == la);
            assert(q.take(lb.len() as int) == lb);
            lemma_same_label(a, b);
            assert(p.skip(la.len() as int) == suffix_text(x));
            assert(q.skip(lb.len() as int) == suffix_text(y));
            if let (Some(s), Some(t)) = (x, y) {
                assert(suffix_text(x).skip(1) == s);
                assert(suffix_text(y).skip(1) == t);
            }
        }
    }
}

} // verus!
