//! Logical types, heuristics for virtual types, and the columns of each type.

use crate::columns::{
    field_columns, known, new_field, new_schema, schema_columns, ColumnKind, ColumnV,
};
use crate::detect;
use crate::text;
use crate::types::{RdbEntry, RdbEntryV, RdbValue, RdbValueV, StreamEntryV};
use arrow::datatypes::{Field, Schema};
use std::sync::Arc;
use vstd::prelude::*;

verus! {

// ---- Heuristics ----

/// Named heuristic detectors for virtual types.
///
/// Heuristics detect virtual types that aren't native RDB types but can be inferred from
/// data patterns (such as geo coordinates stored as sorted set scores).
#[derive(Debug, Clone, Copy, PartialEq, Eq, Hash, Structural)]
pub enum Heuristic {
    /// Detect geo data from sorted sets with 52-bit geohash scores.
    Geo,
}

/// A set of heuristics.
#[derive(Debug, Clone, Copy, PartialEq, Eq, Structural)]
pub struct HeuristicSet {
    geo: bool,
}

impl View for HeuristicSet {
    type V = Set<Heuristic>;

    closed spec fn view(&self) -> Set<Heuristic> {
        if self.geo {
            set![Heuristic::Geo]
        } else {
            Set::empty()
        }
    }
}

impl HeuristicSet {
    /// The set without heuristics.
    pub fn none() -> (r: Self)
        ensures
            r@ == Set::<Heuristic>::empty(),
    {
        HeuristicSet { geo: false }
    }

    /// The set of every built-in heuristic.
    pub fn all() -> (r: Self)
        ensures
            r@ == all_heuristics(),
    {
        HeuristicSet { geo: true }
    }

    /// Whether a heuristic is in the set.
    pub fn contains(&self, heuristic: Heuristic) -> (r: bool)
        ensures
            r == self@.contains(heuristic),
    {
        match heuristic {
            Heuristic::Geo => self.geo,
        }
    }

    /// Adds a heuristic.
    pub fn insert(&mut self, heuristic: Heuristic)
        ensures
            final(self)@ == old(self)@.insert(heuristic),
    {
        match heuristic {
            Heuristic::Geo => {
                self.geo = true;
            },
        }
        assert(self@ == old(self)@.insert(heuristic));
    }

    /// Adds the heuristics of another set.
    pub fn extend(&mut self, other: &HeuristicSet)
        ensures
            final(self)@ == old(self)@.union(other@),
    {
        self.geo = self.geo || other.geo;
        assert(self@ == old(self)@.union(other@));
    }

    /// Whether there is no heuristic in the set.
    pub fn is_empty(&self) -> (r: bool)
        ensures
            r == (self@ == Set::<Heuristic>::empty()),
    {
        assert(self.geo ==> self@.contains(Heuristic::Geo));
        !self.geo
    }
}

/// Every built-in heuristic.
pub open spec fn all_heuristics() -> Set<Heuristic> {
    set![Heuristic::Geo]
}

/// The heuristic of a name, whatever the case of its letters.
pub open spec fn heuristic_named(s: Seq<char>) -> Option<Heuristic> {
    if text::lower_text(s) == "geo"@ {
        Some(Heuristic::Geo)
    } else {
        None
    }
}

/// What is said of a name that no heuristic has.
pub open spec fn unknown_heuristic(name: Seq<char>) -> Seq<char> {
    "unknown heuristic '"@ + name + "'. Valid: all, geo, none"@
}

/// The heuristics that one piece of text stands for: all of them, none, or the one that it
/// names, or else a message.
pub open spec fn heuristics_in(name: Seq<char>) -> Result<Set<Heuristic>, Seq<char>> {
    if text::lower_text(name) == "all"@ {
        Ok(all_heuristics())
    } else if text::lower_text(name) == "none"@ {
        Ok(Set::empty())
    } else {
        match heuristic_named(name) {
            None => Err(unknown_heuristic(name)),
            Some(h) => Ok(set![h]),
        }
    }
}

/// The heuristics that pieces of text stand for together, white space around them aside, or
/// the message for the first that stands for none.
pub open spec fn heuristics_of(pieces: Seq<Seq<char>>) -> Result<Set<Heuristic>, Seq<char>>
    decreases pieces.len(),
{
    if pieces.len() == 0 {
        Ok(Set::empty())
    } else {
        match heuristics_of(pieces.drop_last()) {
            Err(e) => Err(e),
            Ok(found) => match heuristics_in(text::trimmed(pieces.last())) {
                Err(e) => Err(e),
                Ok(more) => Ok(found.union(more)),
            },
        }
    }
}

/// The heuristics that a text stands for: `all`, `none` and names, between commas.
pub open spec fn heuristics_named(s: Seq<char>) -> Result<Set<Heuristic>, Seq<char>> {
    heuristics_of(text::comma_pieces(s))
}

/// The canonical text of a set of heuristics.
pub open spec fn heuristics_text(set: Set<Heuristic>) -> Seq<char> {
    if set.contains(Heuristic::Geo) {
        "geo"@
    } else {
        "none"@
    }
}

impl Heuristic {
    /// All built-in heuristics.
    pub fn all() -> (r: Vec<Heuristic>)
        ensures
            r@ == seq![Heuristic::Geo],
            r@.to_set() == all_heuristics(),
    {
        let r = vec![Heuristic::Geo];
        assert(r@ == seq![Heuristic::Geo]);
        assert(r@.to_set() == all_heuristics()) by {
            assert(r@[0] == Heuristic::Geo);
            assert forall|h: Heuristic| r@.to_set().contains(h) by {
                assert(r@.contains(h));
            }
        }
        r
    }

    /// The lowercase name of this heuristic.
    pub open spec fn label(self) -> Seq<char> {
        match self {
            Heuristic::Geo => "geo"@,
        }
    }

    /// Lowercase string name of this heuristic.
    pub fn as_str(self) -> (r: &'static str)
        ensures
            r@ == self.label(),
    {
        match self {
            Heuristic::Geo => "geo",
        }
    }

    /// Parses a heuristic name. Case-insensitive.
    pub fn from_name(s: &str) -> (r: Option<Self>)
        ensures
            r == heuristic_named(s@),
    {
        let lower = text::to_lower(s);
        if text::same_text(lower.as_str(), "geo") {
            Some(Heuristic::Geo)
        } else {
            None
        }
    }

    /// Parses one piece of a heuristic string: "all", "none" or a name.
    fn parse_piece(name: &str) -> (r: Result<HeuristicSet, String>)
        ensures
            (match r {
                Ok(set) => Ok(set@),
                Err(e) => Err(e@),
            }) == heuristics_in(name@),
    {
        let lower = text::to_lower(name);
        if text::same_text(lower.as_str(), "all") {
            return Ok(HeuristicSet::all());
        }
        if text::same_text(lower.as_str(), "none") {
            return Ok(HeuristicSet::none());
        }
        match Heuristic::from_name(name) {
            None => Err(
                text::join3("unknown heuristic '", name, "'. Valid: all, geo, none"),
            ),
            Some(h) => {
                let mut set = HeuristicSet::none();
                set.insert(h);
                assert(set@ == set![h]);
                Ok(set)
            },
        }
    }

    /// Parses a comma-separated heuristic string into a set.
    ///
    /// Accepts "all" (every built-in heuristic), "none" (empty set), "geo", or
    /// comma-separated combinations.
    pub fn parse_set(s: &str) -> (r: Result<HeuristicSet, String>)
        ensures
            (match r {
                Ok(set) => Ok(set@),
                Err(e) => Err(e@),
            }) == heuristics_named(s@),
    {
        let pieces = text::split_commas(s);
        let ghost shown = text::comma_pieces(s@);
        let mut set = HeuristicSet::none();
        let mut i: usize = 0;
        assert(shown.take(0) == Seq::<Seq<char>>::empty());
        while i < pieces.len()
            invariant
                i <= pieces@.len(),
                shown == pieces@.map_values(|v: Vec<char>| v@),
                heuristics_of(shown.take(i as int)) == Ok::<Set<Heuristic>, Seq<char>>(set@),
                heuristics_named(s@) == heuristics_of(shown),
            decreases pieces@.len() - i,
        {
            let name = text::string_of(&text::trim_chars(&pieces[i]));
            assert(shown.take(i + 1).drop_last() == shown.take(i as int));
            assert(shown.take(i + 1).last() == pieces@[i as int]@);
            match Heuristic::parse_piece(name.as_str()) {
                Err(e) => {
                    proof {
                        lemma_unknown_heuristic(shown, i + 1);
                    }
                    return Err(e);
                },
                Ok(more) => {
                    set.extend(&more);
                },
            }
            i += 1;
        }
        assert(shown.take(i as int) == shown);
        Ok(set)
    }

    /// Writes a set of heuristics in its canonical form, the inverse of
    /// [`parse_set`](Self::parse_set).
    ///
    /// Lowercase names in order, joined by `","`, or `"none"` for an empty set.
    pub fn format_set(heuristics: &HeuristicSet) -> (r: String)
        ensures
            r@ == heuristics_text(heuristics@),
    {
        if heuristics.contains(Heuristic::Geo) {
            "geo".to_owned()
        } else {
            "none".to_owned()
        }
    }
}

/// An error in the first `n` pieces is the error of all of them.
proof fn lemma_unknown_heuristic(pieces: Seq<Seq<char>>, n: int)
    requires
        0 <= n <= pieces.len(),
        heuristics_of(pieces.take(n)) is Err,
    ensures
        heuristics_of(pieces) == heuristics_of(pieces.take(n)),
    decreases pieces.len() - n,
{
    if n == pieces.len() {
        assert(pieces.take(n) == pieces);
    } else {
        assert(pieces.take(n + 1).drop_last() == pieces.take(n));
        lemma_unknown_heuristic(pieces, n + 1);
    }
}

/// A set of heuristics that is written and parsed again is the same set.
pub proof fn law_heuristics_parse_back(set: Set<Heuristic>)
    ensures
        heuristics_named(heuristics_text(set)) == Ok::<Set<Heuristic>, Seq<char>>(set),
{
    reveal_strlit("geo");
    reveal_strlit("all");
    reveal_strlit("none");
    let geo = "geo"@;
    let none = "none"@;
    assert(text::lower_text(geo) == geo);
    assert(text::lower_text(none) == none);
    assert(geo[0] != "all"@[0]);
    assert(none.len() != "all"@.len());
    assert(geo.len() != none.len());
    if set.contains(Heuristic::Geo) {
        assert(set == set![Heuristic::Geo]) by {
            assert forall|h: Heuristic| set.contains(h) == set![Heuristic::Geo].contains(h) by {
                assert(h == Heuristic::Geo);
            }
        }
        text::lemma_one_piece(geo);
        assert(seq![geo].drop_last() == Seq::<Seq<char>>::empty());
        assert(text::trimmed(geo) == geo);
        reveal_with_fuel(heuristics_of, 2);
        assert(Set::<Heuristic>::empty().union(set![Heuristic::Geo]) == set);
    } else {
        text::lemma_one_piece(none);
        assert(seq![none].drop_last() == Seq::<Seq<char>>::empty());
        assert(text::trimmed(none) == none);
        reveal_with_fuel(heuristics_of, 2);
        assert(Set::<Heuristic>::empty().union(Set::empty()) == Set::<Heuristic>::empty());
        assert(set == Set::<Heuristic>::empty()) by {
            assert forall|h: Heuristic| !set.contains(h) by {
                assert(h == Heuristic::Geo);
            }
        }
    }
}

// ---- Type tags ----

/// Logical type tag for an RDB entry, used to route entries to the correct schema and
/// builder.
#[derive(Debug, Clone, Copy, PartialEq, Eq, Hash, PartialOrd, Ord, Structural)]
pub enum TypeTag {
    /// Plain string key.
    String,
    /// List of byte strings (quicklist, linkedlist, ziplist, listpack).
    List,
    /// Unordered collection of unique byte strings (hashtable, intset, listpack).
    UnorderedSet,
    /// Sorted set of (member, score) pairs (skiplist, ziplist, listpack).
    SortedSet,
    /// Field/value map with an optional expiry of each field (hashtable, ziplist, zipmap,
    /// listpack).
    Hash,
    /// Virtual type: a sorted set whose scores are all valid 52-bit geohashes. Emitted only
    /// when the Geo heuristic is enabled.
    Geo,
    /// Virtual type: a string whose bytes are a HyperLogLog sketch (dense or sparse
    /// encoding).
    HyperLogLog,
    /// Module-serialized value (`RDB_TYPE_MODULE_2`).
    Module,
    /// Stream (`RDB_TYPE_STREAM_LISTPACKS*`).
    Stream,
}

/// The type tags, in the order in which they are declared.
pub open spec fn all_tags() -> Seq<TypeTag> {
    seq![
        TypeTag::String,
        TypeTag::List,
        TypeTag::UnorderedSet,
        TypeTag::SortedSet,
        TypeTag::Hash,
        TypeTag::Geo,
        TypeTag::HyperLogLog,
        TypeTag::Module,
        TypeTag::Stream,
    ]
}

/// The tag of a name, whatever the case of its letters.
pub open spec fn tag_named(s: Seq<char>) -> Option<TypeTag> {
    let l = text::lower_text(s);
    if l == "string"@ {
        Some(TypeTag::String)
    } else if l == "list"@ {
        Some(TypeTag::List)
    } else if l == "set"@ {
        Some(TypeTag::UnorderedSet)
    } else if l == "zset"@ {
        Some(TypeTag::SortedSet)
    } else if l == "hash"@ {
        Some(TypeTag::Hash)
    } else if l == "geo"@ {
        Some(TypeTag::Geo)
    } else if l == "hll"@ || l == "hyperloglog"@ {
        Some(TypeTag::HyperLogLog)
    } else if l == "module"@ {
        Some(TypeTag::Module)
    } else if l == "stream"@ {
        Some(TypeTag::Stream)
    } else {
        None
    }
}

/// What is said of a name that no tag has.
pub open spec fn unknown_tag(name: Seq<char>) -> Seq<char> {
    "unknown type '"@ + name + "'. Valid: "@
        + "string, list, set, zset, hash, geo, hll, module, stream"@
}

/// The tags that pieces of text name, white space around them aside, or a message for the
/// first that names none.
pub open spec fn tags_of(pieces: Seq<Seq<char>>) -> Result<Set<TypeTag>, Seq<char>>
    decreases pieces.len(),
{
    if pieces.len() == 0 {
        Ok(Set::empty())
    } else {
        match tags_of(pieces.drop_last()) {
            Err(e) => Err(e),
            Ok(found) => match tag_named(text::trimmed(pieces.last())) {
                None => Err(unknown_tag(text::trimmed(pieces.last()))),
                Some(t) => Ok(found.insert(t)),
            },
        }
    }
}

proof fn lemma_unknown_tag(pieces: Seq<Seq<char>>, n: int)
    requires
        0 <= n <= pieces.len(),
        tags_of(pieces.take(n)) is Err,
    ensures
        tags_of(pieces) == tags_of(pieces.take(n)),
    decreases pieces.len() - n,
{
    if n == pieces.len() {
        assert(pieces.take(n) == pieces);
    } else {
        assert(pieces.take(n + 1).drop_last() == pieces.take(n));
        lemma_unknown_tag(pieces, n + 1);
    }
}

/// A set of type tags.
#[derive(Debug, Clone)]
pub struct TagSet {
    tags: Vec<TypeTag>,
}

impl View for TagSet {
    type V = Set<TypeTag>;

    closed spec fn view(&self) -> Set<TypeTag> {
        self.tags@.to_set()
    }
}

impl TagSet {
    /// The set without tags.
    pub fn new() -> (r: Self)
        ensures
            r@ == Set::<TypeTag>::empty(),
    {
        let r = TagSet { tags: Vec::new() };
        assert(r@ == Set::<TypeTag>::empty());
        r
    }

    /// A copy of the set.
    pub fn copy(&self) -> (r: Self)
        ensures
            r@ == self@,
    {
        let mut tags: Vec<TypeTag> = Vec::new();
        let mut i: usize = 0;
        while i < self.tags.len()
            invariant
                i <= self.tags@.len(),
                tags@ == self.tags@.take(i as int),
            decreases self.tags@.len() - i,
        {
            tags.push(self.tags[i]);
            i += 1;
            assert(tags@ == self.tags@.take(i as int));
        }
        assert(self.tags@.take(i as int) == self.tags@);
        TagSet { tags }
    }

    /// Whether a tag is in the set.
    pub fn contains(&self, tag: TypeTag) -> (r: bool)
        ensures
            r == self@.contains(tag),
    {
        let mut i: usize = 0;
        while i < self.tags.len()
            invariant
                i <= self.tags@.len(),
                forall|k: int| 0 <= k < i ==> self.tags@[k] != tag,
            decreases self.tags@.len() - i,
        {
            if self.tags[i] == tag {
                return true;
            }
            i += 1;
        }
        assert(!self.tags@.contains(tag));
        false
    }

    /// Adds a tag.
    pub fn insert(&mut self, tag: TypeTag)
        ensures
            final(self)@ == old(self)@.insert(tag),
    {
        if !self.contains(tag) {
            let ghost before = self.tags@;
            assert(!before.contains(tag));
            self.tags.push(tag);
            assert(self.tags@.to_set() == before.to_set().insert(tag)) by {
                assert forall|t: TypeTag|
                    self.tags@.to_set().contains(t) == before.to_set().insert(tag).contains(t) by {
                    if before.contains(t) {
                        let k = before.index_of(t);
                        assert(self.tags@[k] == t);
                    }
                    assert(self.tags@[before.len() as int] == tag);
                }
            }
        } else {
            assert(self@ == old(self)@.insert(tag));
        }
    }
}

impl TypeTag {
    /// All type tags, for iteration.
    pub fn all() -> (r: Vec<TypeTag>)
        ensures
            r@ == all_tags(),
    {
        let r = vec![
            TypeTag::String,
            TypeTag::List,
            TypeTag::UnorderedSet,
            TypeTag::SortedSet,
            TypeTag::Hash,
            TypeTag::Geo,
            TypeTag::HyperLogLog,
            TypeTag::Module,
            TypeTag::Stream,
        ];
        assert(r@ == all_tags());
        r
    }

    /// The name of this type.
    pub open spec fn label(self) -> Seq<char> {
        match self {
            TypeTag::String => "string"@,
            TypeTag::List => "list"@,
            TypeTag::UnorderedSet => "set"@,
            TypeTag::SortedSet => "zset"@,
            TypeTag::Hash => "hash"@,
            TypeTag::Geo => "geo"@,
            TypeTag::HyperLogLog => "hyperloglog"@,
            TypeTag::Module => "module"@,
            TypeTag::Stream => "stream"@,
        }
    }

    /// The place of this tag among all tags.
    pub open spec fn rank(self) -> int {
        match self {
            TypeTag::String => 0,
            TypeTag::List => 1,
            TypeTag::UnorderedSet => 2,
            TypeTag::SortedSet => 3,
            TypeTag::Hash => 4,
            TypeTag::Geo => 5,
            TypeTag::HyperLogLog => 6,
            TypeTag::Module => 7,
            TypeTag::Stream => 8,
        }
    }

    /// The place of this tag among all tags.
    pub fn index(self) -> (r: usize)
        ensures
            r as int == self.rank(),
            r < 9,
    {
        match self {
            TypeTag::String => 0,
            TypeTag::List => 1,
            TypeTag::UnorderedSet => 2,
            TypeTag::SortedSet => 3,
            TypeTag::Hash => 4,
            TypeTag::Geo => 5,
            TypeTag::HyperLogLog => 6,
            TypeTag::Module => 7,
            TypeTag::Stream => 8,
        }
    }

    /// Returns the type name as used in the `type` column.
    pub fn as_str(self) -> (r: &'static str)
        ensures
            r@ == self.label(),
    {
        match self {
            TypeTag::String => "string",
            TypeTag::List => "list",
            TypeTag::UnorderedSet => "set",
            TypeTag::SortedSet => "zset",
            TypeTag::Hash => "hash",
            TypeTag::Geo => "geo",
            TypeTag::HyperLogLog => "hyperloglog",
            TypeTag::Module => "module",
            TypeTag::Stream => "stream",
        }
    }

    /// Comma-separated list of valid type names.
    pub fn valid_cli_names() -> (r: &'static str)
        ensures
            r@ == "string, list, set, zset, hash, geo, hll, module, stream"@,
    {
        "string, list, set, zset, hash, geo, hll, module, stream"
    }

    /// Parses a comma-separated type name string into a set of tags.
    pub fn parse_set(s: &str) -> (r: Result<TagSet, String>)
        ensures
            (match r {
                Ok(set) => Ok(set@),
                Err(e) => Err(e@),
            }) == tags_of(text::comma_pieces(s@)),
    {
        let pieces = text::split_commas(s);
        let ghost shown = text::comma_pieces(s@);
        let mut set = TagSet::new();
        let mut i: usize = 0;
        assert(shown.take(0) == Seq::<Seq<char>>::empty());
        while i < pieces.len()
            invariant
                i <= pieces@.len(),
                shown == pieces@.map_values(|v: Vec<char>| v@),
                shown == text::comma_pieces(s@),
                tags_of(shown.take(i as int)) == Ok::<Set<TypeTag>, Seq<char>>(set@),
            decreases pieces@.len() - i,
        {
            let name = text::string_of(&text::trim_chars(&pieces[i]));
            assert(shown.take(i + 1).drop_last() == shown.take(i as int));
            assert(shown.take(i + 1).last() == pieces@[i as int]@);
            match TypeTag::from_cli_name(name.as_str()) {
                None => {
                    proof {
                        lemma_unknown_tag(shown, i + 1);
                    }
                    return Err(
                        text::join3("unknown type '", name.as_str(), "'. Valid: ").concat(
                            TypeTag::valid_cli_names(),
                        ),
                    );
                },
                Some(t) => {
                    set.insert(t);
                },
            }
            i += 1;
        }
        assert(shown.take(i as int) == shown);
        Ok(set)
    }

    /// Parses a type name into a tag. Case-insensitive.
    ///
    /// Accepts the names of [`as_str`](Self::as_str), and "hll".
    pub fn from_cli_name(s: &str) -> (r: Option<TypeTag>)
        ensures
            r == tag_named(s@),
    {
        let lower = text::to_lower(s);
        let l = lower.as_str();
        if text::same_text(l, "string") {
            Some(TypeTag::String)
        } else if text::same_text(l, "list") {
            Some(TypeTag::List)
        } else if text::same_text(l, "set") {
            Some(TypeTag::UnorderedSet)
        } else if text::same_text(l, "zset") {
            Some(TypeTag::SortedSet)
        } else if text::same_text(l, "hash") {
            Some(TypeTag::Hash)
        } else if text::same_text(l, "geo") {
            Some(TypeTag::Geo)
        } else if text::same_text(l, "hll") || text::same_text(l, "hyperloglog") {
            Some(TypeTag::HyperLogLog)
        } else if text::same_text(l, "module") {
            Some(TypeTag::Module)
        } else if text::same_text(l, "stream") {
            Some(TypeTag::Stream)
        } else {
            None
        }
    }
}

/// Every tag has its own place, and the list of all tags holds it there.
pub proof fn law_all_tags_are_listed(tag: TypeTag)
    ensures
        0 <= tag.rank() < all_tags().len(),
        all_tags()[tag.rank()] == tag,
        all_tags().no_duplicates(),
{
}

/// The name of a tag, parsed, is that tag.
pub proof fn law_tag_names_parse_back(tag: TypeTag)
    ensures
        tag_named(tag.label()) == Some(tag),
{
    reveal_strlit("string");
    reveal_strlit("list");
    reveal_strlit("set");
    reveal_strlit("zset");
    reveal_strlit("hash");
    reveal_strlit("geo");
    reveal_strlit("hll");
    reveal_strlit("hyperloglog");
    reveal_strlit("module");
    reveal_strlit("stream");
    assert(text::lower_text(tag.label()) == tag.label());
    assert("string"@[1] != "module"@[1]);
    assert("string"@[1] == 't' && "stream"@[2] == 'r' && "string"@[3] != "stream"@[3]);
    assert("list"@[0] != "zset"@[0] && "list"@[0] != "hash"@[0] && "zset"@[0] != "hash"@[0]);
    assert("set"@[0] != "geo"@[0] && "set"@[0] != "hll"@[0] && "geo"@[0] != "hll"@[0]);
    assert("module"@[0] != "stream"@[0]);
}

// ---- Entries ----

/// The tag of an entry.
pub open spec fn tag_of(e: RdbEntryV) -> TypeTag {
    match e.value {
        RdbValueV::String(data) => if detect::looks_like_hll(data) {
            TypeTag::HyperLogLog
        } else {
            TypeTag::String
        },
        RdbValueV::List(_) => TypeTag::List,
        RdbValueV::UnorderedSet(_) => TypeTag::UnorderedSet,
        RdbValueV::SortedSet(_) => TypeTag::SortedSet,
        RdbValueV::Hash(_) => TypeTag::Hash,
        RdbValueV::Module(_) => TypeTag::Module,
        RdbValueV::Stream(_) => TypeTag::Stream,
    }
}

/// Determines the primary tag for an RDB entry.
///
/// Strings with the `HYLL` magic header are tagged as `HyperLogLog` (the raw bytes still
/// parse as a string; this function tells them apart). Sorted sets are always `SortedSet`:
/// geo detection is additive, see [`is_geo_entry`].
pub fn type_tag_for(entry: &RdbEntry) -> (r: Option<TypeTag>)
    ensures
        r == Some(tag_of(entry@)),
{
    match &entry.value {
        RdbValue::String(data) => {
            if detect::is_hll(data.as_slice()) {
                Some(TypeTag::HyperLogLog)
            } else {
                Some(TypeTag::String)
            }
        },
        RdbValue::List(_) => Some(TypeTag::List),
        RdbValue::UnorderedSet(_) => Some(TypeTag::UnorderedSet),
        RdbValue::SortedSet(_) => Some(TypeTag::SortedSet),
        RdbValue::Hash(_) => Some(TypeTag::Hash),
        RdbValue::Module(_) => Some(TypeTag::Module),
        RdbValue::Stream(_) => Some(TypeTag::Stream),
    }
}

/// One at least.
pub open spec fn at_least_one(n: nat) -> nat {
    if n == 0 {
        1
    } else {
        n
    }
}

/// The rows of stream entries: one for each field, one for an entry without fields.
pub open spec fn stream_rows(entries: Seq<StreamEntryV>) -> nat
    decreases entries.len(),
{
    if entries.len() == 0 {
        0
    } else {
        stream_rows(entries.drop_last()) + at_least_one(entries.last().fields.len())
    }
}

/// The number of rows of a value: one for each element, one for an empty collection.
pub open spec fn row_count(v: RdbValueV) -> nat {
    match v {
        RdbValueV::String(_) => 1,
        RdbValueV::List(items) => at_least_one(items.len()),
        RdbValueV::UnorderedSet(items) => at_least_one(items.len()),
        RdbValueV::SortedSet(pairs) => at_least_one(pairs.len()),
        RdbValueV::Hash(fields) => at_least_one(fields.len()),
        RdbValueV::Module(data) => at_least_one(data.values.len()),
        RdbValueV::Stream(data) => at_least_one(stream_rows(data.entries)),
    }
}

/// A count that stops at the largest 64-bit number.
pub open spec fn capped(n: nat) -> nat {
    if n > u64::MAX {
        u64::MAX as nat
    } else {
        n
    }
}

fn at_least_one_of(n: usize) -> (r: u64)
    ensures
        r as nat == at_least_one(n as nat),
{
    if n == 0 {
        1
    } else {
        n as u64
    }
}

/// The number of Arrow rows an RDB entry will produce.
///
/// Collection types produce one row per element, or one null row if they are empty.
pub fn expected_row_count(entry: &RdbEntry) -> (r: u64)
    ensures
        r as nat == capped(row_count(entry@.value)),
{
    match &entry.value {
        RdbValue::String(_) => 1,
        RdbValue::List(elems) => at_least_one_of(elems.len()),
        RdbValue::UnorderedSet(members) => at_least_one_of(members.len()),
        RdbValue::SortedSet(pairs) => at_least_one_of(pairs.len()),
        RdbValue::Hash(fields) => at_least_one_of(fields.len()),
        RdbValue::Module(data) => at_least_one_of(data.values.len()),
        RdbValue::Stream(data) => {
            let ghost shown = data@.entries;
            let mut total: u64 = 0;
            let mut i: usize = 0;
            assert(shown.take(0) == Seq::<StreamEntryV>::empty());
            while i < data.entries.len()
                invariant
                    i <= data.entries@.len(),
                    shown == data@.entries,
                    total as nat == capped(stream_rows(shown.take(i as int))),
                decreases data.entries@.len() - i,
            {
                assert(shown.take(i + 1).drop_last() == shown.take(i as int));
                assert(shown.take(i + 1).last() == data.entries@[i as int]@);
                let n: u64 = at_least_one_of(data.entries[i].fields.len());
                total = total.saturating_add(n);
                i += 1;
            }
            assert(shown.take(i as int) == shown);
            if total == 0 {
                1
            } else {
                total
            }
        },
    }
}

/// Whether an entry is a complete sorted set whose scores are all geohashes.
pub open spec fn is_geo_value(e: RdbEntryV) -> bool {
    match e.value {
        RdbValueV::SortedSet(members) => e.total_elements is None && detect::looks_like_geo(members),
        _ => false,
    }
}

/// Returns true if a sorted-set entry looks like geo data (all scores are valid 52-bit
/// geohashes).
///
/// A chunk of a sorted set never does: it is only a window into the full key, and a later
/// chunk may hold a score that is no geohash.
pub fn is_geo_entry(entry: &RdbEntry) -> (r: bool)
    ensures
        r == is_geo_value(entry@),
{
    if entry.total_elements.is_some() {
        return false;
    }
    match &entry.value {
        RdbValue::SortedSet(members) => detect::is_geo(members),
        _ => false,
    }
}

/// Whether an entry is shown under the Geo tag too.
pub open spec fn emits_geo(heuristics: Set<Heuristic>, e: RdbEntryV) -> bool {
    heuristics.contains(Heuristic::Geo) && is_geo_value(e)
}

/// Whether the Geo heuristic applies to an entry that has already been classified with
/// [`type_tag_for`].
pub fn should_emit_geo(heuristics: &HeuristicSet, tag: TypeTag, entry: &RdbEntry) -> (r: bool)
    ensures
        r == (tag == TypeTag::SortedSet && emits_geo(heuristics@, entry@)),
{
    heuristics.contains(Heuristic::Geo) && tag == TypeTag::SortedSet && is_geo_entry(entry)
}

/// Geo detection is additive: no entry has Geo as its primary tag, and one that is shown
/// under Geo too has `SortedSet` as its primary tag.
pub proof fn law_geo_is_additive(heuristics: Set<Heuristic>, e: RdbEntryV)
    ensures
        tag_of(e) != TypeTag::Geo,
        emits_geo(heuristics, e) ==> tag_of(e) == TypeTag::SortedSet,
{
}

/// A chunk of a sorted set is never shown as geo data.
pub proof fn law_chunks_are_not_geo(heuristics: Set<Heuristic>, e: RdbEntryV)
    requires
        e.total_elements is Some,
    ensures
        !emits_geo(heuristics, e),
{
}

// ---- Columns ----

/// A column that may hold nulls.
pub open spec fn nullable(name: Seq<char>, kind: ColumnKind) -> ColumnV {
    ColumnV { name, kind, nullable: true }
}

/// A column without nulls.
pub open spec fn required(name: Seq<char>, kind: ColumnKind) -> ColumnV {
    ColumnV { name, kind, nullable: false }
}

/// The 8 common columns that every type starts with.
pub open spec fn common_columns() -> Seq<ColumnV> {
    seq![
        required("db"@, ColumnKind::UInt32),
        required("key"@, ColumnKind::Binary),
        required("type"@, ColumnKind::Utf8),
        nullable("expiry_ms"@, ColumnKind::Int64),
        nullable("lru_idle_secs"@, ColumnKind::UInt64),
        nullable("lfu_frequency"@, ColumnKind::UInt8),
        required("encoding"@, ColumnKind::Utf8),
        required("num_elements"@, ColumnKind::UInt64),
    ]
}

/// The columns that a type has of its own.
pub open spec fn own_columns(tag: TypeTag) -> Seq<ColumnV> {
    match tag {
        TypeTag::String => seq![required("value"@, ColumnKind::Binary)],
        TypeTag::List => seq![
            nullable("index"@, ColumnKind::UInt64),
            nullable("element"@, ColumnKind::Binary),
        ],
        TypeTag::UnorderedSet => seq![nullable("member"@, ColumnKind::Binary)],
        TypeTag::SortedSet => seq![
            nullable("member"@, ColumnKind::Binary),
            nullable("score"@, ColumnKind::Float64),
        ],
        TypeTag::Hash => seq![
            nullable("field"@, ColumnKind::Binary),
            nullable("field_value"@, ColumnKind::Binary),
            nullable("field_expiry_ms"@, ColumnKind::Int64),
        ],
        TypeTag::Geo => seq![
            nullable("member"@, ColumnKind::Binary),
            nullable("longitude"@, ColumnKind::Float64),
            nullable("latitude"@, ColumnKind::Float64),
            nullable("geohash_score"@, ColumnKind::Float64),
        ],
        TypeTag::HyperLogLog => seq![
            required("hll_encoding"@, ColumnKind::Utf8),
            required("cached_cardinality"@, ColumnKind::Int64),
            required("raw_value"@, ColumnKind::Binary),
        ],
        TypeTag::Module => seq![
            required("module_name"@, ColumnKind::Utf8),
            required("module_version"@, ColumnKind::UInt32),
            required("value_index"@, ColumnKind::UInt32),
            required("opcode"@, ColumnKind::Utf8),
            nullable("int_value"@, ColumnKind::UInt64),
            nullable("double_value"@, ColumnKind::Float64),
            nullable("string_value"@, ColumnKind::Binary),
        ],
        TypeTag::Stream => seq![
            nullable("stream_id"@, ColumnKind::Utf8),
            nullable("field"@, ColumnKind::Binary),
            nullable("field_value"@, ColumnKind::Binary),
        ],
    }
}

/// All columns of a type.
pub open spec fn columns_of(tag: TypeTag) -> Seq<ColumnV> {
    common_columns() + own_columns(tag)
}

/// The schemas of any two types start with the same 8 columns, which the columns of the
/// type itself follow.
pub proof fn law_common_prefix(a: TypeTag, b: TypeTag)
    ensures
        columns_of(a).len() == 8 + own_columns(a).len(),
        columns_of(a).take(8) == columns_of(b).take(8),
        columns_of(a).skip(8) == own_columns(a),
{
    assert(columns_of(a).take(8) == common_columns());
    assert(columns_of(b).take(8) == common_columns());
    assert(columns_of(a).skip(8) == own_columns(a));
}

/// A column: its name, kind and nullability.
#[derive(Debug, Clone, Copy)]
pub struct ColumnInfo {
    pub name: &'static str,
    pub kind: ColumnKind,
    pub nullable: bool,
}

impl View for ColumnInfo {
    type V = ColumnV;

    open spec fn view(&self) -> ColumnV {
        ColumnV { name: self.name@, kind: self.kind, nullable: self.nullable }
    }
}

/// Columns, each by what it holds.
pub open spec fn infos(columns: Seq<ColumnInfo>) -> Seq<ColumnV> {
    Seq::new(columns.len(), |i: int| columns[i]@)
}

fn add_column(columns: &mut Vec<ColumnInfo>, name: &'static str, kind: ColumnKind, nullable: bool)
    ensures
        infos(final(columns)@) == infos(old(columns)@).push(
            ColumnV { name: name@, kind, nullable },
        ),
{
    columns.push(ColumnInfo { name, kind, nullable });
    assert(infos(columns@) == infos(old(columns)@).push(ColumnV { name: name@, kind, nullable }));
}

/// The columns of a type, in order.
pub fn columns_for(tag: TypeTag) -> (r: Vec<ColumnInfo>)
    ensures
        infos(r@) == columns_of(tag),
{
    let mut c: Vec<ColumnInfo> = Vec::new();
    add_column(&mut c, "db", ColumnKind::UInt32, false);
    add_column(&mut c, "key", ColumnKind::Binary, false);
    add_column(&mut c, "type", ColumnKind::Utf8, false);
    add_column(&mut c, "expiry_ms", ColumnKind::Int64, true);
    add_column(&mut c, "lru_idle_secs", ColumnKind::UInt64, true);
    add_column(&mut c, "lfu_frequency", ColumnKind::UInt8, true);
    add_column(&mut c, "encoding", ColumnKind::Utf8, false);
    add_column(&mut c, "num_elements", ColumnKind::UInt64, false);
    assert(infos(c@) == common_columns());
    match tag {
        TypeTag::String => {
            add_column(&mut c, "value", ColumnKind::Binary, false);
        },
        TypeTag::List => {
            add_column(&mut c, "index", ColumnKind::UInt64, true);
            add_column(&mut c, "element", ColumnKind::Binary, true);
        },
        TypeTag::UnorderedSet => {
            add_column(&mut c, "member", ColumnKind::Binary, true);
        },
        TypeTag::SortedSet => {
            add_column(&mut c, "member", ColumnKind::Binary, true);
            add_column(&mut c, "score", ColumnKind::Float64, true);
        },
        TypeTag::Hash => {
            add_column(&mut c, "field", ColumnKind::Binary, true);
            add_column(&mut c, "field_value", ColumnKind::Binary, true);
            add_column(&mut c, "field_expiry_ms", ColumnKind::Int64, true);
        },
        TypeTag::Geo => {
            add_column(&mut c, "member", ColumnKind::Binary, true);
            add_column(&mut c, "longitude", ColumnKind::Float64, true);
            add_column(&mut c, "latitude", ColumnKind::Float64, true);
            add_column(&mut c, "geohash_score", ColumnKind::Float64, true);
        },
        TypeTag::HyperLogLog => {
            add_column(&mut c, "hll_encoding", ColumnKind::Utf8, false);
            add_column(&mut c, "cached_cardinality", ColumnKind::Int64, false);
            add_column(&mut c, "raw_value", ColumnKind::Binary, false);
        },
        TypeTag::Module => {
            add_column(&mut c, "module_name", ColumnKind::Utf8, false);
            add_column(&mut c, "module_version", ColumnKind::UInt32, false);
            add_column(&mut c, "value_index", ColumnKind::UInt32, false);
            add_column(&mut c, "opcode", ColumnKind::Utf8, false);
            add_column(&mut c, "int_value", ColumnKind::UInt64, true);
            add_column(&mut c, "double_value", ColumnKind::Float64, true);
            add_column(&mut c, "string_value", ColumnKind::Binary, true);
        },
        TypeTag::Stream => {
            add_column(&mut c, "stream_id", ColumnKind::Utf8, true);
            add_column(&mut c, "field", ColumnKind::Binary, true);
            add_column(&mut c, "field_value", ColumnKind::Binary, true);
        },
    }
    assert(infos(c@) == columns_of(tag));
    c
}

/// The 8 common prefix columns shared by all type schemas.
pub fn common_fields() -> (r: Vec<Field>)
    ensures
        field_columns(r@) == known(common_columns()),
{
    let r = vec![
        new_field("db", ColumnKind::UInt32, false),
        new_field("key", ColumnKind::Binary, false),
        new_field("type", ColumnKind::Utf8, false),
        new_field("expiry_ms", ColumnKind::Int64, true),
        new_field("lru_idle_secs", ColumnKind::UInt64, true),
        new_field("lfu_frequency", ColumnKind::UInt8, true),
        new_field("encoding", ColumnKind::Utf8, false),
        new_field("num_elements", ColumnKind::UInt64, false),
    ];
    assert(field_columns(r@) == known(common_columns()));
    r
}

/// The schema made of columns.
fn schema_of(columns: &Vec<ColumnInfo>) -> (r: Schema)
    ensures
        schema_columns(r) == Some(infos(columns@)),
{
    let mut fields: Vec<Field> = Vec::new();
    while fields.len() < columns.len()
        invariant
            fields@.len() <= columns@.len(),
            field_columns(fields@) == known(infos(columns@)).take(fields@.len() as int),
        decreases columns@.len() - fields@.len(),
    {
        let c = columns[fields.len()];
        let ghost before = field_columns(fields@);
        fields.push(new_field(c.name, c.kind, c.nullable));
        assert(field_columns(fields@) == before.push(Some(c@)));
        assert(field_columns(fields@) == known(infos(columns@)).take(fields@.len() as int));
    }
    assert(field_columns(fields@) == known(infos(columns@)));
    new_schema(fields)
}

/// The columns of a string.
pub fn string_schema() -> (r: Schema)
    ensures
        schema_columns(r) == Some(columns_of(TypeTag::String)),
{
    schema_of(&columns_for(TypeTag::String))
}

/// The columns of a list.
pub fn list_schema() -> (r: Schema)
    ensures
        schema_columns(r) == Some(columns_of(TypeTag::List)),
{
    schema_of(&columns_for(TypeTag::List))
}

/// The columns of a set.
pub fn set_schema() -> (r: Schema)
    ensures
        schema_columns(r) == Some(columns_of(TypeTag::UnorderedSet)),
{
    schema_of(&columns_for(TypeTag::UnorderedSet))
}

/// The columns of a sorted set.
pub fn sorted_set_schema() -> (r: Schema)
    ensures
        schema_columns(r) == Some(columns_of(TypeTag::SortedSet)),
{
    schema_of(&columns_for(TypeTag::SortedSet))
}

/// The columns of a hash.
pub fn hash_schema() -> (r: Schema)
    ensures
        schema_columns(r) == Some(columns_of(TypeTag::Hash)),
{
    schema_of(&columns_for(TypeTag::Hash))
}

/// The columns of geo data.
pub fn geo_schema() -> (r: Schema)
    ensures
        schema_columns(r) == Some(columns_of(TypeTag::Geo)),
{
    schema_of(&columns_for(TypeTag::Geo))
}

/// The columns of a HyperLogLog.
pub fn hll_schema() -> (r: Schema)
    ensures
        schema_columns(r) == Some(columns_of(TypeTag::HyperLogLog)),
{
    schema_of(&columns_for(TypeTag::HyperLogLog))
}

/// The columns of a module value.
///
/// The format stores signed and unsigned module integers alike, and only the module knows
/// which is which: `int_value` has the raw 64 bits.
pub fn module_schema() -> (r: Schema)
    ensures
        schema_columns(r) == Some(columns_of(TypeTag::Module)),
{
    schema_of(&columns_for(TypeTag::Module))
}

/// The columns of a stream.
pub fn stream_schema() -> (r: Schema)
    ensures
        schema_columns(r) == Some(columns_of(TypeTag::Stream)),
{
    schema_of(&columns_for(TypeTag::Stream))
}

/// Returns the schema for a given tag.
pub fn schema_for(tag: TypeTag) -> (r: Schema)
    ensures
        schema_columns(r) == Some(columns_of(tag)),
{
    match tag {
        TypeTag::String => string_schema(),
        TypeTag::List => list_schema(),
        TypeTag::UnorderedSet => set_schema(),
        TypeTag::SortedSet => sorted_set_schema(),
        TypeTag::Hash => hash_schema(),
        TypeTag::Geo => geo_schema(),
        TypeTag::HyperLogLog => hll_schema(),
        TypeTag::Module => module_schema(),
        TypeTag::Stream => stream_schema(),
    }
}

/// The schema for a tag, ready to be shared.
pub fn schema_arc(tag: TypeTag) -> (r: Arc<Schema>)
    ensures
        schema_columns(*r) == Some(columns_of(tag)),
{
    Arc::new(schema_for(tag))
}

} // verus!
