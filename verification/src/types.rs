//! The values that the reader yields: entries, values, metadata, and errors.

use crate::opcodes;
use crate::text;
use crate::text::{comes_before, dec_string, join2, parse_signed, parse_unsigned, same_text};
use vstd::prelude::*;

verus! {

/// RDB magic string type: REDIS (legacy) or VALKEY (9.0 and later).
#[derive(Debug, Clone, Copy, PartialEq, Eq, Structural)]
pub enum RdbMagic {
    /// Legacy Redis magic; RDB versions 1 to 11.
    Redis,
    /// Valkey magic; RDB version 80.
    Valkey,
}

impl RdbMagic {
    /// The name of the magic, as it is shown to users.
    pub open spec fn label(self) -> Seq<char> {
        match self {
            RdbMagic::Redis => "REDIS"@,
            RdbMagic::Valkey => "VALKEY"@,
        }
    }

    /// The name of the magic, as it is shown to users.
    pub fn as_str(self) -> (r: &'static str)
        ensures
            r@ == self.label(),
    {
        match self {
            RdbMagic::Redis => "REDIS",
            RdbMagic::Valkey => "VALKEY",
        }
    }
}

/// Parsed RDB file header.
#[derive(Debug, Clone, Copy, PartialEq, Eq, Structural)]
pub struct RdbHeader {
    /// Which magic string the file starts with.
    pub magic: RdbMagic,
    /// RDB format version (1 to 11 for Redis, 80 for Valkey).
    pub version: u32,
}

/// AUX keys and values, each key once, in ascending order of the keys.
#[derive(Debug)]
pub struct AuxMap {
    entries: Vec<(String, String)>,
}

/// The key and value texts of a list of string pairs.
pub open spec fn pair_texts(pairs: Seq<(String, String)>) -> Seq<(Seq<char>, Seq<char>)> {
    Seq::new(pairs.len(), |i: int| (pairs[i].0@, pairs[i].1@))
}

/// Whether the first components come in strictly ascending order.
pub open spec fn keys_ascend(pairs: Seq<(Seq<char>, Seq<char>)>) -> bool {
    forall|i: int, j: int|
        0 <= i < j < pairs.len() ==> #[trigger] text::text_before(pairs[i].0, pairs[j].0)
}

/// The map that a list of pairs with distinct first components stands for.
pub open spec fn pairs_map(pairs: Seq<(Seq<char>, Seq<char>)>) -> Map<Seq<char>, Seq<char>>
    decreases pairs.len(),
{
    if pairs.len() == 0 {
        Map::empty()
    } else {
        pairs_map(pairs.drop_last()).insert(pairs.last().0, pairs.last().1)
    }
}

proof fn lemma_pairs_map(pairs: Seq<(Seq<char>, Seq<char>)>)
    requires
        keys_ascend(pairs),
    ensures
        forall|i: int|
            0 <= i < pairs.len() ==> pairs_map(pairs).contains_key((#[trigger] pairs[i]).0)
                && pairs_map(pairs)[pairs[i].0] == pairs[i].1,
        forall|k: Seq<char>| #[trigger]
            pairs_map(pairs).contains_key(k) ==> exists|i: int|
                0 <= i < pairs.len() && (#[trigger] pairs[i]).0 == k,
    decreases pairs.len(),
{
    if pairs.len() > 0 {
        let front = pairs.drop_last();
        assert(keys_ascend(front)) by {
            assert forall|i: int, j: int| 0 <= i < j < front.len() implies #[trigger] text::text_before(
                front[i].0,
                front[j].0,
            ) by {
                assert(text::text_before(pairs[i].0, pairs[j].0));
            }
        }
        lemma_pairs_map(front);
        assert forall|i: int| 0 <= i < pairs.len() implies pairs_map(pairs).contains_key(
            (#[trigger] pairs[i]).0,
        ) && pairs_map(pairs)[pairs[i].0] == pairs[i].1 by {
            if i < front.len() {
                assert(front[i] == pairs[i]);
                assert(text::text_before(pairs[i].0, pairs.last().0));
                text::lemma_text_before_irreflexive(pairs[i].0);
            }
        }
        assert forall|k: Seq<char>| #[trigger] pairs_map(pairs).contains_key(k) implies exists|i: int|
            0 <= i < pairs.len() && (#[trigger] pairs[i]).0 == k by {
            if k == pairs.last().0 {
                assert(pairs[pairs.len() - 1].0 == k);
            } else {
                assert(pairs_map(front).contains_key(k));
                let i = choose|i: int| 0 <= i < front.len() && (#[trigger] front[i]).0 == k;
                assert(pairs[i].0 == k);
            }
        }
    }
}

impl View for AuxMap {
    type V = Map<Seq<char>, Seq<char>>;

    closed spec fn view(&self) -> Map<Seq<char>, Seq<char>> {
        pairs_map(self.listed())
    }
}

impl AuxMap {
    /// The keys and values in ascending order of the keys.
    pub closed spec fn listed(&self) -> Seq<(Seq<char>, Seq<char>)> {
        pair_texts(self.entries@)
    }

    #[verifier::type_invariant]
    spec fn ordered(self) -> bool {
        keys_ascend(self.listed())
    }

    /// An empty map.
    pub fn new() -> (r: Self)
        ensures
            r@ == Map::<Seq<char>, Seq<char>>::empty(),
            r.listed().len() == 0,
    {
        AuxMap { entries: Vec::new() }
    }

    /// Where `key` stands, or where it belongs: the number of smaller keys.
    fn position(&self, key: &str) -> (r: (usize, bool))
        ensures
            r.0 <= self.listed().len(),
            forall|i: int| 0 <= i < r.0 ==> text::text_before((#[trigger] self.listed()[i]).0, key@),
            r.1 ==> r.0 < self.listed().len() && self.listed()[r.0 as int].0 == key@,
            !r.1 ==> forall|i: int|
                r.0 <= i < self.listed().len() ==> text::text_before(
                    key@,
                    (#[trigger] self.listed()[i]).0,
                ),
    {
        proof {
            use_type_invariant(self);
        }
        let mut i: usize = 0;
        while i < self.entries.len()
            invariant
                keys_ascend(self.listed()),
                self.listed().len() == self.entries@.len(),
                i <= self.entries@.len(),
                forall|k: int| 0 <= k < i ==> text::text_before((#[trigger] self.listed()[k]).0, key@),
            decreases self.entries@.len() - i,
        {
            let here = self.entries[i].0.as_str();
            assert(self.listed()[i as int].0 == here@);
            if same_text(here, key) {
                return (i, true);
            }
            if comes_before(key, here) {
                assert forall|k: int| i <= k < self.listed().len() implies text::text_before(
                    key@,
                    (#[trigger] self.listed()[k]).0,
                ) by {
                    if k > i {
                        assert(text::text_before(self.listed()[i as int].0, self.listed()[k].0));
                        text::lemma_text_before_transitive(key@, here@, self.listed()[k].0);
                    }
                }
                return (i, false);
            }
            proof {
                text::lemma_text_before_total(here@, key@);
            }
            i += 1;
        }
        (i, false)
    }

    /// The value stored under `key`.
    pub fn get(&self, key: &str) -> (r: Option<&String>)
        ensures
            match r {
                Some(v) => self@.contains_key(key@) && self@[key@] == v@,
                None => !self@.contains_key(key@),
            },
    {
        let (i, found) = self.position(key);
        proof {
            use_type_invariant(self);
            lemma_pairs_map(self.listed());
        }
        if found {
            assert(self.listed()[i as int].0 == key@);
            assert(self.listed()[i as int].1 == self.entries@[i as int].1@);
            Some(&self.entries[i].1)
        } else {
            proof {
                if self@.contains_key(key@) {
                    let k = choose|k: int|
                        0 <= k < self.listed().len() && (#[trigger] self.listed()[k]).0 == key@;
                    text::lemma_text_before_irreflexive(key@);
                }
            }
            None
        }
    }

    /// Stores `value` under `key`, in place of an earlier value if there is one.
    pub fn insert(&mut self, key: String, value: String)
        ensures
            final(self)@ == old(self)@.insert(key@, value@),
    {
        let (i, found) = self.position(key.as_str());
        proof {
            use_type_invariant(&*self);
        }
        let ghost before = self.listed();
        let ghost kt = key@;
        let ghost vt = value@;
        let mut entries: Vec<(String, String)> = Vec::new();
        std::mem::swap(&mut entries, &mut self.entries);
        if found {
            entries.set(i, (key, value));
            assert(pair_texts(entries@) == before.update(i as int, (kt, vt)));
        } else {
            entries.insert(i, (key, value));
            assert(pair_texts(entries@) == before.insert(i as int, (kt, vt)));
        }
        proof {
            lemma_placed(before, i as int, found, kt, vt);
        }
        self.entries = entries;
    }

    /// A copy of the map.
    pub fn copy(&self) -> (r: Self)
        ensures
            r@ == self@,
            r.listed() == self.listed(),
    {
        proof {
            use_type_invariant(self);
        }
        let mut entries: Vec<(String, String)> = Vec::new();
        let mut i: usize = 0;
        while i < self.entries.len()
            invariant
                i <= self.entries@.len(),
                pair_texts(entries@) == self.listed().take(i as int),
                self.listed().len() == self.entries@.len(),
            decreases self.entries@.len() - i,
        {
            let k = self.entries[i].0.clone();
            let v = self.entries[i].1.clone();
            let ghost before = entries@;
            entries.push((k, v));
            assert(pair_texts(entries@) == pair_texts(before).push(self.listed()[i as int]));
            i += 1;
            assert(pair_texts(entries@) == self.listed().take(i as int));
        }
        assert(self.listed().take(i as int) == self.listed());
        AuxMap { entries }
    }

    /// The map is that of the listed pairs.
    pub proof fn lemma_listed(&self)
        ensures
            self@ == pairs_map(self.listed()),
    {
    }

    /// The number of keys.
    pub fn len(&self) -> (r: usize)
        ensures
            r == self.listed().len(),
    {
        self.entries.len()
    }

    /// The key and value at a place in the order of the keys.
    pub fn entry(&self, i: usize) -> (r: (&str, &str))
        requires
            i < self.listed().len(),
        ensures
            (r.0@, r.1@) == self.listed()[i as int],
    {
        (self.entries[i].0.as_str(), self.entries[i].1.as_str())
    }
}

/// Placing a key among ascending keys keeps them ascending and stores the pair.
proof fn lemma_placed(
    before: Seq<(Seq<char>, Seq<char>)>,
    i: int,
    found: bool,
    k: Seq<char>,
    v: Seq<char>,
)
    requires
        keys_ascend(before),
        0 <= i <= before.len(),
        forall|j: int| 0 <= j < i ==> text::text_before((#[trigger] before[j]).0, k),
        found ==> i < before.len() && before[i].0 == k,
        !found ==> forall|j: int|
            i <= j < before.len() ==> text::text_before(k, (#[trigger] before[j]).0),
    ensures
        ({
            let after = if found {
                before.update(i, (k, v))
            } else {
                before.insert(i, (k, v))
            };
            &&& keys_ascend(after)
            &&& pairs_map(after) == pairs_map(before).insert(k, v)
        }),
{
    let after = if found {
        before.update(i, (k, v))
    } else {
        before.insert(i, (k, v))
    };
    assert forall|a: int, b: int| 0 <= a < b < after.len() implies #[trigger] text::text_before(
        after[a].0,
        after[b].0,
    ) by {
        if found {
            assert(text::text_before(before[a].0, before[b].0));
        } else {
            let a2 = if a < i {
                a
            } else {
                a - 1
            };
            let b2 = if b < i {
                b
            } else {
                b - 1
            };
            if a != i && b != i {
                assert(text::text_before(before[a2].0, before[b2].0));
            } else if a == i {
                assert(after[b] == before[b2]);
            } else {
                assert(after[a] == before[a2]);
            }
        }
    }
    lemma_pairs_map(before);
    lemma_pairs_map(after);
    let m = pairs_map(before).insert(k, v);
    assert(after[i] == (k, v));
    assert forall|x: Seq<char>| #[trigger] pairs_map(after).contains_key(x) <==> m.contains_key(x) by {
        if pairs_map(after).contains_key(x) {
            let j = choose|j: int| 0 <= j < after.len() && (#[trigger] after[j]).0 == x;
            if j != i {
                let j2 = if found || j < i {
                    j
                } else {
                    j - 1
                };
                assert(after[j] == before[j2]);
            }
        }
        if m.contains_key(x) && x != k {
            let j = choose|j: int| 0 <= j < before.len() && (#[trigger] before[j]).0 == x;
            let j2 = if found || j < i {
                j
            } else {
                j + 1
            };
            assert(after[j2] == before[j]);
        }
    }
    assert forall|x: Seq<char>| pairs_map(after).contains_key(x) implies #[trigger] pairs_map(
        after,
    )[x] == m[x] by {
        let j = choose|j: int| 0 <= j < after.len() && (#[trigger] after[j]).0 == x;
        if j != i {
            let j2 = if found || j < i {
                j
            } else {
                j - 1
            };
            assert(after[j] == before[j2]);
            if x == k {
                text::lemma_text_before_irreflexive(k);
                if j < i {
                    assert(text::text_before(after[j].0, after[i].0));
                } else {
                    assert(text::text_before(after[i].0, after[j].0));
                }
            }
        }
    }
    assert(pairs_map(after) =~= m);
}

/// File-level metadata extracted from the AUX fields at the start of the RDB.
#[derive(Debug)]
pub struct RdbMetadata {
    /// All AUX key/value pairs encountered. AUX keys that are not UTF-8 are rejected as
    /// `CorruptData`; values that are not UTF-8 are converted with replacement characters.
    pub aux: AuxMap,
}

impl Default for RdbMetadata {
    fn default() -> (r: Self)
        ensures
            r.aux@ == Map::<Seq<char>, Seq<char>>::empty(),
    {
        RdbMetadata { aux: AuxMap::new() }
    }
}

/// The value of a map at a key, if it has one.
pub open spec fn lookup(m: Map<Seq<char>, Seq<char>>, k: Seq<char>) -> Option<Seq<char>> {
    if m.contains_key(k) {
        Some(m[k])
    } else {
        None
    }
}

impl RdbMetadata {
    /// Server version string from the `valkey-ver` or, where it is missing, the
    /// `redis-ver` AUX field.
    pub fn server_version(&self) -> (r: Option<&str>)
        ensures
            (match r {
                Some(s) => Some(s@),
                None => None,
            }) == (match lookup(self.aux@, "valkey-ver"@) {
                Some(s) => Some(s),
                None => lookup(self.aux@, "redis-ver"@),
            }),
    {
        match self.aux.get("valkey-ver") {
            Some(s) => Some(s.as_str()),
            None => match self.aux.get("redis-ver") {
                Some(s) => Some(s.as_str()),
                None => None,
            },
        }
    }

    fn number(&self, key: &str) -> (r: Option<u64>)
        ensures
            (match r {
                Some(n) => Some(n as nat),
                None => None,
            }) == (match lookup(self.aux@, key@) {
                Some(s) => text::unsigned_text(s, u64::MAX as nat),
                None => None,
            }),
    {
        match self.aux.get(key) {
            Some(s) => parse_unsigned(s.as_str(), u64::MAX),
            None => None,
        }
    }

    /// Unix timestamp (seconds) when the RDB was written, from the `ctime` AUX field.
    /// `None` if the field is missing or does not hold a `u64`.
    pub fn ctime(&self) -> (r: Option<u64>)
        ensures
            (match r {
                Some(n) => Some(n as nat),
                None => None,
            }) == (match lookup(self.aux@, "ctime"@) {
                Some(s) => text::unsigned_text(s, u64::MAX as nat),
                None => None,
            }),
    {
        self.number("ctime")
    }

    /// Server memory use (bytes) at the time of the snapshot, from `used-mem`.
    pub fn used_mem(&self) -> (r: Option<u64>)
        ensures
            (match r {
                Some(n) => Some(n as nat),
                None => None,
            }) == (match lookup(self.aux@, "used-mem"@) {
                Some(s) => text::unsigned_text(s, u64::MAX as nat),
                None => None,
            }),
    {
        self.number("used-mem")
    }

    /// Replication ID, from the `repl-id` AUX field.
    pub fn repl_id(&self) -> (r: Option<&str>)
        ensures
            (match r {
                Some(s) => Some(s@),
                None => None,
            }) == lookup(self.aux@, "repl-id"@),
    {
        match self.aux.get("repl-id") {
            Some(s) => Some(s.as_str()),
            None => None,
        }
    }

    /// Replication offset, from the `repl-offset` AUX field.
    pub fn repl_offset(&self) -> (r: Option<i64>)
        ensures
            (match r {
                Some(n) => Some(n as int),
                None => None,
            }) == (match lookup(self.aux@, "repl-offset"@) {
                Some(s) => text::signed_text(s),
                None => None,
            }),
    {
        match self.aux.get("repl-offset") {
            Some(s) => parse_signed(s.as_str()),
            None => None,
        }
    }
}


/// An IEEE 754 binary64 number, held by its bits.
#[derive(Debug, Clone, Copy, PartialEq, Eq, Structural)]
pub struct Double {
    pub bits: u64,
}

/// An IEEE 754 binary32 number, held by its bits.
#[derive(Debug, Clone, Copy, PartialEq, Eq, Structural)]
pub struct Single {
    pub bits: u32,
}

/// A single hash field with an optional expiry of its own.
#[derive(Debug, Clone, PartialEq)]
pub struct HashField {
    /// Field name (arbitrary bytes).
    pub field: Vec<u8>,
    /// Field value (arbitrary bytes).
    pub value: Vec<u8>,
    /// Expiration of the field in Unix milliseconds. `None` means that the field follows
    /// the expiry of its key.
    pub expiry_ms: Option<i64>,
}

/// What a `HashField` holds.
#[verifier::ext_equal]
pub struct HashFieldV {
    pub field: Seq<u8>,
    pub value: Seq<u8>,
    pub expiry_ms: Option<i64>,
}

impl View for HashField {
    type V = HashFieldV;

    open spec fn view(&self) -> HashFieldV {
        HashFieldV { field: self.field@, value: self.value@, expiry_ms: self.expiry_ms }
    }
}

/// A single typed value from a module's RDB serialization stream.
#[derive(Debug, Clone, PartialEq)]
pub enum ModuleValue {
    /// Signed 64-bit integer.
    SignedInt(i64),
    /// Unsigned 64-bit integer.
    UnsignedInt(u64),
    /// 32-bit float.
    Float(Single),
    /// 64-bit float.
    Double(Double),
    /// Arbitrary byte string.
    String(Vec<u8>),
}

/// What a `ModuleValue` holds.
#[verifier::ext_equal]
pub enum ModuleValueV {
    SignedInt(i64),
    UnsignedInt(u64),
    Float(Single),
    Double(Double),
    String(Seq<u8>),
}

impl View for ModuleValue {
    type V = ModuleValueV;

    open spec fn view(&self) -> ModuleValueV {
        match *self {
            ModuleValue::SignedInt(n) => ModuleValueV::SignedInt(n),
            ModuleValue::UnsignedInt(n) => ModuleValueV::UnsignedInt(n),
            ModuleValue::Float(x) => ModuleValueV::Float(x),
            ModuleValue::Double(x) => ModuleValueV::Double(x),
            ModuleValue::String(s) => ModuleValueV::String(s@),
        }
    }
}

/// Module data from `RDB_TYPE_MODULE_2` entries.
#[derive(Debug, Clone, PartialEq)]
pub struct ModuleData {
    /// Decoded module name of nine characters.
    pub module_name: String,
    /// Module encoding version (low 10 bits of the module ID).
    pub module_version: u32,
    /// Typed values emitted by the module's serializer, in order.
    pub values: Vec<ModuleValue>,
}

/// What a `ModuleData` holds.
#[verifier::ext_equal]
pub struct ModuleDataV {
    pub module_name: Seq<char>,
    pub module_version: u32,
    pub values: Seq<ModuleValueV>,
}

/// The values of a module, each by what it holds.
pub open spec fn module_values(values: Seq<ModuleValue>) -> Seq<ModuleValueV> {
    Seq::new(values.len(), |i: int| values[i]@)
}

impl View for ModuleData {
    type V = ModuleDataV;

    open spec fn view(&self) -> ModuleDataV {
        ModuleDataV {
            module_name: self.module_name@,
            module_version: self.module_version,
            values: module_values(self.values@),
        }
    }
}

/// A single stream entry (one XADD).
#[derive(Debug, Clone, PartialEq)]
pub struct StreamEntry {
    /// Stream ID as "ms-seq", such as "1700000000000-0".
    pub id: String,
    /// Field-value pairs of this entry.
    pub fields: Vec<(Vec<u8>, Vec<u8>)>,
}

/// What a `StreamEntry` holds.
#[verifier::ext_equal]
pub struct StreamEntryV {
    pub id: Seq<char>,
    pub fields: Seq<(Seq<u8>, Seq<u8>)>,
}

/// Pairs of byte strings, each by its bytes.
pub open spec fn byte_pairs(pairs: Seq<(Vec<u8>, Vec<u8>)>) -> Seq<(Seq<u8>, Seq<u8>)> {
    Seq::new(pairs.len(), |i: int| (pairs[i].0@, pairs[i].1@))
}

impl View for StreamEntry {
    type V = StreamEntryV;

    open spec fn view(&self) -> StreamEntryV {
        StreamEntryV { id: self.id@, fields: byte_pairs(self.fields@) }
    }
}

/// Stream entries, each by what it holds.
pub open spec fn stream_entries(entries: Seq<StreamEntry>) -> Seq<StreamEntryV> {
    Seq::new(entries.len(), |i: int| entries[i]@)
}

/// Parsed stream data from `RDB_TYPE_STREAM_LISTPACKS*` entries.
#[derive(Debug, Clone, PartialEq)]
pub struct StreamData {
    /// Stream entries that were not deleted.
    pub entries: Vec<StreamEntry>,
    /// Number of entries that were not deleted, as the RDB states it.
    pub length: u64,
    /// Last entry ID.
    pub last_id: String,
}

/// What a `StreamData` holds.
#[verifier::ext_equal]
pub struct StreamDataV {
    pub entries: Seq<StreamEntryV>,
    pub length: u64,
    pub last_id: Seq<char>,
}

impl View for StreamData {
    type V = StreamDataV;

    open spec fn view(&self) -> StreamDataV {
        StreamDataV {
            entries: stream_entries(self.entries@),
            length: self.length,
            last_id: self.last_id@,
        }
    }
}

/// The value portion of an RDB key-value entry.
#[derive(Debug, Clone, PartialEq)]
pub enum RdbValue {
    /// Simple string or integer-encoded value.
    String(Vec<u8>),
    /// Ordered list of elements.
    List(Vec<Vec<u8>>),
    /// Unordered set of members.
    UnorderedSet(Vec<Vec<u8>>),
    /// Sorted set: (member, score) pairs.
    SortedSet(Vec<(Vec<u8>, Double)>),
    /// Hash: field-value pairs with an optional expiry of each field.
    Hash(Vec<HashField>),
    /// Module data: the typed value stream of any module type.
    Module(ModuleData),
    /// Stream data: entries with IDs and field-value pairs.
    Stream(StreamData),
}

/// What an `RdbValue` holds.
#[verifier::ext_equal]
pub enum RdbValueV {
    String(Seq<u8>),
    List(Seq<Seq<u8>>),
    UnorderedSet(Seq<Seq<u8>>),
    SortedSet(Seq<(Seq<u8>, Double)>),
    Hash(Seq<HashFieldV>),
    Module(ModuleDataV),
    Stream(StreamDataV),
}

/// Byte strings, each by its bytes.
pub open spec fn byte_strings(items: Seq<Vec<u8>>) -> Seq<Seq<u8>> {
    Seq::new(items.len(), |i: int| items[i]@)
}

/// Sorted-set members, each by its bytes, with their scores.
pub open spec fn scored_members(pairs: Seq<(Vec<u8>, Double)>) -> Seq<(Seq<u8>, Double)> {
    Seq::new(pairs.len(), |i: int| (pairs[i].0@, pairs[i].1))
}

/// Hash fields, each by what it holds.
pub open spec fn hash_fields(fields: Seq<HashField>) -> Seq<HashFieldV> {
    Seq::new(fields.len(), |i: int| fields[i]@)
}

impl View for RdbValue {
    type V = RdbValueV;

    open spec fn view(&self) -> RdbValueV {
        match *self {
            RdbValue::String(v) => RdbValueV::String(v@),
            RdbValue::List(v) => RdbValueV::List(byte_strings(v@)),
            RdbValue::UnorderedSet(v) => RdbValueV::UnorderedSet(byte_strings(v@)),
            RdbValue::SortedSet(v) => RdbValueV::SortedSet(scored_members(v@)),
            RdbValue::Hash(v) => RdbValueV::Hash(hash_fields(v@)),
            RdbValue::Module(m) => RdbValueV::Module(m@),
            RdbValue::Stream(d) => RdbValueV::Stream(d@),
        }
    }
}

/// A single parsed RDB key-value entry with metadata.
#[derive(Debug, Clone)]
pub struct RdbEntry {
    /// Database number (from the SELECTDB opcode).
    pub db: u32,
    /// Key bytes. Usually UTF-8 but can be arbitrary bytes.
    pub key: Vec<u8>,
    /// The parsed value.
    pub value: RdbValue,
    /// RDB type code that was used to encode this entry.
    pub type_code: u8,
    /// Key expiry as Unix epoch milliseconds, `None` if the key does not expire.
    pub expiry_ms: Option<i64>,
    /// LRU idle time in seconds (from the IDLE opcode).
    pub lru_idle_secs: Option<u64>,
    /// LFU frequency counter (from the FREQ opcode).
    pub lfu_frequency: Option<u8>,
    /// Total element count across all chunks. `None` is a complete entry, `Some(n)` one
    /// chunk of a collection of `n` elements.
    pub total_elements: Option<u64>,
    /// Offset of the first element of this chunk within the full collection. `None` when
    /// the entry is not chunked.
    pub element_offset: Option<u64>,
}

/// What an `RdbEntry` holds.
#[verifier::ext_equal]
pub struct RdbEntryV {
    pub db: u32,
    pub key: Seq<u8>,
    pub value: RdbValueV,
    pub type_code: u8,
    pub expiry_ms: Option<i64>,
    pub lru_idle_secs: Option<u64>,
    pub lfu_frequency: Option<u8>,
    pub total_elements: Option<u64>,
    pub element_offset: Option<u64>,
}

impl RdbEntryV {
    /// Whether the entry is the first chunk of its key, or the only one.
    pub open spec fn first_chunk(self) -> bool {
        self.element_offset is None || self.element_offset == Some(0u64)
    }
}

impl View for RdbEntry {
    type V = RdbEntryV;

    open spec fn view(&self) -> RdbEntryV {
        RdbEntryV {
            db: self.db,
            key: self.key@,
            value: self.value@,
            type_code: self.type_code,
            expiry_ms: self.expiry_ms,
            lru_idle_secs: self.lru_idle_secs,
            lfu_frequency: self.lfu_frequency,
            total_elements: self.total_elements,
            element_offset: self.element_offset,
        }
    }
}

impl RdbEntry {
    /// Creates an entry with the given key, value, and type code. All other fields have
    /// their zero or `None` value; the `with_*` methods set them.
    pub fn new(key: Vec<u8>, value: RdbValue, type_code: u8) -> (r: Self)
        ensures
            r == (RdbEntry {
                db: 0,
                key,
                value,
                type_code,
                expiry_ms: None,
                lru_idle_secs: None,
                lfu_frequency: None,
                total_elements: None,
                element_offset: None,
            }),
    {
        RdbEntry {
            db: 0,
            key,
            value,
            type_code,
            expiry_ms: None,
            lru_idle_secs: None,
            lfu_frequency: None,
            total_elements: None,
            element_offset: None,
        }
    }

    /// Sets the database number (SELECTDB).
    #[must_use]
    pub fn with_db(self, db: u32) -> (r: Self)
        ensures
            r == (RdbEntry { db, ..self }),
    {
        RdbEntry { db, ..self }
    }

    /// Sets the expiry in Unix milliseconds; `None` clears it.
    #[must_use]
    pub fn with_expiry_ms(self, expiry_ms: Option<i64>) -> (r: Self)
        ensures
            r == (RdbEntry { expiry_ms, ..self }),
    {
        RdbEntry { expiry_ms, ..self }
    }

    /// Sets the LRU idle time in seconds (IDLE).
    #[must_use]
    pub fn with_lru_idle_secs(self, lru_idle_secs: Option<u64>) -> (r: Self)
        ensures
            r == (RdbEntry { lru_idle_secs, ..self }),
    {
        RdbEntry { lru_idle_secs, ..self }
    }

    /// Sets the LFU frequency counter (FREQ).
    #[must_use]
    pub fn with_lfu_frequency(self, lfu_frequency: Option<u8>) -> (r: Self)
        ensures
            r == (RdbEntry { lfu_frequency, ..self }),
    {
        RdbEntry { lfu_frequency, ..self }
    }

    /// Marks this entry as one chunk of a larger collection: `total` is the element count
    /// across all chunks, `offset` the index of the first element of this chunk.
    #[must_use]
    pub fn with_chunking(self, total: Option<u64>, offset: Option<u64>) -> (r: Self)
        ensures
            r == (RdbEntry { total_elements: total, element_offset: offset, ..self }),
    {
        RdbEntry { total_elements: total, element_offset: offset, ..self }
    }

    /// Returns true if this is the first (or only) chunk of a key.
    pub fn is_first_chunk(&self) -> (r: bool)
        ensures
            r == self@.first_chunk(),
    {
        match self.element_offset {
            None => true,
            Some(offset) => offset == 0,
        }
    }

    /// Returns the logical type name (string, list, set, zset, hash, stream, module).
    pub fn logical_type_name(&self) -> (r: &'static str)
        ensures
            r@ == opcodes::type_label(self.type_code),
    {
        opcodes::logical_type_name(self.type_code)
    }

    /// Returns the encoding name (listpack, ziplist, hashtable, and so on).
    pub fn encoding_name(&self) -> (r: &'static str)
        ensures
            r@ == opcodes::encoding_label(self.type_code),
    {
        opcodes::encoding_name(self.type_code)
    }
}

/// A failed read or write.
#[derive(Debug)]
pub enum IoError {
    /// The input ended before everything asked for was read.
    UnexpectedEof,
    /// Any other failure, with the words of the system.
    Failed(String),
}

/// What an `IoError` holds.
#[verifier::ext_equal]
pub enum IoErrorV {
    UnexpectedEof,
    Failed(Seq<char>),
}

impl View for IoError {
    type V = IoErrorV;

    open spec fn view(&self) -> IoErrorV {
        match *self {
            IoError::UnexpectedEof => IoErrorV::UnexpectedEof,
            IoError::Failed(s) => IoErrorV::Failed(s@),
        }
    }
}

impl IoErrorV {
    /// The text that users see.
    pub open spec fn text(self) -> Seq<char> {
        match self {
            IoErrorV::UnexpectedEof => "failed to fill whole buffer"@,
            IoErrorV::Failed(s) => s,
        }
    }
}

impl IoError {
    /// The text that users see.
    pub fn message(&self) -> (r: String)
        ensures
            r@ == self@.text(),
    {
        match self {
            IoError::UnexpectedEof => "failed to fill whole buffer".to_owned(),
            IoError::Failed(s) => s.clone(),
        }
    }
}

/// Errors returned by the RDB parser.
#[derive(Debug)]
pub enum RdbError {
    /// The input could not be read.
    Io(IoError),
    /// Invalid magic string (not REDIS0 or VALKEY).
    InvalidMagic,
    /// RDB version not supported.
    UnsupportedVersion(u32),
    /// Corrupt data encountered during parsing.
    CorruptData(String),
    /// Unknown or unsupported RDB type code.
    UnknownType(u8),
}

/// What an `RdbError` holds.
#[verifier::ext_equal]
pub enum RdbErrorV {
    Io(IoErrorV),
    InvalidMagic,
    UnsupportedVersion(u32),
    CorruptData(Seq<char>),
    UnknownType(u8),
}

impl View for RdbError {
    type V = RdbErrorV;

    open spec fn view(&self) -> RdbErrorV {
        match *self {
            RdbError::Io(e) => RdbErrorV::Io(e@),
            RdbError::InvalidMagic => RdbErrorV::InvalidMagic,
            RdbError::UnsupportedVersion(v) => RdbErrorV::UnsupportedVersion(v),
            RdbError::CorruptData(s) => RdbErrorV::CorruptData(s@),
            RdbError::UnknownType(t) => RdbErrorV::UnknownType(t),
        }
    }
}

impl RdbErrorV {
    /// The text that users see.
    pub open spec fn text(self) -> Seq<char> {
        match self {
            RdbErrorV::Io(e) => "I/O error: "@ + e.text(),
            RdbErrorV::InvalidMagic => "invalid RDB magic string"@,
            RdbErrorV::UnsupportedVersion(v) => "unsupported RDB version: "@ + text::dec(v as int),
            RdbErrorV::CorruptData(s) => "corrupt RDB data: "@ + s,
            RdbErrorV::UnknownType(t) => "unknown RDB type code: "@ + text::dec(t as int),
        }
    }
}

impl RdbError {
    /// The text that users see.
    pub fn message(&self) -> (r: String)
        ensures
            r@ == self@.text(),
    {
        match self {
            RdbError::Io(e) => join2("I/O error: ", e.message().as_str()),
            RdbError::InvalidMagic => "invalid RDB magic string".to_owned(),
            RdbError::UnsupportedVersion(v) => join2(
                "unsupported RDB version: ",
                dec_string(*v as u64).as_str(),
            ),
            RdbError::CorruptData(s) => join2("corrupt RDB data: ", s.as_str()),
            RdbError::UnknownType(t) => join2(
                "unknown RDB type code: ",
                dec_string(*t as u64).as_str(),
            ),
        }
    }
}

/// A `CorruptData` error with the given text.
pub fn corrupt(message: &str) -> (r: RdbError)
    ensures
        r@ == RdbErrorV::CorruptData(message@),
{
    RdbError::CorruptData(message.to_owned())
}

} // verus!
