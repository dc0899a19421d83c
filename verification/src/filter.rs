//! Filters on entries.

use crate::batcher::{all_taken, taken, BatcherV};
use crate::entries::{item_of, EntryItem, EntrySource};
use crate::rows::{text_size, RowV};
use crate::schema::{
    emits_geo, is_geo_entry, law_geo_is_additive, tag_of, type_tag_for, Heuristic, HeuristicSet,
    TagSet, TypeTag,
};
use crate::summarize::under;
use crate::text;
use crate::types::{corrupt, RdbEntry, RdbEntryV, RdbError, RdbErrorV};
use crate::utf8::{lossy_text, string_from_utf8_lossy};
use vstd::prelude::*;

verus! {

/// What `glob_match::glob_match` says of a pattern and a text without backslashes.
pub uninterp spec fn glob_matches(pattern: Seq<char>, s: Seq<char>) -> bool;

/// Whether the start of a pattern ends in a `**` that is a path component of its own.
pub open spec fn ends_in_globstar(start: Seq<char>) -> bool {
    let n = start.len();
    n >= 4 && start[n - 4] == '/' && start[n - 3] == '*' && start[n - 2] == '*' && start[n - 1]
        == '/'
}

/// Whether a character stands for itself in a pattern, and is no separator.
pub open spec fn is_ordinary(c: char) -> bool {
    c != '*' && c != '?' && c != '[' && c != ']' && c != '{' && c != '}' && c != ',' && c != '/'
        && c != '\\'
}

/// What is known at a place in a pattern of the way the matcher goes about it.
///
/// At a `*` on a separator of the text the matcher goes back to the last `**` component before
/// it, if it has passed one and no ordinary character since. That is further on in the text
/// each time, so it comes to an end, but for two cases between braces. Where an alternative
/// fails, the `**` is kept for the next alternative, which starts over in the text. And where
/// inner braces fail, an earlier match of theirs may be taken again, since how far they matched
/// is forgotten only outside all braces. So there no `*` may come behind a comma or a closing
/// brace, unless an ordinary character comes first, or the braces around the `**` end.
#[verifier::ext_equal]
pub struct PatternV {
    /// How many braces are open at most, if that can be told. It cannot behind an alternative
    /// that ends in a `*` or a `**` component, since the matcher leaves such braces late, nor
    /// behind escapes and brackets between braces, which it can take for their end.
    pub open: Option<nat>,
    /// How many braces are around the outermost `**` component between braces, as long as they
    /// are open. Zero stands for braces of which the end cannot be told.
    pub within: Option<nat>,
    /// Whether a comma or a closing brace has come behind it, and no ordinary character since.
    pub turned: bool,
    /// Whether no `*` has come where none may.
    pub ends: bool,
}

/// What is known of an empty pattern.
pub open spec fn nothing_scanned() -> PatternV {
    PatternV { open: Some(0), within: None, turned: false, ends: true }
}

/// How many braces are open at most behind one more character. `late` is that the matcher
/// leaves braces late where they or an alternative end here.
pub open spec fn braces_after(open: Option<nat>, late: bool, c: char) -> Option<nat> {
    match open {
        None => None,
        Some(n) => if c == '{' {
            Some(n + 1)
        } else if n == 0 {
            Some(0)
        } else if c == '[' || c == '\\' || ((c == ',' || c == '}') && late) {
            None
        } else if c == '}' {
            Some((n - 1) as nat)
        } else {
            Some(n)
        },
    }
}

/// The braces around the outermost `**` component, where another one stands between `open`
/// braces.
pub open spec fn outermost(within: Option<nat>, open: Option<nat>) -> Option<nat> {
    let n = match open {
        Some(n) => n,
        None => 0,
    };
    match within {
        Some(m) => if m < n {
            Some(m)
        } else {
            Some(n)
        },
        None => Some(n),
    }
}

impl PatternV {
    /// What is known behind one more character, which comes behind `start`.
    pub open spec fn after(self, start: Seq<char>, c: char) -> PatternV {
        let late = start.len() > 0 && (start.last() == '*' || ends_in_globstar(start));
        let open = braces_after(self.open, late, c);
        let found = if ends_in_globstar(start.push(c)) && self.open != Some(0nat) {
            outermost(self.within, self.open)
        } else {
            self.within
        };
        let within = match (found, open) {
            (Some(m), Some(n)) => if n < m {
                None
            } else {
                found
            },
            _ => found,
        };
        PatternV {
            open,
            within,
            turned: within is Some && (c == ',' || c == '}' || (self.turned && !is_ordinary(c))),
            ends: self.ends && !(c == '*' && self.within is Some && (self.turned || self.open
                is None)),
        }
    }
}

/// What is known behind a pattern.
pub open spec fn scanned(pattern: Seq<char>) -> PatternV
    decreases pattern.len(),
{
    if pattern.len() == 0 {
        nothing_scanned()
    } else {
        scanned(pattern.drop_last()).after(pattern.drop_last(), pattern.last())
    }
}

/// Whether the matcher comes to an end on a pattern, whatever the text is.
pub open spec fn comes_to_an_end(pattern: Seq<char>) -> bool {
    scanned(pattern).ends
}

/// Whether a text holds what some system takes for a separator. The matcher comes to an end on
/// any other text, whatever the pattern is: it never goes back to a `**`.
pub open spec fn has_separator(s: Seq<char>) -> bool {
    s.contains('/') || s.contains('\\')
}

/// The number of opening braces of a pattern.
pub open spec fn opening_braces(pattern: Seq<char>) -> nat
    decreases pattern.len(),
{
    if pattern.len() == 0 {
        0
    } else {
        opening_braces(pattern.drop_last()) + if pattern.last() == '{' {
            1nat
        } else {
            0
        }
    }
}

/// Whether the matcher can take a pattern and a text: it keeps places in 32 bits, counts braces
/// in a signed number of 32 bits, and has to come to an end.
pub open spec fn glob_can_take(pattern: Seq<char>, s: Seq<char>) -> bool {
    &&& text_size(pattern) <= u32::MAX
    &&& opening_braces(pattern) < i32::MAX
    &&& text_size(s) < u32::MAX
    &&& comes_to_an_end(pattern) || !has_separator(s)
}

/// What is known at a place in a pattern.
struct PatternScan {
    open: Option<usize>,
    within: Option<usize>,
    turned: bool,
    ends: bool,
}

/// A count that may be missing.
spec fn count_of(n: Option<usize>) -> Option<nat> {
    match n {
        Some(n) => Some(n as nat),
        None => None,
    }
}

impl View for PatternScan {
    type V = PatternV;

    closed spec fn view(&self) -> PatternV {
        PatternV {
            open: count_of(self.open),
            within: count_of(self.within),
            turned: self.turned,
            ends: self.ends,
        }
    }
}

/// Whether the first `n` characters end in a `**` component.
fn globstar_before(chars: &Vec<char>, n: usize) -> (r: bool)
    requires
        n <= chars@.len(),
    ensures
        r == ends_in_globstar(chars@.take(n as int)),
{
    n >= 4 && chars[n - 4] == '/' && chars[n - 3] == '*' && chars[n - 2] == '*' && chars[n - 1]
        == '/'
}

/// The braces that are open behind one more character of a pattern.
fn next_braces(open: Option<usize>, late: bool, c: char) -> (r: Option<usize>)
    requires
        open matches Some(n) ==> n < usize::MAX,
    ensures
        count_of(r) == braces_after(count_of(open), late, c),
{
    match open {
        None => None,
        Some(n) => if c == '{' {
            Some(n + 1)
        } else if n == 0 {
            Some(0)
        } else if c == '[' || c == '\\' || ((c == ',' || c == '}') && late) {
            None
        } else if c == '}' {
            Some(n - 1)
        } else {
            Some(n)
        },
    }
}

impl PatternScan {
    /// Takes the character at `i`.
    fn advance(&mut self, chars: &Vec<char>, i: usize)
        requires
            i < chars.len(),
            old(self).open matches Some(n) ==> n <= i,
        ensures
            final(self)@ == old(self)@.after(chars@.take(i as int), chars@[i as int]),
            final(self).open matches Some(n) ==> n <= i + 1,
    {
        let c: char = chars[i];
        let ghost start = chars@.take(i as int);
        assert(start.push(c) == chars@.take(i + 1));
        let late = i > 0 && (chars[i - 1] == '*' || globstar_before(chars, i));
        let open = next_braces(self.open, late, c);
        let outside = match self.open {
            Some(n) => n == 0,
            None => false,
        };
        let found = if globstar_before(chars, i + 1) && !outside {
            let n: usize = match self.open {
                Some(n) => n,
                None => 0,
            };
            match self.within {
                Some(m) => if m < n {
                    Some(m)
                } else {
                    Some(n)
                },
                None => Some(n),
            }
        } else {
            self.within
        };
        let within = match (found, open) {
            (Some(m), Some(n)) => if n < m {
                None
            } else {
                found
            },
            _ => found,
        };
        let ordinary = c != '*' && c != '?' && c != '[' && c != ']' && c != '{' && c != '}' && c
            != ',' && c != '/' && c != '\\';
        let turned = within.is_some() && (c == ',' || c == '}' || (self.turned && !ordinary));
        if c == '*' && self.within.is_some() && (self.turned || self.open.is_none()) {
            self.ends = false;
        }
        self.open = open;
        self.within = within;
        self.turned = turned;
    }
}

/// Whether a text holds a separator.
fn holds_separator(s: &str) -> (r: bool)
    ensures
        r == has_separator(s@),
{
    let chars = text::chars_of(s);
    let mut i: usize = 0;
    while i < chars.len()
        invariant
            chars@ == s@,
            i <= chars@.len(),
            forall|k: int| 0 <= k < i ==> #[trigger] chars@[k] != '/' && chars@[k] != '\\',
        decreases chars@.len() - i,
    {
        if chars[i] == '/' || chars[i] == '\\' {
            assert(s@[i as int] == chars@[i as int]);
            return true;
        }
        i += 1;
    }
    false
}

/// Returns true if the matcher can take a pattern and a text.
pub fn is_matchable(pattern: &str, s: &str) -> (r: bool)
    ensures
        r == glob_can_take(pattern@, s@),
{
    if pattern.as_bytes().len() > u32::MAX as usize || s.as_bytes().len() >= u32::MAX as usize {
        return false;
    }
    let chars = text::chars_of(pattern);
    let ghost p = pattern@;
    let mut scan = PatternScan { open: Some(0), within: None, turned: false, ends: true };
    let mut braces: usize = 0;
    let mut i: usize = 0;
    assert(p.take(0) == Seq::<char>::empty());
    while i < chars.len()
        invariant
            p == pattern@,
            chars@ == p,
            i <= chars@.len(),
            braces <= i,
            braces == opening_braces(p.take(i as int)),
            scan.open matches Some(n) ==> n <= i,
            scan@ == scanned(p.take(i as int)),
        decreases chars@.len() - i,
    {
        proof {
            assert(p.take(i + 1).drop_last() == p.take(i as int));
            assert(p.take(i + 1).last() == p[i as int]);
        }
        scan.advance(&chars, i);
        if chars[i] == '{' {
            braces += 1;
        }
        i += 1;
    }
    assert(p.take(i as int) == p);
    braces < i32::MAX as usize && (scan.ends || !holds_separator(s))
}

/// Whether `m` may be said of a pattern and a text. A backslash in the text is a path
/// separator on some systems and an ordinary character on others, so of such a text either
/// may be said.
pub open spec fn glob_may_say(pattern: Seq<char>, s: Seq<char>, m: bool) -> bool {
    s.contains('\\') || m == glob_matches(pattern, s)
}

/// Calls `glob_match::glob_match`, which tells whether a text matches a pattern. What it
/// says depends on nothing but the two, except that a backslash in the text counts as a path
/// separator where the system has it so. It does not come to an end on every pattern:
/// [`PatternV`] says where it may not.
#[verifier::external_body]
fn glob(pattern: &str, s: &str) -> (r: bool)
    requires
        glob_can_take(pattern@, s@),
    ensures
        !s@.contains('\\') ==> r == glob_matches(pattern@, s@),
{
    glob_match::glob_match(pattern, s)
}

/// Filters entries by database, type tags, and key glob pattern.
#[derive(Debug, Clone)]
pub struct EntryFilter {
    /// The database that entries have to be in.
    pub db: Option<u32>,
    /// The types of which entries have to have one.
    pub type_tags: Option<TagSet>,
    /// The pattern that keys have to match.
    pub key_pattern: Option<String>,
    /// Active heuristic detectors for virtual types.
    pub heuristics: HeuristicSet,
}

impl EntryFilter {
    /// Whether the database of an entry is asked for.
    pub open spec fn wants_db(&self, e: RdbEntryV) -> bool {
        match self.db {
            Some(db) => e.db == db,
            None => true,
        }
    }

    /// Whether a type of an entry is asked for: its own, or Geo if it is shown there too.
    pub open spec fn wants_type(&self, e: RdbEntryV) -> bool {
        match self.type_tags {
            Some(tags) => tags@.contains(tag_of(e)) || (tags@.contains(TypeTag::Geo) && emits_geo(
                self.heuristics@,
                e,
            )),
            None => true,
        }
    }

    /// Whether the matcher may say `m` of the key of an entry.
    pub open spec fn key_may(&self, e: RdbEntryV, m: bool) -> bool {
        match self.key_pattern {
            Some(pattern) => glob_may_say(pattern@, lossy_text(e.key), m),
            None => m,
        }
    }

    /// Whether an entry may pass.
    pub open spec fn may_select(&self, e: RdbEntryV) -> bool {
        self.wants_db(e) && self.wants_type(e) && self.key_may(e, true)
    }

    /// Whether an entry may be held back.
    pub open spec fn may_reject(&self, e: RdbEntryV) -> bool {
        !self.wants_db(e) || !self.wants_type(e) || self.key_may(e, false)
    }

    /// Whether the key of an entry can be matched, if it comes to that.
    pub open spec fn can_match(&self, e: RdbEntryV) -> bool {
        match self.key_pattern {
            Some(pattern) => self.wants_db(e) && self.wants_type(e) ==> glob_can_take(
                pattern@,
                lossy_text(e.key),
            ),
            None => true,
        }
    }

    /// Whether an entry passes, given whether its key matches the pattern.
    pub fn selects(&self, entry: &RdbEntry, key_matches: bool) -> (r: bool)
        ensures
            r == (self.wants_db(entry@) && self.wants_type(entry@) && key_matches),
    {
        if let Some(db) = self.db {
            if entry.db != db {
                return false;
            }
        }
        if let Some(tags) = &self.type_tags {
            if !self.matches_any_type(entry, tags) {
                return false;
            }
        }
        key_matches
    }

    /// Whether an entry passes.
    pub fn matches(&self, entry: &RdbEntry) -> (r: bool)
        requires
            self.can_match(entry@),
        ensures
            r ==> self.may_select(entry@),
            !r ==> self.may_reject(entry@),
    {
        if !self.selects(entry, true) {
            return false;
        }
        if let Some(pattern) = &self.key_pattern {
            let key = string_from_utf8_lossy(&entry.key);
            if !glob(pattern.as_str(), key.as_str()) {
                return false;
            }
        }
        true
    }

    /// Whether an entry passes, or `None` if the matcher cannot take the pattern or the key.
    pub fn try_matches(&self, entry: &RdbEntry) -> (r: Option<bool>)
        ensures
            match r {
                Some(m) => self.can_match(entry@) && (m ==> self.may_select(entry@)) && (!m
                    ==> self.may_reject(entry@)),
                None => !self.can_match(entry@),
            },
    {
        if let Some(pattern) = &self.key_pattern {
            if self.selects(entry, true) {
                let key = string_from_utf8_lossy(&entry.key);
                if !is_matchable(pattern.as_str(), key.as_str()) {
                    return None;
                }
            }
        }
        Some(self.matches(entry))
    }

    /// Whether the entry makes output for any of the requested types. A sorted set of
    /// geohashes makes output for both `SortedSet` and `Geo`.
    fn matches_any_type(&self, entry: &RdbEntry, tags: &TagSet) -> (r: bool)
        requires
            self.type_tags == Some(*tags),
        ensures
            r == self.wants_type(entry@),
    {
        let primary = match type_tag_for(entry) {
            Some(t) => t,
            None => {
                return false;
            },
        };
        proof {
            law_geo_is_additive(self.heuristics@, entry@);
        }
        if tags.contains(primary) {
            return true;
        }
        self.heuristics.contains(Heuristic::Geo) && primary == TypeTag::SortedSet && tags.contains(
            TypeTag::Geo,
        ) && is_geo_entry(entry)
    }
}

/// The text of the error for a key or pattern that the matcher cannot take.
pub open spec fn cannot_be_matched() -> Seq<char> {
    "key pattern or key cannot be matched"@
}

/// Whether an item may be passed over.
pub open spec fn may_skip(filter: EntryFilter, item: EntryItem) -> bool {
    match item {
        Ok(e) => filter.can_match(e) && filter.may_reject(e),
        Err(_) => false,
    }
}

/// Whether `x` may be yielded for an item.
pub open spec fn may_yield(filter: EntryFilter, item: EntryItem, x: EntryItem) -> bool {
    match item {
        Ok(e) => if filter.can_match(e) {
            x == item && filter.may_select(e)
        } else {
            x == Err::<RdbEntryV, RdbErrorV>(RdbErrorV::CorruptData(cannot_be_matched()))
        },
        Err(_) => x == item,
    }
}

/// Whether a filter may, of the items of a source, yield `r` and leave `rest`: what comes
/// before the item that is yielded is passed over, and at the end all of it is.
pub open spec fn passes_on(
    filter: EntryFilter,
    items: Seq<EntryItem>,
    r: Option<EntryItem>,
    rest: Seq<EntryItem>,
) -> bool {
    match r {
        None => {
            &&& forall|k: int| 0 <= k < items.len() ==> may_skip(filter, #[trigger] items[k])
            &&& rest.len() == 0
        },
        Some(x) => exists|n: int|
            {
                &&& 0 <= n < items.len()
                &&& forall|k: int| 0 <= k < n ==> may_skip(filter, #[trigger] items[k])
                &&& may_yield(filter, #[trigger] items[n], x)
                &&& rest == items.skip(n + 1)
            },
    }
}

/// The entries of a source that pass a filter. Errors pass too.
pub struct FilteredEntries<I: EntrySource> {
    inner: I,
    filter: EntryFilter,
}

impl<I: EntrySource> FilteredEntries<I> {
    /// Where the entries come from.
    pub closed spec fn inner(&self) -> I {
        self.inner
    }

    /// What they are held against.
    pub closed spec fn filter(&self) -> EntryFilter {
        self.filter
    }

    /// Puts a filter behind a source.
    pub fn new(inner: I, filter: EntryFilter) -> (r: Self)
        ensures
            r.inner() == inner,
            r.filter() == filter,
    {
        FilteredEntries { inner, filter }
    }

    /// The source, as far as it has been read.
    pub fn source(&self) -> (r: &I)
        ensures
            *r == self.inner(),
    {
        &self.inner
    }

    /// The next entry that passes, or the next error, or `None` at the end.
    pub fn next(&mut self) -> (r: Option<Result<RdbEntry, RdbError>>)
        requires
            old(self).inner().valid(),
        ensures
            final(self).inner().valid(),
            final(self).filter() == old(self).filter(),
            passes_on(
                old(self).filter(),
                old(self).inner().upcoming(),
                match r {
                    None => None,
                    Some(x) => Some(item_of(x)),
                },
                final(self).inner().upcoming(),
            ),
    {
        let ghost items = self.inner.upcoming();
        let ghost mut n: int = 0;
        assert(items.skip(0) == items);
        loop
            invariant
                self.inner.valid(),
                self.filter == old(self).filter,
                items == old(self).inner.upcoming(),
                0 <= n <= items.len(),
                self.inner.upcoming() == items.skip(n),
                forall|k: int| 0 <= k < n ==> may_skip(self.filter, #[trigger] items[k]),
            decreases items.len() - n,
        {
            proof {
                assert(items.skip(n).len() == items.len() - n);
                if n < items.len() {
                    assert(items.skip(n)[0] == items[n]);
                    assert(items.skip(n).drop_first() == items.skip(n + 1));
                }
            }
            match self.inner.next_entry() {
                Some(Ok(entry)) => {
                    match self.filter.try_matches(&entry) {
                        None => {
                            proof {
                                lemma_passes_on(
                                    self.filter,
                                    items,
                                    n,
                                    Err(RdbErrorV::CorruptData(cannot_be_matched())),
                                );
                            }
                            return Some(
                                Err(corrupt("key pattern or key cannot be matched")),
                            );
                        },
                        Some(true) => {
                            proof {
                                lemma_passes_on(self.filter, items, n, Ok(entry@));
                            }
                            return Some(Ok(entry));
                        },
                        Some(false) => {
                            proof {
                                n = n + 1;
                            }
                        },
                    }
                },
                Some(Err(e)) => {
                    proof {
                        lemma_passes_on(self.filter, items, n, Err(e@));
                    }
                    return Some(Err(e));
                },
                None => {
                    return None;
                },
            }
        }
    }
}

proof fn lemma_passes_on(filter: EntryFilter, items: Seq<EntryItem>, n: int, x: EntryItem)
    requires
        0 <= n < items.len(),
        forall|k: int| 0 <= k < n ==> may_skip(filter, #[trigger] items[k]),
        may_yield(filter, items[n], x),
    ensures
        passes_on(filter, items, Some(x), items.skip(n + 1)),
{
}

// ---- Laws ----

/// A filter decides: without a key pattern, or where the key has no backslash, an entry
/// passes or is held back, never either.
pub proof fn law_filter_decides(filter: EntryFilter, e: RdbEntryV)
    requires
        filter.key_pattern is Some ==> !lossy_text(e.key).contains('\\'),
    ensures
        filter.may_select(e) == !filter.may_reject(e),
{
}

/// A filter by types lets an entry pass exactly if it has rows under one of them.
pub proof fn law_filter_by_types(filter: EntryFilter, e: RdbEntryV)
    requires
        filter.type_tags is Some,
    ensures
        filter.wants_type(e) <==> exists|t: TypeTag| #[trigger]
            filter.type_tags->0@.contains(t) && under(filter.heuristics@, e, t),
{
    let tags = filter.type_tags->0@;
    if tags.contains(tag_of(e)) {
        assert(under(filter.heuristics@, e, tag_of(e)));
    } else if filter.wants_type(e) {
        assert(under(filter.heuristics@, e, TypeTag::Geo));
    }
}

/// The conditions of a filter add up: an entry passes only if it passes each of them alone.
pub proof fn law_filter_conditions_add_up(filter: EntryFilter, e: RdbEntryV)
    ensures
        filter.may_select(e) ==> {
            &&& (EntryFilter { type_tags: None, key_pattern: None, ..filter }).may_select(e)
            &&& (EntryFilter { db: None, key_pattern: None, ..filter }).may_select(e)
            &&& (EntryFilter { db: None, type_tags: None, ..filter }).may_select(e)
        },
{
}

/// The entries whose types a filter asks for.
pub open spec fn of_wanted_types(filter: EntryFilter, entries: Seq<RdbEntryV>) -> Seq<RdbEntryV>
    decreases entries.len(),
{
    if entries.len() == 0 {
        Seq::empty()
    } else {
        let front = of_wanted_types(filter, entries.drop_last());
        if filter.wants_type(entries.last()) {
            front.push(entries.last())
        } else {
            front
        }
    }
}

/// A filter by types takes nothing from the types that it asks for: their rows are those of
/// all entries.
pub proof fn law_type_filter_keeps_rows(
    filter: EntryFilter,
    b: BatcherV,
    entries: Seq<RdbEntryV>,
    tag: TypeTag,
)
    requires
        filter.type_tags is Some,
        filter.type_tags->0@.contains(tag),
        filter.heuristics@ == b.config.heuristics@,
    ensures
        all_taken(b, of_wanted_types(filter, entries), tag) == all_taken(b, entries, tag),
    decreases entries.len(),
{
    if entries.len() > 0 {
        let e = entries.last();
        let front = of_wanted_types(filter, entries.drop_last());
        law_type_filter_keeps_rows(filter, b, entries.drop_last(), tag);
        if filter.wants_type(e) {
            assert(front.push(e).drop_last() == front);
        } else {
            assert(taken(b, e, tag) == Seq::<RowV>::empty());
            assert(all_taken(b, entries.drop_last(), tag) + Seq::<RowV>::empty() == all_taken(
                b,
                entries.drop_last(),
                tag,
            ));
        }
    }
}

/// A filter by database lets an entry pass only if it is in that database, so filters for two
/// databases never let the same entry pass. One that asks for no database does not look at it.
pub proof fn law_filter_by_database(filter: EntryFilter, e: RdbEntryV, other: u32)
    ensures
        filter.db is Some && filter.may_select(e) ==> Some(e.db) == filter.db,
        filter.db is Some && filter.db != Some(other) ==> !(filter.may_select(e) && (EntryFilter {
            db: Some(other),
            ..filter
        }).may_select(e)),
        filter.db is None ==> filter.may_select(e) == filter.may_select(
            RdbEntryV { db: other, ..e },
        ),
        filter.db is None ==> filter.may_reject(e) == filter.may_reject(
            RdbEntryV { db: other, ..e },
        ),
        filter.db == Some(other) ==> filter.may_select(RdbEntryV { db: other, ..e })
            == (EntryFilter { db: None, ..filter }).may_select(e),
        filter.db == Some(other) ==> filter.may_reject(RdbEntryV { db: other, ..e })
            == (EntryFilter { db: None, ..filter }).may_reject(e),
{
}

/// Which types are asked for decides together with the entry alone: an entry passes a filter
/// for one type if that is the type of its value, or if Geo is asked for and it is shown there;
/// a filter for more types lets pass what one for fewer does.
pub proof fn law_filter_for_a_type(filter: EntryFilter, e: RdbEntryV, tag: TypeTag)
    requires
        filter.type_tags is Some,
        filter.type_tags->0@ == set![tag],
        filter.db is None,
        filter.key_pattern is None,
    ensures
        tag != TypeTag::Geo ==> (filter.may_select(e) <==> tag_of(e) == tag),
        tag == TypeTag::Geo ==> (filter.may_select(e) <==> emits_geo(filter.heuristics@, e)),
        filter.may_reject(e) <==> !filter.may_select(e),
{
    law_geo_is_additive(filter.heuristics@, e);
}

/// A filter for more types lets pass what one for fewer does, and one for no types nothing.
pub proof fn law_filter_for_more_types(a: EntryFilter, b: EntryFilter, e: RdbEntryV)
    requires
        a.type_tags is Some,
        b.type_tags is Some,
        a.type_tags->0@.subset_of(b.type_tags->0@),
        a.db == b.db,
        a.key_pattern == b.key_pattern,
        a.heuristics == b.heuristics,
    ensures
        a.may_select(e) ==> b.may_select(e),
        a.type_tags->0@ == Set::<TypeTag>::empty() ==> !a.may_select(e),
{
}

/// A filter by key pattern lets an entry pass exactly if its key, read as text, matches the
/// pattern; nothing else of the entry matters to it.
pub proof fn law_filter_by_key(filter: EntryFilter, e: RdbEntryV, pattern: String)
    requires
        filter.db is None,
        filter.type_tags is None,
        filter.key_pattern == Some(pattern),
        !lossy_text(e.key).contains('\\'),
    ensures
        filter.may_select(e) <==> glob_matches(pattern@, lossy_text(e.key)),
        filter.may_reject(e) <==> !glob_matches(pattern@, lossy_text(e.key)),
{
}

/// A filter without conditions lets everything pass.
pub proof fn law_empty_filter(filter: EntryFilter, e: RdbEntryV)
    requires
        filter.db is None,
        filter.type_tags is None,
        filter.key_pattern is None,
    ensures
        filter.may_select(e),
        !filter.may_reject(e),
        filter.can_match(e),
{
}

/// An entry that passes each condition of a filter alone passes them together.
pub proof fn law_filter_conditions_suffice(filter: EntryFilter, e: RdbEntryV)
    requires
        (EntryFilter { type_tags: None, key_pattern: None, ..filter }).may_select(e),
        (EntryFilter { db: None, key_pattern: None, ..filter }).may_select(e),
        (EntryFilter { db: None, type_tags: None, ..filter }).may_select(e),
    ensures
        filter.may_select(e),
{
}

} // verus!
