//! Filters.

use valkey_rdb_tools::batcher::BatcherConfig;
use valkey_rdb_tools::batches::ExportBatches;
use valkey_rdb_tools::entries::EntryQueue;
use valkey_rdb_tools::export::ExportPlan;
use valkey_rdb_tools::filter::{is_matchable, EntryFilter, FilteredEntries};
use valkey_rdb_tools::schema::{HeuristicSet, TagSet, TypeTag};
use valkey_rdb_tools::types::{Double, RdbEntry, RdbError, RdbValue};

fn string(key: &[u8]) -> RdbEntry {
    RdbEntry::new(key.to_vec(), RdbValue::String(b"v".to_vec()), 0)
}

fn geo(key: &[u8]) -> RdbEntry {
    let score = Double { bits: 3479099956230698.0f64.to_bits() };
    RdbEntry::new(key.to_vec(), RdbValue::SortedSet(vec![(b"Rome".to_vec(), score)]), 5)
}

fn all() -> EntryFilter {
    EntryFilter {
        db: None,
        type_tags: None,
        key_pattern: None,
        heuristics: HeuristicSet::all(),
    }
}

fn tags(list: &[TypeTag]) -> Option<TagSet> {
    let mut set = TagSet::new();
    for &t in list {
        set.insert(t);
    }
    Some(set)
}

#[test]
fn without_conditions_everything_passes() {
    assert!(all().matches(&string(b"k")));
    assert!(all().matches(&geo(b"k").with_db(9)));
}

#[test]
fn databases_are_filtered() {
    let filter = EntryFilter { db: Some(3), ..all() };
    assert!(filter.matches(&string(b"k").with_db(3)));
    assert!(!filter.matches(&string(b"k")));
}

#[test]
fn types_are_filtered_and_geo_is_additive() {
    let zset = EntryFilter { type_tags: tags(&[TypeTag::SortedSet]), ..all() };
    let places = EntryFilter { type_tags: tags(&[TypeTag::Geo]), ..all() };
    assert!(zset.matches(&geo(b"k")));
    assert!(places.matches(&geo(b"k")));
    assert!(!places.matches(&string(b"k")));
    let off = EntryFilter {
        type_tags: tags(&[TypeTag::Geo]),
        heuristics: HeuristicSet::none(),
        ..all()
    };
    assert!(!off.matches(&geo(b"k")));
    // A chunk is never geo data.
    assert!(!places.matches(&geo(b"k").with_chunking(Some(10), Some(0))));
}

#[test]
fn keys_are_matched() {
    let filter = EntryFilter { key_pattern: Some("user:*".to_string()), ..all() };
    assert!(filter.matches(&string(b"user:1")));
    assert!(!filter.matches(&string(b"session:1")));
    assert_eq!(filter.try_matches(&string(b"user:1")), Some(true));
    assert_eq!(filter.try_matches(&string(b"x")), Some(false));
    let class = EntryFilter { key_pattern: Some("k[0-2]?".to_string()), ..all() };
    assert!(class.matches(&string(b"k1x")));
    assert!(!class.matches(&string(b"k3x")));
    // Bytes that are not text are matched as replacement characters.
    let odd = EntryFilter { key_pattern: Some("a\u{fffd}b".to_string()), ..all() };
    assert!(odd.matches(&string(b"a\xffb")));
}

#[test]
fn the_verdict_on_a_key_can_be_given() {
    let filter = EntryFilter { db: Some(0), key_pattern: Some("x".to_string()), ..all() };
    assert!(filter.selects(&string(b"k"), true));
    assert!(!filter.selects(&string(b"k"), false));
    assert!(!filter.selects(&string(b"k").with_db(1), true));
}

#[test]
fn conditions_add_up() {
    let filter = EntryFilter {
        db: Some(1),
        type_tags: tags(&[TypeTag::String]),
        key_pattern: Some("a*".to_string()),
        ..all()
    };
    assert!(filter.matches(&string(b"ab").with_db(1)));
    assert!(!filter.matches(&string(b"ab")));
    assert!(!filter.matches(&string(b"b").with_db(1)));
    assert!(!filter.matches(&geo(b"ab").with_db(1)));
}

#[test]
fn sources_are_filtered_and_errors_pass() {
    let items = vec![
        Ok(string(b"a1")),
        Ok(string(b"b1")),
        Err(RdbError::UnknownType(9)),
        Ok(string(b"b2")),
        Ok(string(b"a2")),
        Ok(string(b"b3")),
    ];
    let filter = EntryFilter { key_pattern: Some("a*".to_string()), ..all() };
    let mut entries = FilteredEntries::new(EntryQueue::new(items), filter);
    assert_eq!(entries.next().unwrap().unwrap().key, b"a1");
    assert!(matches!(entries.next(), Some(Err(RdbError::UnknownType(9)))));
    assert_eq!(entries.next().unwrap().unwrap().key, b"a2");
    assert!(entries.next().is_none());
    assert!(entries.next().is_none());
}

/// What `export` hands to a writer: the tag and the number of rows of each batch.
fn exported(items: Vec<Result<RdbEntry, RdbError>>, plan: ExportPlan) -> Vec<Option<(TypeTag, usize)>> {
    let mut batches = ExportBatches::new(EntryQueue::new(items), plan);
    let mut out = Vec::new();
    while let Some(item) = batches.next() {
        out.push(item.ok().map(|b| (b.tag, b.batch.inner.num_rows())));
    }
    assert!(batches.next().is_none());
    out
}

fn plan(filter: EntryFilter, output_tags: Option<TagSet>, batch_size: usize) -> ExportPlan {
    ExportPlan {
        filter,
        output_tags,
        config: BatcherConfig { batch_size, ..Default::default() },
    }
}

#[test]
fn exports_hand_out_the_batches_that_are_asked_for() {
    let items = || {
        vec![
            Ok(string(b"a1")),
            Ok(geo(b"a2")),
            Ok(string(b"b1")),
            Err(RdbError::UnknownType(9)),
            Err(RdbError::InvalidMagic),
            Ok(string(b"a3")),
        ]
    };
    let keys = EntryFilter { key_pattern: Some("a*".to_string()), ..all() };
    // Errors come where they stand, and what is left is flushed at the end.
    assert_eq!(
        exported(items(), plan(keys.clone(), None, 10)),
        vec![
            None,
            Some((TypeTag::String, 2)),
            Some((TypeTag::SortedSet, 1)),
            Some((TypeTag::Geo, 1)),
        ]
    );
    // A sorted set that passes for its geo rows is not written as a sorted set.
    let places = EntryFilter { type_tags: tags(&[TypeTag::Geo]), ..all() };
    assert_eq!(
        exported(items(), plan(places, tags(&[TypeTag::Geo]), 10)),
        vec![None, Some((TypeTag::Geo, 1))]
    );
    assert_eq!(
        exported(items(), plan(all(), tags(&[TypeTag::String]), 1)),
        vec![
            Some((TypeTag::String, 1)),
            Some((TypeTag::String, 1)),
            None,
            Some((TypeTag::String, 1)),
        ]
    );
}

#[test]
fn patterns_that_cannot_be_matched_are_refused() {
    for pattern in [
        "{/**/x,*y}",
        "{/**/{a}*c}",
        "{*}?/**/{a}*c",
        "a{b,c/**/d,*e}",
        "{a\\}/**/b*}",
        "{[}]/**/b,*c}",
        "{/**/}?/**/{a}*c",
    ] {
        assert!(!is_matchable(pattern, "/a/b"), "{pattern}");
        assert!(!is_matchable(pattern, "a\\b"), "{pattern}");
        // A text without separators can be matched with any pattern.
        assert!(is_matchable(pattern, "cxd"), "{pattern}");
        let filter = EntryFilter { key_pattern: Some(pattern.to_string()), ..all() };
        assert_eq!(filter.try_matches(&string(b"/a/b")), None);
        let mut entries = FilteredEntries::new(EntryQueue::new(vec![Ok(string(b"/a/b"))]), filter);
        match entries.next() {
            Some(Err(RdbError::CorruptData(m))) => {
                assert_eq!(m, "key pattern or key cannot be matched");
            }
            other => panic!("{other:?}"),
        }
        assert!(entries.next().is_none());
        // A key that is not asked for anyway is passed over.
        let elsewhere =
            EntryFilter { db: Some(1), key_pattern: Some(pattern.to_string()), ..all() };
        assert_eq!(elsewhere.try_matches(&string(b"/a/b")), Some(false));
    }
}

#[test]
fn other_patterns_with_braces_are_matched() {
    for (pattern, key, matched) in [
        ("{user,session}:*", "session:1", true),
        ("{user,session}:*", "other:1", false),
        ("a/**/b", "a/x/y/b", true),
        ("a/**/b*", "a/x/y/bc", true),
        ("/**/{a,b}*c", "/x/a/bc", true),
        ("{a,b}/**", "b/x/y", true),
        ("{a,b}/**/c*", "b/x/y/cd", true),
        ("{a,b}/**/c*", "c/x/y/cd", false),
        ("{*a,b}/**/c*", "xa/y/c", true),
        ("{a/**/b,c}", "a/x/b", true),
        ("{a/**/b,c}", "c", true),
        ("{**,x}", "ab", true),
        ("{a/**/b,c}*d", "cxd", true),
        ("{a/**/b,c}*d", "a/x/bd", true),
        ("{a/**/b*,c}", "a/x/bd", true),
        ("{a/**/b,c*}", "cd", true),
        ("{a/**/b,c*}", "a/x/b", true),
        ("{/**/x,*y}", "xy", true),
    ] {
        assert!(is_matchable(pattern, key), "{pattern}");
        let filter = EntryFilter { key_pattern: Some(pattern.to_string()), ..all() };
        assert_eq!(filter.try_matches(&string(key.as_bytes())), Some(matched), "{pattern} {key}");
    }
}

#[test]
fn an_export_holds_the_rows_of_its_entries_and_no_others() {
    assert_eq!(exported(vec![], plan(all(), None, 1)), vec![]);
    assert_eq!(exported(vec![Err(RdbError::UnknownType(9))], plan(all(), None, 1)), vec![]);
    let none = EntryFilter { db: Some(7), ..all() };
    assert_eq!(exported(vec![Ok(string(b"a")), Ok(geo(b"b"))], plan(none, None, 1)), vec![]);
    let items: Vec<_> = (0..10u8).map(|i| Ok(string(&[b'a' + i % 2, i]))).collect();
    let some = EntryFilter { key_pattern: Some("a*".to_string()), ..all() };
    assert_eq!(
        exported(items, plan(some, tags(&[TypeTag::String, TypeTag::Hash]), 2)),
        vec![
            Some((TypeTag::String, 2)),
            Some((TypeTag::String, 2)),
            Some((TypeTag::String, 1)),
        ]
    );
}
