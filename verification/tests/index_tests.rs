use std::time::Duration;

use anchor_index::anchor::{TimeAnchor, TimeAnchorTreeSpec};
use anchor_index::index::{create, get};
use anchor_index::query::all_for_base;
use anchor_index::store::{
    commit_if_not_in_chain, is_in_chain, is_in_dht, AnchorEntry, Address, EntryData, IndexError,
    LinkKind, Store,
};

#[test]
fn can_create_path_for_timestamp_first_block() {
    // anchors for every minute, 5 minutes and 10 minutes
    let spec = TimeAnchorTreeSpec::new(Duration::from_secs(60).as_millis(), vec![5, 10]);
    let path = spec.entry_path_from_timestamp(100); // strange timestamp 100ms after the epoch :P
    assert_eq!(
        path,
        vec![
            TimeAnchor::new(0, 60 * 1000),
            TimeAnchor::new(0, 60 * 1000 * 5),
            TimeAnchor::new(0, 60 * 1000 * 10),
        ]
    );
}

#[test]
fn can_create_path_for_timestamp_later_blocks() {
    // anchors for every minute, 5 minutes and 10 minutes
    let spec = TimeAnchorTreeSpec::new(Duration::from_secs(60).as_millis(), vec![5, 10]);
    let path = spec.entry_path_from_timestamp(1000 * 60 * 11 - 1); // not quite 11 minutes after the epoch
    assert_eq!(
        path,
        vec![
            TimeAnchor::new(60 * 1000 * 10, 60 * 1000),
            TimeAnchor::new(60 * 1000 * 10, 60 * 1000 * 5),
            TimeAnchor::new(60 * 1000 * 10, 60 * 1000 * 10),
        ]
    );
}

#[test]
fn divisions_are_sorted_ascending() {
    let spec = TimeAnchorTreeSpec::new(1000, vec![10, 5, 7]);
    let path = spec.entry_path_from_timestamp(0);
    assert_eq!(
        path,
        vec![
            TimeAnchor::new(0, 1000),
            TimeAnchor::new(0, 5000),
            TimeAnchor::new(0, 7000),
            TimeAnchor::new(0, 10000),
        ]
    );
}

fn make_post(store: &mut Store, base: &str, title: &str, timestamp: u128) {
    let r = create(
        store,
        base.to_string(),
        title.to_string(),
        "details".to_string(),
        "text".to_string(),
        false,
        timestamp,
        "agent".to_string(),
    );
    assert!(r.is_ok());
}

#[test]
fn create_returns_the_post_with_address() {
    let mut store = Store::new();
    let r = create(
        &mut store,
        "cats".to_string(),
        "a title".to_string(),
        "the details".to_string(),
        "text".to_string(),
        true,
        1234,
        "agent".to_string(),
    )
    .unwrap();
    assert_eq!(r.title, "a title");
    assert_eq!(r.details, "the details");
    assert_eq!(r.post_type, "text");
    assert_eq!(r.creator, "agent");
    assert!(r.announcement);
    assert_eq!(r.timestamp, 1234);
    assert_eq!(r.base, "cats");
}

#[test]
fn get_round_trips_a_created_post() {
    let mut store = Store::new();
    let r = create(
        &mut store,
        "cats".to_string(),
        "t".to_string(),
        "d".to_string(),
        "text".to_string(),
        false,
        42,
        "agent".to_string(),
    )
    .unwrap();
    let fetched = get(&store, r.address).unwrap();
    assert_eq!(fetched.title, "t");
    assert_eq!(fetched.timestamp, 42);
    assert_eq!(fetched.base, "cats");
}

#[test]
fn get_reports_not_found() {
    let store = Store::new();
    let missing = Address {
        entry: EntryData::Anchor(AnchorEntry {
            base: "nowhere".to_string(),
            anchor: TimeAnchor::new(0, 0),
        }),
    };
    assert!(matches!(get(&store, missing), Err(IndexError::NotFound)));
}

#[test]
fn get_reports_decode_failure_on_an_anchor_address() {
    let mut store = Store::new();
    make_post(&mut store, "cats", "t", 42);
    let root = Address {
        entry: EntryData::Anchor(AnchorEntry {
            base: "cats".to_string(),
            anchor: TimeAnchor::new(0, 0),
        }),
    };
    assert!(matches!(get(&store, root), Err(IndexError::DecodeFailure)));
}

#[test]
fn all_for_base_returns_everything_descending() {
    let mut store = Store::new();
    make_post(&mut store, "cats", "one", 10);
    make_post(&mut store, "cats", "three", 30);
    make_post(&mut store, "cats", "two", 20);
    let r = all_for_base(&store, "cats".to_string(), None, None).unwrap();
    assert!(!r.more);
    let times: Vec<u128> = r.posts.iter().map(|p| p.timestamp).collect();
    assert_eq!(times, vec![30, 20, 10]);
}

#[test]
fn all_for_base_separates_partitions() {
    let mut store = Store::new();
    make_post(&mut store, "cats", "one", 10);
    make_post(&mut store, "dogs", "two", 20);
    let r = all_for_base(&store, "cats".to_string(), None, None).unwrap();
    assert_eq!(r.posts.len(), 1);
    assert_eq!(r.posts[0].timestamp, 10);
    assert_eq!(r.posts[0].base, "cats");
}

#[test]
fn pagination_returns_the_most_recent_and_reports_more() {
    let mut store = Store::new();
    for (i, t) in [15u128, 45, 25, 35, 5].iter().enumerate() {
        make_post(&mut store, "cats", &format!("p{}", i), *t);
    }
    let r = all_for_base(&store, "cats".to_string(), Some(3), None).unwrap();
    assert!(r.more);
    let times: Vec<u128> = r.posts.iter().map(|p| p.timestamp).collect();
    assert_eq!(times, vec![45, 35, 25]);
    let all = all_for_base(&store, "cats".to_string(), None, None).unwrap();
    assert!(!all.more);
    assert_eq!(all.posts.len(), 5);
}

#[test]
fn pagination_exact_limit_reports_no_more() {
    let mut store = Store::new();
    make_post(&mut store, "cats", "one", 10);
    make_post(&mut store, "cats", "two", 20);
    let r = all_for_base(&store, "cats".to_string(), Some(2), None).unwrap();
    assert!(!r.more);
    assert_eq!(r.posts.len(), 2);
}

#[test]
fn limit_zero_returns_nothing_but_reports_more() {
    let mut store = Store::new();
    make_post(&mut store, "cats", "one", 10);
    let r = all_for_base(&store, "cats".to_string(), Some(0), None).unwrap();
    assert!(r.more);
    assert!(r.posts.is_empty());
}

#[test]
fn cutoff_excludes_records_at_or_past_it() {
    let mut store = Store::new();
    make_post(&mut store, "cats", "a", 10);
    make_post(&mut store, "cats", "b", 20);
    make_post(&mut store, "cats", "c", 30);
    let r = all_for_base(&store, "cats".to_string(), None, Some(25)).unwrap();
    assert!(!r.more);
    let times: Vec<u128> = r.posts.iter().map(|p| p.timestamp).collect();
    assert_eq!(times, vec![20, 10]);
}

#[test]
fn records_across_buckets_stay_descending() {
    let mut store = Store::new();
    let hour: u128 = 60 * 60 * 1000;
    let week: u128 = hour * 24 * 7;
    make_post(&mut store, "cats", "old", hour + 1);
    make_post(&mut store, "cats", "new", week * 3 + 5);
    make_post(&mut store, "cats", "mid", hour * 30);
    let r = all_for_base(&store, "cats".to_string(), None, None).unwrap();
    assert!(!r.more);
    let times: Vec<u128> = r.posts.iter().map(|p| p.timestamp).collect();
    assert_eq!(times, vec![week * 3 + 5, hour * 30, hour + 1]);
}

#[test]
fn creating_twice_in_one_bucket_adds_no_second_anchor() {
    let mut store = Store::new();
    make_post(&mut store, "cats", "a", 1000);
    make_post(&mut store, "cats", "b", 2000);
    // both creates fall in the same hour bucket; the leaf anchor exists once
    let leaf = EntryData::Anchor(AnchorEntry {
        base: "cats".to_string(),
        anchor: TimeAnchor::new(0, 60 * 60 * 1000),
    });
    assert!(is_in_dht(&store, &leaf));
    let r = all_for_base(&store, "cats".to_string(), None, None).unwrap();
    let times: Vec<u128> = r.posts.iter().map(|p| p.timestamp).collect();
    assert_eq!(times, vec![2000, 1000]);
}

#[test]
fn corrupt_edge_metadata_is_fatal_to_queries() {
    let mut store = Store::new();
    make_post(&mut store, "cats", "a", 1000);
    let root = Address {
        entry: EntryData::Anchor(AnchorEntry {
            base: "cats".to_string(),
            anchor: TimeAnchor::new(0, 0),
        }),
    };
    let stray = Address {
        entry: EntryData::Anchor(AnchorEntry {
            base: "cats".to_string(),
            anchor: TimeAnchor::new(0, 999),
        }),
    };
    store.create_edge(&root, &stray, LinkKind::AnchorToAnchor, None);
    let r = all_for_base(&store, "cats".to_string(), None, None);
    assert_eq!(r.err(), Some(IndexError::DecodeFailure));
}

#[test]
fn chain_helpers_deduplicate_commits() {
    let mut store = Store::new();
    let entry = EntryData::Anchor(AnchorEntry {
        base: "cats".to_string(),
        anchor: TimeAnchor::new(0, 0),
    });
    assert!(!is_in_chain(&store, &entry));
    assert!(!is_in_dht(&store, &entry));
    commit_if_not_in_chain(&mut store, &entry);
    assert!(is_in_chain(&store, &entry));
    assert!(is_in_dht(&store, &entry));
    commit_if_not_in_chain(&mut store, &entry);
    assert!(is_in_chain(&store, &entry));
}

#[test]
fn empty_store_returns_an_empty_page() {
    let store = Store::new();
    let r = all_for_base(&store, "cats".to_string(), None, None).unwrap();
    assert!(r.posts.is_empty());
    assert!(!r.more);
}
