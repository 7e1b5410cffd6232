use wikipedia_revisions_server::buckets::{
    approx_bucket_size, date_bucket, date_file_index, get_largest_id, largest_id_in_file,
};
use wikipedia_revisions_server::date_index::{DateEntry, DateIndex};
use wikipedia_revisions_server::instant::{instant_from_parts, parse_instant, Instant};
use wikipedia_revisions_server::periods::route_dates;
use wikipedia_revisions_server::positions::PositionEntry;
use wikipedia_revisions_server::state::State;
use wikipedia_revisions_server::time_map::TimeMap;

fn at(seconds: i64) -> Instant {
    Instant { seconds, nanos: 0, offset: 0 }
}

fn entry(revision_id: u64, seconds: i64) -> DateEntry {
    DateEntry { revision_id, instant: at(seconds) }
}

fn row(revision_id: u64) -> PositionEntry {
    PositionEntry { revision_id, record_start: 0, record_length: 1 }
}

#[test]
fn instants_are_parsed() {
    let t = parse_instant("2015-02-18T23:16:09Z").unwrap();
    assert_eq!((t.seconds, t.nanos, t.offset), (1_424_301_369, 0, 0));
    let t = parse_instant("1996-12-19T16:39:57.25-08:00").unwrap();
    assert_eq!((t.seconds, t.nanos, t.offset), (851_042_397, 250_000_000, -28_800));
    assert!(parse_instant("2015-02-18").is_none());
    assert!(parse_instant("").is_none());
    assert!(instant_from_parts(None).is_none());
}

#[test]
fn instants_compare_by_time_alone() {
    let here = parse_instant("2020-01-01T01:00:00+01:00").unwrap();
    let there = parse_instant("2020-01-01T00:00:00Z").unwrap();
    assert!(here == there);
    assert_ne!(here.offset, there.offset);
    let later = parse_instant("2020-01-01T00:00:00.000000001Z").unwrap();
    assert!(there < later && here < later && !(later < here));
    assert!(there.is_before(&later) && !later.is_before(&there) && !here.is_before(&there));
    assert!(at(-5) < at(3));
    let leap = parse_instant("2016-12-31T23:59:60Z").unwrap();
    assert!(parse_instant("2016-12-31T23:59:59.999Z").unwrap() < leap);
    assert!(leap < parse_instant("2017-01-01T00:00:00Z").unwrap());
}

#[test]
fn time_map_keeps_order_and_first_key() {
    let mut map: TimeMap<&str> = TimeMap::new();
    assert_eq!(map.len(), 0);
    assert!(map.first().is_none());
    map.insert(at(20), "twenty");
    map.insert(at(10), "ten");
    map.insert(at(30), "thirty");
    map.insert(Instant { seconds: 20, nanos: 0, offset: 3600 }, "again");
    assert_eq!(map.len(), 3);
    let seconds: Vec<i64> = (0..3).map(|i| map.instant_at(i).seconds).collect();
    assert_eq!(seconds, [10, 20, 30]);
    assert_eq!(*map.value_at(1), "again");
    assert_eq!(map.instant_at(1).offset, 0);
    *map.value_mut(2) = "changed";
    assert_eq!(*map.value_at(2), "changed");
    assert_eq!(map.first(), Some(at(10)));
    assert_eq!(map.last_before(&at(20)), Some(at(10)));
    assert_eq!(map.last_before(&at(10)), None);
    assert_eq!(map.last_before(&at(99)), Some(at(30)));
    assert_eq!(map.first_from(&at(20)), Some(at(20)));
    assert_eq!(map.first_from(&at(21)), Some(at(30)));
    assert_eq!(map.first_from(&at(31)), None);
    assert_eq!(map.count_before(&at(25)), 2);
}

#[test]
fn date_index_groups_revisions() {
    let entries = vec![entry(5, 30), entry(1, 10), entry(3, 30), entry(2, 20), entry(4, 30)];
    let index = DateIndex::from_entries(&entries);
    assert_eq!(index.len(), 3);
    assert_eq!(index.first(), Some(at(10)));
    assert_eq!(index.instant_at(2), at(30));
    assert_eq!(*index.ids_at(2), vec![5, 3, 4]);
    assert_eq!(*index.ids_at(0), vec![1]);
    assert!(DateIndex::from_entries(&vec![]).first().is_none());
}

#[test]
fn date_index_answers_periods() {
    let entries = vec![entry(5, 30), entry(1, 10), entry(3, 30), entry(2, 20), entry(4, 40)];
    let index = DateIndex::from_entries(&entries);
    assert_eq!(index.ids_in_period(&at(20), &at(40)), [2, 5, 3]);
    assert_eq!(index.ids_in_period(&at(20), &at(41)), [2, 5, 3, 4]);
    assert_eq!(index.ids_in_period(&at(0), &at(10)), Vec::<u64>::new());
    assert_eq!(index.ids_in_period(&at(30), &at(30)), Vec::<u64>::new());
    assert_eq!(index.ids_in_period(&at(-1), &at(1000)), [1, 2, 5, 3, 4]);
}

#[test]
fn periods_join() {
    let entries: Vec<DateEntry> = (0..60).map(|n| entry(n, (n * 37 % 50) as i64)).collect();
    let index = DateIndex::from_entries(&entries);
    let whole = index.ids_in_period(&at(3), &at(44));
    for middle in 3..45 {
        let mut parts = index.ids_in_period(&at(3), &at(middle));
        parts.extend(index.ids_in_period(&at(middle), &at(44)));
        assert_eq!(parts, whole);
    }
}

#[test]
fn date_index_can_be_loaded() {
    let mut index = DateIndex::new();
    index.insert(at(7), vec![1, 2]);
    index.insert(at(3), vec![9]);
    index.insert(at(7), vec![4]);
    index.add(&entry(5, 7));
    assert_eq!(index.ids_in_period(&at(0), &at(8)), [9, 4, 5]);
}

#[test]
fn largest_ids() {
    assert_eq!(largest_id_in_file(&vec![row(4), row(90), row(17)]), Some(90));
    assert_eq!(largest_id_in_file(&vec![row(0)]), Some(0));
    assert_eq!(largest_id_in_file(&vec![]), None);
    assert_eq!(get_largest_id(&vec![Some(3), Some(12), Some(5)]), Some(12));
    assert_eq!(get_largest_id(&vec![Some(3), None, Some(5)]), None);
    assert_eq!(get_largest_id(&vec![]), None);
}

#[test]
fn bucket_sizes() {
    assert_eq!(approx_bucket_size(1003), 5);
    assert_eq!(approx_bucket_size(199), 0);
    assert_eq!(approx_bucket_size(200), 1);
}

#[test]
fn buckets_of_ids() {
    assert_eq!(date_bucket(0, 5), 0);
    assert_eq!(date_bucket(3, 5), 0);
    assert_eq!(date_bucket(5, 5), 1);
    assert_eq!(date_bucket(6, 5), 1);
    assert_eq!(date_bucket(994, 5), 198);
    assert_eq!(date_bucket(995, 5), 199);
    assert_eq!(date_bucket(999, 5), 199);
    assert_eq!(date_bucket(1000, 5), 199);
    assert_eq!(date_bucket(1003, 5), 199);
    assert_eq!(date_bucket(u64::MAX, 1), 199);
    assert_eq!(date_file_index(994, 5), Some(198));
    assert_eq!(date_file_index(1003, 5), Some(199));
    assert_eq!(date_file_index(u64::MAX, 1), Some(199));
    assert_eq!(date_file_index(7, 0), None);
}

#[test]
fn later_ids_go_further() {
    for largest in [200, 399, 1000, 1003, 40_000, 123_457] {
        let size = approx_bucket_size(largest);
        let mut before = 0;
        for id in 0..largest + 1 {
            let file = date_file_index(id, size).unwrap();
            assert!(before <= file && file < 200);
            before = file;
        }
        assert_eq!(before, 199);
    }
}

#[test]
fn dates_are_routed() {
    let entries = vec![entry(6, 1), entry(5, 2), entry(7, 3), entry(11, 4), entry(1003, 5)];
    let lists = route_dates(&entries, 5).unwrap();
    assert_eq!(lists.len(), 200);
    assert_eq!(lists[1], vec![entry(6, 1), entry(5, 2), entry(7, 3)]);
    assert_eq!(lists[2], vec![entry(11, 4)]);
    assert_eq!(lists[199], vec![entry(1003, 5)]);
    assert_eq!(lists.iter().map(|l| l.len()).sum::<usize>(), 5);
    assert!(route_dates(&vec![entry(6, 1)], 0).is_none());
    assert_eq!(route_dates(&vec![], 0).unwrap().len(), 200);
}

#[test]
fn dates_can_be_routed_in_parts() {
    let entries: Vec<DateEntry> = (1..1004).map(|id| entry(id, id as i64)).collect();
    let whole = route_dates(&entries, 5).unwrap();
    let first = route_dates(&entries[..317].to_vec(), 5).unwrap();
    let second = route_dates(&entries[317..].to_vec(), 5).unwrap();
    for k in 0..200 {
        let mut joined = first[k].clone();
        joined.extend(&second[k]);
        assert_eq!(joined, whole[k]);
    }
}

fn state_of(starts: &[i64]) -> State {
    let mut state = State::new();
    for start in starts {
        state.insert(at(*start), format!("index {}", start));
    }
    state
}

#[test]
fn indices_for_a_period() {
    let state = state_of(&[40, 10, 30, 20]);
    assert_eq!(state.len(), 4);
    let found = |a, b| state.indices_for_period(&at(a), &at(b));
    assert_eq!(found(25, 35), Some(vec!["index 20".to_string(), "index 30".to_string()]));
    assert_eq!(found(20, 30), Some(vec!["index 10".to_string(), "index 20".to_string()]));
    assert_eq!(found(11, 12), Some(vec!["index 10".to_string()]));
    assert_eq!(found(10, 12), None);
    assert_eq!(found(25, 41), None);
    assert_eq!(found(25, 40).unwrap().len(), 2);
    assert_eq!(found(25, 15), Some(vec![]));
    assert_eq!(found(35, 15), None);
}

#[test]
fn indices_begin_with_their_first_instant() {
    let mut state = State::new();
    let index = DateIndex::from_entries(&vec![entry(8, 50), entry(9, 45)]);
    assert!(state.add_index(&index, "a".to_string()));
    assert!(!state.add_index(&DateIndex::new(), "b".to_string()));
    assert_eq!(state.len(), 1);
    assert_eq!(state.start_at(0), at(45));
    assert_eq!(state.path_at(0), "a");
    assert!(state.add_index(&index, "c".to_string()));
    assert_eq!((state.len(), state.path_at(0).as_str()), (1, "c"));
}

#[test]
fn query_finds_what_was_listed() {
    for largest in [1000, 1003, 2599] {
        // every second and third id share an instant, also across the boundaries of files
        let entries: Vec<DateEntry> =
            (1..largest + 1).map(|id| entry(id, 1000 + (id - id / 3) as i64)).collect();
        let rows: Vec<PositionEntry> = entries.iter().map(|e| row(e.revision_id)).collect();
        let size = approx_bucket_size(largest_id_in_file(&rows).unwrap());
        let lists = route_dates(&entries, size).unwrap();
        let mut state = State::new();
        let mut indices = Vec::new();
        for (k, list) in lists.iter().enumerate() {
            let index = DateIndex::from_entries(list);
            assert!(state.add_index(&index, k.to_string()));
            indices.push(index);
        }
        assert_eq!(state.len(), 200);
        let last = state.start_at(199).seconds;
        for (start, end) in [(1002, 1003), (1002, last), (1100, 1200), (1333, 1333), (1334, 1444)] {
            let mut found = Vec::new();
            for path in state.indices_for_period(&at(start), &at(end)).unwrap() {
                let k: usize = path.parse().unwrap();
                found.extend(indices[k].ids_in_period(&at(start), &at(end)));
            }
            let expected: Vec<u64> = entries
                .iter()
                .filter(|e| start <= e.instant.seconds && e.instant.seconds < end)
                .map(|e| e.revision_id)
                .collect();
            assert_eq!(found, expected);
        }
    }
}

#[test]
fn queried_periods_join() {
    let mut state = State::new();
    let mut indices = Vec::new();
    // each index ends with the instant that the next begins with
    for k in 0..6u64 {
        let entries: Vec<DateEntry> = (0..11u64)
            .map(|n| entry(100 * k + n, (10 * k + n * 7 % 11) as i64))
            .collect();
        let index = DateIndex::from_entries(&entries);
        assert!(state.add_index(&index, k.to_string()));
        indices.push(index);
    }
    let found = |start: i64, end: i64| {
        let mut ids = Vec::new();
        for path in state.indices_for_period(&at(start), &at(end)).unwrap() {
            let k: usize = path.parse().unwrap();
            ids.extend(indices[k].ids_in_period(&at(start), &at(end)));
        }
        ids
    };
    assert_eq!(found(9, 12), [6, 3, 100, 108]);
    let whole = found(4, 50);
    assert_eq!(whole.len(), 50);
    for middle in 4..51 {
        let mut parts = found(4, middle);
        parts.extend(found(middle, 50));
        assert_eq!(parts, whole);
    }
}
