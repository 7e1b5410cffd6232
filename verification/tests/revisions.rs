use wikipedia_revisions_server::layout::{file_index, path_from_revision_id};
use wikipedia_revisions_server::pipes::{NextStep, PipeMonitor};
use wikipedia_revisions_server::positions::{LookupError, PositionEntry, RetrievalError};
use wikipedia_revisions_server::records::{
    assemble_revision, index_rows, prepare_revision, prepare_revisions, revision_members,
    revision_text, revision_to_bytes, store_revision, write_compressed_revision,
    PreparedRevision, Refusal, StoredRevision, WriteCounter, BROTLI_COMPRESSION_LEVEL, N_COLUMNS,
};
use wikipedia_revisions_server::revision::{texts_to_compare, Revision};
use wikipedia_revisions_server::state::State;

fn record(id: &str, text: &str) -> Vec<String> {
    let columns = [
        id, "12", "A \"title\"", "", "name", "::1", "2020-12-01T10:00:00Z", text, "why", "3", "0",
    ];
    columns.iter().map(|c| c.to_string()).collect()
}

#[test]
fn revisions_are_stored_as_compressed_json() {
    let bytes = revision_to_bytes(&record("77", "some\ntext \u{1F3B8}"));
    assert_eq!(
        revision_text(&bytes).unwrap(),
        "{\"comment\":\"why\",\"contributor_id\":\"\",\"contributor_ip\":\"::1\",\
         \"contributor_name\":\"name\",\"id\":\"77\",\"page_id\":\"3\",\"page_ns\":\"0\",\
         \"page_title\":\"A \\\"title\\\"\",\"parent_id\":\"12\",\
         \"text\":\"some\\ntext \u{1F3B8}\",\"timestamp\":\"2020-12-01T10:00:00Z\"}"
    );
}

#[test]
fn long_revisions_get_shorter_and_come_back() {
    let long = "wiki ".repeat(50_000);
    let bytes = revision_to_bytes(&record("1", &long));
    assert!(bytes.len() < 10_000);
    assert!(revision_text(&bytes).unwrap().contains(&long));
    assert_eq!(BROTLI_COMPRESSION_LEVEL, 8);
}

#[test]
fn large_irregular_revisions_come_back() {
    let mut seed: u64 = 88_172_645_463_325_252;
    let mut text = String::new();
    for _ in 0..400_000 {
        seed ^= seed << 13;
        seed ^= seed >> 7;
        seed ^= seed << 17;
        text.push(char::from(b'a' + (seed % 26) as u8));
        text.push(char::from_u32(0x4E00 + (seed >> 32) as u32 % 0x2000).unwrap());
    }
    let bytes = revision_to_bytes(&record("1", &text));
    assert!(revision_text(&bytes).unwrap().contains(&text));
}

#[test]
fn corrupt_revisions_are_refused() {
    let mut bytes = revision_to_bytes(&record("77", "text"));
    assert_eq!(revision_text(&Vec::new()), Err(RetrievalError {}));
    bytes.truncate(bytes.len() / 2);
    assert_eq!(revision_text(&bytes), Err(RetrievalError {}));
}

#[test]
fn members_are_named_columns() {
    let members = revision_members(&record("77", "text"));
    assert_eq!(members.len(), N_COLUMNS);
    assert_eq!(members[0], ("id".to_string(), "77".to_string()));
    assert_eq!(members[6], ("timestamp".to_string(), "2020-12-01T10:00:00Z".to_string()));
    assert_eq!(members[10], ("page_ns".to_string(), "0".to_string()));
}

fn prepared(record: &Vec<String>) -> PreparedRevision {
    match prepare_revision(record) {
        Ok(prepared) => prepared,
        Err(_) => panic!("not stored"),
    }
}

fn undated(id: &str) -> Vec<String> {
    let mut record = record(id, "text");
    record[6] = "yesterday".to_string();
    record
}

#[test]
fn revisions_are_prepared() {
    let ready = prepared(&record("1234", "text"));
    assert_eq!(ready.revision_id, 1234);
    assert_eq!(ready.file_index, 34);
    assert_eq!((ready.instant.seconds, ready.instant.offset), (1_606_816_800, 0));
    assert_eq!(
        revision_text(&ready.bytes),
        revision_text(&revision_to_bytes(&record("1234", "text")))
    );
    match assemble_revision("5", Some(ready.instant), vec![1, 2]) {
        Ok(ready) => assert_eq!((ready.revision_id, ready.bytes), (5, vec![1, 2])),
        Err(_) => panic!("not stored"),
    }
}

#[test]
fn revisions_are_refused() {
    assert!(matches!(prepare_revision(&record("x", "text")), Err(Refusal::Unreadable)));
    let mut short = record("5", "text");
    short.pop();
    assert!(matches!(prepare_revision(&short), Err(Refusal::Unreadable)));
    let mut neither = undated("x");
    assert!(matches!(prepare_revision(&neither), Err(Refusal::Unreadable)));
    neither.clear();
    assert!(matches!(prepare_revision(&neither), Err(Refusal::Unreadable)));
    match prepare_revision(&undated("405")) {
        Err(Refusal::Undated { file_index, bytes }) => {
            assert_eq!(file_index, 5);
            assert_eq!(revision_text(&bytes), revision_text(&revision_to_bytes(&undated("405"))));
        }
        _ => panic!("not undated"),
    }
    assert!(matches!(assemble_revision("5", None, vec![]), Err(Refusal::Undated { .. })));
    assert!(matches!(assemble_revision("", None, vec![]), Err(Refusal::Unreadable)));
}

fn ids(prepared: &Vec<PreparedRevision>) -> Vec<u64> {
    prepared.iter().map(|p| p.revision_id).collect()
}

#[test]
fn unreadable_rows_are_passed_over() {
    let rows = vec![Some(record("1", "a")), None, Some(record("2", "b")), None];
    let (all, refused) = prepare_revisions(&rows);
    assert_eq!(ids(&all), [1, 2]);
    assert!(refused.is_none());
    let (none, refused) = prepare_revisions(&vec![]);
    assert!(none.is_empty() && refused.is_none());
}

#[test]
fn revisions_before_a_bad_one_are_prepared() {
    let rows = vec![Some(record("1", "a")), None, Some(undated("2")), Some(record("3", "c"))];
    let (all, refused) = prepare_revisions(&rows);
    assert_eq!(ids(&all), [1]);
    let mut counters: Vec<WriteCounter> = (0..200).map(|_| WriteCounter::new()).collect();
    for ready in &all {
        store_revision(ready, &mut counters[ready.file_index]);
    }
    match refused {
        Some((2, Refusal::Undated { file_index, bytes })) => {
            counters[file_index].write_all(&bytes);
        }
        _ => panic!("not undated"),
    }
    assert_eq!(counters[1].size(), revision_to_bytes(&record("1", "a")).len() as u64);
    assert_eq!(counters[2].size(), revision_to_bytes(&undated("2")).len() as u64);
    assert_eq!(counters[3].size(), 0);
    let (all, refused) = prepare_revisions(&vec![Some(record("1", "a")), Some(vec![])]);
    assert_eq!(ids(&all), [1]);
    assert!(matches!(refused, Some((1, Refusal::Unreadable))));
}

#[test]
fn other_columns_give_other_bytes() {
    let base = record("1", "a");
    let bytes = revision_to_bytes(&base);
    for i in 0..N_COLUMNS {
        let mut other = base.clone();
        other[i].push('"');
        assert_ne!(revision_to_bytes(&other), bytes);
    }
    let mut longer = base.clone();
    longer.push("more".to_string());
    assert_eq!(revision_to_bytes(&longer), bytes);
}

#[test]
fn writes_are_counted() {
    let mut counter = WriteCounter::new();
    assert_eq!(counter.size(), 0);
    assert_eq!(write_compressed_revision(&vec![1, 2, 3], &mut counter), (0, 3));
    assert_eq!(write_compressed_revision(&vec![], &mut counter), (3, 0));
    assert_eq!(write_compressed_revision(&vec![9], &mut counter), (3, 1));
    counter.write_all(&vec![0; 6]);
    assert_eq!(counter.size(), 10);
}

#[test]
fn indices_are_told_of_stored_revisions() {
    let prepared = prepared(&record("405", "text"));
    let mut counter = WriteCounter::new();
    counter.write_all(&vec![0; 20]);
    let stored = store_revision(&prepared, &mut counter);
    let expected = StoredRevision {
        instant: prepared.instant,
        revision_id: 405,
        record_start: 20,
        record_length: prepared.bytes.len() as u64,
    };
    assert_eq!(stored, expected);
    let rows = index_rows(&vec![stored]);
    assert_eq!(rows.len(), 1);
    assert_eq!(rows[0].file_index, 5);
    assert_eq!(rows[0].date.revision_id, 405);
    assert_eq!(rows[0].date.instant, prepared.instant);
    assert_eq!(
        rows[0].position,
        PositionEntry { revision_id: 405, record_start: 20, record_length: stored.record_length }
    );
}

#[test]
fn stored_revisions_can_be_looked_up() {
    let state = State::new();
    let rows = vec![
        Some(PositionEntry { revision_id: 3, record_start: 0, record_length: 7 }),
        Some(PositionEntry { revision_id: 203, record_start: 7, record_length: 2 }),
        Some(PositionEntry { revision_id: 203, record_start: 9, record_length: 4 }),
        None,
        Some(PositionEntry { revision_id: 403, record_start: 13, record_length: 1 }),
    ];
    assert_eq!(state.id_to_position(203, &rows), Ok(("/big_dir/3".to_string(), 7, 2)));
    assert_eq!(state.id_to_position(403, &rows), Err(LookupError::UnreadableRow(3)));
    assert_eq!(
        state.id_to_position(403, &rows[..2].to_vec()),
        Err(LookupError::NotFound(RetrievalError {}))
    );
    assert_eq!(
        RetrievalError {}.message(),
        "retrieval error while trying to access revisions on disk"
    );
}

#[test]
fn stored_revisions_read_back() {
    let mut counters: Vec<WriteCounter> = (0..200).map(|_| WriteCounter::new()).collect();
    let mut files: Vec<Vec<u8>> = vec![Vec::new(); 200];
    let mut positions: Vec<Vec<Option<PositionEntry>>> = vec![Vec::new(); 200];
    let records: Vec<Vec<String>> = [("7", "first"), ("207", "second"), ("8", "third"), ("7", "x")]
        .iter()
        .map(|(id, text)| record(id, text))
        .collect();
    for record in &records {
        let prepared = prepared(record);
        files[prepared.file_index].extend(&prepared.bytes);
        let stored = store_revision(&prepared, &mut counters[prepared.file_index]);
        for row in index_rows(&vec![stored]) {
            positions[row.file_index].push(Some(row.position));
        }
    }
    let state = State::new();
    for (id, text) in [(7, "first"), (207, "second"), (8, "third")] {
        let f = file_index(id);
        let (path, start, length) = state.id_to_position(id, &positions[f]).unwrap();
        assert_eq!(path, path_from_revision_id(id));
        let bytes = files[f][start as usize..(start + length) as usize].to_vec();
        let expected = revision_text(&revision_to_bytes(&record(&id.to_string(), text)));
        assert_eq!(revision_text(&bytes), expected);
    }
}

#[test]
fn rows_in_any_order_tile_and_read_back() {
    let written = [("7", "a"), ("207", "bb"), ("8", "c"), ("407", "ddd"), ("7", "e"), ("208", "f")];
    let mut counters: Vec<WriteCounter> = (0..200).map(|_| WriteCounter::new()).collect();
    let mut files: Vec<Vec<u8>> = vec![Vec::new(); 200];
    let mut stored: Vec<StoredRevision> = Vec::new();
    for (id, text) in written {
        let ready = prepared(&record(id, text));
        assert!(!ready.bytes.is_empty());
        files[ready.file_index].extend(&ready.bytes);
        stored.push(store_revision(&ready, &mut counters[ready.file_index]));
    }
    for order in [[0, 1, 2, 3, 4, 5], [5, 4, 3, 2, 1, 0], [3, 5, 0, 1, 4, 2], [4, 2, 0, 5, 3, 1]] {
        let listed: Vec<StoredRevision> = order.iter().map(|k| stored[*k]).collect();
        let rows = index_rows(&listed);
        assert_eq!(rows.len(), written.len());
        for f in [7, 8, 9] {
            let positions: Vec<PositionEntry> =
                rows.iter().filter(|row| row.file_index == f).map(|row| row.position).collect();
            let dated = rows.iter().filter(|row| file_index(row.date.revision_id) == f).count();
            assert_eq!(positions.len(), dated);
            for p in 0..files[f].len() as u64 {
                let covering = positions
                    .iter()
                    .filter(|row| row.record_start <= p && p < row.record_start + row.record_length)
                    .count();
                assert_eq!(covering, 1);
            }
            assert!(positions
                .iter()
                .all(|row| row.record_start + row.record_length <= files[f].len() as u64));
        }
        for id in [7, 207, 8, 407, 208] {
            let f = file_index(id);
            let positions: Vec<Option<PositionEntry>> = rows
                .iter()
                .filter(|row| row.file_index == f)
                .map(|row| Some(row.position))
                .collect();
            let (_, start, length) = State::new().id_to_position(id, &positions).unwrap();
            let bytes = files[f][start as usize..(start + length) as usize].to_vec();
            let first = *order.iter().find(|k| written[**k].0 == id.to_string()).unwrap();
            let expected = revision_to_bytes(&record(written[first].0, written[first].1));
            assert_eq!(revision_text(&bytes), revision_text(&expected));
        }
        assert!(State::new().id_to_position(9, &Vec::new()).is_err());
    }
}

fn revision(id: u64, parent_id: Option<u64>, text: Option<&str>, comment: Option<&str>) -> Revision {
    Revision {
        id,
        parent_id,
        page_title: "title".to_string(),
        contributor_id: None,
        contributor_name: None,
        contributor_ip: None,
        timestamp: "2020-12-01T10:00:00Z".to_string(),
        text: text.map(|t| t.to_string()),
        comment: comment.map(|t| t.to_string()),
        page_id: 1,
        page_ns: 0,
    }
}

#[test]
fn texts_are_compared_with_the_parent() {
    let parent = Some(revision(1, None, Some("old"), Some("old comment")));
    let bare = Some(revision(1, None, None, None));
    let pair = |a: &str, b: &str| Some((a.to_string(), b.to_string()));
    let with_text = revision(2, Some(1), Some("new"), Some("new comment"));
    assert_eq!(texts_to_compare(&with_text, &parent), pair("old", "new"));
    assert_eq!(texts_to_compare(&with_text, &bare), pair("", "new"));
    let without_text = revision(2, Some(1), None, Some("new comment"));
    assert_eq!(texts_to_compare(&without_text, &parent), pair("old comment", "new comment"));
    assert_eq!(texts_to_compare(&without_text, &bare), pair("", "new comment"));
    let orphan = revision(2, None, Some("new"), None);
    assert_eq!(texts_to_compare(&orphan, &None), pair("", "new"));
    assert_eq!(texts_to_compare(&revision(2, None, None, Some("c")), &None), pair("", "c"));
    assert_eq!(texts_to_compare(&revision(2, Some(1), None, None), &parent), None);
}

#[test]
fn pipes_are_watched() {
    let pipe = "revisions-10-20.pipe".to_string();
    let mut monitor = PipeMonitor::new();
    assert_eq!(monitor.next_step(), NextStep::AwaitPipes);
    assert!(!monitor.observe(&"notes.txt".to_string()));
    assert!(!monitor.observe(&"revisions-10-.pipe".to_string()));
    assert_eq!(monitor.next_step(), NextStep::AwaitPipes);
    assert!(monitor.observe(&pipe));
    assert!(!monitor.observe(&pipe));
    assert_eq!(monitor.next_step(), NextStep::AwaitCompletion);
    monitor.complete(&"_".to_string());
    assert_eq!(monitor.next_step(), NextStep::AwaitCompletion);
    monitor.complete(&pipe);
    assert_eq!(monitor.next_step(), NextStep::Finish);
    assert!(monitor.observe(&pipe));
    assert_eq!(monitor.next_step(), NextStep::AwaitCompletion);
}

#[test]
fn pipe_names_match_anywhere() {
    let mut monitor = PipeMonitor::new();
    assert!(monitor.observe(&"old-revisions-1-2.pipe.bak".to_string()));
    assert!(!monitor.observe(&"revisions-1-2xpipe".to_string()));
    assert!(!monitor.admit_if(false, &"revisions-1-2.pipe".to_string()));
    assert!(monitor.admit_if(true, &"anything".to_string()));
}
