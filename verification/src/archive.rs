//! What the data files and the position indices hold together, and that what is stored in them
//! can be read back.

use vstd::prelude::*;

use crate::buckets;
use crate::date_index;
use crate::date_index::DateEntry;
use crate::external;
use crate::layout;
use crate::layout::N_REVISION_FILES;
use crate::layout::RevisionID;
use crate::positions;
use crate::positions::PositionEntry;
use crate::records;
use crate::records::StoredRevision;

verus! {

/// The contents of the data files and of the position indices, by number.
#[verifier::ext_equal]
pub struct Archive {
    pub files: Seq<Seq<u8>>,
    pub rows: Seq<Seq<PositionEntry>>,
}

/// Files and indices that hold nothing.
pub open spec fn empty_archive() -> Archive {
    Archive {
        files: Seq::new(N_REVISION_FILES as nat, |f: int| Seq::empty()),
        rows: Seq::new(N_REVISION_FILES as nat, |f: int| Seq::empty()),
    }
}

/// The archive with one more revision: its bytes behind everything else in its data file, and
/// where they are behind everything else in its position index.
pub open spec fn archived(archive: Archive, id: RevisionID, bytes: Seq<u8>) -> Archive {
    let f = layout::file_of(id) as int;
    let row = PositionEntry {
        revision_id: id,
        record_start: archive.files[f].len() as u64,
        record_length: bytes.len() as u64,
    };
    Archive {
        files: archive.files.update(f, archive.files[f] + bytes),
        rows: archive.rows.update(f, archive.rows[f].push(row)),
    }
}

/// The archive after these revisions have been stored one after another.
pub open spec fn archive_of(log: Seq<(RevisionID, Seq<u8>)>) -> Archive
    decreases log.len(),
{
    if log.len() == 0 {
        empty_archive()
    } else {
        archived(archive_of(log.drop_last()), log.last().0, log.last().1)
    }
}

/// Whether every data file is short enough for its places to be counted.
pub open spec fn countable(archive: Archive) -> bool {
    forall|f: int|
        0 <= f < archive.files.len() ==> (#[trigger] archive.files[f]).len() <= u64::MAX
}

/// Rows that have all been read.
pub open spec fn readable(rows: Seq<PositionEntry>) -> Seq<Option<PositionEntry>> {
    rows.map_values(|row: PositionEntry| Some(row))
}

/// The bytes that a lookup of the revision `id` leads to: its row in its position index, and the
/// part of its data file that the row tells of.
pub open spec fn fetched(archive: Archive, id: RevisionID) -> Option<Seq<u8>> {
    let f = layout::file_of(id) as int;
    match positions::located(readable(archive.rows[f]), id) {
        Ok(row) => Some(
            archive.files[f].subrange(
                row.record_start as int,
                row.record_start + row.record_length,
            ),
        ),
        Err(_) => None,
    }
}

/// The bytes that were stored first under `id`.
pub open spec fn first_stored(log: Seq<(RevisionID, Seq<u8>)>, id: RevisionID) -> Option<Seq<u8>>
    decreases log.len(),
{
    if log.len() == 0 {
        None
    } else {
        match first_stored(log.drop_last(), id) {
            Some(bytes) => Some(bytes),
            None => if log.last().0 == id {
                Some(log.last().1)
            } else {
                None
            },
        }
    }
}

/// The shape of an archive: as many files and indices as there should be, and no row that tells
/// of more than its data file holds.
spec fn shaped(archive: Archive) -> bool {
    &&& archive.files.len() == N_REVISION_FILES
    &&& archive.rows.len() == N_REVISION_FILES
    &&& forall|f: int, i: int|
        0 <= f < N_REVISION_FILES && 0 <= i < archive.rows[f].len() ==> (
        #[trigger] archive.rows[f][i]).record_start + archive.rows[f][i].record_length
            <= archive.files[f].len()
}

/// Storing keeps the shape.
proof fn lemma_archived_shaped(archive: Archive, id: RevisionID, bytes: Seq<u8>)
    requires
        shaped(archive),
        countable(archived(archive, id, bytes)),
    ensures
        shaped(archived(archive, id, bytes)),
{
    let f = layout::file_of(id) as int;
    let after = archived(archive, id, bytes);
    assert(after.files[f].len() == archive.files[f].len() + bytes.len());
    assert forall|g: int, i: int|
        0 <= g < N_REVISION_FILES && 0 <= i < after.rows[g].len() implies (
    #[trigger] after.rows[g][i]).record_start + after.rows[g][i].record_length
        <= after.files[g].len() by {
        if g == f && i == archive.rows[f].len() {
        } else {
            assert(after.rows[g][i] == archive.rows[g][i]);
        }
    }
}

/// Every archive has the shape of one.
proof fn lemma_archive_of_shaped(log: Seq<(RevisionID, Seq<u8>)>)
    requires
        countable(archive_of(log)),
    ensures
        shaped(archive_of(log)),
        log.len() > 0 ==> countable(archive_of(log.drop_last())),
    decreases log.len(),
{
    if log.len() > 0 {
        let rest = archive_of(log.drop_last());
        lemma_lens(log.drop_last());
        lemma_countable_before(rest, log.last().0, log.last().1);
        lemma_archive_of_shaped(log.drop_last());
        lemma_archived_shaped(rest, log.last().0, log.last().1);
    }
}

/// Storing does not change how many files there are.
proof fn lemma_lens(log: Seq<(RevisionID, Seq<u8>)>)
    ensures
        archive_of(log).files.len() == N_REVISION_FILES,
        archive_of(log).rows.len() == N_REVISION_FILES,
    decreases log.len(),
{
    if log.len() > 0 {
        lemma_lens(log.drop_last());
    }
}

/// Files only grow.
proof fn lemma_countable_before(archive: Archive, id: RevisionID, bytes: Seq<u8>)
    requires
        archive.files.len() == N_REVISION_FILES,
        countable(archived(archive, id, bytes)),
    ensures
        countable(archive),
{
    let f = layout::file_of(id) as int;
    let after = archived(archive, id, bytes);
    assert forall|g: int| 0 <= g < archive.files.len() implies (#[trigger] archive.files[g]).len()
        <= u64::MAX by {
        assert(after.files[g].len() <= u64::MAX);
        assert(g == f ==> after.files[g].len() == archive.files[g].len() + bytes.len());
    }
}

/// A row that a lookup finds is one of the rows, and a lookup among rows that were read fails
/// only where nothing is found.
proof fn lemma_located_is_a_row(rows: Seq<PositionEntry>, id: RevisionID)
    ensures
        match positions::located(readable(rows), id) {
            Ok(row) => exists|i: int| 0 <= i < rows.len() && #[trigger] rows[i] == row,
            Err(error) => error is NotFound,
        },
    decreases rows.len(),
{
    if rows.len() > 0 {
        assert(readable(rows).drop_last() =~= readable(rows.drop_last()));
        lemma_located_is_a_row(rows.drop_last(), id);
        match positions::located(readable(rows.drop_last()), id) {
            Ok(row) => {
                let i = choose|i: int|
                    0 <= i < rows.drop_last().len() && #[trigger] rows.drop_last()[i] == row;
                assert(rows[i] == row);
            },
            Err(_) => {
                assert(rows[rows.len() - 1] == rows.last());
            },
        }
    }
}

/// Looking up a revision leads to the bytes that were first stored under its id, and to nothing
/// where none were. Nothing that is stored later changes that.
pub proof fn law_stored_revisions_are_fetched(log: Seq<(RevisionID, Seq<u8>)>, id: RevisionID)
    requires
        countable(archive_of(log)),
    ensures
        fetched(archive_of(log), id) == first_stored(log, id),
    decreases log.len(),
{
    let f = layout::file_of(id) as int;
    if log.len() == 0 {
        assert(readable(archive_of(log).rows[f]) =~= Seq::empty());
    } else {
        lemma_archive_of_shaped(log);
        lemma_archive_of_shaped(log.drop_last());
        law_stored_revisions_are_fetched(log.drop_last(), id);
        let before = archive_of(log.drop_last());
        let after = archive_of(log);
        let (last_id, bytes) = log.last();
        lemma_located_is_a_row(before.rows[f], id);
        if layout::file_of(last_id) == f {
            assert(readable(after.rows[f]).drop_last() =~= readable(before.rows[f]));
            assert(after.files[f] == before.files[f] + bytes);
            match positions::located(readable(before.rows[f]), id) {
                Ok(row) => {
                    let (start, end) = (
                        row.record_start as int,
                        row.record_start + row.record_length,
                    );
                    let i = choose|i: int|
                        0 <= i < before.rows[f].len() && #[trigger] before.rows[f][i] == row;
                    assert(end <= before.files[f].len());
                    assert(after.files[f].subrange(start, end) =~= before.files[f].subrange(
                        start,
                        end,
                    ));
                },
                Err(_) => {
                    let start = before.files[f].len() as int;
                    assert(after.files[f].len() <= u64::MAX);
                    assert(after.files[f].subrange(start, start + bytes.len()) =~= bytes);
                },
            }
        } else {
            assert(after.files[f] == before.files[f]);
            assert(after.rows[f] == before.rows[f]);
        }
    }
}

/// Whether the rows of a position index tell of one stretch after another that together make up
/// a whole data file of the given length.
pub open spec fn seamless(rows: Seq<PositionEntry>, length: int) -> bool
    decreases rows.len(),
{
    if rows.len() == 0 {
        length == 0
    } else {
        &&& rows.last().record_start + rows.last().record_length == length
        &&& seamless(rows.drop_last(), rows.last().record_start as int)
    }
}

/// The revisions in a data file lie one behind the other, without gaps and without overlaps, and
/// there is nothing else in the file.
pub proof fn law_files_are_seamless(log: Seq<(RevisionID, Seq<u8>)>, f: int)
    requires
        countable(archive_of(log)),
        0 <= f < N_REVISION_FILES,
    ensures
        seamless(archive_of(log).rows[f], archive_of(log).files[f].len() as int),
    decreases log.len(),
{
    if log.len() > 0 {
        lemma_archive_of_shaped(log);
        lemma_archive_of_shaped(log.drop_last());
        law_files_are_seamless(log.drop_last(), f);
        let before = archive_of(log.drop_last());
        let after = archive_of(log);
        let (id, bytes) = log.last();
        assert(after.files[f].len() <= u64::MAX);
        if layout::file_of(id) == f {
            assert(after.files[f].len() == before.files[f].len() + bytes.len());
            assert(after.rows[f].drop_last() =~= before.rows[f]);
        }
    }
}

/// What has been written stays where it is, whatever is written behind it.
pub proof fn law_written_bytes_stay(before: Seq<u8>, bytes: Seq<u8>, later: Seq<u8>)
    ensures
        (before + bytes + later).subrange(
            before.len() as int,
            (before.len() + bytes.len()) as int,
        ) == bytes,
{
    assert((before + bytes + later).subrange(
        before.len() as int,
        (before.len() + bytes.len()) as int,
    ) =~= bytes);
}

/// Writing a revision to its data file and telling its position index what the indices are told
/// of it archives it.
pub proof fn law_storing_is_archiving(archive: Archive, bytes: Seq<u8>, stored: StoredRevision)
    requires
        stored.record_start == archive.files[layout::file_of(stored.revision_id) as int].len(),
        stored.record_length == bytes.len(),
    ensures
        ({
            let f = layout::file_of(stored.revision_id) as int;
            let row = records::index_row(stored);
            archived(archive, stored.revision_id, bytes) == (Archive {
                files: archive.files.update(f, archive.files[f] + bytes),
                rows: archive.rows.update(
                    row.file_index as int,
                    archive.rows[row.file_index as int].push(row.position),
                ),
            })
        }),
{
}

/// Whether `stored` tells of the revisions of a log, in its order: each begins where its data file
/// ended before it, and is as long as its bytes.
pub open spec fn stores(log: Seq<(RevisionID, Seq<u8>)>, stored: Seq<StoredRevision>) -> bool {
    &&& stored.len() == log.len()
    &&& forall|k: int|
        0 <= k < log.len() ==> {
            &&& (#[trigger] stored[k]).revision_id == log[k].0
            &&& stored[k].record_start == archive_of(log.take(k)).files[layout::file_of(
                log[k].0,
            ) as int].len()
            &&& stored[k].record_length == log[k].1.len()
        }
}

/// What the position index number `f` is told of a stored revision, if anything.
pub open spec fn position_for(stored: StoredRevision, f: int) -> Option<PositionEntry> {
    let row = records::index_row(stored);
    if row.file_index == f {
        Some(row.position)
    } else {
        None
    }
}

/// The rows of the position index number `f`, where the indices are told of stored revisions in
/// the order in which they are listed.
pub open spec fn position_rows(listed: Seq<StoredRevision>, f: int) -> Seq<PositionEntry> {
    listed.filter_map(|s: StoredRevision| position_for(s, f))
}

/// The rows of the list of dates, where the indices are told of stored revisions in the order in
/// which they are listed.
pub open spec fn date_rows(listed: Seq<StoredRevision>) -> Seq<DateEntry> {
    listed.map_values(|s: StoredRevision| records::index_row(s).date)
}

/// Those of the revisions that belong to the file number `f`.
pub open spec fn ids_of_file(ids: Seq<RevisionID>, f: int) -> Seq<RevisionID> {
    ids.filter(|id: RevisionID| layout::file_of(id) == f)
}

/// How many of the rows tell of a stretch with the place `p` in it.
pub open spec fn covering(rows: Seq<PositionEntry>, p: int) -> nat {
    rows.filter(
        |row: PositionEntry| row.record_start <= p < row.record_start + row.record_length,
    ).len()
}

/// Whether the stretches that the rows tell of, in whatever order, cover a data file of the given
/// length without gaps and without overlaps, and do not reach past its end.
pub open spec fn tiles(rows: Seq<PositionEntry>, length: int) -> bool {
    &&& forall|i: int|
        0 <= i < rows.len() ==> (#[trigger] rows[i]).record_start + rows[i].record_length <= length
    &&& forall|p: int| 0 <= p < length ==> #[trigger] covering(rows, p) == 1
}

/// Stretches that follow one another cover the file that they make up.
proof fn lemma_seamless_rows_tile(rows: Seq<PositionEntry>, length: int)
    requires
        seamless(rows, length),
    ensures
        tiles(rows, length),
        forall|p: int| p >= length ==> #[trigger] covering(rows, p) == 0,
    decreases rows.len(),
{
    reveal(Seq::filter);
    if rows.len() > 0 {
        let rest = rows.drop_last();
        let start = rows.last().record_start as int;
        lemma_seamless_rows_tile(rest, start);
        assert forall|i: int| 0 <= i < rows.len() implies (#[trigger] rows[i]).record_start
            + rows[i].record_length <= length by {
            if i < rest.len() {
                assert(rows[i] == rest[i]);
            } else {
                assert(rows[i] == rows.last());
            }
        }
        assert forall|p: int| p >= 0 implies #[trigger] covering(rows, p) == (if p < length {
            1nat
        } else {
            0nat
        }) by {
            assert(covering(rest, p) == if p < start {
                1nat
            } else {
                0nat
            });
        }
    }
}

/// What is chosen from a list is the same, each as often, in whatever order the list is.
proof fn lemma_filter_in_any_order<A>(list: Seq<A>, chosen: spec_fn(A) -> bool)
    ensures
        list.filter(chosen).to_multiset() == list.to_multiset().filter(chosen),
    decreases list.len(),
{
    broadcast use vstd::seq_lib::group_to_multiset_ensures;

    reveal(Seq::filter);
    if list.len() > 0 {
        let (rest, last) = (list.drop_last(), list.last());
        lemma_filter_in_any_order(rest, chosen);
        assert(rest.push(last) =~= list);
    }
    assert(list.filter(chosen).to_multiset() =~= list.to_multiset().filter(chosen));
}

/// Taking one out of a list takes out what is made of it.
proof fn lemma_filter_map_without<A, B>(list: Seq<A>, make: spec_fn(A) -> Option<B>, i: int)
    requires
        0 <= i < list.len(),
    ensures
        list.filter_map(make).to_multiset() == (match make(list[i]) {
            Some(made) => list.remove(i).filter_map(make).to_multiset().insert(made),
            None => list.remove(i).filter_map(make).to_multiset(),
        }),
    decreases list.len(),
{
    broadcast use vstd::seq_lib::group_to_multiset_ensures;

    let (rest, last) = (list.drop_last(), list.last());
    let without = list.remove(i);
    assert(list.filter_map(make) =~= match make(last) {
        Some(made) => rest.filter_map(make).push(made),
        None => rest.filter_map(make),
    });
    if i == list.len() - 1 {
        assert(without =~= rest);
    } else {
        lemma_filter_map_without(rest, make, i);
        assert(without.drop_last() =~= rest.remove(i));
        assert(without.last() == last);
        assert(without.filter_map(make) =~= match make(last) {
            Some(made) => rest.remove(i).filter_map(make).push(made),
            None => rest.remove(i).filter_map(make),
        });
        if make(list[i]) is Some {
            assert(list.filter_map(make).to_multiset() =~= without.filter_map(
                make,
            ).to_multiset().insert(make(list[i])->0));
        }
    }
}

/// What is made of the members of a list is the same, each as often, in whatever order the list
/// is.
proof fn lemma_filter_map_in_any_order<A, B>(
    a: Seq<A>,
    b: Seq<A>,
    make: spec_fn(A) -> Option<B>,
)
    requires
        a.to_multiset() == b.to_multiset(),
    ensures
        a.filter_map(make).to_multiset() == b.filter_map(make).to_multiset(),
    decreases a.len(),
{
    broadcast use vstd::seq_lib::group_to_multiset_ensures;

    assert(a.len() == a.to_multiset().len() && b.len() == b.to_multiset().len());
    if a.len() > 0 {
        let n = a.len() - 1;
        assert(a.contains(a[n]));
        assert(b.to_multiset().count(a[n]) > 0);
        let i = b.index_of(a[n]);
        assert(b[i] == a[n]);
        assert(a.remove(n).to_multiset() =~= b.remove(i).to_multiset());
        lemma_filter_map_in_any_order(a.remove(n), b.remove(i), make);
        lemma_filter_map_without(a, make, n);
        lemma_filter_map_without(b, make, i);
    } else {
        assert(a =~= b);
    }
}

/// Told of stored revisions in the order in which they were written, the position indices hold
/// what those of the archive hold.
proof fn lemma_rows_in_log_order(
    log: Seq<(RevisionID, Seq<u8>)>,
    stored: Seq<StoredRevision>,
    f: int,
)
    requires
        stores(log, stored),
        0 <= f < N_REVISION_FILES,
    ensures
        position_rows(stored, f) == archive_of(log).rows[f],
    decreases log.len(),
{
    if log.len() > 0 {
        let (rest, rest_stored) = (log.drop_last(), stored.drop_last());
        let n = log.len() - 1;
        assert(log.take(n) =~= rest);
        assert(stored[n] == stored.last());
        assert forall|k: int| 0 <= k < rest.len() implies {
            &&& (#[trigger] rest_stored[k]).revision_id == rest[k].0
            &&& rest_stored[k].record_start == archive_of(rest.take(k)).files[layout::file_of(
                rest[k].0,
            ) as int].len()
            &&& rest_stored[k].record_length == rest[k].1.len()
        } by {
            assert(rest_stored[k] == stored[k]);
            assert(rest.take(k) =~= log.take(k));
        }
        lemma_rows_in_log_order(rest, rest_stored, f);
        lemma_lens(rest);
    }
    assert(position_rows(stored, f) =~= archive_of(log).rows[f]);
}

/// The position index number `f` lists the revisions that belong to it, in the order in which they
/// were stored, and no others.
pub proof fn law_indices_list_their_revisions(log: Seq<(RevisionID, Seq<u8>)>, f: int)
    requires
        0 <= f < N_REVISION_FILES,
    ensures
        buckets::row_ids(archive_of(log).rows[f]) == ids_of_file(
            log.map_values(|entry: (RevisionID, Seq<u8>)| entry.0),
            f,
        ),
    decreases log.len(),
{
    reveal(Seq::filter);
    let ids = log.map_values(|entry: (RevisionID, Seq<u8>)| entry.0);
    if log.len() > 0 {
        let rest = log.drop_last();
        law_indices_list_their_revisions(rest, f);
        lemma_lens(rest);
        assert(ids.drop_last() =~= rest.map_values(|entry: (RevisionID, Seq<u8>)| entry.0));
    }
    assert(buckets::row_ids(archive_of(log).rows[f]) =~= ids_of_file(ids, f));
}

/// In whatever order the indices are told of stored revisions, each revision has one row in the
/// list of dates and one row in its position index.
pub proof fn law_each_revision_has_one_row_in_each_index(listed: Seq<StoredRevision>, f: int)
    ensures
        date_rows(listed).len() == listed.len(),
        buckets::row_ids(position_rows(listed, f)) == ids_of_file(
            date_rows(listed).map_values(|date: DateEntry| date.revision_id),
            f,
        ),
    decreases listed.len(),
{
    reveal(Seq::filter);
    let ids = date_rows(listed).map_values(|date: DateEntry| date.revision_id);
    if listed.len() > 0 {
        let rest = listed.drop_last();
        law_each_revision_has_one_row_in_each_index(rest, f);
        assert(ids.drop_last() =~= date_rows(rest).map_values(
            |date: DateEntry| date.revision_id,
        ));
    }
    assert(buckets::row_ids(position_rows(listed, f)) =~= ids_of_file(ids, f));
}

/// In whatever order the indices are told of the revisions that were written, a position index has
/// the rows of its revisions, each as often, and they cover its data file without gaps and
/// without overlaps.
pub proof fn law_rows_in_any_order_tile(
    log: Seq<(RevisionID, Seq<u8>)>,
    stored: Seq<StoredRevision>,
    listed: Seq<StoredRevision>,
    f: int,
)
    requires
        countable(archive_of(log)),
        stores(log, stored),
        listed.to_multiset() == stored.to_multiset(),
        0 <= f < N_REVISION_FILES,
    ensures
        position_rows(listed, f).to_multiset() == archive_of(log).rows[f].to_multiset(),
        tiles(position_rows(listed, f), archive_of(log).files[f].len() as int),
{
    broadcast use vstd::seq_lib::group_to_multiset_ensures;

    let (own, rows) = (archive_of(log).rows[f], position_rows(listed, f));
    let length = archive_of(log).files[f].len() as int;
    lemma_rows_in_log_order(log, stored, f);
    lemma_filter_map_in_any_order(listed, stored, |s: StoredRevision| position_for(s, f));
    law_files_are_seamless(log, f);
    lemma_seamless_rows_tile(own, length);
    assert forall|i: int| 0 <= i < rows.len() implies (#[trigger] rows[i]).record_start
        + rows[i].record_length <= length by {
        assert(rows.contains(rows[i]));
        assert(own.to_multiset().count(rows[i]) > 0);
        let j = own.index_of(rows[i]);
        assert(own[j] == rows[i]);
    }
    assert forall|p: int| 0 <= p < length implies #[trigger] covering(rows, p) == 1 by {
        let reaches = |row: PositionEntry|
            row.record_start <= p < row.record_start + row.record_length;
        lemma_filter_in_any_order(rows, reaches);
        lemma_filter_in_any_order(own, reaches);
        assert(covering(own, p) == own.filter(reaches).to_multiset().len());
        assert(covering(rows, p) == rows.filter(reaches).to_multiset().len());
    }
}

/// The bytes of a stored revision are where it is said to be.
proof fn lemma_stored_bytes(
    log: Seq<(RevisionID, Seq<u8>)>,
    stored: Seq<StoredRevision>,
    k: int,
    n: int,
)
    requires
        stores(log, stored),
        0 <= k < n <= log.len(),
    ensures
        ({
            let file = archive_of(log.take(n)).files[layout::file_of(log[k].0) as int];
            let end = stored[k].record_start + stored[k].record_length;
            end <= file.len() && file.subrange(stored[k].record_start as int, end) == log[k].1
        }),
    decreases n,
{
    let f = layout::file_of(log[k].0) as int;
    let (before, after) = (archive_of(log.take(n - 1)).files, archive_of(log.take(n)).files);
    let (start, end) = (
        stored[k].record_start as int,
        stored[k].record_start + stored[k].record_length,
    );
    assert(log.take(n).drop_last() =~= log.take(n - 1));
    assert(log.take(n).last() == log[n - 1]);
    lemma_lens(log.take(n - 1));
    if k == n - 1 {
        assert(after[f] == before[f] + log[k].1);
    } else {
        lemma_stored_bytes(log, stored, k, n - 1);
        assert(after[f].subrange(start, end) =~= before[f].subrange(start, end));
    }
    assert(after[f].subrange(start, end) =~= log[k].1);
}

/// Whether the revision that is listed at the place `m` is the first with the id `id`.
pub open spec fn first_listed(listed: Seq<StoredRevision>, id: RevisionID, m: int) -> bool {
    &&& 0 <= m < listed.len()
    &&& listed[m].revision_id == id
    &&& forall|j: int| 0 <= j < m ==> (#[trigger] listed[j]).revision_id != id
}

/// A lookup finds the row of the first revision that is listed with the id, and fails exactly
/// where none is.
proof fn lemma_located_is_first_listed(listed: Seq<StoredRevision>, id: RevisionID)
    ensures
        match positions::located(
            readable(position_rows(listed, layout::file_of(id) as int)),
            id,
        ) {
            Ok(row) => exists|m: int| #[trigger]
                first_listed(listed, id, m) && row == records::index_row(listed[m]).position,
            Err(error) => error is NotFound && forall|m: int|
                0 <= m < listed.len() ==> (#[trigger] listed[m]).revision_id != id,
        },
    decreases listed.len(),
{
    let f = layout::file_of(id) as int;
    let rows = position_rows(listed, f);
    if listed.len() > 0 {
        let rest = listed.drop_last();
        let n = listed.len() - 1;
        let rest_rows = position_rows(rest, f);
        lemma_located_is_first_listed(rest, id);
        assert(listed[n] == listed.last());
        assert(rows =~= match position_for(listed[n], f) {
            Some(row) => rest_rows.push(row),
            None => rest_rows,
        });
        if position_for(listed[n], f) is Some {
            assert(readable(rows).drop_last() =~= readable(rest_rows));
        }
        match positions::located(readable(rest_rows), id) {
            Ok(row) => {
                let m = choose|m: int| #[trigger]
                    first_listed(rest, id, m) && row == records::index_row(rest[m]).position;
                assert forall|j: int| 0 <= j < m implies (#[trigger] listed[j]).revision_id
                    != id by {
                    assert(rest[j] == listed[j]);
                }
                assert(first_listed(listed, id, m));
            },
            Err(_) => {
                assert forall|j: int| 0 <= j < n implies (#[trigger] listed[j]).revision_id
                    != id by {
                    assert(rest[j] == listed[j]);
                }
                if listed[n].revision_id == id {
                    assert(first_listed(listed, id, n));
                }
            },
        }
    } else {
        assert(readable(rows) =~= Seq::empty());
    }
}

/// Whether `row` tells where the revision number `k` of the log is: the part of its data file that
/// the row tells of are its bytes, and they decompress to its text.
pub open spec fn leads_to(
    row: PositionEntry,
    columns: Seq<Seq<Seq<char>>>,
    log: Seq<(RevisionID, Seq<u8>)>,
    k: int,
) -> bool {
    let found = archive_of(log).files[layout::file_of(log[k].0) as int].subrange(
        row.record_start as int,
        row.record_start + row.record_length,
    );
    found == log[k].1 && external::brotli_text(found) == Some(records::stored_text(columns[k]))
}

/// Downloaded revisions can be read back: after they have been compressed and stored, and the
/// indices have been told of them in whatever order, a lookup of an id leads to the bytes of the
/// first revision that was listed with that id, which decompress to its text. The lookup fails
/// exactly where no revision with that id was stored.
pub proof fn law_revisions_read_back(
    columns: Seq<Seq<Seq<char>>>,
    log: Seq<(RevisionID, Seq<u8>)>,
    stored: Seq<StoredRevision>,
    listed: Seq<StoredRevision>,
    id: RevisionID,
)
    requires
        columns.len() == log.len(),
        forall|k: int|
            0 <= k < log.len() ==> records::id_of(#[trigger] columns[k]) == Some(log[k].0)
                && records::stands_for(log[k].1, columns[k]),
        stores(log, stored),
        listed.to_multiset() == stored.to_multiset(),
    ensures
        match positions::located(
            readable(position_rows(listed, layout::file_of(id) as int)),
            id,
        ) {
            Ok(row) => exists|m: int, k: int|
                {
                    &&& #[trigger] first_listed(listed, id, m)
                    &&& 0 <= k < log.len()
                    &&& listed[m] == stored[k]
                    &&& log[k].0 == id
                    &&& #[trigger] leads_to(row, columns, log, k)
                },
            Err(_) => forall|k: int| 0 <= k < log.len() ==> (#[trigger] log[k]).0 != id,
        },
{
    broadcast use vstd::seq_lib::group_to_multiset_ensures;

    lemma_located_is_first_listed(listed, id);
    match positions::located(readable(position_rows(listed, layout::file_of(id) as int)), id) {
        Ok(row) => {
            let m = choose|m: int| #[trigger]
                first_listed(listed, id, m) && row == records::index_row(listed[m]).position;
            assert(listed.contains(listed[m]));
            assert(stored.to_multiset().count(listed[m]) > 0);
            let k = stored.index_of(listed[m]);
            assert(stored[k] == listed[m]);
            lemma_stored_bytes(log, stored, k, log.len() as int);
            assert(log.take(log.len() as int) =~= log);
            assert(records::stands_for(log[k].1, columns[k]));
            assert(leads_to(row, columns, log, k));
        },
        Err(_) => {
            assert forall|k: int| 0 <= k < log.len() implies (#[trigger] log[k]).0 != id by {
                assert(stored[k].revision_id == log[k].0);
                assert(stored.contains(stored[k]));
                assert(listed.to_multiset().count(stored[k]) > 0);
                let m = listed.index_of(stored[k]);
                assert(listed[m].revision_id != id);
            }
        },
    }
}

/// A data file holds the bytes of all revisions whose id leaves its number when it is divided by
/// the number of files, one behind the other as they were stored, and nothing else.
pub proof fn law_files_hold_their_revisions(log: Seq<(RevisionID, Seq<u8>)>, f: int)
    requires
        0 <= f < 200,
    ensures
        archive_of(log).files[f] == log.filter(
            |entry: (RevisionID, Seq<u8>)| entry.0 % 200 == f,
        ).map_values(|entry: (RevisionID, Seq<u8>)| entry.1).flatten(),
    decreases log.len(),
{
    reveal(Seq::filter);
    let own = |entry: (RevisionID, Seq<u8>)| entry.0 % 200 == f;
    let bytes = log.filter(own).map_values(|entry: (RevisionID, Seq<u8>)| entry.1);
    bytes.lemma_flatten_and_flatten_alt_are_equivalent();
    if log.len() > 0 {
        let rest = log.drop_last();
        let before = rest.filter(own).map_values(|entry: (RevisionID, Seq<u8>)| entry.1);
        law_files_hold_their_revisions(rest, f);
        lemma_lens(rest);
        before.lemma_flatten_and_flatten_alt_are_equivalent();
        if own(log.last()) {
            assert(bytes.drop_last() =~= before);
            assert(bytes.last() == log.last().1);
        } else {
            assert(bytes =~= before);
        }
    }
    assert(archive_of(log).files[f] =~= bytes.flatten());
}

/// The list of dates gives for every period exactly the stored revisions whose own instant lies in
/// it, in the order in which they are listed.
pub proof fn law_stored_revisions_are_dated(listed: Seq<StoredRevision>, from: int, to: int)
    ensures
        date_index::listed_between(date_rows(listed), from, to) == listed.filter(
            |s: StoredRevision| from <= s.instant.point() && s.instant.point() < to,
        ).map_values(|s: StoredRevision| s.revision_id),
    decreases listed.len(),
{
    reveal(Seq::filter);
    let chosen = |s: StoredRevision| from <= s.instant.point() && s.instant.point() < to;
    if listed.len() > 0 {
        let rest = listed.drop_last();
        law_stored_revisions_are_dated(rest, from, to);
        assert(date_rows(listed).drop_last() =~= date_rows(rest));
    }
    assert(date_index::listed_between(date_rows(listed), from, to) =~= listed.filter(
        chosen,
    ).map_values(|s: StoredRevision| s.revision_id));
}

/// The index that is built of the list of dates gives for every period exactly the stored revisions
/// whose own instant lies in it, each as often.
pub proof fn law_stored_revisions_are_found_by_date(
    listed: Seq<StoredRevision>,
    from: int,
    to: int,
)
    requires
        from <= to,
    ensures
        date_index::ids_between(
            date_index::index_of(date_rows(listed)),
            from,
            to,
        ).to_multiset() == listed.filter(
            |s: StoredRevision| from <= s.instant.point() && s.instant.point() < to,
        ).map_values(|s: StoredRevision| s.revision_id).to_multiset(),
{
    date_index::law_index_keeps_periods(date_rows(listed), from, to);
    law_stored_revisions_are_dated(listed, from, to);
}

} // verus!
