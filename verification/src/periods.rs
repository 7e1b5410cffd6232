//! From the list of all dates to the answer for a period.

use vstd::prelude::*;

use crate::buckets;
use crate::date_index;
use crate::date_index::DateEntry;
use crate::instant::Instant;
use crate::layout::N_REVISION_FILES;
use crate::layout::RevisionID;
use crate::state;
use crate::time_map;

verus! {

/// Those of the listed revisions whose date goes to the temporary date file number `k`, in the
/// order of the list.
pub open spec fn routed(entries: Seq<DateEntry>, size: u64, k: int) -> Seq<DateEntry>
    decreases entries.len(),
{
    if entries.len() == 0 {
        Seq::empty()
    } else {
        let rest = routed(entries.drop_last(), size, k);
        if buckets::bucket(entries.last().revision_id, size) == k {
            rest.push(entries.last())
        } else {
            rest
        }
    }
}

/// The dates that go to a temporary date file are all those, and only those, whose id lies in its
/// stretch of `size` ids, in the order of the list. The last stretch has no end.
pub proof fn law_dates_go_to_their_stretch(entries: Seq<DateEntry>, size: u64, k: int)
    requires
        size > 0,
        0 <= k < 200,
    ensures
        routed(entries, size, k) == entries.filter(
            |e: DateEntry|
                k * size <= e.revision_id && (k == 199 || e.revision_id < (k + 1) * size),
        ),
    decreases entries.len(),
{
    reveal(Seq::filter);
    let chosen = |e: DateEntry|
        k * size <= e.revision_id && (k == 199 || e.revision_id < (k + 1) * size);
    if entries.len() > 0 {
        law_dates_go_to_their_stretch(entries.drop_last(), size, k);
        buckets::law_stretches_are_intervals(entries.last().revision_id, size, k);
    }
    assert(routed(entries, size, k) =~= entries.filter(chosen));
}

/// Sorts dates by the temporary date files that they go to, for stretches of `size` ids. `None`
/// where there are dates and the size is zero.
pub fn route_dates(entries: &Vec<DateEntry>, size: u64) -> (r: Option<Vec<Vec<DateEntry>>>)
    ensures
        r is Some <==> entries@.len() == 0 || size > 0,
        r matches Some(lists) ==> {
            &&& lists@.len() == N_REVISION_FILES
            &&& forall|k: int|
                0 <= k < N_REVISION_FILES ==> (#[trigger] lists@[k])@ == routed(entries@, size, k)
        },
        r matches Some(lists) ==> lists@.len() == 200 && (size > 0 ==> forall|k: int|
            0 <= k < 200 ==> (#[trigger] lists@[k])@ == entries@.filter(
                |e: DateEntry|
                    k * size <= e.revision_id && (k == 199 || e.revision_id < (k + 1) * size),
            )),
{
    let mut lists: Vec<Vec<DateEntry>> = Vec::new();
    for k in 0..N_REVISION_FILES
        invariant
            lists@.len() == k,
            forall|j: int| 0 <= j < k ==> (#[trigger] lists@[j])@ == Seq::<DateEntry>::empty(),
    {
        lists.push(Vec::new());
    }
    for i in 0..entries.len()
        invariant
            lists@.len() == N_REVISION_FILES,
            i > 0 ==> size > 0,
            forall|k: int|
                0 <= k < N_REVISION_FILES ==> (#[trigger] lists@[k])@ == routed(
                    entries@.take(i as int),
                    size,
                    k,
                ),
    {
        assert(entries@.take(i + 1).drop_last() =~= entries@.take(i as int));
        let entry = entries[i];
        match buckets::date_file_index(entry.revision_id, size) {
            Some(k) => {
                lists[k].push(entry);
            },
            None => {
                return None;
            },
        }
    }
    assert(entries@.take(entries@.len() as int) =~= entries@);
    proof {
        if size > 0 {
            assert forall|k: int| 0 <= k < 200 implies (#[trigger] lists@[k])@ == entries@.filter(
                |e: DateEntry|
                    k * size <= e.revision_id && (k == 199 || e.revision_id < (k + 1) * size),
            ) by {
                law_dates_go_to_their_stretch(entries@, size, k);
            }
        }
    }
    Some(lists)
}

/// Dates can be sorted part by part: what goes to a file from the parts is what goes to it from
/// the whole.
pub proof fn law_routed_in_parts(a: Seq<DateEntry>, b: Seq<DateEntry>, size: u64, k: int)
    ensures
        routed(a + b, size, k) == routed(a, size, k) + routed(b, size, k),
    decreases b.len(),
{
    if b.len() == 0 {
        assert(a + b =~= a);
        assert(routed(a, size, k) + routed(b, size, k) =~= routed(a, size, k));
    } else {
        assert((a + b).drop_last() =~= a + b.drop_last());
        law_routed_in_parts(a, b.drop_last(), size, k);
        assert(routed(a + b, size, k) =~= routed(a, size, k) + routed(b, size, k));
    }
}

/// The date indices that are built from the first `n` temporary date files.
pub open spec fn built(entries: Seq<DateEntry>, size: u64, n: int) -> Seq<
    Seq<(Instant, Seq<RevisionID>)>,
> {
    Seq::new(n as nat, |k: int| date_index::index_of(routed(entries, size, k)))
}

/// One more date in the list is one more revision in the index of the file that it goes to.
proof fn lemma_built_with_one_more(
    entries: Seq<DateEntry>,
    size: u64,
    n: int,
    start: int,
    end: int,
)
    requires
        entries.len() > 0,
        0 <= n,
        start <= end,
    ensures
        state::ids_of_indices(built(entries, size, n), start, end).to_multiset() == ({
            let before = state::ids_of_indices(
                built(entries.drop_last(), size, n),
                start,
                end,
            ).to_multiset();
            let e = entries.last();
            if 0 <= buckets::bucket(e.revision_id, size) < n && start <= e.instant.point() < end {
                before.insert(e.revision_id)
            } else {
                before
            }
        }),
    decreases n,
{
    broadcast use vstd::seq_lib::group_to_multiset_ensures;

    let rest = entries.drop_last();
    let e = entries.last();
    let (a, b) = (built(entries, size, n), built(rest, size, n));
    if n == 0 {
        assert(a =~= b);
    } else {
        let k = n - 1;
        lemma_built_with_one_more(entries, size, k, start, end);
        assert(a.drop_last() =~= built(entries, size, k));
        assert(b.drop_last() =~= built(rest, size, k));
        let (listed, listed_rest) = (routed(entries, size, k), routed(rest, size, k));
        date_index::law_index_keeps_periods(listed, start, end);
        date_index::law_index_keeps_periods(listed_rest, start, end);
        assert(listed.len() > listed_rest.len() ==> listed.drop_last() =~= listed_rest);
        vstd::seq_lib::lemma_multiset_commutative(
            state::ids_of_indices(a.drop_last(), start, end),
            date_index::ids_between(a.last(), start, end),
        );
        vstd::seq_lib::lemma_multiset_commutative(
            state::ids_of_indices(b.drop_last(), start, end),
            date_index::ids_between(b.last(), start, end),
        );
        let before = state::ids_of_indices(b, start, end).to_multiset();
        let after = state::ids_of_indices(a, start, end).to_multiset();
        if 0 <= buckets::bucket(e.revision_id, size) < n && start <= e.instant.point() < end {
            assert(after =~= before.insert(e.revision_id));
        } else {
            assert(after =~= before);
        }
    }
}

/// Splitting a list by date and building an index of each part loses no revision and adds none:
/// for every period all indices together give what the list gives, each revision as often.
pub proof fn law_splitting_keeps_periods(
    entries: Seq<DateEntry>,
    size: u64,
    start: int,
    end: int,
)
    requires
        size > 0,
        start <= end,
    ensures
        state::ids_of_indices(
            built(entries, size, N_REVISION_FILES as int),
            start,
            end,
        ).to_multiset() == date_index::listed_between(entries, start, end).to_multiset(),
    decreases entries.len(),
{
    broadcast use vstd::seq_lib::group_to_multiset_ensures;

    let n = N_REVISION_FILES as int;
    if entries.len() == 0 {
        assert(entries =~= Seq::empty());
        lemma_none_built(size, n, start, end);
    } else {
        let e = entries.last();
        buckets::law_which_dates_have_a_file(e.revision_id, size);
        law_splitting_keeps_periods(entries.drop_last(), size, start, end);
        lemma_built_with_one_more(entries, size, n, start, end);
    }
}

/// Indices of empty lists give nothing.
proof fn lemma_none_built(size: u64, n: int, start: int, end: int)
    requires
        0 <= n,
        start <= end,
    ensures
        state::ids_of_indices(built(Seq::empty(), size, n), start, end) == Seq::<
            RevisionID,
        >::empty(),
    decreases n,
{
    let none = Seq::<DateEntry>::empty();
    let indices = built(none, size, n);
    if n > 0 {
        lemma_none_built(size, n - 1, start, end);
        assert(indices.drop_last() =~= built(none, size, n - 1));
        assert(indices.last() =~= Seq::<(Instant, Seq<RevisionID>)>::empty());
        assert(time_map::entries_between(indices.last(), start, end) =~= Seq::empty());
        assert(state::ids_of_indices(indices, start, end) =~= Seq::<RevisionID>::empty());
    }
}

/// Whether revision ids grow over time.
pub open spec fn ids_grow(entries: Seq<DateEntry>) -> bool {
    forall|i: int, j: int|
        0 <= i < entries.len() && 0 <= j < entries.len() && (#[trigger] entries[i]).revision_id
            <= (#[trigger] entries[j]).revision_id ==> entries[i].instant.point()
            <= entries[j].instant.point()
}

/// Whether each index is known by the instant that it begins with.
pub open spec fn known_by_beginning(
    s: Seq<(Instant, Seq<char>)>,
    indices: Seq<Seq<(Instant, Seq<RevisionID>)>>,
) -> bool {
    &&& s.len() == indices.len()
    &&& forall|k: int|
        #![trigger s[k]]
        #![trigger indices[k]]
        0 <= k < indices.len() ==> indices[k].len() > 0 && s[k].0 == indices[k][0].0
}

/// A date that goes to a file is one of the list, and belongs to that file.
proof fn lemma_routed_is_listed(entries: Seq<DateEntry>, size: u64, k: int, e: DateEntry)
    requires
        routed(entries, size, k).contains(e),
    ensures
        entries.contains(e),
        buckets::bucket(e.revision_id, size) == k,
    decreases entries.len(),
{
    if entries.len() > 0 {
        let rest = entries.drop_last();
        let i = routed(entries, size, k).index_of(e);
        if i < routed(rest, size, k).len() {
            assert(routed(rest, size, k)[i] == e);
            lemma_routed_is_listed(rest, size, k, e);
            assert(entries[rest.index_of(e)] == e);
        } else {
            assert(entries[entries.len() - 1] == e);
        }
    }
}

/// What is listed for a period is listed with an instant in it.
proof fn lemma_listed_between(entries: Seq<DateEntry>, from: int, to: int) -> (e: DateEntry)
    requires
        date_index::listed_between(entries, from, to).len() > 0,
    ensures
        entries.contains(e),
        from <= e.instant.point() < to,
    decreases entries.len(),
{
    if from <= entries.last().instant.point() < to {
        assert(entries[entries.len() - 1] == entries.last());
        entries.last()
    } else {
        let e = lemma_listed_between(entries.drop_last(), from, to);
        assert(entries[entries.drop_last().index_of(e)] == e);
        e
    }
}

/// Every instant in an index that was built comes from a date that went to its file.
proof fn lemma_built_from(entries: Seq<DateEntry>, size: u64, k: int, i: int) -> (e: DateEntry)
    requires
        0 <= i < date_index::index_of(routed(entries, size, k)).len(),
    ensures
        entries.contains(e),
        buckets::bucket(e.revision_id, size) == k,
        e.instant.point() == date_index::index_of(routed(entries, size, k))[i].0.point(),
{
    let list = routed(entries, size, k);
    let index = date_index::index_of(list);
    let p = index[i].0.point();
    date_index::lemma_index_of_ascending(list);
    time_map::lemma_rank_unique(index, p, i);
    date_index::law_index_keeps_instants(list, p);
    let e = lemma_listed_between(list, p, p + 1);
    lemma_routed_is_listed(entries, size, k, e);
    e
}

/// Where revision ids grow over time, no index that was built holds an instant after one that a
/// later index holds.
proof fn lemma_built_in_order(
    entries: Seq<DateEntry>,
    size: u64,
    j: int,
    a: int,
    k: int,
    b: int,
)
    requires
        size > 0,
        ids_grow(entries),
        j < k,
        0 <= a < date_index::index_of(routed(entries, size, j)).len(),
        0 <= b < date_index::index_of(routed(entries, size, k)).len(),
    ensures
        date_index::index_of(routed(entries, size, j))[a].0.point() <= date_index::index_of(
            routed(entries, size, k),
        )[b].0.point(),
{
    let d = lemma_built_from(entries, size, j, a);
    let e = lemma_built_from(entries, size, k, b);
    if e.revision_id <= d.revision_id {
        buckets::law_later_ids_go_further(e.revision_id, d.revision_id, size);
    }
    let (x, y) = (entries.index_of(d), entries.index_of(e));
    assert(entries[x].revision_id <= entries[y].revision_id);
}

/// Where revision ids grow over time they are split by date: the indices that are built, each
/// known by the instant that it begins with, follow one another in time.
pub proof fn law_growing_ids_are_split_by_date(
    entries: Seq<DateEntry>,
    size: u64,
    s: Seq<(Instant, Seq<char>)>,
)
    requires
        size > 0,
        ids_grow(entries),
        known_by_beginning(s, built(entries, size, N_REVISION_FILES as int)),
    ensures
        state::consecutive(s, built(entries, size, N_REVISION_FILES as int)),
{
    let indices = built(entries, size, N_REVISION_FILES as int);
    assert forall|k: int| 0 <= k < indices.len() implies time_map::ascending(
        #[trigger] indices[k],
    ) by {
        date_index::lemma_index_of_ascending(routed(entries, size, k));
    }
    assert forall|k: int, i: int|
        0 <= k < indices.len() && 0 <= i < indices[k].len() implies s[k].0.point() <= (
    #[trigger] indices[k][i]).0.point() by {
        assert(time_map::ascending(indices[k]));
        assert(s[k].0 == indices[k][0].0);
    }
    assert forall|k: int, i: int|
        0 <= k < indices.len() - 1 && 0 <= i < indices[k].len() implies (
    #[trigger] indices[k][i]).0.point() <= s[k + 1].0.point() by {
        assert(s[k + 1].0 == indices[k + 1][0].0);
        lemma_built_in_order(entries, size, k, i, k + 1, 0);
    }
}

/// Where revision ids grow over time, a query for a period that the indices cover finds exactly
/// the revisions that were listed for it, each as often.
pub proof fn law_query_finds_what_was_listed(
    entries: Seq<DateEntry>,
    size: u64,
    s: Seq<(Instant, Seq<char>)>,
    start: int,
    end: int,
)
    requires
        size > 0,
        ids_grow(entries),
        time_map::ascending(s),
        known_by_beginning(s, built(entries, size, N_REVISION_FILES as int)),
        start <= end,
        state::covers(s, start, end),
    ensures
        state::ids_of_indices(
            state::searched(s, built(entries, size, N_REVISION_FILES as int), start, end),
            start,
            end,
        ).to_multiset() == date_index::listed_between(entries, start, end).to_multiset(),
{
    law_growing_ids_are_split_by_date(entries, size, s);
    law_splitting_keeps_periods(entries, size, start, end);
    state::law_period_is_complete(
        s,
        built(entries, size, N_REVISION_FILES as int),
        start,
        end,
    );
}

/// Where revision ids grow over time, a query for a period that the indices cover finds a revision
/// exactly if its own date is not before the beginning and is before the end, and as often as
/// it was listed.
pub proof fn law_query_chooses_by_own_date(
    entries: Seq<DateEntry>,
    size: u64,
    s: Seq<(Instant, Seq<char>)>,
    start: int,
    end: int,
)
    requires
        size > 0,
        ids_grow(entries),
        time_map::ascending(s),
        known_by_beginning(s, built(entries, size, N_REVISION_FILES as int)),
        start <= end,
        exists|i: int| 0 <= i < s.len() && (#[trigger] s[i]).0.point() < start,
        exists|j: int| 0 <= j < s.len() && (#[trigger] s[j]).0.point() >= end,
    ensures
        state::ids_of_indices(
            state::searched(s, built(entries, size, N_REVISION_FILES as int), start, end),
            start,
            end,
        ).to_multiset() == entries.filter(
            |e: DateEntry| start <= e.instant.point() && e.instant.point() < end,
        ).map_values(|e: DateEntry| e.revision_id).to_multiset(),
{
    state::law_every_enclosed_period_is_covered(s, start, end);
    law_query_finds_what_was_listed(entries, size, s, start, end);
    date_index::law_listed_are_chosen_by_instant(entries, start, end);
}

/// Where revision ids grow over time, a query for a period that the indices cover gives what a
/// query for its earlier part gives and then what one for its later part gives, so revisions
/// come in order of time.
pub proof fn law_query_is_in_order_of_time(
    entries: Seq<DateEntry>,
    size: u64,
    s: Seq<(Instant, Seq<char>)>,
    start: int,
    middle: int,
    end: int,
)
    requires
        size > 0,
        ids_grow(entries),
        time_map::ascending(s),
        known_by_beginning(s, built(entries, size, N_REVISION_FILES as int)),
        start <= middle <= end,
        state::covers(s, start, end),
    ensures
        ({
            let indices = built(entries, size, N_REVISION_FILES as int);
            let earlier = state::searched(s, indices, start, middle);
            let later = state::searched(s, indices, middle, end);
            &&& state::covers(s, start, middle)
            &&& state::covers(s, middle, end)
            &&& state::ids_of_indices(state::searched(s, indices, start, end), start, end)
                == state::ids_of_indices(earlier, start, middle) + state::ids_of_indices(
                later,
                middle,
                end,
            )
        }),
{
    let indices = built(entries, size, N_REVISION_FILES as int);
    law_growing_ids_are_split_by_date(entries, size, s);
    state::law_queried_periods_join(s, indices, start, middle, end);
}

/// From the download to the query: where revision ids grow over time, every temporary date file
/// has dates, and no two of them begin with the same instant, the dates are split by the largest
/// id, an index is built of each part and added in its turn, and a query for a period that the
/// indices cover finds exactly the revisions that were downloaded for it, each as often.
pub proof fn law_downloaded_revisions_are_found(
    entries: Seq<DateEntry>,
    largest: RevisionID,
    paths: Seq<Seq<char>>,
    start: int,
    end: int,
)
    requires
        largest >= N_REVISION_FILES,
        ids_grow(entries),
        forall|k: int|
            0 <= k < N_REVISION_FILES ==> (#[trigger] built(
                entries,
                largest / N_REVISION_FILES,
                N_REVISION_FILES as int,
            )[k]).len() > 0,
        forall|j: int, k: int|
            0 <= j < k < N_REVISION_FILES ==> (#[trigger] built(
                entries,
                largest / N_REVISION_FILES,
                N_REVISION_FILES as int,
            )[j])[0].0.point() != (#[trigger] built(
                entries,
                largest / N_REVISION_FILES,
                N_REVISION_FILES as int,
            )[k])[0].0.point(),
        start <= end,
        state::covers(
            state::registered(
                built(entries, largest / N_REVISION_FILES, N_REVISION_FILES as int),
                paths,
            ),
            start,
            end,
        ),
    ensures
        ({
            let indices = built(entries, largest / N_REVISION_FILES, N_REVISION_FILES as int);
            let s = state::registered(indices, paths);
            state::ids_of_indices(state::searched(s, indices, start, end), start, end)
        }).to_multiset() == date_index::listed_between(entries, start, end).to_multiset(),
{
    let size = largest / N_REVISION_FILES;
    let indices = built(entries, size, N_REVISION_FILES as int);
    assert forall|j: int, k: int| 0 <= j < k < indices.len() implies (
    #[trigger] indices[j])[0].0.point() < (#[trigger] indices[k])[0].0.point() by {
        assert(indices[j].len() > 0 && indices[k].len() > 0);
        lemma_built_in_order(entries, size, j, 0, k, 0);
    }
    state::law_registered_in_order(indices, paths);
    let s = state::registered(indices, paths);
    law_query_finds_what_was_listed(entries, size, s, start, end);
}

} // verus!
