//! What the server knows: which date index begins when. From it, and from what the indices hold,
//! queries are answered.

use vstd::prelude::*;

use crate::date_index;
use crate::date_index::DateIndex;
use crate::instant::Instant;
use crate::layout;
use crate::layout::RevisionID;
use crate::positions;
use crate::positions::LookupError;
use crate::positions::Position;
use crate::positions::PositionEntry;
use crate::positions::RetrievalError;
use crate::text;
use crate::time_map;
use crate::time_map::TimeMap;

verus! {

/// The date indices, by the instant that each begins with.
pub struct State {
    starting_date_per_index: TimeMap<String>,
}

/// The entries of a map with the characters of their values.
spec fn entry_views(s: Seq<(Instant, String)>) -> Seq<(Instant, Seq<char>)> {
    s.map_values(|e: (Instant, String)| (e.0, e.1@))
}

impl View for State {
    type V = Seq<(Instant, Seq<char>)>;

    closed spec fn view(&self) -> Seq<(Instant, Seq<char>)> {
        entry_views(self.starting_date_per_index@)
    }
}

/// Whether the indices tell where a period begins and ends: one of them begins before the
/// period, one begins at its end or later, and the last that begins before the period does not
/// come behind the first that begins at its end or later.
pub open spec fn covers(s: Seq<(Instant, Seq<char>)>, start: int, end: int) -> bool {
    &&& time_map::rank(s, start) > 0
    &&& time_map::rank(s, end) < s.len()
    &&& time_map::rank(s, start) - 1 <= time_map::rank(s, end)
}

/// The indices that are searched for a period: from the last that begins before it to the last
/// that begins before its end.
pub open spec fn searched<T>(
    s: Seq<(Instant, Seq<char>)>,
    per_index: Seq<T>,
    start: int,
    end: int,
) -> Seq<T> {
    per_index.subrange(time_map::rank(s, start) - 1, time_map::rank(s, end))
}

impl State {
    /// The entries stand in order of time.
    pub open spec fn wf(&self) -> bool {
        time_map::ascending(self@)
    }

    /// No date indices.
    pub fn new() -> (r: State)
        ensures
            r.wf(),
            r@ == Seq::<(Instant, Seq<char>)>::empty(),
    {
        let r = State { starting_date_per_index: TimeMap::new() };
        assert(r@ =~= Seq::<(Instant, Seq<char>)>::empty());
        r
    }

    /// The number of date indices.
    pub fn len(&self) -> (r: usize)
        ensures
            r == self@.len(),
    {
        self.starting_date_per_index.len()
    }

    /// When the date index number `i` begins.
    pub fn start_at(&self, i: usize) -> (r: Instant)
        requires
            i < self@.len(),
        ensures
            r == self@[i as int].0,
    {
        self.starting_date_per_index.instant_at(i)
    }

    /// The path of the date index number `i`.
    pub fn path_at(&self, i: usize) -> (r: &String)
        requires
            i < self@.len(),
        ensures
            r@ == self@[i as int].1,
    {
        self.starting_date_per_index.value_at(i)
    }

    /// The map has the instants of the state.
    proof fn lemma_map(&self, p: int)
        requires
            self.wf(),
        ensures
            self.starting_date_per_index.wf(),
            time_map::rank(self.starting_date_per_index@, p) == time_map::rank(self@, p),
    {
        time_map::lemma_same_instants(self@, self.starting_date_per_index@, p);
    }

    /// Sets the path of the date index that begins with `start`.
    pub fn insert(&mut self, start: Instant, path: String)
        requires
            old(self).wf(),
        ensures
            final(self).wf(),
            final(self)@ == time_map::with_entry(old(self)@, start, path@),
    {
        proof {
            self.lemma_map(start.point());
            time_map::lemma_rank(self@, start.point());
            time_map::lemma_with_entry_ascending(self@, start, path@);
        }
        self.starting_date_per_index.insert(start, path);
        assert(self@ =~= time_map::with_entry(old(self)@, start, path@));
    }

    /// Adds a date index that is kept at `path`: it begins with the first instant in it. Returns
    /// whether there was one.
    pub fn add_index(&mut self, index: &DateIndex, path: String) -> (r: bool)
        requires
            old(self).wf(),
        ensures
            final(self).wf(),
            r == (index@.len() > 0),
            final(self)@ == (if index@.len() > 0 {
                time_map::with_entry(old(self)@, index@[0].0, path@)
            } else {
                old(self)@
            }),
    {
        match index.first() {
            Some(start) => {
                self.insert(start, path);
                true
            },
            None => false,
        }
    }

    /// The paths of the date indices to search for the revisions from `start` on and before
    /// `end`, in order of time. `None` where the indices do not cover the period.
    pub fn indices_for_period(&self, start: &Instant, end: &Instant) -> (r: Option<Vec<String>>)
        requires
            self.wf(),
        ensures
            r is Some <==> covers(self@, start.point(), end.point()),
            r matches Some(paths) ==> text::views(paths@) == searched(
                self@,
                self@,
                start.point(),
                end.point(),
            ).map_values(|e: (Instant, Seq<char>)| e.1),
            start.point() <= end.point() ==> (r is Some <==> {
                &&& exists|i: int|
                    0 <= i < self@.len() && (#[trigger] self@[i]).0.point() < start.point()
                &&& exists|j: int|
                    0 <= j < self@.len() && (#[trigger] self@[j]).0.point() >= end.point()
            }),
            r matches Some(paths) ==> exists|low: int, high: int|
                {
                    &&& 0 <= low <= high <= self@.len()
                    &&& paths@.map_values(|path: String| path@) == (#[trigger] self@.subrange(
                        low,
                        high,
                    )).map_values(|e: (Instant, Seq<char>)| e.1)
                    &&& forall|k: int|
                        0 <= k < self@.len() ==> (low <= k < high <==> (
                        #[trigger] self@[k]).0.point() < end.point() && (k + 1 < self@.len()
                            ==> self@[k + 1].0.point() >= start.point()))
                },
    {
        proof {
            if start.point() <= end.point() {
                law_every_enclosed_period_is_covered(self@, start.point(), end.point());
            }
            self.lemma_map(start.point());
            self.lemma_map(end.point());
            time_map::lemma_rank(self@, start.point());
            time_map::lemma_rank(self@, end.point());
        }
        let prior_start = self.starting_date_per_index.last_before(start);
        let final_end = self.starting_date_per_index.first_from(end);
        let (first, last): (Instant, Instant) = match (prior_start, final_end) {
            (Some(first), Some(last)) => (first, last),
            _ => {
                return None;
            },
        };
        if last.is_before(&first) {
            proof {
                let (a, b) = (
                    time_map::rank(self@, start.point()) - 1,
                    time_map::rank(self@, end.point()),
                );
                assert(self@[a].0 == first && self@[b].0 == last);
            }
            return None;
        }
        let low = self.starting_date_per_index.count_before(&first);
        let high = self.starting_date_per_index.count_before(&last);
        proof {
            let (a, b) = (
                time_map::rank(self@, start.point()) - 1,
                time_map::rank(self@, end.point()),
            );
            assert(self@[a].0 == first && self@[b].0 == last);
            self.lemma_map(first.point());
            self.lemma_map(last.point());
            time_map::lemma_rank_unique(self@, first.point(), a);
            time_map::lemma_rank_unique(self@, last.point(), b);
        }
        let ghost chosen = searched(self@, self@, start.point(), end.point()).map_values(
            |e: (Instant, Seq<char>)| e.1,
        );
        let mut paths: Vec<String> = Vec::new();
        for i in low..high
            invariant
                low <= high <= self@.len(),
                chosen == self@.subrange(low as int, high as int).map_values(
                    |e: (Instant, Seq<char>)| e.1,
                ),
                text::views(paths@) == chosen.take(i - low),
        {
            let ghost before = paths@;
            paths.push(self.starting_date_per_index.value_at(i).clone());
            assert(chosen.take(i + 1 - low) =~= chosen.take(i - low).push(self@[i as int].1));
            assert(text::views(paths@) =~= text::views(before).push(self@[i as int].1));
        }
        assert(chosen.take(high - low) =~= chosen);
        proof {
            law_which_indices_are_searched(self@, self@, start.point(), end.point());
        }
        Some(paths)
    }

    /// Where the revision `id` is, by the rows of its position index. A row that could not be read
    /// is `None`.
    pub fn id_to_position(&self, id: RevisionID, rows: &Vec<Option<PositionEntry>>) -> (r: Result<
        Position,
        LookupError,
    >)
        ensures
            match (r, positions::located(rows@, id)) {
                (Ok(position), Ok(row)) => {
                    &&& position.0@ == layout::data_path(layout::file_of(id))
                    &&& position.1 == row.record_start
                    &&& position.2 == row.record_length
                },
                (Err(error), Err(expected)) => error == expected,
                _ => false,
            },
            match r {
                Ok(position) => exists|i: int|
                    {
                        &&& 0 <= i < rows@.len()
                        &&& (#[trigger] rows@[i]) matches Some(row) && row.revision_id == id
                            && row.record_start == position.1 && row.record_length == position.2
                        &&& forall|j: int|
                            0 <= j < i ==> (#[trigger] rows@[j]) is Some && (
                            rows@[j]->0).revision_id != id
                    },
                Err(LookupError::UnreadableRow(n)) => {
                    &&& n < rows@.len()
                    &&& rows@[n as int] is None
                    &&& forall|j: int|
                        0 <= j < n ==> (#[trigger] rows@[j]) is Some && (rows@[j]->0).revision_id
                            != id
                },
                Err(LookupError::NotFound(_)) => forall|j: int|
                    0 <= j < rows@.len() ==> (#[trigger] rows@[j]) is Some && (
                    rows@[j]->0).revision_id != id,
            },
            r matches Ok(position) ==> position.0@ == "/big_dir"@ + "/"@ + text::decimal(
                id as nat % 200,
            ),
    {
        proof {
            positions::law_first_row_decides(rows@, id);
        }
        for i in 0..rows.len()
            invariant
                positions::located(rows@.take(i as int), id) == Err::<PositionEntry, LookupError>(
                    LookupError::NotFound(RetrievalError {  }),
                ),
        {
            assert(rows@.take(i + 1).drop_last() =~= rows@.take(i as int));
            match rows[i] {
                None => {
                    proof {
                        positions::lemma_located_decided(rows@, id, i + 1);
                        positions::law_first_row_decides(rows@, id);
                    }
                    return Err(LookupError::UnreadableRow(i));
                },
                Some(row) => {
                    if row.revision_id == id {
                        proof {
                            positions::lemma_located_decided(rows@, id, i + 1);
                            positions::law_first_row_decides(rows@, id);
                        }
                        let path = layout::path_from_revision_id(id);
                        return Ok((path, row.record_start, row.record_length));
                    }
                },
            }
        }
        assert(rows@.take(rows@.len() as int) =~= rows@);
        Err(LookupError::NotFound(RetrievalError {  }))
    }
}

/// The date indices by the instant that each begins with, after all that are not empty have been
/// added one after another.
pub open spec fn registered(
    indices: Seq<Seq<(Instant, Seq<RevisionID>)>>,
    paths: Seq<Seq<char>>,
) -> Seq<(Instant, Seq<char>)>
    decreases indices.len(),
{
    if indices.len() == 0 {
        Seq::empty()
    } else {
        let before = registered(indices.drop_last(), paths);
        if indices.last().len() > 0 {
            time_map::with_entry(before, indices.last()[0].0, paths[indices.len() - 1])
        } else {
            before
        }
    }
}

/// Indices that are added in order of time stand in that order, each with its path.
pub proof fn law_registered_in_order(
    indices: Seq<Seq<(Instant, Seq<RevisionID>)>>,
    paths: Seq<Seq<char>>,
)
    requires
        forall|k: int| 0 <= k < indices.len() ==> (#[trigger] indices[k]).len() > 0,
        forall|j: int, k: int|
            0 <= j < k < indices.len() ==> (#[trigger] indices[j])[0].0.point() < (
            #[trigger] indices[k])[0].0.point(),
    ensures
        registered(indices, paths) == Seq::new(
            indices.len(),
            |k: int| (indices[k][0].0, paths[k]),
        ),
        time_map::ascending(registered(indices, paths)),
    decreases indices.len(),
{
    let expected = Seq::new(indices.len(), |k: int| (indices[k][0].0, paths[k]));
    if indices.len() > 0 {
        let rest = indices.drop_last();
        let n = indices.len() - 1;
        assert(indices[n] == indices.last());
        assert forall|k: int| 0 <= k < rest.len() implies (#[trigger] rest[k]).len() > 0 by {
            assert(rest[k] == indices[k]);
        }
        assert forall|j: int, k: int| 0 <= j < k < rest.len() implies (
        #[trigger] rest[j])[0].0.point() < (#[trigger] rest[k])[0].0.point() by {
            assert(rest[j] == indices[j] && rest[k] == indices[k]);
        }
        law_registered_in_order(rest, paths);
        let before = registered(rest, paths);
        let at = indices.last()[0].0;
        if n > 0 {
            assert(rest[n - 1] == indices[n - 1]);
            assert(before[n - 1].0.point() < at.point());
        }
        time_map::lemma_rank_unique(before, at.point(), n);
        time_map::lemma_with_entry_ascending(before, at, paths[n]);
        assert forall|k: int| 0 <= k < n implies before[k] == #[trigger] expected[k] by {
            assert(rest[k] == indices[k]);
        }
    }
    assert(registered(indices, paths) =~= expected);
}

/// The revisions that several indices give for a period, one index after another.
pub open spec fn ids_of_indices(
    indices: Seq<Seq<(Instant, Seq<RevisionID>)>>,
    start: int,
    end: int,
) -> Seq<RevisionID>
    decreases indices.len(),
{
    if indices.len() == 0 {
        Seq::empty()
    } else {
        ids_of_indices(indices.drop_last(), start, end) + date_index::ids_between(
            indices.last(),
            start,
            end,
        )
    }
}

/// Whether the indices follow one another in time: each holds no instant before the one that it
/// begins with, and none after the one that the next begins with.
pub open spec fn consecutive(
    s: Seq<(Instant, Seq<char>)>,
    indices: Seq<Seq<(Instant, Seq<RevisionID>)>>,
) -> bool {
    &&& indices.len() == s.len()
    &&& forall|k: int| 0 <= k < indices.len() ==> time_map::ascending(#[trigger] indices[k])
    &&& forall|k: int, i: int|
        0 <= k < indices.len() && 0 <= i < indices[k].len() ==> s[k].0.point() <= (
        #[trigger] indices[k][i]).0.point()
    &&& forall|k: int, i: int|
        0 <= k < indices.len() - 1 && 0 <= i < indices[k].len() ==> (
        #[trigger] indices[k][i]).0.point() <= s[k + 1].0.point()
}

/// Indices without revisions in the period, in front of others or behind them, make no
/// difference.
proof fn lemma_ids_of_part(
    indices: Seq<Seq<(Instant, Seq<RevisionID>)>>,
    low: int,
    high: int,
    start: int,
    end: int,
)
    requires
        0 <= low <= high <= indices.len(),
        forall|k: int|
            0 <= k < indices.len() && !(low <= k < high) ==> date_index::ids_between(
                #[trigger] indices[k],
                start,
                end,
            ).len() == 0,
    ensures
        ids_of_indices(indices.subrange(low, high), start, end) == ids_of_indices(
            indices,
            start,
            end,
        ),
    decreases indices.len(),
{
    let part = indices.subrange(low, high);
    if indices.len() > 0 {
        let rest = indices.drop_last();
        let n = indices.len() - 1;
        assert(indices[n] == indices.last());
        assert forall|k: int|
            0 <= k < rest.len() && !(low <= k < high) implies date_index::ids_between(
            #[trigger] rest[k],
            start,
            end,
        ).len() == 0 by {
            assert(rest[k] == indices[k]);
        }
        if high == indices.len() && low < high {
            assert forall|k: int|
                0 <= k < rest.len() && !(low <= k < high - 1) implies date_index::ids_between(
                #[trigger] rest[k],
                start,
                end,
            ).len() == 0 by {
                assert(rest[k] == indices[k]);
            }
            lemma_ids_of_part(rest, low, high - 1, start, end);
            assert(part.drop_last() =~= rest.subrange(low, high - 1));
            assert(part.last() == indices.last());
        } else {
            let (l, h) = if low == indices.len() {
                (n, n)
            } else {
                (low, high)
            };
            lemma_ids_of_part(rest, l, h, start, end);
            assert(part =~= rest.subrange(l, h));
            assert(ids_of_indices(indices, start, end) =~= ids_of_indices(rest, start, end));
        }
    } else {
        assert(part =~= indices);
    }
}

/// An index whose instants are all before a period, or all not before its end, has no revisions
/// in it.
proof fn lemma_none_between(
    index: Seq<(Instant, Seq<RevisionID>)>,
    start: int,
    end: int,
)
    requires
        time_map::ascending(index),
        start <= end,
        (forall|i: int| 0 <= i < index.len() ==> (#[trigger] index[i]).0.point() < start) || (
        forall|i: int| 0 <= i < index.len() ==> (#[trigger] index[i]).0.point() >= end),
    ensures
        date_index::ids_between(index, start, end).len() == 0,
{
    time_map::lemma_rank(index, start);
    time_map::lemma_rank_monotone(index, start, end);
    let low = time_map::rank(index, start);
    let high = time_map::rank(index, end);
    time_map::lemma_rank(index, end);
    if low < high {
        assert(index[low].0.point() >= start && index[low].0.point() < end);
    }
    assert(time_map::entries_between(index, start, end) =~= Seq::empty());
}

/// Where the date indices follow one another in time, searching those for a period finds every
/// revision of the period that any of them holds.
pub proof fn law_period_is_complete(
    s: Seq<(Instant, Seq<char>)>,
    indices: Seq<Seq<(Instant, Seq<RevisionID>)>>,
    start: int,
    end: int,
)
    requires
        time_map::ascending(s),
        consecutive(s, indices),
        start <= end,
        covers(s, start, end),
    ensures
        ids_of_indices(searched(s, indices, start, end), start, end) == ids_of_indices(
            indices,
            start,
            end,
        ),
{
    let low = time_map::rank(s, start) - 1;
    let high = time_map::rank(s, end);
    time_map::lemma_rank(s, start);
    time_map::lemma_rank(s, end);
    assert forall|k: int|
        0 <= k < indices.len() && !(low <= k < high) implies date_index::ids_between(
        #[trigger] indices[k],
        start,
        end,
    ).len() == 0 by {
        if k < low {
            assert(s[k + 1].0.point() < start);
            assert forall|i: int| 0 <= i < indices[k].len() implies (
            #[trigger] indices[k][i]).0.point() < start by {}
        } else {
            assert(s[k].0.point() >= end);
            assert forall|i: int| 0 <= i < indices[k].len() implies (
            #[trigger] indices[k][i]).0.point() >= end by {}
        }
        lemma_none_between(indices[k], start, end);
    }
    lemma_ids_of_part(indices, low, high, start, end);
}

/// What indices that follow one another in time give for a period is what they give for its
/// earlier part and then what they give for its later part.
proof fn lemma_ids_of_indices_join(
    s: Seq<(Instant, Seq<char>)>,
    indices: Seq<Seq<(Instant, Seq<RevisionID>)>>,
    start: int,
    middle: int,
    end: int,
)
    requires
        time_map::ascending(s),
        consecutive(s, indices),
        start <= middle <= end,
    ensures
        ids_of_indices(indices, start, end) == ids_of_indices(indices, start, middle)
            + ids_of_indices(indices, middle, end),
    decreases indices.len(),
{
    if indices.len() > 0 {
        let (rest, last) = (indices.drop_last(), indices.last());
        let n = indices.len() - 1;
        assert(last == indices[n]);
        assert forall|k: int| 0 <= k < rest.len() implies time_map::ascending(
            #[trigger] rest[k],
        ) by {
            assert(rest[k] == indices[k]);
        }
        assert forall|k: int, i: int| 0 <= k < rest.len() && 0 <= i < rest[k].len() implies {
            &&& s[k].0.point() <= (#[trigger] rest[k][i]).0.point()
            &&& rest[k][i].0.point() <= s[k + 1].0.point()
        } by {
            assert(rest[k][i] == indices[k][i]);
        }
        lemma_ids_of_indices_join(s.drop_last(), rest, start, middle, end);
        date_index::law_periods_join(last, start, middle, end);
        if exists|i: int| 0 <= i < last.len() && (#[trigger] last[i]).0.point() < middle {
            let i = choose|i: int| 0 <= i < last.len() && (#[trigger] last[i]).0.point() < middle;
            assert(s[n].0.point() <= indices[n][i].0.point());
            assert forall|k: int|
                0 <= k < rest.len() && !(0 <= k < 0) implies date_index::ids_between(
                #[trigger] rest[k],
                middle,
                end,
            ).len() == 0 by {
                assert(s[k + 1].0.point() <= s[n].0.point());
                assert forall|j: int| 0 <= j < rest[k].len() implies (
                #[trigger] rest[k][j]).0.point() < middle by {}
                lemma_none_between(rest[k], middle, end);
            }
            lemma_ids_of_part(rest, 0, 0, middle, end);
            assert(ids_of_indices(rest, middle, end).len() == 0);
        } else {
            lemma_none_between(last, start, middle);
        }
    }
    assert(ids_of_indices(indices, start, end) =~= ids_of_indices(indices, start, middle)
        + ids_of_indices(indices, middle, end));
}

/// Where the date indices follow one another in time, a query for a period gives what a query for
/// its earlier part gives and then what one for its later part gives: the revisions of all
/// indices together come in order of time, and none belongs to two periods that do not overlap.
pub proof fn law_queried_periods_join(
    s: Seq<(Instant, Seq<char>)>,
    indices: Seq<Seq<(Instant, Seq<RevisionID>)>>,
    start: int,
    middle: int,
    end: int,
)
    requires
        time_map::ascending(s),
        consecutive(s, indices),
        start <= middle <= end,
        covers(s, start, end),
    ensures
        covers(s, start, middle),
        covers(s, middle, end),
        ids_of_indices(searched(s, indices, start, end), start, end) == ids_of_indices(
            searched(s, indices, start, middle),
            start,
            middle,
        ) + ids_of_indices(searched(s, indices, middle, end), middle, end),
{
    time_map::lemma_rank_monotone(s, start, middle);
    time_map::lemma_rank_monotone(s, middle, end);
    law_period_is_complete(s, indices, start, end);
    law_period_is_complete(s, indices, start, middle);
    law_period_is_complete(s, indices, middle, end);
    lemma_ids_of_indices_join(s, indices, start, middle, end);
}

/// A period is covered, however long it is, exactly if an index begins before it and an index
/// begins at its end or later.
pub proof fn law_every_enclosed_period_is_covered(
    s: Seq<(Instant, Seq<char>)>,
    start: int,
    end: int,
)
    requires
        time_map::ascending(s),
        start <= end,
    ensures
        covers(s, start, end) <==> {
            &&& exists|i: int| 0 <= i < s.len() && (#[trigger] s[i]).0.point() < start
            &&& exists|j: int| 0 <= j < s.len() && (#[trigger] s[j]).0.point() >= end
        },
{
    time_map::lemma_rank(s, start);
    time_map::lemma_rank(s, end);
    time_map::lemma_rank_monotone(s, start, end);
    if covers(s, start, end) {
        assert(s[time_map::rank(s, start) - 1].0.point() < start);
        assert(s[time_map::rank(s, end)].0.point() >= end);
    }
}

/// Also where the end comes before the beginning, a period is covered exactly if the last index
/// that begins before the one does not come behind the first that begins at the other or later.
pub proof fn law_what_is_covered(s: Seq<(Instant, Seq<char>)>, start: int, end: int)
    requires
        time_map::ascending(s),
    ensures
        covers(s, start, end) <==> exists|i: int, j: int|
            {
                &&& 0 <= i <= j < s.len()
                &&& (#[trigger] s[i]).0.point() < start
                &&& i + 1 < s.len() ==> s[i + 1].0.point() >= start
                &&& (#[trigger] s[j]).0.point() >= end
                &&& j > 0 ==> s[j - 1].0.point() < end
            },
{
    time_map::lemma_rank(s, start);
    time_map::lemma_rank(s, end);
    let (low, high) = (time_map::rank(s, start) - 1, time_map::rank(s, end));
    if covers(s, start, end) {
        assert(s[low].0.point() < start && s[high].0.point() >= end);
    }
    if exists|i: int, j: int|
        {
            &&& 0 <= i <= j < s.len()
            &&& (#[trigger] s[i]).0.point() < start
            &&& i + 1 < s.len() ==> s[i + 1].0.point() >= start
            &&& (#[trigger] s[j]).0.point() >= end
            &&& j > 0 ==> s[j - 1].0.point() < end
        } {
        let (i, j) = choose|i: int, j: int|
            {
                &&& 0 <= i <= j < s.len()
                &&& (#[trigger] s[i]).0.point() < start
                &&& i + 1 < s.len() ==> s[i + 1].0.point() >= start
                &&& (#[trigger] s[j]).0.point() >= end
                &&& j > 0 ==> s[j - 1].0.point() < end
            };
        time_map::lemma_rank_unique(s, start, i + 1);
        time_map::lemma_rank_unique(s, end, j);
    }
}

/// An index is searched for a period exactly if it begins before the end and the next index does
/// not begin before the beginning. The indices that are searched stand in their order.
pub proof fn law_which_indices_are_searched<T>(
    s: Seq<(Instant, Seq<char>)>,
    per_index: Seq<T>,
    start: int,
    end: int,
)
    requires
        time_map::ascending(s),
        covers(s, start, end),
        per_index.len() == s.len(),
    ensures
        exists|low: int, high: int|
            {
                &&& 0 <= low <= high <= s.len()
                &&& searched(s, per_index, start, end) == #[trigger] per_index.subrange(low, high)
                &&& forall|k: int|
                    0 <= k < s.len() ==> (low <= k < high <==> (#[trigger] s[k]).0.point() < end
                        && (k + 1 < s.len() ==> s[k + 1].0.point() >= start))
            },
{
    time_map::lemma_rank(s, start);
    time_map::lemma_rank(s, end);
    let (low, high) = (time_map::rank(s, start) - 1, time_map::rank(s, end));
    assert(searched(s, per_index, start, end) == per_index.subrange(low, high));
    assert forall|k: int| 0 <= k < s.len() implies (low <= k < high <==> (
    #[trigger] s[k]).0.point() < end && (k + 1 < s.len() ==> s[k + 1].0.point() >= start)) by {
        if k + 1 < s.len() {
            assert(s[k + 1].0.point() >= start <==> k + 1 >= time_map::rank(s, start));
        }
    }
}

/// What several indices give for a period is what each gives for it, one index after another.
pub proof fn law_indices_are_read_one_after_another(
    indices: Seq<Seq<(Instant, Seq<RevisionID>)>>,
    start: int,
    end: int,
)
    ensures
        ids_of_indices(indices, start, end) == indices.map_values(
            |index: Seq<(Instant, Seq<RevisionID>)>| date_index::ids_between(index, start, end),
        ).flatten(),
    decreases indices.len(),
{
    let lists = indices.map_values(
        |index: Seq<(Instant, Seq<RevisionID>)>| date_index::ids_between(index, start, end),
    );
    lists.lemma_flatten_and_flatten_alt_are_equivalent();
    if indices.len() > 0 {
        let rest = indices.drop_last().map_values(
            |index: Seq<(Instant, Seq<RevisionID>)>| date_index::ids_between(index, start, end),
        );
        law_indices_are_read_one_after_another(indices.drop_last(), start, end);
        rest.lemma_flatten_and_flatten_alt_are_equivalent();
        assert(lists.drop_last() =~= rest);
    }
}

} // verus!
