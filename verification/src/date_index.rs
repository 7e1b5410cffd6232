//! Date indices: which revisions were made at which time.

use vstd::prelude::*;

use crate::instant::Instant;
use crate::layout::RevisionID;
use crate::time_map;
use crate::time_map::TimeMap;

verus! {

/// A revision and when it was made.
#[derive(Clone, Copy, Debug, PartialEq, Eq)]
pub struct DateEntry {
    pub revision_id: RevisionID,
    pub instant: Instant,
}

/// The revisions at the point `p`.
pub open spec fn ids_at(s: Seq<(Instant, Seq<RevisionID>)>, p: int) -> Seq<RevisionID> {
    if time_map::has_point(s, p) {
        s[time_map::rank(s, p)].1
    } else {
        Seq::empty()
    }
}

/// An index with one more revision, behind those of the same instant.
pub open spec fn with_date(s: Seq<(Instant, Seq<RevisionID>)>, entry: DateEntry) -> Seq<
    (Instant, Seq<RevisionID>),
> {
    let ids = ids_at(s, entry.instant.point()).push(entry.revision_id);
    time_map::with_entry(s, entry.instant, ids)
}

/// The index of a list of revisions.
pub open spec fn index_of(entries: Seq<DateEntry>) -> Seq<(Instant, Seq<RevisionID>)>
    decreases entries.len(),
{
    if entries.len() == 0 {
        Seq::empty()
    } else {
        with_date(index_of(entries.drop_last()), entries.last())
    }
}

/// The revisions of all entries, one entry after another.
pub open spec fn all_ids(s: Seq<(Instant, Seq<RevisionID>)>) -> Seq<RevisionID>
    decreases s.len(),
{
    if s.len() == 0 {
        Seq::empty()
    } else {
        all_ids(s.drop_last()) + s.last().1
    }
}

/// The revisions from the point `from` up to and without the point `to`, in order of time.
pub open spec fn ids_between(s: Seq<(Instant, Seq<RevisionID>)>, from: int, to: int) -> Seq<
    RevisionID,
> {
    all_ids(time_map::entries_between(s, from, to))
}

/// Those of the listed revisions that were made from the point `from` up to and without the
/// point `to`, in the order of the list.
pub open spec fn listed_between(entries: Seq<DateEntry>, from: int, to: int) -> Seq<RevisionID>
    decreases entries.len(),
{
    if entries.len() == 0 {
        Seq::empty()
    } else {
        let rest = listed_between(entries.drop_last(), from, to);
        if from <= entries.last().instant.point() < to {
            rest.push(entries.last().revision_id)
        } else {
            rest
        }
    }
}

/// An index of revisions by date.
pub struct DateIndex {
    map: TimeMap<Vec<RevisionID>>,
}

/// The entries of a map with the sequences of their values.
spec fn entry_views(s: Seq<(Instant, Vec<RevisionID>)>) -> Seq<(Instant, Seq<RevisionID>)> {
    s.map_values(|e: (Instant, Vec<RevisionID>)| (e.0, e.1@))
}

impl View for DateIndex {
    type V = Seq<(Instant, Seq<RevisionID>)>;

    closed spec fn view(&self) -> Seq<(Instant, Seq<RevisionID>)> {
        entry_views(self.map@)
    }
}

impl DateIndex {
    /// The entries stand in order of time.
    pub open spec fn wf(&self) -> bool {
        time_map::ascending(self@)
    }

    /// An index without revisions.
    pub fn new() -> (r: DateIndex)
        ensures
            r.wf(),
            r@ == Seq::<(Instant, Seq<RevisionID>)>::empty(),
    {
        let r = DateIndex { map: TimeMap::new() };
        assert(r@ =~= Seq::<(Instant, Seq<RevisionID>)>::empty());
        r
    }

    /// The number of instants in the index.
    pub fn len(&self) -> (r: usize)
        ensures
            r == self@.len(),
    {
        self.map.len()
    }

    /// The instant number `i`.
    pub fn instant_at(&self, i: usize) -> (r: Instant)
        requires
            i < self@.len(),
        ensures
            r == self@[i as int].0,
    {
        self.map.instant_at(i)
    }

    /// The revisions of the instant number `i`.
    pub fn ids_at(&self, i: usize) -> (r: &Vec<RevisionID>)
        requires
            i < self@.len(),
        ensures
            r@ == self@[i as int].1,
    {
        self.map.value_at(i)
    }

    /// Sets the revisions at `at`.
    pub fn insert(&mut self, at: Instant, ids: Vec<RevisionID>)
        requires
            old(self).wf(),
        ensures
            final(self).wf(),
            final(self)@ == time_map::with_entry(old(self)@, at, ids@),
    {
        proof {
            self.lemma_map(at.point());
            time_map::lemma_rank(self@, at.point());
        }
        self.map.insert(at, ids);
        assert(self@ =~= time_map::with_entry(old(self)@, at, ids@));
        proof {
            time_map::lemma_with_entry_ascending(old(self)@, at, ids@);
        }
    }

    /// The map has the instants of the index.
    proof fn lemma_map(&self, p: int)
        requires
            self.wf(),
        ensures
            self.map.wf(),
            time_map::rank(self.map@, p) == time_map::rank(self@, p),
    {
        time_map::lemma_same_instants(self@, self.map@, p);
    }

    /// Adds a revision, behind those of the same instant.
    pub fn add(&mut self, entry: &DateEntry)
        requires
            old(self).wf(),
        ensures
            final(self).wf(),
            final(self)@ == with_date(old(self)@, *entry),
    {
        let ghost p = entry.instant.point();
        proof {
            self.lemma_map(p);
            time_map::lemma_rank(self@, p);
            time_map::lemma_with_entry_ascending(
                self@,
                entry.instant,
                ids_at(self@, p).push(entry.revision_id),
            );
        }
        let i = self.map.count_before(&entry.instant);
        if i < self.map.len() && self.map.instant_at(i) == entry.instant {
            self.map.value_mut(i).push(entry.revision_id);
        } else {
            let mut ids: Vec<RevisionID> = Vec::new();
            ids.push(entry.revision_id);
            assert(ids@ =~= ids_at(old(self)@, p).push(entry.revision_id));
            self.map.insert(entry.instant, ids);
        }
        assert(self@ =~= with_date(old(self)@, *entry));
    }

    /// The index of a list of revisions.
    pub fn from_entries(entries: &Vec<DateEntry>) -> (r: DateIndex)
        ensures
            r.wf(),
            r@ == index_of(entries@),
    {
        let mut index = DateIndex::new();
        for i in 0..entries.len()
            invariant
                index.wf(),
                index@ == index_of(entries@.take(i as int)),
        {
            assert(entries@.take(i + 1).drop_last() =~= entries@.take(i as int));
            index.add(&entries[i]);
        }
        assert(entries@.take(entries@.len() as int) =~= entries@);
        index
    }

    /// The first instant of all, if there is one.
    pub fn first(&self) -> (r: Option<Instant>)
        ensures
            r == (if self@.len() > 0 {
                Some(self@[0].0)
            } else {
                None
            }),
    {
        self.map.first()
    }

    /// The revisions made from `start` on and before `end`, in order of time.
    pub fn ids_in_period(&self, start: &Instant, end: &Instant) -> (r: Vec<RevisionID>)
        requires
            self.wf(),
            start.point() <= end.point(),
        ensures
            r@ == ids_between(self@, start.point(), end.point()),
            r@ == self@.filter(
                |e: (Instant, Seq<RevisionID>)|
                    start.point() <= e.0.point() && e.0.point() < end.point(),
            ).map_values(|e: (Instant, Seq<RevisionID>)| e.1).flatten(),
    {
        proof {
            law_period_is_read_by_instants(self@, start.point(), end.point());
            self.lemma_map(start.point());
            self.lemma_map(end.point());
            time_map::lemma_rank_monotone(self@, start.point(), end.point());
        }
        let low = self.map.count_before(start);
        let high = self.map.count_before(end);
        let ghost chosen = time_map::entries_between(self@, start.point(), end.point());
        let mut ids: Vec<RevisionID> = Vec::new();
        for i in low..high
            invariant
                low <= high <= self@.len(),
                chosen == self@.subrange(low as int, high as int),
                ids@ == all_ids(chosen.take(i - low)),
        {
            assert(chosen.take(i + 1 - low).drop_last() =~= chosen.take(i - low));
            assert(chosen.take(i + 1 - low).last() == self@[i as int]);
            let mut more = self.map.value_at(i).clone();
            ids.append(&mut more);
        }
        assert(chosen.take(high - low) =~= chosen);
        ids
    }
}

/// The index of a list stands in order of time.
pub proof fn lemma_index_of_ascending(entries: Seq<DateEntry>)
    ensures
        time_map::ascending(index_of(entries)),
    decreases entries.len(),
{
    if entries.len() > 0 {
        let rest = index_of(entries.drop_last());
        let e = entries.last();
        lemma_index_of_ascending(entries.drop_last());
        time_map::lemma_with_entry_ascending(
            rest,
            e.instant,
            ids_at(rest, e.instant.point()).push(e.revision_id),
        );
    }
}

/// The revisions that the index of a list gives for an instant are those that the list gives for
/// it, in the order of the list. An instant is in the index exactly if the list gives it.
pub proof fn law_index_keeps_instants(entries: Seq<DateEntry>, p: int)
    ensures
        ids_at(index_of(entries), p) == listed_between(entries, p, p + 1),
        time_map::has_point(index_of(entries), p) <==> listed_between(entries, p, p + 1).len() > 0,
    decreases entries.len(),
{
    if entries.len() > 0 {
        let rest = index_of(entries.drop_last());
        let e = entries.last();
        let ids = ids_at(rest, e.instant.point()).push(e.revision_id);
        lemma_index_of_ascending(entries.drop_last());
        law_index_keeps_instants(entries.drop_last(), p);
        time_map::law_set_value_is_found(rest, e.instant, ids, p);
    }
}

/// The revisions of joined entries are the joined revisions.
proof fn lemma_all_ids_joined(
    a: Seq<(Instant, Seq<RevisionID>)>,
    b: Seq<(Instant, Seq<RevisionID>)>,
)
    ensures
        all_ids(a + b) == all_ids(a) + all_ids(b),
    decreases b.len(),
{
    if b.len() == 0 {
        assert(a + b =~= a);
        assert(all_ids(a) + all_ids(b) =~= all_ids(a));
    } else {
        assert((a + b).drop_last() =~= a + b.drop_last());
        lemma_all_ids_joined(a, b.drop_last());
        assert(all_ids(a + b) =~= all_ids(a) + all_ids(b));
    }
}

/// A period gives what its earlier part gives and then what its later part gives: revisions come
/// in order of time, and none belongs to two periods that do not overlap.
pub proof fn law_periods_join(
    s: Seq<(Instant, Seq<RevisionID>)>,
    from: int,
    middle: int,
    to: int,
)
    requires
        time_map::ascending(s),
        from <= middle <= to,
    ensures
        ids_between(s, from, to) == ids_between(s, from, middle) + ids_between(s, middle, to),
{
    time_map::lemma_rank_monotone(s, from, middle);
    time_map::lemma_rank_monotone(s, middle, to);
    let (a, b) = (
        time_map::entries_between(s, from, middle),
        time_map::entries_between(s, middle, to),
    );
    assert(time_map::entries_between(s, from, to) =~= a + b);
    lemma_all_ids_joined(a, b);
}

/// The revisions around one entry.
proof fn lemma_all_ids_around(
    a: Seq<(Instant, Seq<RevisionID>)>,
    entry: (Instant, Seq<RevisionID>),
    b: Seq<(Instant, Seq<RevisionID>)>,
)
    ensures
        all_ids(a + seq![entry] + b).to_multiset() == all_ids(a).to_multiset().add(
            entry.1.to_multiset(),
        ).add(all_ids(b).to_multiset()),
{
    lemma_all_ids_joined(a + seq![entry], b);
    assert((a + seq![entry]).drop_last() =~= a);
    vstd::seq_lib::lemma_multiset_commutative(all_ids(a), entry.1);
    vstd::seq_lib::lemma_multiset_commutative(all_ids(a) + entry.1, all_ids(b));
}

/// One more revision in an index is one more in every period that its instant belongs to.
proof fn lemma_with_date_between(
    s: Seq<(Instant, Seq<RevisionID>)>,
    entry: DateEntry,
    from: int,
    to: int,
)
    requires
        time_map::ascending(s),
        from <= to,
    ensures
        ids_between(with_date(s, entry), from, to).to_multiset() == (if from
            <= entry.instant.point() < to {
            ids_between(s, from, to).to_multiset().insert(entry.revision_id)
        } else {
            ids_between(s, from, to).to_multiset()
        }),
{
    broadcast use vstd::seq_lib::group_to_multiset_ensures;

    let p = entry.instant.point();
    let old_ids = ids_at(s, p);
    let ids = old_ids.push(entry.revision_id);
    let t = with_date(s, entry);
    let (low, i, high) = (
        time_map::rank(s, from),
        time_map::rank(s, p),
        time_map::rank(s, to),
    );
    time_map::lemma_rank(s, p);
    time_map::lemma_rank_monotone(s, from, to);
    time_map::lemma_with_entry_rank(s, entry.instant, ids, from);
    time_map::lemma_with_entry_rank(s, entry.instant, ids, to);
    let chosen = time_map::entries_between(s, from, to);
    let after = time_map::entries_between(t, from, to);
    if from <= p < to {
        time_map::lemma_rank_monotone(s, from, p);
        time_map::lemma_rank_monotone(s, p, to);
        let a = s.subrange(low, i);
        if time_map::has_point(s, p) {
            time_map::lemma_rank(s, to);
            let b = s.subrange(i + 1, high);
            assert(chosen =~= a + seq![s[i]] + b);
            assert(after =~= a + seq![(s[i].0, ids)] + b);
            lemma_all_ids_around(a, s[i], b);
            lemma_all_ids_around(a, (s[i].0, ids), b);
            assert(ids.to_multiset() =~= old_ids.to_multiset().insert(entry.revision_id));
        } else {
            let b = s.subrange(i, high);
            assert(chosen =~= a + b);
            assert(after =~= a + seq![(entry.instant, ids)] + b);
            lemma_all_ids_joined(a, b);
            vstd::seq_lib::lemma_multiset_commutative(all_ids(a), all_ids(b));
            lemma_all_ids_around(a, (entry.instant, ids), b);
            assert(ids.to_multiset() =~= Seq::<RevisionID>::empty().to_multiset().insert(
                entry.revision_id,
            ));
        }
        assert(all_ids(after).to_multiset() =~= all_ids(chosen).to_multiset().insert(
            entry.revision_id,
        ));
    } else {
        if p < from {
            time_map::lemma_rank_monotone(s, p, from);
            time_map::lemma_rank(s, from);
        } else {
            time_map::lemma_rank_monotone(s, to, p);
        }
        assert(after =~= chosen);
    }
}

/// What the index of a list gives for a period are the revisions that the list gives for it,
/// each as often: none is lost, none is added.
pub proof fn law_index_keeps_periods(entries: Seq<DateEntry>, from: int, to: int)
    requires
        from <= to,
    ensures
        ids_between(index_of(entries), from, to).to_multiset() == listed_between(
            entries,
            from,
            to,
        ).to_multiset(),
    decreases entries.len(),
{
    broadcast use vstd::seq_lib::group_to_multiset_ensures;

    if entries.len() == 0 {
        let none = Seq::<(Instant, Seq<RevisionID>)>::empty();
        assert(time_map::entries_between(none, from, to) =~= none);
    } else {
        lemma_index_of_ascending(entries.drop_last());
        law_index_keeps_periods(entries.drop_last(), from, to);
        lemma_with_date_between(index_of(entries.drop_last()), entries.last(), from, to);
    }
}

/// The first instant of the index of a list is the earliest in the list.
pub proof fn law_first_is_earliest(entries: Seq<DateEntry>)
    requires
        entries.len() > 0,
    ensures
        index_of(entries).len() > 0,
        forall|i: int|
            0 <= i < entries.len() ==> index_of(entries)[0].0.point() <= (
            #[trigger] entries[i]).instant.point(),
        exists|i: int|
            0 <= i < entries.len() && index_of(entries)[0].0.point() == (
            #[trigger] entries[i]).instant.point(),
    decreases entries.len(),
{
    let rest = entries.drop_last();
    let e = entries.last();
    let s = index_of(rest);
    let p = e.instant.point();
    let ids = ids_at(s, p).push(e.revision_id);
    lemma_index_of_ascending(rest);
    time_map::lemma_rank(s, p);
    assert(entries[entries.len() - 1] == e);
    if rest.len() > 0 {
        law_first_is_earliest(rest);
        let k = choose|i: int|
            0 <= i < rest.len() && s[0].0.point() == (#[trigger] rest[i]).instant.point();
        assert(entries[k] == rest[k]);
        assert forall|i: int| 0 <= i < entries.len() implies index_of(entries)[0].0.point() <= (
        #[trigger] entries[i]).instant.point() by {
            if i < rest.len() {
                assert(entries[i] == rest[i]);
            }
        }
    }
}

/// What a list gives for a period are the ids of those listed whose own instant is not before its
/// beginning and is before its end, in the order of the list.
pub proof fn law_listed_are_chosen_by_instant(entries: Seq<DateEntry>, from: int, to: int)
    ensures
        listed_between(entries, from, to) == entries.filter(
            |e: DateEntry| from <= e.instant.point() && e.instant.point() < to,
        ).map_values(|e: DateEntry| e.revision_id),
    decreases entries.len(),
{
    reveal(Seq::filter);
    let chosen = |e: DateEntry| from <= e.instant.point() && e.instant.point() < to;
    if entries.len() > 0 {
        law_listed_are_chosen_by_instant(entries.drop_last(), from, to);
    }
    assert(listed_between(entries, from, to) =~= entries.filter(chosen).map_values(
        |e: DateEntry| e.revision_id,
    ));
}

/// All revisions of entries are their lists of revisions, one behind the other.
proof fn lemma_all_ids_are_joined_lists(s: Seq<(Instant, Seq<RevisionID>)>)
    ensures
        all_ids(s) == s.map_values(|e: (Instant, Seq<RevisionID>)| e.1).flatten(),
    decreases s.len(),
{
    let lists = s.map_values(|e: (Instant, Seq<RevisionID>)| e.1);
    lists.lemma_flatten_and_flatten_alt_are_equivalent();
    if s.len() > 0 {
        let rest = s.drop_last().map_values(|e: (Instant, Seq<RevisionID>)| e.1);
        lemma_all_ids_are_joined_lists(s.drop_last());
        rest.lemma_flatten_and_flatten_alt_are_equivalent();
        assert(lists.drop_last() =~= rest);
        assert(all_ids(s) =~= lists.flatten());
    }
}

/// What an index gives for a period are the revisions of every instant in it that is not before
/// the beginning and is before the end, one instant after another.
pub proof fn law_period_is_read_by_instants(
    s: Seq<(Instant, Seq<RevisionID>)>,
    from: int,
    to: int,
)
    requires
        time_map::ascending(s),
        from <= to,
    ensures
        ids_between(s, from, to) == s.filter(
            |e: (Instant, Seq<RevisionID>)| from <= e.0.point() && e.0.point() < to,
        ).map_values(|e: (Instant, Seq<RevisionID>)| e.1).flatten(),
{
    time_map::law_between_chooses_by_instant(s, from, to);
    lemma_all_ids_are_joined_lists(time_map::entries_between(s, from, to));
}

/// A revision is given for a period exactly if it was listed with an instant in it, and as often.
pub proof fn law_index_answers_from_the_list(entries: Seq<DateEntry>, from: int, to: int)
    requires
        from <= to,
    ensures
        ids_between(index_of(entries), from, to).to_multiset() == entries.filter(
            |e: DateEntry| from <= e.instant.point() && e.instant.point() < to,
        ).map_values(|e: DateEntry| e.revision_id).to_multiset(),
{
    law_index_keeps_periods(entries, from, to);
    law_listed_are_chosen_by_instant(entries, from, to);
}

/// Every instant of an index has the ids of all that were listed with it, in the order of the list,
/// and every instant of the list is in the index.
pub proof fn law_instants_have_what_was_listed(entries: Seq<DateEntry>)
    ensures
        forall|k: int|
            0 <= k < index_of(entries).len() ==> (#[trigger] index_of(entries)[k]).1
                == entries.filter(
                |e: DateEntry| e.instant.point() == index_of(entries)[k].0.point(),
            ).map_values(|e: DateEntry| e.revision_id),
        forall|i: int|
            0 <= i < entries.len() ==> exists|k: int|
                0 <= k < index_of(entries).len() && (#[trigger] index_of(entries)[k]).0.point()
                    == (#[trigger] entries[i]).instant.point(),
{
    let s = index_of(entries);
    lemma_index_of_ascending(entries);
    assert forall|k: int| 0 <= k < s.len() implies (#[trigger] s[k]).1 == entries.filter(
        |e: DateEntry| e.instant.point() == s[k].0.point(),
    ).map_values(|e: DateEntry| e.revision_id) by {
        let p = s[k].0.point();
        time_map::lemma_rank_unique(s, p, k);
        law_index_keeps_instants(entries, p);
        law_listed_are_chosen_by_instant(entries, p, p + 1);
        assert((|e: DateEntry| p <= e.instant.point() && e.instant.point() < p + 1)
            =~= (|e: DateEntry| e.instant.point() == s[k].0.point()));
    }
    assert forall|i: int| 0 <= i < entries.len() implies exists|k: int|
        0 <= k < s.len() && (#[trigger] s[k]).0.point() == (
        #[trigger] entries[i]).instant.point() by {
        let p = entries[i].instant.point();
        law_index_keeps_instants(entries, p);
        law_listed_are_chosen_by_instant(entries, p, p + 1);
        let chosen = |e: DateEntry| p <= e.instant.point() && e.instant.point() < p + 1;
        entries.lemma_filter_contains(chosen, i);
        assert(entries.filter(chosen).len() > 0);
        time_map::lemma_rank(s, p);
        assert(s[time_map::rank(s, p)].0.point() == p);
    }
}

/// An instant of an index is written as the first that was listed at its point: the one at the
/// place that is returned.
pub proof fn law_instants_are_written_as_first_listed(entries: Seq<DateEntry>, k: int) -> (i: int)
    requires
        0 <= k < index_of(entries).len(),
    ensures
        0 <= i < entries.len(),
        entries[i].instant == index_of(entries)[k].0,
        forall|j: int|
            0 <= j < i ==> (#[trigger] entries[j]).instant.point() != entries[i].instant.point(),
    decreases entries.len(),
{
    let rest = entries.drop_last();
    let (s, t, e) = (index_of(entries), index_of(rest), entries.last());
    let n = entries.len() - 1;
    let p = e.instant.point();
    let place = time_map::rank(t, p);
    lemma_index_of_ascending(rest);
    time_map::lemma_rank(t, p);
    if !time_map::has_point(t, p) && k == place {
        assert forall|j: int| 0 <= j < n implies (#[trigger] entries[j]).instant.point() != p by {
            law_instants_have_what_was_listed(rest);
            assert(rest[j] == entries[j]);
        }
        n
    } else {
        let l = if !time_map::has_point(t, p) && k > place {
            k - 1
        } else {
            k
        };
        assert(t[l].0 == s[k].0);
        let i = law_instants_are_written_as_first_listed(rest, l);
        assert(entries[i] == rest[i]);
        assert forall|j: int| 0 <= j < i implies (#[trigger] entries[j]).instant.point()
            != entries[i].instant.point() by {
            assert(entries[j] == rest[j]);
        }
        i
    }
}

/// Adding a revision puts it behind those of its instant, or in an instant of its own where there
/// are none, and changes nothing at any other instant.
pub proof fn law_adding_changes_one_instant(s: Seq<(Instant, Seq<RevisionID>)>, entry: DateEntry)
    requires
        time_map::ascending(s),
    ensures
        forall|e: (Instant, Seq<RevisionID>)|
            e.0.point() != entry.instant.point() ==> (#[trigger] with_date(s, entry).contains(e)
                <==> s.contains(e)),
        forall|i: int|
            0 <= i < s.len() && (#[trigger] s[i]).0.point() == entry.instant.point() ==> with_date(
                s,
                entry,
            ).contains((s[i].0, s[i].1 + seq![entry.revision_id])) && with_date(s, entry).len()
                == s.len(),
        (forall|i: int| 0 <= i < s.len() ==> (#[trigger] s[i]).0.point() != entry.instant.point())
            ==> with_date(s, entry).contains((entry.instant, seq![entry.revision_id]))
            && with_date(s, entry).len() == s.len() + 1,
{
    let p = entry.instant.point();
    let ids = ids_at(s, p).push(entry.revision_id);
    time_map::lemma_rank(s, p);
    time_map::law_setting_changes_one_entry(s, entry.instant, ids);
    assert forall|i: int| 0 <= i < s.len() && (#[trigger] s[i]).0.point() == p implies with_date(
        s,
        entry,
    ).contains((s[i].0, s[i].1 + seq![entry.revision_id])) && with_date(s, entry).len()
        == s.len() by {
        time_map::lemma_rank_unique(s, p, i);
        assert(ids =~= s[i].1 + seq![entry.revision_id]);
    }
    if !time_map::has_point(s, p) {
        assert(ids =~= seq![entry.revision_id]);
    }
}

} // verus!
