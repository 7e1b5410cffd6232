//! Maps from points in time to values, kept in order of time.

use vstd::prelude::*;

use crate::instant::Instant;

verus! {

/// Whether the entries stand in order of time, each instant once.
pub open spec fn ascending<V>(s: Seq<(Instant, V)>) -> bool {
    forall|i: int, j: int|
        0 <= i < j < s.len() ==> (#[trigger] s[i]).0.point() < (#[trigger] s[j]).0.point()
}

/// How many entries come before the point `p`.
pub open spec fn rank<V>(s: Seq<(Instant, V)>, p: int) -> int
    decreases s.len(),
{
    if s.len() == 0 || s.last().0.point() < p {
        s.len() as int
    } else {
        rank(s.drop_last(), p)
    }
}

/// Whether there is an entry at the point `p`.
pub open spec fn has_point<V>(s: Seq<(Instant, V)>, p: int) -> bool {
    rank(s, p) < s.len() && s[rank(s, p)].0.point() == p
}

/// The entries with the value at `at` set to `value`. An entry that is there already keeps the
/// instant that it was first given.
pub open spec fn with_entry<V>(s: Seq<(Instant, V)>, at: Instant, value: V) -> Seq<(Instant, V)> {
    let i = rank(s, at.point());
    if has_point(s, at.point()) {
        s.update(i, (s[i].0, value))
    } else {
        s.insert(i, (at, value))
    }
}

/// The entries from the point `from` up to and without the point `to`.
pub open spec fn entries_between<V>(s: Seq<(Instant, V)>, from: int, to: int) -> Seq<
    (Instant, V),
> {
    s.subrange(rank(s, from), rank(s, to))
}

/// What comes before a point stands in front of what does not.
pub proof fn lemma_rank<V>(s: Seq<(Instant, V)>, p: int)
    requires
        ascending(s),
    ensures
        0 <= rank(s, p) <= s.len(),
        forall|i: int| 0 <= i < rank(s, p) ==> (#[trigger] s[i]).0.point() < p,
        forall|i: int| rank(s, p) <= i < s.len() ==> (#[trigger] s[i]).0.point() >= p,
    decreases s.len(),
{
    if s.len() > 0 && s.last().0.point() >= p {
        let rest = s.drop_last();
        assert(ascending(rest)) by {
            assert forall|i: int, j: int| 0 <= i < j < rest.len() implies (
            #[trigger] rest[i]).0.point() < (#[trigger] rest[j]).0.point() by {
                assert(rest[i] == s[i] && rest[j] == s[j]);
            }
        }
        lemma_rank(rest, p);
        assert forall|i: int| 0 <= i < rank(s, p) implies (#[trigger] s[i]).0.point() < p by {
            assert(rest[i] == s[i]);
        }
        assert forall|i: int| rank(s, p) <= i < s.len() implies (#[trigger] s[i]).0.point()
            >= p by {
            if i < rest.len() {
                assert(rest[i] == s[i]);
            }
        }
    } else if s.len() > 0 {
        assert(s.last() == s[s.len() - 1]);
    }
}

/// There is only one place that parts what comes before a point from what does not.
pub proof fn lemma_rank_unique<V>(s: Seq<(Instant, V)>, p: int, k: int)
    requires
        ascending(s),
        0 <= k <= s.len(),
        k > 0 ==> s[k - 1].0.point() < p,
        k < s.len() ==> s[k].0.point() >= p,
    ensures
        rank(s, p) == k,
{
    lemma_rank(s, p);
}

/// The entries from one point to another are those whose instants lie between: not before the
/// one, and before the other.
pub proof fn law_between_means_between<V>(s: Seq<(Instant, V)>, from: int, to: int)
    requires
        ascending(s),
        from <= to,
    ensures
        entries_between(s, from, to).len() == rank(s, to) - rank(s, from),
        forall|i: int|
            0 <= i < s.len() ==> (rank(s, from) <= i < rank(s, to) <==> from <= (
            #[trigger] s[i]).0.point() < to),
{
    lemma_rank(s, from);
    lemma_rank(s, to);
    lemma_rank_monotone(s, from, to);
}

/// Whether two lists of entries have the same instants.
pub open spec fn same_instants<V, W>(s: Seq<(Instant, V)>, t: Seq<(Instant, W)>) -> bool {
    s.len() == t.len() && forall|i: int| 0 <= i < s.len() ==> (#[trigger] s[i]).0 == t[i].0
}

/// The order of time, and what comes before a point, do not depend on the values.
pub proof fn lemma_same_instants<V, W>(s: Seq<(Instant, V)>, t: Seq<(Instant, W)>, p: int)
    requires
        same_instants(s, t),
    ensures
        ascending(s) ==> ascending(t),
        rank(s, p) == rank(t, p),
    decreases s.len(),
{
    if ascending(s) {
        assert forall|i: int, j: int| 0 <= i < j < t.len() implies (#[trigger] t[i]).0.point() < (
        #[trigger] t[j]).0.point() by {
            assert(s[i].0.point() < s[j].0.point());
        }
    }
    if s.len() > 0 {
        let (a, b) = (s.drop_last(), t.drop_last());
        assert(s[s.len() - 1].0 == t[t.len() - 1].0);
        assert forall|i: int| 0 <= i < a.len() implies (#[trigger] a[i]).0 == b[i].0 by {
            assert(s[i].0 == t[i].0);
        }
        lemma_same_instants(a, b, p);
    }
}

/// More comes before a later point.
pub proof fn lemma_rank_monotone<V>(s: Seq<(Instant, V)>, p: int, q: int)
    requires
        ascending(s),
        p <= q,
    ensures
        0 <= rank(s, p) <= rank(s, q) <= s.len(),
{
    lemma_rank(s, p);
    lemma_rank(s, q);
    if rank(s, p) > rank(s, q) {
        assert(s[rank(s, q)].0.point() < p);
    }
}

/// Setting a value keeps the order of time.
pub proof fn lemma_with_entry_ascending<V>(s: Seq<(Instant, V)>, at: Instant, value: V)
    requires
        ascending(s),
    ensures
        ascending(with_entry(s, at, value)),
{
    lemma_rank(s, at.point());
}

/// What comes before a point after a value is set: one entry more, if that entry is new and
/// stands before the point.
pub proof fn lemma_with_entry_rank<V>(s: Seq<(Instant, V)>, at: Instant, value: V, p: int)
    requires
        ascending(s),
    ensures
        rank(with_entry(s, at, value), p) == rank(s, p) + (if !has_point(s, at.point())
            && at.point() < p {
            1int
        } else {
            0int
        }),
{
    lemma_rank(s, at.point());
    lemma_rank(s, p);
    lemma_with_entry_ascending(s, at, value);
    let t = with_entry(s, at, value);
    let k = rank(s, p) + (if !has_point(s, at.point()) && at.point() < p {
        1int
    } else {
        0int
    });
    let i = rank(s, at.point());
    if at.point() < p {
        lemma_rank_monotone(s, at.point(), p);
        assert(k < t.len() && !has_point(s, at.point()) ==> t[k] == s[k - 1]);
    } else {
        lemma_rank_monotone(s, p, at.point());
        assert(k < i ==> t[k] == s[k]);
    }
    lemma_rank_unique(t, p, k);
}

/// After a value is set it is found at its point, and at every other point what was there
/// before.
pub proof fn law_set_value_is_found<V>(s: Seq<(Instant, V)>, at: Instant, value: V, p: int)
    requires
        ascending(s),
    ensures
        ({
            let t = with_entry(s, at, value);
            &&& has_point(t, p) <==> p == at.point() || has_point(s, p)
            &&& has_point(t, p) ==> t[rank(t, p)].1 == (if p == at.point() {
                value
            } else {
                s[rank(s, p)].1
            })
        }),
{
    lemma_rank(s, at.point());
    lemma_rank(s, p);
    lemma_with_entry_rank(s, at, value, p);
}

/// Entries in order of time stay in it without the last.
proof fn lemma_drop_last_ascending<V>(s: Seq<(Instant, V)>)
    requires
        ascending(s),
        s.len() > 0,
    ensures
        ascending(s.drop_last()),
{
    let rest = s.drop_last();
    assert forall|i: int, j: int| 0 <= i < j < rest.len() implies (#[trigger] rest[i]).0.point()
        < (#[trigger] rest[j]).0.point() by {
        assert(rest[i] == s[i] && rest[j] == s[j]);
    }
}

/// The entries from one point to another are all those, and only those, whose own instant is not
/// before the one and is before the other, in the order in which they stand.
pub proof fn law_between_chooses_by_instant<V>(s: Seq<(Instant, V)>, from: int, to: int)
    requires
        ascending(s),
        from <= to,
    ensures
        entries_between(s, from, to) == s.filter(
            |e: (Instant, V)| from <= e.0.point() && e.0.point() < to,
        ),
    decreases s.len(),
{
    reveal(Seq::filter);
    let chosen = |e: (Instant, V)| from <= e.0.point() && e.0.point() < to;
    if s.len() > 0 {
        let rest = s.drop_last();
        lemma_drop_last_ascending(s);
        law_between_chooses_by_instant(rest, from, to);
        lemma_rank_monotone(s, from, to);
        lemma_rank_monotone(rest, from, to);
        lemma_rank(rest, from);
        lemma_rank(rest, to);
        lemma_rank(s, from);
        lemma_rank(s, to);
        assert(s.last() == s[s.len() - 1]);
        if s.last().0.point() < to {
            assert(rest.len() > 0 ==> rest[rest.len() - 1] == s[rest.len() - 1]);
            assert(rank(rest, to) == rest.len());
            if s.last().0.point() < from {
                assert(rank(rest, from) == rest.len());
            }
        }
    }
    assert(entries_between(s, from, to) =~= s.filter(chosen));
}

/// Setting a value puts it in, and changes nothing at any other point: what was there is there,
/// and nothing else has come in. An entry that was there already keeps its own instant.
pub proof fn law_setting_changes_one_entry<V>(s: Seq<(Instant, V)>, at: Instant, value: V)
    requires
        ascending(s),
    ensures
        forall|i: int, j: int|
            0 <= i < j < with_entry(s, at, value).len() ==> (#[trigger] with_entry(
                s,
                at,
                value,
            )[i]).0.point() < (#[trigger] with_entry(s, at, value)[j]).0.point(),
        forall|e: (Instant, V)|
            e.0.point() != at.point() ==> (#[trigger] with_entry(s, at, value).contains(e)
                <==> s.contains(e)),
        forall|i: int|
            0 <= i < s.len() && (#[trigger] s[i]).0.point() == at.point() ==> with_entry(
                s,
                at,
                value,
            ).contains((s[i].0, value)) && with_entry(s, at, value).len() == s.len(),
        (forall|i: int| 0 <= i < s.len() ==> (#[trigger] s[i]).0.point() != at.point())
            ==> with_entry(s, at, value).contains((at, value)) && with_entry(s, at, value).len()
            == s.len() + 1,
{
    let t = with_entry(s, at, value);
    let k = rank(s, at.point());
    lemma_rank(s, at.point());
    lemma_with_entry_ascending(s, at, value);
    assert(t[k].1 == value && t[k].0.point() == at.point());
    assert forall|e: (Instant, V)| e.0.point() != at.point() implies (#[trigger] t.contains(e)
        <==> s.contains(e)) by {
        if t.contains(e) {
            let j = t.index_of(e);
            if has_point(s, at.point()) || j < k {
                assert(s[j] == e);
            } else {
                assert(s[j - 1] == e);
            }
        }
        if s.contains(e) {
            let j = s.index_of(e);
            if has_point(s, at.point()) || j < k {
                assert(t[j] == e);
            } else {
                assert(t[j + 1] == e);
            }
        }
    }
    assert forall|i: int|
        0 <= i < s.len() && (#[trigger] s[i]).0.point() == at.point() implies t.contains(
        (s[i].0, value),
    ) && t.len() == s.len() by {
        assert(i == k) by {
            assert(!(i < k));
            if k < i {
                assert(s[k].0.point() < s[i].0.point());
            }
        }
        assert(t[k] == (s[i].0, value));
    }
    if !has_point(s, at.point()) {
        assert(t[k] == (at, value));
    }
}

/// A map from points in time to values.
pub struct TimeMap<V> {
    entries: Vec<(Instant, V)>,
}

impl<V> View for TimeMap<V> {
    type V = Seq<(Instant, V)>;

    closed spec fn view(&self) -> Seq<(Instant, V)> {
        self.entries@
    }
}

impl<V> TimeMap<V> {
    /// The entries stand in order of time.
    pub open spec fn wf(&self) -> bool {
        ascending(self@)
    }

    /// A map without entries.
    pub fn new() -> (r: TimeMap<V>)
        ensures
            r.wf(),
            r@ == Seq::<(Instant, V)>::empty(),
    {
        TimeMap { entries: Vec::new() }
    }

    /// The number of entries.
    pub fn len(&self) -> (r: usize)
        ensures
            r == self@.len(),
    {
        self.entries.len()
    }

    /// The instant of the entry number `i`.
    pub fn instant_at(&self, i: usize) -> (r: Instant)
        requires
            i < self@.len(),
        ensures
            r == self@[i as int].0,
    {
        self.entries[i].0
    }

    /// The value of the entry number `i`.
    pub fn value_at(&self, i: usize) -> (r: &V)
        requires
            i < self@.len(),
        ensures
            *r == self@[i as int].1,
    {
        &self.entries[i].1
    }

    /// The value of the entry number `i`, to be changed.
    pub fn value_mut(&mut self, i: usize) -> (r: &mut V)
        requires
            old(self).wf(),
            i < old(self)@.len(),
        ensures
            *r == old(self)@[i as int].1,
            final(self)@ == old(self)@.update(i as int, (old(self)@[i as int].0, *final(r))),
            final(self).wf(),
    {
        &mut self.entries[i].1
    }

    /// How many entries come before `at`.
    pub fn count_before(&self, at: &Instant) -> (r: usize)
        requires
            self.wf(),
        ensures
            r == rank(self@, at.point()),
            r <= self@.len(),
            forall|i: int| 0 <= i < r ==> (#[trigger] self@[i]).0.point() < at.point(),
            forall|i: int| r <= i < self@.len() ==> (#[trigger] self@[i]).0.point() >= at.point(),
    {
        let mut low: usize = 0;
        let mut high: usize = self.entries.len();
        while low < high
            invariant
                self.wf(),
                0 <= low <= high <= self@.len(),
                low > 0 ==> self@[low - 1].0.point() < at.point(),
                high < self@.len() ==> self@[high as int].0.point() >= at.point(),
            decreases high - low,
        {
            let middle: usize = low + (high - low) / 2;
            if self.entries[middle].0.is_before(at) {
                low = middle + 1;
            } else {
                high = middle;
            }
        }
        proof {
            lemma_rank_unique(self@, at.point(), low as int);
            lemma_rank(self@, at.point());
        }
        low
    }

    /// Sets the value at `at`. An entry that is there already keeps its instant.
    pub fn insert(&mut self, at: Instant, value: V)
        requires
            old(self).wf(),
        ensures
            final(self).wf(),
            final(self)@ == with_entry(old(self)@, at, value),
    {
        let i = self.count_before(&at);
        proof {
            lemma_rank(self@, at.point());
        }
        if i < self.entries.len() && self.entries[i].0 == at {
            let kept = self.entries[i].0;
            self.entries.set(i, (kept, value));
        } else {
            self.entries.insert(i, (at, value));
        }
    }

    /// The first instant of all, if there is one.
    pub fn first(&self) -> (r: Option<Instant>)
        ensures
            r == (if self@.len() > 0 {
                Some(self@[0].0)
            } else {
                None
            }),
    {
        if self.entries.len() > 0 {
            Some(self.entries[0].0)
        } else {
            None
        }
    }

    /// The last instant before `at`, if there is one.
    pub fn last_before(&self, at: &Instant) -> (r: Option<Instant>)
        requires
            self.wf(),
        ensures
            r == (if rank(self@, at.point()) > 0 {
                Some(self@[rank(self@, at.point()) - 1].0)
            } else {
                None
            }),
            r matches Some(found) ==> found.point() < at.point() && exists|k: int|
                0 <= k < self@.len() && (#[trigger] self@[k]).0 == found,
            forall|i: int|
                0 <= i < self@.len() && (#[trigger] self@[i]).0.point() < at.point() ==> r is Some
                    && self@[i].0.point() <= (r->0).point(),
    {
        let i = self.count_before(at);
        if i > 0 {
            Some(self.entries[i - 1].0)
        } else {
            None
        }
    }

    /// The first instant that is not before `at`, if there is one.
    pub fn first_from(&self, at: &Instant) -> (r: Option<Instant>)
        requires
            self.wf(),
        ensures
            r == (if rank(self@, at.point()) < self@.len() {
                Some(self@[rank(self@, at.point())].0)
            } else {
                None
            }),
            r matches Some(found) ==> found.point() >= at.point() && exists|k: int|
                0 <= k < self@.len() && (#[trigger] self@[k]).0 == found,
            forall|i: int|
                0 <= i < self@.len() && (#[trigger] self@[i]).0.point() >= at.point() ==> r is Some
                    && self@[i].0.point() >= (r->0).point(),
    {
        let i = self.count_before(at);
        if i < self.entries.len() {
            Some(self.entries[i].0)
        } else {
            None
        }
    }
}

} // verus!
