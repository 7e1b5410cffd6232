//! The download: the program that fetches revisions, and the named pipes that it fills.

use vstd::prelude::*;

use crate::external;
use crate::layout;
use crate::text;

verus! {

/// Stands for the downloader among those that are waited for.
pub const DOWNLOADER: &'static str = "_";

/// What is waited for, and whether a pipe has been found yet.
#[verifier::ext_equal]
pub struct Waiting {
    /// The pipes that are being read, and the downloader while it runs.
    pub pending: Set<Seq<char>>,
    pub one_found: bool,
}

/// What to do after the directory of pipes has been looked through.
#[derive(Clone, Copy, Debug, PartialEq, Eq, Structural)]
pub enum NextStep {
    /// No pipe has been found yet: look again after a while.
    AwaitPipes,
    /// Wait until the downloader or the reader of a pipe is done, and look again.
    AwaitCompletion,
    /// Everything has been read.
    Finish,
}

/// Whether the name is that of a pipe of revisions that nobody reads yet.
pub open spec fn to_be_read(waiting: Waiting, name: Seq<char>) -> bool {
    external::regex_is_match(layout::PIPE_NAME_PATTERN@, name) && !waiting.pending.contains(name)
}

/// What to do after the directory of pipes has been looked through.
pub open spec fn step_of(waiting: Waiting) -> NextStep {
    if !waiting.one_found {
        NextStep::AwaitPipes
    } else if waiting.pending == Set::<Seq<char>>::empty() {
        NextStep::Finish
    } else {
        NextStep::AwaitCompletion
    }
}

/// A pipe is to be read exactly if its name matches and nobody reads it yet, however many others
/// are being read.
pub proof fn law_which_pipes_are_read(waiting: Waiting, name: Seq<char>)
    ensures
        to_be_read(waiting, name) <==> external::regex_is_match(
            "revisions-\\d+-\\d+\\.pipe"@,
            name,
        ) && !waiting.pending.contains(name),
{
}

/// Pipes are awaited exactly as long as none was found. After that everything has been read exactly
/// where nobody is waited for.
pub proof fn law_when_to_finish(waiting: Waiting)
    ensures
        step_of(waiting) == NextStep::AwaitPipes <==> !waiting.one_found,
        step_of(waiting) == NextStep::Finish <==> waiting.one_found && forall|name: Seq<char>|
            !#[trigger] waiting.pending.contains(name),
{
    if forall|name: Seq<char>| !#[trigger] waiting.pending.contains(name) {
        assert(waiting.pending =~= Set::empty());
    }
}

/// Watches over the download.
pub struct PipeMonitor {
    pending: Vec<String>,
    one_found: bool,
}

impl View for PipeMonitor {
    type V = Waiting;

    closed spec fn view(&self) -> Waiting {
        Waiting { pending: text::views(self.pending@).to_set(), one_found: self.one_found }
    }
}

impl PipeMonitor {
    /// Nobody is waited for twice.
    pub closed spec fn wf(&self) -> bool {
        text::views(self.pending@).no_duplicates()
    }

    /// The downloader runs, and no pipe has been found.
    pub fn new() -> (r: PipeMonitor)
        ensures
            r.wf(),
            r@ == (Waiting {
                pending: Set::<Seq<char>>::empty().insert(DOWNLOADER@),
                one_found: false,
            }),
    {
        let mut pending: Vec<String> = Vec::new();
        pending.push(DOWNLOADER.to_string());
        let r = PipeMonitor { pending, one_found: false };
        proof {
            let names = text::views(r.pending@);
            assert(names =~= seq![DOWNLOADER@]);
            assert(names[0] == DOWNLOADER@);
            assert(names.to_set() =~= Set::<Seq<char>>::empty().insert(DOWNLOADER@));
        }
        r
    }

    /// The place of a name among those that are waited for.
    fn place_of(&self, name: &String) -> (r: Option<usize>)
        ensures
            match r {
                Some(i) => i < self.pending@.len() && self.pending@[i as int]@ == name@,
                None => !self@.pending.contains(name@),
            },
    {
        for i in 0..self.pending.len()
            invariant
                forall|j: int| 0 <= j < i ==> (#[trigger] self.pending@[j])@ != name@,
        {
            if self.pending[i] == *name {
                return Some(i);
            }
        }
        proof {
            let names = text::views(self.pending@);
            assert forall|j: int| 0 <= j < names.len() implies #[trigger] names[j] != name@ by {
                assert(names[j] == self.pending@[j]@);
            }
        }
        None
    }

    /// Takes note of a file in the directory of pipes. Returns whether to begin reading it; it
    /// is then waited for.
    pub fn observe(&mut self, name: &String) -> (r: bool)
        requires
            old(self).wf(),
        ensures
            final(self).wf(),
            r == to_be_read(old(self)@, name@),
            r == (external::regex_is_match("revisions-\\d+-\\d+\\.pipe"@, name@)
                && !old(self)@.pending.contains(name@)),
            layout::is_pipe_name(name@) ==> r == !old(self)@.pending.contains(name@),
            forall|before: Seq<char>, part: Seq<char>, after: Seq<char>| #[trigger]
                layout::is_pipe_name_in(name@, before, part, after) ==> r
                    == !old(self)@.pending.contains(name@),
            r ==> layout::contains_text(name@, "revisions-"@),
            final(self)@ == (if r {
                Waiting { pending: old(self)@.pending.insert(name@), one_found: true }
            } else {
                old(self)@
            }),
    {
        proof {
            let none = Seq::<char>::empty();
            assert(name@ =~= none + name@ + none);
            assert(layout::is_pipe_name(name@) ==> layout::is_pipe_name_in(
                name@,
                none,
                name@,
                none,
            ));
        }
        let wanted: bool = external::is_match(layout::PIPE_NAME_PATTERN, name.as_str());
        self.admit_if(wanted, name)
    }

    /// Takes note of a file that is a pipe of revisions, or is not. Returns whether to begin
    /// reading it; it is then waited for.
    pub fn admit_if(&mut self, is_pipe: bool, name: &String) -> (r: bool)
        requires
            old(self).wf(),
        ensures
            final(self).wf(),
            r == (is_pipe && !old(self)@.pending.contains(name@)),
            final(self)@ == (if r {
                Waiting { pending: old(self)@.pending.insert(name@), one_found: true }
            } else {
                old(self)@
            }),
    {
        if !is_pipe {
            return false;
        }
        match self.place_of(name) {
            Some(i) => {
                assert(text::views(self.pending@)[i as int] == name@);
                false
            },
            None => {
                self.pending.push(name.clone());
                self.one_found = true;
                proof {
                    let before = text::views(old(self).pending@);
                    let after = text::views(self.pending@);
                    assert(after =~= before.push(name@));
                    assert(!before.contains(name@));
                    assert(after[before.len() as int] == name@);
                    let expected = before.to_set().insert(name@);
                    assert forall|s: Seq<char>|
                        after.to_set().contains(s) <==> #[trigger] expected.contains(s) by {
                        if before.contains(s) {
                            let i = before.index_of(s);
                            assert(after[i] == s);
                        }
                    }
                    assert(after.to_set() =~= expected);
                }
                true
            },
        }
    }

    /// What to do after the directory of pipes has been looked through.
    pub fn next_step(&self) -> (r: NextStep)
        ensures
            r == step_of(self@),
            r == NextStep::AwaitPipes <==> !self@.one_found,
            r == NextStep::Finish <==> self@.one_found && forall|name: Seq<char>|
                !#[trigger] self@.pending.contains(name),
    {
        proof {
            law_when_to_finish(self@);
        }
        proof {
            let names = text::views(self.pending@);
            if names.len() > 0 {
                assert(names.to_set().contains(names[0]));
            } else {
                assert(names.to_set() =~= Set::empty());
            }
        }
        if !self.one_found {
            NextStep::AwaitPipes
        } else if self.pending.len() == 0 {
            NextStep::Finish
        } else {
            NextStep::AwaitCompletion
        }
    }

    /// Takes note that the downloader, or the reader of a pipe, is done.
    pub fn complete(&mut self, name: &String)
        requires
            old(self).wf(),
        ensures
            final(self).wf(),
            final(self)@ == (Waiting {
                pending: old(self)@.pending.remove(name@),
                one_found: old(self)@.one_found,
            }),
    {
        let ghost before = text::views(self.pending@);
        match self.place_of(name) {
            Some(i) => {
                self.pending.remove(i);
                proof {
                    let after = text::views(self.pending@);
                    assert(before[i as int] == name@);
                    assert(after =~= before.remove(i as int));
                    let expected = before.to_set().remove(name@);
                    assert forall|s: Seq<char>|
                        after.to_set().contains(s) <==> #[trigger] expected.contains(s) by {
                        if after.contains(s) {
                            let j = after.index_of(s);
                            let k = if j < i {
                                j
                            } else {
                                j + 1
                            };
                            assert(before[k] == s);
                        }
                        if before.contains(s) && s != name@ {
                            let k = before.index_of(s);
                            let j = if k < i {
                                k
                            } else {
                                k - 1
                            };
                            assert(after[j] == s);
                        }
                    }
                    assert(after.to_set() =~= expected);
                }
            },
            None => {
                assert(before.to_set().remove(name@) =~= before.to_set());
            },
        }
    }
}

/// Something that the monitor is told.
pub enum WatchEvent {
    /// A file is in the directory of pipes.
    Observed(Seq<char>),
    /// The downloader, or the reader of a pipe, is done.
    Completed(Seq<char>),
}

/// What is waited for after the monitor has been told of these events.
pub open spec fn watched(events: Seq<WatchEvent>) -> Waiting
    decreases events.len(),
{
    if events.len() == 0 {
        Waiting { pending: Set::<Seq<char>>::empty().insert(DOWNLOADER@), one_found: false }
    } else {
        let before = watched(events.drop_last());
        match events.last() {
            WatchEvent::Observed(name) => if to_be_read(before, name) {
                Waiting { pending: before.pending.insert(name), one_found: true }
            } else {
                before
            },
            WatchEvent::Completed(name) => Waiting {
                pending: before.pending.remove(name),
                one_found: before.one_found,
            },
        }
    }
}

/// Whether event number `i` is the observation of a pipe that is then begun to be read.
pub open spec fn begins(events: Seq<WatchEvent>, i: int, name: Seq<char>) -> bool {
    &&& 0 <= i < events.len()
    &&& events[i] == WatchEvent::Observed(name)
    &&& to_be_read(watched(events.take(i)), name)
}

/// Whether a name is completed by one of the events from number `from` up to and without number
/// `to`.
pub open spec fn completed_between(
    events: Seq<WatchEvent>,
    from: int,
    to: int,
    name: Seq<char>,
) -> bool {
    exists|j: int| from <= j < to && #[trigger] events[j] == WatchEvent::Completed(name)
}

/// What is waited for is waited for until it is completed.
proof fn lemma_stays_pending(events: Seq<WatchEvent>, from: int, to: int, name: Seq<char>)
    requires
        0 <= from <= to <= events.len(),
        watched(events.take(from)).pending.contains(name),
        !completed_between(events, from, to, name),
    ensures
        watched(events.take(to)).pending.contains(name),
    decreases to - from,
{
    if from < to {
        lemma_stays_pending(events, from, to - 1, name);
        assert(events.take(to).drop_last() =~= events.take(to - 1));
        assert(events.take(to).last() == events[to - 1]);
    }
}

/// The monitor tells to finish only when at least one pipe was found, the downloader is done,
/// and every pipe that was begun to be read has been read to its end.
pub proof fn law_finish_means_all_done(events: Seq<WatchEvent>)
    requires
        step_of(watched(events)) == NextStep::Finish,
    ensures
        exists|i: int, name: Seq<char>| begins(events, i, name),
        completed_between(events, 0, events.len() as int, DOWNLOADER@),
        forall|i: int, name: Seq<char>| #[trigger]
            begins(events, i, name) ==> completed_between(
                events,
                i + 1,
                events.len() as int,
                name,
            ),
{
    let n = events.len() as int;
    assert(events.take(n) =~= events);
    if !completed_between(events, 0, n, DOWNLOADER@) {
        lemma_stays_pending(events, 0, n, DOWNLOADER@);
    }
    assert forall|i: int, name: Seq<char>| #[trigger] begins(events, i, name) implies
        completed_between(events, i + 1, n, name) by {
        assert(events.take(i + 1).drop_last() =~= events.take(i));
        assert(events.take(i + 1).last() == events[i]);
        if !completed_between(events, i + 1, n, name) {
            lemma_stays_pending(events, i + 1, n, name);
        }
    }
    lemma_found_means_begun(events);
}

/// A pipe is found only by beginning to read it.
proof fn lemma_found_means_begun(events: Seq<WatchEvent>)
    requires
        watched(events).one_found,
    ensures
        exists|i: int, name: Seq<char>| begins(events, i, name),
    decreases events.len(),
{
    if events.len() > 0 {
        let rest = events.drop_last();
        if watched(rest).one_found {
            lemma_found_means_begun(rest);
            let (i, name) = choose|i: int, name: Seq<char>| begins(rest, i, name);
            assert(rest.take(i) =~= events.take(i));
            assert(begins(events, i, name));
        } else {
            match events.last() {
                WatchEvent::Observed(name) => {
                    assert(events.take(events.len() - 1) =~= rest);
                    assert(begins(events, events.len() - 1, name));
                },
                WatchEvent::Completed(_) => {},
            }
        }
    }
}

/// A pipe is not begun again before it has been read to its end.
pub proof fn law_no_pipe_is_read_twice(
    events: Seq<WatchEvent>,
    i: int,
    k: int,
    name: Seq<char>,
)
    requires
        begins(events, i, name),
        begins(events, k, name),
        i < k,
    ensures
        completed_between(events, i + 1, k, name),
{
    assert(events.take(i + 1).drop_last() =~= events.take(i));
    assert(events.take(i + 1).last() == events[i]);
    if !completed_between(events, i + 1, k, name) {
        lemma_stays_pending(events, i + 1, k, name);
    }
}

/// Those that are waited for are the downloader until it is done, and every pipe that was begun to
/// be read and has not been read to its end, and nobody else.
pub proof fn law_who_is_waited_for(events: Seq<WatchEvent>, name: Seq<char>)
    ensures
        watched(events).pending.contains(name) <==> {
            ||| name == "_"@ && !completed_between(events, 0, events.len() as int, name)
            ||| exists|i: int| #[trigger]
                begins(events, i, name) && !completed_between(
                    events,
                    i + 1,
                    events.len() as int,
                    name,
                )
        },
    decreases events.len(),
{
    let n = events.len() - 1;
    if events.len() > 0 {
        let rest = events.drop_last();
        law_who_is_waited_for(rest, name);
        assert(events.take(n) =~= rest);
        assert(events[n] == events.last());
        assert forall|i: int| 0 <= i < n implies (#[trigger] begins(events, i, name)
            <==> begins(rest, i, name)) by {
            assert(events.take(i) =~= rest.take(i));
            assert(events[i] == rest[i]);
        }
        assert forall|from: int| 0 <= from <= n implies (#[trigger] completed_between(
            events,
            from,
            n + 1,
            name,
        ) <==> completed_between(rest, from, n, name) || events[n] == WatchEvent::Completed(
            name,
        )) by {
            if completed_between(rest, from, n, name) {
                let j = choose|j: int|
                    from <= j < n && #[trigger] rest[j] == WatchEvent::Completed(name);
                assert(events[j] == WatchEvent::Completed(name));
            }
            if completed_between(events, from, n + 1, name) {
                let j = choose|j: int|
                    from <= j < n + 1 && #[trigger] events[j] == WatchEvent::Completed(name);
                if j < n {
                    assert(rest[j] == WatchEvent::Completed(name));
                }
            }
        }
        if exists|i: int| #[trigger]
            begins(rest, i, name) && !completed_between(rest, i + 1, n, name) {
            let i = choose|i: int| #[trigger]
                begins(rest, i, name) && !completed_between(rest, i + 1, n, name);
            assert(begins(events, i, name));
            assert(completed_between(events, i + 1, n + 1, name) <==> events[n]
                == WatchEvent::Completed(name));
        }
        if exists|i: int| #[trigger]
            begins(events, i, name) && !completed_between(events, i + 1, n + 1, name) {
            let i = choose|i: int| #[trigger]
                begins(events, i, name) && !completed_between(events, i + 1, n + 1, name);
            if i < n {
                assert(begins(rest, i, name));
                assert(!completed_between(rest, i + 1, n, name));
            }
        }
        if events[n] == WatchEvent::Observed(name) && to_be_read(watched(rest), name) {
            assert(begins(events, n, name));
            assert(!completed_between(events, n + 1, n + 1, name));
        }
    }
}

/// A pipe has been found exactly if one was begun to be read.
pub proof fn law_found_means_begun(events: Seq<WatchEvent>)
    ensures
        watched(events).one_found <==> exists|i: int, name: Seq<char>| begins(events, i, name),
    decreases events.len(),
{
    if watched(events).one_found {
        lemma_found_means_begun(events);
    }
    if exists|i: int, name: Seq<char>| begins(events, i, name) {
        let (i, name) = choose|i: int, name: Seq<char>| begins(events, i, name);
        let rest = events.drop_last();
        let n = events.len() - 1;
        assert(events[n] == events.last());
        if i < n {
            assert(events.take(i) =~= rest.take(i));
            assert(begins(rest, i, name));
            law_found_means_begun(rest);
        } else {
            assert(events.take(n) =~= rest);
        }
    }
}

} // verus!
