//! Bracketing of events: every event that opens a bracket is followed by
//! exactly one event that closes it.
//!
//! There are five kinds of brackets: the process of a stage, the search for a
//! free group, the loading of a group, the tracking of a job, and the
//! fetching of a group's results. The open brackets of a kind are kept as a
//! multiset of their identifiers; an event that opens a bracket adds its
//! identifier, an event that closes one takes its identifier away and is in
//! order only where that identifier is open.

use crate::pipeline::monitoring::Event;
use crate::pipeline::stages::fetcher::FetcherPhase;
use crate::pipeline::stages::fetcher::FetcherReply;
use crate::pipeline::stages::fetcher::FetcherRequest;
use crate::pipeline::stages::fetcher::OutputFetcher;
use crate::pipeline::stages::initializer::initializer_first;
use crate::pipeline::stages::initializer::initializer_next;
use crate::pipeline::stages::initializer::InitializerPhase;
use crate::pipeline::stages::initializer::InitializerReply;
use crate::pipeline::stages::loader::InputLoader;
use crate::pipeline::stages::loader::LoaderPhase;
use crate::pipeline::stages::loader::LoaderReply;
use crate::pipeline::stages::loader::LoaderRequest;
use crate::pipeline::stages::mapper::MapperPhase;
use crate::pipeline::stages::mapper::MapperRequest;
use crate::pipeline::stages::mapper::SimpleMapper;
use crate::pipeline::stages::mapper::SimpleReply;
use crate::driver::merge;
use crate::driver::Status;
use crate::pipeline::stages::persistent::flush_indices;
use crate::pipeline::stages::persistent::GroupSlots;
use crate::pipeline::stages::persistent::PersistentMapper;
use crate::pipeline::stages::persistent::PersistentPhase;
use crate::pipeline::stages::persistent::PersistentReply;
use crate::pipeline::stages::persistent::PersistentRequest;
use crate::pipeline::stages::routing::lemma_entry_of_group;
use crate::pipeline::stages::tracker::ExecutionTracker;
use crate::pipeline::stages::tracker::TrackerPhase;
use crate::pipeline::stages::tracker::TrackerReply;
use crate::pipeline::stages::tracker::TrackerRequest;
use crate::pipeline::stages::GroupJob;
use std::hash::Hash;
use crate::pipeline::stages::Step;
use crate::pipeline::stages::Effect;
use vstd::multiset::Multiset;
use vstd::prelude::*;

verus! {

/// The kinds of brackets.
pub enum Bracket {
    Process,
    GroupSearch,
    GroupLoading,
    JobExecutionTracking,
    OutputFetching,
}

/// What an event does to the brackets of one kind.
pub enum Mark {
    /// It opens the bracket with this identifier.
    Opens(int),
    /// It closes the bracket with this identifier.
    Closes(int),
    /// It leaves the brackets alone.
    Passes,
}

/// What `event` does to the brackets of `kind`. The brackets of a process and
/// of a search carry no identifier of their own: theirs is 0.
pub open spec fn mark_of_event(kind: Bracket, event: Event) -> Mark {
    match (kind, event) {
        (Bracket::Process, Event::ProcessBegin) => Mark::Opens(0),
        (Bracket::Process, Event::ProcessEnd) => Mark::Closes(0),
        (Bracket::GroupSearch, Event::GroupSearchBegin) => Mark::Opens(0),
        (Bracket::GroupSearch, Event::GroupSearchEnd(_)) => Mark::Closes(0),
        (Bracket::GroupLoading, Event::GroupLoadingBegin(id)) => Mark::Opens(id as int),
        (Bracket::GroupLoading, Event::GroupLoadingEnd(id)) => Mark::Closes(id as int),
        (Bracket::JobExecutionTracking, Event::JobExecutionTrackingBegin(id)) => Mark::Opens(
            id as int,
        ),
        (Bracket::JobExecutionTracking, Event::JobExecutionTrackingEnd(id)) => Mark::Closes(
            id as int,
        ),
        (Bracket::OutputFetching, Event::OutputFetchingBegin(id)) => Mark::Opens(id as int),
        (Bracket::OutputFetching, Event::OutputFetchingEnd(id)) => Mark::Closes(id as int),
        _ => Mark::Passes,
    }
}

/// What `effect` does to the brackets of `kind`: what the event does that it
/// reports, if it reports one.
pub open spec fn mark_of_effect<K>(kind: Bracket, effect: Effect<K>) -> Mark {
    match effect {
        Effect::Record(event) => mark_of_event(kind, event),
        _ => Mark::Passes,
    }
}

/// The open brackets after `mark`, or nothing where the mark closes a
/// bracket that is not open.
pub open spec fn after_mark(mark: Mark, open: Multiset<int>) -> Option<Multiset<int>> {
    match mark {
        Mark::Opens(id) => Some(open.insert(id)),
        Mark::Closes(id) => if open.count(id) > 0 {
            Some(open.remove(id))
        } else {
            None
        },
        Mark::Passes => Some(open),
    }
}

/// The open brackets after the marks of `items` in order, starting from
/// `open`; nothing where one of them closes a bracket that is not open.
pub open spec fn balance<A>(items: Seq<A>, mark: spec_fn(A) -> Mark, open: Multiset<int>) -> Option<
    Multiset<int>,
>
    decreases items.len(),
{
    if items.len() == 0 {
        Some(open)
    } else {
        match after_mark(mark(items[0]), open) {
            Some(next) => balance(items.skip(1), mark, next),
            None => None,
        }
    }
}

/// The open brackets of `kind` after the events that `effects` report.
pub open spec fn balance_of_effects<K>(effects: Seq<Effect<K>>, kind: Bracket, open: Multiset<int>) -> Option<
    Multiset<int>,
> {
    balance(effects, |e: Effect<K>| mark_of_effect(kind, e), open)
}

/// The open brackets of `kind` after `events`.
pub open spec fn balance_of_events(events: Seq<Event>, kind: Bracket, open: Multiset<int>) -> Option<
    Multiset<int>,
> {
    balance(events, |e: Event| mark_of_event(kind, e), open)
}

/// The brackets after two runs of marks one after the other are those after
/// the second run, started from those after the first.
pub proof fn lemma_balance_concat<A>(a: Seq<A>, b: Seq<A>, mark: spec_fn(A) -> Mark, open: Multiset<int>)
    ensures
        balance(a + b, mark, open) == match balance(a, mark, open) {
            Some(middle) => balance(b, mark, middle),
            None => None,
        },
    decreases a.len(),
{
    if a.len() == 0 {
        assert(a + b =~= b);
    } else {
        assert((a + b)[0] == a[0]);
        assert((a + b).skip(1) =~= a.skip(1) + b);
        match after_mark(mark(a[0]), open) {
            Some(next) => {
                lemma_balance_concat(a.skip(1), b, mark, next);
            },
            None => {},
        }
    }
}

/// Marks that leave the brackets alone leave them as they are.
pub proof fn lemma_balance_passes<A>(items: Seq<A>, mark: spec_fn(A) -> Mark, open: Multiset<int>)
    requires
        forall|i: int| 0 <= i < items.len() ==> mark(#[trigger] items[i]) is Passes,
    ensures
        balance(items, mark, open) == Some(open),
    decreases items.len(),
{
    if items.len() > 0 {
        assert forall|i: int| 0 <= i < items.skip(1).len() implies mark(
            #[trigger] items.skip(1)[i],
        ) is Passes by {
            assert(items.skip(1)[i] == items[i + 1]);
        }
        lemma_balance_passes(items.skip(1), mark, open);
    }
}

/// Where all marks but the one at `at` leave the brackets alone, the brackets
/// are those after that mark.
pub proof fn lemma_balance_one<A>(items: Seq<A>, mark: spec_fn(A) -> Mark, open: Multiset<int>, at: int)
    requires
        0 <= at < items.len(),
        forall|i: int| 0 <= i < items.len() && i != at ==> mark(#[trigger] items[i]) is Passes,
    ensures
        balance(items, mark, open) == after_mark(mark(items[at]), open),
    decreases items.len(),
{
    let rest = items.skip(1);
    if at == 0 {
        match after_mark(mark(items[0]), open) {
            Some(next) => {
                assert forall|i: int| 0 <= i < rest.len() implies mark(#[trigger] rest[i]) is Passes by {
                    assert(rest[i] == items[i + 1]);
                }
                lemma_balance_passes(rest, mark, next);
            },
            None => {},
        }
    } else {
        assert forall|i: int| 0 <= i < rest.len() && i != at - 1 implies mark(
            #[trigger] rest[i],
        ) is Passes by {
            assert(rest[i] == items[i + 1]);
        }
        assert(rest[at - 1] == items[at]);
        lemma_balance_one(rest, mark, open, at - 1);
    }
}

/// Where all marks but those at `first` and `second` leave the brackets
/// alone, the brackets are those after these two marks in order.
pub proof fn lemma_balance_two<A>(
    items: Seq<A>,
    mark: spec_fn(A) -> Mark,
    open: Multiset<int>,
    first: int,
    second: int,
)
    requires
        0 <= first < second < items.len(),
        forall|i: int|
            0 <= i < items.len() && i != first && i != second ==> mark(#[trigger] items[i]) is Passes,
    ensures
        balance(items, mark, open) == match after_mark(mark(items[first]), open) {
            Some(middle) => after_mark(mark(items[second]), middle),
            None => None,
        },
{
    let head = items.subrange(0, second);
    let tail = items.subrange(second, items.len() as int);
    assert(items =~= head + tail);
    lemma_balance_concat(head, tail, mark, open);
    assert(head[first] == items[first]);
    assert forall|i: int| 0 <= i < head.len() && i != first implies mark(#[trigger] head[i]) is Passes by {
        assert(head[i] == items[i]);
    }
    lemma_balance_one(head, mark, open, first);
    assert(tail[0] == items[second]);
    assert forall|i: int| 0 <= i < tail.len() && i != 0 implies mark(#[trigger] tail[i]) is Passes by {
        assert(tail[i] == items[i + second]);
    }
    match after_mark(mark(items[first]), open) {
        Some(middle) => {
            lemma_balance_one(tail, mark, middle, 0);
        },
        None => {},
    }
}

/// The marks of the first `n` of `chunks`, one chunk after the other.
pub open spec fn joined<A>(chunks: Seq<Seq<A>>, n: int) -> Seq<A>
    decreases n,
{
    if n <= 0 {
        Seq::empty()
    } else {
        joined(chunks, n - 1) + chunks[n - 1]
    }
}

/// Bracketing over a run: where each step of a run takes the open brackets
/// from their state before the step to their state after it, the steps of
/// the run taken together take them from their state before the first step
/// to their state after the last. A run that starts and ends with no bracket
/// open has closed every bracket it has opened, each after it was opened.
pub proof fn lemma_balance_over_a_run<A>(
    chunks: Seq<Seq<A>>,
    mark: spec_fn(A) -> Mark,
    opens: Seq<Multiset<int>>,
    n: int,
)
    requires
        0 <= n <= chunks.len(),
        opens.len() == chunks.len() + 1,
        forall|i: int|
            0 <= i < chunks.len() ==> balance(#[trigger] chunks[i], mark, opens[i]) == Some(
                opens[i + 1],
            ),
    ensures
        balance(joined(chunks, n), mark, opens[0]) == Some(opens[n]),
    decreases n,
{
    if n > 0 {
        lemma_balance_over_a_run(chunks, mark, opens, n - 1);
        lemma_balance_concat(joined(chunks, n - 1), chunks[n - 1], mark, opens[0]);
    }
}

/// The brackets with identifier 0 alone open, or none.
pub open spec fn single(open: bool) -> Multiset<int> {
    if open {
        Multiset::<int>::empty().insert(0)
    } else {
        Multiset::<int>::empty()
    }
}

/// The bracket with identifier `id` alone open, or none.
pub open spec fn only(id: Option<int>) -> Multiset<int> {
    match id {
        Some(id) => Multiset::<int>::empty().insert(id),
        None => Multiset::<int>::empty(),
    }
}

/// The brackets of a process after effects of which at most the last one
/// marks a process, and then its end.
proof fn lemma_process_ends_last<K>(effects: Seq<Effect<K>>, was_running: bool, ends: bool)
    requires
        ends ==> was_running && effects.len() > 0 && effects.last() == Effect::<K>::Record(
            Event::ProcessEnd,
        ),
        forall|i: int|
            0 <= i < effects.len() - (if ends {
                1int
            } else {
                0int
            }) ==> mark_of_effect(Bracket::Process, #[trigger] effects[i]) is Passes,
    ensures
        balance_of_effects(effects, Bracket::Process, single(was_running)) == Some(
            single(was_running && !ends),
        ),
{
    let mark = |e: Effect<K>| mark_of_effect(Bracket::Process, e);
    if ends {
        lemma_balance_one(effects, mark, single(true), effects.len() - 1);
        assert(single(true).remove(0) =~= single(false));
    } else {
        lemma_balance_passes(effects, mark, single(was_running));
    }
}

/// Event bracketing at the start of a stage: the report of the beginning of
/// its process opens the bracket of the process.
pub proof fn lemma_start_brackets<K>(effects: Seq<Effect<K>>)
    requires
        effects =~= seq![Effect::Record(Event::ProcessBegin)],
    ensures
        balance_of_effects(effects, Bracket::Process, single(false)) == Some(single(true)),
{
    lemma_balance_one(effects, |e: Effect<K>| mark_of_effect(Bracket::Process, e), single(false), 0);
}

/// Whether an initializer in `phase` has begun its process and not ended it.
pub open spec fn initializer_runs(phase: InitializerPhase) -> bool {
    phase != InitializerPhase::Created && phase != InitializerPhase::Stopped
}

/// Event bracketing for the initializer: the events of every step keep the
/// bracket of its process in order. It is open exactly while the initializer
/// runs: opened when it is started, closed when it stops, and never opened
/// again.
pub proof fn lemma_initializer_brackets(phase: InitializerPhase, reply: InitializerReply)
    ensures
        balance_of_events(
            initializer_first(phase).1,
            Bracket::Process,
            single(initializer_runs(phase)),
        ) == Some(single(initializer_runs(initializer_first(phase).0))),
        balance_of_events(
            initializer_next(phase, reply).1,
            Bracket::Process,
            single(initializer_runs(phase)),
        ) == Some(single(initializer_runs(initializer_next(phase, reply).0))),
{
    let mark = |e: Event| mark_of_event(Bracket::Process, e);
    let first = initializer_first(phase).1;
    let next = initializer_next(phase, reply).1;
    assert(single(true).remove(0) =~= single(false));
    if first.len() > 0 {
        lemma_balance_one(first, mark, single(initializer_runs(phase)), 0);
    }
    if next.len() > 0 {
        lemma_balance_one(next, mark, single(initializer_runs(phase)), 0);
    }
}

impl<K> SimpleMapper<K> {
    /// Whether the mapper has begun its process and not ended it.
    pub open spec fn runs(self) -> bool {
        self.phase != MapperPhase::Created && self.phase != MapperPhase::Stopped
    }

    /// Whether the mapper searches for a free group.
    pub open spec fn searches(self) -> bool {
        self.phase == MapperPhase::AwaitingGroup || self.phase == MapperPhase::DrainingGroups
    }
}

/// Event bracketing for the simple mapper: the effects of every step keep the
/// bracket of its process in order, and, where the step answers what the
/// mapper asked for, the bracket of the search for a free group: it is open
/// exactly while the mapper waits for a group or collects the groups at hand.
pub proof fn lemma_simple_mapper_brackets<K>(
    pre: SimpleMapper<K>,
    reply: SimpleReply<K>,
    post: SimpleMapper<K>,
    step: Step<K, MapperRequest>,
)
    requires
        pre.wf(),
        SimpleMapper::resumes(pre, reply, post, step),
    ensures
        balance_of_effects(step.effects@, Bracket::Process, single(pre.runs())) == Some(
            single(post.runs()),
        ),
        SimpleMapper::<K>::expects(pre.phase, reply) ==> balance_of_effects(
            step.effects@,
            Bracket::GroupSearch,
            single(pre.searches()),
        ) == Some(single(post.searches())),
{
    let effects = step.effects@;
    let search = |e: Effect<K>| mark_of_effect(Bracket::GroupSearch, e);
    assert(single(true).remove(0) =~= single(false));
    assert(single(false).insert(0) =~= single(true));
    let ends = pre.runs() && !post.runs();
    match (pre.phase, reply) {
        (MapperPhase::AwaitingInput, SimpleReply::Input(Some(item))) => {
            if pre.groups@.len() > 0 {
                assert(effects[0] == effects.subrange(0, 2)[0]);
                assert(effects[1] == effects.subrange(0, 2)[1]);
                lemma_process_ends_last(effects, true, false);
                lemma_balance_two(effects, search, single(false), 0, 1);
            } else {
                lemma_process_ends_last(effects, true, false);
                lemma_balance_one(effects, search, single(false), 0);
            }
        },
        (MapperPhase::AwaitingGroup, SimpleReply::Group(Some(group))) => {
            lemma_process_ends_last(effects, true, false);
            lemma_balance_passes(effects, search, single(true));
        },
        (MapperPhase::DrainingGroups, SimpleReply::Group(Some(group))) => {
            lemma_process_ends_last(effects, true, false);
            lemma_balance_passes(effects, search, single(true));
        },
        (MapperPhase::DrainingGroups, SimpleReply::Group(None)) => {
            assert(effects[0] == effects.subrange(0, 1)[0]);
            lemma_process_ends_last(effects, true, false);
            lemma_balance_one(effects, search, single(true), 0);
        },
        (MapperPhase::Filling, SimpleReply::Input(Some(item))) => {
            lemma_process_ends_last(effects, true, false);
            lemma_balance_passes(effects, search, single(false));
        },
        (MapperPhase::Filling, SimpleReply::Input(None)) => {
            lemma_process_ends_last(effects, true, true);
            lemma_balance_passes(effects, search, single(false));
        },
        _ => {
            lemma_process_ends_last(effects, pre.runs(), ends);
            if SimpleMapper::<K>::expects(pre.phase, reply) {
                lemma_balance_passes(effects, search, single(false));
            }
        },
    }
}

impl<K> InputLoader<K> {
    /// Whether the loader has begun its process and not ended it.
    pub open spec fn runs(self) -> bool {
        self.phase != LoaderPhase::Created && self.phase != LoaderPhase::Stopped
    }

    /// The identifier of the group that is being loaded.
    pub open spec fn loads(self) -> Option<int> {
        match self.current {
            Some(job) => Some(job.0.id as int),
            None => None,
        }
    }
}

/// Event bracketing for the loader: the effects of every step keep the
/// bracket of its process in order, and, where the step answers what the
/// loader asked for, the bracket of the loading of a group: it is open
/// exactly while a batch is at hand, under the identifier of its group.
pub proof fn lemma_loader_brackets<K>(
    pre: InputLoader<K>,
    reply: LoaderReply<K>,
    post: InputLoader<K>,
    step: Step<K, LoaderRequest>,
)
    requires
        pre.wf(),
        InputLoader::resumes(pre, reply, post, step),
    ensures
        balance_of_effects(step.effects@, Bracket::Process, single(pre.runs())) == Some(
            single(post.runs()),
        ),
        InputLoader::<K>::expects(pre.phase, reply) ==> balance_of_effects(
            step.effects@,
            Bracket::GroupLoading,
            only(pre.loads()),
        ) == Some(only(post.loads())),
{
    let effects = step.effects@;
    let loading = |e: Effect<K>| mark_of_effect(Bracket::GroupLoading, e);
    let ends = pre.runs() && !post.runs();
    let open = only(pre.loads());
    let none = only(None);
    if !InputLoader::<K>::expects(pre.phase, reply) {
        lemma_process_ends_last(effects, pre.runs(), ends);
    } else {
        match (pre.phase, reply) {
            (LoaderPhase::AwaitingTransfer, LoaderReply::Transfer(Some(transfer))) => {
                let id = transfer.0.id as int;
                assert(none.insert(id).remove(id) =~= none);
                assert(effects[0] == effects.subrange(0, 1)[0]);
                lemma_process_ends_last(effects, true, false);
                if post.current is Some {
                    lemma_balance_one(effects, loading, open, 0);
                } else {
                    lemma_balance_two(effects, loading, open, 0, 1);
                }
            },
            (LoaderPhase::AwaitingTransfer, LoaderReply::Transfer(None)) => {
                lemma_process_ends_last(effects, true, true);
                lemma_balance_passes(effects, loading, open);
            },
            (_, LoaderReply::Done(Ok(_))) => {
                let id = pre.current.unwrap().0.id as int;
                assert(none.insert(id).remove(id) =~= none);
                lemma_process_ends_last(effects, true, false);
                if post.current is Some {
                    lemma_balance_passes(effects, loading, open);
                } else {
                    lemma_balance_one(effects, loading, open, 0);
                }
            },
            (_, LoaderReply::Done(Err(err))) => {
                let id = pre.current.unwrap().0.id as int;
                assert(none.insert(id).remove(id) =~= none);
                lemma_process_ends_last(effects, true, false);
                lemma_balance_one(effects, loading, open, 0);
            },
            _ => {},
        }
    }
}

impl<K> OutputFetcher<K> {
    /// Whether the fetcher has begun its process and not ended it.
    pub open spec fn runs(self) -> bool {
        self.phase != FetcherPhase::Created && self.phase != FetcherPhase::Stopped
    }

    /// The identifier of the group whose results are being fetched.
    pub open spec fn fetches(self) -> Option<int> {
        match self.current {
            Some(job) => Some(job.0.id as int),
            None => None,
        }
    }
}

/// Event bracketing for the fetcher: the effects of every step keep the
/// bracket of its process in order, and, where the step answers what the
/// fetcher asked for, the bracket of the fetching of a group's results: it
/// is open exactly while a job is at hand, under the identifier of its group.
pub proof fn lemma_fetcher_brackets<K>(
    pre: OutputFetcher<K>,
    reply: FetcherReply<K>,
    post: OutputFetcher<K>,
    step: Step<K, FetcherRequest>,
)
    requires
        pre.wf(),
        OutputFetcher::resumes(pre, reply, post, step),
    ensures
        balance_of_effects(step.effects@, Bracket::Process, single(pre.runs())) == Some(
            single(post.runs()),
        ),
        OutputFetcher::<K>::expects(pre.phase, reply) ==> balance_of_effects(
            step.effects@,
            Bracket::OutputFetching,
            only(pre.fetches()),
        ) == Some(only(post.fetches())),
{
    let effects = step.effects@;
    let fetching = |e: Effect<K>| mark_of_effect(Bracket::OutputFetching, e);
    let ends = pre.runs() && !post.runs();
    let open = only(pre.fetches());
    let none = only(None);
    if !OutputFetcher::<K>::expects(pre.phase, reply) {
        lemma_process_ends_last(effects, pre.runs(), ends);
    } else {
        match (pre.phase, reply) {
            (FetcherPhase::AwaitingJob, FetcherReply::Job(Some(job))) => {
                assert forall|i: int| 1 <= i < effects.len() implies (#[trigger] effects[i]) matches Effect::Record(
                    Event::OutputFetchingInfo { .. },
                ) by {
                    assert(effects[(i - 1) + 1] is Record);
                }
                lemma_process_ends_last(effects, true, false);
                lemma_balance_one(effects, fetching, open, 0);
            },
            (FetcherPhase::AwaitingJob, FetcherReply::Job(None)) => {
                lemma_process_ends_last(effects, true, true);
                lemma_balance_passes(effects, fetching, open);
            },
            (FetcherPhase::Copying, FetcherReply::Copied(Ok(filled))) => {
                let id = pre.current.unwrap().0.id as int;
                assert(none.insert(id).remove(id) =~= none);
                assert forall|i: int| 1 <= i < effects.len() - 1 implies (#[trigger] effects[i]) is Output by {
                    assert(effects[(i - 1) + 1] is Output);
                }
                lemma_process_ends_last(effects, true, false);
                lemma_balance_one(effects, fetching, open, effects.len() - 1);
            },
            (FetcherPhase::Copying, FetcherReply::Copied(Err(err))) => {
                let id = pre.current.unwrap().0.id as int;
                assert(none.insert(id).remove(id) =~= none);
                lemma_process_ends_last(effects, true, false);
                lemma_balance_one(effects, fetching, open, 0);
            },
            _ => {},
        }
    }
}

/// The identifiers of the groups of `jobs`, each as often as it occurs.
pub open spec fn followed<K>(jobs: Seq<GroupJob<K>>) -> Multiset<int>
    decreases jobs.len(),
{
    if jobs.len() == 0 {
        Multiset::empty()
    } else {
        followed(jobs.drop_last()).insert(jobs.last().0.id as int)
    }
}

/// A job that is taken away takes its identifier with it.
proof fn lemma_followed_remove<K>(jobs: Seq<GroupJob<K>>, at: int)
    requires
        0 <= at < jobs.len(),
    ensures
        followed(jobs).count(jobs[at].0.id as int) > 0,
        followed(jobs.remove(at)) == followed(jobs).remove(jobs[at].0.id as int),
    decreases jobs.len(),
{
    let id = jobs[at].0.id as int;
    if at == jobs.len() - 1 {
        assert(jobs.remove(at) =~= jobs.drop_last());
        assert(followed(jobs.drop_last()).insert(id).remove(id) =~= followed(jobs.drop_last()));
    } else {
        let last = jobs.last().0.id as int;
        lemma_followed_remove(jobs.drop_last(), at);
        assert(jobs.remove(at).drop_last() =~= jobs.drop_last().remove(at));
        assert(jobs.remove(at).last() == jobs.last());
        assert(followed(jobs.drop_last()).remove(id).insert(last) =~= followed(
            jobs.drop_last(),
        ).insert(last).remove(id));
    }
}

impl<K> ExecutionTracker<K> {
    /// Whether the tracker has begun its process and not ended it.
    pub open spec fn runs(self) -> bool {
        self.phase != TrackerPhase::Created && self.phase != TrackerPhase::Stopped
    }
}

/// Event bracketing for the tracker: the effects of every step keep the
/// bracket of its process in order, and, where the step answers what the
/// tracker asked for, the brackets of the tracking of jobs: those that are
/// open are exactly those of the running jobs, each under the identifier of
/// its group.
pub proof fn lemma_tracker_brackets<K>(
    pre: ExecutionTracker<K>,
    reply: TrackerReply<K>,
    post: ExecutionTracker<K>,
    step: Step<K, TrackerRequest>,
)
    requires
        pre.wf(),
        ExecutionTracker::resumes(pre, reply, post, step),
    ensures
        balance_of_effects(step.effects@, Bracket::Process, single(pre.runs())) == Some(
            single(post.runs()),
        ),
        ExecutionTracker::<K>::expects(pre.phase, reply) ==> balance_of_effects(
            step.effects@,
            Bracket::JobExecutionTracking,
            followed(pre.pending@),
        ) == Some(followed(post.pending@)),
{
    let effects = step.effects@;
    let tracking = |e: Effect<K>| mark_of_effect(Bracket::JobExecutionTracking, e);
    let ends = pre.runs() && !post.runs();
    let open = followed(pre.pending@);
    if !ExecutionTracker::<K>::expects(pre.phase, reply) {
        lemma_process_ends_last(effects, pre.runs(), ends);
    } else {
        match (pre.phase, reply) {
            (TrackerPhase::Collecting, TrackerReply::Job(Some(job))) => {
                let id = job.0.id as int;
                lemma_process_ends_last(effects, true, false);
                if job.0.active().len() > 0 {
                    assert(pre.pending@.push(job).drop_last() =~= pre.pending@);
                    lemma_balance_one(effects, tracking, open, 0);
                } else {
                    assert(open.insert(id).remove(id) =~= open);
                    lemma_balance_two(effects, tracking, open, 0, 1);
                }
            },
            (TrackerPhase::Collecting, TrackerReply::Job(None)) => {
                lemma_process_ends_last(effects, true, false);
                lemma_balance_passes(effects, tracking, open);
            },
            (TrackerPhase::Collecting, TrackerReply::Closed) => {
                lemma_process_ends_last(effects, true, pre.pending@.len() == 0);
                lemma_balance_passes(effects, tracking, open);
            },
            (TrackerPhase::Sleeping, TrackerReply::Woken) => {
                lemma_process_ends_last(effects, true, false);
                lemma_balance_passes(effects, tracking, open);
            },
            (TrackerPhase::Polling, TrackerReply::Status(Err(err))) => {
                lemma_followed_remove(pre.pending@, pre.cursor as int);
                lemma_process_ends_last(effects, true, false);
                lemma_balance_one(effects, tracking, open, 0);
            },
            (TrackerPhase::Polling, TrackerReply::Status(Ok(status))) => {
                let merged = merge(pre.status@, status@);
                lemma_followed_remove(pre.pending@, pre.cursor as int);
                if pre.polled + 1 < pre.dpus@.len() {
                    lemma_process_ends_last(effects, true, false);
                    lemma_balance_passes(effects, tracking, open);
                } else {
                    match merged {
                        Status::Running => {
                            lemma_process_ends_last(effects, true, false);
                            lemma_balance_passes(effects, tracking, open);
                        },
                        Status::Idle => {
                            lemma_process_ends_last(effects, true, false);
                            lemma_balance_one(effects, tracking, open, 0);
                        },
                        Status::Fault(faults) => {
                            let reports = effects.subrange(0, faults.len() as int + 1);
                            assert(effects =~= reports);
                            assert forall|i: int| 1 <= i < effects.len() implies (
                            #[trigger] effects[i]) is Output by {
                                assert(reports[(i - 1) + 1] == effects[i]);
                            }
                            lemma_process_ends_last(effects, true, false);
                            lemma_balance_one(effects, tracking, open, 0);
                        },
                    }
                }
            },
            _ => {},
        }
    }
}

impl<K, D: Hash + Eq> PersistentMapper<K, D> {
    /// Whether the mapper has begun its process and not ended it.
    pub open spec fn runs(self) -> bool {
        self.phase != PersistentPhase::Created && self.phase != PersistentPhase::Stopped
    }
}

/// Event bracketing for the persistent mapper: the effects of every step keep
/// the bracket of its process in order. It is open exactly while the mapper
/// runs.
pub proof fn lemma_persistent_mapper_brackets<K, D: Hash + Eq>(
    pre: PersistentMapper<K, D>,
    reply: PersistentReply<K, D>,
    post: PersistentMapper<K, D>,
    step: Step<K, PersistentRequest>,
)
    requires
        pre.wf(),
        PersistentMapper::resumes(pre, reply, post, step),
    ensures
        balance_of_effects(step.effects@, Bracket::Process, single(pre.runs())) == Some(
            single(post.runs()),
        ),
{
    let effects = step.effects@;
    let ends = pre.runs() && !post.runs();
    match (pre.phase, reply) {
        (PersistentPhase::AwaitingInput, PersistentReply::Input(Some(input))) => {
            match PersistentMapper::route(pre, input.0) {
                Some((g, d)) => {
                    let mid = choose|mid: GroupSlots<K>|
                        {
                            &&& #[trigger] pre.table@[g].deposited(d, input.1, mid)
                            &&& PersistentMapper::<K, D>::sends(
                                mid,
                                mid.present && mid.complete(),
                                post.table@[g],
                                effects,
                            )
                        };
                },
                None => {},
            }
            lemma_process_ends_last(effects, true, false);
        },
        (PersistentPhase::AwaitingInput, PersistentReply::Input(None)) => {
            let leaving = flush_indices(pre.table@);
            let sent = effects.subrange(0, leaving.len() as int);
            assert forall|i: int| 0 <= i < leaving.len() implies (#[trigger] effects[i]) is Transfer by {}
            assert(sent.len() == leaving.len());
            if ends {
                assert(effects =~= sent.push(Effect::Record(Event::ProcessEnd)));
            } else {
                assert(effects =~= sent);
            }
            lemma_process_ends_last(effects, true, ends);
        },
        (PersistentPhase::Polling, PersistentReply::Group(Some(group))) => {
            lemma_entry_of_group(pre.table@, group.id);
            match PersistentMapper::returning(pre, group) {
                Some(g) => {
                    let mid = choose|mid: GroupSlots<K>|
                        {
                            &&& #[trigger] pre.table@[g].refilled(mid)
                            &&& PersistentMapper::<K, D>::sends(
                                mid,
                                mid.complete(),
                                post.table@[g],
                                effects,
                            )
                        };
                },
                None => {},
            }
            lemma_process_ends_last(effects, true, false);
        },
        (PersistentPhase::Flushing, PersistentReply::Group(Some(group))) => {
            lemma_entry_of_group(pre.table@, group.id);
            match PersistentMapper::returning(pre, group) {
                Some(g) => {
                    let n = PersistentMapper::sent_back(pre, post, g);
                    let sent = effects.subrange(0, n);
                    let mid = choose|mid: GroupSlots<K>|
                        {
                            &&& #[trigger] pre.table@[g].refilled(mid)
                            &&& PersistentMapper::<K, D>::sends(
                                mid,
                                mid.started(),
                                post.table@[g],
                                sent,
                            )
                        };
                    assert forall|i: int| 0 <= i < n implies (#[trigger] effects[i]) is Transfer by {
                        assert(sent[i] == effects[i]);
                    }
                    if ends {
                        assert(effects =~= sent.push(Effect::Record(Event::ProcessEnd)));
                    } else {
                        assert(effects =~= sent);
                    }
                },
                None => {},
            }
            lemma_process_ends_last(effects, true, ends);
        },
        (PersistentPhase::Loading, PersistentReply::Copied(Err(err))) => {
            lemma_process_ends_last(effects, true, true);
        },
        _ => {
            lemma_process_ends_last(effects, pre.runs(), ends);
        },
    }
}

} // verus!
