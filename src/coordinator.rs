use vstd::prelude::*;

verus! {

/// How long, in milliseconds, the coordinator waits after the first item of
/// a burst before it looks for newer ones.
pub const DEBOUNCE_MS: u64 = 5;

/// Where the coordinator's loop stands. The item held in a phase is the
/// candidate of the current turn: the newest submission seen so far.
pub enum Phase<T> {
    /// Waiting for a submission.
    Idle,
    /// Holding a candidate while the debounce interval runs.
    Debouncing(T),
    /// Taking newer submissions without waiting; each replaces the candidate.
    Draining(T),
    /// The candidate of the turn has been handed out and runs.
    Running,
    /// The queue was closed: nothing more will run.
    Stopped,
}

/// What happened since the last step.
pub enum CoordinatorEvent<T> {
    /// A submission arrived while waiting.
    Received(T),
    /// The queue was closed while waiting.
    QueueClosed,
    /// The debounce interval is over.
    DebounceElapsed,
    /// A look at the queue without waiting: the next submission, if any.
    Polled(Option<T>),
    /// The running item has completed.
    Finished,
}

/// What the loop must do next.
pub enum CoordinatorAction<T> {
    /// Wait for the next submission.
    Receive,
    /// Wait this many milliseconds.
    Sleep(u64),
    /// Take the next submission if one is there, without waiting.
    Poll,
    /// Run this item to completion.
    Execute(T),
    /// Leave the loop.
    Stop,
}

/// Whether `e` can occur in phase `p`.
pub open spec fn accepts_spec<T>(p: Phase<T>, e: CoordinatorEvent<T>) -> bool {
    match p {
        Phase::Idle => e is Received || e is QueueClosed,
        Phase::Debouncing(_) => e is DebounceElapsed,
        Phase::Draining(_) => e is Polled,
        Phase::Running => e is Finished,
        Phase::Stopped => false,
    }
}

/// The phase after event `e`, and the action it calls for.
pub open spec fn step_spec<T>(p: Phase<T>, e: CoordinatorEvent<T>) -> (Phase<T>, CoordinatorAction<T>) {
    match (p, e) {
        (Phase::Idle, CoordinatorEvent::Received(w)) => (Phase::Debouncing(w), CoordinatorAction::Sleep(
            DEBOUNCE_MS,
        )),
        (Phase::Debouncing(w), CoordinatorEvent::DebounceElapsed) => (
            Phase::Draining(w),
            CoordinatorAction::Poll,
        ),
        (Phase::Draining(_), CoordinatorEvent::Polled(Some(newer))) => (
            Phase::Draining(newer),
            CoordinatorAction::Poll,
        ),
        (Phase::Draining(w), CoordinatorEvent::Polled(None)) => (
            Phase::Running,
            CoordinatorAction::Execute(w),
        ),
        (Phase::Running, CoordinatorEvent::Finished) => (Phase::Idle, CoordinatorAction::Receive),
        _ => (Phase::Stopped, CoordinatorAction::Stop),
    }
}

/// Whether every event of `events` is accepted in turn, starting in `p`.
pub open spec fn run_accepted<T>(p: Phase<T>, events: Seq<CoordinatorEvent<T>>) -> bool
    decreases events.len(),
{
    events.len() == 0 || (accepts_spec(p, events[0]) && run_accepted(
        step_spec(p, events[0]).0,
        events.drop_first(),
    ))
}

/// The phase after `events`, starting in `p`.
pub open spec fn run_phase<T>(p: Phase<T>, events: Seq<CoordinatorEvent<T>>) -> Phase<T>
    decreases events.len(),
{
    if events.len() == 0 {
        p
    } else {
        run_phase(step_spec(p, events[0]).0, events.drop_first())
    }
}

/// The actions called for by `events`, in order, starting in `p`.
pub open spec fn run_actions<T>(p: Phase<T>, events: Seq<CoordinatorEvent<T>>) -> Seq<
    CoordinatorAction<T>,
>
    decreases events.len(),
{
    if events.len() == 0 {
        Seq::empty()
    } else {
        seq![step_spec(p, events[0]).1] + run_actions(step_spec(p, events[0]).0, events.drop_first())
    }
}

/// The items that `actions` run, in order.
pub open spec fn executed<T>(actions: Seq<CoordinatorAction<T>>) -> Seq<T>
    decreases actions.len(),
{
    if actions.len() == 0 {
        Seq::empty()
    } else {
        let rest = executed(actions.drop_first());
        match actions[0] {
            CoordinatorAction::Execute(w) => seq![w] + rest,
            _ => rest,
        }
    }
}

/// The looks at the queue that find `items`, in order.
pub open spec fn polled_all<T>(items: Seq<T>) -> Seq<CoordinatorEvent<T>> {
    items.map_values(|w: T| CoordinatorEvent::Polled(Some(w)))
}

/// The events of one turn whose burst is `items`: the first arrives while
/// the loop waits, the others while the debounce interval runs, and the
/// newest one then runs to completion.
pub open spec fn burst_turn<T>(items: Seq<T>) -> Seq<CoordinatorEvent<T>> {
    seq![CoordinatorEvent::Received(items[0]), CoordinatorEvent::DebounceElapsed] + polled_all(
        items.drop_first(),
    ) + seq![CoordinatorEvent::Polled(None), CoordinatorEvent::Finished]
}

/// The events of consecutive turns, one burst each.
pub open spec fn turns_events<T>(bursts: Seq<Seq<T>>) -> Seq<CoordinatorEvent<T>>
    decreases bursts.len(),
{
    if bursts.len() == 0 {
        Seq::empty()
    } else {
        burst_turn(bursts[0]) + turns_events(bursts.drop_first())
    }
}

/// Running two sequences of events one after the other.
pub proof fn lemma_run_append<T>(
    p: Phase<T>,
    a: Seq<CoordinatorEvent<T>>,
    b: Seq<CoordinatorEvent<T>>,
)
    ensures
        run_accepted(p, a + b) == (run_accepted(p, a) && run_accepted(run_phase(p, a), b)),
        run_phase(p, a + b) == run_phase(run_phase(p, a), b),
        run_actions(p, a + b) == run_actions(p, a) + run_actions(run_phase(p, a), b),
    decreases a.len(),
{
    if a.len() == 0 {
        assert(a + b =~= b);
    } else {
        let q = step_spec(p, a[0]).0;
        assert((a + b).drop_first() =~= a.drop_first() + b);
        assert((a + b)[0] == a[0]);
        lemma_run_append(q, a.drop_first(), b);
        assert(run_actions(p, a + b) =~= run_actions(p, a) + run_actions(run_phase(p, a), b));
    }
}

/// The items run by two sequences of actions are those of the first, then
/// those of the second.
pub proof fn lemma_executed_append<T>(x: Seq<CoordinatorAction<T>>, y: Seq<CoordinatorAction<T>>)
    ensures
        executed(x + y) == executed(x) + executed(y),
    decreases x.len(),
{
    if x.len() == 0 {
        assert(x + y =~= y);
        assert(executed(x) + executed(y) =~= executed(y));
    } else {
        assert((x + y).drop_first() =~= x.drop_first() + y);
        assert((x + y)[0] == x[0]);
        lemma_executed_append(x.drop_first(), y);
        assert(executed(x + y) =~= executed(x) + executed(y));
    }
}

/// Draining `rest` while holding `w`, then finding the queue empty, runs
/// only the newest of them.
proof fn lemma_drain<T>(w: T, rest: Seq<T>)
    ensures
        ({
            let ev = polled_all(rest) + seq![CoordinatorEvent::Polled(None)];
            &&& run_accepted(Phase::Draining(w), ev)
            &&& run_phase(Phase::Draining(w), ev) == Phase::<T>::Running
            &&& executed(run_actions(Phase::Draining(w), ev)) == seq![(seq![w] + rest).last()]
        }),
    decreases rest.len(),
{
    reveal_with_fuel(run_accepted, 3);
    reveal_with_fuel(run_phase, 3);
    reveal_with_fuel(run_actions, 3);
    reveal_with_fuel(executed, 3);
    let ev = polled_all(rest) + seq![CoordinatorEvent::Polled(None)];
    if rest.len() == 0 {
        assert(ev =~= seq![CoordinatorEvent::Polled(None)]);
        assert(ev.drop_first() =~= Seq::<CoordinatorEvent<T>>::empty());
        let acts = run_actions(Phase::Draining(w), ev);
        assert(acts.drop_first() =~= Seq::<CoordinatorAction<T>>::empty());
        assert(executed(acts) =~= seq![w]);
    } else {
        let v = rest[0];
        assert(ev[0] == CoordinatorEvent::Polled(Some(v)));
        assert(ev.drop_first() =~= polled_all(rest.drop_first()) + seq![CoordinatorEvent::Polled(None)]);
        lemma_drain(v, rest.drop_first());
        assert(seq![v] + rest.drop_first() =~= rest);
        assert((seq![w] + rest).last() == rest.last());
        let acts = run_actions(Phase::Draining(w), ev);
        assert(acts[0] == CoordinatorAction::<T>::Poll);
        assert(acts.drop_first() =~= run_actions(Phase::Draining(v), ev.drop_first()));
    }
}

/// A burst of submissions that all arrive before the debounce interval of
/// the first is over runs exactly once: only the last submission runs, the
/// earlier ones never do, and the loop then waits again.
pub proof fn lemma_single_flight<T>(items: Seq<T>)
    requires
        items.len() >= 1,
    ensures
        run_accepted(Phase::Idle, burst_turn(items)),
        run_phase(Phase::Idle, burst_turn(items)) == Phase::<T>::Idle,
        executed(run_actions(Phase::Idle, burst_turn(items))) == seq![items.last()],
{
    reveal_with_fuel(run_accepted, 3);
    reveal_with_fuel(run_phase, 3);
    reveal_with_fuel(run_actions, 3);
    reveal_with_fuel(executed, 3);
    let head = seq![CoordinatorEvent::Received(items[0]), CoordinatorEvent::DebounceElapsed];
    let drain = polled_all(items.drop_first()) + seq![CoordinatorEvent::Polled(None)];
    let tail = seq![CoordinatorEvent::<T>::Finished];
    assert(burst_turn(items) =~= head + (drain + tail));
    // The first two events lead to draining with the first item held.
    assert(head.drop_first().drop_first() =~= Seq::<CoordinatorEvent<T>>::empty());
    assert(head.drop_first()[0] == CoordinatorEvent::<T>::DebounceElapsed);
    assert(run_phase(Phase::Idle, head) == Phase::Draining(items[0]));
    assert(run_accepted(Phase::Idle, head));
    let ha = run_actions(Phase::Idle, head);
    assert(ha =~= seq![CoordinatorAction::Sleep(DEBOUNCE_MS), CoordinatorAction::Poll]);
    assert(ha.drop_first().drop_first() =~= Seq::<CoordinatorAction<T>>::empty());
    assert(executed(ha) =~= Seq::<T>::empty());
    lemma_drain(items[0], items.drop_first());
    assert(seq![items[0]] + items.drop_first() =~= items);
    // Then the run completes and the loop waits again.
    assert(tail.drop_first() =~= Seq::<CoordinatorEvent<T>>::empty());
    let ta = run_actions(Phase::<T>::Running, tail);
    assert(ta.drop_first() =~= Seq::<CoordinatorAction<T>>::empty());
    assert(executed(ta) =~= Seq::<T>::empty());
    lemma_run_append(Phase::Draining(items[0]), drain, tail);
    lemma_run_append(Phase::Idle, head, drain + tail);
    lemma_executed_append(run_actions(Phase::Draining(items[0]), drain), ta);
    lemma_executed_append(ha, run_actions(Phase::Draining(items[0]), drain + tail));
    assert(executed(run_actions(Phase::Idle, burst_turn(items))) =~= seq![items.last()]);
}

/// Bursts separated by more than the debounce interval each get a turn of
/// their own: the last submission of every burst runs once, in the order
/// of the bursts, and nothing else runs.
pub proof fn lemma_turns<T>(bursts: Seq<Seq<T>>)
    requires
        forall|i: int| 0 <= i < bursts.len() ==> (#[trigger] bursts[i]).len() >= 1,
    ensures
        run_accepted(Phase::Idle, turns_events(bursts)),
        run_phase(Phase::Idle, turns_events(bursts)) == Phase::<T>::Idle,
        executed(run_actions(Phase::Idle, turns_events(bursts))) == bursts.map_values(
            |b: Seq<T>| b.last(),
        ),
    decreases bursts.len(),
{
    if bursts.len() == 0 {
        assert(bursts.map_values(|b: Seq<T>| b.last()) =~= Seq::<T>::empty());
    } else {
        let first = burst_turn(bursts[0]);
        let rest = turns_events(bursts.drop_first());
        assert(bursts[0].len() >= 1);
        lemma_single_flight(bursts[0]);
        assert forall|i: int| 0 <= i < bursts.drop_first().len() implies (#[trigger] bursts.drop_first()[i]).len() >= 1 by {
            assert(bursts.drop_first()[i] == bursts[i + 1]);
        }
        lemma_turns(bursts.drop_first());
        lemma_run_append(Phase::Idle, first, rest);
        lemma_executed_append(run_actions(Phase::Idle, first), run_actions(Phase::Idle, rest));
        assert(bursts.map_values(|b: Seq<T>| b.last()) =~= seq![bursts[0].last()] + bursts.drop_first().map_values(|b: Seq<T>| b.last()));
    }
}

/// Two submissions separated by more than the debounce interval both run,
/// once each, in the order they were submitted.
pub proof fn lemma_turn_separation<T>(w1: T, w2: T)
    ensures
        ({
            let ev = burst_turn(seq![w1]) + burst_turn(seq![w2]);
            &&& run_accepted(Phase::Idle, ev)
            &&& executed(run_actions(Phase::Idle, ev)) == seq![w1, w2]
        }),
{
    let bursts = seq![seq![w1], seq![w2]];
    reveal_with_fuel(turns_events, 3);
    assert(bursts.drop_first() =~= seq![seq![w2]]);
    assert(bursts.drop_first().drop_first() =~= Seq::<Seq<T>>::empty());
    assert(turns_events(bursts) =~= burst_turn(seq![w1]) + burst_turn(seq![w2]));
    lemma_turns(bursts);
    assert(bursts.map_values(|b: Seq<T>| b.last()) =~= seq![w1, w2]);
}

/// The decisions of the debounced single-flight work loop: it waits for a
/// submission, lets a burst gather for the debounce interval, keeps only the
/// newest submission of the burst, runs it to completion, and starts over.
pub struct Coordinator<T> {
    phase: Phase<T>,
}

impl<T> View for Coordinator<T> {
    type V = Phase<T>;

    closed spec fn view(&self) -> Phase<T> {
        self.phase
    }
}

impl<T> Coordinator<T> {
    /// A coordinator waiting for its first submission.
    pub fn new() -> (r: Self)
        ensures
            r@ == Phase::<T>::Idle,
    {
        Coordinator { phase: Phase::Idle }
    }

    /// Whether `event` can occur now.
    pub fn accepts(&self, event: &CoordinatorEvent<T>) -> (r: bool)
        ensures
            r == accepts_spec(self@, *event),
    {
        match (&self.phase, event) {
            (Phase::Idle, CoordinatorEvent::Received(_)) => true,
            (Phase::Idle, CoordinatorEvent::QueueClosed) => true,
            (Phase::Debouncing(_), CoordinatorEvent::DebounceElapsed) => true,
            (Phase::Draining(_), CoordinatorEvent::Polled(_)) => true,
            (Phase::Running, CoordinatorEvent::Finished) => true,
            _ => false,
        }
    }

    /// Whether the loop is over.
    pub fn is_stopped(&self) -> (r: bool)
        ensures
            r == (self@ is Stopped),
    {
        match self.phase {
            Phase::Stopped => true,
            _ => false,
        }
    }

    /// Takes in what happened and says what to do next.
    pub fn step(&mut self, event: CoordinatorEvent<T>) -> (action: CoordinatorAction<T>)
        requires
            accepts_spec(old(self)@, event),
        ensures
            (final(self)@, action) == step_spec(old(self)@, event),
    {
        let mut phase = Phase::Stopped;
        std::mem::swap(&mut self.phase, &mut phase);
        match (phase, event) {
            (Phase::Idle, CoordinatorEvent::Received(w)) => {
                self.phase = Phase::Debouncing(w);
                CoordinatorAction::Sleep(DEBOUNCE_MS)
            },
            (Phase::Debouncing(w), CoordinatorEvent::DebounceElapsed) => {
                self.phase = Phase::Draining(w);
                CoordinatorAction::Poll
            },
            (Phase::Draining(_), CoordinatorEvent::Polled(Some(newer))) => {
                // The held candidate is superseded and dropped unrun.
                self.phase = Phase::Draining(newer);
                CoordinatorAction::Poll
            },
            (Phase::Draining(w), CoordinatorEvent::Polled(None)) => {
                self.phase = Phase::Running;
                CoordinatorAction::Execute(w)
            },
            (Phase::Running, CoordinatorEvent::Finished) => {
                self.phase = Phase::Idle;
                CoordinatorAction::Receive
            },
            _ => {
                self.phase = Phase::Stopped;
                CoordinatorAction::Stop
            },
        }
    }
}

} // verus!
