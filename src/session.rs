//! The decisions of the worker that owns the bus connection.
//!
//! The worker is driven from outside: whoever holds the connection and the
//! channel performs the action that `step` returns, and hands back what came
//! of it as the next event.

use vstd::prelude::*;
use crate::category::CategoryView;
use crate::command::{applied, Command, CommandError, Operation};
use crate::registry::{get_or_create_result, has_name, position_of, Registry};
use crate::value::Value;

verus! {

/// Where the worker stands.
#[derive(Clone, Copy, Debug, PartialEq, Eq, Structural)]
pub enum Phase {
    /// Nothing done yet: the bus connection is being opened.
    Created,
    /// The connection is open and the well-known name has been asked for.
    NameRequested,
    /// The name is held and the object tree built; it is not yet announced.
    Connected,
    /// The tree is being announced on the connection.
    Registering,
    /// The tree is announced and the service loop runs.
    Registered,
    /// The loop has ended after a shutdown.
    Stopped,
    /// A fatal error ended the worker.
    Failed,
}

/// A fatal error: the process cannot go on without the bus.
#[derive(Clone, Copy, Debug, PartialEq, Eq, Structural)]
pub enum Fatal {
    /// The bus could not be reached.
    BusUnreachable,
    /// The well-known name could not be had.
    NameRejected,
    /// The connection refused the object tree.
    RegistrationRejected,
}

/// What came of the last action, or what happened meanwhile.
#[derive(Debug)]
pub enum Event {
    /// The bus connection is open.
    BusOpened,
    /// The bus connection could not be opened.
    BusFailed,
    /// The well-known name was granted.
    NameAcquired,
    /// The well-known name was refused.
    NameFailed,
    /// The service loop is asked to start.
    Start,
    /// The connection accepted the object tree.
    TreeRegistered,
    /// The connection refused the object tree.
    TreeRejected,
    /// One bounded wait on the connection is over, and its bus events are served.
    PollDone,
    /// A command was taken from the channel.
    Received(Command),
    /// The channel holds no more commands for now.
    ChannelEmpty,
    /// Every sending half of the channel is gone.
    ChannelClosed,
    /// The owner of the worker asks it to stop.
    StopRequested,
}

/// What the driver is to do next.
#[derive(Clone, Copy, Debug, PartialEq, Eq, Structural)]
pub enum Action {
    /// Ask for the well-known name, allowing a later process to replace it.
    RequestName,
    /// Build the object tree, then send `Start` when the loop should run.
    BuildTree,
    /// Announce the object tree on the connection.
    Register,
    /// Wait a bounded time for bus events and serve them.
    Poll,
    /// Take the next command from the channel without blocking.
    Receive,
    /// Report a refused command, then take the next one without blocking.
    Report(CommandError),
    /// Withdraw the object tree and end the loop.
    Unregister,
    /// End the worker at once with a fatal error.
    Abort(Fatal),
    /// The event does not apply in this phase: nothing to do.
    Ignore,
}

/// The worker's phase and its registry.
pub ghost struct WorkerView {
    pub phase: Phase,
    pub registry: Seq<CategoryView>,
}

/// The next phase and action of a worker in phase `p` on event `e`.
pub open spec fn next(p: Phase, e: Event) -> (Phase, Action) {
    match p {
        Phase::Created => match e {
            Event::BusOpened => (Phase::NameRequested, Action::RequestName),
            Event::BusFailed => (Phase::Failed, Action::Abort(Fatal::BusUnreachable)),
            _ => (p, Action::Ignore),
        },
        Phase::NameRequested => match e {
            Event::NameAcquired => (Phase::Connected, Action::BuildTree),
            Event::NameFailed => (Phase::Failed, Action::Abort(Fatal::NameRejected)),
            _ => (p, Action::Ignore),
        },
        Phase::Connected => match e {
            Event::Start => (Phase::Registering, Action::Register),
            _ => (p, Action::Ignore),
        },
        Phase::Registering => match e {
            Event::TreeRegistered => (Phase::Registered, Action::Poll),
            Event::TreeRejected => (Phase::Failed, Action::Abort(Fatal::RegistrationRejected)),
            _ => (p, Action::Ignore),
        },
        Phase::Registered => match e {
            Event::PollDone => (p, Action::Receive),
            Event::Received(c) => (
                p,
                if c.category@.len() == 0 {
                    Action::Report(CommandError::EmptyCategoryName)
                } else {
                    Action::Receive
                },
            ),
            Event::ChannelEmpty => (p, Action::Poll),
            Event::ChannelClosed => (Phase::Stopped, Action::Unregister),
            Event::StopRequested => (Phase::Stopped, Action::Unregister),
            _ => (p, Action::Ignore),
        },
        Phase::Stopped => (p, Action::Ignore),
        Phase::Failed => (p, Action::Ignore),
    }
}

/// The worker after event `e`, and the action it asks for.
pub open spec fn transition(w: WorkerView, e: Event) -> (WorkerView, Action) {
    let (p, a) = next(w.phase, e);
    let registry = match e {
        Event::Received(c) => if w.phase == Phase::Registered {
            applied(w.registry, c)
        } else {
            w.registry
        },
        _ => w.registry,
    };
    (WorkerView { phase: p, registry }, a)
}

/// The worker: its phase and the registry that its commands change.
pub struct Worker {
    phase: Phase,
    registry: Registry,
}

impl View for Worker {
    type V = WorkerView;

    closed spec fn view(&self) -> WorkerView {
        WorkerView { phase: self.phase, registry: self.registry@ }
    }
}

impl Worker {
    /// The registry is well formed.
    pub closed spec fn wf(&self) -> bool {
        self.registry.wf()
    }

    /// A worker that has done nothing yet, with an empty registry.
    pub fn new() -> (r: Worker)
        ensures
            r.wf(),
            r@ == (WorkerView { phase: Phase::Created, registry: Seq::empty() }),
    {
        Worker { phase: Phase::Created, registry: Registry::new() }
    }

    /// The worker's phase.
    pub fn phase(&self) -> (r: Phase)
        ensures
            r == self@.phase,
    {
        self.phase
    }

    /// The registry.
    pub fn registry(&self) -> (r: &Registry)
        requires
            self.wf(),
        ensures
            r.wf(),
            r@ == self@.registry,
    {
        &self.registry
    }

    /// Takes in `event`, applying a received command to the registry while the
    /// loop runs, and returns the next action.
    pub fn step(&mut self, event: Event) -> (r: Action)
        requires
            old(self).wf(),
        ensures
            final(self).wf(),
            (final(self)@, r) == transition(old(self)@, event),
    {
        let ghost e = event;
        match self.phase {
            Phase::Created => match event {
                Event::BusOpened => {
                    self.phase = Phase::NameRequested;
                    Action::RequestName
                },
                Event::BusFailed => {
                    self.phase = Phase::Failed;
                    Action::Abort(Fatal::BusUnreachable)
                },
                _ => Action::Ignore,
            },
            Phase::NameRequested => match event {
                Event::NameAcquired => {
                    self.phase = Phase::Connected;
                    Action::BuildTree
                },
                Event::NameFailed => {
                    self.phase = Phase::Failed;
                    Action::Abort(Fatal::NameRejected)
                },
                _ => Action::Ignore,
            },
            Phase::Connected => match event {
                Event::Start => {
                    self.phase = Phase::Registering;
                    Action::Register
                },
                _ => Action::Ignore,
            },
            Phase::Registering => match event {
                Event::TreeRegistered => {
                    self.phase = Phase::Registered;
                    Action::Poll
                },
                Event::TreeRejected => {
                    self.phase = Phase::Failed;
                    Action::Abort(Fatal::RegistrationRejected)
                },
                _ => Action::Ignore,
            },
            Phase::Registered => match event {
                Event::PollDone => Action::Receive,
                Event::Received(c) => match self.registry.apply(c) {
                    Ok(()) => Action::Receive,
                    Err(err) => Action::Report(err),
                },
                Event::ChannelEmpty => Action::Poll,
                Event::ChannelClosed => {
                    self.phase = Phase::Stopped;
                    Action::Unregister
                },
                Event::StopRequested => {
                    self.phase = Phase::Stopped;
                    Action::Unregister
                },
                _ => Action::Ignore,
            },
            Phase::Stopped => Action::Ignore,
            Phase::Failed => Action::Ignore,
        }
    }
}

/// The worker after `events` one after another, and the actions it asked for.
pub open spec fn run(w: WorkerView, events: Seq<Event>) -> (WorkerView, Seq<Action>)
    decreases events.len(),
{
    if events.len() == 0 {
        (w, Seq::empty())
    } else {
        let (w1, acts) = run(w, events.drop_last());
        let (w2, a) = transition(w1, events.last());
        (w2, acts.push(a))
    }
}

/// The categories after each of `cmds` is applied in order.
pub open spec fn applied_all(s: Seq<CategoryView>, cmds: Seq<Command>) -> Seq<CategoryView>
    decreases cmds.len(),
{
    if cmds.len() == 0 {
        s
    } else {
        applied(applied_all(s, cmds.drop_last()), cmds.last())
    }
}

/// Each of `cmds`, received in order.
pub open spec fn received_events(cmds: Seq<Command>) -> Seq<Event> {
    cmds.map_values(|c: Command| Event::Received(c))
}

/// The events of one drain of the channel: each command in order, then the
/// channel found empty.
pub open spec fn drain_events(cmds: Seq<Command>) -> Seq<Event> {
    received_events(cmds).push(Event::ChannelEmpty)
}

/// Commands received while the loop runs are applied one after another, in
/// order.
proof fn lemma_run_received(w: WorkerView, cmds: Seq<Command>)
    requires
        w.phase == Phase::Registered,
    ensures
        run(w, received_events(cmds)).0 == (WorkerView {
            phase: Phase::Registered,
            registry: applied_all(w.registry, cmds),
        }),
        run(w, received_events(cmds)).1.len() == cmds.len(),
        forall|i: int| 0 <= i < cmds.len() ==> #[trigger] run(w, received_events(cmds)).1[i]
            != Action::Poll,
    decreases cmds.len(),
{
    let evs = received_events(cmds);
    if cmds.len() > 0 {
        let t = cmds.drop_last();
        assert(evs.drop_last() =~= received_events(t));
        lemma_run_received(w, t);
    }
}

/// With N commands waiting in the channel and no bus activity, one drain
/// applies all N in order, so that each key holds its last write, without a
/// poll in between; the loop polls again only once the channel is empty.
pub proof fn lemma_drain_applies_all(w: WorkerView, cmds: Seq<Command>)
    requires
        w.phase == Phase::Registered,
    ensures
        run(w, drain_events(cmds)).0 == (WorkerView {
            phase: Phase::Registered,
            registry: applied_all(w.registry, cmds),
        }),
        run(w, drain_events(cmds)).1.len() == cmds.len() + 1,
        forall|i: int| 0 <= i < cmds.len() ==> #[trigger] run(w, drain_events(cmds)).1[i]
            != Action::Poll,
        run(w, drain_events(cmds)).1[cmds.len() as int] == Action::Poll,
{
    let evs = drain_events(cmds);
    assert(evs.drop_last() =~= received_events(cmds));
    lemma_run_received(w, cmds);
}

/// Once the channel's sending half is gone, the running loop withdraws the tree
/// and stops at that event, and nothing after it is acted on.
pub proof fn lemma_shutdown(w: WorkerView, later: Seq<Event>)
    requires
        w.phase == Phase::Registered,
    ensures
        run(w, seq![Event::ChannelClosed]).0.phase == Phase::Stopped,
        run(w, seq![Event::ChannelClosed]).1 == seq![Action::Unregister],
        run(w, seq![Event::ChannelClosed].add(later)).0.phase == Phase::Stopped,
        run(w, seq![Event::ChannelClosed].add(later)).1.len() == later.len() + 1,
        forall|i: int| 1 <= i < later.len() + 1 ==> #[trigger] run(w, seq![Event::ChannelClosed].add(later)).1[i]
            == Action::Ignore,
    decreases later.len(),
{
    let first = seq![Event::ChannelClosed];
    assert(first.drop_last() =~= Seq::<Event>::empty());
    assert(first.last() == Event::ChannelClosed);
    assert(run(w, first.drop_last()) == (w, Seq::<Action>::empty()));
    assert(Seq::<Action>::empty().push(Action::Unregister) =~= seq![Action::Unregister]);
    if later.len() > 0 {
        let t = later.drop_last();
        lemma_shutdown(w, t);
        assert(first.add(later).drop_last() =~= first.add(t));
        assert(first.add(later).last() == later.last());
        let acts_t = run(w, first.add(t)).1;
        let acts = run(w, first.add(later)).1;
        assert(acts == acts_t.push(Action::Ignore));
        assert forall|i: int| 1 <= i < later.len() + 1 implies #[trigger] acts[i] == Action::Ignore by {
            if i < later.len() {
                assert(acts[i] == acts_t[i]);
            }
        }
    } else {
        assert(first.add(later) =~= first);
    }
}

/// Whether command `c` can change what category `n` holds under key `k`.
pub open spec fn touches(c: Command, n: Seq<char>, k: Seq<char>) -> bool {
    c.category@ == n && match c.operation {
        Operation::Insert { key, value } => key@ == k,
        Operation::RemoveKey { key } => key@ == k,
        Operation::RemoveCategory => true,
    }
}

/// Whether command `c` sets key `k` of category `n` to `v`.
pub open spec fn writes(c: Command, n: Seq<char>, k: Seq<char>, v: Value) -> bool {
    c.category@ == n && match c.operation {
        Operation::Insert { key, value } => key@ == k && value == v,
        _ => false,
    }
}

/// Whether a category named `n` in `s` holds `v` under key `k`.
pub open spec fn holds(s: Seq<CategoryView>, n: Seq<char>, k: Seq<char>, v: Value) -> bool {
    exists|i: int| 0 <= i < s.len() && s[i].name == n && s[i].data.contains_key(k) && s[i].data[k] == v
}

proof fn lemma_get_or_create_names(s: Seq<CategoryView>, n: Seq<char>)
    ensures
        get_or_create_result(s, n).1 < get_or_create_result(s, n).0.len(),
        0 <= get_or_create_result(s, n).1,
        get_or_create_result(s, n).0[get_or_create_result(s, n).1].name == n,
        get_or_create_result(s, n).0.len() >= s.len(),
        forall|i: int| 0 <= i < s.len() ==> #[trigger] get_or_create_result(s, n).0[i] == s[i],
{
}

proof fn lemma_write(s: Seq<CategoryView>, c: Command, n: Seq<char>, k: Seq<char>, v: Value)
    requires
        writes(c, n, k, v),
        n.len() > 0,
    ensures
        holds(applied(s, c), n, k, v),
{
    lemma_get_or_create_names(s, n);
    let (s1, h) = get_or_create_result(s, n);
    let t = applied(s, c);
    assert(t[h].name == n && t[h].data.contains_key(k) && t[h].data[k] == v);
}

proof fn lemma_untouched(s: Seq<CategoryView>, c: Command, n: Seq<char>, k: Seq<char>, v: Value)
    requires
        holds(s, n, k, v),
        !touches(c, n, k),
    ensures
        holds(applied(s, c), n, k, v),
{
    let i = choose|i: int| 0 <= i < s.len() && s[i].name == n && s[i].data.contains_key(k) && s[i].data[k] == v;
    let m = c.category@;
    let t = applied(s, c);
    if m.len() > 0 {
        match c.operation {
            Operation::Insert { key, value } => {
                lemma_get_or_create_names(s, m);
                let (s1, h) = get_or_create_result(s, m);
                assert(s1[i] == s[i]);
                assert(t[i].name == n && t[i].data.contains_key(k) && t[i].data[k] == v);
            },
            Operation::RemoveKey { key } => {
                if has_name(s, m) {
                    let p = position_of(s, m);
                    assert(t[i].name == n && t[i].data.contains_key(k) && t[i].data[k] == v);
                }
            },
            Operation::RemoveCategory => {
                if has_name(s, m) {
                    let p = position_of(s, m);
                    assert(s[p].name == m);
                    let j = if i < p { i } else { i - 1 };
                    assert(t[j] == s[i]);
                }
            },
        }
    }
}

/// After a run of commands, a key holds the value of the last command that
/// wrote it, when no later command takes that key or its category out.
pub proof fn lemma_last_write_wins(
    s: Seq<CategoryView>,
    cmds: Seq<Command>,
    j: int,
    n: Seq<char>,
    k: Seq<char>,
    v: Value,
)
    requires
        0 <= j < cmds.len(),
        n.len() > 0,
        writes(cmds[j], n, k, v),
        forall|m: int| j < m < cmds.len() ==> !touches(#[trigger] cmds[m], n, k),
    ensures
        holds(applied_all(s, cmds), n, k, v),
    decreases cmds.len(),
{
    let t = cmds.drop_last();
    if j == cmds.len() - 1 {
        lemma_write(applied_all(s, t), cmds.last(), n, k, v);
    } else {
        assert forall|m: int| j < m < t.len() implies !touches(#[trigger] t[m], n, k) by {
            assert(t[m] == cmds[m]);
        }
        lemma_last_write_wins(s, t, j, n, k, v);
        lemma_untouched(applied_all(s, t), cmds.last(), n, k, v);
    }
}

} // verus!
