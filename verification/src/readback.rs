//! Correlating dispatched commands with the evidence that came back. Applied-ness is
//! established by correlating `/fail`, `/n_go` and tree listings, with `Unknown` kept for
//! races: a `/sync` barrier is ordering, not proof, so a node whose readback never arrived
//! stays [`Outcome::Unknown`].
use std::collections::BTreeMap;
use vstd::std_specs::btree::increasing_seq;
use vstd::prelude::*;
use vstd::std_specs::iter::IteratorSpec;
use crate::order::lemma_increasing_keys;
use crate::osc::{Message, Reply, same_text};
use crate::wire::{MessageView, ReplyView, int_at};

verus! {

/// What the evidence supports for one node. `Unknown` is a real answer, not a default that
/// pretends: no readback for that node has been received.
#[derive(Clone, Copy, Debug, PartialEq, Eq, Structural)]
pub enum Outcome {
    Applied,
    Rejected,
    Unknown,
}

/// The correlator's state: the outcome of every tracked node, and the barrier ids that came
/// back, in arrival order.
pub struct CorrelatorView {
    pub outcomes: Map<i32, Outcome>,
    pub barriers: Seq<i32>,
}

/// The outcome the evidence in `outcomes` supports for `node`: a node nothing was observed
/// about is `Unknown`.
pub open spec fn outcome_in(outcomes: Map<i32, Outcome>, node: i32) -> Outcome {
    if outcomes.contains_key(node) {
        outcomes[node]
    } else {
        Outcome::Unknown
    }
}

/// The node a dispatched command addresses: `/s_new`'s second argument, `/n_set`'s first.
pub open spec fn command_node(m: MessageView) -> Option<i32> {
    if m.address == "/s_new"@ {
        int_at(m.args, 1)
    } else if m.address == "/n_set"@ {
        int_at(m.args, 0)
    } else {
        None
    }
}

/// Recording a command: the node it addresses becomes tracked, at `Unknown` unless it already
/// has an outcome.
pub open spec fn after_command(c: CorrelatorView, m: MessageView) -> CorrelatorView {
    match command_node(m) {
        Some(node) => if c.outcomes.contains_key(node) {
            c
        } else {
            CorrelatorView { outcomes: c.outcomes.insert(node, Outcome::Unknown), ..c }
        },
        None => c,
    }
}

/// A tree listing marks every listed node `Applied`, except one already `Rejected`.
pub open spec fn after_listing(outcomes: Map<i32, Outcome>, ids: Seq<i32>) -> Map<i32, Outcome> {
    Map::new(
        |k: i32| outcomes.contains_key(k) || ids.contains(k),
        |k: i32|
            if ids.contains(k) && outcome_in(outcomes, k) != Outcome::Rejected {
                Outcome::Applied
            } else {
                outcomes[k]
            },
    )
}

/// Folding one reply into the state.
pub open spec fn after_reply(c: CorrelatorView, r: ReplyView) -> CorrelatorView {
    match r {
        ReplyView::NodeStarted(node) => CorrelatorView {
            outcomes: c.outcomes.insert(node, Outcome::Applied),
            ..c
        },
        ReplyView::Failed { node_id: Some(node), .. } => CorrelatorView {
            outcomes: c.outcomes.insert(node, Outcome::Rejected),
            ..c
        },
        ReplyView::Failed { node_id: None, .. } => c,
        ReplyView::QueryTreeReply(ids) => CorrelatorView {
            outcomes: after_listing(c.outcomes, ids),
            ..c
        },
        ReplyView::Synced(id) => CorrelatorView { barriers: c.barriers.push(id), ..c },
    }
}

/// The node a dispatched command addresses, if it addresses one.
fn addressed_node(msg: &Message) -> (r: Option<i32>)
    ensures
        r == command_node(msg@),
{
    let address = msg.address.as_str();
    if same_text(address, "/s_new") {
        msg.int_arg(1)
    } else if same_text(address, "/n_set") {
        msg.int_arg(0)
    } else {
        None
    }
}

/// One thing the correlator is told: a command was dispatched, or a reply came back.
pub enum Observation {
    Command(MessageView),
    Reply(ReplyView),
}

/// Folding one observation into the state.
pub open spec fn after(c: CorrelatorView, o: Observation) -> CorrelatorView {
    match o {
        Observation::Command(m) => after_command(c, m),
        Observation::Reply(r) => after_reply(c, r),
    }
}

/// Folding a run of observations into the state, in order.
pub open spec fn replay(c: CorrelatorView, obs: Seq<Observation>) -> CorrelatorView
    decreases obs.len(),
{
    if obs.len() == 0 {
        c
    } else {
        after(replay(c, obs.drop_last()), obs.last())
    }
}

/// A reply that shows `node` exists: its `/n_go`, or a tree listing that names it.
pub open spec fn shows_applied(o: Observation, node: i32) -> bool {
    match o {
        Observation::Reply(ReplyView::NodeStarted(n)) => n == node,
        Observation::Reply(ReplyView::QueryTreeReply(ids)) => ids.contains(node),
        _ => false,
    }
}

/// A reply that shows `node` was refused: a `/fail` that names it.
pub open spec fn shows_rejected(o: Observation, node: i32) -> bool {
    match o {
        Observation::Reply(ReplyView::Failed { node_id: Some(n), .. }) => n == node,
        _ => false,
    }
}

/// The barrier ids among a run of observations, in order.
pub open spec fn synced_ids(obs: Seq<Observation>) -> Seq<i32>
    decreases obs.len(),
{
    if obs.len() == 0 {
        seq![]
    } else {
        match obs.last() {
            Observation::Reply(ReplyView::Synced(id)) => synced_ids(obs.drop_last()).push(id),
            _ => synced_ids(obs.drop_last()),
        }
    }
}

/// Evidence never overstates certainty: after any run of observations, a node is `Applied`
/// only if it already was or some reply in the run showed it exists, and `Rejected` only if it
/// already was or some `/fail` in the run named it. Dispatching a command and `/sync` barriers
/// never make a node `Applied`.
pub proof fn lemma_outcomes_rest_on_evidence(c: CorrelatorView, obs: Seq<Observation>, node: i32)
    ensures
        outcome_in(replay(c, obs).outcomes, node) == Outcome::Applied ==> outcome_in(c.outcomes, node)
            == Outcome::Applied || exists|i: int| 0 <= i < obs.len() && #[trigger] shows_applied(obs[i], node),
        outcome_in(replay(c, obs).outcomes, node) == Outcome::Rejected ==> outcome_in(c.outcomes, node)
            == Outcome::Rejected || exists|i: int| 0 <= i < obs.len() && #[trigger] shows_rejected(obs[i], node),
    decreases obs.len(),
{
    if obs.len() > 0 {
        let prefix = obs.drop_last();
        lemma_outcomes_rest_on_evidence(c, prefix, node);
        let before = replay(c, prefix);
        let last = obs.last();
        let n = obs.len() - 1;
        assert(obs[n] == last);
        if outcome_in(before.outcomes, node) == Outcome::Applied && outcome_in(c.outcomes, node) != Outcome::Applied {
            let i = choose|i: int| 0 <= i < prefix.len() && #[trigger] shows_applied(prefix[i], node);
            assert(obs[i] == prefix[i]);
        }
        if outcome_in(before.outcomes, node) == Outcome::Rejected && outcome_in(c.outcomes, node) != Outcome::Rejected {
            let i = choose|i: int| 0 <= i < prefix.len() && #[trigger] shows_rejected(prefix[i], node);
            assert(obs[i] == prefix[i]);
        }
        match last {
            Observation::Reply(ReplyView::QueryTreeReply(ids)) => {
                if ids.contains(node) {
                    assert(shows_applied(obs[n], node));
                }
            },
            Observation::Reply(ReplyView::NodeStarted(id)) => {
                if id == node {
                    assert(shows_applied(obs[n], node));
                }
            },
            Observation::Reply(ReplyView::Failed { node_id: Some(id), .. }) => {
                if id == node {
                    assert(shows_rejected(obs[n], node));
                }
            },
            _ => {},
        }
    }
}

/// A freshly made correlator reports a node `Applied` only on a reply that shows it exists: a
/// `/sync` barrier alone never produces verified success.
pub proof fn lemma_fresh_applied_needs_readback(obs: Seq<Observation>, node: i32)
    ensures
        outcome_in(replay(fresh(), obs).outcomes, node)
            == Outcome::Applied ==> exists|i: int| 0 <= i < obs.len() && #[trigger] shows_applied(obs[i], node),
{
    lemma_outcomes_rest_on_evidence(fresh(), obs, node);
}

/// Recording a dispatched command changes no node's outcome: having sent a packet is not
/// evidence.
pub proof fn lemma_command_is_not_evidence(c: CorrelatorView, m: MessageView, node: i32)
    ensures
        outcome_in(after_command(c, m).outcomes, node) == outcome_in(c.outcomes, node),
        after_command(c, m).barriers == c.barriers,
{
}

/// A run of `/synced` replies changes no node's outcome; it only records the barriers.
pub proof fn lemma_barriers_are_not_evidence(c: CorrelatorView, obs: Seq<Observation>)
    requires
        forall|i: int| 0 <= i < obs.len() ==> #[trigger] obs[i] matches Observation::Reply(ReplyView::Synced(_)),
    ensures
        replay(c, obs).outcomes == c.outcomes,
    decreases obs.len(),
{
    if obs.len() > 0 {
        let prefix = obs.drop_last();
        assert forall|i: int| 0 <= i < prefix.len() implies #[trigger] prefix[i] matches Observation::Reply(ReplyView::Synced(_)) by {
            assert(prefix[i] == obs[i]);
        }
        lemma_barriers_are_not_evidence(c, prefix);
        assert(obs[obs.len() - 1] matches Observation::Reply(ReplyView::Synced(_)));
    }
}

/// A rejection stands: once a node is `Rejected`, no later observation but its own `/n_go`
/// changes that; in particular a tree listing never overturns an explicit `/fail`.
pub proof fn lemma_rejection_stands(c: CorrelatorView, obs: Seq<Observation>, node: i32)
    requires
        outcome_in(c.outcomes, node) == Outcome::Rejected,
        forall|i: int| 0 <= i < obs.len() ==> #[trigger] obs[i] != Observation::Reply(ReplyView::NodeStarted(node)),
    ensures
        outcome_in(replay(c, obs).outcomes, node) == Outcome::Rejected,
    decreases obs.len(),
{
    if obs.len() > 0 {
        let prefix = obs.drop_last();
        assert forall|i: int| 0 <= i < prefix.len() implies #[trigger] prefix[i] != Observation::Reply(ReplyView::NodeStarted(node)) by {
            assert(prefix[i] == obs[i]);
        }
        lemma_rejection_stands(c, prefix, node);
        assert(obs[obs.len() - 1] != Observation::Reply(ReplyView::NodeStarted(node)));
    }
}

/// Tracking only grows: a node the correlator tracks stays tracked.
pub proof fn lemma_tracking_only_grows(c: CorrelatorView, obs: Seq<Observation>, node: i32)
    requires
        c.outcomes.contains_key(node),
    ensures
        replay(c, obs).outcomes.contains_key(node),
    decreases obs.len(),
{
    if obs.len() > 0 {
        lemma_tracking_only_grows(c, obs.drop_last(), node);
    }
}

/// The barriers are exactly the `/synced` ids that came back, in arrival order.
pub proof fn lemma_barriers_in_order(c: CorrelatorView, obs: Seq<Observation>)
    ensures
        replay(c, obs).barriers == c.barriers + synced_ids(obs),
    decreases obs.len(),
{
    if obs.len() == 0 {
        assert(c.barriers + Seq::<i32>::empty() =~= c.barriers);
    } else {
        lemma_barriers_in_order(c, obs.drop_last());
        match obs.last() {
            Observation::Reply(ReplyView::Synced(id)) => {
                assert(c.barriers + synced_ids(obs.drop_last()).push(id) =~= (c.barriers + synced_ids(obs.drop_last())).push(id));
            },
            _ => {},
        }
    }
}

/// A reply that is readback for `node`: it shows the node exists or was refused.
pub open spec fn shows_readback(o: Observation, node: i32) -> bool {
    shows_applied(o, node) || shows_rejected(o, node)
}

/// A dispatched command that addresses `node`.
pub open spec fn commands(o: Observation, node: i32) -> bool {
    match o {
        Observation::Command(m) => command_node(m) == Some(node),
        _ => false,
    }
}

/// The state of a correlator that has observed nothing.
pub open spec fn fresh() -> CorrelatorView {
    CorrelatorView { outcomes: Map::empty(), barriers: Seq::empty() }
}

/// One observation never sends a known node back to `Unknown`, and readback for a node makes
/// it known.
proof fn lemma_step_known(c: CorrelatorView, o: Observation, node: i32)
    ensures
        outcome_in(c.outcomes, node) != Outcome::Unknown || shows_readback(o, node) ==> outcome_in(
            after(c, o).outcomes,
            node,
        ) != Outcome::Unknown,
{
}

/// Once some observation was readback for a node, the node stays known.
proof fn lemma_readback_makes_known(c: CorrelatorView, obs: Seq<Observation>, node: i32)
    requires
        outcome_in(c.outcomes, node) != Outcome::Unknown || exists|i: int|
            0 <= i < obs.len() && #[trigger] shows_readback(obs[i], node),
    ensures
        outcome_in(replay(c, obs).outcomes, node) != Outcome::Unknown,
    decreases obs.len(),
{
    if obs.len() > 0 {
        let prefix = obs.drop_last();
        let n = obs.len() - 1;
        if outcome_in(c.outcomes, node) == Outcome::Unknown && !shows_readback(obs[n], node) {
            let i = choose|i: int| 0 <= i < obs.len() && #[trigger] shows_readback(obs[i], node);
            assert(prefix[i] == obs[i]);
        }
        if outcome_in(c.outcomes, node) != Outcome::Unknown || exists|i: int|
            0 <= i < prefix.len() && #[trigger] shows_readback(prefix[i], node) {
            lemma_readback_makes_known(c, prefix, node);
        }
        lemma_step_known(replay(c, prefix), obs[n], node);
    }
}

/// A node is `Unknown` exactly when no readback for it was observed: on a correlator that has
/// observed nothing, after any run of commands and replies, a node's outcome is `Unknown` if and
/// only if no `/n_go`, `/fail` or tree listing in the run named it.
pub proof fn lemma_unknown_iff_no_readback(obs: Seq<Observation>, node: i32)
    ensures
        outcome_in(replay(fresh(), obs).outcomes, node) == Outcome::Unknown <==> !exists|i: int|
            0 <= i < obs.len() && #[trigger] shows_readback(obs[i], node),
{
    lemma_outcomes_rest_on_evidence(fresh(), obs, node);
    if exists|i: int| 0 <= i < obs.len() && #[trigger] shows_readback(obs[i], node) {
        lemma_readback_makes_known(fresh(), obs, node);
    } else {
        if outcome_in(replay(fresh(), obs).outcomes, node) == Outcome::Applied {
            let i = choose|i: int| 0 <= i < obs.len() && #[trigger] shows_applied(obs[i], node);
            assert(shows_readback(obs[i], node));
        }
        if outcome_in(replay(fresh(), obs).outcomes, node) == Outcome::Rejected {
            let i = choose|i: int| 0 <= i < obs.len() && #[trigger] shows_rejected(obs[i], node);
            assert(shows_readback(obs[i], node));
        }
    }
}

/// A node tracked at `Unknown` was tracked so before the run, or some command in it addressed
/// the node.
proof fn lemma_tracked_unknown_was_commanded(c: CorrelatorView, obs: Seq<Observation>, node: i32)
    requires
        replay(c, obs).outcomes.contains_key(node),
        replay(c, obs).outcomes[node] == Outcome::Unknown,
    ensures
        (c.outcomes.contains_key(node) && c.outcomes[node] == Outcome::Unknown) || exists|i: int|
            0 <= i < obs.len() && #[trigger] commands(obs[i], node),
    decreases obs.len(),
{
    if obs.len() > 0 {
        let prefix = obs.drop_last();
        let n = obs.len() - 1;
        let p = replay(c, prefix);
        if commands(obs[n], node) {
        } else {
            assert(p.outcomes.contains_key(node) && p.outcomes[node] == Outcome::Unknown);
            lemma_tracked_unknown_was_commanded(c, prefix, node);
            if !(c.outcomes.contains_key(node) && c.outcomes[node] == Outcome::Unknown) {
                let i = choose|i: int| 0 <= i < prefix.len() && #[trigger] commands(prefix[i], node);
                assert(obs[i] == prefix[i]);
            }
        }
    }
}

/// A node that some command in the run addressed is tracked after the run.
proof fn lemma_commanded_is_tracked(c: CorrelatorView, obs: Seq<Observation>, node: i32)
    requires
        exists|i: int| 0 <= i < obs.len() && #[trigger] commands(obs[i], node),
    ensures
        replay(c, obs).outcomes.contains_key(node),
    decreases obs.len(),
{
    let prefix = obs.drop_last();
    let n = obs.len() - 1;
    if commands(obs[n], node) {
        assert(after(replay(c, prefix), obs[n]).outcomes.contains_key(node));
    } else {
        let i = choose|i: int| 0 <= i < obs.len() && #[trigger] commands(obs[i], node);
        assert(prefix[i] == obs[i]);
        lemma_commanded_is_tracked(c, prefix, node);
        lemma_tracking_only_grows(replay(c, prefix), seq![obs[n]], node);
        assert(seq![obs[n]].drop_last() =~= Seq::<Observation>::empty());
    }
}

/// The unknown coverage is exactly the commanded nodes without readback: on a correlator that
/// has observed nothing, after any run, a node is tracked at `Unknown` (so `unknown_nodes`
/// lists it) if and only if its outcome is `Unknown` and some dispatched `/s_new` or `/n_set`
/// addressed it.
pub proof fn lemma_unknown_nodes_are_commanded_without_readback(obs: Seq<Observation>, node: i32)
    ensures
        (replay(fresh(), obs).outcomes.contains_key(node) && replay(fresh(), obs).outcomes[node]
            == Outcome::Unknown) <==> (outcome_in(replay(fresh(), obs).outcomes, node)
            == Outcome::Unknown && exists|i: int| 0 <= i < obs.len() && #[trigger] commands(obs[i], node)),
{
    let r = replay(fresh(), obs);
    if r.outcomes.contains_key(node) && r.outcomes[node] == Outcome::Unknown {
        lemma_tracked_unknown_was_commanded(fresh(), obs, node);
    }
    if exists|i: int| 0 <= i < obs.len() && #[trigger] commands(obs[i], node) {
        lemma_commanded_is_tracked(fresh(), obs, node);
    }
}

/// `/s_new` and `/n_set` are different addresses.
proof fn lemma_command_addresses_distinct()
    ensures
        "/s_new"@ != "/n_set"@,
{
    reveal_strlit("/s_new");
    reveal_strlit("/n_set");
    assert("/s_new"@[1] != "/n_set"@[1]);
}

/// Only `/s_new` (whose node is its second argument) and `/n_set` (whose node is its first)
/// address a node; any other command, such as `/sync` or `/g_queryTree`, leaves the state as it
/// was.
pub proof fn lemma_command_addresses(c: CorrelatorView, m: MessageView)
    ensures
        m.address == "/s_new"@ ==> command_node(m) == int_at(m.args, 1),
        m.address == "/n_set"@ ==> command_node(m) == int_at(m.args, 0),
        m.address != "/s_new"@ && m.address != "/n_set"@ ==> command_node(m) is None && after_command(c, m)
            == c,
{
    lemma_command_addresses_distinct();
}

/// A command that addresses a node tracks it: an untracked node starts at `Unknown`, a tracked
/// node keeps its outcome, and no other node or barrier changes.
pub proof fn lemma_command_tracks(c: CorrelatorView, m: MessageView, node: i32, other: i32)
    requires
        command_node(m) == Some(node),
        other != node,
    ensures
        after_command(c, m).outcomes.contains_key(node),
        outcome_in(after_command(c, m).outcomes, node) == outcome_in(c.outcomes, node),
        after_command(c, m).outcomes.contains_key(other) == c.outcomes.contains_key(other),
        outcome_in(after_command(c, m).outcomes, other) == outcome_in(c.outcomes, other),
        after_command(c, m).barriers == c.barriers,
{
}

/// `/n_go` for a node makes it `Applied`, whatever its earlier outcome; nothing else changes.
pub proof fn lemma_node_started_applies(c: CorrelatorView, node: i32, other: i32)
    requires
        other != node,
    ensures
        outcome_in(after_reply(c, ReplyView::NodeStarted(node)).outcomes, node) == Outcome::Applied,
        after_reply(c, ReplyView::NodeStarted(node)).outcomes.contains_key(node),
        after_reply(c, ReplyView::NodeStarted(node)).outcomes.contains_key(other) == c.outcomes.contains_key(other),
        outcome_in(after_reply(c, ReplyView::NodeStarted(node)).outcomes, other) == outcome_in(c.outcomes, other),
        after_reply(c, ReplyView::NodeStarted(node)).barriers == c.barriers,
{
}

/// A `/fail` that names a node makes it `Rejected`, whatever its earlier outcome, `Applied`
/// included; nothing else changes.
pub proof fn lemma_fail_rejects(c: CorrelatorView, command: Seq<char>, message: Seq<char>, node: i32, other: i32)
    requires
        other != node,
    ensures
        ({
            let after = after_reply(c, ReplyView::Failed { command, message, node_id: Some(node) });
            &&& outcome_in(after.outcomes, node) == Outcome::Rejected
            &&& after.outcomes.contains_key(node)
            &&& after.outcomes.contains_key(other) == c.outcomes.contains_key(other)
            &&& outcome_in(after.outcomes, other) == outcome_in(c.outcomes, other)
            &&& after.barriers == c.barriers
        }),
{
}

/// A `/fail` that names no node changes nothing.
pub proof fn lemma_fail_without_node(c: CorrelatorView, command: Seq<char>, message: Seq<char>)
    ensures
        after_reply(c, ReplyView::Failed { command, message, node_id: None }) == c,
{
}

/// A tree listing makes every listed node `Applied` unless it was `Rejected`, which it stays;
/// a node it does not list keeps its outcome and its tracking; the barriers do not change.
pub proof fn lemma_listing(c: CorrelatorView, ids: Seq<i32>, node: i32)
    ensures
        ({
            let after = after_reply(c, ReplyView::QueryTreeReply(ids));
            &&& ids.contains(node) && outcome_in(c.outcomes, node) != Outcome::Rejected ==> outcome_in(
                after.outcomes,
                node,
            ) == Outcome::Applied
            &&& outcome_in(c.outcomes, node) == Outcome::Rejected ==> outcome_in(after.outcomes, node)
                == Outcome::Rejected
            &&& !ids.contains(node) ==> outcome_in(after.outcomes, node) == outcome_in(c.outcomes, node)
                && after.outcomes.contains_key(node) == c.outcomes.contains_key(node)
            &&& ids.contains(node) ==> after.outcomes.contains_key(node)
            &&& after.barriers == c.barriers
        }),
{
}

/// `/synced` appends its id to the barriers and changes no outcome.
pub proof fn lemma_synced_records_barrier(c: CorrelatorView, id: i32)
    ensures
        after_reply(c, ReplyView::Synced(id)).barriers == c.barriers.push(id),
        after_reply(c, ReplyView::Synced(id)).outcomes == c.outcomes,
{
}

/// Matches dispatched commands with the replies that came back.
#[derive(Clone, Debug)]
pub struct Correlator {
    outcomes: BTreeMap<i32, Outcome>,
    barriers: Vec<i32>,
}

impl View for Correlator {
    type V = CorrelatorView;

    closed spec fn view(&self) -> CorrelatorView {
        CorrelatorView { outcomes: self.outcomes@, barriers: self.barriers@ }
    }
}

impl Default for Correlator {
    /// A correlator that has observed nothing.
    fn default() -> (c: Correlator)
        ensures
            c@ == fresh(),
    {
        Correlator::new()
    }
}

impl Correlator {
    /// A correlator that has observed nothing.
    pub fn new() -> (c: Correlator)
        ensures
            c@ == fresh(),
    {
        Correlator { outcomes: BTreeMap::new(), barriers: Vec::new() }
    }

    /// Record a command as dispatched. Node-addressing commands start at `Unknown`: having
    /// sent a packet is not evidence that the engine acted on it.
    pub fn observe_command(&mut self, msg: &Message)
        ensures
            final(self)@ == after_command(old(self)@, msg@),
    {
        let node = addressed_node(msg);
        match node {
            Some(node_id) => {
                if !self.outcomes.contains_key(&node_id) {
                    self.outcomes.insert(node_id, Outcome::Unknown);
                }
            },
            None => {},
        }
    }

    /// Fold one reply into the outcomes. A rejection is never overturned by a later tree
    /// listing: an explicit `/fail` outranks topology read after the fact.
    pub fn observe_reply(&mut self, reply: &Reply)
        ensures
            final(self)@ == after_reply(old(self)@, reply@),
    {
        match reply {
            Reply::NodeStarted(node_id) => {
                self.outcomes.insert(*node_id, Outcome::Applied);
            },
            Reply::Failed { node_id: Some(node_id), .. } => {
                self.outcomes.insert(*node_id, Outcome::Rejected);
            },
            Reply::QueryTreeReply(node_ids) => {
                let ghost start = self.outcomes@;
                let n = node_ids.len();
                let mut i: usize = 0;
                while i < n
                    invariant
                        n == node_ids@.len(),
                        i <= n,
                        self.barriers@ == old(self).barriers@,
                        self.outcomes@ == after_listing(start, node_ids@.take(i as int)),
                    decreases n - i,
                {
                    let node_id = node_ids[i];
                    let ghost before = self.outcomes@;
                    if self.outcome(node_id) != Outcome::Rejected {
                        self.outcomes.insert(node_id, Outcome::Applied);
                    }
                    i = i + 1;
                    proof {
                        let done = node_ids@.take(i as int);
                        assert(done =~= node_ids@.take(i - 1).push(node_id));
                        assert forall|k: i32| #[trigger] done.contains(k) <==> (node_ids@.take(i - 1).contains(k) || k == node_id) by {
                            if done.contains(k) {
                                let j = choose|j: int| 0 <= j < done.len() && done[j] == k;
                                if j < i - 1 {
                                    assert(node_ids@.take(i - 1)[j] == k);
                                }
                            }
                            if node_ids@.take(i - 1).contains(k) {
                                let j = choose|j: int| 0 <= j < i - 1 && #[trigger] node_ids@.take(i - 1)[j] == k;
                                assert(done[j] == k);
                            }
                            if k == node_id {
                                assert(done[i - 1] == k);
                            }
                        }
                        assert(self.outcomes@ =~= after_listing(start, done));
                    }
                }
                assert(node_ids@.take(n as int) =~= node_ids@);
            },
            Reply::Synced(id) => {
                self.barriers.push(*id);
            },
            Reply::Failed { node_id: None, .. } => {},
        }
    }

    /// The outcome for one node. A node nothing was observed about is `Unknown`.
    pub fn outcome(&self, node_id: i32) -> (o: Outcome)
        ensures
            o == outcome_in(self@.outcomes, node_id),
    {
        match self.outcomes.get(&node_id) {
            Some(o) => *o,
            None => Outcome::Unknown,
        }
    }

    /// The tracked nodes still without readback, in increasing order: the unknown coverage to
    /// report.
    pub fn unknown_nodes(&self) -> (r: Vec<i32>)
        ensures
            forall|x: i32| #[trigger] r@.contains(x) <==> (self@.outcomes.contains_key(x)
                && self@.outcomes[x] == Outcome::Unknown),
            forall|i: int, j: int| 0 <= i < j < r@.len() ==> r@[i] < r@[j],
    {
        let ghost m = self.outcomes@;
        let iter = self.outcomes.iter();
        let ghost all = iter.remaining();
        proof {
            let keys = all.map_values(|kv: (&i32, &Outcome)| *kv.0);
            assert(increasing_seq(keys));
            lemma_increasing_keys(keys);
            assert forall|a: int| 0 <= a < all.len() implies m.contains_key(*all[a].0) && m[*all[a].0] == *all[a].1 by {
                assert(m.contains_key(*all[a].0));
            }
            assert forall|a: int, b: int| 0 <= a < b < all.len() implies *all[a].0 < *all[b].0 by {
                assert(keys[a] == *all[a].0);
                assert(keys[b] == *all[b].0);
            }
        }
        let mut res: Vec<i32> = Vec::new();
        let ghost mut idx: Seq<int> = Seq::empty();
        for kv in it: iter
            invariant
                m == self.outcomes@,
                it.seq() == all,
                forall|a: int, b: int| 0 <= a < b < all.len() ==> *all[a].0 < *all[b].0,
                forall|a: int| 0 <= a < all.len() ==> m.contains_key(*all[a].0) && m[*all[a].0] == *all[a].1,
                idx.len() == res@.len(),
                forall|a: int| 0 <= a < idx.len() ==> 0 <= #[trigger] idx[a] < it.index() && res@[a] == *all[idx[a]].0,
                forall|a: int, b: int| 0 <= a < b < idx.len() ==> idx[a] < idx[b],
                forall|j: int| 0 <= j < it.index() && *all[j].1 == Outcome::Unknown ==> res@.contains(*all[j].0),
                forall|a: int| 0 <= a < res@.len() ==> m.contains_key(#[trigger] res@[a]) && m[res@[a]] == Outcome::Unknown,
        {
            let ghost at = it.index();
            let ghost before = res@;
            let (key, outcome) = kv;
            if *outcome == Outcome::Unknown {
                res.push(*key);
                proof {
                    idx = idx.push(at);
                }
            }
            proof {
                assert forall|j: int| 0 <= j < at + 1 && *all[j].1 == Outcome::Unknown implies res@.contains(*all[j].0) by {
                    if j < at {
                        let w = choose|w: int| 0 <= w < before.len() && before[w] == *all[j].0;
                        assert(res@[w] == *all[j].0);
                    } else {
                        assert(res@[res@.len() - 1] == *all[j].0);
                    }
                }
            }
        }
        proof {
            assert forall|i: int, j: int| 0 <= i < j < res@.len() implies res@[i] < res@[j] by {
                assert(idx[i] < idx[j]);
            }
            assert forall|x: i32| m.contains_key(x) && m[x] == Outcome::Unknown implies #[trigger] res@.contains(x) by {
                assert(all.contains((&x, &m[x])));
                let j = choose|j: int| 0 <= j < all.len() && all[j] == (&x, &m[x]);
            }
        }
        res
    }

    /// The barrier ids that came back, in arrival order.
    pub fn barriers(&self) -> (b: &[i32])
        ensures
            b@ == self@.barriers,
    {
        self.barriers.as_slice()
    }
}

} // verus!
