//! Cells whose value is produced by a task that runs outside the graph.

use vstd::prelude::*;
use crate::batch::publish;
use crate::evaluation::Evaluation;
use crate::model::GraphView;
use crate::runs::{published, Binds};
use crate::graph::Graph;
use crate::state::{Error, Invalid, Kind, Version};
use crate::update::Evaluator;

verus! {

/// The bookkeeping of an asynchronous cell. The cell captures an input from
/// the graph; whenever the hash of the input changes, the task that was
/// computing the value for the old input is cancelled and a new one is
/// started. Each task is given a token; a result is accepted only from the
/// task whose token is the current one.
pub struct Async {
    node: usize,
    pending: Version,
    revision: Option<u64>,
    task: u64,
    running: bool,
}

impl Async {
    /// The node that stands for this cell.
    pub closed spec fn id(&self) -> usize {
        self.node
    }

    /// The version the cell publishes while no result is there.
    pub closed spec fn pending_version(&self) -> Version {
        self.pending
    }

    /// The hash of the input for which the current task was started.
    pub closed spec fn revision_of(&self) -> Option<u64> {
        self.revision
    }

    /// The token of the task that was started last.
    pub closed spec fn token_of(&self) -> u64 {
        self.task
    }

    /// Whether the task that was started last has neither delivered nor
    /// been cancelled.
    pub closed spec fn in_flight(&self) -> bool {
        self.running
    }

    /// Whether an input with the hash `input` calls for a new task: it does
    /// if it differs from the input of the current task, as long as tokens
    /// are left.
    pub open spec fn restarts(&self, input: u64) -> bool {
        self.revision_of() != Some(input) && self.token_of() < u64::MAX
    }

    /// The cell after a task was started for an input with the hash
    /// `input`: it holds that input, the next token, and a task in flight.
    pub closed spec fn restarted(&self, input: u64) -> Async {
        Async {
            node: self.node,
            pending: self.pending,
            revision: Some(input),
            task: (self.task + 1) as u64,
            running: true,
        }
    }

    /// The cell after the task in flight has delivered.
    pub closed spec fn delivered(&self) -> Async {
        Async {
            node: self.node,
            pending: self.pending,
            revision: self.revision,
            task: self.task,
            running: false,
        }
    }

    /// Whether a result that comes with `token` is accepted: it is if it
    /// comes from the task that was started last and that task is still in
    /// flight.
    pub open spec fn accepts(&self, token: u64) -> bool {
        self.in_flight() && token == self.token_of()
    }

    /// Creates a cell. Its node publishes `pending` until a result is
    /// accepted.
    pub fn new(graph: &mut Graph, pending: Version) -> (cell: Self)
        requires
            old(graph).wf(),
            old(graph)@.nodes.len() < usize::MAX,
        ensures
            final(graph).wf(),
            cell.id() == old(graph)@.nodes.len(),
            cell.pending_version() == pending,
            cell.revision_of().is_none(),
            cell.token_of() == 0,
            !cell.in_flight(),
            final(graph)@ == old(graph)@.with_new(Kind::Async, pending),
    {
        let node = graph.add(Kind::Async, pending);
        Async { node, pending, revision: None, task: 0, running: false }
    }

    /// The node that stands for this cell.
    pub fn node(&self) -> (n: usize)
        ensures
            n == self.id(),
    {
        self.node
    }

    /// The version the cell publishes while no result is there.
    pub fn pending(&self) -> (version: Version)
        ensures
            version == self.pending_version(),
    {
        self.pending
    }

    /// The token of the task that was started last.
    pub fn token(&self) -> (token: u64)
        ensures
            token == self.token_of(),
    {
        self.task
    }

    /// Whether a task is in flight.
    pub fn is_running(&self) -> (running: bool)
        ensures
            running == self.in_flight(),
    {
        self.running
    }

    /// Decides, for an input that was just captured and has the hash
    /// `input`, whether a new task has to be started. If the input is the
    /// one the current task was started for, nothing changes and there is no
    /// token. Otherwise the current task is cancelled: the cell takes the
    /// next token, which no earlier task holds, and hands it out for the
    /// task that is to be spawned; the node is then to publish the pending
    /// version.
    pub fn restart(&mut self, input: u64) -> (token: Option<u64>)
        ensures
            match token {
                Some(t) => {
                    &&& old(self).restarts(input)
                    &&& t == old(self).token_of() + 1
                    &&& *final(self) == old(self).restarted(input)
                },
                None => !old(self).restarts(input) && *final(self) == *old(self),
            },
    {
        let same = match self.revision {
            Some(seen) => seen == input,
            None => false,
        };
        if same || self.task == u64::MAX {
            return None;
        }
        self.revision = Some(input);
        self.task = self.task + 1;
        self.running = true;
        Some(self.task)
    }

    /// Does what [`Async::restart`] does and says what the node has to
    /// publish with it: where a new task is started, the token for it and
    /// the pending version, under which the cell is shown until that task
    /// delivers; where the input is the one of the current task, nothing,
    /// and the node keeps the version it has.
    pub fn renew(&mut self, input: u64) -> (step: Option<(u64, Version)>)
        ensures
            match step {
                Some((token, version)) => {
                    &&& old(self).restarts(input)
                    &&& token == old(self).token_of() + 1
                    &&& version == old(self).pending_version()
                    &&& *final(self) == old(self).restarted(input)
                },
                None => !old(self).restarts(input) && *final(self) == *old(self),
            },
    {
        match self.restart(input) {
            Some(token) => Some((token, self.pending)),
            None => None,
        }
    }

    /// Decides whether the result of the task that holds `token` is
    /// accepted, without publishing anything. The result of a task that was
    /// cancelled is refused and nothing changes; the current task, if it is
    /// in flight, has delivered with this call, and its result is then to be
    /// published through [`publish`].
    pub fn accept(&mut self, token: u64) -> (accepted: bool)
        ensures
            accepted == old(self).accepts(token),
            accepted ==> *final(self) == old(self).delivered(),
            !accepted ==> *final(self) == *old(self),
    {
        if !self.running || token != self.task {
            return false;
        }
        self.running = false;
        true
    }

    /// Takes the result of a task. The result of a task that was cancelled
    /// is discarded: nothing changes. The result of the current task is
    /// published as `value`: the nodes that have read the cell become
    /// possibly invalid, and outside a batch the reactions that were queued
    /// are rerun before the call returns. Says whether the result was
    /// accepted, or why the reactions could not be rerun.
    pub fn complete<E: Evaluator>(
        &mut self,
        graph: &mut Graph,
        ev: &mut E,
        token: u64,
        value: Version,
    ) -> (done: Result<bool, Error>)
        requires
            old(graph).wf(),
            old(graph)@.has(old(self).id()),
        ensures
            final(graph).wf(),
            old(graph)@.evolves(final(graph)@),
            !old(self).accepts(token) ==> done == Ok::<bool, Error>(false)
                && *final(self) == *old(self) && final(graph)@ == old(graph)@
                && *final(ev) == *old(ev),
            old(self).accepts(token) ==> {
                &&& *final(self) == old(self).delivered()
                &&& done == Ok::<bool, Error>(true) || done.is_err()
                &&& published(
                    (Binds {
                        ev: |r: &mut E, a: E, b: E| *r == a && *final(r) == b,
                        graph: |r: &mut Graph, a: GraphView, b: GraphView| r@ == a && final(r)@ == b,
                        cx: |r: &mut Evaluation, n: usize, a: Seq<(usize, Version)>, b: Seq<(usize, Version)>|
                            r.parent_id() == n && r@ == a && final(r)@ == b,
                    }),
                    old(graph)@,
                    *old(ev),
                    old(self).id(),
                    value,
                    Invalid::Maybe,
                    final(graph)@,
                    *final(ev),
                    match done {
                        Ok(_) => Ok(value != old(graph)@.node(old(self).id()).version),
                        Err(e) => Err(e),
                    },
                )
            },
    {
        if !self.accept(token) {
            return Ok(false);
        }
        match publish(graph, ev, self.node, value, Invalid::Maybe) {
            Ok(_) => Ok(true),
            Err(e) => Err(e),
        }
    }

    /// Whether an armed reaction observes the cell.
    pub fn is_observed(&self, graph: &Graph) -> (observed: bool)
        requires
            graph@.has(self.id()),
        ensures
            observed == (graph@.node(self.id()).observers > 0),
    {
        graph.is_observed(self.node)
    }
}

/// What a restart and a delivery leave of the cell.
pub proof fn lemma_async_steps(cell: Async, input: u64)
    ensures
        cell.restarted(input).id() == cell.id(),
        cell.restarted(input).pending_version() == cell.pending_version(),
        cell.restarted(input).revision_of() == Some(input),
        cell.token_of() < u64::MAX ==> cell.restarted(input).token_of() == cell.token_of() + 1,
        cell.restarted(input).in_flight(),
        cell.delivered().id() == cell.id(),
        cell.delivered().pending_version() == cell.pending_version(),
        cell.delivered().revision_of() == cell.revision_of(),
        cell.delivered().token_of() == cell.token_of(),
        !cell.delivered().in_flight(),
{
}

/// A task that was cancelled cannot publish. Once a change of the input has
/// started a new task, every token that was handed out before is refused, so
/// that the completion of an earlier task changes nothing; and a task that
/// has delivered cannot deliver again.
pub proof fn lemma_cancelled_task_is_refused(cell: Async, input: u64, token: u64)
    requires
        cell.restarts(input),
        token <= cell.token_of(),
    ensures
        !cell.restarted(input).accepts(token),
        !cell.delivered().accepts(token),
{
}

} // verus!
