use observe::{
    batch, in_batch, publish, Async, Computed, Error, Evaluation, Evaluator, Graph, Invalid, Keeps,
    Kind, Reaction, State, Update, Var, Version,
};

fn version_of(value: i64) -> Version {
    Version::Hash(fxhash::hash64(&value))
}

/// What a derived node of a `Net` computes from the nodes it reads.
#[derive(Clone)]
enum Rule {
    /// The sum of the nodes, plus a constant.
    Sum(Vec<usize>, i64),
    /// One node times a constant.
    Scale(usize, i64),
    /// One node times itself.
    Square(usize),
    /// Reports the sum of the nodes.
    Report(Vec<usize>),
    /// Copies one node into a source cell.
    Copy(usize, usize),
    /// Reads a source cell and writes it back raised by one.
    Raise(usize),
    /// Reads the nodes and does nothing.
    Watch(Vec<usize>),
}

/// A small interpreter for graphs of integers: the values of the nodes, the
/// rules of the derived ones, how often each rule has run and what the
/// reactions have reported.
struct Net {
    values: Vec<i64>,
    cells: Vec<Option<Computed<i64>>>,
    rules: Vec<Option<Rule>>,
    runs: Vec<u32>,
    reports: Vec<(usize, i64)>,
    observed: Vec<usize>,
    unobserved: Vec<usize>,
}

impl Net {
    fn new() -> Net {
        Net {
            values: Vec::new(),
            cells: Vec::new(),
            rules: Vec::new(),
            runs: Vec::new(),
            reports: Vec::new(),
            observed: Vec::new(),
            unobserved: Vec::new(),
        }
    }

    fn grow(&mut self, node: usize, value: i64, rule: Option<Rule>) {
        assert_eq!(node, self.values.len());
        self.values.push(value);
        self.cells.push(None);
        self.rules.push(rule);
        self.runs.push(0);
    }

    fn var(&mut self, graph: &mut Graph, value: i64) -> usize {
        let node = graph.add(Kind::Var, version_of(value));
        self.grow(node, value, None);
        node
    }

    fn computed(&mut self, graph: &mut Graph, rule: Rule) -> usize {
        let cell = Computed::new(graph);
        let node = cell.node();
        self.grow(node, 0, Some(rule));
        self.cells[node] = Some(cell);
        node
    }

    /// Keeps the value that the rule of `node` has produced, and returns the
    /// version under which it is published.
    fn keep(&mut self, node: usize, value: i64) -> Version {
        self.values[node] = value;
        match self.cells[node].as_mut() {
            Some(cell) => cell.store(value),
            None => version_of(value),
        }
    }

    fn reaction(&mut self, graph: &mut Graph, rule: Rule) -> usize {
        let node = graph.add(Kind::Reaction, Version::Hash(0));
        self.grow(node, 0, Some(rule));
        node
    }

    fn set(&mut self, graph: &mut Graph, node: usize, value: i64) -> bool {
        self.values[node] = value;
        publish(graph, self, node, version_of(value), Invalid::Definitely).unwrap()
    }

    fn read(&mut self, graph: &mut Graph, node: usize) -> i64 {
        if self.cells[node].is_some() {
            return *Computed::read_once(node, graph, self).unwrap().unwrap();
        }
        graph.get_once(node, self).unwrap();
        self.values[node]
    }

    /// A net with the same nodes in which every reaction only watches what the
    /// rule of this net's reaction reads.
    fn quiet(net: &Net) -> Net {
        let mut quiet = Net::new();
        quiet.values = net.values.clone();
        quiet.cells = net.values.iter().map(|_| None).collect();
        quiet.runs = net.runs.clone();
        quiet.rules = net
            .rules
            .iter()
            .map(|rule| match rule {
                Some(Rule::Raise(cell)) => Some(Rule::Watch(vec![*cell])),
                other => other.clone(),
            })
            .collect();
        quiet
    }

    fn take_reports(&mut self) -> Vec<(usize, i64)> {
        std::mem::take(&mut self.reports)
    }
}

impl Keeps<i64> for Net {
    fn cache(&self, n: usize) -> Option<&Computed<i64>> {
        self.cells.get(n).and_then(|cell| cell.as_ref())
    }
}

impl Evaluator for Net {
    fn eval(&mut self, graph: &mut Graph, cx: &mut Evaluation) -> Option<Version> {
        let node = cx.parent();
        self.runs[node] += 1;
        let rule = self.rules[node].clone().unwrap();
        match rule {
            Rule::Sum(nodes, plus) => {
                let mut sum = plus;
                for n in nodes {
                    graph.get(n, cx, self).unwrap();
                    sum += self.values[n];
                }
                Some(self.keep(node, sum))
            }
            Rule::Square(n) => {
                graph.get(n, cx, self).unwrap();
                let first = self.values[n];
                graph.get(n, cx, self).unwrap();
                let value = first * self.values[n];
                Some(self.keep(node, value))
            }
            Rule::Scale(n, by) => {
                graph.get(n, cx, self).unwrap();
                let value = self.values[n] * by;
                Some(self.keep(node, value))
            }
            Rule::Report(nodes) => {
                let mut sum = 0;
                for n in nodes {
                    graph.get(n, cx, self).unwrap();
                    sum += self.values[n];
                }
                self.reports.push((node, sum));
                None
            }
            Rule::Raise(cell) => {
                graph.get(cell, cx, self).unwrap();
                let value = self.values[cell] + 1;
                self.values[cell] = value;
                let _ = publish(graph, self, cell, version_of(value), Invalid::Definitely);
                None
            }
            Rule::Watch(nodes) => {
                for n in nodes {
                    graph.get(n, cx, self).unwrap();
                }
                None
            }
            Rule::Copy(from, to) => {
                graph.get(from, cx, self).unwrap();
                let value = self.values[from];
                self.values[to] = value;
                let _ = publish(graph, self, to, version_of(value), Invalid::Definitely);
                None
            }
        }
    }

    fn on_become_observed(&mut self, node: usize) {
        self.observed.push(node);
    }

    fn on_become_unobserved(&mut self, node: usize) {
        self.unobserved.push(node);
    }
}

fn no_batch(_: &mut Graph, _: &mut Net) {}

/// A batch whose drain must not fail.
fn batched<E: Evaluator, F: FnOnce(&mut Graph, &mut E)>(graph: &mut Graph, ev: &mut E, func: F) {
    assert_eq!(batch(graph, ev, func), Ok(()));
}

#[test]
fn counter_follows_its_source() {
    let mut graph = Graph::new();
    let mut net = Net::new();
    let a = net.var(&mut graph, 10);
    let b = net.computed(&mut graph, Rule::Sum(vec![a], 10));
    assert_eq!(net.read(&mut graph, b), 20);
    assert!(net.set(&mut graph, a, 20));
    assert_eq!(net.read(&mut graph, b), 30);
    assert_eq!(net.runs[b], 2);
}

#[test]
fn diamond_runs_the_reaction_once() {
    let mut graph = Graph::new();
    let mut net = Net::new();
    let a = net.var(&mut graph, 1);
    let d = net.computed(&mut graph, Rule::Scale(a, 2));
    let e = net.computed(&mut graph, Rule::Scale(a, 3));
    let f = net.computed(&mut graph, Rule::Sum(vec![d, e], 0));
    let r = net.reaction(&mut graph, Rule::Report(vec![f]));
    graph.arm(r).unwrap();
    assert_eq!(graph.update(r, &mut net), Ok(Update::Recomputed));
    assert_eq!(net.take_reports(), vec![(r, 5)]);
    assert_eq!(graph.observers(f), 1);
    assert_eq!(graph.observers(d), 1);
    assert_eq!(graph.observers(e), 1);
    assert_eq!(graph.observers(a), 2);

    batched(&mut graph, &mut net, |graph: &mut Graph, net: &mut Net| {
        net.set(graph, a, 2);
        net.set(graph, a, 2);
        net.set(graph, a, 3);
        assert!(net.reports.is_empty());
        assert_eq!(graph.changed(), &vec![r]);
    });
    assert_eq!(net.take_reports(), vec![(r, 15)]);
    assert_eq!(net.values[f], 15);
    assert_eq!(net.runs[r], 2);
}

#[test]
fn write_of_the_same_value_runs_nothing() {
    let mut graph = Graph::new();
    let mut net = Net::new();
    let a = net.var(&mut graph, 1);
    let r = net.reaction(&mut graph, Rule::Report(vec![a]));
    graph.arm(r).unwrap();
    graph.update(r, &mut net).unwrap();
    assert_eq!(net.take_reports(), vec![(r, 1)]);
    batched(&mut graph, &mut net, |graph: &mut Graph, net: &mut Net| {
        assert!(!net.set(graph, a, 1));
    });
    assert!(net.reports.is_empty());
    assert_eq!(net.runs[r], 1);
    assert_eq!(graph.state(r), State::Valid);
}

#[test]
fn chain_recomputes_each_link_once() {
    let mut graph = Graph::new();
    let mut net = Net::new();
    let v = net.var(&mut graph, 10);
    let d = net.computed(&mut graph, Rule::Scale(v, 2));
    let q = net.computed(&mut graph, Rule::Scale(d, 2));
    assert_eq!(net.read(&mut graph, q), 40);
    assert_eq!(net.read(&mut graph, q), 40);
    assert_eq!((net.runs[d], net.runs[q]), (1, 1));
    net.set(&mut graph, v, 20);
    net.set(&mut graph, v, 20);
    net.set(&mut graph, v, 20);
    assert_eq!(graph.state(d), State::Invalid(Invalid::Definitely));
    assert_eq!(graph.state(q), State::Invalid(Invalid::Maybe));
    assert_eq!(net.read(&mut graph, q), 80);
    assert_eq!((net.runs[d], net.runs[q]), (2, 2));
}

#[test]
fn nested_batches_run_reactions_at_the_outer_end() {
    let mut graph = Graph::new();
    let mut net = Net::new();
    let a = net.var(&mut graph, 10);
    let r = net.reaction(&mut graph, Rule::Report(vec![a]));
    graph.arm(r).unwrap();
    graph.update(r, &mut net).unwrap();
    net.take_reports();
    batched(&mut graph, &mut net, |graph: &mut Graph, net: &mut Net| {
        batched(graph, net, |graph: &mut Graph, net: &mut Net| {
            net.set(graph, a, 20);
            net.set(graph, a, 30);
            net.set(graph, a, 40);
            assert!(in_batch(graph));
        });
        assert!(in_batch(graph));
        assert!(net.reports.is_empty());
    });
    assert!(!in_batch(&graph));
    assert_eq!(net.take_reports(), vec![(r, 40)]);
}

/// An asynchronous cell over the input `a`, with the tasks it has asked for.
struct Remote {
    input: Var<bool>,
    cell: Async,
    spawned: Vec<u64>,
}

impl Evaluator for Remote {
    fn eval(&mut self, graph: &mut Graph, cx: &mut Evaluation) -> Option<Version> {
        assert_eq!(cx.parent(), self.cell.node());
        let input = *self.input.get(graph, cx).unwrap();
        match self.cell.restart(fxhash::hash64(&input)) {
            Some(token) => {
                self.spawned.push(token);
                Some(self.cell.pending())
            }
            None => None,
        }
    }
}

const PENDING: Version = Version::Hash(0);
const READY_TRUE: Version = Version::Hash(1);

#[test]
fn async_respawn_discards_the_cancelled_task() {
    let mut graph = Graph::new();
    let input = Var::new(&mut graph, true);
    let cell = Async::new(&mut graph, PENDING);
    let node = cell.node();
    let mut remote = Remote { input, cell, spawned: Vec::new() };

    // the first read starts a task and sees a pending cell
    assert_eq!(graph.get_once(node, &mut remote), Ok(PENDING));
    assert_eq!(remote.spawned, vec![1]);
    assert!(remote.deliver(&mut graph, 1, READY_TRUE));
    assert_eq!(graph.get_once(node, &mut remote), Ok(READY_TRUE));

    // the input changes twice before the next task delivers
    remote.set(&mut graph, false);
    assert_eq!(graph.get_once(node, &mut remote), Ok(PENDING));
    remote.set(&mut graph, true);
    assert_eq!(graph.get_once(node, &mut remote), Ok(PENDING));
    assert_eq!(remote.spawned, vec![1, 2, 3]);

    // the cancelled task delivers: nothing happens
    assert!(!remote.deliver(&mut graph, 2, Version::Hash(2)));
    assert_eq!(graph.version(node), PENDING);
    assert!(remote.cell.is_running());
    // the current task delivers, once
    assert!(remote.deliver(&mut graph, 3, READY_TRUE));
    assert!(!remote.deliver(&mut graph, 3, Version::Hash(4)));
    assert_eq!(graph.get_once(node, &mut remote), Ok(READY_TRUE));
    assert_eq!(remote.spawned, vec![1, 2, 3]);
}

impl Remote {
    fn set(&mut self, graph: &mut Graph, value: bool) {
        let version = self.input.assign(value);
        let node = self.input.node();
        publish(graph, self, node, version, Invalid::Definitely).unwrap();
    }

    /// What the runtime does when the task that holds `token` is done.
    fn deliver(&mut self, graph: &mut Graph, token: u64, value: Version) -> bool {
        if !self.cell.accept(token) {
            return false;
        }
        let node = self.cell.node();
        publish(graph, self, node, value, Invalid::Maybe).unwrap();
        true
    }
}

/// `b = a + 10`, and a reaction that reports `a + b`, with typed cells.
struct Counter {
    a: Var<u64>,
    b: Computed<u64>,
    r: Reaction,
    seen: Vec<u64>,
}

impl Evaluator for Counter {
    fn eval(&mut self, graph: &mut Graph, cx: &mut Evaluation) -> Option<Version> {
        let node = cx.parent();
        if node == self.b.node() {
            let a = *self.a.get(graph, cx).unwrap();
            Some(self.b.store(a + 10))
        } else {
            let a = *self.a.get(graph, cx).unwrap();
            graph.get(self.b.node(), cx, self).unwrap();
            let b = *self.b.peek().unwrap();
            self.seen.push(a + b);
            None
        }
    }
}

impl Counter {
    fn set(&mut self, graph: &mut Graph, value: u64) {
        let version = self.a.assign(value);
        let node = self.a.node();
        publish(graph, self, node, version, Invalid::Definitely).unwrap();
    }
}

#[test]
fn computed() {
    let mut graph = Graph::new();
    let a = Var::new(&mut graph, 10u64);
    assert_eq!(*a.get_once(), 10);
    let b = Computed::new(&mut graph);
    let r = Reaction::new(&mut graph);
    let mut world = Counter { a, b, r, seen: Vec::new() };

    graph.get_once(world.b.node(), &mut world).unwrap();
    assert_eq!(*world.b.peek().unwrap(), 20);

    assert_eq!(r.update(&mut graph, &mut world), Ok(Update::Recomputed));
    assert_eq!(world.seen, vec![30]);
    world.seen.clear();

    batched(&mut graph, &mut world, |graph: &mut Graph, world: &mut Counter| {
        world.set(graph, 20);
        world.set(graph, 20);
        world.set(graph, 20);
        world.set(graph, 20);
    });

    graph.get_once(world.b.node(), &mut world).unwrap();
    assert_eq!(*world.b.peek().unwrap(), 30);
    assert_eq!(world.seen, vec![50]);
}

#[test]
fn check_invalidation() {
    let mut graph = Graph::new();
    let mut net = Net::new();
    let a = net.var(&mut graph, 1);
    let reaction = net.reaction(&mut graph, Rule::Report(vec![a]));
    graph.update(reaction, &mut net).unwrap();
    assert_eq!(net.take_reports(), vec![(reaction, 1)]);
    batched(&mut graph, &mut net, |graph: &mut Graph, net: &mut Net| {
        net.set(graph, a, 1);
    });
    assert_eq!(net.take_reports(), vec![]);
}

#[test]
fn simple_computed() {
    let mut graph = Graph::new();
    let mut net = Net::new();
    let value = net.var(&mut graph, 10);
    let computed = net.computed(&mut graph, Rule::Scale(value, 2));
    assert_eq!(net.read(&mut graph, computed), 20);
    assert_eq!(net.runs[computed], 1);
    net.set(&mut graph, value, 30);
    net.set(&mut graph, value, 40);
    net.set(&mut graph, value, 30);
    assert_eq!(net.read(&mut graph, computed), 60);
    assert_eq!(net.runs[computed], 2);
}

#[test]
fn computed_chain() {
    let mut graph = Graph::new();
    let mut net = Net::new();
    let value = net.var(&mut graph, 10);
    let double = net.computed(&mut graph, Rule::Scale(value, 2));
    let quadruple = net.computed(&mut graph, Rule::Scale(double, 2));
    assert_eq!((net.runs[double], net.runs[quadruple]), (0, 0));
    assert_eq!(net.read(&mut graph, quadruple), 40);
    assert_eq!((net.runs[double], net.runs[quadruple]), (1, 1));
    net.set(&mut graph, value, 20);
    net.set(&mut graph, value, 20);
    net.set(&mut graph, value, 20);
    assert_eq!(net.read(&mut graph, quadruple), 80);
    assert_eq!(net.read(&mut graph, quadruple), 80);
    assert_eq!((net.runs[double], net.runs[quadruple]), (2, 2));
}

#[test]
fn check_autorun() {
    let mut graph = Graph::new();
    let mut net = Net::new();
    let value = net.var(&mut graph, 10);
    let reaction = net.reaction(&mut graph, Rule::Report(vec![value]));
    graph.arm(reaction).unwrap();
    graph.update(reaction, &mut net).unwrap();
    assert_eq!(net.take_reports(), vec![(reaction, 10)]);

    // the same value twice fires once
    net.set(&mut graph, value, 20);
    net.set(&mut graph, value, 20);
    net.set(&mut graph, value, 30);
    assert_eq!(net.take_reports(), vec![(reaction, 20), (reaction, 30)]);

    batched(&mut graph, &mut net, |graph: &mut Graph, net: &mut Net| {
        // the inner batch does not fire
        batched(graph, net, |graph: &mut Graph, net: &mut Net| {
            net.set(graph, value, 20);
            net.set(graph, value, 30);
            net.set(graph, value, 40);
        });
        assert_eq!(net.take_reports(), vec![]);
    });
    assert_eq!(net.take_reports(), vec![(reaction, 40)]);
}

#[test]
fn store() {
    let mut graph = Graph::new();
    let mut net = Net::new();
    let value = net.var(&mut graph, 0);
    let computed = net.computed(&mut graph, Rule::Square(value));
    let reaction = net.reaction(&mut graph, Rule::Report(vec![computed]));
    let data = Async::new(&mut graph, PENDING);
    net.grow(data.node(), 0, None);
    graph.arm(reaction).unwrap();
    graph.update(reaction, &mut net).unwrap();
    batched(&mut graph, &mut net, |graph: &mut Graph, net: &mut Net| {
        net.set(graph, value, 10);
        net.set(graph, value, 20);
        net.set(graph, value, 30);
    });
    assert_eq!(net.take_reports(), vec![(reaction, 0), (reaction, 900)]);
    assert_eq!(graph.dependencies(computed).len(), 1);
    assert!(!data.is_running());
    batched(&mut graph, &mut net, no_batch);
}

#[test]
fn unchanged_intermediate_spares_the_reader() {
    // q reads d, d reads v; d's value does not depend on the sign of v
    let mut graph = Graph::new();
    let mut net = Net::new();
    let v = net.var(&mut graph, 3);
    let zero = net.computed(&mut graph, Rule::Scale(v, 0));
    let q = net.computed(&mut graph, Rule::Sum(vec![zero], 1));
    assert_eq!(net.read(&mut graph, q), 1);
    net.set(&mut graph, v, 4);
    assert_eq!(graph.state(q), State::Invalid(Invalid::Maybe));
    assert_eq!(graph.get_once(q, &mut net).map(|_| ()), Ok(()));
    assert_eq!(net.runs[zero], 2);
    assert_eq!(net.runs[q], 1);
    assert_eq!(graph.update(q, &mut net), Ok(Update::Unchanged));
}

#[test]
fn arming_tells_what_became_observed() {
    let mut graph = Graph::new();
    let mut net = Net::new();
    let a = net.var(&mut graph, 1);
    let d = net.computed(&mut graph, Rule::Scale(a, 2));
    let r = net.reaction(&mut graph, Rule::Report(vec![d]));
    let handle = Reaction::new(&mut graph);
    net.grow(handle.node(), 0, Some(Rule::Report(vec![d])));
    // an armed reaction that has read nothing observes nothing
    assert_eq!(handle.arm(&mut graph, &mut net), Ok(Update::Recomputed));
    assert_eq!(net.observed, vec![a, d]);
    assert_eq!(graph.update(r, &mut net), Ok(Update::Recomputed));
    assert_eq!(graph.observers(d), 1);
    assert_eq!(graph.arm(r), Ok(()));
    assert_eq!(graph.observers(d), 2);
    assert_eq!(graph.observers(a), 2);
    assert_eq!(graph.release_and_notify(r, &mut net), Ok(()));
    assert_eq!(graph.observers(a), 1);
    assert!(net.unobserved.is_empty());
    assert_eq!(graph.release_and_notify(handle.node(), &mut net), Ok(()));
    assert_eq!(net.unobserved, vec![a, d]);
    assert_eq!(graph.release(handle.node()), Err(Error::Missing));
}

#[test]
fn what_a_reaction_writes_is_drained_in_a_later_round() {
    let mut graph = Graph::new();
    let mut net = Net::new();
    let a = net.var(&mut graph, 1);
    let b = net.var(&mut graph, 0);
    let copy = net.reaction(&mut graph, Rule::Copy(a, b));
    let report = net.reaction(&mut graph, Rule::Report(vec![b]));
    graph.arm(copy).unwrap();
    graph.arm(report).unwrap();
    batched(&mut graph, &mut net, |graph: &mut Graph, net: &mut Net| {
        graph.update(copy, net).unwrap();
        graph.update(report, net).unwrap();
    });
    assert_eq!(net.take_reports(), vec![(report, 1)]);
    // one write from outside: the copy runs in the first round of the
    // drain, what it writes is reported in the second
    net.set(&mut graph, a, 5);
    assert_eq!(net.values[b], 5);
    assert_eq!(net.take_reports(), vec![(report, 5)]);
    assert!(!in_batch(&graph));
    assert!(graph.changed().is_empty());
}

#[test]
fn a_reaction_that_overtakes_itself_fails_the_drain() {
    let mut graph = Graph::new();
    let mut net = Net::new();
    let a = net.var(&mut graph, 1);
    let raise = net.reaction(&mut graph, Rule::Raise(a));
    graph.arm(raise).unwrap();
    assert_eq!(graph.update(raise, &mut net), Err(Error::Stale));
    assert_eq!(net.values[a], 2);
    assert_eq!(graph.state(raise), State::Invalid(Invalid::Definitely));
    // the read has registered the reaction with the cell
    assert_eq!(graph.dependencies(raise).len(), 1);
    assert_eq!(graph.dependents(a), &vec![raise]);
    // the reaction is not valid, so a write from outside drains nothing
    assert_eq!(publish(&mut graph, &mut net, a, version_of(7), Invalid::Definitely), Ok(true));
    // let the reaction read the cell without writing, so that it is valid
    graph.update_unchecked(raise, &mut Net::quiet(&net)).unwrap();
    assert_eq!(graph.state(raise), State::Valid);
    // now a write queues it, and the drain reports that it cannot be settled
    net.values[a] = 8;
    assert_eq!(
        publish(&mut graph, &mut net, a, version_of(8), Invalid::Definitely),
        Err(Error::Stale)
    );
    assert!(!in_batch(&graph));
}

#[test]
fn futured() {
    let mut graph = Graph::new();
    let input = Var::new(&mut graph, true);
    let cell = Async::new(&mut graph, PENDING);
    let node = cell.node();
    let mut remote = Remote { input, cell, spawned: Vec::new() };
    assert_eq!(graph.get_once(node, &mut remote), Ok(PENDING));
    assert!(remote.cell.is_running());
    // the task resolves to true
    assert!(remote.deliver(&mut graph, 1, READY_TRUE));
    assert_eq!(graph.get_once(node, &mut remote), Ok(READY_TRUE));
    assert!(!remote.cell.is_running());
}

#[test]
fn effect() {
    let mut graph = Graph::new();
    let input = Var::new(&mut graph, true);
    let cell = Async::new(&mut graph, PENDING);
    let remote = Remote { input, cell, spawned: Vec::new() };
    assert!(remote.spawned.is_empty());
    assert_eq!(graph.state(remote.cell.node()), State::Invalid(Invalid::Definitely));
}

#[test]
fn test() {
    let mut graph = Graph::new();
    let mut net = Net::new();
    let a = net.var(&mut graph, 10);
    // a cell whose task hands back what it captured
    let mut cell = Async::new(&mut graph, PENDING);
    net.grow(cell.node(), 0, Some(Rule::Watch(vec![a])));
    assert_eq!(graph.get_once(cell.node(), &mut net), Ok(PENDING));
    let token = cell.restart(fxhash::hash64(&net.values[a])).unwrap();
    assert!(cell.accept(token));
    net.values[cell.node()] = net.values[a];
    assert_eq!(
        publish(&mut graph, &mut net, cell.node(), version_of(10), Invalid::Maybe),
        Ok(true)
    );
    assert_eq!(graph.get_once(cell.node(), &mut net), Ok(version_of(10)));
    assert_eq!(net.values[cell.node()], 10);
}
