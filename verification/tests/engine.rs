use observe::batch::{batch_start, batch_start_microtask, batch_stop, is_microtask_scheduled};
use observe::observers::saturating_sum;
use observe::{
    batch_microtask, batch_run, in_batch, microtask_run, Dependencies, Error, Evaluation,
    Evaluator, Graph, Inert, Invalid, Invalidate, Kind, State, Update, Version,
};

const V0: Version = Version::Hash(0);

fn hash(n: u64) -> Version {
    Version::Hash(n)
}

/// Installs an evaluation of `node` that has read `reads` at the versions
/// they publish now, and that produced `version`.
fn evaluate(graph: &mut Graph, node: usize, reads: &[usize], version: Option<Version>) -> Result<bool, Error> {
    let mut cx = Evaluation::new(node);
    for &upstream in reads {
        graph.read(upstream, &mut cx)?;
    }
    graph.commit(cx, version)
}

/// An evaluator that rereads what each node read last and publishes a
/// version that is fixed in advance.
struct Replay {
    publishes: Vec<Option<Version>>,
    runs: Vec<usize>,
    scheduled: Vec<usize>,
    told: Vec<usize>,
    observed: Vec<usize>,
}

impl Replay {
    fn new(nodes: usize) -> Replay {
        Replay {
            publishes: vec![None; nodes],
            runs: Vec::new(),
            scheduled: Vec::new(),
            told: Vec::new(),
            observed: Vec::new(),
        }
    }
}

impl Evaluator for Replay {
    fn eval(&mut self, graph: &mut Graph, cx: &mut Evaluation) -> Option<Version> {
        let node = cx.parent();
        self.runs.push(node);
        let mut reads = Vec::new();
        let deps = graph.dependencies(node);
        for i in 0..deps.len() {
            reads.push(deps.entry(i).0);
        }
        for upstream in reads {
            graph.get(upstream, cx, self).unwrap();
        }
        self.publishes[node]
    }

    fn is_scheduled(&self, node: usize) -> bool {
        self.scheduled.contains(&node)
    }

    fn on_reaction(&mut self, node: usize) {
        self.told.push(node);
    }

    fn on_become_observed(&mut self, node: usize) {
        self.observed.push(node);
    }
}

/// a (var) <- d, e (computed) <- f (computed) <- r (reaction)
fn diamond(graph: &mut Graph) -> (usize, usize, usize, usize, usize) {
    let a = graph.add(Kind::Var, hash(1));
    let d = graph.add(Kind::Computed, V0);
    let e = graph.add(Kind::Computed, V0);
    let f = graph.add(Kind::Computed, V0);
    let r = graph.add(Kind::Reaction, V0);
    assert_eq!(evaluate(graph, d, &[a], Some(hash(2))), Ok(true));
    assert_eq!(evaluate(graph, e, &[a], Some(hash(3))), Ok(true));
    assert_eq!(evaluate(graph, f, &[d, e], Some(hash(5))), Ok(true));
    assert_eq!(evaluate(graph, r, &[f], None), Ok(false));
    (a, d, e, f, r)
}

#[test]
fn new_nodes_start_definitely_invalid() {
    let mut graph = Graph::new();
    assert_eq!(graph.len(), 0);
    let a = graph.add(Kind::Var, hash(7));
    let c = graph.add(Kind::Computed, V0);
    assert_eq!((a, c), (0, 1));
    assert_eq!(graph.len(), 2);
    assert!(graph.has(1) && !graph.has(2));
    for n in [a, c] {
        assert_eq!(graph.state(n), State::Invalid(Invalid::Definitely));
        assert!(!graph.is_valid(n));
        assert!(graph.is_alive(n));
        assert!(!graph.is_armed(n));
        assert_eq!(graph.observers(n), 0);
        assert!(!graph.is_observed(n));
        assert_eq!(graph.dependencies(n).len(), 0);
        assert!(graph.dependents(n).is_empty());
    }
    assert_eq!(graph.kind(a), Kind::Var);
    assert_eq!(graph.kind(c), Kind::Computed);
    assert_eq!(graph.version(a), hash(7));
    assert_eq!(graph.hash(a), 7);
    assert!(!graph.in_batch());
    assert!(graph.changed().is_empty());
}

#[test]
fn a_source_is_valid_from_the_first_read() {
    let mut graph = Graph::new();
    let a = graph.add(Kind::Var, hash(7));
    assert!(graph.is_settled(a));
    assert!(!graph.should_evaluate(a, &mut Inert));
    assert_eq!(graph.update(a, &mut Inert), Ok(Update::Revalidated));
    assert_eq!(graph.state(a), State::Valid);
    assert_eq!(graph.update(a, &mut Inert), Ok(Update::Unchanged));
    // a write does not touch the state of the source itself
    assert_eq!(graph.change(a, hash(8), Invalid::Definitely), Ok(true));
    assert_eq!(graph.state(a), State::Valid);
    assert_eq!(graph.version(a), hash(8));
}

#[test]
fn commit_records_reads_on_both_sides() {
    let mut graph = Graph::new();
    let (a, d, e, f, r) = diamond(&mut graph);
    assert_eq!(graph.dependents(a), &vec![d, e]);
    assert_eq!(graph.dependents(d), &vec![f]);
    assert_eq!(graph.dependents(e), &vec![f]);
    assert_eq!(graph.dependents(f), &vec![r]);
    let deps = graph.dependencies(f);
    assert_eq!(deps.len(), 2);
    assert_eq!(deps.entry(0), (d, hash(2)));
    assert_eq!(deps.entry(1), (e, hash(3)));
    for n in [a, d, e, f, r] {
        assert_eq!(graph.state(n), State::Valid);
    }
    // f now reads e alone: it leaves the readers of d
    assert_eq!(evaluate(&mut graph, f, &[e], Some(hash(5))), Ok(false));
    assert!(graph.dependents(d).is_empty());
    assert_eq!(graph.dependents(e), &vec![f]);
    assert_eq!(graph.dependencies(f).len(), 1);
    assert_eq!(graph.state(r), State::Valid);
}

#[test]
fn a_write_marks_readers_definitely_and_the_rest_maybe() {
    let mut graph = Graph::new();
    let (a, d, e, f, r) = diamond(&mut graph);
    let other = graph.add(Kind::Var, hash(9));
    let lone = graph.add(Kind::Computed, V0);
    evaluate(&mut graph, lone, &[other], Some(hash(9))).unwrap();
    assert!(batch_start(&mut graph));
    assert_eq!(graph.change(a, hash(2), Invalid::Definitely), Ok(true));
    assert_eq!(graph.state(a), State::Valid);
    assert_eq!(graph.state(d), State::Invalid(Invalid::Definitely));
    assert_eq!(graph.state(e), State::Invalid(Invalid::Definitely));
    assert_eq!(graph.state(f), State::Invalid(Invalid::Maybe));
    assert_eq!(graph.state(r), State::Invalid(Invalid::Maybe));
    assert_eq!(graph.state(lone), State::Valid);
    assert_eq!(graph.changed(), &vec![r]);
    // further writes queue nothing more
    assert_eq!(graph.change(a, hash(3), Invalid::Definitely), Ok(true));
    assert_eq!(graph.change(a, hash(3), Invalid::Definitely), Ok(false));
    assert_eq!(graph.changed(), &vec![r]);
    assert_eq!(graph.version(a), hash(3));
}

#[test]
fn a_write_of_the_published_version_changes_nothing() {
    let mut graph = Graph::new();
    let (a, d, e, f, r) = diamond(&mut graph);
    assert_eq!(graph.change(a, hash(1), Invalid::Definitely), Ok(false));
    for n in [a, d, e, f, r] {
        assert_eq!(graph.state(n), State::Valid);
    }
    assert!(graph.changed().is_empty());
    assert_eq!(graph.update(r, &mut Inert), Ok(Update::Unchanged));
}

#[test]
fn a_possibly_invalid_node_is_settled_by_unchanged_versions() {
    let mut graph = Graph::new();
    let (a, d, e, f, r) = diamond(&mut graph);
    batch_start(&mut graph);
    graph.change(a, hash(2), Invalid::Definitely).unwrap();
    // d and e are recomputed and publish what they published before
    assert_eq!(evaluate(&mut graph, d, &[a], Some(hash(2))), Ok(false));
    assert_eq!(evaluate(&mut graph, e, &[a], Some(hash(3))), Ok(false));
    assert!(graph.is_settled(f));
    assert!(!graph.is_settled(r));
    assert!(!graph.revalidate(r));
    assert!(graph.revalidate(f));
    assert_eq!(graph.state(f), State::Valid);
    assert!(graph.revalidate(r));
    assert_eq!(graph.state(r), State::Valid);
    // nothing was run for it
    assert_eq!(graph.update(r, &mut Inert), Ok(Update::Unchanged));
}

#[test]
fn update_stops_at_the_first_changed_version() {
    let mut graph = Graph::new();
    let (a, d, e, f, r) = diamond(&mut graph);
    let mut replay = Replay::new(graph.len());
    replay.publishes[d] = Some(hash(4));
    replay.publishes[e] = Some(hash(6));
    replay.publishes[f] = Some(hash(10));
    batch_start(&mut graph);
    graph.change(a, hash(2), Invalid::Definitely).unwrap();
    batch_stop(&mut graph);
    assert_eq!(graph.update(r, &mut replay), Ok(Update::Recomputed));
    // r brings f up to date; f brings d up to date, finds it changed and
    // is rerun, which brings e up to date
    assert_eq!(replay.runs, vec![d, f, e, r]);
    for n in [a, d, e, f, r] {
        assert_eq!(graph.state(n), State::Valid);
    }
    assert_eq!(graph.version(f), hash(10));
}

#[test]
fn update_revalidates_without_running_the_reader() {
    let mut graph = Graph::new();
    let (a, d, e, f, r) = diamond(&mut graph);
    let mut replay = Replay::new(graph.len());
    replay.publishes[d] = Some(hash(2));
    replay.publishes[e] = Some(hash(3));
    batch_start(&mut graph);
    graph.change(a, hash(2), Invalid::Definitely).unwrap();
    batch_stop(&mut graph);
    assert_eq!(graph.update(r, &mut replay), Ok(Update::Revalidated));
    assert_eq!(replay.runs, vec![d, e]);
    assert_eq!(graph.state(f), State::Valid);
}

#[test]
fn invalidate_spreads_as_maybe_and_upgrades() {
    let mut graph = Graph::new();
    let (a, d, e, f, r) = diamond(&mut graph);
    batch_start(&mut graph);
    assert_eq!(graph.invalidate(d, Invalid::Maybe, Invalidate::SelfAndDeps), Ok(()));
    assert_eq!(graph.state(a), State::Valid);
    assert_eq!(graph.state(d), State::Invalid(Invalid::Maybe));
    assert_eq!(graph.state(e), State::Valid);
    assert_eq!(graph.state(f), State::Invalid(Invalid::Maybe));
    assert_eq!(graph.state(r), State::Invalid(Invalid::Maybe));
    assert_eq!(graph.changed(), &vec![r]);
    // maybe becomes definitely, definitely stays
    assert_eq!(graph.invalidate(d, Invalid::Definitely, Invalidate::SelfAndDeps), Ok(()));
    assert_eq!(graph.state(d), State::Invalid(Invalid::Definitely));
    assert_eq!(graph.invalidate(d, Invalid::Maybe, Invalidate::SelfAndDeps), Ok(()));
    assert_eq!(graph.state(d), State::Invalid(Invalid::Definitely));
    assert_eq!(graph.state(f), State::Invalid(Invalid::Maybe));
    assert_eq!(graph.changed(), &vec![r]);
    // only the readers
    assert_eq!(graph.invalidate(e, Invalid::Definitely, Invalidate::OnlyDeps), Ok(()));
    assert_eq!(graph.state(e), State::Valid);
    assert_eq!(graph.state(f), State::Invalid(Invalid::Definitely));
}

#[test]
fn a_reaction_is_not_invalidated_outside_a_batch() {
    let mut graph = Graph::new();
    let (a, d, _e, f, r) = diamond(&mut graph);
    assert!(graph.queues(r, Invalidate::SelfAndDeps));
    assert!(graph.queues(d, Invalidate::SelfAndDeps));
    assert!(graph.queues(a, Invalidate::OnlyDeps));
    assert!(!graph.queues(r, Invalidate::OnlyDeps));
    assert_eq!(
        graph.invalidate(d, Invalid::Maybe, Invalidate::SelfAndDeps),
        Err(Error::NotInBatch)
    );
    assert_eq!(graph.state(d), State::Valid);
    assert_eq!(graph.state(f), State::Valid);
    assert!(graph.changed().is_empty());
    // where no reaction is reached there is nothing to refuse
    assert_eq!(graph.invalidate(r, Invalid::Maybe, Invalidate::OnlyDeps), Ok(()));
    batch_start(&mut graph);
    assert_eq!(graph.invalidate(r, Invalid::Definitely, Invalidate::SelfAndDeps), Ok(()));
    assert_eq!(graph.state(r), State::Invalid(Invalid::Definitely));
    assert_eq!(graph.changed(), &vec![r]);
    assert!(!graph.queues(r, Invalidate::SelfAndDeps));
}

#[test]
fn downstream_marks_what_depends_on_a_node() {
    let mut graph = Graph::new();
    let (a, d, e, f, r) = diamond(&mut graph);
    let other = graph.add(Kind::Var, hash(9));
    assert_eq!(graph.downstream(a), vec![false, true, true, true, true, false]);
    assert_eq!(graph.downstream(d), vec![false, false, false, true, true, false]);
    assert_eq!(graph.downstream(r), vec![false; 6]);
    assert_eq!(graph.downstream(other), vec![false; 6]);
    let _ = (e, f);
}

#[test]
fn commit_refuses_what_it_cannot_install() {
    let mut graph = Graph::new();
    let a = graph.add(Kind::Var, hash(1));
    let c = graph.add(Kind::Computed, V0);
    assert_eq!(graph.commit(Evaluation::new(7), None), Err(Error::Missing));
    assert_eq!(graph.commit(Evaluation::new(a), None), Err(Error::NotDerived));
    let k = graph.add(Kind::Const, hash(1));
    assert_eq!(graph.commit(Evaluation::new(k), None), Err(Error::NotDerived));
    // a read that was overtaken by a write
    let mut cx = Evaluation::new(c);
    assert_eq!(graph.read(a, &mut cx), Ok(hash(1)));
    graph.change(a, hash(2), Invalid::Definitely).unwrap();
    assert_eq!(graph.commit(cx, Some(hash(5))), Err(Error::Stale));
    assert_eq!(graph.state(c), State::Invalid(Invalid::Definitely));
    assert_eq!(graph.version(c), V0);
    // the read itself has registered c as a reader of a
    assert_eq!(graph.dependents(a), &vec![c]);
    assert_eq!(graph.dependencies(c).entry(0), (a, hash(1)));
    // a node that was released
    assert_eq!(graph.release(c), Ok(()));
    assert_eq!(graph.commit(Evaluation::new(c), None), Err(Error::Missing));
    assert_eq!(graph.update(c, &mut Inert), Err(Error::Missing));
    assert_eq!(graph.update_unchecked(a, &mut Inert), Err(Error::NotDerived));
    assert_eq!(graph.update_unchecked(9, &mut Inert), Err(Error::Missing));
}

#[test]
fn reads_are_refused_by_state_and_not_by_age() {
    let mut graph = Graph::new();
    let a = graph.add(Kind::Var, hash(1));
    let c = graph.add(Kind::Computed, V0);
    let d = graph.add(Kind::Computed, V0);
    let mut cx = Evaluation::new(c);
    assert_eq!(cx.parent(), c);
    // a node does not read itself
    assert_eq!(graph.read(c, &mut cx), Err(Error::Order));
    assert_eq!(graph.get(c, &mut cx, &mut Inert), Err(Error::Order));
    assert!(!cx.based_on(c, V0));
    // d has never been computed: it cannot be read without running it
    assert_eq!(graph.read(d, &mut cx), Err(Error::Stale));
    assert!(graph.dependents(d).is_empty());
    // d was created after c, and c reads it all the same
    assert_eq!(graph.rank(c), 0);
    assert_eq!(graph.rank(d), 0);
    assert_eq!(graph.get(d, &mut cx, &mut Inert), Ok(V0));
    assert_eq!(graph.state(d), State::Valid);
    assert_eq!(graph.dependents(d), &vec![c]);
    assert_eq!(graph.dependencies(c).entry(0), (d, V0));
    assert!(graph.rank(c) > graph.rank(d));
    assert_eq!(graph.read(a, &mut cx), Ok(hash(1)));
    assert_eq!(cx.dependencies().len(), 2);
    assert_eq!(cx.dependencies().entry(0), (d, V0));
    assert_eq!(cx.dependencies().entry(1), (a, hash(1)));
    assert_eq!(graph.commit(cx, Some(hash(5))), Ok(true));
    assert_eq!(graph.state(c), State::Valid);
    // d cannot read c in turn: c has read d
    let mut later = Evaluation::new(d);
    assert_eq!(graph.read(c, &mut later), Err(Error::Order));
    assert_eq!(graph.get(c, &mut later, &mut Inert), Err(Error::Order));
    assert!(graph.dependents(c).is_empty());
    assert_eq!(later.dependencies().len(), 0);
    assert_eq!(graph.read(a, &mut later), Ok(hash(1)));
    assert_eq!(later.take().entry(0), (a, hash(1)));
    // a record that was not made through the graph is held against the ranks
    let mut loose = Evaluation::new(d);
    assert!(loose.based_on(c, hash(5)));
    assert_eq!(graph.commit(loose, None), Err(Error::Order));
    assert!(graph.dependents(c).is_empty());
}

#[test]
fn a_reader_is_raised_with_everything_that_has_read_it() {
    let mut graph = Graph::new();
    let c = graph.add(Kind::Computed, V0);
    let q = graph.add(Kind::Computed, V0);
    let other = graph.add(Kind::Computed, V0);
    // q reads c
    assert_eq!(evaluate(&mut graph, c, &[], Some(hash(1))), Ok(true));
    assert_eq!(evaluate(&mut graph, q, &[c], Some(hash(2))), Ok(true));
    assert_eq!(evaluate(&mut graph, other, &[], Some(hash(3))), Ok(true));
    assert_eq!((graph.rank(c), graph.rank(q), graph.rank(other)), (0, 1, 0));
    // two cells made later, one read by the other
    let x = graph.add(Kind::Var, hash(7));
    let y = graph.add(Kind::Computed, V0);
    assert_eq!(evaluate(&mut graph, y, &[x], Some(hash(8))), Ok(true));
    assert_eq!((graph.rank(x), graph.rank(y)), (0, 1));
    // c reads y: c is raised above y, and q with it
    assert_eq!(graph.register(c, y), Ok(true));
    assert_eq!((graph.rank(c), graph.rank(q), graph.rank(other)), (2, 3, 0));
    assert_eq!((graph.rank(x), graph.rank(y)), (0, 1));
    assert_eq!(graph.dependents(y), &vec![c]);
    // what reads what is found as before
    assert_eq!(graph.downstream(x), vec![true, true, false, false, true]);
    assert_eq!(graph.register(c, y), Ok(false));
    // a write to x reaches q through y and c
    batch_start(&mut graph);
    assert_eq!(graph.change(x, hash(9), Invalid::Definitely), Ok(true));
    batch_stop(&mut graph);
    assert_eq!(graph.state(y), State::Invalid(Invalid::Definitely));
    assert_eq!(graph.state(c), State::Invalid(Invalid::Maybe));
    assert_eq!(graph.state(q), State::Invalid(Invalid::Maybe));
    assert_eq!(graph.state(other), State::Valid);
}

#[test]
fn a_changed_version_of_a_valid_node_reaches_its_readers() {
    let mut graph = Graph::new();
    let (a, d, _e, f, r) = diamond(&mut graph);
    batch_start(&mut graph);
    // d is recomputed although it is valid, and publishes something new
    assert_eq!(evaluate(&mut graph, d, &[a], Some(hash(20))), Ok(true));
    assert_eq!(graph.state(d), State::Valid);
    assert_eq!(graph.state(f), State::Invalid(Invalid::Maybe));
    assert_eq!(graph.state(r), State::Invalid(Invalid::Maybe));
    assert_eq!(graph.changed(), &vec![r]);
    assert!(!graph.is_settled(f));
}

#[test]
fn observer_counts_follow_the_chains() {
    let mut graph = Graph::new();
    let (a, d, e, f, r) = diamond(&mut graph);
    assert_eq!(graph.arm(a), Err(Error::NotReaction));
    assert_eq!(graph.arm(17), Err(Error::Missing));
    assert_eq!(graph.observed(), vec![false; 5]);
    assert_eq!(graph.arm(r), Ok(()));
    assert!(graph.is_armed(r));
    assert_eq!(
        [a, d, e, f, r].map(|n| graph.observers(n)),
        [2, 1, 1, 1, 0]
    );
    assert_eq!(graph.observed(), vec![true, true, true, true, false]);
    // a second reaction on f doubles every chain
    let s = graph.add(Kind::Reaction, V0);
    evaluate(&mut graph, s, &[f], None).unwrap();
    assert_eq!(graph.observers(f), 1);
    graph.arm(s).unwrap();
    assert_eq!(
        [a, d, e, f, r, s].map(|n| graph.observers(n)),
        [4, 2, 2, 2, 0, 0]
    );
    // f drops d: the chains through d go
    evaluate(&mut graph, f, &[e], Some(hash(5))).unwrap();
    assert_eq!(
        [a, d, e, f].map(|n| graph.observers(n)),
        [2, 0, 2, 2]
    );
    assert_eq!(graph.release(f), Err(Error::InUse));
    assert_eq!(graph.release(r), Ok(()));
    assert_eq!(graph.release(s), Ok(()));
    assert_eq!(graph.observed(), vec![false; 6]);
    assert_eq!(graph.release(f), Ok(()));
    assert!(!graph.is_alive(f));
    assert!(graph.dependents(e).is_empty());
    assert_eq!(graph.release(f), Err(Error::Missing));
    assert_eq!(graph.release(a), Err(Error::InUse));
}

#[test]
fn counts_are_held_at_the_largest_value() {
    assert_eq!(saturating_sum(2, 3), 5);
    assert_eq!(saturating_sum(u64::MAX - 1, 1), u64::MAX);
    assert_eq!(saturating_sum(u64::MAX, 1), u64::MAX);
    assert_eq!(saturating_sum(u64::MAX - 1, 7), u64::MAX);
    assert_eq!(saturating_sum(0, 0), 0);
}

#[test]
fn batch_flags() {
    let mut graph = Graph::new();
    assert!(!in_batch(&graph));
    assert!(batch_start(&mut graph));
    assert!(in_batch(&graph));
    assert!(!batch_start(&mut graph));
    batch_stop(&mut graph);
    assert!(!in_batch(&graph));
    assert!(!is_microtask_scheduled(&graph));
    assert!(batch_start_microtask(&mut graph));
    assert!(is_microtask_scheduled(&graph));
    assert!(!batch_start_microtask(&mut graph));
}

#[test]
fn the_queue_is_drained_in_rounds() {
    let mut graph = Graph::new();
    let (a, _d, _e, _f, r) = diamond(&mut graph);
    let mut replay = Replay::new(graph.len());
    assert_eq!(batch_run(&mut graph, &mut replay), Ok(()));
    assert!(replay.runs.is_empty());
    batch_start(&mut graph);
    graph.change(a, hash(2), Invalid::Definitely).unwrap();
    batch_stop(&mut graph);
    assert_eq!(graph.changed(), &vec![r]);
    assert_eq!(batch_run(&mut graph, &mut replay), Ok(()));
    assert!(graph.changed().is_empty());
    assert_eq!(graph.state(r), State::Valid);
    assert_eq!(graph.take_changed(), Vec::<usize>::new());
}

#[test]
fn a_scheduled_reaction_is_told_and_not_run() {
    let mut graph = Graph::new();
    let (a, _d, _e, _f, r) = diamond(&mut graph);
    let mut replay = Replay::new(graph.len());
    replay.scheduled.push(r);
    batch_start(&mut graph);
    graph.change(a, hash(2), Invalid::Definitely).unwrap();
    batch_stop(&mut graph);
    assert_eq!(batch_run(&mut graph, &mut replay), Ok(()));
    assert_eq!(replay.told, vec![r]);
    assert!(replay.runs.is_empty());
    assert_eq!(graph.state(r), State::Invalid(Invalid::Maybe));
}

#[test]
fn a_deferred_batch_is_drained_by_the_microtask() {
    let mut graph = Graph::new();
    let (a, _d, _e, _f, r) = diamond(&mut graph);
    let mut replay = Replay::new(graph.len());
    let first = batch_microtask(&mut graph, &mut replay, |graph: &mut Graph, _: &mut Replay| {
        assert!(in_batch(graph));
        graph.change(a, hash(2), Invalid::Definitely).unwrap();
    });
    assert!(first);
    assert!(!in_batch(&graph));
    assert!(is_microtask_scheduled(&graph));
    assert_eq!(graph.changed(), &vec![r]);
    // a second deferred batch schedules nothing
    let again = batch_microtask(&mut graph, &mut replay, |_: &mut Graph, _: &mut Replay| {});
    assert!(!again);
    assert!(replay.runs.is_empty());
    assert_eq!(microtask_run(&mut graph, &mut replay), Ok(()));
    assert!(!is_microtask_scheduled(&graph));
    assert!(graph.changed().is_empty());
    assert_eq!(graph.state(r), State::Valid);
}

#[test]
fn dependencies_keep_one_entry_per_node() {
    let mut deps = Dependencies::new();
    assert_eq!(deps.len(), 0);
    assert_eq!(deps.find(3), None);
    deps.based_on(3, hash(1));
    deps.based_on(5, hash(2));
    deps.based_on(3, hash(4));
    assert_eq!(deps.len(), 2);
    assert_eq!(deps.entry(0), (3, hash(4)));
    assert_eq!(deps.entry(1), (5, hash(2)));
    assert_eq!(deps.find(5), Some(1));
    assert!(deps.contains(3));
    assert!(!deps.contains(4));
    assert_eq!(deps.version_of(3), Some(hash(4)));
    assert_eq!(deps.version_of(4), None);
}

#[test]
fn is_fresh_compares_versions_and_states() {
    let mut graph = Graph::new();
    let a = graph.add(Kind::Var, hash(1));
    let mut deps = Dependencies::new();
    assert!(graph.is_fresh(&deps));
    deps.based_on(a, hash(1));
    // a has not been read yet
    assert!(!graph.is_fresh(&deps));
    graph.revalidate(a);
    assert!(graph.is_fresh(&deps));
    graph.change(a, hash(2), Invalid::Definitely).unwrap();
    assert!(!graph.is_fresh(&deps));
    let mut missing = Dependencies::new();
    missing.based_on(9, V0);
    assert!(!graph.is_fresh(&missing));
}

#[test]
fn states_expire_to_the_stronger_degree() {
    assert_eq!(State::Valid.expire(Invalid::Maybe), State::Invalid(Invalid::Maybe));
    assert_eq!(State::Valid.expire(Invalid::Definitely), State::Invalid(Invalid::Definitely));
    assert_eq!(
        State::Invalid(Invalid::Maybe).expire(Invalid::Definitely),
        State::Invalid(Invalid::Definitely)
    );
    assert_eq!(
        State::Invalid(Invalid::Definitely).expire(Invalid::Maybe),
        State::Invalid(Invalid::Definitely)
    );
    assert_eq!(State::Invalid(Invalid::Maybe).expire(Invalid::Maybe), State::Invalid(Invalid::Maybe));
    assert_eq!(hash(12).value(), 12);
}

#[test]
fn a_chain_that_was_only_marked_is_revalidated_without_a_run() {
    let mut graph = Graph::new();
    let (a, d, e, f, r) = diamond(&mut graph);
    let mut replay = Replay::new(graph.len());
    batch_start(&mut graph);
    assert_eq!(graph.invalidate(d, Invalid::Maybe, Invalidate::SelfAndDeps), Ok(()));
    batch_stop(&mut graph);
    for n in [d, f, r] {
        assert_eq!(graph.state(n), State::Invalid(Invalid::Maybe));
    }
    assert_eq!(graph.update(r, &mut replay), Ok(Update::Revalidated));
    assert!(replay.runs.is_empty());
    for n in [a, d, e, f, r] {
        assert_eq!(graph.state(n), State::Valid);
    }
    assert_eq!(graph.version(f), hash(5));
    assert_eq!(graph.dependencies(f).len(), 2);
}

#[test]
fn should_evaluate_brings_what_was_read_up_to_date_first() {
    let mut graph = Graph::new();
    let (a, d, e, f, _r) = diamond(&mut graph);
    let mut replay = Replay::new(graph.len());
    replay.publishes[d] = Some(hash(2));
    replay.publishes[e] = Some(hash(3));
    batch_start(&mut graph);
    graph.change(a, hash(2), Invalid::Definitely).unwrap();
    batch_stop(&mut graph);
    // as the graph stands f is not settled: d and e are invalid
    assert!(!graph.is_settled(f));
    // d is definitely invalid: that is decided without running anything
    assert!(graph.should_evaluate(d, &mut replay));
    assert!(replay.runs.is_empty());
    // d and e are rerun, publish what they published, and f need not be
    assert!(!graph.should_evaluate(f, &mut replay));
    assert_eq!(replay.runs, vec![d, e]);
    assert_eq!(graph.state(d), State::Valid);
    assert_eq!(graph.state(e), State::Valid);
    assert_eq!(graph.state(f), State::Invalid(Invalid::Maybe));
    assert!(graph.is_settled(f));
    // a valid node is never to be recomputed
    assert!(!graph.should_evaluate(d, &mut replay));
    assert_eq!(replay.runs, vec![d, e]);
}

#[test]
fn are_valid_stops_at_the_first_changed_version() {
    let mut graph = Graph::new();
    let (a, d, e, f, _r) = diamond(&mut graph);
    let mut replay = Replay::new(graph.len());
    replay.publishes[d] = Some(hash(4));
    replay.publishes[e] = Some(hash(3));
    batch_start(&mut graph);
    graph.change(a, hash(2), Invalid::Definitely).unwrap();
    batch_stop(&mut graph);
    assert!(!graph.are_valid(f, &mut replay));
    // e, which was read after d, was not brought up to date
    assert_eq!(replay.runs, vec![d]);
    assert_eq!(graph.version(d), hash(4));
    assert_eq!(graph.state(e), State::Invalid(Invalid::Definitely));
    // what a source has read is nothing, and nothing has changed
    assert!(graph.are_valid(a, &mut replay));
    assert_eq!(replay.runs, vec![d]);
}

#[test]
fn are_valid_accepts_what_is_unchanged_after_a_rerun() {
    let mut graph = Graph::new();
    let (a, d, e, f, _r) = diamond(&mut graph);
    let mut replay = Replay::new(graph.len());
    replay.publishes[d] = Some(hash(2));
    replay.publishes[e] = Some(hash(3));
    batch_start(&mut graph);
    graph.change(a, hash(2), Invalid::Definitely).unwrap();
    batch_stop(&mut graph);
    assert!(graph.are_valid(f, &mut replay));
    assert_eq!(replay.runs, vec![d, e]);
}

#[test]
fn a_new_version_that_would_queue_a_reaction_needs_a_batch() {
    let mut graph = Graph::new();
    let (a, d, _e, f, r) = diamond(&mut graph);
    assert_eq!(graph.update(a, &mut Inert), Ok(Update::Unchanged));
    // r is valid and depends on a: outside a batch the write is refused
    assert_eq!(graph.change(a, hash(2), Invalid::Definitely), Err(Error::NotInBatch));
    assert_eq!(graph.version(a), hash(1));
    assert_eq!(graph.state(d), State::Valid);
    assert_eq!(graph.state(r), State::Valid);
    assert!(graph.changed().is_empty());
    // the version that is published already is no write
    assert_eq!(graph.change(a, hash(1), Invalid::Definitely), Ok(false));
    // neither can an evaluation publish a new version there
    assert_eq!(evaluate(&mut graph, f, &[d], Some(hash(6))), Err(Error::NotInBatch));
    assert_eq!(graph.version(f), hash(5));
    assert_eq!(graph.dependencies(f).len(), 2);
    assert_eq!(evaluate(&mut graph, f, &[d], None), Ok(false));
    assert_eq!(graph.dependencies(f).len(), 1);
    // inside a batch both are taken, and the reaction is queued
    batch_start(&mut graph);
    assert_eq!(evaluate(&mut graph, f, &[d], Some(hash(6))), Ok(true));
    assert_eq!(graph.changed(), &vec![r]);
    assert_eq!(graph.change(a, hash(2), Invalid::Definitely), Ok(true));
    assert_eq!(graph.changed(), &vec![r]);
    batch_stop(&mut graph);
}

#[test]
fn a_write_without_reactions_needs_no_batch() {
    let mut graph = Graph::new();
    let a = graph.add(Kind::Var, hash(1));
    let c = graph.add(Kind::Computed, V0);
    assert_eq!(evaluate(&mut graph, c, &[a], Some(hash(2))), Ok(true));
    assert_eq!(graph.change(a, hash(3), Invalid::Definitely), Ok(true));
    assert_eq!(graph.state(c), State::Invalid(Invalid::Definitely));
}

#[test]
fn a_read_registers_the_reader_at_once() {
    let mut graph = Graph::new();
    let a = graph.add(Kind::Var, hash(1));
    let b = graph.add(Kind::Var, hash(2));
    let c = graph.add(Kind::Computed, V0);
    let mut cx = Evaluation::new(c);
    assert!(graph.dependents(a).is_empty());
    assert_eq!(graph.read(a, &mut cx), Ok(hash(1)));
    assert_eq!(graph.dependents(a), &vec![c]);
    assert_eq!(graph.dependencies(c).len(), 1);
    assert_eq!(graph.dependencies(c).entry(0), (a, hash(1)));
    // a second read of the same node registers nothing new
    assert_eq!(graph.read(a, &mut cx), Ok(hash(1)));
    assert_eq!(graph.dependents(a), &vec![c]);
    assert_eq!(graph.dependencies(c).len(), 1);
    assert_eq!(graph.get(b, &mut cx, &mut Inert), Ok(hash(2)));
    assert_eq!(graph.dependents(b), &vec![c]);
    assert_eq!(graph.dependencies(c).entry(1), (b, hash(2)));
    assert_eq!(graph.state(c), State::Invalid(Invalid::Definitely));
    // installing what was read keeps both
    assert_eq!(graph.commit(cx, Some(hash(3))), Ok(true));
    assert_eq!(graph.dependents(a), &vec![c]);
    assert_eq!(graph.dependents(b), &vec![c]);
    // the next evaluation reads only b: a loses its reader when that is
    // installed, not before
    let mut cx = Evaluation::new(c);
    assert_eq!(graph.read(b, &mut cx), Ok(hash(2)));
    assert_eq!(graph.dependents(a), &vec![c]);
    assert_eq!(graph.commit(cx, None), Ok(false));
    assert!(graph.dependents(a).is_empty());
    assert_eq!(graph.dependents(b), &vec![c]);
    // a reader that is no node of the graph is registered nowhere
    let mut cx = Evaluation::new(9);
    assert_eq!(graph.read(a, &mut cx), Ok(hash(1)));
    assert!(graph.dependents(a).is_empty());
    assert_eq!(cx.dependencies().entry(0), (a, hash(1)));
}

#[test]
fn a_read_by_an_armed_reaction_is_observed_at_once() {
    let mut graph = Graph::new();
    let a = graph.add(Kind::Var, hash(1));
    let r = graph.add(Kind::Reaction, V0);
    graph.arm(r).unwrap();
    assert_eq!(graph.observers(a), 0);
    let mut replay = Replay::new(graph.len());
    let mut cx = Evaluation::new(r);
    assert_eq!(graph.get(a, &mut cx, &mut replay), Ok(hash(1)));
    assert_eq!(graph.observers(a), 1);
    assert_eq!(replay.observed, vec![a]);
    assert_eq!(graph.commit_and_notify(cx, None, &mut replay), Ok(false));
    assert_eq!(graph.observers(a), 1);
    assert_eq!(replay.observed, vec![a]);
}

#[test]
fn a_record_is_checked_after_its_nodes_are_brought_up_to_date() {
    let mut graph = Graph::new();
    let (a, d, e, _f, _r) = diamond(&mut graph);
    let mut replay = Replay::new(graph.len());
    replay.publishes[d] = Some(hash(2));
    replay.publishes[e] = Some(hash(3));
    batch_start(&mut graph);
    graph.change(a, hash(2), Invalid::Definitely).unwrap();
    batch_stop(&mut graph);
    // an empty record holds, and nothing is run for it
    assert!(Dependencies::new().are_valid(&mut graph, &mut replay));
    assert!(replay.runs.is_empty());
    let mut deps = Dependencies::new();
    deps.based_on(d, hash(2));
    deps.based_on(e, hash(3));
    // as the graph stands the record does not hold: d and e are invalid
    assert!(!deps.is_fresh(&graph));
    assert!(deps.are_valid(&mut graph, &mut replay));
    assert_eq!(replay.runs, vec![d, e]);
    assert!(deps.is_fresh(&graph));
    // the first version that differs ends the check
    graph.invalidate(e, Invalid::Definitely, Invalidate::SelfAndDeps).unwrap();
    let mut other = Dependencies::new();
    other.based_on(d, hash(9));
    other.based_on(e, hash(3));
    assert!(!other.are_valid(&mut graph, &mut replay));
    assert_eq!(replay.runs, vec![d, e]);
    assert_eq!(graph.state(e), State::Invalid(Invalid::Definitely));
    // a node that is gone fails it
    let mut gone = Dependencies::new();
    gone.based_on(99, V0);
    assert!(!gone.are_valid(&mut graph, &mut replay));
}

/// An evaluator whose functions ask for the node they belong to.
struct Reenter {
    seen: Vec<Result<Update, Error>>,
    busy: Vec<bool>,
}

impl Evaluator for Reenter {
    fn eval(&mut self, graph: &mut Graph, cx: &mut Evaluation) -> Option<Version> {
        let node = cx.parent();
        self.busy.push(graph.is_busy(node));
        let again = graph.update(node, self);
        self.seen.push(again);
        let unchecked = graph.update_unchecked(node, self);
        self.seen.push(unchecked.map(|_| Update::Recomputed));
        Some(hash(1))
    }
}

#[test]
fn a_node_whose_function_is_being_run_is_not_run_again() {
    let mut graph = Graph::new();
    let c = graph.add(Kind::Computed, V0);
    let mut ev = Reenter { seen: Vec::new(), busy: Vec::new() };
    assert!(!graph.is_busy(c));
    assert_eq!(graph.update(c, &mut ev), Ok(Update::Recomputed));
    assert_eq!(ev.busy, vec![true]);
    assert_eq!(ev.seen, vec![Err(Error::Order), Err(Error::Order)]);
    assert!(!graph.is_busy(c));
    assert_eq!(graph.state(c), State::Valid);
    assert_eq!(graph.version(c), hash(1));
    // a valid node is left alone even while it is run once more
    assert_eq!(graph.update_unchecked(c, &mut ev), Ok(()));
    assert_eq!(ev.busy, vec![true, true]);
    assert_eq!(ev.seen[2], Ok(Update::Unchanged));
    assert_eq!(ev.seen[3], Err(Error::Order));
}

#[test]
fn a_deferred_batch_inside_a_batch_puts_the_drain_off() {
    let mut graph = Graph::new();
    let (a, _d, _e, _f, r) = diamond(&mut graph);
    let mut replay = Replay::new(graph.len());
    let done = observe::batch(&mut graph, &mut replay, |graph: &mut Graph, replay: &mut Replay| {
        let first = batch_microtask(graph, replay, |graph: &mut Graph, _: &mut Replay| {
            graph.change(a, hash(2), Invalid::Definitely).unwrap();
        });
        assert!(first);
        assert!(in_batch(graph));
    });
    assert_eq!(done, Ok(()));
    // the batch has ended, and the queue waits for the deferred drain
    assert!(!in_batch(&graph));
    assert!(is_microtask_scheduled(&graph));
    assert_eq!(graph.changed(), &vec![r]);
    assert!(replay.runs.is_empty());
    assert_eq!(microtask_run(&mut graph, &mut replay), Ok(()));
    assert!(graph.changed().is_empty());
    assert_eq!(graph.state(r), State::Valid);
}
