use observe::reactions::LIMIT;
use observe::{
    publish, Async, Capture, Computed, Const, Derived, Error, Evaluation, Evaluator, Graph, Handle,
    Hashed, Inert, Invalid, Keeps, Kind, Reaction, Reactions, Reactive, State, Toggle, Update,
    Var, Version,
};

#[test]
fn hashed_keeps_the_value_with_its_fx_hash() {
    let hashed = Hashed::new(5u64);
    assert_eq!(hashed.value, 5);
    assert_eq!(hashed.hash, fxhash::hash64(&5u64));
    assert_ne!(hashed.hash, 5);
    assert_eq!(*hashed.get(), 5);
    assert_eq!(Hashed::new(String::from("a")).hash, fxhash::hash64("a"));
    assert_ne!(Hashed::new(1u8).hash, Hashed::new(2u8).hash);
    let given = Hashed::with_hash('x', 9);
    assert_eq!((given.value, given.hash), ('x', 9));
    assert_eq!(given.into_inner(), 'x');
}

#[test]
fn a_constant_always_publishes_the_same() {
    let c = Const::new(String::from("fixed"));
    assert_eq!(c.get(), "fixed");
    assert_eq!(c.version(), Version::Hash(0));
    assert_eq!(c.update(), Version::Hash(0));
}

#[test]
fn a_var_publishes_the_hash_of_its_value() {
    let mut graph = Graph::new();
    let mut a = Var::new(&mut graph, 10u32);
    assert_eq!(a.node(), 0);
    assert_eq!(graph.kind(a.node()), Kind::Var);
    assert_eq!(a.hash(), fxhash::hash64(&10u32));
    assert_eq!(graph.version(a.node()), Version::Hash(fxhash::hash64(&10u32)));
    assert_eq!(graph.state(a.node()), State::Invalid(Invalid::Definitely));
    assert_eq!(*a.get_once(), 10);

    assert_eq!(a.set(&mut graph, &mut Inert, 11), Ok(true));
    assert_eq!(a.set(&mut graph, &mut Inert, 11), Ok(false));
    assert_eq!(*a.get_once(), 11);
    assert_eq!(graph.hash(a.node()), fxhash::hash64(&11u32));
    assert_eq!(a.replace(&mut graph, &mut Inert, 12), (11, Ok(true)));
    assert_eq!(a.update(&mut graph, &mut Inert, |value: &mut u32| *value += 30), Ok(true));
    assert_eq!(*a.get_once(), 42);
    assert_eq!(graph.hash(a.node()), fxhash::hash64(&42u32));
    assert_eq!(a.assign(1), Version::Hash(fxhash::hash64(&1u32)));
    // the graph has not been told
    assert_eq!(graph.hash(a.node()), fxhash::hash64(&42u32));
    assert_eq!(
        publish(&mut graph, &mut Inert, a.node(), Version::Hash(a.hash()), Invalid::Definitely),
        Ok(true)
    );
    assert_eq!(a.exchange(2), (1, Version::Hash(fxhash::hash64(&2u32))));
    assert_eq!(a.modify(|value: &mut u32| *value *= 4), Version::Hash(fxhash::hash64(&8u32)));
    assert_eq!(*a.get_once(), 8);
    assert_eq!(graph.version(a.node()), Version::Hash(fxhash::hash64(&1u32)));
    assert_eq!(a.node_of(), a.node());
}

#[test]
fn a_var_records_its_reads() {
    let mut graph = Graph::new();
    let a = Var::new(&mut graph, 10u32);
    let c = Computed::<u32>::new(&mut graph);
    let mut cx = Evaluation::new(c.node());
    assert_eq!(a.get(&mut graph, &mut cx), Ok(&10));
    assert_eq!(graph.state(a.node()), State::Valid);
    assert_eq!(cx.dependencies().entry(0), (a.node(), Version::Hash(a.hash())));
    // the reader is one of the readers of the cell from the read on
    assert_eq!(graph.dependents(a.node()), &vec![c.node()]);
    let mut own = Evaluation::new(a.node());
    assert_eq!(a.get(&mut graph, &mut own), Err(Error::Order));
    assert_eq!(own.dependencies().len(), 0);
}

#[derive(Hash, PartialEq, Debug, Clone, Copy)]
enum Light {
    On,
    Off,
}

impl Toggle for Light {
    fn toggle(&mut self) {
        *self = match self {
            Light::On => Light::Off,
            Light::Off => Light::On,
        };
    }
}

#[test]
fn toggle_flips_any_value_that_can_be_flipped() {
    let mut graph = Graph::new();
    let mut light = Var::new(&mut graph, Light::Off);
    assert_eq!(light.toggle(&mut graph, &mut Inert), Ok(true));
    assert_eq!(*light.get_once(), Light::On);
    assert_eq!(graph.hash(light.node()), fxhash::hash64(&Light::On));
}

#[test]
fn toggle_flips_a_flag() {
    let mut flag = true;
    flag.toggle();
    assert!(!flag);
    flag.toggle();
    assert!(flag);
    let mut graph = Graph::new();
    let mut a = Var::new(&mut graph, false);
    assert_eq!(a.toggle(&mut graph, &mut Inert), Ok(true));
    assert!(*a.get_once());
    assert_eq!(graph.hash(a.node()), fxhash::hash64(&true));
}

#[test]
fn a_computed_caches_what_was_stored() {
    let mut graph = Graph::new();
    let mut c = Computed::<i64>::new(&mut graph);
    assert_eq!(graph.kind(c.node()), Kind::Computed);
    assert_eq!(c.peek(), None);
    assert_eq!(c.hash(), None);
    assert_eq!(c.store(-4), Version::Hash(fxhash::hash64(&-4i64)));
    assert_eq!(c.peek(), Some(&-4));
    assert_eq!(c.hash(), Some(fxhash::hash64(&-4i64)));
    // the evaluator that keeps what is published leaves the version alone:
    // the value kept here is not the one published, and is not handed out
    assert_eq!(graph.get_once(c.node(), &mut Inert), Ok(Version::Hash(0)));
    assert_eq!(graph.state(c.node()), State::Valid);
    assert_eq!(c.get_once(&mut graph, &mut Inert), Err(Error::Stale));
    assert_eq!(c.current(Version::Hash(0)), Err(Error::Stale));
    // once the node publishes the hash of the value, the value is read
    let version = Version::Hash(fxhash::hash64(&-4i64));
    assert_eq!(graph.commit(Evaluation::new(c.node()), Some(version)), Ok(true));
    assert_eq!(c.current(version), Ok(Some(&-4)));
    assert_eq!(c.get_once(&mut graph, &mut Inert), Ok(Some(&-4)));
    let reader = Computed::<i64>::new(&mut graph);
    assert_eq!(reader.get_once(&mut graph, &mut Inert), Ok(None));
    let mut cx = Evaluation::new(reader.node());
    assert_eq!(c.get(&mut graph, &mut cx, &mut Inert), Ok(Some(&-4)));
    assert_eq!(cx.dependencies().entry(0), (c.node(), version));
    assert!(cx.dependencies().is_fresh(&graph));
    assert_eq!(reader.get(&mut graph, &mut cx, &mut Inert), Err(Error::Order));
    assert_eq!(Derived::invalidate(&c, &mut graph, Invalid::Maybe), Ok(()));
    assert_eq!(graph.state(c.node()), State::Invalid(Invalid::Maybe));
}

#[test]
fn a_reaction_runs_when_it_is_armed() {
    let mut graph = Graph::new();
    let r = Reaction::new_with_name(&mut graph, "log");
    assert_eq!(r.name(), "log");
    assert_eq!(Reaction::new(&mut graph).name(), "<unnamed>");
    assert_eq!(graph.kind(r.node()), Kind::Reaction);
    assert_eq!(r.arm(&mut graph, &mut Inert), Ok(Update::Recomputed));
    assert!(graph.is_armed(r.node()));
    assert_eq!(r.update(&mut graph, &mut Inert), Ok(Update::Unchanged));
    assert_eq!(Reactive::update(&r, &mut graph, &mut Inert), Ok(Update::Unchanged));
    assert_eq!(r.update_unchecked(&mut graph, &mut Inert), Ok(()));
    assert_eq!(Derived::invalidate(&r, &mut graph, Invalid::Definitely), Err(Error::NotInBatch));
    assert_eq!(graph.state(r.node()), State::Valid);
    let a = Var::new(&mut graph, 1u8);
    let gone = Reaction::new(&mut graph);
    graph.release(gone.node()).unwrap();
    assert_eq!(gone.arm(&mut graph, &mut Inert), Err(Error::Missing));
    assert_eq!(gone.update_unchecked(&mut graph, &mut Inert), Err(Error::Missing));
    assert!(!Inert.is_scheduled(r.node()));
    assert_eq!(graph.arm(a.node()), Err(Error::NotReaction));
}

#[test]
fn reactions_are_updated_in_the_order_they_were_added() {
    let mut graph = Graph::new();
    let first = Reaction::new(&mut graph);
    let second = Reaction::new(&mut graph);
    let mut list = Reactions::new();
    assert_eq!(list.len(), 0);
    assert_eq!(list.get(0), None);
    assert!(list.add(second));
    assert!(list.add(first));
    assert_eq!(list.len(), 2);
    assert_eq!(list.get(0), Some(second.node()));
    assert_eq!(list.get(1), Some(first.node()));
    assert_eq!(list.get(2), None);
    for _ in 0..20 {
        assert!(list.add(first));
    }
    assert_eq!(list.len(), 22);
    assert_eq!(list.get(21), Some(first.node()));
    assert!(list.len() < LIMIT);
    let done = list.update(&mut graph, &mut Inert);
    assert_eq!(done.len(), 22);
    assert_eq!(done[0], Ok(Update::Recomputed));
    assert_eq!(done[1], Ok(Update::Recomputed));
    assert_eq!(done[2], Ok(Update::Unchanged));
    assert_eq!(list.update(&mut graph, &mut Inert), vec![Ok(Update::Unchanged); 22]);
}

#[test]
fn capture_clones_every_referent() {
    let a = String::from("a");
    let b = vec![1, 2];
    let c = 3u8;
    assert_eq!((&a,).capture(), (String::from("a"),));
    assert_eq!((&a, &b).capture(), (String::from("a"), vec![1, 2]));
    assert_eq!((&a, &b, &c).capture(), (String::from("a"), vec![1, 2], 3));
}

#[test]
fn an_async_cell_hands_out_one_token_per_input() {
    let mut graph = Graph::new();
    let mut cell = Async::new(&mut graph, Version::Hash(0));
    assert_eq!(graph.kind(cell.node()), Kind::Async);
    assert_eq!(graph.version(cell.node()), Version::Hash(0));
    assert_eq!(cell.pending(), Version::Hash(0));
    assert_eq!(cell.token(), 0);
    assert!(!cell.is_running());
    assert!(!cell.is_observed(&graph));
    // no task has been started: nothing is accepted
    assert!(!cell.accept(0));
    assert_eq!(cell.restart(7), Some(1));
    assert!(cell.is_running());
    assert_eq!(cell.restart(7), None);
    assert_eq!(cell.token(), 1);
    assert_eq!(cell.restart(8), Some(2));
    assert!(!cell.accept(1));
    assert!(!cell.accept(3));
    assert!(cell.is_running());
    assert!(cell.accept(2));
    assert!(!cell.is_running());
    assert!(!cell.accept(2));
    // the same input again starts nothing, a new one does
    assert_eq!(cell.restart(8), None);
    assert_eq!(cell.restart(7), Some(3));
    assert_eq!(cell.complete(&mut graph, &mut Inert, 3, Version::Hash(5)), Ok(true));
    assert_eq!(graph.version(cell.node()), Version::Hash(5));
    assert_eq!(cell.complete(&mut graph, &mut Inert, 3, Version::Hash(6)), Ok(false));
    assert_eq!(graph.version(cell.node()), Version::Hash(5));
}

#[test]
fn renew_hands_out_the_pending_version_with_the_token() {
    let mut graph = Graph::new();
    let mut cell = Async::new(&mut graph, Version::Hash(77));
    assert_eq!(cell.renew(5), Some((1, Version::Hash(77))));
    assert!(cell.is_running());
    // the same input starts nothing
    assert_eq!(cell.renew(5), None);
    assert_eq!(cell.token(), 1);
    assert_eq!(cell.renew(6), Some((2, Version::Hash(77))));
    assert!(!cell.accept(1));
    assert!(cell.accept(2));
}

#[test]
fn arming_a_valid_reaction_runs_nothing() {
    let mut graph = Graph::new();
    let a = Var::new(&mut graph, 1u8);
    let r = Reaction::new(&mut graph);
    let mut cx = Evaluation::new(r.node());
    a.get(&mut graph, &mut cx).unwrap();
    assert_eq!(graph.commit(cx, None), Ok(false));
    assert_eq!(graph.state(r.node()), State::Valid);
    assert_eq!(graph.observers(a.node()), 0);
    assert_eq!(r.arm(&mut graph, &mut Inert), Ok(Update::Unchanged));
    assert!(graph.is_armed(r.node()));
    assert_eq!(graph.observers(a.node()), 1);
}

#[test]
fn register_says_whether_the_reader_is_new() {
    let mut graph = Graph::new();
    let a = Var::new(&mut graph, 1u8);
    let b = Var::new(&mut graph, 2u8);
    let c = Computed::<u8>::new(&mut graph);
    assert_eq!(graph.update(a.node(), &mut Inert), Ok(Update::Revalidated));
    assert_eq!(graph.register(c.node(), a.node()), Ok(true));
    assert_eq!(graph.register(c.node(), a.node()), Ok(false));
    assert_eq!(graph.dependents(a.node()), &vec![c.node()]);
    assert_eq!(graph.dependencies(c.node()).len(), 1);
    // a source reads nothing, and neither does a node that is not there
    assert_eq!(graph.register(b.node(), a.node()), Ok(false));
    assert_eq!(graph.register(9, a.node()), Ok(false));
    assert_eq!(graph.dependents(a.node()), &vec![c.node()]);
}

/// An evaluator that runs nothing and notes what it hears.
struct Watch {
    observed: Vec<usize>,
}

impl Evaluator for Watch {
    fn eval(&mut self, _graph: &mut Graph, _cx: &mut Evaluation) -> Option<Version> {
        None
    }

    fn on_become_observed(&mut self, node: usize) {
        self.observed.push(node);
    }
}

#[test]
fn a_cell_read_by_an_armed_reaction_is_observed_at_the_read() {
    let mut graph = Graph::new();
    let a = Var::new(&mut graph, 1u8);
    let gone = Var::new(&mut graph, 2u8);
    let r = Reaction::new(&mut graph);
    graph.arm(r.node()).unwrap();
    graph.release(gone.node()).unwrap();
    let mut watch = Watch { observed: Vec::new() };
    let mut cx = Evaluation::new(r.node());
    assert_eq!(a.get_observed(&mut graph, &mut cx, &mut watch), Ok(&1));
    assert_eq!(watch.observed, vec![a.node()]);
    assert_eq!(graph.observers(a.node()), 1);
    assert_eq!(graph.dependents(a.node()), &vec![r.node()]);
    assert_eq!(cx.dependencies().entry(0), (a.node(), Version::Hash(a.hash())));
    // a second read changes nothing and tells nothing
    assert_eq!(a.get_observed(&mut graph, &mut cx, &mut watch), Ok(&1));
    assert_eq!(watch.observed, vec![a.node()]);
    assert_eq!(gone.get_observed(&mut graph, &mut cx, &mut watch), Err(Error::Missing));
    assert_eq!(cx.dependencies().len(), 1);
    let mut own = Evaluation::new(a.node());
    assert_eq!(a.get_observed(&mut graph, &mut own, &mut watch), Err(Error::Order));
    // a reader that no armed reaction observes leaves the cell unobserved
    let c = Computed::<u8>::new(&mut graph);
    let mut other = Evaluation::new(c.node());
    let b = Var::new(&mut graph, 3u8);
    // b was made after c, and c reads it all the same
    assert_eq!(b.get_observed(&mut graph, &mut other, &mut watch), Ok(&3));
    assert_eq!(graph.dependents(b.node()), &vec![c.node()]);
    assert!(graph.rank(c.node()) > graph.rank(b.node()));
    assert_eq!(graph.observers(b.node()), 0);
    assert_eq!(a.get_observed(&mut graph, &mut other, &mut watch), Ok(&1));
    assert_eq!(graph.observers(a.node()), 1);
    assert_eq!(watch.observed, vec![a.node()]);
}

/// An evaluator that owns the cells of `b = a + 10`.
struct Plus {
    a: Var<i64>,
    b: Computed<i64>,
    runs: u32,
}

impl Evaluator for Plus {
    fn eval(&mut self, graph: &mut Graph, cx: &mut Evaluation) -> Option<Version> {
        assert_eq!(cx.parent(), self.b.node());
        self.runs += 1;
        let value = *self.a.get(graph, cx).unwrap() + 10;
        Some(self.b.store(value))
    }
}

impl Keeps<i64> for Plus {
    fn cache(&self, n: usize) -> Option<&Computed<i64>> {
        if n == self.b.node() {
            Some(&self.b)
        } else {
            None
        }
    }
}

#[test]
fn a_derived_value_is_computed_by_the_read_that_asks_for_it() {
    let mut graph = Graph::new();
    let a = Var::new(&mut graph, 10i64);
    let b = Computed::<i64>::new(&mut graph);
    let (a_node, b_node) = (a.node(), b.node());
    let mut plus = Plus { a, b, runs: 0 };
    // never read: the first read runs the function and gives its result
    assert_eq!(Computed::read_once(b_node, &mut graph, &mut plus), Ok(Some(&20)));
    assert_eq!(plus.runs, 1);
    assert_eq!(Computed::read_once(b_node, &mut graph, &mut plus), Ok(Some(&20)));
    assert_eq!(plus.runs, 1);
    // after a write the next read gives the new value
    let version = plus.a.assign(20);
    assert_eq!(publish(&mut graph, &mut plus, a_node, version, Invalid::Definitely), Ok(true));
    assert_eq!(Computed::read_once(b_node, &mut graph, &mut plus), Ok(Some(&30)));
    assert_eq!(plus.runs, 2);
    // the evaluator keeps no cache for the cell, and none is handed out
    assert_eq!(Computed::<i64>::read_once(a_node, &mut graph, &mut plus), Ok(None));
    assert_eq!(Computed::<i64>::read_once(b_node, &mut graph, &mut Inert), Ok(None));
    assert_eq!(Computed::<i64>::read_once(9, &mut graph, &mut plus), Err(Error::Missing));
}

#[test]
fn a_derived_value_is_read_through_the_cache_its_evaluator_keeps() {
    let mut graph = Graph::new();
    let a = Var::new(&mut graph, 10i64);
    let b = Computed::<i64>::new(&mut graph);
    let (a_node, b_node) = (a.node(), b.node());
    let mut plus = Plus { a, b, runs: 0 };
    // never read: the first read runs the function
    assert_eq!(plus.b.current(Version::Hash(0)), Ok(None));
    let seen = graph.get_once(b_node, &mut plus).unwrap();
    assert_eq!(plus.b.current(seen), Ok(Some(&20)));
    assert_eq!(plus.runs, 1);
    // a second read runs nothing
    let seen = graph.get_once(b_node, &mut plus).unwrap();
    assert_eq!(plus.b.current(seen), Ok(Some(&20)));
    assert_eq!(plus.runs, 1);
    // after a write the next read gives the new value
    let version = plus.a.assign(20);
    assert_eq!(publish(&mut graph, &mut plus, a_node, version, Invalid::Definitely), Ok(true));
    assert_eq!(plus.runs, 1);
    // the value kept is not the one the node would publish now
    let seen = graph.get_once(b_node, &mut plus).unwrap();
    assert_eq!(plus.b.current(seen), Ok(Some(&30)));
    assert_eq!(plus.runs, 2);
    // a version that is not the one of the value kept hands out nothing
    assert_eq!(plus.b.current(Version::Hash(1)), Err(Error::Stale));
}

#[test]
fn a_copy_of_a_list_holds_the_same_reactions() {
    let mut graph = Graph::new();
    let first = Reaction::new(&mut graph);
    let second = Reaction::new(&mut graph);
    let mut list = Reactions::default();
    assert_eq!(list.len(), 0);
    assert!(list.add(second));
    assert!(list.add(first));
    let mut copy = list.clone();
    assert_eq!(copy.len(), 2);
    assert_eq!(copy.get(0), Some(second.node()));
    assert_eq!(copy.get(1), Some(first.node()));
    // the copy is a list of its own
    assert!(copy.add(first));
    assert_eq!(copy.len(), 3);
    assert_eq!(list.len(), 2);
    let constant = Const::new(7u8);
    assert_eq!(*constant.clone().get(), 7);
}
