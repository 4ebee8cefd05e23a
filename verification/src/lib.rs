//! A reactive value graph: source cells, derived values, reactions and
//! asynchronously produced cells, with the bookkeeping that decides which of
//! them must be recomputed after a change.
//!
//! # The graph
//!
//! A [`Graph`] holds one node for every cell. A node is named by its index,
//! which it is given when it is created, and knows its kind, its state, the
//! version (a hash) of the value it publishes, which nodes it has read and
//! at which versions, which nodes have read it, and how many armed
//! reactions observe it. A node may read any other node, whenever either
//! was created; what is refused is a read that would close a circle, and a
//! read of a node whose own function is being run. To that end every node
//! has a rank above the ranks of the nodes it has read: a node that reads
//! one that does not stand below it is raised above it, together with
//! everything that has read the node itself.
//!
//! The values themselves are not in the graph. A [`Var`] owns the value of a
//! source cell, a [`Computed`] caches the value of a derived one, and an
//! [`Async`] keeps the books of a cell whose value a task produces; each of
//! them stands for one node.
//!
//! # Evaluation
//!
//! The functions of the derived nodes are handed to the graph as one
//! [`Evaluator`], which is asked to recompute a node whenever
//! [`Graph::update`] finds that comparing versions is not enough. The
//! function reads other nodes through [`Graph::get`], which records each
//! read in the [`Evaluation`] of the node and registers the node as a
//! reader at once. [`Graph::commit`] installs what was recorded together
//! with the new version; the reads of earlier evaluations that were not
//! repeated are given up then.
//!
//! # Invalidation
//!
//! A write to a source ([`publish`], or [`Graph::change`] inside a batch)
//! makes the nodes that have read it definitely invalid and everything
//! downstream of them possibly invalid. A possibly invalid node becomes
//! valid again without being recomputed if, once everything it has read is
//! up to date, the versions are the ones it saw; where that holds all the
//! way down, the node is quiet ([`GraphView::quiet`]) and reading it runs
//! nothing at all. Reactions that lose their validity are queued, and rerun
//! when the outermost [`batch`] ends.
//!
//! # What is proved
//!
//! Every operation keeps the invariant [`GraphView::wf`] of the model in
//! [`model`]: reads are recorded on both sides, a valid node has read only
//! valid nodes at the versions they still publish, and every observer count
//! is the number of chains of reads that lead to the node from an armed
//! reaction. The module [`laws`] states what follows for the graph as a
//! whole. The module [`runs`] says, over the contracts of the evaluator's
//! own methods, what an update, a read, a drain of the queue, a batch and a
//! write outside a batch do, step by step.

pub mod batch;
pub mod capture;
pub mod computed;
pub mod cons;
pub mod effect;
pub mod dependencies;
pub mod evaluate;
pub mod evaluation;
pub mod future;
pub mod graph;
pub mod handle;
pub mod hashed;
pub mod invalidate;
pub mod laws;
pub mod model;
pub mod observers;
pub mod quiet;
pub mod reaction;
pub mod shape;
pub mod reactions;
pub mod runs;
pub mod state;
pub mod update;
pub mod var;

pub use batch::{batch, batch_microtask, batch_run, in_batch, microtask_run, publish};
pub use runs::{published, Binds};
pub use capture::Capture;
pub use computed::{Computed, Keeps};
pub use cons::{Const, ConstBody};
pub use effect::differs;
pub use dependencies::Dependencies;
pub use evaluation::Evaluation;
pub use future::Async;
pub use graph::{Graph, Node};
pub use handle::{Derived, Handle, Reactive};
pub use hashed::{version_of, Hashed};
pub use model::{GraphView, NodeView};
pub use reaction::Reaction;
pub use reactions::Reactions;
pub use state::{Error, Invalid, Invalidate, Kind, State, Version};
pub use update::{Evaluator, Inert, Update};
pub use var::{Toggle, Var};
