//! The resolver: it walks through what the packages declare, gives each
//! dependency it meets an identity and a node, and in the end puts the nodes
//! in an order for installing.
//!
//! The resolver never asks a registry itself. Each time it meets a dependency
//! for the first time it hands it out, and goes on when it is told what the
//! package chosen for that dependency declares.

use vstd::prelude::*;
use crate::dependency::clone_dependencies;
use crate::dependency::keys_of;
use crate::dependency::Dependency;
use crate::dependency::DependencyKey;
use crate::error::Failure;
use crate::error::ResolveError;
use crate::graph::has_cycle;
use crate::graph::is_cycle;
use crate::graph::steps_along;
use crate::graph::toposort_of;
use crate::graph::with_node;
use crate::graph::DependencyGraph;
use crate::identity::IdentityMap;
use crate::ordered::InstallOrder;
use crate::state::lemma_edges_are_declarations;
use crate::state::lemma_index_of_unique;
use crate::state::lemma_start_wf;
use crate::state::lemma_step_wf;
use crate::state::lemma_supply_wf;
use crate::state::FrameView;
use crate::state::ResolverState;

verus! {

/// The nodes of a graph that holds the first `count` identities.
pub open spec fn first_nodes(count: nat) -> Seq<u64> {
    Seq::new(count, |i: int| i as u64)
}

/// A package under expansion.
pub struct Frame {
    node: u64,
    pending: Vec<Dependency>,
}

impl View for Frame {
    type V = FrameView;

    closed spec fn view(&self) -> FrameView {
        FrameView { node: self.node, pending: keys_of(self.pending@) }
    }
}

/// The frames of a stack as specifications see them.
pub open spec fn frames_of(stack: Seq<Frame>) -> Seq<FrameView> {
    Seq::new(stack.len(), |f: int| stack[f]@)
}

/// What a step did.
#[derive(Debug)]
pub enum Progress {
    /// A dependency was met for the first time. The resolver waits for what
    /// the package chosen for it declares.
    Request(Dependency),
    /// A dependency that was met before was taken: it got its edge to the
    /// package that declared it, unless it had it.
    Linked(Dependency),
    /// A package whose declared dependencies are used up left the stack.
    Unwound,
    /// Nothing is left to do: the graph is finished.
    Finished,
}

/// One resolution in progress.
pub struct Resolver {
    identities: IdentityMap,
    graph: DependencyGraph,
    stack: Vec<Frame>,
    awaiting: bool,
    declared: Ghost<Seq<Seq<DependencyKey>>>,
}

impl View for Resolver {
    type V = ResolverState;

    closed spec fn view(&self) -> ResolverState {
        ResolverState {
            ids: self.identities@,
            edges: self.graph.edges(),
            stack: frames_of(self.stack@),
            awaiting: self.awaiting,
            declared: self.declared@,
        }
    }
}

/// The install order that a finished state stands for: the dependencies in
/// the order in which the graph was sorted, or the dependency at which a
/// cycle was met.
pub open spec fn install_order(state: ResolverState) -> Result<Seq<DependencyKey>, Failure> {
    match toposort_of(first_nodes(state.ids.len()), state.edges) {
        Ok(order) => Ok(Seq::new(order.len(), |i: int| state.ids[order[i] as int])),
        Err(node) => Err(Failure::CyclicDependency { dependency: state.ids[node as int] }),
    }
}

/// Whether `list` holds each dependency of the state once, and for each edge
/// the dependency at its source before the one at its target.
pub open spec fn respects_edges(state: ResolverState, list: Seq<DependencyKey>) -> bool {
    &&& list.no_duplicates()
    &&& list.len() == state.ids.len()
    &&& forall|i: int| 0 <= i < state.ids.len() ==> list.contains(#[trigger] state.ids[i])
    &&& forall|i: int| 0 <= i < list.len() ==> state.ids.contains(#[trigger] list[i])
    &&& forall|edge: (u64, u64)| #[trigger]
        state.edges.contains(edge) ==> list.index_of(state.ids[edge.0 as int]) < list.index_of(
            state.ids[edge.1 as int],
        )
}

impl Resolver {
    /// The resolver's own state is sound, and so is the state it stands for.
    pub closed spec fn wf(&self) -> bool {
        &&& self.identities.wf()
        &&& self.graph.wf()
        &&& self.graph.nodes() == first_nodes(self.identities@.len())
        &&& self@.wf()
    }

    /// A well-formed resolver stands for a well-formed state.
    pub proof fn lemma_state_wf(&self)
        requires
            self.wf(),
        ensures
            self@.wf(),
    {
    }

    /// A resolver for `root`, which declares `declared`.
    pub fn new(root: &Dependency, declared: &Vec<Dependency>) -> (resolver: Self)
        ensures
            resolver.wf(),
            resolver@ == ResolverState::start(root@, keys_of(declared@)),
    {
        let mut identities = IdentityMap::new();
        let id = identities.assign(root.clone());
        let mut graph = DependencyGraph::new();
        graph.add_node(id);
        let mut stack: Vec<Frame> = Vec::new();
        stack.push(Frame { node: id, pending: clone_dependencies(declared) });
        let log: Ghost<Seq<Seq<DependencyKey>>> = Ghost(
            Seq::<Seq<DependencyKey>>::empty().push(keys_of(declared@)),
        );
        let resolver = Resolver { identities, graph, stack, awaiting: false, declared: log };
        proof {
            let start = ResolverState::start(root@, keys_of(declared@));
            lemma_start_wf(root@, keys_of(declared@));
            assert(resolver@.ids =~= start.ids);
            assert(resolver@.stack =~= start.stack);
            assert(resolver@.declared =~= start.declared);
            assert(resolver.graph.nodes() =~= first_nodes(1));
        }
        resolver
    }

    /// How many identities were given out.
    pub fn identities(&self) -> (count: usize)
        requires
            self.wf(),
        ensures
            count == self@.ids.len(),
            1 <= count,
    {
        self.identities.len()
    }

    /// Whether the resolver waits for what a package declares.
    pub fn is_awaiting(&self) -> (awaiting: bool)
        ensures
            awaiting == self@.awaiting,
    {
        self.awaiting
    }

    /// Whether the graph is finished.
    pub fn is_complete(&self) -> (complete: bool)
        ensures
            complete == self@.is_complete(),
    {
        !self.awaiting && self.stack.len() == 0
    }

    /// Takes one step.
    pub fn step(&mut self) -> (progress: Progress)
        requires
            old(self).wf(),
            !old(self)@.awaiting,
        ensures
            final(self).wf(),
            final(self)@ == old(self)@.step(),
            match progress {
                Progress::Request(dependency) => old(self)@.request() == Some(dependency@),
                Progress::Linked(dependency) => old(self)@.taken() == Some(dependency@) && old(
                    self,
                )@.request() is None,
                Progress::Unwound => old(self)@.taken() is None && old(self)@.stack.len() > 0,
                Progress::Finished => old(self)@.is_complete(),
            },
    {
        proof {
            self.identities.lemma_distinct();
        }
        if self.stack.len() == 0 {
            return Progress::Finished;
        }
        let ghost before = self@;
        let ghost frames = self.stack@;
        let mut frame = self.stack.pop().unwrap();
        let ghost waiting = frame.pending@;
        assert(frame@ == before.stack.last());
        match frame.pending.pop() {
            None => {
                assert(self@.stack =~= before.stack.drop_last());
                assert(keys_of(waiting).len() == 0);
                proof {
                    lemma_step_wf(before);
                }
                Progress::Unwound
            },
            Some(dependency) => {
                let node = frame.node;
                assert(keys_of(waiting).last() == dependency@);
                assert(frame@.pending =~= before.stack.last().pending.drop_last());
                self.stack.push(frame);
                assert(self@.stack =~= before.step().stack);
                assert(before.frame_ok(frames.len() - 1));
                match self.identities.lookup(&dependency) {
                    Some(id) => {
                        proof {
                            lemma_index_of_unique(before.ids, id as int);
                            assert(self.graph.nodes()[id as int] == id);
                            assert(self.graph.nodes()[node as int] == node);
                            lemma_step_wf(before);
                        }
                        self.graph.add_edge(id, node);
                        Progress::Linked(dependency)
                    },
                    None => {
                        let copy = dependency.clone();
                        let id = self.identities.assign(dependency);
                        proof {
                            self.identities.lemma_distinct();
                            lemma_step_wf(before);
                        }
                        let ghost nodes = self.graph.nodes();
                        self.graph.add_node(id);
                        proof {
                            if nodes.contains(id) {
                                let at = nodes.index_of(id);
                                assert(nodes[at] == at);
                            }
                            assert(with_node(nodes, id) =~= first_nodes(self.identities@.len()));
                            assert(self.graph.nodes()[id as int] == id);
                            assert(self.graph.nodes()[node as int] == node);
                        }
                        self.graph.add_edge(id, node);
                        self.awaiting = true;
                        Progress::Request(copy)
                    },
                }
            },
        }
    }

    /// Takes in what the package chosen for the newest identity declares.
    pub fn supply(&mut self, declared: Vec<Dependency>)
        requires
            old(self).wf(),
            old(self)@.awaiting,
        ensures
            final(self).wf(),
            final(self)@ == old(self)@.supply(keys_of(declared@)),
    {
        proof {
            lemma_supply_wf(old(self)@, keys_of(declared@));
        }
        let count = self.identities.len();
        let node = (count - 1) as u64;
        let ghost keys = keys_of(declared@);
        self.stack.push(Frame { node, pending: declared });
        self.awaiting = false;
        let log: Ghost<Seq<Seq<DependencyKey>>> = Ghost(self.declared@.push(keys));
        self.declared = log;
        assert(self@.stack =~= old(self)@.supply(keys).stack);
    }

    /// Puts the dependencies of the finished graph in an order for
    /// installing: each one before the packages that declared it. A graph with
    /// a cycle has no such order, and the dependency at which the cycle was
    /// met is reported.
    pub fn finish(self) -> (result: Result<Vec<Dependency>, ResolveError>)
        requires
            self.wf(),
            self@.is_complete(),
        ensures
            result is Ok <==> !has_cycle(self@.edges),
            match result {
                Ok(list) => install_order(self@) == Ok::<Seq<DependencyKey>, Failure>(
                    keys_of(list@),
                ) && respects_edges(self@, keys_of(list@)) && keys_of(list@).last()
                    == self@.ids[0],
                Err(error) => install_order(self@) == Err::<Seq<DependencyKey>, Failure>(error@)
                    && error is CyclicDependency && exists|walk: Seq<u64>| #[trigger]
                    is_cycle(self@.edges, walk) && self@.ids[walk[0] as int]
                        == error->CyclicDependency_dependency@,
            },
    {
        proof {
            self.identities.lemma_distinct();
        }
        let ghost state = self@;
        let ghost nodes = self.graph.nodes();
        match self.graph.topological_order() {
            Err(node) => {
                proof {
                    let walk = choose|walk: Seq<u64>| #[trigger]
                        is_cycle(state.edges, walk) && walk[0] == node;
                    assert(steps_along(state.edges, walk, 0));
                    assert(nodes.contains(node));
                    let at = nodes.index_of(node);
                    assert(nodes[at] == at);
                }
                let dependency = self.identities.dependency(node);
                Err(ResolveError::CyclicDependency { dependency })
            },
            Ok(order) => {
                let mut ordered = InstallOrder::new();
                let mut i: usize = 0;
                proof {
                    assert forall|j: int| 0 <= j < order.len() implies 0 <= #[trigger] order[j]
                        < state.ids.len() by {
                        assert(order@.contains(order[j]));
                        let at = nodes.index_of(order[j]);
                        assert(nodes[at] == at);
                    }
                }
                while i < order.len()
                    invariant
                        self.wf(),
                        state == self@,
                        state.ids.no_duplicates(),
                        order@.no_duplicates(),
                        i <= order.len(),
                        ordered@.len() == i,
                        forall|j: int| 0 <= j < order.len() ==> 0 <= #[trigger] order[j]
                            < state.ids.len(),
                        forall|j: int| 0 <= j < i ==> #[trigger] ordered@[j] == state.ids[order[j] as int],
                    decreases order.len() - i,
                {
                    let dependency = self.identities.dependency(order[i]);
                    proof {
                        if ordered@.contains(dependency@) {
                            let j = ordered@.index_of(dependency@);
                            assert(state.ids[order[j] as int] == state.ids[order[i as int] as int]);
                            assert(order@[j] == order@[i as int]);
                        }
                    }
                    if !ordered.contains(&dependency) {
                        ordered.insert(dependency);
                    }
                    i += 1;
                }
                let list = ordered.into_list();
                proof {
                    lemma_order_respects_edges(state, order@, keys_of(list@));
                    lemma_root_is_last(state, keys_of(list@));
                    assert(keys_of(list@) =~= Seq::new(
                        order@.len(),
                        |i: int| state.ids[order@[i] as int],
                    ));
                }
                Ok(list)
            },
        }
    }
}

/// The dependencies, put in the order in which their nodes were sorted, stand
/// in an order that respects the edges.
pub proof fn lemma_order_respects_edges(
    state: ResolverState,
    order: Seq<u64>,
    list: Seq<DependencyKey>,
)
    requires
        state.wf(),
        crate::graph::is_topological_order(order, first_nodes(state.ids.len()), state.edges),
        list.len() == order.len(),
        forall|j: int| 0 <= j < order.len() ==> list[j] == state.ids[#[trigger] order[j] as int],
    ensures
        respects_edges(state, list),
{
    let nodes = first_nodes(state.ids.len());
    assert forall|j: int| 0 <= j < order.len() implies 0 <= #[trigger] order[j]
        < state.ids.len() by {
        assert(order.contains(order[j]));
        let at = nodes.index_of(order[j]);
        assert(nodes[at] == at);
    }
    assert forall|i: int, j: int| 0 <= i < list.len() && 0 <= j < list.len() && i != j implies list[i]
        != list[j] by {
        assert(order[i] != order[j]);
    }
    assert forall|i: int| 0 <= i < state.ids.len() implies list.contains(
        #[trigger] state.ids[i],
    ) by {
        assert(nodes[i] == i as u64);
        assert(nodes.contains(i as u64));
        assert(order.contains(i as u64));
        let at = order.index_of(i as u64);
        assert(list[at] == state.ids[i]);
    }
    assert forall|i: int| 0 <= i < list.len() implies state.ids.contains(#[trigger] list[i]) by {
        assert(state.ids[order[i] as int] == list[i]);
    }
    assert forall|edge: (u64, u64)| #[trigger] state.edges.contains(edge) implies list.index_of(
        state.ids[edge.0 as int],
    ) < list.index_of(state.ids[edge.1 as int]) by {
        assert(state.edge_ok(edge));
        assert(nodes[edge.0 as int] == edge.0);
        assert(nodes[edge.1 as int] == edge.1);
        assert(nodes.contains(edge.0) && nodes.contains(edge.1));
        assert(order.contains(edge.0) && order.contains(edge.1));
        let a = order.index_of(edge.0);
        let b = order.index_of(edge.1);
        assert(order[a] == edge.0 && order[b] == edge.1);
        assert(a < b);
        assert(list[a] == state.ids[edge.0 as int]);
        assert(list[b] == state.ids[edge.1 as int]);
        let x = list.index_of(state.ids[edge.0 as int]);
        let y = list.index_of(state.ids[edge.1 as int]);
        assert(list[x] == list[a] && list[y] == list[b]);
    }
}

/// In an order that respects the edges of a finished graph, each dependency
/// stands before every package that declared it.
pub proof fn lemma_declared_comes_first(
    state: ResolverState,
    list: Seq<DependencyKey>,
    package: int,
    dependency: int,
)
    requires
        state.wf(),
        state.is_complete(),
        respects_edges(state, list),
        state.declares(package, dependency),
    ensures
        list.index_of(state.ids[dependency]) < list.index_of(state.ids[package]),
{
    lemma_edges_are_declarations(state, package, dependency);
    assert(state.edges.contains((dependency as u64, package as u64)));
}

/// Each dependency but the root stands before the root in an order that
/// respects the edges.
pub proof fn lemma_before_root(state: ResolverState, list: Seq<DependencyKey>, k: int)
    requires
        state.wf(),
        respects_edges(state, list),
        1 <= k < state.ids.len(),
    ensures
        list.index_of(state.ids[k]) < list.index_of(state.ids[0]),
    decreases k,
{
    assert(state.has_parent(k));
    let edge = choose|edge: (u64, u64)| #[trigger]
        state.edges.contains(edge) && edge.0 == k && 0 <= edge.1 < k;
    assert(list.index_of(state.ids[edge.0 as int]) < list.index_of(state.ids[edge.1 as int]));
    if edge.1 > 0 {
        lemma_before_root(state, list, edge.1 as int);
    }
}

/// The root comes last in an order that respects the edges: every other
/// dependency is there because the root needs it.
pub proof fn lemma_root_is_last(state: ResolverState, list: Seq<DependencyKey>)
    requires
        state.wf(),
        respects_edges(state, list),
    ensures
        list.len() > 0,
        list.last() == state.ids[0],
{
    let last = list.last();
    assert(state.ids.contains(list[list.len() - 1]));
    let k = state.ids.index_of(last);
    if k != 0 {
        lemma_before_root(state, list, k);
        assert(list.contains(state.ids[0]));
        let at = list.index_of(last);
        assert(list[at] == list[list.len() - 1]);
    }
}

} // verus!
