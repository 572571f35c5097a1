//! The resolution as a state machine over mathematical values: what a
//! resolver knows at each moment, the steps it takes, and what holds of every
//! state it can reach.

use vstd::prelude::*;
use crate::dependency::DependencyKey;
use crate::graph::has_cycle;
use crate::graph::is_cycle;
use crate::graph::lemma_with_edge_members;
use crate::graph::steps_along;
use crate::graph::with_edge;

verus! {

/// A package that is being expanded: its node, and the dependencies it
/// declared that still wait, the next one last.
pub struct FrameView {
    pub node: u64,
    pub pending: Seq<DependencyKey>,
}

/// What a resolver knows.
pub struct ResolverState {
    /// The dependencies met so far; the place of each is its identity, and the
    /// root has the place 0.
    pub ids: Seq<DependencyKey>,
    /// The edges of the graph, each from a dependency to a package that
    /// declared it, in the order in which they came.
    pub edges: Seq<(u64, u64)>,
    /// The packages under expansion, the innermost last.
    pub stack: Seq<FrameView>,
    /// Whether the newest identity still waits for the dependencies that its
    /// package declares.
    pub awaiting: bool,
    /// For each identity that was expanded, what its package declared.
    pub declared: Seq<Seq<DependencyKey>>,
}

/// In a sequence without repetition an item is found where it stands.
pub proof fn lemma_index_of_unique(ids: Seq<DependencyKey>, at: int)
    requires
        ids.no_duplicates(),
        0 <= at < ids.len(),
    ensures
        ids.contains(ids[at]),
        ids.index_of(ids[at]) == at,
{
    let found = ids.index_of(ids[at]);
    assert(0 <= found < ids.len() && ids[found] == ids[at]);
}

impl ResolverState {
    /// The state in which a resolution starts: the root has the identity 0,
    /// and what it declares waits.
    pub open spec fn start(root: DependencyKey, declared: Seq<DependencyKey>) -> ResolverState {
        ResolverState {
            ids: seq![root],
            edges: Seq::empty(),
            stack: seq![FrameView { node: 0, pending: declared }],
            awaiting: false,
            declared: seq![declared],
        }
    }

    /// Nothing waits any more: the graph is finished.
    pub open spec fn is_complete(self) -> bool {
        !self.awaiting && self.stack.len() == 0
    }

    /// The dependency that the next step takes from the stack, if it takes
    /// one: the last that waits in the innermost frame.
    pub open spec fn taken(self) -> Option<DependencyKey> {
        if self.awaiting || self.stack.len() == 0 || self.stack.last().pending.len() == 0 {
            None
        } else {
            Some(self.stack.last().pending.last())
        }
    }

    /// The dependency that the next step meets for the first time, if it meets
    /// one.
    pub open spec fn request(self) -> Option<DependencyKey> {
        match self.taken() {
            Some(dependency) => if self.ids.contains(dependency) {
                None
            } else {
                Some(dependency)
            },
            None => None,
        }
    }

    /// The state after one step. A package whose declared dependencies are
    /// used up leaves the stack. Otherwise the last one that waits is taken:
    /// one that was met before only gets an edge to the package; a new one
    /// gets the next identity and the edge, and then waits for what it
    /// declares itself.
    pub open spec fn step(self) -> ResolverState {
        if self.awaiting || self.stack.len() == 0 {
            self
        } else if self.stack.last().pending.len() == 0 {
            ResolverState {
                ids: self.ids,
                edges: self.edges,
                stack: self.stack.drop_last(),
                awaiting: false,
                declared: self.declared,
            }
        } else {
            let top = self.stack.last();
            let dependency = top.pending.last();
            let stack = self.stack.drop_last().push(
                FrameView { node: top.node, pending: top.pending.drop_last() },
            );
            if self.ids.contains(dependency) {
                ResolverState {
                    ids: self.ids,
                    edges: with_edge(self.edges, (self.ids.index_of(dependency) as u64, top.node)),
                    stack,
                    awaiting: false,
                    declared: self.declared,
                }
            } else {
                ResolverState {
                    ids: self.ids.push(dependency),
                    edges: with_edge(self.edges, (self.ids.len() as u64, top.node)),
                    stack,
                    awaiting: true,
                    declared: self.declared,
                }
            }
        }
    }

    /// The state after the newest identity got the dependencies that its
    /// package declares: they wait on top of the stack.
    pub open spec fn supply(self, declared: Seq<DependencyKey>) -> ResolverState {
        if self.awaiting {
            ResolverState {
                ids: self.ids,
                edges: self.edges,
                stack: self.stack.push(
                    FrameView { node: (self.ids.len() - 1) as u64, pending: declared },
                ),
                awaiting: false,
                declared: self.declared.push(declared),
            }
        } else {
            self
        }
    }

    /// The edge goes from an identity to the identity of a package that
    /// declared it.
    pub open spec fn edge_ok(self, edge: (u64, u64)) -> bool {
        &&& 0 <= edge.0 < self.ids.len()
        &&& 0 <= edge.1 < self.declared.len()
        &&& self.declared[edge.1 as int].contains(self.ids[edge.0 as int])
    }

    /// What waits in the frame at `f` is the front part of what its package
    /// declared.
    pub open spec fn frame_ok(self, f: int) -> bool {
        let frame = self.stack[f];
        &&& 0 <= frame.node < self.declared.len()
        &&& frame.pending.len() <= self.declared[frame.node as int].len()
        &&& frame.pending == self.declared[frame.node as int].take(frame.pending.len() as int)
    }

    /// The node `k` has an edge to a node that is older than itself.
    pub open spec fn has_parent(self, k: int) -> bool {
        exists|edge: (u64, u64)| #[trigger]
            self.edges.contains(edge) && edge.0 == k && 0 <= edge.1 < k
    }

    /// The dependency at place `p` of what the package of `k` declared still
    /// waits on the stack.
    pub open spec fn is_pending(self, k: int, p: int) -> bool {
        exists|f: int|
            0 <= f < self.stack.len() && (#[trigger] self.stack[f]).node == k && p
                < self.stack[f].pending.len()
    }

    /// The dependency has an identity, and an edge to the node `k`.
    pub open spec fn is_linked(self, dependency: DependencyKey, k: int) -> bool {
        self.ids.contains(dependency) && self.edges.contains(
            (self.ids.index_of(dependency) as u64, k as u64),
        )
    }

    /// The dependency at place `p` of what the package of `k` declared waits,
    /// or it is linked to `k`.
    pub open spec fn settled(self, k: int, p: int) -> bool {
        self.is_pending(k, p) || self.is_linked(self.declared[k][p], k)
    }

    /// What holds of every state that a resolution reaches.
    pub open spec fn wf(self) -> bool {
        &&& 1 <= self.ids.len() <= u64::MAX
        &&& self.ids.no_duplicates()
        &&& self.declared.len() == self.ids.len() - (if self.awaiting {
            1int
        } else {
            0int
        })
        &&& forall|edge: (u64, u64)| #[trigger] self.edges.contains(edge) ==> self.edge_ok(edge)
        &&& forall|f: int| 0 <= f < self.stack.len() ==> #[trigger] self.frame_ok(f)
        &&& forall|k: int| 1 <= k < self.ids.len() ==> #[trigger] self.has_parent(k)
        &&& forall|k: int, p: int|
            0 <= k < self.declared.len() && 0 <= p < self.declared[k].len()
                ==> #[trigger] self.settled(k, p)
    }

    /// The package with the identity `a` declared the dependency with the
    /// identity `b`.
    pub open spec fn declares(self, a: int, b: int) -> bool {
        &&& 0 <= a < self.declared.len()
        &&& 0 <= b < self.ids.len()
        &&& self.declared[a].contains(self.ids[b])
    }

    /// Whether the package at place `i` of `chain` declared the next one.
    pub open spec fn declares_along(self, chain: Seq<int>, i: int) -> bool {
        self.declares(chain[i], chain[i + 1])
    }

    /// Whether `chain` goes from a package through a dependency it declared,
    /// one that this one declared, and so on, back to the package.
    pub open spec fn is_declaration_cycle(self, chain: Seq<int>) -> bool {
        &&& chain.len() >= 2
        &&& chain.first() == chain.last()
        &&& forall|i: int| 0 <= i < chain.len() - 1 ==> #[trigger] self.declares_along(chain, i)
    }
}

/// A resolution starts in a well-formed state.
pub proof fn lemma_start_wf(root: DependencyKey, declared: Seq<DependencyKey>)
    ensures
        ResolverState::start(root, declared).wf(),
        ResolverState::start(root, declared).ids[0] == root,
{
    let s = ResolverState::start(root, declared);
    assert forall|f: int| 0 <= f < s.stack.len() implies #[trigger] s.frame_ok(f) by {
        assert(s.stack[f].pending =~= s.declared[0].take(declared.len() as int));
    }
    assert forall|k: int, p: int|
        0 <= k < s.declared.len() && 0 <= p < s.declared[k].len() implies #[trigger] s.settled(
        k,
        p,
    ) by {
        assert(s.stack[0].node == k);
    }
}

/// A link stays when identities and edges are added.
proof fn lemma_linked_stays(
    before: ResolverState,
    after: ResolverState,
    dependency: DependencyKey,
    k: int,
)
    requires
        before.is_linked(dependency, k),
        after.ids.no_duplicates(),
        before.ids.len() <= after.ids.len(),
        forall|i: int| 0 <= i < before.ids.len() ==> before.ids[i] == after.ids[i],
        forall|edge: (u64, u64)| before.edges.contains(edge) ==> after.edges.contains(edge),
    ensures
        after.is_linked(dependency, k),
{
    let at = before.ids.index_of(dependency);
    assert(after.ids[at] == dependency);
    lemma_index_of_unique(after.ids, at);
}

/// A node keeps its parent when edges are added.
proof fn lemma_parent_stays(before: ResolverState, after: ResolverState, k: int)
    requires
        before.has_parent(k),
        forall|edge: (u64, u64)| before.edges.contains(edge) ==> after.edges.contains(edge),
    ensures
        after.has_parent(k),
{
    let parent = choose|parent: (u64, u64)| #[trigger]
        before.edges.contains(parent) && parent.0 == k && 0 <= parent.1 < k;
    assert(after.edges.contains(parent));
}

/// A step keeps a state well-formed, as long as an integer is left for the
/// identity that it may give out.
pub proof fn lemma_step_wf(s: ResolverState)
    requires
        s.wf(),
        s.request() is Some ==> s.ids.len() < u64::MAX,
    ensures
        s.step().wf(),
{
    let t = s.step();
    let last = s.stack.len() - 1;
    let top = s.stack.last();
    if s.awaiting || s.stack.len() == 0 {
    } else if top.pending.len() == 0 {
        assert forall|f: int| 0 <= f < t.stack.len() implies #[trigger] t.frame_ok(f) by {
            assert(s.frame_ok(f));
        }
        assert forall|k: int| 1 <= k < t.ids.len() implies #[trigger] t.has_parent(k) by {
            lemma_parent_stays(s, t, k);
        }
        assert forall|k: int, p: int|
            0 <= k < t.declared.len() && 0 <= p < t.declared[k].len() implies #[trigger] t.settled(
            k,
            p,
        ) by {
            assert(s.settled(k, p));
            if s.is_pending(k, p) {
                let f = choose|f: int|
                    0 <= f < s.stack.len() && (#[trigger] s.stack[f]).node == k && p
                        < s.stack[f].pending.len();
                assert(t.stack[f] == s.stack[f]);
            }
        }
    } else {
        lemma_taking_step_wf(s);
    }
}

/// The step that takes a dependency from the stack keeps a state well-formed.
proof fn lemma_taking_step_wf(s: ResolverState)
    requires
        s.wf(),
        s.request() is Some ==> s.ids.len() < u64::MAX,
        !s.awaiting,
        s.stack.len() > 0,
        s.stack.last().pending.len() > 0,
    ensures
        s.step().wf(),
{
    let t = s.step();
    let last = s.stack.len() - 1;
    let top = s.stack.last();
    assert(s.frame_ok(last));
    let count = top.pending.len() as int;
    let dependency = top.pending.last();
    assert(dependency == s.declared[top.node as int][count - 1]);
    let met = s.ids.contains(dependency);
    let id: int = if met {
        s.ids.index_of(dependency)
    } else {
        s.ids.len() as int
    };
    let edge = (id as u64, top.node);
    assert(t.edges == with_edge(s.edges, edge));
    assert(t.ids[id] == dependency);
    lemma_index_of_unique(t.ids, id);
    assert forall|other: (u64, u64)| #[trigger] t.edges.contains(other) implies t.edge_ok(
        other,
    ) by {
        lemma_with_edge_members(s.edges, edge, other);
        if other != edge {
            assert(s.edge_ok(other));
            assert(t.ids[other.0 as int] == s.ids[other.0 as int]);
        } else {
            assert(t.declared[top.node as int][count - 1] == t.ids[id]);
        }
    }
    assert forall|other: (u64, u64)| s.edges.contains(other) implies t.edges.contains(other) by {
        lemma_with_edge_members(s.edges, edge, other);
    }
    lemma_with_edge_members(s.edges, edge, edge);
    assert forall|f: int| 0 <= f < t.stack.len() implies #[trigger] t.frame_ok(f) by {
        assert(s.frame_ok(f));
        if f == last {
            assert(t.stack[f].pending =~= t.declared[top.node as int].take(count - 1));
        }
    }
    assert forall|k: int| 1 <= k < t.ids.len() implies #[trigger] t.has_parent(k) by {
        if k < s.ids.len() {
            lemma_parent_stays(s, t, k);
        } else {
            assert(t.edges.contains(edge));
        }
    }
    assert forall|k: int, p: int|
        0 <= k < t.declared.len() && 0 <= p < t.declared[k].len() implies #[trigger] t.settled(
        k,
        p,
    ) by {
        assert(s.settled(k, p));
        if s.is_pending(k, p) {
            let f = choose|f: int|
                0 <= f < s.stack.len() && (#[trigger] s.stack[f]).node == k && p
                    < s.stack[f].pending.len();
            if f < last {
                assert(t.stack[f] == s.stack[f]);
            } else if p < count - 1 {
                assert(t.stack[f].node == k);
            } else {
                assert(t.is_linked(dependency, k));
            }
        } else {
            lemma_linked_stays(s, t, s.declared[k][p], k);
        }
    }
}

/// Handing over what a package declares keeps a state well-formed.
pub proof fn lemma_supply_wf(s: ResolverState, declared: Seq<DependencyKey>)
    requires
        s.wf(),
    ensures
        s.supply(declared).wf(),
{
    if s.awaiting {
        lemma_supplying_wf(s, declared);
    }
}

/// Handing over what a package declares, to a state that waits for it, keeps
/// the state well-formed.
proof fn lemma_supplying_wf(s: ResolverState, declared: Seq<DependencyKey>)
    requires
        s.wf(),
        s.awaiting,
    ensures
        s.supply(declared).wf(),
{
    let t = s.supply(declared);
    let last = s.stack.len() as int;
    assert forall|edge: (u64, u64)| #[trigger] t.edges.contains(edge) implies t.edge_ok(edge) by {
        assert(s.edge_ok(edge));
        assert(t.declared[edge.1 as int] == s.declared[edge.1 as int]);
    }
    assert forall|f: int| 0 <= f < t.stack.len() implies #[trigger] t.frame_ok(f) by {
        if f < last {
            assert(s.frame_ok(f));
        } else {
            assert(t.stack[f].pending =~= t.declared[s.ids.len() - 1].take(
                declared.len() as int,
            ));
        }
    }
    assert forall|k: int| 1 <= k < t.ids.len() implies #[trigger] t.has_parent(k) by {
        lemma_parent_stays(s, t, k);
    }
    assert forall|k: int, p: int|
        0 <= k < t.declared.len() && 0 <= p < t.declared[k].len() implies #[trigger] t.settled(
        k,
        p,
    ) by {
        if k < s.declared.len() {
            assert(s.settled(k, p));
            if s.is_pending(k, p) {
                let f = choose|f: int|
                    0 <= f < s.stack.len() && (#[trigger] s.stack[f]).node == k && p
                        < s.stack[f].pending.len();
                assert(t.stack[f] == s.stack[f]);
            }
        } else {
            assert(t.stack[last].node == k);
        }
    }
}

/// A dependency is asked for only when it is met for the first time: it has
/// no identity before the step and has the newest one after it, and no other
/// step gives out an identity.
pub proof fn lemma_request_is_new(s: ResolverState)
    ensures
        match s.request() {
            Some(dependency) => !s.ids.contains(dependency) && s.step().ids == s.ids.push(
                dependency,
            ) && s.step().awaiting,
            None => s.step().ids == s.ids,
        },
{
}

/// Two dependencies on one package under different constraints are different
/// dependencies: neither stands for the other, so each is asked for when it
/// is met, whether or not the other has an identity, and they never share an
/// identity.
pub proof fn lemma_constraints_do_not_collapse(s: ResolverState, i: int, j: int)
    requires
        s.wf(),
        0 <= i < s.ids.len(),
        0 <= j < s.ids.len(),
        s.ids[i].0 == s.ids[j].0,
        s.ids[i].1 != s.ids[j].1,
    ensures
        i != j,
        s.ids.index_of(s.ids[i]) != s.ids.index_of(s.ids[j]),
{
    lemma_index_of_unique(s.ids, i);
    lemma_index_of_unique(s.ids, j);
}

/// What a caller does with a resolver: it lets it take a step, or it hands it
/// what the package chosen for the newest identity declares.
pub enum Move {
    Step,
    Supply(Seq<DependencyKey>),
}

impl ResolverState {
    /// The state after a move.
    pub open spec fn after(self, m: Move) -> ResolverState {
        match m {
            Move::Step => self.step(),
            Move::Supply(declared) => self.supply(declared),
        }
    }

    /// The dependency that a move asks for, if it asks for one.
    pub open spec fn asked(self, m: Move) -> Option<DependencyKey> {
        match m {
            Move::Step => self.request(),
            Move::Supply(_) => None,
        }
    }

    /// The state after a run of moves.
    pub open spec fn after_all(self, moves: Seq<Move>) -> ResolverState
        decreases moves.len(),
    {
        if moves.len() == 0 {
            self
        } else {
            self.after_all(moves.drop_last()).after(moves.last())
        }
    }
}

/// A dependency that has an identity keeps it through any run of moves.
pub proof fn lemma_identity_stays(s: ResolverState, moves: Seq<Move>, at: int)
    requires
        0 <= at < s.ids.len(),
    ensures
        at < s.after_all(moves).ids.len(),
        s.after_all(moves).ids[at] == s.ids[at],
    decreases moves.len(),
{
    if moves.len() > 0 {
        lemma_identity_stays(s, moves.drop_last(), at);
    }
}

/// In any run of moves, whatever the packages declare, no dependency is
/// asked for twice: two moves that ask, ask for different dependencies.
pub proof fn lemma_asked_once(s: ResolverState, moves: Seq<Move>, i: int, j: int)
    requires
        0 <= i < j < moves.len(),
        s.after_all(moves.take(i)).asked(moves[i]) is Some,
    ensures
        s.after_all(moves.take(j)).asked(moves[j]) != s.after_all(moves.take(i)).asked(moves[i]),
{
    let before = s.after_all(moves.take(i));
    let dependency = before.asked(moves[i])->Some_0;
    let then = before.after(moves[i]);
    let rest = moves.subrange(i + 1, j);
    assert(moves.take(i + 1).drop_last() =~= moves.take(i));
    assert(then == s.after_all(moves.take(i + 1)));
    lemma_runs_join(s, moves.take(i + 1), rest);
    assert(moves.take(i + 1) + rest =~= moves.take(j));
    let later = s.after_all(moves.take(j));
    assert(later == then.after_all(rest));
    let at = before.ids.len() as int;
    assert(then.ids[at] == dependency);
    lemma_identity_stays(then, rest, at);
    assert(later.ids.contains(dependency));
}

/// A run of moves can be taken in two parts.
pub proof fn lemma_runs_join(s: ResolverState, first: Seq<Move>, second: Seq<Move>)
    ensures
        s.after_all(first + second) == s.after_all(first).after_all(second),
    decreases second.len(),
{
    if second.len() == 0 {
        assert(first + second =~= first);
    } else {
        assert((first + second).drop_last() =~= first + second.drop_last());
        lemma_runs_join(s, first, second.drop_last());
    }
}

/// Every run of moves leads from a well-formed state to a well-formed state,
/// as long as integers are left for new identities.
pub proof fn lemma_run_wf(s: ResolverState, moves: Seq<Move>)
    requires
        s.wf(),
        s.ids.len() + moves.len() <= u64::MAX,
    ensures
        s.after_all(moves).wf(),
        s.after_all(moves).ids.len() <= s.ids.len() + moves.len(),
    decreases moves.len(),
{
    if moves.len() > 0 {
        lemma_run_wf(s, moves.drop_last());
        let before = s.after_all(moves.drop_last());
        match moves.last() {
            Move::Step => {
                lemma_step_wf(before);
            },
            Move::Supply(declared) => {
                lemma_supply_wf(before, declared);
            },
        }
    }
}

/// A dependency whose name has an identity under another constraint, and
/// none under its own, is asked for like any dependency that is new.
pub proof fn lemma_other_constraint_is_asked_for(s: ResolverState, i: int)
    requires
        s.wf(),
        !s.awaiting,
        s.stack.len() > 0,
        s.stack.last().pending.len() > 0,
        0 <= i < s.ids.len(),
        s.ids[i].0 == s.stack.last().pending.last().0,
        forall|j: int|
            0 <= j < s.ids.len() && (#[trigger] s.ids[j]).0 == s.stack.last().pending.last().0
                ==> s.ids[j].1 != s.stack.last().pending.last().1,
    ensures
        s.request() == Some(s.stack.last().pending.last()),
        s.step().ids.len() == s.ids.len() + 1,
        s.step().ids[i] == s.ids[i],
        s.step().ids.last() == s.stack.last().pending.last(),
{
    let dependency = s.stack.last().pending.last();
    if s.ids.contains(dependency) {
        let at = s.ids.index_of(dependency);
        assert(s.ids[at].0 == dependency.0);
    }
}

/// In a finished graph the edges are the declarations: there is an edge from
/// one identity to another exactly where the package of the second declared
/// the first.
pub proof fn lemma_edges_are_declarations(s: ResolverState, package: int, dependency: int)
    requires
        s.wf(),
        s.is_complete(),
        0 <= package < s.ids.len(),
        0 <= dependency < s.ids.len(),
    ensures
        s.edges.contains((dependency as u64, package as u64)) <==> s.declares(package, dependency),
{
    if s.edges.contains((dependency as u64, package as u64)) {
        assert(s.edge_ok((dependency as u64, package as u64)));
    }
    if s.declares(package, dependency) {
        let p = s.declared[package].index_of(s.ids[dependency]);
        assert(s.settled(package, p));
        lemma_index_of_unique(s.ids, dependency);
    }
}

/// In a finished graph, packages that declare each other in a circle stand
/// on a cycle of edges.
pub proof fn lemma_declaration_cycle_is_cycle(s: ResolverState, chain: Seq<int>)
    requires
        s.wf(),
        s.is_complete(),
        s.is_declaration_cycle(chain),
    ensures
        has_cycle(s.edges),
{
    let n = chain.len() as int;
    let walk = Seq::new(chain.len(), |i: int| chain[n - 1 - i] as u64);
    assert forall|i: int| 0 <= i < walk.len() - 1 implies #[trigger] steps_along(
        s.edges,
        walk,
        i,
    ) by {
        let m = n - 2 - i;
        assert(s.declares_along(chain, m));
        let a = chain[m];
        let b = chain[m + 1];
        let p = s.declared[a].index_of(s.ids[b]);
        assert(s.settled(a, p));
        if s.is_pending(a, p) {
            assert(false);
        }
        lemma_index_of_unique(s.ids, b);
        assert(s.edges.contains((b as u64, a as u64)));
        assert(walk[i] == b as u64);
        assert(walk[i + 1] == a as u64);
    }
    assert(is_cycle(s.edges, walk));
}

} // verus!
