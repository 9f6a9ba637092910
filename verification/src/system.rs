use crate::key::Key;
use crate::schedule::ScheduleId;
use crate::storage::dense::{records_at, DenseMap};
use vstd::prelude::*;

verus! {

/// How the systems of a phase are run: one after another, or those that
/// need not wait for each other side by side.
#[derive(Clone, Copy, PartialEq, Eq, Structural, Debug)]
pub enum RunMode {
    Sequential,
    Parallel,
}

/// What a system touches: the type keys that it reads and those that it
/// writes, beside the system itself.
pub struct SystemAccess<S> {
    pub system: S,
    pub reads: Vec<u64>,
    pub writes: Vec<u64>,
}

/// Whether a system with access `(reads, writes)` must wait for one with
/// access `(other_reads, other_writes)`: the other writes a type that it
/// reads or writes, or reads a type that it writes.
pub open spec fn conflicts(
    reads: Seq<u64>,
    writes: Seq<u64>,
    other_reads: Seq<u64>,
    other_writes: Seq<u64>,
) -> bool {
    exists|t: u64|
        (other_writes.contains(t) && (reads.contains(t) || writes.contains(t))) || (
        other_reads.contains(t) && writes.contains(t))
}

fn holds(keys: &Vec<u64>, t: u64) -> (r: bool)
    ensures
        r == keys@.contains(t),
{
    let mut i: usize = 0;
    while i < keys.len()
        invariant
            i <= keys.len(),
            forall|j: int| 0 <= j < i ==> keys@[j] != t,
        decreases keys.len() - i,
    {
        if keys[i] == t {
            return true;
        }
        i = i + 1;
    }
    false
}

impl<S> SystemAccess<S> {
    pub fn new(system: S, reads: Vec<u64>, writes: Vec<u64>) -> (r: Self)
        ensures
            r.system == system,
            r.reads@ == reads@,
            r.writes@ == writes@,
    {
        SystemAccess { system, reads, writes }
    }

    /// Whether this system has to run after `other`.
    pub fn is_dependency(&self, other: &Self) -> (r: bool)
        ensures
            r == conflicts(self.reads@, self.writes@, other.reads@, other.writes@),
    {
        let mut i: usize = 0;
        while i < other.writes.len()
            invariant
                i <= other.writes.len(),
                forall|j: int|
                    0 <= j < i ==> !self.reads@.contains(#[trigger] other.writes@[j])
                        && !self.writes@.contains(other.writes@[j]),
            decreases other.writes.len() - i,
        {
            let t = other.writes[i];
            if holds(&self.reads, t) || holds(&self.writes, t) {
                assert(other.writes@.contains(t));
                return true;
            }
            i = i + 1;
        }
        let mut k: usize = 0;
        while k < other.reads.len()
            invariant
                k <= other.reads.len(),
                forall|j: int| 0 <= j < k ==> !self.writes@.contains(#[trigger] other.reads@[j]),
            decreases other.reads.len() - k,
        {
            let t = other.reads[k];
            if holds(&self.writes, t) {
                assert(other.reads@.contains(t));
                return true;
            }
            k = k + 1;
        }
        proof {
            assert forall|t: u64|
                !((other.writes@.contains(t) && (self.reads@.contains(t) || self.writes@.contains(
                    t,
                ))) || (other.reads@.contains(t) && self.writes@.contains(t))) by {
                if other.writes@.contains(t) {
                    let j = choose|j: int| 0 <= j < other.writes@.len() && other.writes@[j] == t;
                    assert(!self.reads@.contains(other.writes@[j]));
                }
                if other.reads@.contains(t) {
                    let j = choose|j: int| 0 <= j < other.reads@.len() && other.reads@[j] == t;
                    assert(!self.writes@.contains(other.reads@[j]));
                }
            }
        }
        false
    }
}

/// A system to place in a graph, with the systems that it brings along:
/// `before` are placed after it and wait for it; `after` are placed (with
/// what they bring) ahead of it, and it waits for each of them.
pub struct SystemNode<S> {
    pub access: SystemAccess<S>,
    pub before: Vec<SystemAccess<S>>,
    pub after: Vec<SystemNode<S>>,
}

/// The systems that placing `node` appends, in order: those that its
/// `after` list places, then the system itself, then its `before` list.
pub open spec fn placed<S>(node: SystemNode<S>) -> Seq<SystemAccess<S>>
    decreases node,
{
    proof {
        assert(decreases_to!(node => node.after));
        assert(decreases_to!(node.after => node.after@));
    }
    placed_all(node.after@) + seq![node.access] + node.before@
}

/// The systems that placing each of `nodes` in turn appends.
pub open spec fn placed_all<S>(nodes: Seq<SystemNode<S>>) -> Seq<SystemAccess<S>>
    decreases nodes,
{
    if nodes.len() == 0 {
        Seq::empty()
    } else {
        proof {
            assert(decreases_to!(nodes => nodes[nodes.len() - 1]));
        }
        placed_all(nodes.drop_last()) + placed(nodes.last())
    }
}

/// Where the system of `nodes[i]` lands when `nodes` are placed in turn
/// from position `base` on.
pub open spec fn position_in<S>(nodes: Seq<SystemNode<S>>, i: int, base: int) -> int {
    base + placed_all(nodes.take(i)).len() + placed_all(nodes[i].after@).len()
}

/// The dependencies that placing `node` from position `base` on records,
/// in order, each as (dependent, dependency): those that its `after` list
/// records, then the system on each of its `after` systems, then each of
/// its `before` systems on it.
pub open spec fn links<S>(node: SystemNode<S>, base: int) -> Seq<(int, int)>
    decreases node,
{
    let id = base + placed_all(node.after@).len();
    proof {
        assert(decreases_to!(node => node.after));
        assert(decreases_to!(node.after => node.after@));
    }
    links_all(node.after@, base) + Seq::new(
        node.after@.len(),
        |i: int| (id, position_in(node.after@, i, base)),
    ) + Seq::new(node.before@.len(), |j: int| (id + 1 + j, id))
}

/// The dependencies that placing each of `nodes` in turn from position
/// `base` on records.
pub open spec fn links_all<S>(nodes: Seq<SystemNode<S>>, base: int) -> Seq<(int, int)>
    decreases nodes,
{
    if nodes.len() == 0 {
        Seq::empty()
    } else {
        proof {
            assert(decreases_to!(nodes => nodes[nodes.len() - 1]));
        }
        links_all(nodes.drop_last(), base) + links(
            nodes.last(),
            base + placed_all(nodes.drop_last()).len(),
        )
    }
}

/// The systems of a schedule and the dependencies between them, each
/// recorded as (dependent, dependency) by position.
pub struct SystemGraph<S> {
    nodes: Vec<SystemAccess<S>>,
    dependencies: Vec<(usize, usize)>,
}

proof fn lemma_placed_prefix<S>(nodes: Seq<SystemNode<S>>, k: int)
    requires
        0 <= k <= nodes.len(),
    ensures
        placed_all(nodes.take(k)).len() <= placed_all(nodes).len(),
    decreases nodes.len() - k,
{
    if k < nodes.len() {
        lemma_placed_prefix(nodes, k + 1);
        assert(nodes.take(k + 1).drop_last() =~= nodes.take(k));
    } else {
        assert(nodes.take(k) =~= nodes);
    }
}

impl<S> SystemGraph<S> {
    /// The systems, in the order they were placed.
    pub closed spec fn systems(&self) -> Seq<SystemAccess<S>> {
        self.nodes@
    }

    /// The dependencies, in the order they were recorded.
    pub closed spec fn links(&self) -> Seq<(int, int)> {
        self.dependencies@.map_values(|e: (usize, usize)| (e.0 as int, e.1 as int))
    }

    pub fn new() -> (r: Self)
        ensures
            r.systems() == Seq::<SystemAccess<S>>::empty(),
            r.links() == Seq::<(int, int)>::empty(),
    {
        let r = SystemGraph { nodes: Vec::new(), dependencies: Vec::new() };
        assert(r.links() =~= Seq::<(int, int)>::empty());
        r
    }

    pub fn len(&self) -> (r: usize)
        ensures
            r == self.systems().len(),
    {
        self.nodes.len()
    }

    pub fn system(&self, index: usize) -> (r: Option<&SystemAccess<S>>)
        ensures
            index < self.systems().len() ==> r == Some(&self.systems()[index as int]),
            index >= self.systems().len() ==> r.is_none(),
    {
        if index < self.nodes.len() {
            Some(&self.nodes[index])
        } else {
            None
        }
    }

    /// The dependencies as (dependent, dependency) pairs.
    pub fn dependencies(&self) -> (r: &Vec<(usize, usize)>)
        ensures
            r@.map_values(|e: (usize, usize)| (e.0 as int, e.1 as int)) == self.links(),
    {
        &self.dependencies
    }

    fn link(&mut self, from: usize, to: usize)
        ensures
            final(self).systems() == old(self).systems(),
            final(self).links() == old(self).links().push((from as int, to as int)),
    {
        self.dependencies.push((from, to));
        assert(self.links() =~= old(self).links().push((from as int, to as int)));
    }

    /// Places `node` and what it brings along, and records their
    /// dependencies; returns the position of the node's own system.
    pub fn add_system(&mut self, node: SystemNode<S>) -> (id: usize)
        requires
            old(self).systems().len() + placed(node).len() <= usize::MAX,
        ensures
            final(self).systems() == old(self).systems() + placed(node),
            final(self).links() == old(self).links() + links(node, old(self).systems().len() as int),
            id == old(self).systems().len() + placed_all(node.after@).len(),
        decreases node,
    {
        let ghost whole = node;
        let ghost base = self.nodes@.len() as int;
        let ghost start_nodes = self.nodes@;
        let ghost start_links = self.links();
        let access = node.access;
        let mut before = node.before;
        let mut after = node.after;
        let ghost all_after = after@;
        let ghost all_before = before@;
        let n_after = after.len();
        let n_before = before.len();
        let mut after_ids: Vec<usize> = Vec::new();
        let mut k: usize = 0;
        proof {
            assert(all_after.take(0) =~= Seq::<SystemNode<S>>::empty());
            assert(after@ =~= all_after.skip(0));
            assert(self.links() =~= start_links + links_all(all_after.take(0), base));
        }
        while k < n_after
            invariant
                n_after == all_after.len(),
                n_before == all_before.len(),
                whole == node,
                all_after == whole.after@,
                all_before == whole.before@,
                before@ == all_before,
                base == start_nodes.len(),
                start_nodes.len() + placed(whole).len() <= usize::MAX,
                k <= all_after.len(),
                after@ == all_after.skip(k as int),
                self.nodes@ == start_nodes + placed_all(all_after.take(k as int)),
                self.links() == start_links + links_all(all_after.take(k as int), base),
                after_ids@.len() == k,
                forall|j: int| 0 <= j < k ==> after_ids@[j] == position_in(all_after, j, base),
            decreases all_after.len() - k,
        {
            let child = after.remove(0);
            proof {
                assert(child == all_after[k as int]);
                assert(decreases_to!(whole => whole.after));
                assert(decreases_to!(whole.after => whole.after@));
                assert(decreases_to!(whole.after@ => whole.after@[k as int]));
                lemma_placed_prefix(all_after, k + 1);
                assert(all_after.take(k + 1).drop_last() =~= all_after.take(k as int));
                assert(all_after.take(k + 1).last() == child);
            }
            let child_id = self.add_system(child);
            after_ids.push(child_id);
            proof {
                assert(after@ =~= all_after.skip(k + 1));
                assert(self.nodes@ =~= start_nodes + placed_all(all_after.take(k + 1)));
                assert(self.links() =~= start_links + links_all(all_after.take(k + 1), base));
            }
            k = k + 1;
        }
        proof {
            assert(all_after.take(all_after.len() as int) =~= all_after);
        }
        let id = self.nodes.len();
        self.nodes.push(access);
        let mut i: usize = 0;
        while i < after_ids.len()
            invariant
                whole == node,
                all_after == whole.after@,
                all_before == whole.before@,
                before@ == all_before,
                base == start_nodes.len(),
                start_nodes.len() + placed(whole).len() <= usize::MAX,
                id == base + placed_all(all_after).len(),
                n_before == all_before.len(),
                after_ids@.len() == all_after.len(),
                forall|j: int| 0 <= j < all_after.len() ==> after_ids@[j] == position_in(all_after, j, base),
                i <= after_ids.len(),
                self.nodes@ == start_nodes + placed_all(all_after) + seq![access],
                self.links() == start_links + links_all(all_after, base) + Seq::new(
                    i as nat,
                    |j: int| (id as int, position_in(all_after, j, base)),
                ),
            decreases after_ids.len() - i,
        {
            self.link(id, after_ids[i]);
            assert(self.links() =~= start_links + links_all(all_after, base) + Seq::new(
                (i + 1) as nat,
                |j: int| (id as int, position_in(all_after, j, base)),
            ));
            i = i + 1;
        }
        let mut b: usize = 0;
        while b < n_before
            invariant
                n_before == all_before.len(),
                whole == node,
                all_after == whole.after@,
                all_before == whole.before@,
                base == start_nodes.len(),
                start_nodes.len() + placed(whole).len() <= usize::MAX,
                id == base + placed_all(all_after).len(),
                b <= all_before.len(),
                before@ == all_before.skip(b as int),
                self.nodes@ == start_nodes + placed_all(all_after) + seq![access] + all_before.take(b as int),
                self.links() == start_links + links_all(all_after, base) + Seq::new(
                    all_after.len(),
                    |j: int| (id as int, position_in(all_after, j, base)),
                ) + Seq::new(b as nat, |j: int| (id + 1 + j, id as int)),
            decreases all_before.len() - b,
        {
            let system = before.remove(0);
            let before_id = self.nodes.len();
            self.nodes.push(system);
            self.link(before_id, id);
            proof {
                assert(before@ =~= all_before.skip(b + 1));
                assert(self.nodes@ =~= start_nodes + placed_all(all_after) + seq![access] + all_before.take(b + 1));
                assert(self.links() =~= start_links + links_all(all_after, base) + Seq::new(
                    all_after.len(),
                    |j: int| (id as int, position_in(all_after, j, base)),
                ) + Seq::new((b + 1) as nat, |j: int| (id + 1 + j, id as int)));
            }
            b = b + 1;
        }
        proof {
            assert(all_before.take(all_before.len() as int) =~= all_before);
            assert(self.nodes@ =~= start_nodes + placed(whole));
            assert(self.links() =~= start_links + links(whole, base));
        }
        id
    }
}

/// Every dependency in `deps` is between systems at positions in
/// `[lo, hi)`, and the dependent stands after its dependency.
pub open spec fn points_back(deps: Seq<(int, int)>, lo: int, hi: int) -> bool {
    forall|i: int|
        0 <= i < deps.len() ==> lo <= (#[trigger] deps[i]).1 && deps[i].1 < deps[i].0 && deps[i].0
            < hi
}

proof fn lemma_links_all_point_back<S>(nodes: Seq<SystemNode<S>>, base: int)
    ensures
        points_back(links_all(nodes, base), base, base + placed_all(nodes).len()),
    decreases nodes,
{
    if nodes.len() > 0 {
        assert(decreases_to!(nodes => nodes[nodes.len() - 1]));
        let rest = nodes.drop_last();
        let mid = base + placed_all(rest).len();
        lemma_links_all_point_back(rest, base);
        law_dependencies_point_back(nodes.last(), mid);
        let a = links_all(rest, base);
        let b = links(nodes.last(), mid);
        assert forall|i: int| 0 <= i < (a + b).len() implies base <= (#[trigger] (a + b)[i]).1
            && (a + b)[i].1 < (a + b)[i].0 && (a + b)[i].0 < base + placed_all(nodes).len() by {
            if i < a.len() {
                assert((a + b)[i] == a[i]);
            } else {
                assert((a + b)[i] == b[i - a.len()]);
            }
        }
    }
}

/// Placing a system with what it brings along from position `base` on
/// records dependencies only between the systems that it placed, and each
/// on a system placed before the dependent: the order of placement runs
/// every dependency first.
pub proof fn law_dependencies_point_back<S>(node: SystemNode<S>, base: int)
    ensures
        points_back(links(node, base), base, base + placed(node).len()),
    decreases node,
{
    assert(decreases_to!(node => node.after));
    assert(decreases_to!(node.after => node.after@));
    let after = node.after@;
    let p = placed_all(after).len();
    let id = base + p;
    let hi = base + placed(node).len();
    lemma_links_all_point_back(after, base);
    let a = links_all(after, base);
    let b = Seq::new(after.len(), |i: int| (id, position_in(after, i, base)));
    let c = Seq::new(node.before@.len(), |j: int| (id + 1 + j, id));
    assert forall|i: int| 0 <= i < b.len() implies base <= (#[trigger] b[i]).1 && b[i].1 < b[i].0
        && b[i].0 < hi by {
        lemma_placed_prefix(after, i + 1);
        assert(after.take(i + 1).drop_last() =~= after.take(i));
        assert(after.take(i + 1).last() == after[i]);
        assert(placed_all(after.take(i + 1)) == placed_all(after.take(i)) + placed(after[i]));
        assert(placed(after[i]).len() == placed_all(after[i].after@).len() + 1
            + after[i].before@.len());
        assert(placed(node).len() == p + 1 + node.before@.len());
    }
    let ab = a + b;
    assert forall|i: int| 0 <= i < (ab + c).len() implies base <= (#[trigger] (ab + c)[i]).1
        && (ab + c)[i].1 < (ab + c)[i].0 && (ab + c)[i].0 < hi by {
        if i < a.len() {
            assert((ab + c)[i] == a[i]);
        } else if i < ab.len() {
            assert((ab + c)[i] == b[i - a.len()]);
        } else {
            assert((ab + c)[i] == c[i - ab.len()]);
        }
    }
    assert(links(node, base) == ab + c);
}

/// The system graphs of a schedule's phases, at most one per phase.
pub struct SystemGraphs<S> {
    graphs: DenseMap<ScheduleId, SystemGraph<S>>,
}

impl<S> SystemGraphs<S> {
    pub closed spec fn wf(&self) -> bool {
        self.graphs.wf() && self.graphs.is_proper()
    }

    /// The graph of the phase `id`, if it has one.
    pub closed spec fn graph(&self, id: ScheduleId) -> Option<SystemGraph<S>> {
        if self.graphs.has(id) {
            Some(self.graphs.lookup(id))
        } else {
            None
        }
    }

    pub fn new() -> (r: Self)
        ensures
            r.wf(),
            forall|id: ScheduleId| #[trigger] r.graph(id) is None,
    {
        SystemGraphs { graphs: DenseMap::new() }
    }

    pub fn get(&self, id: &ScheduleId) -> (r: Option<&SystemGraph<S>>)
        requires
            self.wf(),
        ensures
            match r {
                Some(g) => self.graph(*id) == Some(*g),
                None => self.graph(*id) is None,
            },
    {
        self.graphs.get(id)
    }

    /// Places `node` in the graph of `phase`, which is made empty first
    /// where the phase has none.
    pub fn add_system(&mut self, phase: ScheduleId, node: SystemNode<S>)
        requires
            old(self).wf(),
            placed(node).len() <= usize::MAX,
            old(self).graph(phase) is Some ==> old(self).graph(phase)->0.systems().len() + placed(
                node,
            ).len() <= usize::MAX,
        ensures
            final(self).wf(),
            forall|id: ScheduleId| id != phase ==> #[trigger] final(self).graph(id) == old(self).graph(id),
            final(self).graph(phase) is Some,
            ({
                let (systems, deps) = match old(self).graph(phase) {
                    Some(g) => (g.systems(), g.links()),
                    None => (Seq::<SystemAccess<S>>::empty(), Seq::<(int, int)>::empty()),
                };
                &&& final(self).graph(phase)->0.systems() == systems + placed(node)
                &&& final(self).graph(phase)->0.links() == deps + links(node, systems.len() as int)
            }),
    {
        let ghost before = *self;
        proof {
            assert(self.graphs.is_accurate());
            self.graphs.lemma_wf();
        }
        if self.graphs.contains(&phase) {
            let ghost i = before.graphs.slot(phase);
            proof {
                assert(before.graphs.index_map().contains_key(phase.spec_key()));
                assert(0 <= i < before.graphs.key_seq().len());
            }
            match self.graphs.get_mut(&phase) {
                Some(graph) => {
                    graph.add_system(node);
                },
                None => {},
            }
            proof {
                assert(self.graphs.key_seq() == before.graphs.key_seq());
                assert(self.graphs.index_map() == before.graphs.index_map());
                assert(self.graphs.value_seq().len() == before.graphs.value_seq().len());
                assert forall|j: int| 0 <= j < self.graphs.value_seq().len() && j != i implies self.graphs.value_seq()[j] == before.graphs.value_seq()[j] by {}
                assert forall|id: ScheduleId| id != phase implies #[trigger] self.graph(id) == before.graph(
                    id,
                ) by {
                    if before.graphs.has(id) {
                        assert(before.graphs.index_map().contains_key(id.spec_key()));
                        assert(before.graphs.index_map().contains_key(phase.spec_key()));
                        assert(before.graphs.slot(id) != i);
                    }
                }
                assert(self.graphs.index_map().contains_key(phase.spec_key()));
                assert(self.graph(phase) == Some(self.graphs.value_seq()[i]));
                assert(self.graphs.is_proper()) by {
                    assert forall|j: int| 0 <= j < self.graphs.key_seq().len() implies #[trigger] records_at(
                        self.graphs.index_map(),
                        self.graphs.key_seq(),
                        j,
                    ) by {
                        assert(before.graphs.self_indexed(j));
                    }
                }
            }
        } else {
            let mut graph = SystemGraph::new();
            graph.add_system(node);
            proof {
                assert(graph.systems() =~= Seq::<SystemAccess<S>>::empty() + placed(node));
                assert(graph.links() =~= Seq::<(int, int)>::empty() + links(node, 0));
            }
            let ghost graph_after = graph;
            self.graphs.insert(phase, graph);
            proof {
                let n = before.graphs.key_seq().len();
                assert(self.graphs.index_map() == before.graphs.index_map().insert(phase.spec_key(), n as usize));
                assert(self.graphs.value_seq() == before.graphs.value_seq().push(graph_after));
                assert(self.graphs.slot(phase) == n);
                assert forall|id: ScheduleId| id != phase implies #[trigger] self.graph(id) == before.graph(
                    id,
                ) by {
                    if before.graphs.has(id) {
                        assert(before.graphs.index_map().contains_key(id.spec_key()));
                        assert(before.graphs.slot(id) < before.graphs.key_seq().len());
                        assert(id.spec_key() != phase.spec_key());
                        assert(self.graphs.slot(id) == before.graphs.slot(id));
                        assert(self.graphs.value_seq()[self.graphs.slot(id)] == before.graphs.value_seq()[before.graphs.slot(id)]);
                    } else {
                        assert(id.spec_key() != phase.spec_key());
                        assert(!self.graphs.has(id));
                    }
                }
                assert(self.graph(phase) == Some(graph_after));
            }
        }
    }
}

} // verus!
