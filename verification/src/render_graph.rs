use crate::key::Key;
use crate::storage::dense::{pairs, DenseMap};
use std::collections::hash_map::DefaultHasher;
use std::hash::Hasher;
use vstd::prelude::*;

verus! {

/// Identifies a resource of the renderer: a node of a render graph, a
/// texture, a buffer.
#[derive(Clone, Copy, PartialEq, Eq, Structural, Hash, Debug)]
pub struct ResourceId(pub u64);

impl Key for ResourceId {
    open spec fn spec_key(&self) -> u64 {
        self.0
    }

    fn key(&self) -> (r: u64) {
        self.0
    }

    proof fn lemma_key_injective(a: Self, b: Self) {
    }
}

/// `Hasher::write_u64` on the standard hasher: feeds it the number. What
/// it adds to the hasher's state is not stated: the standard library
/// documents only that the number is written.
#[verifier::external_body]
fn feed_u64(hasher: &mut DefaultHasher, n: u64) {
    hasher.write_u64(n);
}

impl ResourceId {
    /// The id that the standard hasher gives the number zero.
    pub fn gen() -> (r: Self) {
        let mut hasher = DefaultHasher::new();
        feed_u64(&mut hasher, 0);
        ResourceId(hasher.finish())
    }
}

/// A dependency of a render graph: the node `to` runs after the node
/// `from`.
#[derive(Clone, Copy, PartialEq, Eq, Structural, Debug)]
pub struct NodeEdge {
    pub from: ResourceId,
    pub to: ResourceId,
}

impl NodeEdge {
    pub fn new(from: ResourceId, to: ResourceId) -> (r: Self)
        ensures
            r.from == from,
            r.to == to,
    {
        NodeEdge { from, to }
    }

    pub fn from(&self) -> (r: ResourceId)
        ensures
            r == self.from,
    {
        self.from
    }

    pub fn to(&self) -> (r: ResourceId)
        ensures
            r == self.to,
    {
        self.to
    }
}

/// The node `e` waits on a node of `rem`: a dependency leads to it from a
/// node listed there.
pub open spec fn blocked<N>(rem: Seq<(ResourceId, N)>, edges: Seq<NodeEdge>) -> spec_fn(
    (ResourceId, N),
) -> bool {
    |e: (ResourceId, N)|
        exists|j: int, k: int|
            #![trigger edges[j], rem[k]]
            0 <= j < edges.len() && 0 <= k < rem.len() && edges[j].to == e.0 && rem[k].0
                == edges[j].from
}

/// The node `e` waits on no node of `rem`.
pub open spec fn free<N>(rem: Seq<(ResourceId, N)>, edges: Seq<NodeEdge>) -> spec_fn(
    (ResourceId, N),
) -> bool {
    |e: (ResourceId, N)| !(blocked(rem, edges))(e)
}

/// Splitting a sequence by a predicate and its negation keeps every element.
pub proof fn lemma_split_len<A>(s: Seq<A>, p: spec_fn(A) -> bool, q: spec_fn(A) -> bool)
    requires
        forall|x: A| #[trigger] q(x) == !p(x),
    ensures
        s.filter(p).len() + s.filter(q).len() == s.len(),
    decreases s.len(),
{
    if s.len() > 0 {
        let t = s.drop_last();
        lemma_split_len(t, p, q);
        assert(t.push(s.last()) =~= s);
        t.lemma_filter_push(s.last(), p);
        t.lemma_filter_push(s.last(), q);
    }
}

/// The layers in which the nodes of `rem` run: first those that wait on
/// no node of `rem`, in order, then the layers of the others. Where every
/// node left waits on another, no more layers follow.
pub open spec fn layers<N>(rem: Seq<(ResourceId, N)>, edges: Seq<NodeEdge>) -> Seq<
    Seq<(ResourceId, N)>,
>
    decreases rem.len(),
{
    let ready = rem.filter(free(rem, edges));
    if rem.len() == 0 || ready.len() == 0 {
        Seq::empty()
    } else {
        proof {
            lemma_split_len(rem, free(rem, edges), blocked(rem, edges));
        }
        seq![ready] + layers(rem.filter(blocked(rem, edges)), edges)
    }
}

/// How many nodes the layers before layer `i` hold.
pub open spec fn placed_before<A>(ls: Seq<Seq<A>>, i: int) -> int
    decreases i,
{
    if i <= 0 {
        0
    } else {
        placed_before(ls, i - 1) + ls[i - 1].len()
    }
}

/// The ids of the nodes of `s`.
pub open spec fn ids_of<N>(s: Seq<(ResourceId, N)>) -> Set<ResourceId> {
    Set::new(|id: ResourceId| exists|k: int| 0 <= k < s.len() && s[k].0 == id)
}

/// No dependencies among the nodes `ids` form a cycle: every non-empty set
/// of them has a node that waits on none of the set.
pub open spec fn acyclic(ids: Seq<ResourceId>, edges: Seq<NodeEdge>) -> bool {
    forall|s: Set<ResourceId>|
        #![trigger s.subset_of(ids.to_set())]
        s.subset_of(ids.to_set()) && (exists|x: ResourceId| s.contains(x)) ==> exists|id: ResourceId|
            #[trigger] s.contains(id) && forall|j: int|
                0 <= j < edges.len() && edges[j].to == id ==> !s.contains(edges[j].from)
}

/// Where no dependencies form a cycle, some node of a non-empty `rem`
/// waits on no other node of it.
pub proof fn lemma_ready_nonempty<N>(rem: Seq<(ResourceId, N)>, ids: Seq<ResourceId>, edges: Seq<NodeEdge>)
    requires
        acyclic(ids, edges),
        rem.len() > 0,
        forall|k: int| 0 <= k < rem.len() ==> ids.contains(#[trigger] rem[k].0),
    ensures
        rem.filter(free(rem, edges)).len() > 0,
{
    let s = ids_of(rem);
    assert forall|id: ResourceId| s.contains(id) implies ids.to_set().contains(id) by {
        let k = choose|k: int| 0 <= k < rem.len() && rem[k].0 == id;
        assert(ids.contains(rem[k].0));
    }
    assert(s.subset_of(ids.to_set()));
    assert(s.contains(rem[0].0));
    let id = choose|id: ResourceId|
        #[trigger] s.contains(id) && forall|j: int|
            0 <= j < edges.len() && edges[j].to == id ==> !s.contains(edges[j].from);
    let k = choose|k: int| 0 <= k < rem.len() && rem[k].0 == id;
    if (blocked(rem, edges))(rem[k]) {
        let (j, k2) = choose|j: int, k2: int|
            #![trigger edges[j], rem[k2]]
            0 <= j < edges.len() && 0 <= k2 < rem.len() && edges[j].to == rem[k].0 && rem[k2].0
                == edges[j].from;
        assert(s.contains(rem[k2].0));
    }
    rem.lemma_filter_contains(free(rem, edges), k);
}

/// Counting the nodes before a layer of `seq![x] + l`.
pub proof fn lemma_placed_prepend<A>(x: Seq<A>, l: Seq<Seq<A>>, i: int)
    requires
        0 <= i <= l.len(),
    ensures
        placed_before(seq![x] + l, i + 1) == x.len() + placed_before(l, i),
    decreases i,
{
    let ls = seq![x] + l;
    if i == 0 {
        assert(placed_before(ls, 0) == 0);
    } else {
        lemma_placed_prepend(x, l, i - 1);
        assert(ls[i] == l[i - 1]);
    }
}

/// `x` is a node of one of the layers `ls`.
pub open spec fn placed_in<A>(ls: Seq<Seq<A>>, x: A) -> bool {
    exists|i: int, jj: int| 0 <= i < ls.len() && 0 <= jj < ls[i].len() && #[trigger] ls[i][jj] == x
}

/// Where no dependencies among the nodes form a cycle, each node of `rem`
/// lands in a layer, and the layers hold as many nodes as `rem`.
pub proof fn lemma_cover<N>(rem: Seq<(ResourceId, N)>, ids: Seq<ResourceId>, edges: Seq<NodeEdge>)
    requires
        acyclic(ids, edges),
        forall|k: int| 0 <= k < rem.len() ==> ids.contains(#[trigger] rem[k].0),
    ensures
        forall|k: int| 0 <= k < rem.len() ==> #[trigger] placed_in(layers(rem, edges), rem[k]),
        placed_before(layers(rem, edges), layers(rem, edges).len() as int) == rem.len(),
    decreases rem.len(),
{
    let ls = layers(rem, edges);
    if rem.len() == 0 {
        assert(placed_before(ls, 0) == 0);
    } else {
        let rd = rem.filter(free(rem, edges));
        let wt = rem.filter(blocked(rem, edges));
        lemma_ready_nonempty(rem, ids, edges);
        lemma_split_len(rem, free(rem, edges), blocked(rem, edges));
        assert forall|k: int| 0 <= k < wt.len() implies ids.contains(#[trigger] wt[k].0) by {
            assert(wt.contains(wt[k]));
            rem.lemma_filter_contains_rev(blocked(rem, edges), wt[k]);
            let k2 = choose|k2: int| 0 <= k2 < rem.len() && rem[k2] == wt[k];
            assert(ids.contains(rem[k2].0));
        }
        lemma_cover(wt, ids, edges);
        let lw = layers(wt, edges);
        assert(ls == seq![rd] + lw);
        assert forall|k: int| 0 <= k < rem.len() implies #[trigger] placed_in(ls, rem[k]) by {
            if (free(rem, edges))(rem[k]) {
                rem.lemma_filter_contains(free(rem, edges), k);
                let jj = choose|jj: int| 0 <= jj < rd.len() && rd[jj] == rem[k];
                assert(ls[0][jj] == rem[k]);
            } else {
                rem.lemma_filter_contains(blocked(rem, edges), k);
                let k2 = choose|k2: int| 0 <= k2 < wt.len() && wt[k2] == rem[k];
                assert(placed_in(lw, wt[k2]));
                let (i, jj) = choose|i: int, jj: int|
                    0 <= i < lw.len() && 0 <= jj < lw[i].len() && #[trigger] lw[i][jj] == wt[k2];
                assert(ls[i + 1] == lw[i]);
                assert(ls[i + 1][jj] == rem[k]);
            }
        }
        lemma_placed_prepend(rd, lw, lw.len() as int);
    }
}

/// A node runs in a later layer than every node of `rem` it waits on.
pub proof fn lemma_deps_first<N>(
    rem: Seq<(ResourceId, N)>,
    edges: Seq<NodeEdge>,
    j: int,
    i: int,
    jj: int,
    k: int,
)
    requires
        0 <= j < edges.len(),
        0 <= k < rem.len(),
        rem[k].0 == edges[j].from,
        0 <= i < layers(rem, edges).len(),
        0 <= jj < layers(rem, edges)[i].len(),
        layers(rem, edges)[i][jj].0 == edges[j].to,
    ensures
        exists|i2: int, jj2: int|
            0 <= i2 < i && 0 <= jj2 < layers(rem, edges)[i2].len() && #[trigger] layers(rem, edges)[i2][jj2].0
                == edges[j].from,
    decreases rem.len(),
{
    let ls = layers(rem, edges);
    let rd = rem.filter(free(rem, edges));
    let wt = rem.filter(blocked(rem, edges));
    lemma_split_len(rem, free(rem, edges), blocked(rem, edges));
    assert(ls == seq![rd] + layers(wt, edges));
    if i == 0 {
        rem.lemma_filter_pred(free(rem, edges), jj);
        assert(edges[j] == edges[j] && rem[k] == rem[k]);
        assert((blocked(rem, edges))(rd[jj]));
        assert(false);
    } else if (free(rem, edges))(rem[k]) {
        rem.lemma_filter_contains(free(rem, edges), k);
        let jj2 = choose|jj2: int| 0 <= jj2 < rd.len() && rd[jj2] == rem[k];
        assert(ls[0][jj2].0 == edges[j].from);
    } else {
        rem.lemma_filter_contains(blocked(rem, edges), k);
        let k2 = choose|k2: int| 0 <= k2 < wt.len() && wt[k2] == rem[k];
        let lw = layers(wt, edges);
        assert(ls[i] == lw[i - 1]);
        lemma_deps_first(wt, edges, j, i - 1, jj, k2);
        let (i3, jj3) = choose|i3: int, jj3: int|
            0 <= i3 < i - 1 && 0 <= jj3 < lw[i3].len() && #[trigger] lw[i3][jj3].0 == edges[j].from;
        assert(ls[i3 + 1] == lw[i3]);
        assert(ls[i3 + 1][jj3].0 == edges[j].from);
    }
}

/// Counting the nodes before a layer looks only at the layers before it.
pub proof fn lemma_placed_prefix<A>(a: Seq<Seq<A>>, b: Seq<Seq<A>>, i: int)
    requires
        0 <= i <= a.len(),
    ensures
        placed_before(a + b, i) == placed_before(a, i),
    decreases i,
{
    if i > 0 {
        lemma_placed_prefix(a, b, i - 1);
        assert((a + b)[i - 1] == a[i - 1]);
    }
}

/// A node of a layer stands before the nodes that all the layers hold.
pub proof fn lemma_placed_le<A>(ls: Seq<Seq<A>>, i: int, jj: int)
    requires
        0 <= i < ls.len(),
        0 <= jj < ls[i].len(),
    ensures
        0 <= placed_before(ls, i),
        placed_before(ls, i) + jj < placed_before(ls, ls.len() as int),
{
    lemma_placed_nonneg(ls, i);
    lemma_placed_mono(ls, i + 1, ls.len() as int);
}

/// The count of nodes before a layer grows with the layer.
pub proof fn lemma_placed_mono<A>(ls: Seq<Seq<A>>, i: int, k: int)
    requires
        0 <= i <= k <= ls.len(),
    ensures
        placed_before(ls, i) <= placed_before(ls, k),
    decreases k - i,
{
    if i < k {
        lemma_placed_mono(ls, i, k - 1);
    }
}

/// No layer holds fewer than no nodes.
pub proof fn lemma_placed_nonneg<A>(ls: Seq<Seq<A>>, i: int)
    ensures
        0 <= placed_before(ls, i),
    decreases i,
{
    if i > 0 {
        lemma_placed_nonneg(ls, i - 1);
    }
}

/// Some dependency leads to `id` from a node listed in `ids`.
fn waits_on(edges: &Vec<NodeEdge>, ids: &Vec<ResourceId>, id: ResourceId) -> (r: bool)
    ensures
        r == exists|j: int, k: int|
            #![trigger edges@[j], ids@[k]]
            0 <= j < edges@.len() && 0 <= k < ids@.len() && edges@[j].to == id && ids@[k]
                == edges@[j].from,
{
    let n = edges.len();
    let m = ids.len();
    let mut j: usize = 0;
    while j < n
        invariant
            j <= n,
            n == edges@.len(),
            m == ids@.len(),
            forall|j2: int, k: int|
                #![trigger edges@[j2], ids@[k]]
                0 <= j2 < j && 0 <= k < m ==> !(edges@[j2].to == id && ids@[k] == edges@[j2].from),
        decreases n - j,
    {
        let edge = edges[j];
        if edge.to == id {
            let mut k: usize = 0;
            while k < m
                invariant
                    k <= m,
                    m == ids@.len(),
                    j < n,
                    n == edges@.len(),
                    edge == edges@[j as int],
                    edge.to == id,
                    forall|k2: int| 0 <= k2 < k ==> ids@[k2] != edge.from,
                decreases m - k,
            {
                if ids[k] == edge.from {
                    assert(edges@[j as int] == edge && ids@[k as int] == ids@[k as int]);
                    return true;
                }
                k = k + 1;
            }
        }
        j = j + 1;
    }
    false
}

/// A render graph: its nodes, and the layers in which they run, each a
/// list of positions among the nodes.
pub struct RenderGraph<N> {
    nodes: Vec<N>,
    order: Vec<Vec<usize>>,
}

impl<N> RenderGraph<N> {
    pub closed spec fn node_seq(&self) -> Seq<N> {
        self.nodes@
    }

    pub closed spec fn order_seq(&self) -> Seq<Seq<usize>> {
        self.order@.map_values(|v: Vec<usize>| v@)
    }

    /// The nodes, layer after layer.
    pub fn nodes(&self) -> (r: &[N])
        ensures
            r@ == self.node_seq(),
    {
        self.nodes.as_slice()
    }

    /// The layers, each a list of positions among the nodes.
    pub fn order(&self) -> (r: &Vec<Vec<usize>>)
        ensures
            r@.len() == self.order_seq().len(),
            forall|i: int| 0 <= i < r@.len() ==> (#[trigger] r@[i])@ == self.order_seq()[i],
    {
        &self.order
    }
}

/// Gathers the nodes of a render graph, each under its id in the order they
/// were first added, and the dependencies between them.
pub struct RenderGraphBuilder<N> {
    nodes: DenseMap<ResourceId, N>,
    edges: Vec<NodeEdge>,
    target: Option<ResourceId>,
}

impl<N> RenderGraphBuilder<N> {
    /// The ids of the nodes, in order.
    pub closed spec fn ids(&self) -> Seq<ResourceId> {
        self.nodes.key_seq()
    }

    /// The nodes, in the order of their ids.
    pub closed spec fn node_seq(&self) -> Seq<N> {
        self.nodes.value_seq()
    }

    /// The dependencies, each once.
    pub closed spec fn edge_seq(&self) -> Seq<NodeEdge> {
        self.edges@
    }

    pub closed spec fn spec_target(&self) -> Option<ResourceId> {
        self.target
    }

    /// Ids and nodes pair up, no id occurs twice, and no dependency is
    /// recorded twice.
    pub closed spec fn wf(&self) -> bool {
        &&& self.nodes.wf()
        &&& self.nodes.is_proper()
        &&& self.edges@.no_duplicates()
    }

    pub proof fn lemma_wf(&self)
        requires
            self.wf(),
        ensures
            self.ids().len() == self.node_seq().len(),
            self.ids().no_duplicates(),
            self.edge_seq().no_duplicates(),
    {
        self.nodes.lemma_wf();
        self.nodes.lemma_proper_distinct();
        assert forall|i: int, j: int|
            0 <= i < self.ids().len() && 0 <= j < self.ids().len() && i != j implies self.ids()[i]
            != self.ids()[j] by {
            if i < j {
                assert(self.ids()[i].spec_key() != self.ids()[j].spec_key());
            } else {
                assert(self.ids()[j].spec_key() != self.ids()[i].spec_key());
            }
        }
    }

    /// Under a proper index, `id` has an entry exactly when it is listed,
    /// and the entry is its position.
    proof fn lemma_slot(&self, id: ResourceId)
        requires
            self.wf(),
        ensures
            self.nodes.has(id) <==> self.ids().contains(id),
            self.nodes.has(id) ==> {
                &&& 0 <= self.nodes.slot(id) < self.ids().len()
                &&& self.ids()[self.nodes.slot(id)] == id
                &&& self.ids().index_of(id) == self.nodes.slot(id)
            },
    {
        self.lemma_wf();
        self.nodes.lemma_has_iff_listed(id);
        if self.nodes.has(id) {
            let s = self.nodes.slot(id);
            ResourceId::lemma_key_injective(self.ids()[s], id);
            assert(self.ids()[s] == id);
            let j = self.ids().index_of(id);
            assert(self.ids().contains(id));
        }
        if self.ids().contains(id) {
            let j = choose|j: int| 0 <= j < self.ids().len() && self.ids()[j] == id;
            assert(self.ids()[j].spec_key() == id.spec_key());
        }
    }

    pub fn new() -> (r: Self)
        ensures
            r.wf(),
            r.ids() == Seq::<ResourceId>::empty(),
            r.node_seq() == Seq::<N>::empty(),
            r.edge_seq() == Seq::<NodeEdge>::empty(),
            r.spec_target() == None::<ResourceId>,
    {
        RenderGraphBuilder { nodes: DenseMap::new(), edges: Vec::new(), target: None }
    }
}

impl<N> RenderGraphBuilder<N> {
    /// The node listed under `id`.
    pub fn node(&self, id: ResourceId) -> (r: Option<&N>)
        requires
            self.wf(),
        ensures
            r is Some <==> self.ids().contains(id),
            r matches Some(v) ==> *v == self.node_seq()[self.ids().index_of(id)],
    {
        proof {
            self.lemma_slot(id);
        }
        self.nodes.get(&id)
    }

    /// The node listed under `id`, to change in place.
    pub fn node_mut(&mut self, id: ResourceId) -> (r: Option<&mut N>)
        requires
            old(self).wf(),
        ensures
            r is Some <==> old(self).ids().contains(id),
            match r {
                Some(v) => {
                    let i = old(self).ids().index_of(id);
                    &&& *v == old(self).node_seq()[i]
                    &&& final(self).node_seq() == old(self).node_seq().update(i, *final(v))
                    &&& final(self).ids() == old(self).ids()
                    &&& final(self).edge_seq() == old(self).edge_seq()
                    &&& final(self).spec_target() == old(self).spec_target()
                    &&& final(self).wf()
                },
                None => *final(self) == *old(self),
            },
    {
        proof {
            old(self).lemma_slot(id);
        }
        self.nodes.get_mut(&id)
    }

    /// Lists `node` under `id`: in place of the node listed under it, else
    /// after the others.
    pub fn add_node(&mut self, id: ResourceId, node: N) -> (r: &mut Self)
        requires
            old(self).wf(),
        ensures
            r.wf(),
            old(self).ids().contains(id) ==> {
                let i = old(self).ids().index_of(id);
                &&& r.ids() == old(self).ids()
                &&& r.node_seq() == old(self).node_seq().update(i, node)
            },
            !old(self).ids().contains(id) ==> {
                &&& r.ids() == old(self).ids().push(id)
                &&& r.node_seq() == old(self).node_seq().push(node)
            },
            r.edge_seq() == old(self).edge_seq(),
            r.spec_target() == old(self).spec_target(),
            *final(self) == *final(r),
    {
        proof {
            old(self).lemma_slot(id);
            old(self).nodes.lemma_wf();
        }
        let replaced = self.nodes.insert(id, node);
        proof {
            if old(self).ids().contains(id) {
                assert(old(self).ids().update(old(self).nodes.slot(id), id) =~= old(self).ids());
            }
        }
        self
    }

    /// Records that the node `to` runs after the node `from`.
    pub fn add_edge(&mut self, from: ResourceId, to: ResourceId) -> (r: &mut Self)
        requires
            old(self).wf(),
        ensures
            r.wf(),
            r.edge_seq().to_set() == old(self).edge_seq().to_set().insert(NodeEdge { from, to }),
            old(self).edge_seq().contains(NodeEdge { from, to }) ==> r.edge_seq() == old(self).edge_seq(),
            !old(self).edge_seq().contains(NodeEdge { from, to }) ==> r.edge_seq() == old(self).edge_seq().push(NodeEdge { from, to }),
            r.ids() == old(self).ids(),
            r.node_seq() == old(self).node_seq(),
            r.spec_target() == old(self).spec_target(),
            *final(self) == *final(r),
    {
        let edge = NodeEdge::new(from, to);
        let n = self.edges.len();
        let mut i: usize = 0;
        let mut found = false;
        while i < n
            invariant
                i <= n,
                n == self.edges@.len(),
                self.edges@ == old(self).edges@,
                found <==> exists|j: int| 0 <= j < i && self.edges@[j] == edge,
            decreases n - i,
        {
            if self.edges[i] == edge {
                found = true;
            }
            i = i + 1;
        }
        if !found {
            self.edges.push(edge);
            proof {
                assert forall|a: int, b: int|
                    0 <= a < self.edges@.len() && 0 <= b < self.edges@.len() && a != b implies self.edges@[a]
                    != self.edges@[b] by {
                    if a < n && b < n {
                        assert(old(self).edges@.no_duplicates());
                    }
                }
                assert forall|x: NodeEdge| #[trigger] self.edges@.contains(x) <==> (old(self).edges@.contains(x) || x == edge) by {
                    if old(self).edges@.contains(x) {
                        let j = choose|j: int| 0 <= j < n && old(self).edges@[j] == x;
                        assert(self.edges@[j] == x);
                    }
                    if x == edge {
                        assert(self.edges@[n as int] == x);
                    }
                }
                assert(self.edges@.to_set() =~= old(self).edges@.to_set().insert(edge));
            }
        } else {
            assert(self.edges@.to_set() =~= old(self).edges@.to_set().insert(edge));
        }
        self
    }

    /// The layers of the graph: first the nodes that wait on no other node,
    /// in the order of their ids, then, in turn, those that wait only on
    /// nodes of earlier layers. The nodes are moved into the graph layer
    /// after layer, and each layer lists their positions.
    pub fn build(self) -> (r: RenderGraph<N>)
        requires
            self.wf(),
            acyclic(self.ids(), self.edge_seq()),
        ensures
            ({
                let ls = layers(pairs(self.ids(), self.node_seq()), self.edge_seq());
                &&& r.order_seq().len() == ls.len()
                &&& forall|i: int| 0 <= i < ls.len() ==> (#[trigger] r.order_seq()[i]).len() == ls[i].len()
                &&& forall|i: int, jj: int|
                    0 <= i < ls.len() && 0 <= jj < ls[i].len() ==> #[trigger] r.order_seq()[i][jj]
                        == placed_before(ls, i) + jj
                &&& r.node_seq().len() == placed_before(ls, ls.len() as int)
                &&& forall|i: int, jj: int|
                    0 <= i < ls.len() && 0 <= jj < ls[i].len() ==> r.node_seq()[placed_before(ls, i) + jj]
                        == (#[trigger] ls[i][jj]).1
            }),
    {
        let ghost ids0 = self.ids();
        let ghost all = pairs(self.ids(), self.node_seq());
        let ghost ls = layers(all, self.edge_seq());
        let RenderGraphBuilder { nodes, edges, target } = self;
        let mut map = nodes;
        let mut rem = map.drain();
        let mut order: Vec<Vec<usize>> = Vec::new();
        let mut out: Vec<N> = Vec::new();
        let ghost mut done: Seq<Seq<(ResourceId, N)>> = Seq::empty();
        proof {
            assert forall|k: int| 0 <= k < rem@.len() implies ids0.contains(#[trigger] rem@[k].0) by {
                assert(ids0[k] == rem@[k].0);
            }
            assert(done + layers(rem@, edges@) =~= ls);
        }
        while rem.len() > 0
            invariant
                acyclic(ids0, edges@),
                forall|k: int| 0 <= k < rem@.len() ==> ids0.contains(#[trigger] rem@[k].0),
                ls == done + layers(rem@, edges@),
                order@.len() == done.len(),
                forall|i: int| 0 <= i < done.len() ==> (#[trigger] order@[i])@.len() == done[i].len(),
                forall|i: int, jj: int|
                    0 <= i < done.len() && 0 <= jj < done[i].len() ==> #[trigger] order@[i]@[jj]
                        == placed_before(done, i) + jj,
                out@.len() == placed_before(done, done.len() as int),
                forall|i: int, jj: int|
                    0 <= i < done.len() && 0 <= jj < done[i].len() ==> out@[placed_before(done, i) + jj]
                        == (#[trigger] done[i][jj]).1,
            decreases rem@.len(),
        {
            let ghost cur = rem@;
            let n = rem.len();
            let mut ids: Vec<ResourceId> = Vec::new();
            let mut i: usize = 0;
            while i < n
                invariant
                    i <= n,
                    n == rem@.len(),
                    rem@ == cur,
                    ids@.len() == i,
                    forall|k: int| 0 <= k < i ==> ids@[k] == #[trigger] cur[k].0,
                decreases n - i,
            {
                ids.push(rem[i].0);
                i = i + 1;
            }
            let mut ready: Vec<(ResourceId, N)> = Vec::new();
            let mut wait: Vec<(ResourceId, N)> = Vec::new();
            let mut t: usize = 0;
            while t < n
                invariant
                    t <= n,
                    n == cur.len(),
                    ids@.len() == n,
                    forall|k: int| 0 <= k < n ==> ids@[k] == #[trigger] cur[k].0,
                    rem@ == cur.skip(t as int),
                    ready@ == cur.take(t as int).filter(free(cur, edges@)),
                    wait@ == cur.take(t as int).filter(blocked(cur, edges@)),
                decreases n - t,
            {
                let e = rem.remove(0);
                proof {
                    assert(e == cur[t as int]);
                    assert(cur.skip(t as int).remove(0) =~= cur.skip(t as int + 1));
                    assert(cur.take(t as int + 1) =~= cur.take(t as int).push(e));
                    cur.take(t as int).lemma_filter_push(e, free(cur, edges@));
                    cur.take(t as int).lemma_filter_push(e, blocked(cur, edges@));
                }
                let w = waits_on(&edges, &ids, e.0);
                proof {
                    if w {
                        let (j, k) = choose|j: int, k: int|
                            #![trigger edges@[j], ids@[k]]
                            0 <= j < edges@.len() && 0 <= k < ids@.len() && edges@[j].to == e.0
                                && ids@[k] == edges@[j].from;
                        assert(cur[k].0 == ids@[k]);
                        assert((blocked(cur, edges@))(e));
                    } else {
                        if (blocked(cur, edges@))(e) {
                            let (j, k) = choose|j: int, k: int|
                                #![trigger edges@[j], cur[k]]
                                0 <= j < edges@.len() && 0 <= k < cur.len() && edges@[j].to == e.0
                                    && cur[k].0 == edges@[j].from;
                            assert(ids@[k] == cur[k].0);
                            assert(false);
                        }
                    }
                }
                if w {
                    wait.push(e);
                } else {
                    ready.push(e);
                }
                t = t + 1;
            }
            let ghost rd = ready@;
            let ghost wt = wait@;
            proof {
                assert(cur.take(n as int) =~= cur);
                lemma_ready_nonempty(cur, ids0, edges@);
                lemma_split_len(cur, free(cur, edges@), blocked(cur, edges@));
                assert(layers(cur, edges@) == seq![rd] + layers(wt, edges@));
                assert forall|k: int| 0 <= k < wt.len() implies ids0.contains(#[trigger] wt[k].0) by {
                    assert(wt.contains(wt[k]));
                    cur.lemma_filter_contains_rev(blocked(cur, edges@), wt[k]);
                }
            }
            let ghost out0 = out@;
            let start = out.len();
            let mut indexes: Vec<usize> = Vec::new();
            let mut s: usize = 0;
            while ready.len() > 0
                invariant
                    ready@ == rd.skip(s as int),
                    s <= rd.len(),
                    rd.len() <= n,
                    start == out0.len(),
                    out@.len() == start + s,
                    forall|x: int| 0 <= x < start ==> out@[x] == out0[x],
                    forall|x: int| 0 <= x < s ==> out@[start + x] == (#[trigger] rd[x]).1,
                    indexes@.len() == s,
                    forall|x: int| 0 <= x < s ==> #[trigger] indexes@[x] == start + x,
                decreases ready@.len(),
            {
                let e = ready.remove(0);
                proof {
                    assert(e == rd[s as int]);
                    assert(rd.skip(s as int).remove(0) =~= rd.skip(s as int + 1));
                }
                indexes.push(out.len());
                out.push(e.1);
                s = s + 1;
            }
            let ghost order0 = order@;
            let ghost ix = indexes@;
            proof {
                assert(rd.skip(s as int).len() == 0);
            }
            if indexes.len() > 0 {
                order.push(indexes);
            }
            proof {
                let d0 = done;
                done = done.push(rd);
                assert(d0 + layers(cur, edges@) =~= done + layers(wt, edges@));
                assert(d0.push(rd) =~= d0 + seq![rd]);
                assert forall|i: int| 0 <= i <= d0.len() implies placed_before(done, i) == placed_before(d0, i) by {
                    lemma_placed_prefix(d0, seq![rd], i);
                }
                assert(placed_before(done, done.len() as int) == placed_before(d0, d0.len() as int) + rd.len());
                assert(order@ == order0.push(order@[d0.len() as int]));
                assert(order@[d0.len() as int]@ == ix);
                assert forall|i: int| 0 <= i < done.len() implies (#[trigger] order@[i])@.len() == done[i].len() by {
                    if i < d0.len() {
                        assert(order@[i] == order0[i]);
                    }
                }
                assert forall|i: int, jj: int|
                    0 <= i < done.len() && 0 <= jj < done[i].len() implies #[trigger] order@[i]@[jj]
                        == placed_before(done, i) + jj by {
                    if i < d0.len() {
                        assert(order@[i] == order0[i]);
                    } else {
                        assert(ix[jj] == start + jj);
                    }
                }
                assert forall|i: int, jj: int|
                    0 <= i < done.len() && 0 <= jj < done[i].len() implies out@[placed_before(done, i) + jj]
                        == (#[trigger] done[i][jj]).1 by {
                    if i < d0.len() {
                        assert(done[i] == d0[i]);
                        lemma_placed_le(d0, i, jj);
                        assert(out0[placed_before(d0, i) + jj] == d0[i][jj].1);
                    } else {
                        assert(done[i] == rd);
                        assert(out@[start + jj] == rd[jj].1);
                    }
                }
            }
            rem = wait;
        }
        proof {
            assert(done =~= ls);
        }
        RenderGraph { nodes: out, order }
    }

    /// Sets the node the graph renders to.
    pub fn set_target(&mut self, id: ResourceId) -> (r: &mut Self)
        requires
            old(self).wf(),
        ensures
            r.wf(),
            r.spec_target() == Some(id),
            r.ids() == old(self).ids(),
            r.node_seq() == old(self).node_seq(),
            r.edge_seq() == old(self).edge_seq(),
            *final(self) == *final(r),
    {
        self.target = Some(id);
        self
    }
}

/// Where no dependencies among its nodes form a cycle, building a graph
/// places every node of the builder in a layer, and the layers hold as many
/// nodes as the builder: each node runs exactly once.
pub proof fn law_every_node_placed<N>(b: &RenderGraphBuilder<N>)
    requires
        b.wf(),
        acyclic(b.ids(), b.edge_seq()),
    ensures
        ({
            let all = pairs(b.ids(), b.node_seq());
            let ls = layers(all, b.edge_seq());
            &&& forall|k: int| 0 <= k < all.len() ==> #[trigger] placed_in(ls, all[k])
            &&& placed_before(ls, ls.len() as int) == b.ids().len()
        }),
{
    b.lemma_wf();
    let all = pairs(b.ids(), b.node_seq());
    assert forall|k: int| 0 <= k < all.len() implies b.ids().contains(#[trigger] all[k].0) by {
        assert(b.ids()[k] == all[k].0);
    }
    lemma_cover(all, b.ids(), b.edge_seq());
}

/// A node of a built graph runs in a later layer than every node of the
/// builder that it depends on.
pub proof fn law_dependencies_first<N>(b: &RenderGraphBuilder<N>, j: int, i: int, jj: int)
    requires
        b.wf(),
        0 <= j < b.edge_seq().len(),
        b.ids().contains(b.edge_seq()[j].from),
        0 <= i < layers(pairs(b.ids(), b.node_seq()), b.edge_seq()).len(),
        0 <= jj < layers(pairs(b.ids(), b.node_seq()), b.edge_seq())[i].len(),
        layers(pairs(b.ids(), b.node_seq()), b.edge_seq())[i][jj].0 == b.edge_seq()[j].to,
    ensures
        exists|i2: int, jj2: int|
            0 <= i2 < i && 0 <= jj2 < layers(pairs(b.ids(), b.node_seq()), b.edge_seq())[i2].len()
                && #[trigger] layers(pairs(b.ids(), b.node_seq()), b.edge_seq())[i2][jj2].0
                == b.edge_seq()[j].from,
{
    b.lemma_wf();
    let all = pairs(b.ids(), b.node_seq());
    let k = choose|k: int| 0 <= k < b.ids().len() && b.ids()[k] == b.edge_seq()[j].from;
    assert(all[k].0 == b.edge_seq()[j].from);
    lemma_deps_first(all, b.edge_seq(), j, i, jj, k);
}

} // verus!
