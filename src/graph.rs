//! The dependency graph of recipes, held in a `petgraph` stable graph, and the schedule
//! that runs recipes only after the recipes they depend on.

use vstd::prelude::*;
use petgraph::stable_graph::StableGraph;
use petgraph::Directed;
use crate::recipe::Recipe;
use crate::scan::views;
use crate::stages::contains_word;

verus! {

#[verifier::external_type_specification]
#[verifier::external_body]
#[verifier::reject_recursive_types(N)]
#[verifier::reject_recursive_types(E)]
#[verifier::reject_recursive_types(Ty)]
#[verifier::reject_recursive_types(Ix)]
pub struct ExStableGraph<N, E, Ty, Ix>(StableGraph<N, E, Ty, Ix>);

#[verifier::external_type_specification]
#[verifier::external_body]
pub struct ExDirected(Directed);

/// A dependency graph: nodes weighted with recipe indices, edges from a recipe to the
/// recipes it depends on.
pub type Deps = StableGraph<usize, (), Directed, usize>;

/// The graph's nodes: each node index with its weight.
pub uninterp spec fn graph_nodes(g: Deps) -> Map<usize, usize>;

/// The graph's edges, as pairs of node indices `(from, to)`.
pub uninterp spec fn graph_edges(g: Deps) -> Set<(usize, usize)>;

/// Relies on `StableGraph::new`: a graph without nodes or edges.
#[verifier::external_body]
fn graph_new() -> (r: Deps)
    ensures
        graph_nodes(r).dom() =~= Set::empty(),
        graph_edges(r) =~= Set::empty(),
{
    StableGraph::with_capacity(0, 0)
}

/// Relies on `StableGraph::add_node`: the new node gets an index that no node has, and
/// nothing else changes. With `usize` indices it does not run out of them.
#[verifier::external_body]
fn graph_add_node(g: &mut Deps, weight: usize) -> (r: usize)
    ensures
        !graph_nodes(*old(g)).dom().contains(r),
        graph_nodes(*final(g)) == graph_nodes(*old(g)).insert(r, weight),
        graph_edges(*final(g)) == graph_edges(*old(g)),
{
    g.add_node(weight).index()
}

/// Relies on `StableGraph::add_edge`: adds the edge from `a` to `b`, which must both be
/// nodes (it panics otherwise).
#[verifier::external_body]
fn graph_add_edge(g: &mut Deps, a: usize, b: usize)
    requires
        graph_nodes(*old(g)).dom().contains(a),
        graph_nodes(*old(g)).dom().contains(b),
    ensures
        graph_nodes(*final(g)) == graph_nodes(*old(g)),
        graph_edges(*final(g)) == graph_edges(*old(g)).insert((a, b)),
{
    g.add_edge(petgraph::graph::NodeIndex::<usize>::new(a), petgraph::graph::NodeIndex::<usize>::new(b), ());
}

/// Relies on `StableGraph::contains_edge`: whether an edge goes from `a` to `b`.
#[verifier::external_body]
fn graph_contains_edge(g: &Deps, a: usize, b: usize) -> (r: bool)
    requires
        graph_nodes(*g).dom().contains(a),
        graph_nodes(*g).dom().contains(b),
    ensures
        r == graph_edges(*g).contains((a, b)),
{
    g.contains_edge(petgraph::graph::NodeIndex::<usize>::new(a), petgraph::graph::NodeIndex::<usize>::new(b))
}

/// Relies on `StableGraph::remove_node`: the node goes, and every edge from or to it.
#[verifier::external_body]
fn graph_remove_node(g: &mut Deps, a: usize)
    requires
        graph_nodes(*old(g)).dom().contains(a),
    ensures
        graph_nodes(*final(g)) == graph_nodes(*old(g)).remove(a),
        graph_edges(*final(g)) == graph_edges(*old(g)).filter(|e: (usize, usize)| e.0 != a && e.1 != a),
{
    g.remove_node(petgraph::graph::NodeIndex::<usize>::new(a));
}

/// Relies on `StableGraph::neighbors_directed` with `Outgoing`: whether an edge leaves `a`.
#[verifier::external_body]
fn graph_has_outgoing(g: &Deps, a: usize) -> (r: bool)
    requires
        graph_nodes(*g).dom().contains(a),
    ensures
        r == exists|b: usize| graph_edges(*g).contains((a, b)),
{
    g.neighbors_directed(petgraph::graph::NodeIndex::<usize>::new(a), petgraph::Direction::Outgoing).next().is_some()
}


/// The inputs and outputs of each recipe.
pub open spec fn shapes(rs: Seq<Recipe>) -> Seq<(Seq<Seq<char>>, Seq<Seq<char>>)> {
    rs.map_values(|r: Recipe| (r.rule.inputs_view(), r.rule.outputs_view()))
}

/// Recipe `i` depends on recipe `j`: another recipe makes one of `i`'s inputs.
pub open spec fn depends(sh: Seq<(Seq<Seq<char>>, Seq<Seq<char>>)>, i: int, j: int) -> bool {
    &&& 0 <= i < sh.len()
    &&& 0 <= j < sh.len()
    &&& i != j
    &&& exists|t: Seq<char>| sh[i].0.contains(t) && sh[j].1.contains(t)
}

/// The order in which recipes run: each recipe comes once, and after every recipe it
/// depends on.
pub struct Scheduler {
    graph: Deps,
    node_of: Vec<usize>,
    dispatched: Vec<bool>,
    done: Vec<bool>,
    stopped: bool,
    shape: Ghost<Seq<(Seq<Seq<char>>, Seq<Seq<char>>)>>,
}

impl Scheduler {
    /// The inputs and outputs of the recipes this schedule is for.
    pub closed spec fn recipes(&self) -> Seq<(Seq<Seq<char>>, Seq<Seq<char>>)> {
        self.shape@
    }

    /// Which recipes were handed out to run.
    pub closed spec fn sent(&self) -> Seq<bool> {
        self.dispatched@
    }

    /// Which recipes have finished.
    pub closed spec fn finished(&self) -> Seq<bool> {
        self.done@
    }

    /// Whether the schedule hands out no more recipes.
    pub closed spec fn halted(&self) -> bool {
        self.stopped
    }

    pub closed spec fn wf(&self) -> bool {
        let n = self.shape@.len();
        let nodes = graph_nodes(self.graph);
        let edges = graph_edges(self.graph);
        &&& self.node_of@.len() == n
        &&& self.dispatched@.len() == n
        &&& self.done@.len() == n
        &&& forall|i: int| 0 <= i < n && !self.done@[i] ==> nodes.contains_key(#[trigger] self.node_of@[i])
            && nodes[self.node_of@[i]] == i
        &&& forall|x: usize| #[trigger] nodes.contains_key(x) ==> nodes[x] < n && !self.done@[nodes[x] as int]
            && self.node_of@[nodes[x] as int] == x
        &&& forall|a: usize, b: usize| #[trigger] edges.contains((a, b)) <==> nodes.contains_key(a)
            && nodes.contains_key(b) && depends(self.shape@, nodes[a] as int, nodes[b] as int)
        &&& forall|i: int| 0 <= i < n && #[trigger] self.done@[i] ==> self.dispatched@[i]
        &&& forall|i: int, j: int| #[trigger] self.dispatched@[i] && #[trigger] depends(self.shape@, i, j)
            ==> self.done@[j]
    }

    /// A schedule for `recipes`, with nothing handed out yet.
    pub fn new(recipes: &Vec<Recipe>) -> (r: Scheduler)
        ensures
            r.wf(),
            r.recipes() == shapes(recipes@),
            r.sent() == Seq::new(recipes@.len(), |i: int| false),
            r.finished() == Seq::new(recipes@.len(), |i: int| false),
            !r.halted(),
    {
        let ghost sh = shapes(recipes@);
        let n = recipes.len();
        let mut graph = graph_new();
        let mut node_of: Vec<usize> = Vec::new();
        let mut dispatched: Vec<bool> = Vec::new();
        let mut done: Vec<bool> = Vec::new();
        let mut ins: Vec<Vec<Vec<char>>> = Vec::new();
        let mut outs: Vec<Vec<Vec<char>>> = Vec::new();
        let mut i: usize = 0;
        while i < n
            invariant
                n == recipes@.len(),
                sh == shapes(recipes@),
                i <= n,
                node_of@.len() == i,
                dispatched@ == Seq::new(i as nat, |k: int| false),
                done@ == Seq::new(i as nat, |k: int| false),
                ins@.len() == i,
                outs@.len() == i,
                forall|k: int| 0 <= k < i ==> views(#[trigger] ins@[k]@) == sh[k].0,
                forall|k: int| 0 <= k < i ==> views(#[trigger] outs@[k]@) == sh[k].1,
                forall|k: int| 0 <= k < i ==> graph_nodes(graph).contains_key(#[trigger] node_of@[k])
                    && graph_nodes(graph)[node_of@[k]] == k,
                forall|x: usize| #[trigger] graph_nodes(graph).contains_key(x) ==> graph_nodes(graph)[x] < i
                    && node_of@[graph_nodes(graph)[x] as int] == x,
                graph_edges(graph) =~= Set::empty(),
            decreases n - i,
        {
            let x = graph_add_node(&mut graph, i);
            node_of.push(x);
            dispatched.push(false);
            done.push(false);
            ins.push(recipes[i].rule.inputs());
            outs.push(recipes[i].rule.output_chars());
            proof {
                assert(dispatched@ =~= Seq::new((i + 1) as nat, |k: int| false));
                assert(done@ =~= Seq::new((i + 1) as nat, |k: int| false));
            }
            i += 1;
        }
        let mut a: usize = 0;
        while a < n
            invariant
                n == recipes@.len(),
                sh == shapes(recipes@),
                a <= n,
                node_of@.len() == n,
                ins@.len() == n,
                outs@.len() == n,
                forall|k: int| 0 <= k < n ==> views(#[trigger] ins@[k]@) == sh[k].0,
                forall|k: int| 0 <= k < n ==> views(#[trigger] outs@[k]@) == sh[k].1,
                forall|k: int| 0 <= k < n ==> graph_nodes(graph).contains_key(#[trigger] node_of@[k])
                    && graph_nodes(graph)[node_of@[k]] == k,
                forall|x: usize| #[trigger] graph_nodes(graph).contains_key(x) ==> graph_nodes(graph)[x] < n
                    && node_of@[graph_nodes(graph)[x] as int] == x,
                forall|p: usize, q: usize| #[trigger] graph_edges(graph).contains((p, q)) <==> graph_nodes(graph).contains_key(p)
                    && graph_nodes(graph).contains_key(q) && graph_nodes(graph)[p] < a
                    && depends(sh, graph_nodes(graph)[p] as int, graph_nodes(graph)[q] as int),
            decreases n - a,
        {
            let ghost before = graph_edges(graph);
            let mut b: usize = 0;
            while b < n
                invariant
                    n == recipes@.len(),
                    sh == shapes(recipes@),
                    a < n,
                    b <= n,
                    node_of@.len() == n,
                    ins@.len() == n,
                    outs@.len() == n,
                    forall|k: int| 0 <= k < n ==> views(#[trigger] ins@[k]@) == sh[k].0,
                forall|k: int| 0 <= k < n ==> views(#[trigger] outs@[k]@) == sh[k].1,
                    forall|k: int| 0 <= k < n ==> graph_nodes(graph).contains_key(#[trigger] node_of@[k])
                        && graph_nodes(graph)[node_of@[k]] == k,
                    forall|x: usize| #[trigger] graph_nodes(graph).contains_key(x) ==> graph_nodes(graph)[x] < n
                        && node_of@[graph_nodes(graph)[x] as int] == x,
                    forall|p: usize, q: usize| #[trigger] graph_edges(graph).contains((p, q)) <==> graph_nodes(graph).contains_key(p)
                        && graph_nodes(graph).contains_key(q) && (graph_nodes(graph)[p] < a || (graph_nodes(graph)[p] == a && graph_nodes(graph)[q] < b))
                        && depends(sh, graph_nodes(graph)[p] as int, graph_nodes(graph)[q] as int),
                decreases n - b,
            {
                if a != b && shares(&ins[a], &outs[b]) {
                    proof {
                        assert(sh[a as int].0 == views(ins@[a as int]@));
                        assert(sh[b as int].1 == views(outs@[b as int]@));
                    }
                    let x = node_of[a];
                    let y = node_of[b];
                    if !graph_contains_edge(&graph, x, y) {
                        graph_add_edge(&mut graph, x, y);
                    }
                } else {
                    proof {
                        if a != b {
                            assert(!depends(sh, a as int, b as int)) by {
                                if depends(sh, a as int, b as int) {
                                    let t = choose|t: Seq<char>| sh[a as int].0.contains(t) && sh[b as int].1.contains(t);
                                    assert(views(ins@[a as int]@).contains(t));
                                }
                            }
                        }
                    }
                }
                b += 1;
            }
            a += 1;
        }
        let r = Scheduler { graph, node_of, dispatched, done, stopped: false, shape: Ghost(sh) };
        assert(sh.len() == n);
        r
    }

    /// Whether every recipe has finished.
    pub fn all_finished(&self) -> (r: bool)
        requires
            self.wf(),
        ensures
            r == forall|i: int| 0 <= i < self.finished().len() ==> self.finished()[i],
    {
        let mut i: usize = 0;
        while i < self.done.len()
            invariant
                i <= self.done@.len(),
                forall|k: int| 0 <= k < i ==> self.done@[k],
            decreases self.done@.len() - i,
        {
            if !self.done[i] {
                assert(!self.finished()[i as int]);
                return false;
            }
            i += 1;
        }
        true
    }

    /// Hands out the first recipe, in the order they were declared, that was not handed out
    /// yet and whose dependencies have all finished; none after `halt`.
    pub fn next_ready(&mut self) -> (r: Option<usize>)
        requires
            old(self).wf(),
        ensures
            final(self).wf(),
            final(self).recipes() == old(self).recipes(),
            final(self).finished() == old(self).finished(),
            final(self).halted() == old(self).halted(),
            match r {
                Some(i) => {
                    &&& !old(self).halted()
                    &&& i < old(self).recipes().len()
                    &&& !old(self).sent()[i as int]
                    &&& forall|j: int| depends(old(self).recipes(), i as int, j) ==> old(self).finished()[j]
                    &&& forall|k: int| 0 <= k < i && !old(self).sent()[k] ==> exists|j: int|
                        depends(old(self).recipes(), k, j) && !old(self).finished()[j]
                    &&& final(self).sent() == old(self).sent().update(i as int, true)
                },
                None => {
                    &&& final(self).sent() == old(self).sent()
                    &&& !old(self).halted() ==> forall|k: int| 0 <= k < old(self).recipes().len()
                        && !old(self).sent()[k] ==> exists|j: int| depends(old(self).recipes(), k, j)
                        && !old(self).finished()[j]
                },
            },
    {
        if self.stopped {
            return None;
        }
        let n = self.node_of.len();
        let mut i: usize = 0;
        while i < n
            invariant
                self.wf(),
                self == old(self),
                !self.stopped,
                n == self.node_of@.len(),
                i <= n,
                forall|k: int| 0 <= k < i && !self.dispatched@[k] ==> exists|j: int|
                    depends(self.shape@, k, j) && !self.done@[j],
            decreases n - i,
        {
            if !self.dispatched[i] {
                let busy = graph_has_outgoing(&self.graph, self.node_of[i]);
                proof {
                    let x = self.node_of@[i as int];
                    let nodes = graph_nodes(self.graph);
                    if busy {
                        let y = choose|y: usize| graph_edges(self.graph).contains((x, y));
                        assert(depends(self.shape@, i as int, nodes[y] as int) && !self.done@[nodes[y] as int]);
                    } else {
                        assert forall|j: int| depends(self.shape@, i as int, j) implies self.done@[j] by {
                            if !self.done@[j] {
                                let y = self.node_of@[j];
                                assert(graph_edges(self.graph).contains((x, y)));
                            }
                        }
                    }
                }
                if !busy {
                    let ghost old_sent = self.dispatched@;
                    self.dispatched.set(i, true);
                    proof {
                        assert(self.dispatched@ == old_sent.update(i as int, true));
                        assert forall|k: int, j: int| #[trigger] self.dispatched@[k] && #[trigger] depends(self.shape@, k, j)
                            implies self.done@[j] by {
                            if k != i {
                                assert(old_sent[k]);
                            }
                        }
                        assert forall|k: int| 0 <= k < n && #[trigger] self.done@[k] implies self.dispatched@[k] by {
                            if k != i {
                                assert(old_sent[k]);
                            }
                        }
                        assert(self.wf());
                    }
                    return Some(i);
                }
            }
            i += 1;
        }
        assert(self.shape@.len() == n);
        assert forall|k: int| 0 <= k < self.recipes().len() && !self.sent()[k] implies exists|j: int|
            depends(self.recipes(), k, j) && !self.finished()[j] by {
            let j = choose|j: int| depends(self.shape@, k, j) && !self.done@[j];
            assert(depends(self.recipes(), k, j) && !self.finished()[j]);
        }
        None
    }

    /// Records that recipe `i` finished; recipes that depend on it may now be handed out.
    pub fn complete(&mut self, i: usize)
        requires
            old(self).wf(),
            i < old(self).recipes().len(),
            old(self).sent()[i as int],
            !old(self).finished()[i as int],
        ensures
            final(self).wf(),
            final(self).recipes() == old(self).recipes(),
            final(self).sent() == old(self).sent(),
            final(self).finished() == old(self).finished().update(i as int, true),
            final(self).halted() == old(self).halted(),
    {
        let x = self.node_of[i];
        graph_remove_node(&mut self.graph, x);
        self.done.set(i, true);
        proof {
            let nodes = graph_nodes(self.graph);
            let edges = graph_edges(self.graph);
            assert forall|p: usize, q: usize| #[trigger] edges.contains((p, q)) <==> nodes.contains_key(p)
                && nodes.contains_key(q) && depends(self.shape@, nodes[p] as int, nodes[q] as int) by {
                if nodes.contains_key(p) && nodes.contains_key(q) {
                    assert(p != x && q != x);
                }
            }
        }
    }

    /// How many recipes the schedule is for.
    pub fn node_count_of(&self) -> (r: usize)
        requires
            self.wf(),
        ensures
            r == self.recipes().len(),
            r == self.finished().len(),
    {
        self.done.len()
    }

    /// Whether recipe `i` has finished.
    pub fn is_finished(&self, i: usize) -> (r: bool)
        requires
            self.wf(),
            i < self.finished().len(),
        ensures
            r == self.finished()[i as int],
    {
        self.done[i]
    }

    /// Stops handing out recipes, as after a failure; running ones may still complete.
    pub fn halt(&mut self)
        requires
            old(self).wf(),
        ensures
            final(self).wf(),
            final(self).recipes() == old(self).recipes(),
            final(self).sent() == old(self).sent(),
            final(self).finished() == old(self).finished(),
            final(self).halted(),
    {
        self.stopped = true;
    }
}

/// A non-empty set of recipes, each of which depends on one in the set: the recipes of a
/// dependency cycle and those that wait on one.
pub open spec fn closed(sh: Seq<(Seq<Seq<char>>, Seq<Seq<char>>)>, s: Set<int>) -> bool {
    &&& exists|i: int| s.contains(i)
    &&& forall|i: int| #[trigger] member(s, i) ==> 0 <= i < sh.len() && exists|j: int| s.contains(j) && depends(sh, i, j)
}

/// `i` is in `s`.
pub open spec fn member(s: Set<int>, i: int) -> bool {
    s.contains(i)
}

/// The recipes have a dependency cycle.
pub open spec fn has_cycle(sh: Seq<(Seq<Seq<char>>, Seq<Seq<char>>)>) -> bool {
    exists|s: Set<int>| closed(sh, s)
}

/// The indices in `v`, as a set.
pub open spec fn index_set(v: Seq<usize>) -> Set<int> {
    Set::new(|i: int| 0 <= i <= usize::MAX && v.contains(i as usize))
}

/// How many recipes have not finished.
pub open spec fn unfinished(f: Seq<bool>) -> nat
    decreases f.len(),
{
    if f.len() == 0 {
        0
    } else {
        unfinished(f.drop_last()) + if f.last() { 0nat } else { 1nat }
    }
}

proof fn lemma_unfinished(f: Seq<bool>, i: int)
    requires
        0 <= i < f.len(),
        !f[i],
    ensures
        unfinished(f.update(i, true)) + 1 == unfinished(f),
    decreases f.len(),
{
    let g = f.update(i, true);
    if i < f.len() - 1 {
        assert(g.drop_last() =~= f.drop_last().update(i, true));
        lemma_unfinished(f.drop_last(), i);
    } else {
        assert(g.drop_last() =~= f.drop_last());
    }
}

proof fn lemma_order_no_cycle(sh: Seq<(Seq<Seq<char>>, Seq<Seq<char>>)>, order: Seq<usize>, s: Set<int>, p: int)
    requires
        forall|q: int, j: int| 0 <= q < order.len() && #[trigger] depends(sh, order[q] as int, j)
            ==> exists|m: int| 0 <= m < q && order[m] == j,
        forall|i: int| #[trigger] member(s, i) ==> exists|j: int| s.contains(j) && depends(sh, i, j),
        0 <= p < order.len(),
    ensures
        !s.contains(order[p] as int),
    decreases p,
{
    if s.contains(order[p] as int) {
        assert(member(s, order[p] as int));
        let j = choose|j: int| s.contains(j) && depends(sh, order[p] as int, j);
        let m = choose|m: int| 0 <= m < p && order[m] == j;
        lemma_order_no_cycle(sh, order, s, m);
    }
}

/// Runs the schedule one recipe at a time. Gives the order in which recipes ran, each once
/// and after all it depends on; or, when the recipes have a dependency cycle, those that
/// could never run, each of which depends on another of them.
pub fn build_order(recipes: &Vec<Recipe>) -> (r: Result<Vec<usize>, Vec<usize>>)
    ensures
        r is Ok <==> !has_cycle(shapes(recipes@)),
        r is Ok ==> ({
            let order = r->Ok_0@;
            &&& order.no_duplicates()
            &&& forall|q: int| 0 <= q < order.len() ==> order[q] < recipes@.len()
            &&& forall|i: usize| i < recipes@.len() ==> #[trigger] order.contains(i)
            &&& forall|q: int, j: int| 0 <= q < order.len() && #[trigger] depends(shapes(recipes@), order[q] as int, j)
                ==> exists|m: int| 0 <= m < q && order[m] == j
        }),
        r is Err ==> ({
            let stuck = r->Err_0@;
            &&& closed(shapes(recipes@), index_set(stuck))
            &&& forall|i: int| 0 <= i < stuck.len() ==> stuck[i] < recipes@.len()
        }),
{
    let ghost sh = shapes(recipes@);
    let mut s = Scheduler::new(recipes);
    let n = recipes.len();
    let mut order: Vec<usize> = Vec::new();
    loop
        invariant
            s.wf(),
            s.recipes() == sh,
            sh == shapes(recipes@),
            n == recipes@.len(),
            sh.len() == n,
            !s.halted(),
            s.sent() == s.finished(),
            s.finished().len() == n,
            order@.no_duplicates(),
            forall|q: int| 0 <= q < order@.len() ==> order@[q] < n,
            forall|i: int| 0 <= i < n ==> (s.finished()[i] <==> order@.contains(i as usize)),
            forall|q: int, j: int| 0 <= q < order@.len() && #[trigger] depends(sh, order@[q] as int, j)
                ==> exists|m: int| 0 <= m < q && order@[m] == j,
        decreases unfinished(s.finished()),
    {
        let ghost f = s.finished();
        match s.next_ready() {
            Some(i) => {
                proof {
                    assert forall|j: int| depends(sh, i as int, j) implies exists|m: int| 0 <= m < order@.len() && order@[m] == j by {
                        assert(f[j]);
                        assert(order@.contains(j as usize));
                    }
                    lemma_unfinished(f, i as int);
                }
                s.complete(i);
                let ghost before = order@;
                order.push(i);
                proof {
                    assert(!before.contains(i));
                    assert forall|q: int, j: int| 0 <= q < order@.len() && #[trigger] depends(sh, order@[q] as int, j)
                        implies exists|m: int| 0 <= m < q && order@[m] == j by {
                        if q < before.len() {
                            let m = choose|m: int| 0 <= m < q && before[m] == j;
                            assert(order@[m] == j);
                        } else {
                            let m = choose|m: int| 0 <= m < before.len() && before[m] == j;
                            assert(order@[m] == j);
                        }
                    }
                    assert forall|k: int| 0 <= k < n implies (s.finished()[k] <==> order@.contains(k as usize)) by {
                        if k == i {
                            assert(order@[before.len() as int] == i);
                        } else if order@.contains(k as usize) {
                            let m = choose|m: int| 0 <= m < order@.len() && order@[m] == k as usize;
                            assert(before[m] == k);
                        } else if f[k] {
                            assert(before.contains(k as usize));
                            let m = choose|m: int| 0 <= m < before.len() && before[m] == k as usize;
                            assert(order@[m] == k);
                        }
                    }
                }
            },
            None => {
                return settle(&s, order, Ghost(sh));
            },
        }
    }
}

/// The result of `build_order` once the schedule hands out nothing more.
fn settle(s: &Scheduler, order: Vec<usize>, sh: Ghost<Seq<(Seq<Seq<char>>, Seq<Seq<char>>)>>) -> (r: Result<Vec<usize>, Vec<usize>>)
    requires
        s.wf(),
        s.recipes() == sh@,
        !s.halted(),
        s.sent() == s.finished(),
        s.finished().len() == sh@.len(),
        order@.no_duplicates(),
        forall|q: int| 0 <= q < order@.len() ==> order@[q] < sh@.len(),
        forall|i: int| 0 <= i < sh@.len() ==> (s.finished()[i] <==> order@.contains(i as usize)),
        forall|q: int, j: int| 0 <= q < order@.len() && #[trigger] depends(sh@, order@[q] as int, j)
            ==> exists|m: int| 0 <= m < q && order@[m] == j,
        forall|k: int| 0 <= k < sh@.len() && !s.sent()[k] ==> exists|j: int| depends(sh@, k, j) && !s.finished()[j],
    ensures
        r is Ok <==> !has_cycle(sh@),
        r is Ok ==> ({
            let order = r->Ok_0@;
            &&& order.no_duplicates()
            &&& forall|q: int| 0 <= q < order.len() ==> order[q] < sh@.len()
            &&& forall|i: usize| i < sh@.len() ==> #[trigger] order.contains(i)
            &&& forall|q: int, j: int| 0 <= q < order.len() && #[trigger] depends(sh@, order[q] as int, j)
                ==> exists|m: int| 0 <= m < q && order[m] == j
        }),
        r is Err ==> ({
            let stuck = r->Err_0@;
            &&& closed(sh@, index_set(stuck))
            &&& forall|i: int| 0 <= i < stuck.len() ==> stuck[i] < sh@.len()
        }),
{
    let ghost sh = sh@;
    let n = s.node_count_of();
    if s.all_finished() {
        proof {
            assert forall|i: usize| i < n implies #[trigger] order@.contains(i) by {
                assert(s.finished()[i as int]);
            }
            if has_cycle(sh) {
                let st = choose|st: Set<int>| closed(sh, st);
                let x = choose|x: int| st.contains(x);
                assert(member(st, x));
                assert(order@.contains(x as usize));
                let p = choose|p: int| 0 <= p < order@.len() && order@[p] == x as usize;
                lemma_order_no_cycle(sh, order@, st, p);
            }
        }
        return Ok(order);
    }
    let mut stuck: Vec<usize> = Vec::new();
    let mut k: usize = 0;
    while k < n
        invariant
            s.wf(),
            s.finished().len() == n,
            k <= n,
            forall|q: int| 0 <= q < stuck@.len() ==> stuck@[q] < n && !s.finished()[stuck@[q] as int],
            forall|i: int| 0 <= i < k && !s.finished()[i] ==> stuck@.contains(i as usize),
        decreases n - k,
    {
        if !s.is_finished(k) {
            let ghost before = stuck@;
            stuck.push(k);
            proof {
                assert forall|i: int| 0 <= i < k + 1 && !s.finished()[i] implies stuck@.contains(i as usize) by {
                    if i < k {
                        let m = choose|m: int| 0 <= m < before.len() && before[m] == i as usize;
                        assert(stuck@[m] == i as usize);
                    } else {
                        assert(stuck@[before.len() as int] == k);
                    }
                }
            }
        }
        k += 1;
    }
    proof {
        let set = index_set(stuck@);
        let w = choose|i: int| 0 <= i < n && !s.finished()[i];
        assert(stuck@.contains(w as usize));
        assert(set.contains(w));
        assert forall|i: int| #[trigger] member(set, i) implies 0 <= i < sh.len() && exists|j: int| set.contains(j) && depends(sh, i, j) by {
            let q = choose|q: int| 0 <= q < stuck@.len() && stuck@[q] == i as usize;
            assert(!s.finished()[i]);
            assert(!s.sent()[i]);
            let j = choose|j: int| depends(sh, i, j) && !s.finished()[j];
            assert(stuck@.contains(j as usize));
            assert(set.contains(j));
        }
        assert(closed(sh, set));
    }
    Err(stuck)
}

/// Whether some word of `a` is among `b`.
fn shares(a: &Vec<Vec<char>>, b: &Vec<Vec<char>>) -> (r: bool)
    ensures
        r == exists|t: Seq<char>| views(a@).contains(t) && views(b@).contains(t),
{
    let mut k: usize = 0;
    while k < a.len()
        invariant
            k <= a@.len(),
            forall|m: int| 0 <= m < k ==> !views(b@).contains(#[trigger] views(a@)[m]),
        decreases a@.len() - k,
    {
        if contains_word(b, &a[k]) {
            assert(views(a@).contains(views(a@)[k as int]));
            return true;
        }
        k += 1;
    }
    proof {
        assert forall|t: Seq<char>| !(views(a@).contains(t) && views(b@).contains(t)) by {
            if views(a@).contains(t) {
                let m = choose|m: int| 0 <= m < views(a@).len() && views(a@)[m] == t;
            }
        }
    }
    false
}

} // verus!
