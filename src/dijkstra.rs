use vstd::prelude::*;

verus! {

/// A directed edge towards node `to`, with a non-negative `weight`.
#[derive(Clone, Copy, Debug)]
pub struct Edge {
    pub to: usize,
    pub weight: u32,
}

/// A directed graph as adjacency lists: node `u` exists when `u < adj.len()`,
/// and `adj[u]` holds its outgoing edges. An edge may name a node that has no
/// adjacency entry; such a graph is malformed, and a query that reaches that
/// node fails.
pub struct Graph {
    pub adj: Vec<Vec<Edge>>,
}

impl View for Graph {
    type V = Seq<Seq<Edge>>;

    open spec fn view(&self) -> Seq<Seq<Edge>> {
        self.adj@.map_values(|a: Vec<Edge>| a@)
    }
}

impl Graph {
    /// A graph of `node_count` nodes and no edges.
    pub fn new(node_count: usize) -> (g: Graph)
        ensures
            g@.len() == node_count,
            forall|u: int| 0 <= u < node_count ==> #[trigger] g@[u].len() == 0,
    {
        let mut adj: Vec<Vec<Edge>> = Vec::new();
        let mut i: usize = 0;
        while i < node_count
            invariant
                i <= node_count,
                adj@.len() == i,
                forall|u: int| 0 <= u < i ==> #[trigger] adj@[u]@.len() == 0,
            decreases node_count - i,
        {
            adj.push(Vec::new());
            i = i + 1;
        }
        Graph { adj }
    }

    /// The number of nodes.
    pub fn node_count(&self) -> (n: usize)
        ensures
            n == self@.len(),
    {
        self.adj.len()
    }

    /// Adds an edge from `from` to `to` of weight `weight`, after the edges
    /// that leave `from` already. Returns `false`, and leaves the graph as it
    /// was, when `from` is not a node.
    pub fn add_edge(&mut self, from: usize, to: usize, weight: u32) -> (added: bool)
        ensures
            added == (from < old(self)@.len()),
            added ==> final(self)@ == with_edge(old(self)@, from as int, Edge { to, weight }),
            !added ==> final(self)@ == old(self)@,
    {
        if from >= self.adj.len() {
            return false;
        }
        let ghost before = self.adj@;
        let mut row = self.adj.remove(from);
        row.push(Edge { to, weight });
        self.adj.insert(from, row);
        assert(self.adj@ =~= before.update(from as int, row));
        assert(self@ =~= with_edge(old(self)@, from as int, Edge { to, weight }));
        true
    }
}

/// The node reached from `s` by the edge choices `p`: entry `k` of `p` is the
/// index of the edge taken out of the node reached after `k` steps.
pub open spec fn walk_end(g: Seq<Seq<Edge>>, s: int, p: Seq<int>) -> int
    decreases p.len(),
{
    if p.len() == 0 {
        s
    } else {
        g[walk_end(g, s, p.drop_last())][p.last()].to as int
    }
}

/// Every edge choice of `p` names an existing edge of an existing node.
pub open spec fn walk_valid(g: Seq<Seq<Edge>>, s: int, p: Seq<int>) -> bool
    decreases p.len(),
{
    if p.len() == 0 {
        true
    } else {
        let u = walk_end(g, s, p.drop_last());
        &&& walk_valid(g, s, p.drop_last())
        &&& 0 <= u < g.len()
        &&& 0 <= p.last() < g[u].len()
    }
}

/// The sum of the weights of the edges that `p` takes from `s`.
pub open spec fn walk_cost(g: Seq<Seq<Edge>>, s: int, p: Seq<int>) -> int
    decreases p.len(),
{
    if p.len() == 0 {
        0
    } else {
        walk_cost(g, s, p.drop_last()) + g[walk_end(g, s, p.drop_last())][p.last()].weight
    }
}

/// `p` is a walk of at least one edge from `s` to `f`.
pub open spec fn is_walk(g: Seq<Seq<Edge>>, s: int, f: int, p: Seq<int>) -> bool {
    &&& p.len() >= 1
    &&& walk_valid(g, s, p)
    &&& walk_end(g, s, p) == f
}

/// Some walk of at least one edge leads from `s` to `f`.
pub open spec fn reachable(g: Seq<Seq<Edge>>, s: int, f: int) -> bool {
    exists|p: Seq<int>| #[trigger] is_walk(g, s, f, p)
}

/// Some walk from `s` ends at a node without an adjacency entry.
pub open spec fn reaches_missing_node(g: Seq<Seq<Edge>>, s: int) -> bool {
    exists|p: Seq<int>|
        p.len() >= 1 && #[trigger] walk_valid(g, s, p) && !(0 <= walk_end(g, s, p) < g.len())
}

/// `c` is the least cost of a walk from `s` to `f`.
pub open spec fn is_shortest_cost(g: Seq<Seq<Edge>>, s: int, f: int, c: int) -> bool {
    &&& exists|p: Seq<int>| #[trigger] is_walk(g, s, f, p) && walk_cost(g, s, p) == c
    &&& forall|p: Seq<int>| #[trigger] is_walk(g, s, f, p) ==> c <= walk_cost(g, s, p)
}

/// What a shortest-path query answers: nothing when `f` cannot be reached from
/// `s` or when the search meets a node without an adjacency entry, and
/// otherwise the least cost of a walk from `s` to `f`.
pub open spec fn shortest_path_answer(g: Seq<Seq<Edge>>, s: int, f: int, r: Option<u64>) -> bool {
    &&& (r is None <==> (!reachable(g, s, f) || reaches_missing_node(g, s)))
    &&& (r matches Some(c) ==> is_shortest_cost(g, s, f, c as int))
}

/// `r` names an unprocessed node of least known cost, or is `None` when no
/// unprocessed node has a known cost.
pub open spec fn is_lowest_unprocessed(
    costs: Seq<Option<u64>>,
    processed: Seq<bool>,
    r: Option<usize>,
) -> bool {
    match r {
        None => forall|i: int| 0 <= i < costs.len() && !processed[i] ==> #[trigger] costs[i] is None,
        Some(x) => {
            &&& x < costs.len()
            &&& !processed[x as int]
            &&& costs[x as int] is Some
            &&& forall|i: int|
                0 <= i < costs.len() && !processed[i] && #[trigger] costs[i] is Some
                    ==> costs[x as int]->0 <= costs[i]->0
        },
    }
}

/// The number of processed nodes.
pub open spec fn count_processed(p: Seq<bool>) -> nat
    decreases p.len(),
{
    if p.len() == 0 {
        0
    } else {
        count_processed(p.drop_last()) + if p.last() {
            1nat
        } else {
            0nat
        }
    }
}

/// A bound on every known cost once `k` nodes are processed: such a cost is
/// that of a walk whose edges leave the start node or a processed node.
pub open spec fn cost_cap(k: int) -> int {
    (k + 1) * 0xFFFF_FFFF
}

/// Each edge out of `s` leads to an existing node whose cost is at most the
/// edge's weight.
pub open spec fn start_edges_settled(g: Seq<Seq<Edge>>, s: int, costs: Seq<Option<u64>>) -> bool {
    forall|i: int|
        0 <= i < g[s].len() ==> {
            let e = #[trigger] g[s][i];
            &&& e.to < costs.len()
            &&& costs[e.to as int] is Some
            &&& costs[e.to as int]->0 <= e.weight
        }
}

/// Each processed node has a cost, and each of its edges leads to an existing
/// node whose cost is at most the node's cost plus the edge's weight.
pub open spec fn processed_settled(
    g: Seq<Seq<Edge>>,
    costs: Seq<Option<u64>>,
    processed: Seq<bool>,
) -> bool {
    &&& forall|u: int| 0 <= u < costs.len() && #[trigger] processed[u] ==> costs[u] is Some
    &&& forall|u: int, i: int|
        0 <= u < costs.len() && processed[u] && 0 <= i < g[u].len() ==> {
            let e = #[trigger] g[u][i];
            &&& e.to < costs.len()
            &&& costs[e.to as int] is Some
            &&& costs[e.to as int]->0 <= costs[u]->0 + e.weight
        }
}

/// Each known cost is the cost of a walk from `s`.
pub open spec fn costs_are_walk_costs(g: Seq<Seq<Edge>>, s: int, costs: Seq<Option<u64>>) -> bool {
    forall|v: int|
        0 <= v < costs.len() && #[trigger] costs[v] is Some ==> exists|p: Seq<int>|
            #[trigger] is_walk(g, s, v, p) && walk_cost(g, s, p) == costs[v]->0
}

/// Node `z` is unprocessed and its known cost is at most `c`.
pub open spec fn open_node_within(
    costs: Seq<Option<u64>>,
    processed: Seq<bool>,
    z: int,
    c: int,
) -> bool {
    &&& 0 <= z < costs.len()
    &&& !processed[z]
    &&& costs[z] is Some
    &&& costs[z]->0 <= c
}

proof fn lemma_count_le(p: Seq<bool>)
    ensures
        count_processed(p) <= p.len(),
    decreases p.len(),
{
    if p.len() > 0 {
        lemma_count_le(p.drop_last());
    }
}

proof fn lemma_count_mark(p: Seq<bool>, i: int)
    requires
        0 <= i < p.len(),
        !p[i],
    ensures
        count_processed(p.update(i, true)) == count_processed(p) + 1,
    decreases p.len(),
{
    let q = p.update(i, true);
    if i == p.len() - 1 {
        assert(q.drop_last() =~= p.drop_last());
    } else {
        assert(q.drop_last() =~= p.drop_last().update(i, true));
        lemma_count_mark(p.drop_last(), i);
    }
}

proof fn lemma_count_none(p: Seq<bool>)
    requires
        forall|k: int| 0 <= k < p.len() ==> !#[trigger] p[k],
    ensures
        count_processed(p) == 0,
    decreases p.len(),
{
    if p.len() > 0 {
        lemma_count_none(p.drop_last());
    }
}

/// Taking one more edge out of the end of a valid walk.
proof fn lemma_extend(g: Seq<Seq<Edge>>, s: int, p: Seq<int>, j: int)
    requires
        walk_valid(g, s, p),
        0 <= walk_end(g, s, p) < g.len(),
        0 <= j < g[walk_end(g, s, p)].len(),
    ensures
        walk_valid(g, s, p.push(j)),
        walk_end(g, s, p.push(j)) == g[walk_end(g, s, p)][j].to,
        walk_cost(g, s, p.push(j)) == walk_cost(g, s, p) + g[walk_end(g, s, p)][j].weight,
        p.push(j).len() == p.len() + 1,
{
    assert(p.push(j).drop_last() =~= p);
}

proof fn lemma_walk_leaves_start(g: Seq<Seq<Edge>>, s: int, p: Seq<int>)
    requires
        walk_valid(g, s, p),
        p.len() >= 1,
    ensures
        0 <= s < g.len(),
    decreases p.len(),
{
    if p.len() > 1 {
        lemma_walk_leaves_start(g, s, p.drop_last());
    }
}

/// Once the start's edges and the processed nodes are settled, a walk either
/// ends at a processed node whose cost is at most the walk's, or some
/// unprocessed node has a known cost at most the walk's.
proof fn lemma_walk_meets_costs(
    g: Seq<Seq<Edge>>,
    s: int,
    costs: Seq<Option<u64>>,
    processed: Seq<bool>,
    p: Seq<int>,
)
    requires
        costs.len() == g.len(),
        processed.len() == g.len(),
        start_edges_settled(g, s, costs),
        processed_settled(g, costs, processed),
        p.len() >= 1,
        walk_valid(g, s, p),
    ensures
        ({
            let y = walk_end(g, s, p);
            ||| (0 <= y < g.len() && processed[y] && costs[y] is Some && costs[y]->0 <= walk_cost(
                g,
                s,
                p,
            ))
            ||| exists|z: int| #[trigger] open_node_within(costs, processed, z, walk_cost(g, s, p))
        }),
    decreases p.len(),
{
    let q = p.drop_last();
    let u = walk_end(g, s, q);
    let e = g[u][p.last()];
    let y = walk_end(g, s, p);
    let c = walk_cost(g, s, p);
    assert(y == e.to);
    assert(c == walk_cost(g, s, q) + e.weight);
    if p.len() == 1 {
        assert(u == s);
        if !processed[y] {
            assert(open_node_within(costs, processed, y, c));
        }
    } else {
        lemma_walk_meets_costs(g, s, costs, processed, q);
        if 0 <= u < g.len() && processed[u] && costs[u] is Some && costs[u]->0 <= walk_cost(
            g,
            s,
            q,
        ) {
            assert(e == g[u][p.last()]);
            if !processed[y] {
                assert(open_node_within(costs, processed, y, c));
            }
        } else {
            let z = choose|z: int| #[trigger] open_node_within(costs, processed, z, walk_cost(g, s, q));
            assert(open_node_within(costs, processed, z, c));
        }
    }
}

/// Every edge of the graph leads to a node that has an adjacency entry.
pub open spec fn edges_in_graph(g: Seq<Seq<Edge>>) -> bool {
    forall|u: int, i: int| 0 <= u < g.len() && 0 <= i < g[u].len() ==> #[trigger] g[u][i].to < g.len()
}

/// `g` with the edge `e` added to the edges out of `u`.
pub open spec fn with_edge(g: Seq<Seq<Edge>>, u: int, e: Edge) -> Seq<Seq<Edge>> {
    g.update(u, g[u].push(e))
}

/// `h` has the nodes of `g`, and each edge of `g` at the same place.
pub open spec fn has_edges_of(h: Seq<Seq<Edge>>, g: Seq<Seq<Edge>>) -> bool {
    &&& h.len() == g.len()
    &&& forall|u: int, i: int|
        0 <= u < g.len() && 0 <= i < g[u].len() ==> i < h[u].len() && #[trigger] h[u][i] == g[u][i]
}

/// A walk keeps its end and its cost in a graph that has all the edges of `g`
/// at the same places.
proof fn lemma_walk_in_supergraph(g: Seq<Seq<Edge>>, h: Seq<Seq<Edge>>, s: int, p: Seq<int>)
    requires
        has_edges_of(h, g),
        walk_valid(g, s, p),
    ensures
        walk_valid(h, s, p),
        walk_end(h, s, p) == walk_end(g, s, p),
        walk_cost(h, s, p) == walk_cost(g, s, p),
    decreases p.len(),
{
    if p.len() > 0 {
        lemma_walk_in_supergraph(g, h, s, p.drop_last());
        let u = walk_end(g, s, p.drop_last());
        assert(h[u][p.last()] == g[u][p.last()]);
    }
}

/// In a graph whose edges all lead to nodes with adjacency entries, no walk
/// reaches a missing node.
proof fn lemma_no_missing_node(g: Seq<Seq<Edge>>, s: int)
    requires
        edges_in_graph(g),
    ensures
        !reaches_missing_node(g, s),
{
    assert forall|p: Seq<int>| p.len() >= 1 && #[trigger] walk_valid(g, s, p) implies 0 <= walk_end(
        g,
        s,
        p,
    ) < g.len() by {
        let u = walk_end(g, s, p.drop_last());
        assert(g[u][p.last()].to < g.len());
    }
}

/// A query has one answer: two calls on the same graph and endpoints agree.
pub proof fn lemma_answer_is_unique(g: Seq<Seq<Edge>>, s: int, f: int, r1: Option<u64>, r2: Option<u64>)
    requires
        shortest_path_answer(g, s, f, r1),
        shortest_path_answer(g, s, f, r2),
    ensures
        r1 == r2,
{
    if let Some(c1) = r1 {
        if let Some(c2) = r2 {
            let p1 = choose|p: Seq<int>| #[trigger] is_walk(g, s, f, p) && walk_cost(g, s, p) == c1;
            let p2 = choose|p: Seq<int>| #[trigger] is_walk(g, s, f, p) && walk_cost(g, s, p) == c2;
            assert(c1 <= walk_cost(g, s, p2));
            assert(c2 <= walk_cost(g, s, p1));
        }
    }
}

/// Adding an edge between two nodes of a graph whose edges all lead to nodes
/// never makes a reachable node unreachable, and never raises its shortest
/// cost.
pub proof fn lemma_added_edge_never_raises_cost(
    g: Seq<Seq<Edge>>,
    u: int,
    e: Edge,
    s: int,
    f: int,
    before: Option<u64>,
    after: Option<u64>,
)
    requires
        edges_in_graph(g),
        0 <= u < g.len(),
        e.to < g.len(),
        shortest_path_answer(g, s, f, before),
        shortest_path_answer(with_edge(g, u, e), s, f, after),
    ensures
        before matches Some(c) ==> after matches Some(d) && d <= c,
{
    let h = with_edge(g, u, e);
    if let Some(c) = before {
        let p = choose|p: Seq<int>| #[trigger] is_walk(g, s, f, p) && walk_cost(g, s, p) == c;
        assert forall|v: int, i: int|
            0 <= v < g.len() && 0 <= i < g[v].len() implies i < h[v].len() && #[trigger] h[v][i]
                == g[v][i] by {
            if v == u {
                assert(h[v] == g[v].push(e));
            }
        }
        assert(has_edges_of(h, g));
        lemma_walk_in_supergraph(g, h, s, p);
        assert(is_walk(h, s, f, p));
        assert forall|v: int, i: int| 0 <= v < h.len() && 0 <= i < h[v].len() implies #[trigger] h[v][i].to
            < h.len() by {
            if v == u {
                assert(h[v] == g[v].push(e));
                if i < g[v].len() {
                    assert(h[v][i] == g[v][i]);
                }
            }
        }
        lemma_no_missing_node(h, s);
        if let Some(d) = after {
            assert(d <= walk_cost(h, s, p));
        }
    }
}

/// Among the unprocessed nodes with a known cost, one of least cost.
fn find_lowest_cost_node(costs: &Vec<Option<u64>>, processed: &Vec<bool>) -> (r: Option<usize>)
    requires
        costs.len() == processed.len(),
    ensures
        is_lowest_unprocessed(costs@, processed@, r),
{
    let mut best: Option<usize> = None;
    let mut i: usize = 0;
    while i < costs.len()
        invariant
            costs.len() == processed.len(),
            0 <= i <= costs.len(),
            match best {
                None => forall|k: int| 0 <= k < i && !processed@[k] ==> #[trigger] costs@[k] is None,
                Some(x) => {
                    &&& x < i
                    &&& !processed@[x as int]
                    &&& costs@[x as int] is Some
                    &&& forall|k: int|
                        0 <= k < i && !processed@[k] && #[trigger] costs@[k] is Some
                            ==> costs@[x as int]->0 <= costs@[k]->0
                },
            },
        decreases costs.len() - i,
    {
        if !processed[i] {
            if let Some(c) = costs[i] {
                let better = match best {
                    None => true,
                    Some(x) => match costs[x] {
                        Some(cx) => c < cx,
                        None => true,
                    },
                };
                if better {
                    best = Some(i);
                }
            }
        }
        i = i + 1;
    }
    best
}

/// The least total weight of a walk of at least one edge from `start` to
/// `finish`. Nothing comes back when no such walk exists (in particular when
/// `start` is not a node of the graph) or when a walk from `start` reaches an
/// edge target that has no adjacency entry. A walk back to `start` counts, so
/// for `finish == start` the answer is the cheapest cycle through `start`.
/// The graph has at most `u32::MAX` nodes, so that every cost fits in a `u64`.
pub fn dejkstras_alg(graph: &Graph, start: usize, finish: usize) -> (r: Option<u64>)
    requires
        graph@.len() <= u32::MAX,
    ensures
        shortest_path_answer(graph@, start as int, finish as int, r),
        start >= graph@.len() ==> r is None,
{
    let ghost g = graph@;
    let ghost s = start as int;
    let n = graph.adj.len();
    if start >= n {
        assert forall|p: Seq<int>| !#[trigger] is_walk(g, s, finish as int, p) by {
            if is_walk(g, s, finish as int, p) {
                lemma_walk_leaves_start(g, s, p);
            }
        }
        return None;
    }
    let mut costs: Vec<Option<u64>> = Vec::new();
    let mut processed: Vec<bool> = Vec::new();
    let mut i: usize = 0;
    while i < n
        invariant
            costs@.len() == i,
            processed@.len() == i,
            i <= n,
            forall|k: int| 0 <= k < i ==> #[trigger] costs@[k] is None,
            forall|k: int| 0 <= k < i ==> !#[trigger] processed@[k],
        decreases n - i,
    {
        costs.push(None);
        processed.push(false);
        i = i + 1;
    }
    proof {
        lemma_count_none(processed@);
    }

    let first = &graph.adj[start];
    assert(first@ == g[s]);
    let mut j: usize = 0;
    while j < first.len()
        invariant
            n == graph.adj.len(),
            g == graph@,
            s == start,
            start < n,
            first@ == g[s],
            costs@.len() == n,
            processed@.len() == n,
            count_processed(processed@) == 0,
            forall|k: int| 0 <= k < n ==> !#[trigger] processed@[k],
            0 <= j <= first.len(),
            forall|i: int|
                0 <= i < j ==> {
                    let e = #[trigger] g[s][i];
                    &&& e.to < n
                    &&& costs@[e.to as int] is Some
                    &&& costs@[e.to as int]->0 <= e.weight
                },
            forall|v: int| 0 <= v < n && #[trigger] costs@[v] is Some ==> costs@[v]->0 <= cost_cap(0),
            costs_are_walk_costs(g, s, costs@),
        decreases first.len() - j,
    {
        let e = first[j];
        proof {
            lemma_extend(g, s, Seq::empty(), j as int);
        }
        let ghost p = Seq::<int>::empty().push(j as int);
        if e.to >= n {
            assert(p.len() >= 1 && walk_valid(g, s, p) && !(0 <= walk_end(g, s, p) < g.len()));
            return None;
        }
        let better = match costs[e.to] {
            None => true,
            Some(c) => (e.weight as u64) < c,
        };
        if better {
            let ghost old_costs = costs@;
            costs.set(e.to, Some(e.weight as u64));
            assert forall|v: int| 0 <= v < n && #[trigger] costs@[v] is Some implies exists|q: Seq<int>|
                #[trigger] is_walk(g, s, v, q) && walk_cost(g, s, q) == costs@[v]->0 by {
                if v == e.to as int {
                    assert(is_walk(g, s, v, p) && walk_cost(g, s, p) == costs@[v]->0);
                } else {
                    assert(old_costs[v] == costs@[v]);
                }
            }
        }
        j = j + 1;
    }

    let mut next = find_lowest_cost_node(&costs, &processed);
    while next.is_some()
        invariant
            n == graph.adj.len(),
            g == graph@,
            n <= u32::MAX,
            s == start,
            start < n,
            costs@.len() == n,
            processed@.len() == n,
            is_lowest_unprocessed(costs@, processed@, next),
            start_edges_settled(g, s, costs@),
            processed_settled(g, costs@, processed@),
            costs_are_walk_costs(g, s, costs@),
            forall|v: int|
                0 <= v < n && #[trigger] costs@[v] is Some ==> costs@[v]->0 <= cost_cap(
                    count_processed(processed@) as int,
                ),
            forall|u: int, v: int|
                0 <= u < n && 0 <= v < n && #[trigger] processed@[u] && !#[trigger] processed@[v]
                    && costs@[v] is Some ==> costs@[u]->0 <= costs@[v]->0,
        decreases n - count_processed(processed@),
    {
        let x = match next {
            Some(x) => x,
            None => 0,
        };
        let cx = match costs[x] {
            Some(c) => c,
            None => 0,
        };
        let ghost k = count_processed(processed@) as int;
        proof {
            lemma_count_mark(processed@, x as int);
            lemma_count_le(processed@.update(x as int, true));
        }
        let ghost px = choose|q: Seq<int>| #[trigger] is_walk(g, s, x as int, q) && walk_cost(g, s, q) == cx;
        let ghost costs0 = costs@;
        let adj_x = &graph.adj[x];
        assert(adj_x@ == g[x as int]);
        let mut j: usize = 0;
        while j < adj_x.len()
            invariant
                n == graph.adj.len(),
                g == graph@,
                n <= u32::MAX,
                s == start,
                x < n,
                k + 1 <= n,
                k == count_processed(processed@),
                adj_x@ == g[x as int],
                costs@.len() == n,
                processed@.len() == n,
                costs0.len() == n,
                !processed@[x as int],
                costs@[x as int] == Some(cx),
                cx <= cost_cap(k),
                is_walk(g, s, x as int, px),
                walk_cost(g, s, px) == cx,
                0 <= j <= adj_x.len(),
                forall|v: int|
                    0 <= v < n && #[trigger] costs0[v] is Some ==> costs@[v] is Some && costs@[v]->0
                        <= costs0[v]->0,
                forall|v: int| 0 <= v < n && #[trigger] processed@[v] ==> costs@[v] == costs0[v],
                forall|v: int|
                    0 <= v < n && #[trigger] processed@[v] ==> costs@[v] is Some && costs@[v]->0
                        <= cx,
                forall|v: int|
                    0 <= v < n && !processed@[v] && #[trigger] costs@[v] is Some ==> cx
                        <= costs@[v]->0,
                forall|v: int|
                    0 <= v < n && #[trigger] costs@[v] is Some ==> costs@[v]->0 <= cost_cap(k + 1),
                costs_are_walk_costs(g, s, costs@),
                forall|i: int|
                    0 <= i < j ==> {
                        let e = #[trigger] g[x as int][i];
                        &&& e.to < n
                        &&& costs@[e.to as int] is Some
                        &&& costs@[e.to as int]->0 <= cx + e.weight
                    },
            decreases adj_x.len() - j,
        {
            let e = adj_x[j];
            proof {
                lemma_extend(g, s, px, j as int);
            }
            let ghost p = px.push(j as int);
            if e.to >= n {
                assert(p.len() >= 1 && walk_valid(g, s, p) && !(0 <= walk_end(g, s, p) < g.len()));
                return None;
            }
            let new_cost = cx + e.weight as u64;
            let better = match costs[e.to] {
                None => true,
                Some(c) => new_cost < c,
            };
            if better {
                let ghost old_costs = costs@;
                costs.set(e.to, Some(new_cost));
                assert forall|v: int| 0 <= v < n && #[trigger] costs@[v] is Some implies exists|q: Seq<int>|
                    #[trigger] is_walk(g, s, v, q) && walk_cost(g, s, q) == costs@[v]->0 by {
                    if v == e.to as int {
                        assert(is_walk(g, s, v, p) && walk_cost(g, s, p) == costs@[v]->0);
                    } else {
                        assert(old_costs[v] == costs@[v]);
                    }
                }
            }
            j = j + 1;
        }
        processed.set(x, true);
        next = find_lowest_cost_node(&costs, &processed);
    }

    assert forall|p: Seq<int>| p.len() >= 1 && #[trigger] walk_valid(g, s, p) implies {
        let y = walk_end(g, s, p);
        0 <= y < n && costs@[y] is Some && costs@[y]->0 <= walk_cost(g, s, p)
    } by {
        lemma_walk_meets_costs(g, s, costs@, processed@, p);
        if exists|z: int| #[trigger] open_node_within(costs@, processed@, z, walk_cost(g, s, p)) {
            let z = choose|z: int| #[trigger] open_node_within(costs@, processed@, z, walk_cost(g, s, p));
            assert(costs@[z] is None);
        }
    }
    if finish < n {
        costs[finish]
    } else {
        None
    }
}

} // verus!
