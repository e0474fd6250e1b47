//! The engine's model of a program scope graph: immutable nodes and directed
//! edges, read-only for the whole of a query, together with a verified
//! reachability search over it.

use vstd::prelude::*;

use crate::results::Location;
use vstd::pervasive::VecAdditionalExecFns;

verus! {

/// What the engine reads of one graph node: an optional interned symbol, an
/// optional owning file (an index into the graph's file table), an optional
/// syntax-type tag, an optional source span, and the reference/definition
/// role flag. A node parsed from source carries a tag and a span together;
/// purely structural nodes carry neither.
pub struct NodeInfo {
    pub symbol: Option<String>,
    pub file: Option<usize>,
    pub syntax_type: Option<String>,
    pub span: Option<Location>,
    pub is_reference: bool,
}

/// A directed edge between two node indices.
pub struct GraphEdge {
    pub source: usize,
    pub sink: usize,
}

/// The shared scope graph: a node table, an edge list, and the table of
/// on-disk file paths the nodes belong to. The engine never mutates it.
pub struct ScopeGraph {
    pub nodes: Vec<NodeInfo>,
    pub edges: Vec<GraphEdge>,
    pub files: Vec<String>,
}

/// Every edge endpoint is a node index and every owning file is a file index.
pub open spec fn graph_wf(nodes: Seq<NodeInfo>, edges: Seq<GraphEdge>, files: Seq<String>) -> bool {
    &&& forall|k: int|
        0 <= k < edges.len() ==> (#[trigger] edges[k]).source < nodes.len() && edges[k].sink
            < nodes.len()
    &&& forall|v: int|
        0 <= v < nodes.len() ==> ((#[trigger] nodes[v]).file matches Some(f) ==> f < files.len())
}

impl ScopeGraph {
    pub open spec fn wf(self) -> bool {
        graph_wf(self.nodes@, self.edges@, self.files@)
    }

    /// A directed edge from node `u` to node `v`.
    pub open spec fn edge(self, u: int, v: int) -> bool {
        exists|k: int|
            0 <= k < self.edges@.len() && (#[trigger] self.edges@[k]).source == u
                && self.edges@[k].sink == v
    }

    /// Node `v` carries the symbol text `name`.
    pub open spec fn symbol_is(self, v: int, name: Seq<char>) -> bool {
        self.nodes@[v].symbol matches Some(s) && s@ == name
    }

    /// Node `v` carries the syntax-type tag `tag`.
    pub open spec fn tag_is(self, v: int, tag: Seq<char>) -> bool {
        self.nodes@[v].syntax_type matches Some(t) && t@ == tag
    }

    /// A connector node: its symbol is the literal dot that the paired
    /// analyzer uses to link consecutive qualified-name components.
    pub open spec fn is_connector(self, v: int) -> bool {
        self.symbol_is(v, seq!['.'])
    }

    /// No edge of the graph points into `v`.
    pub open spec fn in_degree_zero(self, v: int) -> bool {
        forall|k: int| 0 <= k < self.edges@.len() ==> (#[trigger] self.edges@[k]).sink != v
    }

    /// Checks the given tables and assembles a graph only when they are
    /// consistent, so that unverified callers cannot hand the engine
    /// out-of-range indices.
    pub fn create(nodes: Vec<NodeInfo>, edges: Vec<GraphEdge>, files: Vec<String>) -> (r: Option<
        ScopeGraph,
    >)
        ensures
            (r is Some) == graph_wf(nodes@, edges@, files@),
            r matches Some(g) ==> g.nodes@ == nodes@ && g.edges@ == edges@ && g.files@ == files@
                && g.wf(),
    {
        let mut k: usize = 0;
        while k < edges.len()
            invariant
                k <= edges@.len(),
                forall|j: int|
                    0 <= j < k ==> (#[trigger] edges@[j]).source < nodes@.len() && edges@[j].sink
                        < nodes@.len(),
            decreases edges@.len() - k,
        {
            if edges[k].source >= nodes.len() || edges[k].sink >= nodes.len() {
                return None;
            }
            k += 1;
        }
        let mut v: usize = 0;
        while v < nodes.len()
            invariant
                v <= nodes@.len(),
                forall|j: int|
                    0 <= j < v ==> ((#[trigger] nodes@[j]).file matches Some(f) ==> f
                        < files@.len()),
            decreases nodes@.len() - v,
        {
            match &nodes[v].file {
                Some(f) => {
                    if *f >= files.len() {
                        return None;
                    }
                },
                None => {},
            }
            v += 1;
        }
        Some(ScopeGraph { nodes, edges, files })
    }

    /// Whether no edge points into node `v`.
    pub fn has_no_incoming(&self, v: usize) -> (r: bool)
        ensures
            r == self.in_degree_zero(v as int),
    {
        let mut k: usize = 0;
        while k < self.edges.len()
            invariant
                k <= self.edges@.len(),
                forall|j: int| 0 <= j < k ==> (#[trigger] self.edges@[j]).sink != v,
            decreases self.edges@.len() - k,
        {
            if self.edges[k].sink == v {
                return false;
            }
            k += 1;
        }
        true
    }
}

/// A walk through the graph: at least one node, all in range, consecutive
/// nodes joined by edges.
pub open spec fn is_path(g: ScopeGraph, p: Seq<int>) -> bool {
    &&& p.len() >= 1
    &&& forall|i: int| 0 <= i < p.len() ==> 0 <= #[trigger] p[i] < g.nodes@.len()
    &&& forall|i: int| 0 <= i < p.len() - 1 ==> g.edge(#[trigger] p[i], p[i + 1])
}

/// Node `v` can be reached from `root` by following zero or more edges.
pub open spec fn reachable_from(g: ScopeGraph, root: int, v: int) -> bool {
    exists|p: Seq<int>| is_path(g, p) && p.first() == root && p.last() == v
}

/// Node `v` can be reached from some node of `roots`.
pub open spec fn reachable_from_any(g: ScopeGraph, roots: Seq<usize>, v: int) -> bool {
    exists|r: usize| #[trigger] roots.contains(r) && reachable_from(g, r as int, v)
}

pub proof fn lemma_reachable_refl(g: ScopeGraph, root: int)
    requires
        0 <= root < g.nodes@.len(),
    ensures
        reachable_from(g, root, root),
{
    let p = seq![root];
    assert(is_path(g, p));
    assert(p.first() == root && p.last() == root);
}

pub proof fn lemma_reachable_step(g: ScopeGraph, root: int, u: int, v: int)
    requires
        reachable_from(g, root, u),
        g.edge(u, v),
        0 <= v < g.nodes@.len(),
    ensures
        reachable_from(g, root, v),
{
    let p = choose|p: Seq<int>| is_path(g, p) && p.first() == root && p.last() == u;
    let q = p.push(v);
    assert forall|i: int| 0 <= i < q.len() implies 0 <= #[trigger] q[i] < g.nodes@.len() by {
        if i < p.len() {
            assert(q[i] == p[i]);
        }
    }
    assert forall|i: int| 0 <= i < q.len() - 1 implies g.edge(#[trigger] q[i], q[i + 1]) by {
        if i < p.len() - 1 {
            assert(q[i] == p[i] && q[i + 1] == p[i + 1]);
        } else {
            assert(q[i] == p.last() && q[i + 1] == v);
        }
    }
    assert(is_path(g, q) && q.first() == root && q.last() == v);
}

/// A set of nodes that contains the first node of a path and is closed under
/// the graph's edges contains the path's last node.
proof fn lemma_path_closed(g: ScopeGraph, vset: Seq<bool>, p: Seq<int>)
    requires
        g.wf(),
        vset.len() == g.nodes@.len(),
        is_path(g, p),
        vset[p.first()],
        forall|k: int|
            0 <= k < g.edges@.len() ==> (vset[(#[trigger] g.edges@[k]).source as int]
                ==> vset[g.edges@[k].sink as int]),
    ensures
        vset[p.last()],
    decreases p.len(),
{
    if p.len() > 1 {
        assert(g.edge(p[0], p[1]));
        let k = choose|k: int|
            0 <= k < g.edges@.len() && (#[trigger] g.edges@[k]).source == p[0]
                && g.edges@[k].sink == p[1];
        assert(vset[p[1]]);
        let q = p.skip(1);
        assert(q.first() == p[1]);
        assert(q.last() == p.last());
        assert forall|i: int| 0 <= i < q.len() - 1 implies g.edge(#[trigger] q[i], q[i + 1]) by {
            assert(q[i] == p[i + 1] && q[i + 1] == p[i + 2]);
        }
        assert(is_path(g, q));
        lemma_path_closed(g, vset, q);
    }
}

/// A set of nodes that contains every root and is closed under the graph's
/// edges contains everything reachable from the roots.
proof fn lemma_closed_contains_reachable(g: ScopeGraph, roots: Seq<usize>, vset: Seq<bool>, v: int)
    requires
        g.wf(),
        vset.len() == g.nodes@.len(),
        forall|i: int| 0 <= i < roots.len() ==> vset[(#[trigger] roots[i]) as int],
        forall|k: int|
            0 <= k < g.edges@.len() ==> (vset[(#[trigger] g.edges@[k]).source as int]
                ==> vset[g.edges@[k].sink as int]),
        reachable_from_any(g, roots, v),
    ensures
        vset[v],
{
    let r = choose|r: usize| #[trigger] roots.contains(r) && reachable_from(g, r as int, v);
    let i = choose|i: int| 0 <= i < roots.len() && roots[i] == r;
    assert(vset[r as int]);
    let p = choose|p: Seq<int>| is_path(g, p) && p.first() == r as int && p.last() == v;
    lemma_path_closed(g, vset, p);
}

/// The number of entries still false; the bound that makes the search below
/// terminate.
pub open spec fn count_unvisited(s: Seq<bool>) -> nat
    decreases s.len(),
{
    if s.len() == 0 {
        0
    } else {
        count_unvisited(s.drop_last()) + if s.last() {
            0nat
        } else {
            1nat
        }
    }
}

proof fn lemma_count_unvisited_update(s: Seq<bool>, i: int)
    requires
        0 <= i < s.len(),
        !s[i],
    ensures
        count_unvisited(s.update(i, true)) < count_unvisited(s),
    decreases s.len(),
{
    if i == s.len() - 1 {
        assert(s.update(i, true).drop_last() =~= s.drop_last());
        assert(s.update(i, true).last());
    } else {
        lemma_count_unvisited_update(s.drop_last(), i);
        assert(s.update(i, true).drop_last() =~= s.drop_last().update(i, true));
        assert(s.update(i, true).last() == s.last());
    }
}

/// Marks exactly the nodes reachable from `roots`: a depth-first search with
/// an explicit visited set, so that the walk also terminates on graphs with
/// accidental cycles.
pub fn reachable_set(g: &ScopeGraph, roots: &Vec<usize>) -> (visited: Vec<bool>)
    requires
        g.wf(),
        forall|i: int| 0 <= i < roots@.len() ==> (#[trigger] roots@[i]) < g.nodes@.len(),
    ensures
        visited@.len() == g.nodes@.len(),
        forall|v: int|
            0 <= v < g.nodes@.len() ==> ((#[trigger] visited@[v]) <==> reachable_from_any(
                *g,
                roots@,
                v,
            )),
{
    let n = g.nodes.len();
    let mut visited: Vec<bool> = Vec::new();
    let mut t: usize = 0;
    while t < n
        invariant
            visited@.len() == t,
            t <= n,
            forall|j: int| 0 <= j < t ==> !(#[trigger] visited@[j]),
        decreases n - t,
    {
        visited.push(false);
        t += 1;
    }
    let mut stack: Vec<usize> = Vec::new();
    let mut ri: usize = 0;
    while ri < roots.len()
        invariant
            g.wf(),
            n == g.nodes@.len(),
            visited@.len() == n,
            ri <= roots@.len(),
            forall|i: int| 0 <= i < roots@.len() ==> (#[trigger] roots@[i]) < n,
            forall|idx: int|
                0 <= idx < stack@.len() ==> (#[trigger] stack@[idx]) < n && visited@[stack@[idx] as int],
            forall|v: int| 0 <= v < n ==> ((#[trigger] visited@[v]) ==> stack@.contains(v as usize)),
            forall|v: int|
                0 <= v < n ==> ((#[trigger] visited@[v]) ==> reachable_from_any(*g, roots@, v)),
            forall|i: int| 0 <= i < ri ==> visited@[(#[trigger] roots@[i]) as int],
        decreases roots@.len() - ri,
    {
        let r = roots[ri];
        if !visited[r] {
            let ghost stack_pre = stack@;
            visited.set(r, true);
            stack.push(r);
            proof {
                lemma_reachable_refl(*g, r as int);
                assert(roots@.contains(r));
                assert(stack@[stack_pre.len() as int] == r);
                assert(stack@.contains(r));
                assert forall|x: usize| #[trigger] stack_pre.contains(x) implies stack@.contains(
                    x,
                ) by {
                    let idx = choose|idx: int| 0 <= idx < stack_pre.len() && stack_pre[idx] == x;
                    assert(stack@[idx] == x);
                }
            }
        }
        ri += 1;
    }
    while stack.len() > 0
        invariant
            g.wf(),
            n == g.nodes@.len(),
            visited@.len() == n,
            forall|i: int| 0 <= i < roots@.len() ==> (#[trigger] roots@[i]) < n,
            forall|idx: int|
                0 <= idx < stack@.len() ==> (#[trigger] stack@[idx]) < n && visited@[stack@[idx] as int],
            forall|v: int|
                0 <= v < n ==> ((#[trigger] visited@[v]) ==> reachable_from_any(*g, roots@, v)),
            forall|i: int| 0 <= i < roots@.len() ==> visited@[(#[trigger] roots@[i]) as int],
            forall|k: int|
                0 <= k < g.edges@.len() ==> ((visited@[(#[trigger] g.edges@[k]).source as int]
                    && !stack@.contains(g.edges@[k].source)) ==> visited@[g.edges@[k].sink as int]),
        decreases count_unvisited(visited@), stack@.len(),
    {
        let ghost visited0 = visited@;
        let ghost stack0 = stack@;
        let u = match stack.pop() {
            Some(u) => u,
            None => {
                proof {
                    assert(false);
                }
                0
            },
        };
        proof {
            assert(stack0.last() == u);
            assert(stack@ == stack0.subrange(0, stack0.len() - 1));
            assert forall|j: int|
                0 <= j < g.edges@.len() && visited@[(#[trigger] g.edges@[j]).source as int]
                    && !stack@.contains(g.edges@[j].source) && g.edges@[j].source
                    != u implies visited@[g.edges@[j].sink as int] by {
                let src = g.edges@[j].source;
                if stack0.contains(src) {
                    let idx = choose|idx: int| 0 <= idx < stack0.len() && stack0[idx] == src;
                    assert(idx < stack0.len() - 1);
                    assert(stack@[idx] == src);
                    assert(stack@.contains(src));
                }
            }
        }
        let mut k: usize = 0;
        while k < g.edges.len()
            invariant
                g.wf(),
                n == g.nodes@.len(),
                visited@.len() == n,
                k <= g.edges@.len(),
                u < n,
                visited@[u as int],
                forall|i: int| 0 <= i < roots@.len() ==> (#[trigger] roots@[i]) < n,
                forall|idx: int|
                    0 <= idx < stack@.len() ==> (#[trigger] stack@[idx]) < n && visited@[stack@[idx] as int],
                forall|v: int|
                    0 <= v < n ==> ((#[trigger] visited@[v]) ==> reachable_from_any(*g, roots@, v)),
                forall|i: int| 0 <= i < roots@.len() ==> visited@[(#[trigger] roots@[i]) as int],
                forall|j: int|
                    0 <= j < g.edges@.len() ==> ((visited@[(#[trigger] g.edges@[j]).source as int]
                        && !stack@.contains(g.edges@[j].source) && g.edges@[j].source != u)
                        ==> visited@[g.edges@[j].sink as int]),
                forall|j: int|
                    0 <= j < k ==> ((#[trigger] g.edges@[j]).source == u
                        ==> visited@[g.edges@[j].sink as int]),
                count_unvisited(visited@) <= count_unvisited(visited0),
                count_unvisited(visited@) == count_unvisited(visited0) ==> (visited@ == visited0
                    && stack@.len() == stack0.len() - 1),
            decreases g.edges@.len() - k,
        {
            let src = g.edges[k].source;
            let snk = g.edges[k].sink;
            if src == u {
                if !visited[snk] {
                    let ghost visited_pre = visited@;
                    let ghost stack_pre = stack@;
                    proof {
                        lemma_count_unvisited_update(visited@, snk as int);
                        let r0 = choose|r: usize|
                            #[trigger] roots@.contains(r) && reachable_from(*g, r as int, u as int);
                        lemma_reachable_step(*g, r0 as int, u as int, snk as int);
                    }
                    visited.set(snk, true);
                    stack.push(snk);
                    proof {
                        assert(stack@ == stack_pre.push(snk));
                        assert(stack@[stack_pre.len() as int] == snk);
                        assert(stack@.contains(snk));
                        assert forall|x: usize| #[trigger] stack_pre.contains(
                            x,
                        ) implies stack@.contains(x) by {
                            let idx = choose|idx: int|
                                0 <= idx < stack_pre.len() && stack_pre[idx] == x;
                            assert(stack@[idx] == x);
                        }
                    }
                }
            }
            k += 1;
        }
    }
    proof {
        assert forall|v: int|
            0 <= v < n && reachable_from_any(*g, roots@, v) implies visited@[v] by {
            lemma_closed_contains_reachable(*g, roots@, visited@, v);
        }
    }
    visited
}

} // verus!
