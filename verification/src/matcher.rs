//! The multi-segment traversal engine: locating root candidates and walking
//! qualified-name steps through the graph, with backtracking over every
//! matching branch.

use vstd::prelude::*;

use crate::graph::ScopeGraph;
use crate::search::part_views;
use crate::search::Search;
use crate::search::SearchPart;
use crate::search::SegView;
use crate::seqs::lemma_concat_contains;
use crate::seqs::lemma_push_contains;
use crate::strings::seq_views;
use crate::strings::split_dots;
use crate::strings::split_dotted;
use crate::strings::str_eq;

verus! {

/// The symbol text of node `v`, empty when the node carries none.
pub open spec fn node_symbol(g: ScopeGraph, v: int) -> Seq<char> {
    match g.nodes@[v].symbol {
        Some(s) => s@,
        None => Seq::<char>::empty(),
    }
}

/// One qualified-name step out of `v`: a direct edge to a non-connector
/// node, or a pair of edges passing through a connector node.
pub open spec fn spec_step(g: ScopeGraph, v: int, c: int) -> bool {
    ||| (g.edge(v, c) && !g.is_connector(c))
    ||| (exists|w: int|
        0 <= w < g.nodes@.len() && g.edge(v, w) && #[trigger] g.is_connector(w) && g.edge(w, c))
}

/// Edge `j` of the graph yields the step from `v` to `c`.
pub open spec fn step_by_edge(g: ScopeGraph, v: int, j: int, c: int) -> bool {
    &&& 0 <= j < g.edges@.len()
    &&& g.edges@[j].source == v
    &&& {
        ||| (g.edges@[j].sink == c && !g.is_connector(c as int))
        ||| (g.is_connector(g.edges@[j].sink as int) && g.edge(g.edges@[j].sink as int, c))
    }
}

/// Every part is accepted by the segment at its position.
pub open spec fn parts_match(segs: Seq<SegView>, parts: Seq<Seq<char>>) -> bool {
    forall|i: int| 0 <= i < parts.len() ==> segs[i].accepts(#[trigger] parts[i])
}

/// The traversal relation: `m` is a terminal match when walking from `v`
/// with the remaining segments `segs`. The node's own dotted symbol parts
/// must each be accepted by the leading segments; a node consuming every
/// remaining segment is the match itself, and a node consuming a strict,
/// non-empty prefix passes the rest on through each qualified-name step.
pub open spec fn spec_is_match(g: ScopeGraph, segs: Seq<SegView>, v: int, m: int) -> bool
    decreases segs.len(),
{
    if !(0 <= v < g.nodes@.len()) || !(g.nodes@[v].symbol is Some) {
        false
    } else {
        let parts = split_dots(node_symbol(g, v));
        &&& parts.len() <= segs.len()
        &&& parts_match(segs, parts)
        &&& if parts.len() == segs.len() {
            m == v
        } else if 1 <= parts.len() < segs.len() {
            exists|c: int|
                #[trigger] spec_step(g, v, c) && spec_is_match(
                    g,
                    segs.skip(parts.len() as int),
                    c,
                    m,
                )
        } else {
            false
        }
    }
}

/// The sinks that the first `upto` edges leaving connector `w` contribute,
/// in edge order.
pub open spec fn connector_targets_upto(g: ScopeGraph, w: int, upto: int) -> Seq<usize>
    decreases upto,
{
    if upto <= 0 {
        Seq::<usize>::empty()
    } else {
        let r = connector_targets_upto(g, w, upto - 1);
        if g.edges@[upto - 1].source == w {
            r.push(g.edges@[upto - 1].sink)
        } else {
            r
        }
    }
}

/// The ordered step targets contributed by the first `upto` edges out of
/// `v`: a non-connector sink directly, a connector's own sinks in its place.
pub open spec fn step_targets_upto(g: ScopeGraph, v: int, upto: int) -> Seq<usize>
    decreases upto,
{
    if upto <= 0 {
        Seq::<usize>::empty()
    } else {
        let r = step_targets_upto(g, v, upto - 1);
        if g.edges@[upto - 1].source == v {
            if g.is_connector(g.edges@[upto - 1].sink as int) {
                r + connector_targets_upto(g, g.edges@[upto - 1].sink as int, g.edges@.len() as int)
            } else {
                r.push(g.edges@[upto - 1].sink)
            }
        } else {
            r
        }
    }
}

/// The ordered qualified-name step targets out of `v`.
pub open spec fn step_targets(g: ScopeGraph, v: int) -> Seq<usize> {
    step_targets_upto(g, v, g.edges@.len() as int)
}

/// The ordered matches the traversal returns from `v` with the remaining
/// segments `segs`: the node itself when it consumes every segment, else
/// the concatenation, in step order, of what each step target returns.
pub open spec fn traverse_list(g: ScopeGraph, segs: Seq<SegView>, v: int) -> Seq<usize>
    decreases segs.len(), 0int, 0int,
{
    if !(0 <= v < g.nodes@.len()) || !(g.nodes@[v].symbol is Some) {
        Seq::<usize>::empty()
    } else {
        let parts = split_dots(node_symbol(g, v));
        if parts.len() > segs.len() || !parts_match(segs, parts) {
            Seq::<usize>::empty()
        } else if parts.len() == segs.len() {
            seq![v as usize]
        } else if 1 <= parts.len() {
            children_upto(
                g,
                segs.skip(parts.len() as int),
                step_targets(g, v),
                step_targets(g, v).len() as int,
            )
        } else {
            Seq::<usize>::empty()
        }
    }
}

/// The concatenated traversal results of the first `i` step targets.
pub open spec fn children_upto(g: ScopeGraph, segs: Seq<SegView>, cands: Seq<usize>, i: int) -> Seq<
    usize,
>
    decreases segs.len(), i, 1int,
{
    if i <= 0 {
        Seq::<usize>::empty()
    } else {
        children_upto(g, segs, cands, i - 1) + traverse_list(g, segs, cands[i - 1] as int)
    }
}

/// The ordered matches gathered from root candidates among the first `upto`
/// nodes.
pub open spec fn root_matches_upto(g: ScopeGraph, segs: Seq<SegView>, upto: int) -> Seq<usize>
    decreases upto,
{
    if upto <= 0 {
        Seq::<usize>::empty()
    } else {
        let r = root_matches_upto(g, segs, upto - 1);
        if spec_is_root(g, segs, upto - 1) {
            r + traverse_list(g, segs, upto - 1)
        } else {
            r
        }
    }
}

/// Every match of the multi-segment search, in discovery order.
pub open spec fn traversal_matches(g: ScopeGraph, segs: Seq<SegView>) -> Seq<usize> {
    root_matches_upto(g, segs, g.nodes@.len() as int)
}

/// Collects the qualified-name step targets out of `v`: the sink of each
/// outgoing edge, except that a sink whose symbol is the literal dot is
/// passed through to its own sinks instead.
fn next_candidates(g: &ScopeGraph, v: usize) -> (cands: Vec<usize>)
    requires
        g.wf(),
    ensures
        forall|i: int| 0 <= i < cands@.len() ==> (#[trigger] cands@[i]) < g.nodes@.len(),
        forall|c: usize| #[trigger] cands@.contains(c) <==> spec_step(*g, v as int, c as int),
        cands@ == step_targets(*g, v as int),
{
    let mut cands: Vec<usize> = Vec::new();
    let mut k: usize = 0;
    while k < g.edges.len()
        invariant
            g.wf(),
            k <= g.edges@.len(),
            cands@ == step_targets_upto(*g, v as int, k as int),
            forall|i: int|
                0 <= i < cands@.len() ==> (#[trigger] cands@[i]) < g.nodes@.len() && spec_step(
                    *g,
                    v as int,
                    cands@[i] as int,
                ),
            forall|j: int, c: usize|
                0 <= j < k && #[trigger] step_by_edge(*g, v as int, j, c as int)
                    ==> cands@.contains(c),
        decreases g.edges@.len() - k,
    {
        proof {
            reveal_strlit(".");
            assert("."@.len() == 1);
            assert("."@ =~= seq!['.']);
        }
        let src = g.edges[k].source;
        let snk = g.edges[k].sink;
        proof {
            assert(src == g.edges@[k as int].source);
            assert(snk == g.edges@[k as int].sink);
        }
        if src == v {
            let is_dot = match &g.nodes[snk].symbol {
                Some(s) => str_eq(s.as_str(), "."),
                None => false,
            };
            if is_dot {
                let mut k2: usize = 0;
                proof {
                    assert(cands@ =~= step_targets_upto(*g, v as int, k as int)
                        + connector_targets_upto(*g, snk as int, 0));
                }
                while k2 < g.edges.len()
                    invariant
                        g.wf(),
                        k < g.edges@.len(),
                        k2 <= g.edges@.len(),
                        src == v,
                        snk < g.nodes@.len(),
                        src == g.edges@[k as int].source,
                        snk == g.edges@[k as int].sink,
                        g.is_connector(snk as int),
                        cands@ == step_targets_upto(*g, v as int, k as int)
                            + connector_targets_upto(*g, snk as int, k2 as int),
                        forall|i: int|
                            0 <= i < cands@.len() ==> (#[trigger] cands@[i]) < g.nodes@.len()
                                && spec_step(*g, v as int, cands@[i] as int),
                        forall|j: int, c: usize|
                            0 <= j < k && #[trigger] step_by_edge(*g, v as int, j, c as int)
                                ==> cands@.contains(c),
                        forall|j2: int|
                            0 <= j2 < k2 && (#[trigger] g.edges@[j2]).source == snk
                                ==> cands@.contains(g.edges@[j2].sink),
                    decreases g.edges@.len() - k2,
                {
                    let src2 = g.edges[k2].source;
                    proof {
                        assert(src2 == g.edges@[k2 as int].source);
                    }
                    if src2 == snk {
                        let t = g.edges[k2].sink;
                        let ghost pre = cands@;
                        proof {
                            assert(t == g.edges@[k2 as int].sink);
                            assert(g.edge(v as int, snk as int));
                            assert(g.edge(snk as int, t as int));
                            assert(g.is_connector(snk as int));
                            assert(spec_step(*g, v as int, t as int));
                        }
                        cands.push(t);
                        proof {
                            lemma_push_contains(pre, t);
                        }
                    }
                    proof {
                        assert(cands@ =~= step_targets_upto(*g, v as int, k as int)
                            + connector_targets_upto(*g, snk as int, k2 + 1 as int));
                    }
                    k2 += 1;
                }
                proof {
                    assert(cands@ =~= step_targets_upto(*g, v as int, k + 1 as int));
                }
                proof {
                    assert forall|j: int, c: usize|
                        0 <= j < k + 1 && #[trigger] step_by_edge(
                            *g,
                            v as int,
                            j,
                            c as int,
                        ) implies cands@.contains(c) by {
                        if j == k {
                            assert(g.is_connector(snk as int));
                            assert(g.edge(snk as int, c as int));
                            let j2 = choose|j2: int|
                                0 <= j2 < g.edges@.len() && (#[trigger] g.edges@[j2]).source
                                    == snk as int && g.edges@[j2].sink == c as int;
                            assert(cands@.contains(g.edges@[j2].sink));
                        }
                    }
                }
            } else {
                let ghost pre = cands@;
                proof {
                    assert(!g.is_connector(snk as int));
                    assert(g.edge(v as int, snk as int));
                    assert(spec_step(*g, v as int, snk as int));
                }
                cands.push(snk);
                proof {
                    lemma_push_contains(pre, snk);
                    assert(cands@ =~= step_targets_upto(*g, v as int, k + 1 as int));
                    assert forall|j: int, c: usize|
                        0 <= j < k + 1 && #[trigger] step_by_edge(
                            *g,
                            v as int,
                            j,
                            c as int,
                        ) implies cands@.contains(c) by {
                        if j == k {
                            assert(c == snk);
                        }
                    }
                }
            }
        }
        proof {
            assert(cands@ == step_targets_upto(*g, v as int, k + 1 as int));
        }
        k += 1;
    }
    proof {
        assert forall|c: usize| #[trigger] cands@.contains(c) implies spec_step(
            *g,
            v as int,
            c as int,
        ) by {
            let i = choose|i: int| 0 <= i < cands@.len() && cands@[i] == c;
            assert(spec_step(*g, v as int, cands@[i] as int));
        }
        assert forall|c: usize| spec_step(*g, v as int, c as int) implies #[trigger] cands@.contains(
            c,
        ) by {
            if g.edge(v as int, c as int) && !g.is_connector(c as int) {
                let j = choose|j: int|
                    0 <= j < g.edges@.len() && (#[trigger] g.edges@[j]).source == v as int
                        && g.edges@[j].sink == c as int;
                assert(step_by_edge(*g, v as int, j, c as int));
            } else {
                let w = choose|w: int|
                    0 <= w < g.nodes@.len() && g.edge(v as int, w) && #[trigger] g.is_connector(w)
                        && g.edge(w, c as int);
                let j = choose|j: int|
                    0 <= j < g.edges@.len() && (#[trigger] g.edges@[j]).source == v as int
                        && g.edges@[j].sink == w;
                assert(step_by_edge(*g, v as int, j, c as int));
            }
        }
    }
    cands
}

/// Walks the graph from `v`, matching the query segments from position
/// `pos` onward, and returns every terminal match of the traversal
/// relation. Every matching branch is explored; nothing stops at the first
/// match.
pub fn traverse_tree(g: &ScopeGraph, segments: &Vec<SearchPart>, pos: usize, v: usize) -> (found:
    Vec<usize>)
    requires
        g.wf(),
        forall|i: int| 0 <= i < segments@.len() ==> (#[trigger] segments@[i])@.wf(),
        pos < segments@.len(),
        v < g.nodes@.len(),
    ensures
        forall|i: int| 0 <= i < found@.len() ==> (#[trigger] found@[i]) < g.nodes@.len(),
        forall|m: usize|
            #[trigger] found@.contains(m) <==> spec_is_match(
                *g,
                part_views(segments@).skip(pos as int),
                v as int,
                m as int,
            ),
        found@ == traverse_list(*g, part_views(segments@).skip(pos as int), v as int),
    decreases segments@.len() - pos,
{
    let ghost segs = part_views(segments@).skip(pos as int);
    let node = &g.nodes[v];
    let sym = match &node.symbol {
        None => {
            let r: Vec<usize> = Vec::new();
            return r;
        },
        Some(s) => s,
    };
    proof {
        assert(g.nodes@[v as int].symbol == Some(*sym));
        assert(node_symbol(*g, v as int) == sym@);
    }
    let sym_parts = split_dotted(sym.as_str());
    let ghost parts = split_dots(node_symbol(*g, v as int));
    proof {
        assert(seq_views(sym_parts@) == parts);
        assert(parts.len() == sym_parts@.len());
        assert(segs.len() == segments@.len() - pos);
    }
    let total = segments.len();
    let remaining = total - pos;
    if sym_parts.len() > remaining {
        let r: Vec<usize> = Vec::new();
        return r;
    }
    let mut i: usize = 0;
    while i < sym_parts.len()
        invariant
            g.wf(),
            v < g.nodes@.len(),
            forall|j: int| 0 <= j < segments@.len() ==> (#[trigger] segments@[j])@.wf(),
            pos < segments@.len(),
            total == segments@.len(),
            pos + sym_parts@.len() <= total,
            segs == part_views(segments@).skip(pos as int),
            parts == split_dots(node_symbol(*g, v as int)),
            seq_views(sym_parts@) == parts,
            sym_parts@.len() <= segs.len(),
            segs.len() == segments@.len() - pos,
            i <= sym_parts@.len(),
            forall|j: int| 0 <= j < i ==> segs[j].accepts(#[trigger] parts[j]),
        decreases sym_parts@.len() - i,
    {
        proof {
            assert(sym_parts@[i as int]@ == parts[i as int]);
            assert(segs[i as int] == part_views(segments@)[pos + i]);
            assert(segs[i as int] == segments@[pos + i]@);
        }
        if !segments[pos + i].matches(sym_parts[i].as_str()) {
            let r: Vec<usize> = Vec::new();
            proof {
                assert(!segs[i as int].accepts(parts[i as int]));
                assert(!parts_match(segs, parts));
            }
            return r;
        }
        i += 1;
    }
    proof {
        assert(parts_match(segs, parts));
    }
    if sym_parts.len() == remaining {
        let mut r: Vec<usize> = Vec::new();
        r.push(v);
        proof {
            assert(r@[0] == v);
            assert(r@.contains(v));
            assert forall|m: usize| #[trigger] r@.contains(m) implies m == v by {
                let ix = choose|ix: int| 0 <= ix < r@.len() && r@[ix] == m;
            }
            assert(r@ =~= traverse_list(*g, segs, v as int));
        }
        return r;
    }
    let cands = next_candidates(g, v);
    let newpos = pos + sym_parts.len();
    let ghost subsegs = segs.skip(sym_parts@.len() as int);
    proof {
        assert(part_views(segments@).skip(newpos as int) =~= subsegs);
    }
    let mut found: Vec<usize> = Vec::new();
    let mut ci: usize = 0;
    while ci < cands.len()
        invariant
            g.wf(),
            v < g.nodes@.len(),
            forall|j: int| 0 <= j < segments@.len() ==> (#[trigger] segments@[j])@.wf(),
            newpos < segments@.len(),
            newpos == pos + sym_parts@.len(),
            pos < newpos,
            subsegs == part_views(segments@).skip(newpos as int),
            forall|i2: int| 0 <= i2 < cands@.len() ==> (#[trigger] cands@[i2]) < g.nodes@.len(),
            forall|c: usize| #[trigger] cands@.contains(c) <==> spec_step(*g, v as int, c as int),
            ci <= cands@.len(),
            cands@ == step_targets(*g, v as int),
            found@ == children_upto(*g, subsegs, cands@, ci as int),
            forall|i2: int| 0 <= i2 < found@.len() ==> (#[trigger] found@[i2]) < g.nodes@.len(),
            forall|m: usize|
                #[trigger] found@.contains(m) <==> exists|j: int|
                    0 <= j < ci && spec_is_match(
                        *g,
                        subsegs,
                        (#[trigger] cands@[j]) as int,
                        m as int,
                    ),
        decreases cands@.len() - ci,
    {
        let mut sub = traverse_tree(g, segments, newpos, cands[ci]);
        let ghost pre = found@;
        let ghost subv = sub@;
        found.append(&mut sub);
        proof {
            lemma_concat_contains(pre, subv);
            assert(found@ == pre + subv);
            assert(subv == traverse_list(*g, subsegs, cands@[ci as int] as int));
            assert(found@ == children_upto(*g, subsegs, cands@, ci + 1 as int));
            assert forall|m: usize| #[trigger] found@.contains(m) implies exists|j: int|
                0 <= j < ci + 1 && spec_is_match(
                    *g,
                    subsegs,
                    (#[trigger] cands@[j]) as int,
                    m as int,
                ) by {
                if pre.contains(m) {
                    let j = choose|j: int|
                        0 <= j < ci && spec_is_match(
                            *g,
                            subsegs,
                            (#[trigger] cands@[j]) as int,
                            m as int,
                        );
                    assert(0 <= j < ci + 1 && spec_is_match(
                        *g,
                        subsegs,
                        cands@[j] as int,
                        m as int,
                    ));
                } else {
                    assert(subv.contains(m));
                    assert(spec_is_match(*g, subsegs, cands@[ci as int] as int, m as int));
                }
            }
            assert forall|m: usize|
                (exists|j: int|
                    0 <= j < ci + 1 && spec_is_match(
                        *g,
                        subsegs,
                        (#[trigger] cands@[j]) as int,
                        m as int,
                    )) implies #[trigger] found@.contains(m) by {
                let j = choose|j: int|
                    0 <= j < ci + 1 && spec_is_match(
                        *g,
                        subsegs,
                        (#[trigger] cands@[j]) as int,
                        m as int,
                    );
                if j == ci {
                    assert(subv.contains(m));
                } else {
                    assert(pre.contains(m));
                }
            }
        }
        ci += 1;
    }
    proof {
        assert forall|m: usize| #[trigger] found@.contains(m) implies spec_is_match(
            *g,
            segs,
            v as int,
            m as int,
        ) by {
            let j = choose|j: int|
                0 <= j < cands@.len() && spec_is_match(
                    *g,
                    subsegs,
                    (#[trigger] cands@[j]) as int,
                    m as int,
                );
            assert(cands@.contains(cands@[j]));
            assert(spec_step(*g, v as int, cands@[j] as int));
            assert(1 <= parts.len() < segs.len());
            assert(subsegs == segs.skip(parts.len() as int));
        }
        assert(found@ == traverse_list(*g, segs, v as int));
        assert forall|m: usize| spec_is_match(*g, segs, v as int, m as int) implies #[trigger] found@.contains(
            m,
        ) by {
            assert(parts.len() < segs.len());
            let c = choose|c: int|
                #[trigger] spec_step(*g, v as int, c) && spec_is_match(
                    *g,
                    segs.skip(parts.len() as int),
                    c,
                    m as int,
                );
            assert(spec_is_match(*g, subsegs, c, m as int));
            assert(0 <= c < g.nodes@.len());
            assert(cands@.contains(c as usize));
            let j = choose|j: int| 0 <= j < cands@.len() && cands@[j] == c as usize;
            assert(spec_is_match(*g, subsegs, cands@[j] as int, m as int));
        }
    }
    found
}


/// A node eligible to start the traversal for `segs`: its symbol is present
/// and accepted by the first segment as a whole; a single-segment query
/// requires a reference-role node; a multi-segment query requires an
/// outgoing edge to a connector node and an incoming-edge degree of zero.
pub open spec fn spec_is_root(g: ScopeGraph, segs: Seq<SegView>, v: int) -> bool {
    &&& 0 <= v < g.nodes@.len()
    &&& g.nodes@[v].symbol is Some
    &&& segs[0].accepts(node_symbol(g, v))
    &&& (segs.len() == 1 ==> g.nodes@[v].is_reference)
    &&& (segs.len() > 1 ==> ((exists|w: int|
        0 <= w < g.nodes@.len() && g.edge(v, w) && #[trigger] g.is_connector(w))
        && g.in_degree_zero(v)))
}

/// Root selection: a node that any edge points into, whatever its symbol,
/// is never chosen as a traversal root for a multi-segment query.
pub proof fn lemma_incoming_never_root(g: ScopeGraph, segs: Seq<SegView>, v: int, k: int)
    requires
        segs.len() > 1,
        0 <= k < g.edges@.len(),
        g.edges@[k].sink == v,
    ensures
        !spec_is_root(g, segs, v),
{
    assert(!g.in_degree_zero(v)) by {
        assert(g.edges@[k].sink == v);
    }
}

/// Whether `v` has an outgoing edge whose sink is a connector node.
fn has_connector_edge(g: &ScopeGraph, v: usize) -> (r: bool)
    requires
        g.wf(),
    ensures
        r == exists|w: int|
            0 <= w < g.nodes@.len() && g.edge(v as int, w) && #[trigger] g.is_connector(w),
{
    let mut k: usize = 0;
    while k < g.edges.len()
        invariant
            g.wf(),
            k <= g.edges@.len(),
            forall|j: int|
                0 <= j < k ==> !((#[trigger] g.edges@[j]).source == v && g.is_connector(
                    g.edges@[j].sink as int,
                )),
        decreases g.edges@.len() - k,
    {
        proof {
            reveal_strlit(".");
            assert("."@.len() == 1);
            assert("."@ =~= seq!['.']);
        }
        let src = g.edges[k].source;
        let snk = g.edges[k].sink;
        proof {
            assert(src == g.edges@[k as int].source);
            assert(snk == g.edges@[k as int].sink);
        }
        if src == v {
            let is_dot = match &g.nodes[snk].symbol {
                Some(s) => str_eq(s.as_str(), "."),
                None => false,
            };
            if is_dot {
                proof {
                    assert(g.edge(v as int, snk as int));
                    assert(g.is_connector(snk as int));
                }
                return true;
            }
        }
        k += 1;
    }
    proof {
        if exists|w: int|
            0 <= w < g.nodes@.len() && g.edge(v as int, w) && #[trigger] g.is_connector(w) {
            let w = choose|w: int|
                0 <= w < g.nodes@.len() && g.edge(v as int, w) && #[trigger] g.is_connector(w);
            let j = choose|j: int|
                0 <= j < g.edges@.len() && (#[trigger] g.edges@[j]).source == v as int
                    && g.edges@[j].sink == w;
            assert(false);
        }
    }
    false
}

/// Decides whether node `v` may start the traversal for this query.
pub fn is_root_candidate(g: &ScopeGraph, search: &Search, v: usize) -> (r: bool)
    requires
        g.wf(),
        search.wf(),
        v < g.nodes@.len(),
    ensures
        r == spec_is_root(*g, search@, v as int),
{
    let node = &g.nodes[v];
    let sym = match &node.symbol {
        None => {
            return false;
        },
        Some(s) => s,
    };
    proof {
        assert(g.nodes@[v as int].symbol == Some(*sym));
        assert(node_symbol(*g, v as int) == sym@);
        assert(search@[0] == search.parts@[0]@);
        assert(search@[0].wf());
    }
    if !search.parts[0].matches(sym.as_str()) {
        return false;
    }
    if search.parts.len() == 1 {
        return node.is_reference;
    }
    if !g.has_no_incoming(v) {
        return false;
    }
    has_connector_edge(g, v)
}

/// Runs the multi-segment search: every node eligible as a root starts a
/// traversal, and all terminal matches are collected together.
pub fn find_symbol_matches(g: &ScopeGraph, search: &Search) -> (found: Vec<usize>)
    requires
        g.wf(),
        search.wf(),
    ensures
        forall|i: int| 0 <= i < found@.len() ==> (#[trigger] found@[i]) < g.nodes@.len(),
        forall|m: usize|
            #[trigger] found@.contains(m) <==> exists|v: int|
                #[trigger] spec_is_root(*g, search@, v) && spec_is_match(
                    *g,
                    search@,
                    v,
                    m as int,
                ),
        found@ == traversal_matches(*g, search@),
{
    let mut found: Vec<usize> = Vec::new();
    let mut v: usize = 0;
    while v < g.nodes.len()
        invariant
            g.wf(),
            search.wf(),
            v <= g.nodes@.len(),
            found@ == root_matches_upto(*g, search@, v as int),
            forall|i2: int| 0 <= i2 < found@.len() ==> (#[trigger] found@[i2]) < g.nodes@.len(),
            forall|m: usize|
                #[trigger] found@.contains(m) <==> exists|vv: int|
                    0 <= vv < v && #[trigger] spec_is_root(*g, search@, vv) && spec_is_match(
                        *g,
                        search@,
                        vv,
                        m as int,
                    ),
        decreases g.nodes@.len() - v,
    {
        if is_root_candidate(g, search, v) {
            proof {
                assert forall|i: int|
                    0 <= i < search.parts@.len() implies (#[trigger] search.parts@[i])@.wf() by {
                    assert(search@[i] == search.parts@[i]@);
                }
            }
            let mut sub = traverse_tree(g, &search.parts, 0, v);
            let ghost pre = found@;
            let ghost subv = sub@;
            proof {
                assert(part_views(search.parts@).skip(0) =~= search@);
            }
            found.append(&mut sub);
            proof {
                lemma_concat_contains(pre, subv);
                assert(found@ == pre + subv);
                assert(subv == traverse_list(*g, search@, v as int));
                assert(found@ == root_matches_upto(*g, search@, v + 1 as int));
                assert forall|m: usize| #[trigger] found@.contains(m) implies exists|vv: int|
                    0 <= vv < v + 1 && #[trigger] spec_is_root(*g, search@, vv) && spec_is_match(
                        *g,
                        search@,
                        vv,
                        m as int,
                    ) by {
                    if pre.contains(m) {
                        let vv = choose|vv: int|
                            0 <= vv < v && #[trigger] spec_is_root(*g, search@, vv)
                                && spec_is_match(*g, search@, vv, m as int);
                        assert(0 <= vv < v + 1 && spec_is_root(*g, search@, vv) && spec_is_match(
                            *g,
                            search@,
                            vv,
                            m as int,
                        ));
                    } else {
                        assert(subv.contains(m));
                        assert(spec_is_root(*g, search@, v as int) && spec_is_match(
                            *g,
                            search@,
                            v as int,
                            m as int,
                        ));
                    }
                }
                assert forall|m: usize|
                    (exists|vv: int|
                        0 <= vv < v + 1 && #[trigger] spec_is_root(*g, search@, vv)
                            && spec_is_match(
                            *g,
                            search@,
                            vv,
                            m as int,
                        )) implies #[trigger] found@.contains(m) by {
                    let vv = choose|vv: int|
                        0 <= vv < v + 1 && #[trigger] spec_is_root(*g, search@, vv)
                            && spec_is_match(*g, search@, vv, m as int);
                    if vv == v {
                        assert(subv.contains(m));
                    } else {
                        assert(pre.contains(m));
                    }
                }
            }
        } else {
            proof {
                assert(found@ == root_matches_upto(*g, search@, v + 1 as int));
                assert forall|m: usize|
                    (exists|vv: int|
                        0 <= vv < v + 1 && #[trigger] spec_is_root(*g, search@, vv)
                            && spec_is_match(
                            *g,
                            search@,
                            vv,
                            m as int,
                        )) implies #[trigger] found@.contains(m) by {
                    let vv = choose|vv: int|
                        0 <= vv < v + 1 && #[trigger] spec_is_root(*g, search@, vv)
                            && spec_is_match(*g, search@, vv, m as int);
                    assert(vv != v);
                }
            }
        }
        v += 1;
    }
    found
}

} // verus!
