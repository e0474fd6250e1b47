//! The namespace index: walking namespace-declaration subtrees and
//! classifying the symbols found there into classes, fields and methods.

use vstd::prelude::*;

use crate::graph::reachable_from_any;
use crate::graph::reachable_set;
use crate::graph::ScopeGraph;
use crate::strings::str_eq;

verus! {

broadcast use vstd::string::group_string_axioms;

/// A node that the namespace walk records under `tag`: the sink of an edge
/// whose source is reachable from one of the given roots, carrying both a
/// symbol and that syntax-type tag.
pub open spec fn ns_recorded(g: ScopeGraph, roots: Seq<usize>, v: int, tag: Seq<char>) -> bool {
    &&& exists|k: int|
        0 <= k < g.edges@.len() && (#[trigger] g.edges@[k]).sink == v && reachable_from_any(
            g,
            roots,
            g.edges@[k].source as int,
        )
    &&& 0 <= v < g.nodes@.len()
    &&& g.nodes@[v].symbol is Some
    &&& g.tag_is(v, tag)
}

/// Whether a name table holds an entry under `name`.
pub open spec fn table_contains(t: Seq<(String, usize)>, name: Seq<char>) -> bool {
    exists|i: int| 0 <= i < t.len() && (#[trigger] t[i]).0.view() == name
}

/// Whether a name table holds the exact entry pairing `name` with node `v`.
pub open spec fn table_has_pair(t: Seq<(String, usize)>, name: Seq<char>, v: int) -> bool {
    exists|i: int| 0 <= i < t.len() && (#[trigger] t[i]).0.view() == name && t[i].1 == v
}

/// The symbols declared under one or more namespace-declaration subtrees,
/// split into the three membership classes. Built fresh for each query.
pub struct NamespaceSymbols {
    pub classes: Vec<(String, usize)>,
    pub class_fields: Vec<(String, usize)>,
    pub class_methods: Vec<(String, usize)>,
}

impl NamespaceSymbols {
    /// Whether `name` appears in any of the three tables.
    pub open spec fn spec_contains(self, name: Seq<char>) -> bool {
        ||| table_contains(self.classes@, name)
        ||| table_contains(self.class_fields@, name)
        ||| table_contains(self.class_methods@, name)
    }

    /// Walks every edge leaving the subtrees rooted at `nodes` and records
    /// each sink that carries a symbol and a `class-def` or `method_name`
    /// tag. No tag currently populates the field table. A root with no
    /// matching descendants simply contributes nothing.
    pub fn new(g: &ScopeGraph, nodes: Vec<usize>) -> (r: NamespaceSymbols)
        requires
            g.wf(),
            forall|i: int| 0 <= i < nodes@.len() ==> (#[trigger] nodes@[i]) < g.nodes@.len(),
        ensures
            forall|name: Seq<char>|
                #[trigger] table_contains(r.classes@, name) <==> (exists|v: int|
                    ns_recorded(*g, nodes@, v, "class-def"@) && #[trigger] g.symbol_is(v, name)),
            forall|name: Seq<char>|
                #[trigger] table_contains(r.class_methods@, name) <==> (exists|v: int|
                    ns_recorded(*g, nodes@, v, "method_name"@) && #[trigger] g.symbol_is(v, name)),
            forall|name: Seq<char>, v: int|
                #[trigger] table_has_pair(r.classes@, name, v) <==> (ns_recorded(
                    *g,
                    nodes@,
                    v,
                    "class-def"@,
                ) && g.symbol_is(v, name)),
            forall|name: Seq<char>, v: int|
                #[trigger] table_has_pair(r.class_methods@, name, v) <==> (ns_recorded(
                    *g,
                    nodes@,
                    v,
                    "method_name"@,
                ) && g.symbol_is(v, name)),
            r.class_fields@.len() == 0,
    {
        let visited = reachable_set(g, &nodes);
        let mut classes: Vec<(String, usize)> = Vec::new();
        let mut class_fields: Vec<(String, usize)> = Vec::new();
        let mut class_methods: Vec<(String, usize)> = Vec::new();
        let mut k: usize = 0;
        while k < g.edges.len()
            invariant
                g.wf(),
                visited@.len() == g.nodes@.len(),
                forall|v: int|
                    0 <= v < g.nodes@.len() ==> ((#[trigger] visited@[v]) <==> reachable_from_any(
                        *g,
                        nodes@,
                        v,
                    )),
                k <= g.edges@.len(),
                class_fields@.len() == 0,
                forall|i: int|
                    0 <= i < classes@.len() ==> ns_recorded(
                        *g,
                        nodes@,
                        (#[trigger] classes@[i]).1 as int,
                        "class-def"@,
                    ) && g.symbol_is(classes@[i].1 as int, classes@[i].0.view()),
                forall|i: int|
                    0 <= i < class_methods@.len() ==> ns_recorded(
                        *g,
                        nodes@,
                        (#[trigger] class_methods@[i]).1 as int,
                        "method_name"@,
                    ) && g.symbol_is(class_methods@[i].1 as int, class_methods@[i].0.view()),
                forall|j: int, name: Seq<char>|
                    0 <= j < k && #[trigger] recorded_by_edge(*g, nodes@, j, "class-def"@, name)
                        ==> table_contains(classes@, name),
                forall|j: int, name: Seq<char>|
                    0 <= j < k && #[trigger] recorded_by_edge(*g, nodes@, j, "method_name"@, name)
                        ==> table_contains(class_methods@, name),
                forall|j: int, name: Seq<char>|
                    0 <= j < k && #[trigger] recorded_by_edge(*g, nodes@, j, "class-def"@, name)
                        ==> table_has_pair(classes@, name, g.edges@[j].sink as int),
                forall|j: int, name: Seq<char>|
                    0 <= j < k && #[trigger] recorded_by_edge(*g, nodes@, j, "method_name"@, name)
                        ==> table_has_pair(class_methods@, name, g.edges@[j].sink as int),
            decreases g.edges@.len() - k,
        {
            let src = g.edges[k].source;
            let snk = g.edges[k].sink;
            if visited[src] {
                let node = &g.nodes[snk];
                match (&node.symbol, &node.syntax_type) {
                    (Some(sym), Some(tag)) => {
                        proof {
                            assert(g.nodes@[snk as int].symbol == Some(*sym));
                            assert(g.nodes@[snk as int].syntax_type == Some(*tag));
                        }
                        if str_eq(tag.as_str(), "method_name") {
                            let ghost pre = class_methods@;
                            class_methods.push((sym.clone(), snk));
                            proof {
                                lemma_table_push(pre, class_methods@.last());
                            }
                        } else if str_eq(tag.as_str(), "class-def") {
                            let ghost pre = classes@;
                            classes.push((sym.clone(), snk));
                            proof {
                                lemma_table_push(pre, classes@.last());
                            }
                        }
                    },
                    _ => {},
                }
            }
            proof {
                reveal_strlit("method_name");
                reveal_strlit("class-def");
                assert("method_name"@.len() == 11);
                assert("class-def"@.len() == 9);
                assert("method_name"@ != "class-def"@);
                assert forall|j: int, name: Seq<char>|
                    0 <= j < k + 1 && #[trigger] recorded_by_edge(
                        *g,
                        nodes@,
                        j,
                        "class-def"@,
                        name,
                    ) implies table_contains(classes@, name) by {
                    if j == k {
                        assert(visited@[g.edges@[j].source as int]);
                        assert(g.nodes@[g.edges@[j].sink as int].symbol is Some);
                        assert(g.tag_is(g.edges@[j].sink as int, "class-def"@));
                        assert(table_contains(classes@, name));
                    }
                }
                assert forall|j: int, name: Seq<char>|
                    0 <= j < k + 1 && #[trigger] recorded_by_edge(
                        *g,
                        nodes@,
                        j,
                        "method_name"@,
                        name,
                    ) implies table_contains(class_methods@, name) by {
                    if j == k {
                        assert(visited@[g.edges@[j].source as int]);
                        assert(table_contains(class_methods@, name));
                    }
                }
                assert forall|j: int, name: Seq<char>|
                    0 <= j < k + 1 && #[trigger] recorded_by_edge(
                        *g,
                        nodes@,
                        j,
                        "class-def"@,
                        name,
                    ) implies table_has_pair(classes@, name, g.edges@[j].sink as int) by {
                    if j == k {
                        assert(visited@[g.edges@[j].source as int]);
                        assert(table_has_pair(classes@, name, g.edges@[j].sink as int));
                    }
                }
                assert forall|j: int, name: Seq<char>|
                    0 <= j < k + 1 && #[trigger] recorded_by_edge(
                        *g,
                        nodes@,
                        j,
                        "method_name"@,
                        name,
                    ) implies table_has_pair(class_methods@, name, g.edges@[j].sink as int) by {
                    if j == k {
                        assert(visited@[g.edges@[j].source as int]);
                        assert(table_has_pair(class_methods@, name, g.edges@[j].sink as int));
                    }
                }
            }
            k += 1;
        }
        proof {
            assert forall|name: Seq<char>|
                (exists|v: int|
                    ns_recorded(*g, nodes@, v, "class-def"@) && #[trigger] g.symbol_is(
                        v,
                        name,
                    )) implies #[trigger] table_contains(classes@, name) by {
                let v = choose|v: int|
                    ns_recorded(*g, nodes@, v, "class-def"@) && g.symbol_is(v, name);
                let j = choose|j: int|
                    0 <= j < g.edges@.len() && (#[trigger] g.edges@[j]).sink == v
                        && reachable_from_any(*g, nodes@, g.edges@[j].source as int);
                assert(recorded_by_edge(*g, nodes@, j, "class-def"@, name));
            }
            assert forall|name: Seq<char>|
                (exists|v: int|
                    ns_recorded(*g, nodes@, v, "method_name"@) && #[trigger] g.symbol_is(
                        v,
                        name,
                    )) implies #[trigger] table_contains(class_methods@, name) by {
                let v = choose|v: int|
                    ns_recorded(*g, nodes@, v, "method_name"@) && g.symbol_is(v, name);
                let j = choose|j: int|
                    0 <= j < g.edges@.len() && (#[trigger] g.edges@[j]).sink == v
                        && reachable_from_any(*g, nodes@, g.edges@[j].source as int);
                assert(recorded_by_edge(*g, nodes@, j, "method_name"@, name));
            }
            assert forall|name: Seq<char>, v: int|
                ns_recorded(*g, nodes@, v, "class-def"@) && g.symbol_is(
                    v,
                    name,
                ) implies #[trigger] table_has_pair(classes@, name, v) by {
                let j = choose|j: int|
                    0 <= j < g.edges@.len() && (#[trigger] g.edges@[j]).sink == v
                        && reachable_from_any(*g, nodes@, g.edges@[j].source as int);
                assert(recorded_by_edge(*g, nodes@, j, "class-def"@, name));
                assert(table_has_pair(classes@, name, g.edges@[j].sink as int));
            }
            assert forall|name: Seq<char>, v: int|
                ns_recorded(*g, nodes@, v, "method_name"@) && g.symbol_is(
                    v,
                    name,
                ) implies #[trigger] table_has_pair(class_methods@, name, v) by {
                let j = choose|j: int|
                    0 <= j < g.edges@.len() && (#[trigger] g.edges@[j]).sink == v
                        && reachable_from_any(*g, nodes@, g.edges@[j].source as int);
                assert(recorded_by_edge(*g, nodes@, j, "method_name"@, name));
                assert(table_has_pair(class_methods@, name, g.edges@[j].sink as int));
            }
            assert forall|name: Seq<char>, v: int| #[trigger] table_has_pair(
                classes@,
                name,
                v,
            ) implies ns_recorded(*g, nodes@, v, "class-def"@) && g.symbol_is(v, name) by {
                let i = choose|i: int|
                    0 <= i < classes@.len() && (#[trigger] classes@[i]).0.view() == name
                        && classes@[i].1 == v;
            }
            assert forall|name: Seq<char>, v: int| #[trigger] table_has_pair(
                class_methods@,
                name,
                v,
            ) implies ns_recorded(*g, nodes@, v, "method_name"@) && g.symbol_is(v, name) by {
                let i = choose|i: int|
                    0 <= i < class_methods@.len() && (#[trigger] class_methods@[i]).0.view() == name
                        && class_methods@[i].1 == v;
            }
        }
        NamespaceSymbols { classes, class_fields, class_methods }
    }

    /// Whether `symbol` names a class, field or method of the indexed
    /// namespaces.
    pub fn symbol_in_namespace(&self, symbol: &str) -> (r: bool)
        ensures
            r == self.spec_contains(symbol@),
    {
        let class_match = table_lookup(&self.classes, symbol);
        let method_match = table_lookup(&self.class_methods, symbol);
        let field_match = table_lookup(&self.class_fields, symbol);
        if class_match || method_match || field_match {
            return true;
        }
        false
    }
}

/// Edge `j` makes the walk record its sink under `tag` with symbol `name`.
pub open spec fn recorded_by_edge(
    g: ScopeGraph,
    roots: Seq<usize>,
    j: int,
    tag: Seq<char>,
    name: Seq<char>,
) -> bool {
    &&& 0 <= j < g.edges@.len()
    &&& reachable_from_any(g, roots, g.edges@[j].source as int)
    &&& g.nodes@[g.edges@[j].sink as int].symbol is Some
    &&& g.tag_is(g.edges@[j].sink as int, tag)
    &&& g.symbol_is(g.edges@[j].sink as int, name)
}

proof fn lemma_table_push(pre: Seq<(String, usize)>, entry: (String, usize))
    ensures
        table_contains(pre.push(entry), entry.0.view()),
        table_has_pair(pre.push(entry), entry.0.view(), entry.1 as int),
        forall|name: Seq<char>|
            #[trigger] table_contains(pre, name) ==> table_contains(pre.push(entry), name),
        forall|name: Seq<char>, v: int|
            #[trigger] table_has_pair(pre, name, v) ==> table_has_pair(pre.push(entry), name, v),
{
    let t = pre.push(entry);
    assert(t[pre.len() as int].0.view() == entry.0.view());
    assert(t[pre.len() as int].1 == entry.1);
    assert forall|name: Seq<char>| #[trigger] table_contains(pre, name) implies table_contains(
        t,
        name,
    ) by {
        let i = choose|i: int| 0 <= i < pre.len() && (#[trigger] pre[i]).0.view() == name;
        assert(t[i].0.view() == name);
    }
    assert forall|name: Seq<char>, v: int| #[trigger] table_has_pair(
        pre,
        name,
        v,
    ) implies table_has_pair(t, name, v) by {
        let i = choose|i: int|
            0 <= i < pre.len() && (#[trigger] pre[i]).0.view() == name && pre[i].1 == v;
        assert(t[i].0.view() == name && t[i].1 == v);
    }
}

/// Linear scan of one name table.
fn table_lookup(t: &Vec<(String, usize)>, name: &str) -> (r: bool)
    ensures
        r == table_contains(t@, name@),
{
    let mut i: usize = 0;
    while i < t.len()
        invariant
            i <= t@.len(),
            forall|j: int| 0 <= j < i ==> (#[trigger] t@[j]).0.view() != name@,
        decreases t@.len() - i,
    {
        if str_eq(t[i].0.as_str(), name) {
            return true;
        }
        i += 1;
    }
    false
}

} // verus!
