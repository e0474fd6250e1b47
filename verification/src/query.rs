//! The query engine's entry point: parsing the query, scanning the graph in
//! one of its two modes, and collecting location-bearing results.

use vstd::prelude::*;

use crate::graph::reachable_from;
use crate::graph::reachable_from_any;
use crate::graph::reachable_set;
use crate::graph::ScopeGraph;
use crate::matcher::find_symbol_matches;
use crate::matcher::node_symbol;
use crate::matcher::spec_is_match;
use crate::matcher::spec_is_root;
use crate::matcher::traversal_matches;
use crate::namespace::ns_recorded;
use crate::namespace::table_contains;
use crate::namespace::NamespaceSymbols;
use crate::results::result_views;
use crate::results::Location;
use crate::results::Position;
use crate::results::QueryResult;
use crate::results::QueryResultView;
use crate::search::part_rejected;
use crate::search::spec_all_references;
use crate::search::spec_match_namespace;
use crate::search::spec_parse;
use crate::search::spec_parse_ok;
use crate::search::spec_partial_namespace;
use crate::search::PatternError;
use crate::search::Search;
use crate::search::SegView;
use crate::seqs::lemma_push_contains;
use crate::strings::split_dots;
use crate::strings::str_eq;

verus! {

/// The URL text that the `file` scheme gives an absolute on-disk path. It
/// depends on the path text alone.
pub uninterp spec fn uri_of_path(p: Seq<char>) -> Seq<char>;

/// Relies on `url::Url::from_file_path` and `Url::as_str`: conversion
/// succeeds exactly on absolute paths (those beginning with `/` on this
/// platform), and the resulting URL text is a function of the path text
/// alone.
#[verifier::external_body]
fn file_uri(path: &str) -> (r: Option<String>)
    ensures
        (r is Some) == (path@.len() > 0 && path@[0] == '/'),
        r matches Some(u) ==> u@ == uri_of_path(path@),
{
    url::Url::from_file_path(path).ok().map(|u| u.as_str().to_string())
}

/// The source span recorded for node `v`, or a zeroed span when it has none.
pub open spec fn spec_span(g: ScopeGraph, v: int) -> Location {
    match g.nodes@[v].span {
        Some(l) => l,
        None => Location {
            start_position: Position { line: 0, character: 0 },
            end_position: Position { line: 0, character: 0 },
        },
    }
}

/// The result built for node `v` under the file URI `uri`.
pub open spec fn result_view_for(g: ScopeGraph, v: int, uri: Seq<char>) -> QueryResultView {
    QueryResultView {
        file_uri: uri,
        line_number: spec_span(g, v).start_position.line as nat,
        variables: Seq::empty(),
        code_location: spec_span(g, v),
    }
}

/// Node `v` is a compilation-unit node owned by file `f`.
pub open spec fn is_compunit_for(g: ScopeGraph, v: int, f: int) -> bool {
    &&& 0 <= v < g.nodes@.len()
    &&& g.nodes@[v].symbol is Some
    &&& g.tag_is(v, "comp-unit"@)
    &&& g.nodes@[v].file matches Some(ff) && ff == f
}

/// The last compilation-unit node for `f` among the first `upto` nodes; a
/// later one supersedes an earlier one, as a rescan overwrites its slot.
pub open spec fn last_compunit_before(g: ScopeGraph, f: int, upto: int) -> Option<int>
    decreases upto,
{
    if upto <= 0 {
        None
    } else if is_compunit_for(g, upto - 1, f) {
        Some(upto - 1)
    } else {
        last_compunit_before(g, f, upto - 1)
    }
}

/// The compilation-unit node the scan associates with file `f`.
pub open spec fn compunit_of(g: ScopeGraph, f: int) -> Option<int> {
    last_compunit_before(g, f, g.nodes@.len() as int)
}

/// A table slot widened to the index domain.
pub open spec fn opt_as_int(o: Option<usize>) -> Option<int> {
    match o {
        Some(x) => Some(x as int),
        None => None,
    }
}

proof fn lemma_last_compunit_bounds(g: ScopeGraph, f: int, upto: int)
    ensures
        last_compunit_before(g, f, upto) matches Some(c) ==> 0 <= c < upto,
    decreases upto,
{
    if upto > 0 {
        lemma_last_compunit_bounds(g, f, upto - 1);
    }
}

/// Node `v` is an import owned by file `f` whose symbol partially matches
/// the query.
pub open spec fn import_for(g: ScopeGraph, segs: Seq<SegView>, v: int, f: int) -> bool {
    &&& 0 <= v < g.nodes@.len()
    &&& g.nodes@[v].symbol is Some
    &&& g.tag_is(v, "import"@)
    &&& spec_partial_namespace(segs, node_symbol(g, v))
    &&& g.nodes@[v].file matches Some(ff) && ff == f
}

/// Some import node puts file `f` among the referenced files.
pub open spec fn file_referenced(g: ScopeGraph, segs: Seq<SegView>, f: int) -> bool {
    exists|v: int| import_for(g, segs, v, f)
}

/// Node `v` is a namespace declaration whose symbol fully matches the query
/// prefix: a definition root.
pub open spec fn nsdecl_matches(g: ScopeGraph, segs: Seq<SegView>, v: int) -> bool {
    &&& 0 <= v < g.nodes@.len()
    &&& g.nodes@[v].symbol is Some
    &&& g.tag_is(v, "namespace-declaration"@)
    &&& spec_match_namespace(segs, node_symbol(g, v))
}

/// Node `u` is reachable from some matching namespace declaration.
pub open spec fn reachable_from_nsdecl(g: ScopeGraph, segs: Seq<SegView>, u: int) -> bool {
    exists|r: usize| #[trigger] nsdecl_matches(g, segs, r as int) && reachable_from(g, r as int, u)
}

/// Node `v` belongs to the query's namespace index: it hangs off the
/// matching namespace declarations' subtrees with a symbol and a class or
/// method tag.
pub open spec fn namespace_member(g: ScopeGraph, segs: Seq<SegView>, v: int) -> bool {
    &&& 0 <= v < g.nodes@.len()
    &&& exists|k: int|
        0 <= k < g.edges@.len() && (#[trigger] g.edges@[k]).sink == v && reachable_from_nsdecl(
            g,
            segs,
            g.edges@[k].source as int,
        )
    &&& g.nodes@[v].symbol is Some
    &&& (g.tag_is(v, "class-def"@) || g.tag_is(v, "method_name"@))
}

/// `name` is in the query's namespace index.
pub open spec fn in_query_namespace(g: ScopeGraph, segs: Seq<SegView>, name: Seq<char>) -> bool {
    exists|v: int| #[trigger] namespace_member(g, segs, v) && g.symbol_is(v, name)
}

/// Edge `k` produces a result when walking the subtree of `root` against
/// the index `ns`: its source is reachable, and its sink carries a symbol
/// in the index and a source span.
pub open spec fn edge_hit(g: ScopeGraph, ns: NamespaceSymbols, root: int, k: int) -> bool {
    &&& 0 <= k < g.edges@.len()
    &&& reachable_from(g, root, (#[trigger] g.edges@[k]).source as int)
    &&& g.nodes@[g.edges@[k].sink as int].symbol is Some
    &&& ns.spec_contains(node_symbol(g, g.edges@[k].sink as int))
    &&& g.nodes@[g.edges@[k].sink as int].span is Some
}

/// What walking the subtree of `root` under URI `uri` emits.
pub open spec fn emits_with(
    g: ScopeGraph,
    ns: NamespaceSymbols,
    root: int,
    uri: Seq<char>,
    qv: QueryResultView,
) -> bool {
    exists|k: int|
        #[trigger] edge_hit(g, ns, root, k) && qv == result_view_for(
            g,
            g.edges@[k].sink as int,
            uri,
        )
}

/// Same, with membership read from the query itself rather than a built
/// index.
pub open spec fn query_edge_hit(g: ScopeGraph, segs: Seq<SegView>, root: int, k: int) -> bool {
    &&& 0 <= k < g.edges@.len()
    &&& reachable_from(g, root, (#[trigger] g.edges@[k]).source as int)
    &&& g.nodes@[g.edges@[k].sink as int].symbol is Some
    &&& in_query_namespace(g, segs, node_symbol(g, g.edges@[k].sink as int))
    &&& g.nodes@[g.edges@[k].sink as int].span is Some
}

/// What the walk over referenced file `f` contributes: its compilation unit
/// exists, its path converts to a URI, and the result comes from a hit edge.
pub open spec fn file_emits(g: ScopeGraph, segs: Seq<SegView>, f: int, qv: QueryResultView) -> bool {
    &&& compunit_of(g, f) matches Some(c) && {
        &&& g.files@[f]@.len() > 0
        &&& g.files@[f]@[0] == '/'
        &&& exists|k: int|
            #[trigger] query_edge_hit(g, segs, c, k) && qv == result_view_for(
                g,
                g.edges@[k].sink as int,
                uri_of_path(g.files@[f]@),
            )
    }
}

/// Everything the namespace-membership mode returns for this query.
pub open spec fn mode_a_emits(g: ScopeGraph, segs: Seq<SegView>, qv: QueryResultView) -> bool {
    exists|f: int|
        0 <= f < g.files@.len() && #[trigger] file_referenced(g, segs, f) && file_emits(
            g,
            segs,
            f,
            qv,
        )
}

/// What one matched node of the traversal mode contributes, once its owning
/// file resolves to a URI and it carries a span.
pub open spec fn match_emits(g: ScopeGraph, m: int, qv: QueryResultView) -> bool {
    &&& 0 <= m < g.nodes@.len()
    &&& g.nodes@[m].file matches Some(f) && {
        &&& f < g.files@.len()
        &&& g.files@[f as int]@.len() > 0
        &&& g.files@[f as int]@[0] == '/'
        &&& g.nodes@[m].span is Some
        &&& qv == result_view_for(g, m, uri_of_path(g.files@[f as int]@))
    }
}

/// Everything the traversal mode returns for this query.
pub open spec fn mode_b_emits(g: ScopeGraph, segs: Seq<SegView>, qv: QueryResultView) -> bool {
    exists|v: int, m: int|
        #![trigger spec_is_root(g, segs, v), spec_is_match(g, segs, v, m)]
        spec_is_root(g, segs, v) && spec_is_match(g, segs, v, m) && match_emits(g, m, qv)
}

/// The results that the first `upto` edges contribute, in edge order, when
/// walking under `root` against the index `ns` with file URI `uri`.
pub open spec fn walk_hits_upto(
    g: ScopeGraph,
    ns: NamespaceSymbols,
    root: int,
    uri: Seq<char>,
    upto: int,
) -> Seq<QueryResultView>
    decreases upto,
{
    if upto <= 0 {
        Seq::<QueryResultView>::empty()
    } else {
        let r = walk_hits_upto(g, ns, root, uri, upto - 1);
        if edge_hit(g, ns, root, upto - 1) {
            r.push(result_view_for(g, g.edges@[upto - 1].sink as int, uri))
        } else {
            r
        }
    }
}

/// Everything one subtree walk appends, in edge order.
pub open spec fn walk_results(g: ScopeGraph, ns: NamespaceSymbols, root: int, uri: Seq<char>) -> Seq<
    QueryResultView,
> {
    walk_hits_upto(g, ns, root, uri, g.edges@.len() as int)
}

/// As `walk_hits_upto`, with membership read from the query itself.
pub open spec fn query_hits_upto(
    g: ScopeGraph,
    segs: Seq<SegView>,
    root: int,
    uri: Seq<char>,
    upto: int,
) -> Seq<QueryResultView>
    decreases upto,
{
    if upto <= 0 {
        Seq::<QueryResultView>::empty()
    } else {
        let r = query_hits_upto(g, segs, root, uri, upto - 1);
        if query_edge_hit(g, segs, root, upto - 1) {
            r.push(result_view_for(g, g.edges@[upto - 1].sink as int, uri))
        } else {
            r
        }
    }
}

/// An index that lists exactly the query's namespace names yields the same
/// walk, edge for edge.
proof fn lemma_walk_agree(
    g: ScopeGraph,
    ns: NamespaceSymbols,
    segs: Seq<SegView>,
    root: int,
    uri: Seq<char>,
    upto: int,
)
    requires
        forall|k: int| edge_hit(g, ns, root, k) <==> #[trigger] query_edge_hit(g, segs, root, k),
    ensures
        walk_hits_upto(g, ns, root, uri, upto) == query_hits_upto(g, segs, root, uri, upto),
    decreases upto,
{
    if upto > 0 {
        lemma_walk_agree(g, ns, segs, root, uri, upto - 1);
    }
}

/// The ordered results one referenced file contributes: empty when it has
/// no compilation unit or no absolute path, else its subtree walk.
pub open spec fn file_results(g: ScopeGraph, segs: Seq<SegView>, f: int) -> Seq<QueryResultView> {
    match compunit_of(g, f) {
        Some(c) => if 0 <= f < g.files@.len() && g.files@[f]@.len() > 0 && g.files@[f]@[0] == '/' {
            query_hits_upto(g, segs, c, uri_of_path(g.files@[f]@), g.edges@.len() as int)
        } else {
            Seq::<QueryResultView>::empty()
        },
        None => Seq::<QueryResultView>::empty(),
    }
}

/// The referenced-file occurrences that the first `upto` nodes contribute,
/// in node order: one per matching import node.
pub open spec fn referenced_upto(g: ScopeGraph, segs: Seq<SegView>, upto: int) -> Seq<usize>
    decreases upto,
{
    if upto <= 0 {
        Seq::<usize>::empty()
    } else {
        let r = referenced_upto(g, segs, upto - 1);
        match g.nodes@[upto - 1].file {
            Some(f) => if g.nodes@[upto - 1].symbol is Some && g.tag_is(upto - 1, "import"@)
                && spec_partial_namespace(segs, node_symbol(g, upto - 1)) {
                r.push(f)
            } else {
                r
            },
            None => r,
        }
    }
}

/// The concatenated results of the first `i` referenced-file occurrences.
pub open spec fn files_results_upto(
    g: ScopeGraph,
    segs: Seq<SegView>,
    fs: Seq<usize>,
    i: int,
) -> Seq<QueryResultView>
    decreases i,
{
    if i <= 0 {
        Seq::<QueryResultView>::empty()
    } else {
        files_results_upto(g, segs, fs, i - 1) + file_results(g, segs, fs[i - 1] as int)
    }
}

/// Everything the namespace-membership mode returns, in arrival order: the
/// referenced files in node order, each contributing its walk in edge order.
pub open spec fn mode_a_results(g: ScopeGraph, segs: Seq<SegView>) -> Seq<QueryResultView> {
    let fs = referenced_upto(g, segs, g.nodes@.len() as int);
    files_results_upto(g, segs, fs, fs.len() as int)
}

/// The located result one matched node renders, when its owning file has a
/// URI and a span is recorded.
pub open spec fn match_located(g: ScopeGraph, m: int) -> Option<QueryResultView> {
    match g.nodes@[m].file {
        Some(f) => if f < g.files@.len() && g.files@[f as int]@.len() > 0 && g.files@[f as int]@[0]
            == '/' && g.nodes@[m].span is Some {
            Some(result_view_for(g, m, uri_of_path(g.files@[f as int]@)))
        } else {
            None
        },
        None => None,
    }
}

/// The results rendered from the first `i` matched nodes, in match order.
pub open spec fn located_upto(g: ScopeGraph, ms: Seq<usize>, i: int) -> Seq<QueryResultView>
    decreases i,
{
    if i <= 0 {
        Seq::<QueryResultView>::empty()
    } else {
        let r = located_upto(g, ms, i - 1);
        match match_located(g, ms[i - 1] as int) {
            Some(qv) => r.push(qv),
            None => r,
        }
    }
}

/// Everything the traversal mode returns, in discovery order.
pub open spec fn mode_b_results(g: ScopeGraph, segs: Seq<SegView>) -> Seq<QueryResultView> {
    let ms = traversal_matches(g, segs);
    located_upto(g, ms, ms.len() as int)
}

/// Executes queries against a shared, read-only scope graph.
pub struct Querier<'a> {
    db: &'a ScopeGraph,
}

/// The query surface: one call takes a raw query string and yields the
/// matching locations.
pub trait Query {
    /// The scope graph this query surface reads.
    spec fn graph(&self) -> ScopeGraph;

    /// Answers one query. Parsing aborts the whole query on the first
    /// rejected segment; otherwise the query's final segment selects the
    /// mode, and the returned results are exactly that mode's, in order.
    fn query(&self, query: String) -> (r: Result<Vec<QueryResult>, PatternError>)
        ensures
            (r is Ok) == spec_parse_ok(query@),
            r matches Ok(results) ==> ({
                let segs = spec_parse(query@);
                &&& (spec_all_references(segs) ==> result_views(results@) == mode_a_results(
                    self.graph(),
                    segs,
                ))
                &&& (!spec_all_references(segs) ==> result_views(results@) == mode_b_results(
                    self.graph(),
                    segs,
                ))
                &&& (spec_all_references(segs) ==> forall|qv: QueryResultView|
                    #[trigger] result_views(results@).contains(qv) <==> mode_a_emits(
                        self.graph(),
                        segs,
                        qv,
                    ))
                &&& (!spec_all_references(segs) ==> forall|qv: QueryResultView|
                    #[trigger] result_views(results@).contains(qv) <==> mode_b_emits(
                        self.graph(),
                        segs,
                        qv,
                    ))
            }),
            r matches Err(e)
                ==> exists|i: int|
                    {
                        &&& 0 <= i < split_dots(query@).len()
                        &&& part_rejected(#[trigger] split_dots(query@)[i])
                        &&& e.segment@ == split_dots(query@)[i]
                        &&& forall|j: int| 0 <= j < i ==> !part_rejected(split_dots(query@)[j])
                    },
    ;
}

impl<'a> Querier<'a> {
    #[verifier::type_invariant]
    pub closed spec fn wf(self) -> bool {
        self.db.wf()
    }

    pub fn new(db: &'a ScopeGraph) -> (r: Querier<'a>)
        requires
            db.wf(),
        ensures
            r.graph() == *db,
    {
        Querier { db }
    }

    /// Parses the raw query string.
    fn get_search(&self, query: String) -> (r: Result<Search, PatternError>)
        ensures
            (r is Ok) == spec_parse_ok(query@),
            r matches Ok(se) ==> se@ == spec_parse(query@) && se.wf(),
            r matches Err(e)
                ==> exists|i: int|
                    {
                        &&& 0 <= i < split_dots(query@).len()
                        &&& part_rejected(#[trigger] split_dots(query@)[i])
                        &&& e.segment@ == split_dots(query@)[i]
                        &&& forall|j: int| 0 <= j < i ==> !part_rejected(split_dots(query@)[j])
                    },
    {
        Search::create_search(query)
    }

    /// Answers one query. A parse failure aborts the whole query; otherwise
    /// the mode is chosen by the query's final segment: the bare wildcard
    /// selects the namespace-membership scan, anything else the
    /// multi-segment traversal.
    pub fn run_query(&self, query: String) -> (r: Result<Vec<QueryResult>, PatternError>)
        ensures
            (r is Ok) == spec_parse_ok(query@),
            r matches Ok(results) ==> ({
                let segs = spec_parse(query@);
                &&& (spec_all_references(segs) ==> result_views(results@) == mode_a_results(
                    self.graph(),
                    segs,
                ))
                &&& (!spec_all_references(segs) ==> result_views(results@) == mode_b_results(
                    self.graph(),
                    segs,
                ))
                &&& (spec_all_references(segs) ==> forall|qv: QueryResultView|
                    #[trigger] result_views(results@).contains(qv) <==> mode_a_emits(
                        self.graph(),
                        segs,
                        qv,
                    ))
                &&& (!spec_all_references(segs) ==> forall|qv: QueryResultView|
                    #[trigger] result_views(results@).contains(qv) <==> mode_b_emits(
                        self.graph(),
                        segs,
                        qv,
                    ))
            }),
            r matches Err(e)
                ==> exists|i: int|
                    {
                        &&& 0 <= i < split_dots(query@).len()
                        &&& part_rejected(#[trigger] split_dots(query@)[i])
                        &&& e.segment@ == split_dots(query@)[i]
                        &&& forall|j: int| 0 <= j < i ==> !part_rejected(split_dots(query@)[j])
                    },
    {
        proof {
            use_type_invariant(self);
        }
        let search = match self.get_search(query) {
            Ok(s) => s,
            Err(e) => {
                return Err(e);
            },
        };
        if search.all_references_search() {
            Ok(self.all_references_query(&search))
        } else {
            Ok(self.traversal_query(&search))
        }
    }

    /// Runs the namespace-membership mode: one scan classifies every node,
    /// the namespace index is built over the matching declaration roots, and
    /// each referenced file's compilation-unit subtree is walked for symbols
    /// that the index lists.
    fn all_references_query(&self, search: &Search) -> (results: Vec<QueryResult>)
        requires
            self.db.wf(),
            search.wf(),
        ensures
            forall|qv: QueryResultView|
                #[trigger] result_views(results@).contains(qv) <==> mode_a_emits(
                    *self.db,
                    search@,
                    qv,
                ),
            result_views(results@) == mode_a_results(*self.db, search@),
    {
        let g = self.db;
        let ghost segs = search@;
        let n = g.nodes.len();
        let mut comp_units: Vec<Option<usize>> = Vec::new();
        let mut fi: usize = 0;
        while fi < g.files.len()
            invariant
                comp_units@.len() == fi,
                fi <= g.files@.len(),
                forall|f: int| 0 <= f < fi ==> (#[trigger] comp_units@[f]) is None,
            decreases g.files@.len() - fi,
        {
            comp_units.push(None);
            fi += 1;
        }
        let mut referenced_files: Vec<usize> = Vec::new();
        let mut definition_roots: Vec<usize> = Vec::new();
        let mut v: usize = 0;
        while v < n
            invariant
                g.wf(),
                search.wf(),
                segs == search@,
                n == g.nodes@.len(),
                v <= n,
                comp_units@.len() == g.files@.len(),
                forall|f: int|
                    0 <= f < g.files@.len() ==> opt_as_int(#[trigger] comp_units@[f])
                        == last_compunit_before(*g, f, v as int),
                forall|i: int|
                    0 <= i < definition_roots@.len() ==> nsdecl_matches(
                        *g,
                        segs,
                        (#[trigger] definition_roots@[i]) as int,
                    ),
                forall|vv: int|
                    0 <= vv < v && #[trigger] nsdecl_matches(*g, segs, vv)
                        ==> definition_roots@.contains(vv as usize),
                referenced_files@ == referenced_upto(*g, segs, v as int),
                forall|i: int|
                    0 <= i < referenced_files@.len() ==> (#[trigger] referenced_files@[i])
                        < g.files@.len() && file_referenced(
                        *g,
                        segs,
                        referenced_files@[i] as int,
                    ),
                forall|vv: int, f: int|
                    0 <= vv < v && #[trigger] import_for(*g, segs, vv, f)
                        ==> referenced_files@.contains(f as usize),
            decreases n - v,
        {
            proof {
                reveal_strlit("comp-unit");
                reveal_strlit("import");
                reveal_strlit("namespace-declaration");
                assert("comp-unit"@.len() == 9);
                assert("import"@.len() == 6);
                assert("namespace-declaration"@.len() == 21);
            }
            let nd = &g.nodes[v];
            match (&nd.symbol, &nd.syntax_type) {
                (Some(sym), Some(tag)) => {
                    proof {
                        assert(g.nodes@[v as int].symbol == Some(*sym));
                        assert(g.nodes@[v as int].syntax_type == Some(*tag));
                        assert(node_symbol(*g, v as int) == sym@);
                    }
                    if str_eq(tag.as_str(), "comp-unit") {
                        match nd.file {
                            Some(f) => {
                                comp_units.set(f, Some(v));
                                proof {
                                    assert(is_compunit_for(*g, v as int, f as int));
                                }
                            },
                            None => {},
                        }
                    } else if str_eq(tag.as_str(), "import") {
                        if search.partial_namespace(sym.as_str()) {
                            match nd.file {
                                Some(f) => {
                                    let ghost pre = referenced_files@;
                                    referenced_files.push(f);
                                    proof {
                                        lemma_push_contains(pre, f);
                                        assert(import_for(*g, segs, v as int, f as int));
                                    }
                                },
                                None => {},
                            }
                        }
                    } else if str_eq(tag.as_str(), "namespace-declaration") {
                        if search.match_namespace(sym.as_str()) {
                            let ghost pre = definition_roots@;
                            definition_roots.push(v);
                            proof {
                                lemma_push_contains(pre, v);
                                assert(nsdecl_matches(*g, segs, v as int));
                            }
                        }
                    }
                },
                _ => {},
            }
            proof {
                assert forall|f2: int| 0 <= f2 < g.files@.len() implies opt_as_int(
                    #[trigger] comp_units@[f2],
                ) == last_compunit_before(*g, f2, v + 1 as int) by {}
                assert forall|vv: int|
                    0 <= vv < v + 1 && #[trigger] nsdecl_matches(
                        *g,
                        segs,
                        vv,
                    ) implies definition_roots@.contains(vv as usize) by {}
                assert forall|vv: int, f: int|
                    0 <= vv < v + 1 && #[trigger] import_for(
                        *g,
                        segs,
                        vv,
                        f,
                    ) implies referenced_files@.contains(f as usize) by {}
                assert(referenced_files@ == referenced_upto(*g, segs, v + 1 as int));
            }
            v += 1;
        }
        let ghost roots = definition_roots@;
        let namespace_symbols = NamespaceSymbols::new(g, definition_roots);
        proof {
            assert forall|u: int| #[trigger] reachable_from_any(
                *g,
                roots,
                u,
            ) implies reachable_from_nsdecl(*g, segs, u) by {
                let rr = choose|rr: usize|
                    #[trigger] roots.contains(rr) && reachable_from(*g, rr as int, u);
                let i = choose|i: int| 0 <= i < roots.len() && roots[i] == rr;
                assert(nsdecl_matches(*g, segs, rr as int));
            }
            assert forall|u: int| #[trigger] reachable_from_nsdecl(
                *g,
                segs,
                u,
            ) implies reachable_from_any(*g, roots, u) by {
                let rr = choose|rr: usize|
                    #[trigger] nsdecl_matches(*g, segs, rr as int) && reachable_from(
                        *g,
                        rr as int,
                        u,
                    );
                assert(roots.contains(rr));
            }
            assert forall|name: Seq<char>| #[trigger] namespace_symbols.spec_contains(
                name,
            ) implies in_query_namespace(*g, segs, name) by {
                if table_contains(namespace_symbols.classes@, name) {
                    let vv = choose|vv: int|
                        ns_recorded(*g, roots, vv, "class-def"@) && #[trigger] g.symbol_is(
                            vv,
                            name,
                        );
                    let k = choose|k: int|
                        0 <= k < g.edges@.len() && (#[trigger] g.edges@[k]).sink == vv
                            && reachable_from_any(*g, roots, g.edges@[k].source as int);
                    assert(reachable_from_nsdecl(*g, segs, g.edges@[k].source as int));
                    assert(namespace_member(*g, segs, vv));
                } else if table_contains(namespace_symbols.class_methods@, name) {
                    let vv = choose|vv: int|
                        ns_recorded(*g, roots, vv, "method_name"@) && #[trigger] g.symbol_is(
                            vv,
                            name,
                        );
                    let k = choose|k: int|
                        0 <= k < g.edges@.len() && (#[trigger] g.edges@[k]).sink == vv
                            && reachable_from_any(*g, roots, g.edges@[k].source as int);
                    assert(reachable_from_nsdecl(*g, segs, g.edges@[k].source as int));
                    assert(namespace_member(*g, segs, vv));
                }
            }
            assert forall|name: Seq<char>| #[trigger] in_query_namespace(
                *g,
                segs,
                name,
            ) implies namespace_symbols.spec_contains(name) by {
                let vv = choose|vv: int|
                    #[trigger] namespace_member(*g, segs, vv) && g.symbol_is(vv, name);
                let k = choose|k: int|
                    0 <= k < g.edges@.len() && (#[trigger] g.edges@[k]).sink == vv
                        && reachable_from_nsdecl(*g, segs, g.edges@[k].source as int);
                assert(reachable_from_any(*g, roots, g.edges@[k].source as int));
                if g.tag_is(vv, "class-def"@) {
                    assert(ns_recorded(*g, roots, vv, "class-def"@));
                    assert(table_contains(namespace_symbols.classes@, name));
                } else {
                    assert(ns_recorded(*g, roots, vv, "method_name"@));
                    assert(table_contains(namespace_symbols.class_methods@, name));
                }
            }
            assert forall|f: int| #[trigger] file_referenced(
                *g,
                segs,
                f,
            ) implies referenced_files@.contains(f as usize) by {
                let vv = choose|vv: int| import_for(*g, segs, vv, f);
            }
        }
        let ghost ns = namespace_symbols;
        let mut results: Vec<QueryResult> = Vec::new();
        let mut ri: usize = 0;
        while ri < referenced_files.len()
            invariant
                g.wf(),
                g == self.db,
                segs == search@,
                n == g.nodes@.len(),
                ns == namespace_symbols,
                comp_units@.len() == g.files@.len(),
                ri <= referenced_files@.len(),
                forall|f: int|
                    0 <= f < g.files@.len() ==> opt_as_int(#[trigger] comp_units@[f])
                        == compunit_of(*g, f),
                forall|i: int|
                    0 <= i < referenced_files@.len() ==> (#[trigger] referenced_files@[i])
                        < g.files@.len() && file_referenced(
                        *g,
                        segs,
                        referenced_files@[i] as int,
                    ),
                referenced_files@ == referenced_upto(*g, segs, n as int),
                result_views(results@) == files_results_upto(
                    *g,
                    segs,
                    referenced_files@,
                    ri as int,
                ),
                forall|f: int|
                    #[trigger] file_referenced(*g, segs, f) ==> referenced_files@.contains(
                        f as usize,
                    ),
                forall|name: Seq<char>|
                    #[trigger] ns.spec_contains(name) == in_query_namespace(*g, segs, name),
                forall|i: int|
                    0 <= i < results@.len() ==> mode_a_emits(
                        *g,
                        segs,
                        (#[trigger] results@[i])@,
                    ),
                forall|ii: int, qv: QueryResultView|
                    0 <= ii < ri && #[trigger] file_emits(
                        *g,
                        segs,
                        (#[trigger] referenced_files@[ii]) as int,
                        qv,
                    ) ==> result_views(results@).contains(qv),
            decreases referenced_files@.len() - ri,
        {
            let f = referenced_files[ri];
            proof {
                assert(referenced_files@[ri as int] == f);
                assert(f < g.files@.len());
            }
            let cu = comp_units[f];
            match cu {
                None => {
                    proof {
                        assert(compunit_of(*g, f as int) is None);
                        assert(file_results(*g, segs, f as int) =~= Seq::<
                            QueryResultView,
                        >::empty());
                        assert(result_views(results@) =~= files_results_upto(
                            *g,
                            segs,
                            referenced_files@,
                            ri + 1 as int,
                        ));
                        assert forall|ii: int, qv: QueryResultView|
                            0 <= ii < ri + 1 && #[trigger] file_emits(
                                *g,
                                segs,
                                (#[trigger] referenced_files@[ii]) as int,
                                qv,
                            ) implies result_views(results@).contains(qv) by {}
                    }
                },
                Some(c) => {
                    proof {
                        lemma_last_compunit_bounds(*g, f as int, g.nodes@.len() as int);
                        assert(compunit_of(*g, f as int) == Some(c as int));
                        assert(c < n);
                    }
                    match file_uri(g.files[f].as_str()) {
                        None => {
                            proof {
                                assert(!(g.files@[f as int]@.len() > 0 && g.files@[f as int]@[0]
                                    == '/'));
                                assert(file_results(*g, segs, f as int) =~= Seq::<
                                    QueryResultView,
                                >::empty());
                                assert(result_views(results@) =~= files_results_upto(
                                    *g,
                                    segs,
                                    referenced_files@,
                                    ri + 1 as int,
                                ));
                                assert forall|ii: int, qv: QueryResultView|
                                    0 <= ii < ri + 1 && #[trigger] file_emits(
                                        *g,
                                        segs,
                                        (#[trigger] referenced_files@[ii]) as int,
                                        qv,
                                    ) implies result_views(results@).contains(qv) by {}
                            }
                        },
                        Some(uri) => {
                            let ghost pre = results@;
                            let ghost uriv = uri@;
                            proof {
                                assert(uriv == uri_of_path(g.files@[f as int]@));
                                assert forall|k: int| edge_hit(
                                    *g,
                                    ns,
                                    c as int,
                                    k,
                                ) implies #[trigger] query_edge_hit(*g, segs, c as int, k) by {}
                                assert forall|k: int| #[trigger] query_edge_hit(
                                    *g,
                                    segs,
                                    c as int,
                                    k,
                                ) implies edge_hit(*g, ns, c as int, k) by {}
                            }
                            self.traverse_node_search(c, &namespace_symbols, &mut results, uri);
                            proof {
                                lemma_walk_agree(
                                    *g,
                                    ns,
                                    segs,
                                    c as int,
                                    uriv,
                                    g.edges@.len() as int,
                                );
                                assert(result_views(results@) == result_views(pre) + walk_results(
                                    *g,
                                    ns,
                                    c as int,
                                    uriv,
                                ));
                                assert(file_results(*g, segs, f as int) == walk_results(
                                    *g,
                                    ns,
                                    c as int,
                                    uriv,
                                ));
                                assert(result_views(results@) == files_results_upto(
                                    *g,
                                    segs,
                                    referenced_files@,
                                    ri + 1 as int,
                                ));
                                assert forall|qv: QueryResultView| result_views(pre).contains(
                                    qv,
                                ) implies #[trigger] result_views(results@).contains(qv) by {
                                    let i = choose|i: int|
                                        0 <= i < result_views(pre).len() && result_views(pre)[i]
                                            == qv;
                                    assert(results@[i] == pre[i]);
                                    assert(result_views(results@)[i] == qv);
                                }
                                assert forall|i: int|
                                    0 <= i < results@.len() implies mode_a_emits(
                                    *g,
                                    segs,
                                    (#[trigger] results@[i])@,
                                ) by {
                                    if i >= pre.len() {
                                        assert(emits_with(*g, ns, c as int, uriv, results@[i]@));
                                        let k = choose|k: int|
                                            #[trigger] edge_hit(*g, ns, c as int, k)
                                                && results@[i]@ == result_view_for(
                                                *g,
                                                g.edges@[k].sink as int,
                                                uriv,
                                            );
                                        assert(query_edge_hit(*g, segs, c as int, k));
                                        assert(file_emits(*g, segs, f as int, results@[i]@));
                                        assert(file_referenced(*g, segs, f as int));
                                    } else {
                                        assert(results@[i] == pre[i]);
                                        assert(mode_a_emits(*g, segs, pre[i]@));
                                    }
                                }
                                assert forall|ii: int, qv: QueryResultView|
                                    0 <= ii < ri + 1 && #[trigger] file_emits(
                                        *g,
                                        segs,
                                        (#[trigger] referenced_files@[ii]) as int,
                                        qv,
                                    ) implies result_views(results@).contains(qv) by {
                                    if ii == ri {
                                        let k = choose|k: int|
                                            #[trigger] query_edge_hit(*g, segs, c as int, k) && qv
                                                == result_view_for(
                                                *g,
                                                g.edges@[k].sink as int,
                                                uri_of_path(g.files@[f as int]@),
                                            );
                                        assert(edge_hit(*g, ns, c as int, k));
                                        assert(emits_with(*g, ns, c as int, uriv, qv));
                                    } else {
                                        assert(result_views(pre).contains(qv));
                                    }
                                }
                            }
                        },
                    }
                },
            }
            ri += 1;
        }
        proof {
            assert forall|qv: QueryResultView| #[trigger] result_views(results@).contains(
                qv,
            ) implies mode_a_emits(*g, segs, qv) by {
                let i = choose|i: int|
                    0 <= i < result_views(results@).len() && result_views(results@)[i] == qv;
                assert(mode_a_emits(*g, segs, results@[i]@));
            }
            assert(result_views(results@) == mode_a_results(*g, segs));
            assert forall|qv: QueryResultView| mode_a_emits(
                *g,
                segs,
                qv,
            ) implies #[trigger] result_views(results@).contains(qv) by {
                let f = choose|f: int|
                    0 <= f < g.files@.len() && #[trigger] file_referenced(*g, segs, f)
                        && file_emits(*g, segs, f, qv);
                assert(referenced_files@.contains(f as usize));
                let ii = choose|ii: int|
                    0 <= ii < referenced_files@.len() && referenced_files@[ii] == f as usize;
                assert(file_emits(*g, segs, referenced_files@[ii] as int, qv));
            }
        }
        results
    }

    /// Runs the traversal mode: finds every terminal match of the
    /// multi-segment traversal and converts each to a located result, where
    /// its owning file resolves to a URI and a span is recorded.
    fn traversal_query(&self, search: &Search) -> (results: Vec<QueryResult>)
        requires
            self.db.wf(),
            search.wf(),
        ensures
            forall|qv: QueryResultView|
                #[trigger] result_views(results@).contains(qv) <==> mode_b_emits(
                    *self.db,
                    search@,
                    qv,
                ),
            result_views(results@) == mode_b_results(*self.db, search@),
    {
        let g = self.db;
        let ghost segs = search@;
        let node_count = g.nodes.len();
        let matches = find_symbol_matches(g, search);
        let mut results: Vec<QueryResult> = Vec::new();
        let mut mi: usize = 0;
        while mi < matches.len()
            invariant
                g.wf(),
                search.wf(),
                segs == search@,
                mi <= matches@.len(),
                node_count == g.nodes@.len(),
                matches@ == traversal_matches(*g, segs),
                result_views(results@) == located_upto(*g, matches@, mi as int),
                forall|i2: int| 0 <= i2 < matches@.len() ==> (#[trigger] matches@[i2]) < g.nodes@.len(),
                forall|m: usize|
                    #[trigger] matches@.contains(m) <==> exists|v: int|
                        #[trigger] spec_is_root(*g, segs, v) && spec_is_match(
                            *g,
                            segs,
                            v,
                            m as int,
                        ),
                forall|i: int|
                    0 <= i < results@.len() ==> mode_b_emits(
                        *g,
                        segs,
                        (#[trigger] results@[i])@,
                    ),
                forall|j: int, qv: QueryResultView|
                    0 <= j < mi && #[trigger] match_emits(
                        *g,
                        (#[trigger] matches@[j]) as int,
                        qv,
                    ) ==> result_views(results@).contains(qv),
            decreases matches@.len() - mi,
        {
            let m = matches[mi];
            proof {
                assert(matches@[mi as int] == m);
                assert(matches@.contains(m));
                assert(m < g.nodes@.len());
            }
            match g.nodes[m].file {
                Some(f) => {
                    match file_uri(g.files[f].as_str()) {
                        Some(uri) => {
                            let nd = &g.nodes[m];
                            match &nd.span {
                                Some(loc) => {
                                    let qr = QueryResult {
                                        file_uri: uri.clone(),
                                        line_number: loc.start_position.line,
                                        variables: Vec::new(),
                                        code_location: *loc,
                                    };
                                    proof {
                                        assert(g.nodes@[m as int].span == Some(*loc));
                                        assert(qr@ =~= result_view_for(
                                            *g,
                                            m as int,
                                            uri_of_path(g.files@[f as int]@),
                                        ));
                                        assert(match_emits(*g, m as int, qr@));
                                    }
                                    let ghost pre = results@;
                                    results.push(qr);
                                    proof {
                                        assert(result_views(results@) =~= result_views(pre).push(
                                            qr@,
                                        ));
                                        lemma_push_contains(result_views(pre), qr@);
                                        assert(match_located(*g, m as int) == Some(qr@));
                                        assert(result_views(results@) == located_upto(
                                            *g,
                                            matches@,
                                            mi + 1 as int,
                                        ));
                                        let v0 = choose|v: int|
                                            #[trigger] spec_is_root(*g, segs, v) && spec_is_match(
                                                *g,
                                                segs,
                                                v,
                                                m as int,
                                            );
                                        assert(mode_b_emits(*g, segs, qr@));
                                        assert forall|j: int, qv: QueryResultView|
                                            0 <= j < mi + 1 && #[trigger] match_emits(
                                                *g,
                                                (#[trigger] matches@[j]) as int,
                                                qv,
                                            ) implies result_views(results@).contains(qv) by {
                                            if j == mi {
                                                assert(qv == qr@);
                                            } else {
                                                assert(result_views(pre).contains(qv));
                                            }
                                        }
                                    }
                                },
                                None => {},
                            }
                        },
                        None => {},
                    }
                },
                None => {},
            }
            proof {
                assert(result_views(results@) == located_upto(*g, matches@, mi + 1 as int));
                assert forall|j: int, qv: QueryResultView|
                    0 <= j < mi + 1 && #[trigger] match_emits(
                        *g,
                        (#[trigger] matches@[j]) as int,
                        qv,
                    ) implies result_views(results@).contains(qv) by {}
            }
            mi += 1;
        }
        proof {
            assert forall|qv: QueryResultView| #[trigger] result_views(results@).contains(
                qv,
            ) implies mode_b_emits(*g, segs, qv) by {
                let i = choose|i: int|
                    0 <= i < result_views(results@).len() && result_views(results@)[i] == qv;
                assert(mode_b_emits(*g, segs, results@[i]@));
            }
            assert forall|qv: QueryResultView| mode_b_emits(
                *g,
                segs,
                qv,
            ) implies #[trigger] result_views(results@).contains(qv) by {
                let (v, m) = choose|v: int, m: int|
                    #![trigger spec_is_root(*g, segs, v), spec_is_match(*g, segs, v, m)]
                    spec_is_root(*g, segs, v) && spec_is_match(*g, segs, v, m) && match_emits(
                        *g,
                        m,
                        qv,
                    );
                assert(0 <= m < g.nodes@.len());
                assert(0 <= m < node_count);
                assert((m as usize) as int == m);
                assert(matches@.contains(m as usize));
                let j = choose|j: int| 0 <= j < matches@.len() && matches@[j] == m as usize;
                assert(match_emits(*g, matches@[j] as int, qv));
            }
        }
        results
    }

    /// Walks every node reachable from `node` and appends a result for each
    /// edge whose sink carries a symbol listed in the namespace index and a
    /// source span. An explicit visited set keeps the walk terminating even
    /// on graphs with accidental cycles.
    fn traverse_node_search(
        &self,
        node: usize,
        namespace_symbols: &NamespaceSymbols,
        results: &mut Vec<QueryResult>,
        file_uri: String,
    )
        requires
            self.db.wf(),
            node < self.db.nodes@.len(),
        ensures
            old(results)@.len() <= final(results)@.len(),
            forall|i: int| 0 <= i < old(results)@.len() ==> final(results)@[i] == old(results)@[i],
            forall|i: int|
                old(results)@.len() <= i < final(results)@.len() ==> emits_with(
                    *self.db,
                    *namespace_symbols,
                    node as int,
                    file_uri@,
                    (#[trigger] final(results)@[i])@,
                ),
            forall|qv: QueryResultView|
                #[trigger] emits_with(*self.db, *namespace_symbols, node as int, file_uri@, qv)
                    ==> result_views(final(results)@).contains(qv),
            result_views(final(results)@) == result_views(old(results)@) + walk_results(
                *self.db,
                *namespace_symbols,
                node as int,
                file_uri@,
            ),
    {
        let g = self.db;
        let mut roots: Vec<usize> = Vec::new();
        roots.push(node);
        let visited = reachable_set(g, &roots);
        proof {
            assert(roots@[0] == node);
            assert(roots@.contains(node));
            assert forall|u: int|
                0 <= u < g.nodes@.len() implies ((#[trigger] visited@[u]) <==> reachable_from(
                *g,
                node as int,
                u,
            )) by {
                if visited@[u] {
                    let r = choose|r: usize|
                        #[trigger] roots@.contains(r) && reachable_from(*g, r as int, u);
                    let i = choose|i: int| 0 <= i < roots@.len() && roots@[i] == r;
                    assert(r == node);
                }
            }
        }
        let mut k: usize = 0;
        proof {
            assert(result_views(results@) =~= result_views(old(results)@) + walk_hits_upto(
                *g,
                *namespace_symbols,
                node as int,
                file_uri@,
                0,
            ));
        }
        while k < g.edges.len()
            invariant
                g.wf(),
                node < g.nodes@.len(),
                k <= g.edges@.len(),
                result_views(results@) == result_views(old(results)@) + walk_hits_upto(
                    *g,
                    *namespace_symbols,
                    node as int,
                    file_uri@,
                    k as int,
                ),
                visited@.len() == g.nodes@.len(),
                forall|u: int|
                    0 <= u < g.nodes@.len() ==> ((#[trigger] visited@[u]) <==> reachable_from(
                        *g,
                        node as int,
                        u,
                    )),
                old(results)@.len() <= results@.len(),
                forall|i: int|
                    0 <= i < old(results)@.len() ==> results@[i] == old(results)@[i],
                forall|i: int|
                    old(results)@.len() <= i < results@.len() ==> emits_with(
                        *g,
                        *namespace_symbols,
                        node as int,
                        file_uri@,
                        (#[trigger] results@[i])@,
                    ),
                forall|j: int|
                    0 <= j < k && #[trigger] edge_hit(*g, *namespace_symbols, node as int, j)
                        ==> result_views(results@).contains(
                        result_view_for(*g, g.edges@[j].sink as int, file_uri@),
                    ),
            decreases g.edges@.len() - k,
        {
            let src = g.edges[k].source;
            let snk = g.edges[k].sink;
            proof {
                assert(src == g.edges@[k as int].source);
                assert(snk == g.edges@[k as int].sink);
            }
            if visited[src] {
                let nd = &g.nodes[snk];
                match &nd.symbol {
                    Some(sym) => {
                        proof {
                            assert(g.nodes@[snk as int].symbol == Some(*sym));
                            assert(node_symbol(*g, snk as int) == sym@);
                        }
                        if namespace_symbols.symbol_in_namespace(sym.as_str()) {
                            match &nd.span {
                                Some(loc) => {
                                    let qr = QueryResult {
                                        file_uri: file_uri.clone(),
                                        line_number: loc.start_position.line,
                                        variables: Vec::new(),
                                        code_location: *loc,
                                    };
                                    proof {
                                        assert(g.nodes@[snk as int].span == Some(*loc));
                                        assert(qr@ =~= result_view_for(
                                            *g,
                                            snk as int,
                                            file_uri@,
                                        ));
                                    }
                                    let ghost pre = results@;
                                    results.push(qr);
                                    proof {
                                        assert(result_views(results@) =~= result_views(pre).push(
                                            qr@,
                                        ));
                                        lemma_push_contains(result_views(pre), qr@);
                                        assert(edge_hit(
                                            *g,
                                            *namespace_symbols,
                                            node as int,
                                            k as int,
                                        ));
                                        assert(emits_with(
                                            *g,
                                            *namespace_symbols,
                                            node as int,
                                            file_uri@,
                                            qr@,
                                        ));
                                        assert(result_views(results@).contains(qr@));
                                        assert(result_views(results@) =~= result_views(
                                            old(results)@,
                                        ) + walk_hits_upto(
                                            *g,
                                            *namespace_symbols,
                                            node as int,
                                            file_uri@,
                                            k + 1 as int,
                                        ));
                                    }
                                },
                                None => {},
                            }
                        }
                    },
                    None => {},
                }
            }
            proof {
                assert(result_views(results@) == result_views(old(results)@) + walk_hits_upto(
                    *g,
                    *namespace_symbols,
                    node as int,
                    file_uri@,
                    k + 1 as int,
                ));
            }
            k += 1;
        }
        proof {
            assert forall|qv: QueryResultView|
                #[trigger] emits_with(
                    *self.db,
                    *namespace_symbols,
                    node as int,
                    file_uri@,
                    qv,
                ) implies result_views(results@).contains(qv) by {
                let j = choose|j: int|
                    #[trigger] edge_hit(*g, *namespace_symbols, node as int, j) && qv
                        == result_view_for(*g, g.edges@[j].sink as int, file_uri@);
                assert(result_views(results@).contains(
                    result_view_for(*g, g.edges@[j].sink as int, file_uri@),
                ));
            }
        }
    }
}

impl<'a> Query for Querier<'a> {
    closed spec fn graph(&self) -> ScopeGraph {
        *self.db
    }

    /// Parses and runs the query, yielding each match's location.
    fn query(&self, query: String) -> (r: Result<Vec<QueryResult>, PatternError>) {
        self.run_query(query)
    }
}

} // verus!
