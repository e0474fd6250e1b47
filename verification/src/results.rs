//! The user-facing payload of a query: a source location inside a file,
//! addressed by the file's URI.

use vstd::prelude::*;

verus! {

/// A zero-based line and a UTF-8 column offset within that line.
#[derive(Clone, Copy, Debug, PartialEq, Eq, Structural)]
pub struct Position {
    pub line: usize,
    pub character: usize,
}

/// The source span of a matched node.
#[derive(Clone, Copy, Debug, PartialEq, Eq, Structural)]
pub struct Location {
    pub start_position: Position,
    pub end_position: Position,
}

/// One match: where it lives (file URI and span) and a closed bag of
/// auxiliary string annotations reserved for future use.
#[derive(Debug)]
pub struct QueryResult {
    pub file_uri: String,
    pub line_number: usize,
    pub variables: Vec<(String, String)>,
    pub code_location: Location,
}

/// The mathematical form of a `QueryResult`.
#[verifier::ext_equal]
pub struct QueryResultView {
    pub file_uri: Seq<char>,
    pub line_number: nat,
    pub variables: Seq<(Seq<char>, Seq<char>)>,
    pub code_location: Location,
}

impl View for QueryResult {
    type V = QueryResultView;

    open spec fn view(&self) -> QueryResultView {
        QueryResultView {
            file_uri: self.file_uri@,
            line_number: self.line_number as nat,
            variables: self.variables@.map_values(|kv: (String, String)| (kv.0@, kv.1@)),
            code_location: self.code_location,
        }
    }
}

/// The views of a list of results.
pub open spec fn result_views(rs: Seq<QueryResult>) -> Seq<QueryResultView> {
    rs.map_values(|r: QueryResult| r@)
}

} // verus!
