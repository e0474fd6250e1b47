//! Parsing a dotted query string into segments, and matching dotted symbol
//! names against the parsed segments.

use vstd::prelude::*;

use crate::pattern::regex_found;
use crate::pattern::regex_try_find;
use crate::pattern::regex_valid;
use crate::strings::contains_char;
use crate::strings::join_dots;
use crate::strings::lemma_join_split_dots;
use crate::strings::seq_views;
use crate::strings::split_dots;
use crate::strings::split_dotted;
use crate::strings::str_eq;
use vstd::string::StringExecFns;

verus! {

/// The mathematical form of one query segment: an exact literal, the bare
/// wildcard, or a regex pattern (any other segment containing `*`).
pub enum SegView {
    Literal(Seq<char>),
    Wildcard,
    Pattern(Seq<char>),
}

impl SegView {
    /// The raw text this segment was parsed from.
    pub open spec fn text(self) -> Seq<char> {
        match self {
            SegView::Literal(t) => t,
            SegView::Wildcard => seq!['*'],
            SegView::Pattern(t) => t,
        }
    }

    /// A well-formed segment: literals hold no `*`, patterns hold a `*`, are
    /// not the bare wildcard, and compile.
    pub open spec fn wf(self) -> bool {
        match self {
            SegView::Literal(t) => !t.contains('*'),
            SegView::Wildcard => true,
            SegView::Pattern(t) => t.contains('*') && t != seq!['*'] && regex_valid(t),
        }
    }

    /// Whether this segment accepts the symbol text `sym`: literals by exact
    /// equality, the wildcard always, patterns by unanchored regex search.
    pub open spec fn accepts(self, sym: Seq<char>) -> bool {
        match self {
            SegView::Literal(t) => t == sym,
            SegView::Wildcard => true,
            SegView::Pattern(t) => regex_found(t, sym),
        }
    }
}

/// How one raw dotted component is classified when a query is parsed.
pub open spec fn classify_part(t: Seq<char>) -> SegView {
    if t == seq!['*'] {
        SegView::Wildcard
    } else if t.contains('*') {
        SegView::Pattern(t)
    } else {
        SegView::Literal(t)
    }
}

/// A raw component that the parser must reject: a `*`-bearing segment, other
/// than the bare wildcard, that the regex engine refuses.
pub open spec fn part_rejected(t: Seq<char>) -> bool {
    t.contains('*') && t != seq!['*'] && !regex_valid(t)
}

/// The segments a query string parses to, when every component is accepted.
pub open spec fn spec_parse(q: Seq<char>) -> Seq<SegView> {
    split_dots(q).map_values(|t: Seq<char>| classify_part(t))
}

/// Whether parsing the query succeeds: no component is rejected.
pub open spec fn spec_parse_ok(q: Seq<char>) -> bool {
    forall|i: int| 0 <= i < split_dots(q).len() ==> !part_rejected(#[trigger] split_dots(q)[i])
}

/// A `*`-bearing query segment that the regex engine refused.
#[derive(Debug)]
pub struct PatternError {
    pub segment: String,
}

/// One executable query segment; its view is the corresponding `SegView`.
#[derive(Debug)]
pub enum SearchPart {
    Literal(String),
    Wildcard,
    Pattern(String),
}

impl View for SearchPart {
    type V = SegView;

    open spec fn view(&self) -> SegView {
        match self {
            SearchPart::Literal(s) => SegView::Literal(s@),
            SearchPart::Wildcard => SegView::Wildcard,
            SearchPart::Pattern(s) => SegView::Pattern(s@),
        }
    }
}

impl SearchPart {
    /// Matches this segment against a candidate symbol text.
    pub fn matches(&self, candidate: &str) -> (r: bool)
        requires
            self@.wf(),
        ensures
            r == self@.accepts(candidate@),
    {
        match self {
            SearchPart::Literal(t) => str_eq(t.as_str(), candidate),
            SearchPart::Wildcard => true,
            SearchPart::Pattern(t) => match regex_try_find(t.as_str(), candidate) {
                Some(m) => m,
                None => false,
            },
        }
    }

    /// The raw text of this segment.
    pub fn text(&self) -> (t: String)
        ensures
            t@ == self@.text(),
    {
        match self {
            SearchPart::Literal(s) => s.clone(),
            SearchPart::Pattern(s) => s.clone(),
            SearchPart::Wildcard => {
                proof {
                    reveal_strlit("*");
                    assert("*"@ =~= seq!['*']);
                }
                String::from_str("*")
            },
        }
    }
}

/// A parsed query: an ordered, never empty list of segments.
#[derive(Debug)]
pub struct Search {
    pub parts: Vec<SearchPart>,
}

/// The views of a list of executable segments.
pub open spec fn part_views(ps: Seq<SearchPart>) -> Seq<SegView> {
    ps.map_values(|p: SearchPart| p@)
}

impl View for Search {
    type V = Seq<SegView>;

    open spec fn view(&self) -> Seq<SegView> {
        part_views(self.parts@)
    }
}

/// Whether the last segment of a query is the bare wildcard, which selects
/// the namespace-membership search mode.
pub open spec fn spec_all_references(segs: Seq<SegView>) -> bool {
    segs.len() > 0 && segs.last() is Wildcard
}

/// A dotted symbol whose parts, position by position, are all accepted by the
/// leading segments: the symbol may not have more parts than the query.
pub open spec fn spec_partial_namespace(segs: Seq<SegView>, sym: Seq<char>) -> bool {
    &&& split_dots(sym).len() <= segs.len()
    &&& forall|i: int|
        0 <= i < split_dots(sym).len() ==> segs[i].accepts(#[trigger] split_dots(sym)[i])
}

/// A dotted symbol with exactly one part fewer than the query has segments,
/// every part accepted by the segment at its position.
pub open spec fn spec_match_namespace(segs: Seq<SegView>, sym: Seq<char>) -> bool {
    &&& split_dots(sym).len() == segs.len() - 1
    &&& forall|i: int|
        0 <= i < split_dots(sym).len() ==> segs[i].accepts(#[trigger] split_dots(sym)[i])
}

impl Search {
    /// Every segment is well formed and there is at least one.
    pub open spec fn wf(self) -> bool {
        self@.len() >= 1 && forall|i: int| 0 <= i < self@.len() ==> (#[trigger] self@[i]).wf()
    }

    /// Parses a dotted query string. Each component containing `*` other
    /// than the bare wildcard is compiled as a regex; the first component the
    /// regex engine refuses is returned as the error.
    pub fn create_search(query: String) -> (r: Result<Search, PatternError>)
        ensures
            (r is Ok) == spec_parse_ok(query@),
            r matches Ok(se) ==> se@ == spec_parse(query@) && se.wf(),
            r matches Err(e)
                ==> exists|i: int|
                    {
                        &&& 0 <= i < split_dots(query@).len()
                        &&& part_rejected(#[trigger] split_dots(query@)[i])
                        &&& e.segment@ == split_dots(query@)[i]
                        &&& forall|j: int| 0 <= j < i ==> !part_rejected(split_dots(query@)[j])
                    },
    {
        let ghost ps = split_dots(query@);
        let raw = split_dotted(query.as_str());
        let mut parts: Vec<SearchPart> = Vec::new();
        let mut i: usize = 0;
        proof {
            reveal_strlit("*");
            assert("*"@ =~= seq!['*']);
            assert(seq!['*'][0] == '*');
        }
        while i < raw.len()
            invariant
                seq_views(raw@) == ps,
                ps == split_dots(query@),
                i <= raw.len(),
                parts@.map_values(|p: SearchPart| p@) == spec_parse(query@).take(i as int),
                forall|j: int| 0 <= j < i ==> !part_rejected(ps[j]),
                forall|j: int| 0 <= j < parts@.len() ==> (#[trigger] parts@[j])@.wf(),
            decreases raw.len() - i,
        {
            let t = &raw[i];
            proof {
                reveal_strlit("*");
                assert("*"@ =~= seq!['*']);
                assert(seq!['*'][0] == '*');
                assert(t@ == ps[i as int]);
            }
            if contains_char(t.as_str(), '*') {
                if str_eq(t.as_str(), "*") {
                    parts.push(SearchPart::Wildcard);
                } else {
                    match regex_try_find(t.as_str(), "") {
                        Some(_) => {
                            parts.push(SearchPart::Pattern(t.clone()));
                        },
                        None => {
                            proof {
                                assert(part_rejected(ps[i as int]));
                            }
                            return Err(PatternError { segment: t.clone() });
                        },
                    }
                }
            } else {
                parts.push(SearchPart::Literal(t.clone()));
            }
            proof {
                assert(parts@.last()@ == classify_part(ps[i as int]));
                assert(spec_parse(query@).take(i + 1 as int) =~= spec_parse(query@).take(
                    i as int,
                ).push(classify_part(ps[i as int])));
                assert(parts@.map_values(|p: SearchPart| p@) =~= spec_parse(query@).take(
                    i + 1 as int,
                ));
            }
            i += 1;
        }
        proof {
            assert(spec_parse(query@).take(raw@.len() as int) =~= spec_parse(query@));
            crate::strings::lemma_split_dots_len(query@);
        }
        Ok(Search { parts })
    }

    /// Whether this query's final segment is the bare wildcard.
    pub fn all_references_search(&self) -> (r: bool)
        ensures
            r == spec_all_references(self@),
    {
        if self.parts.len() == 0 {
            false
        } else {
            match &self.parts[self.parts.len() - 1] {
                SearchPart::Wildcard => true,
                _ => false,
            }
        }
    }

    /// Whether `symbol`'s dotted parts are all accepted by the leading
    /// segments of this query.
    pub fn partial_namespace(&self, symbol: &str) -> (r: bool)
        requires
            self.wf(),
        ensures
            r == spec_partial_namespace(self@, symbol@),
    {
        let sym_parts = split_dotted(symbol);
        if sym_parts.len() > self.parts.len() {
            return false;
        }
        let mut i: usize = 0;
        while i < sym_parts.len()
            invariant
                self.wf(),
                seq_views(sym_parts@) == split_dots(symbol@),
                sym_parts@.len() <= self.parts@.len(),
                i <= sym_parts@.len(),
                forall|j: int|
                    0 <= j < i ==> self@[j].accepts(#[trigger] split_dots(symbol@)[j]),
            decreases sym_parts@.len() - i,
        {
            proof {
                assert(sym_parts@[i as int]@ == split_dots(symbol@)[i as int]);
                assert(self@[i as int] == self.parts@[i as int]@);
            }
            if !self.parts[i].matches(sym_parts[i].as_str()) {
                return false;
            }
            i += 1;
        }
        true
    }

    /// Whether `symbol` names the namespace this query searches under: its
    /// dot-part count is exactly one less than the query's segment count and
    /// every part is accepted by the segment at its position.
    pub fn match_namespace(&self, symbol: &str) -> (r: bool)
        requires
            self.wf(),
        ensures
            r == spec_match_namespace(self@, symbol@),
    {
        let sym_parts = split_dotted(symbol);
        if sym_parts.len() != self.parts.len() - 1 {
            return false;
        }
        let mut i: usize = 0;
        while i < sym_parts.len()
            invariant
                self.wf(),
                seq_views(sym_parts@) == split_dots(symbol@),
                sym_parts@.len() == self.parts@.len() - 1,
                i <= sym_parts@.len(),
                forall|j: int|
                    0 <= j < i ==> self@[j].accepts(#[trigger] split_dots(symbol@)[j]),
            decreases sym_parts@.len() - i,
        {
            proof {
                assert(sym_parts@[i as int]@ == split_dots(symbol@)[i as int]);
                assert(self@[i as int] == self.parts@[i as int]@);
            }
            if !self.parts[i].matches(sym_parts[i].as_str()) {
                return false;
            }
            i += 1;
        }
        true
    }
}

/// The texts of a query's parsed segments.
pub open spec fn segment_texts(segs: Seq<SegView>) -> Seq<Seq<char>> {
    segs.map_values(|sv: SegView| sv.text())
}

/// Round trip: splitting a parsed query's segment texts back apart by dots
/// and rejoining them with dots reproduces the original query string.
pub proof fn lemma_search_round_trip(query: Seq<char>)
    ensures
        join_dots(segment_texts(spec_parse(query))) == query,
{
    lemma_join_split_dots(query);
    assert(segment_texts(spec_parse(query)) =~~= split_dots(query));
}

} // verus!
