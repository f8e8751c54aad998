//! The sidecar's decisions: what each request does to the index and what it
//! is answered. Running `debug:router` and reading files happen outside.
use vstd::prelude::*;
use vstd::string::StringExecFns;
use vstd::utf8::encode_utf8;

use crate::protocol::{Response, RouteInfo, TextMatch};
use crate::route_index::RouteIndex;
use crate::text_search::{
    hits_fit, leftmost_longest_buildable, leftmost_longest_matches, none_skipped, reports_quoted_hits, RouteSearcher,
};

verus! {

/// What the sidecar reacts to.
pub enum SidecarEvent {
    /// Indexing of a workspace finished with a new index, or failed with a
    /// message.
    Indexed { id: u64, outcome: Result<RouteIndex, String> },
    /// A document is to be searched for route names.
    SearchRequested { id: u64, content: String },
}

/// The message answered to a search made while no searcher exists.
pub open spec fn empty_index_message() -> Seq<char> {
    "Route index is empty — run indexation first."@
}

/// The current route index and the searcher built from it. The searcher is
/// rebuilt whenever the index changes.
pub struct SidecarState {
    route_index: RouteIndex,
    searcher: Option<RouteSearcher>,
}

/// `searcher` is the searcher that `RouteSearcher::new` gives for `index`.
pub open spec fn searcher_for(searcher: Option<RouteSearcher>, index: RouteIndex) -> bool {
    &&& searcher is None <==> (index@.len() == 0 || !leftmost_longest_buildable(index.names()))
    &&& searcher matches Some(s) ==> s.routes() == index@ && s.route_names() == index.names()
}

/// `matches` is the result of searching `content` with `searcher`: the
/// quoted ones among the leftmost-longest matches of the route names, which
/// fit the document and pass over no occurrence.
pub open spec fn search_result(searcher: RouteSearcher, content: Seq<char>, matches: Seq<TextMatch>) -> bool {
    let hits = leftmost_longest_matches(searcher.route_names(), content);
    &&& reports_quoted_hits(matches, searcher.route_names(), searcher.routes(), encode_utf8(content), hits)
    &&& hits_fit(searcher.route_names(), encode_utf8(content), hits)
    &&& none_skipped(searcher.route_names(), encode_utf8(content), hits)
}

impl SidecarState {
    /// The routes of the current index.
    pub closed spec fn routes(&self) -> Map<Seq<char>, RouteInfo> {
        self.route_index@
    }

    /// The current searcher, if any.
    pub closed spec fn searcher(&self) -> Option<RouteSearcher> {
        self.searcher
    }

    /// The state before any indexing: no routes and no searcher.
    pub fn new() -> (r: SidecarState)
        ensures
            r.routes() == Map::<Seq<char>, RouteInfo>::empty(),
            r.searcher() is None,
    {
        SidecarState { route_index: RouteIndex::new(), searcher: None }
    }

    /// Applies an event to the state and returns the response to send.
    ///
    /// A finished indexing replaces the index, rebuilds the searcher, and is
    /// answered with the number of routes; a failed indexing leaves the state
    /// as it was and is answered with its message. A search is answered with
    /// the matches of the current searcher, or with an error when there is
    /// none; it leaves the state as it was.
    pub fn handle_event(&mut self, event: SidecarEvent) -> (r: Response)
        ensures
            match event {
                SidecarEvent::Indexed { id, outcome: Ok(index) } => {
                    &&& final(self).routes() == index@
                    &&& searcher_for(final(self).searcher(), index)
                    &&& r matches Response::Indexed { id: rid, count } && rid == id && count == index@.len()
                },
                SidecarEvent::Indexed { id, outcome: Err(message) } => {
                    &&& *final(self) == *old(self)
                    &&& r matches Response::Error { id: rid, message: m } && rid == id && m == message
                },
                SidecarEvent::SearchRequested { id, content } => {
                    &&& *final(self) == *old(self)
                    &&& match old(self).searcher() {
                        Some(s) => r matches Response::Searched { id: rid, matches } && rid == id
                            && search_result(s, content@, matches@),
                        None => r matches Response::Error { id: rid, message } && rid == id
                            && message@ == empty_index_message(),
                    }
                },
            },
    {
        match event {
            SidecarEvent::Indexed { id, outcome } => match outcome {
                Ok(index) => {
                    let count = index.len();
                    let searcher = RouteSearcher::new(&index);
                    self.route_index = index;
                    self.searcher = searcher;
                    Response::Indexed { id, count }
                },
                Err(message) => Response::Error { id, message },
            },
            SidecarEvent::SearchRequested { id, content } => match &self.searcher {
                Some(s) => {
                    let matches = s.search(content.as_str());
                    Response::Searched { id, matches }
                },
                None => {
                    let mut message = String::new();
                    message.append("Route index is empty — run indexation first.");
                    assert(message@ =~= empty_index_message());
                    Response::Error { id, message }
                },
            },
        }
    }
}

} // verus!
