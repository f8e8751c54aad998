//! Messages exchanged with the editor, one JSON document per line.
use vstd::prelude::*;

verus! {

/// A request sent by the editor.
#[derive(Debug)]
pub enum Request {
    /// Rebuild the route index of a workspace with the given Symfony binary.
    Index { id: u64, workspace_path: String, symfony_binary: String },
    /// Find every route name in a document.
    Search { id: u64, content: String },
}

/// The answer to a request, carrying the request's id.
#[derive(Debug)]
pub enum Response {
    /// The index was rebuilt and holds `count` routes.
    Indexed { id: u64, count: usize },
    /// The route names found in a document.
    Searched { id: u64, matches: Vec<TextMatch> },
    /// The request failed.
    Error { id: u64, message: String },
}

/// Location of a route controller declaration in a PHP file.
#[derive(Debug)]
pub struct RouteInfo {
    /// Absolute path to the PHP file.
    pub file: String,
    /// 1-indexed line number of the class or method declaration.
    pub line: u32,
}

/// A single occurrence of a route name found in a document.
#[derive(Debug)]
pub struct TextMatch {
    pub route: String,
    pub position: MatchPosition,
    pub file: RouteInfo,
}

/// Where an occurrence starts and ends.
#[derive(Debug)]
pub struct MatchPosition {
    pub start: LineCol,
    pub end: LineCol,
}

/// 0-indexed line and column (compatible with VSCode's `vscode.Position`).
#[derive(Debug)]
pub struct LineCol {
    pub line: u32,
    pub col: u32,
}

impl RouteInfo {
    /// A copy of this location.
    pub fn duplicate(&self) -> (r: RouteInfo)
        ensures
            r == *self,
    {
        RouteInfo { file: self.file.clone(), line: self.line }
    }
}

} // verus!
