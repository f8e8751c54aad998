use route_resolver::protocol::{Response, RouteInfo};
use route_resolver::route_index::RouteIndex;
use route_resolver::sidecar::{SidecarEvent, SidecarState};

fn index_of(routes: &[(&str, &str, u32)]) -> RouteIndex {
    let mut index = RouteIndex::new();
    for (name, file, line) in routes {
        index.insert(name.to_string(), RouteInfo { file: file.to_string(), line: *line });
    }
    index
}

#[test]
fn search_before_indexing_is_an_error() {
    let mut state = SidecarState::new();
    match state.handle_event(SidecarEvent::SearchRequested { id: 7, content: "'x'".to_string() }) {
        Response::Error { id, message } => {
            assert_eq!(id, 7);
            assert_eq!(message, "Route index is empty — run indexation first.");
        }
        other => panic!("unexpected response {:?}", other),
    }
}

#[test]
fn indexing_then_searching() {
    let mut state = SidecarState::new();
    let index = index_of(&[("app_home", "/w/src/Home.php", 12), ("app_about", "/w/src/About.php", 4)]);
    match state.handle_event(SidecarEvent::Indexed { id: 1, outcome: Ok(index) }) {
        Response::Indexed { id, count } => {
            assert_eq!(id, 1);
            assert_eq!(count, 2);
        }
        other => panic!("unexpected response {:?}", other),
    }
    match state.handle_event(SidecarEvent::SearchRequested { id: 2, content: "a\n{{ path('app_about') }}".to_string() }) {
        Response::Searched { id, matches } => {
            assert_eq!(id, 2);
            assert_eq!(matches.len(), 1);
            assert_eq!(matches[0].route, "app_about");
            assert_eq!(matches[0].position.start.line, 1);
            assert_eq!(matches[0].position.start.col, 9);
            assert_eq!(matches[0].position.end.line, 1);
            assert_eq!(matches[0].position.end.col, 18);
            assert_eq!(matches[0].file.file, "/w/src/About.php");
            assert_eq!(matches[0].file.line, 4);
        }
        other => panic!("unexpected response {:?}", other),
    }
}

#[test]
fn failed_indexing_keeps_previous_index() {
    let mut state = SidecarState::new();
    state.handle_event(SidecarEvent::Indexed { id: 1, outcome: Ok(index_of(&[("r", "/r.php", 1)])) });
    match state.handle_event(SidecarEvent::Indexed { id: 2, outcome: Err("boom".to_string()) }) {
        Response::Error { id, message } => {
            assert_eq!(id, 2);
            assert_eq!(message, "boom");
        }
        other => panic!("unexpected response {:?}", other),
    }
    match state.handle_event(SidecarEvent::SearchRequested { id: 3, content: "\"r\"".to_string() }) {
        Response::Searched { matches, .. } => assert_eq!(matches.len(), 1),
        other => panic!("unexpected response {:?}", other),
    }
}

#[test]
fn indexing_nothing_drops_the_searcher() {
    let mut state = SidecarState::new();
    state.handle_event(SidecarEvent::Indexed { id: 1, outcome: Ok(index_of(&[("r", "/r.php", 1)])) });
    match state.handle_event(SidecarEvent::Indexed { id: 2, outcome: Ok(RouteIndex::new()) }) {
        Response::Indexed { count, .. } => assert_eq!(count, 0),
        other => panic!("unexpected response {:?}", other),
    }
    match state.handle_event(SidecarEvent::SearchRequested { id: 3, content: "'r'".to_string() }) {
        Response::Error { .. } => {}
        other => panic!("unexpected response {:?}", other),
    }
}
