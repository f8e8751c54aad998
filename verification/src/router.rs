//! Selection of the routes to index from the output of
//! `symfony console debug:router --format=json`.
use vstd::prelude::*;
use vstd::string::StringExecFns;

use crate::json::{json_document, json_get, json_str, parse_json, JsonMember, JsonValue};
use crate::php_finder::has_app_prefix;
use crate::protocol::RouteInfo;
use crate::route_index::RouteIndex;
use crate::text::{chars_of, string_from_chars};

verus! {

/// A route whose controller is a class of the `App\` namespace: the route's
/// name, the controller class, and the controller method when one is named.
#[derive(Debug)]
pub struct RouteCandidate {
    pub name: String,
    pub class_fqcn: String,
    pub method: Option<String>,
}

/// The text of a route candidate.
pub type CandidateView = (Seq<char>, Seq<char>, Option<Seq<char>>);

impl View for RouteCandidate {
    type V = CandidateView;

    open spec fn view(&self) -> CandidateView {
        (
            self.name@,
            self.class_fqcn@,
            match self.method {
                Some(m) => Some(m@),
                None => None,
            },
        )
    }
}

/// The first index at or after `from` where `::` starts in `s`.
pub open spec fn first_double_colon(s: Seq<char>, from: int) -> Option<int>
    decreases s.len() - from,
{
    if from < 0 || from + 1 >= s.len() {
        None
    } else if s[from] == ':' && s[from + 1] == ':' {
        Some(from)
    } else {
        first_double_colon(s, from + 1)
    }
}

/// `s` split around its first `::`, as `str::split_once("::")` does.
pub open spec fn split_at_double_colon(s: Seq<char>) -> Option<(Seq<char>, Seq<char>)> {
    match first_double_colon(s, 0) {
        Some(i) => Some((s.take(i), s.skip(i + 2))),
        None => None,
    }
}

/// Splits `s` around its first `::`: the text before it and the text after
/// it, or `None` when `s` holds no `::`.
pub fn split_once_double_colon(s: &str) -> (r: Option<(String, String)>)
    ensures
        match split_at_double_colon(s@) {
            Some((before, after)) => r matches Some((b, a)) && b@ == before && a@ == after,
            None => r is None,
        },
{
    let chars = chars_of(s);
    let mut i: usize = 0;
    while i < chars.len()
        invariant
            i <= chars@.len(),
            chars@ == s@,
            first_double_colon(s@, 0) == first_double_colon(s@, i as int),
        decreases chars@.len() - i,
    {
        if i + 1 < chars.len() && chars[i] == ':' && chars[i + 1] == ':' {
            let before = string_from_chars(chars.as_slice(), 0, i);
            let after = string_from_chars(chars.as_slice(), i + 2, chars.len());
            assert(chars@.subrange(0, i as int) =~= s@.take(i as int));
            assert(chars@.subrange(i + 2, chars@.len() as int) =~= s@.skip(i + 2));
            return Some((before, after));
        }
        i = i + 1;
    }
    None
}

/// The `_controller` default of a route's data, when it is a string.
pub open spec fn controller_of(data: JsonValue) -> Option<Seq<char>> {
    match json_get(data, "defaults"@) {
        Some(defaults) => match json_get(defaults, "_controller"@) {
            Some(controller) => json_str(controller),
            None => None,
        },
        None => None,
    }
}

/// The candidate for route `name` with data `data`: none for a name that
/// starts with `_` (Symfony-internal and placeholder routes), for data with
/// no string controller, or for a controller outside the `App\` namespace;
/// otherwise the controller split around its first `::` into class and
/// method, or the whole controller as the class of an invokable controller.
pub open spec fn candidate_of(name: Seq<char>, data: JsonValue) -> Option<CandidateView> {
    if name.len() > 0 && name[0] == '_' {
        None
    } else {
        match controller_of(data) {
            None => None,
            Some(controller) => if !has_app_prefix(controller) {
                None
            } else {
                match split_at_double_colon(controller) {
                    Some((class, method)) => Some((name, class, Some(method))),
                    None => Some((name, controller, None)),
                }
            },
        }
    }
}

/// The candidates of the members of the routes object, in order.
pub open spec fn candidates_of(members: Seq<JsonMember>) -> Seq<CandidateView>
    decreases members.len(),
{
    if members.len() == 0 {
        Seq::empty()
    } else {
        let rest = candidates_of(members.drop_last());
        match candidate_of(members.last().key@, members.last().value) {
            Some(c) => rest.push(c),
            None => rest,
        }
    }
}

/// Law: every selected route has a name that does not start with `_`, comes
/// from a member of the routes object, and names a controller class of the
/// `App\` namespace.
pub proof fn law_candidates_are_app_routes(members: Seq<JsonMember>)
    ensures
        forall|i: int|
            0 <= i < candidates_of(members).len() ==> {
                let c = #[trigger] candidates_of(members)[i];
                &&& !(c.0.len() > 0 && c.0[0] == '_')
                &&& has_app_prefix(c.1)
                &&& exists|j: int| 0 <= j < members.len() && members[j].key@ == c.0
            },
    decreases members.len(),
{
    if members.len() > 0 {
        let prefix = members.drop_last();
        law_candidates_are_app_routes(prefix);
        let last = members.last();
        assert forall|i: int| 0 <= i < candidates_of(members).len() implies {
            let c = #[trigger] candidates_of(members)[i];
            &&& !(c.0.len() > 0 && c.0[0] == '_')
            &&& has_app_prefix(c.1)
            &&& exists|j: int| 0 <= j < members.len() && members[j].key@ == c.0
        } by {
            let c = candidates_of(members)[i];
            if i < candidates_of(prefix).len() {
                assert(c == candidates_of(prefix)[i]);
                let j = choose|j: int| 0 <= j < prefix.len() && prefix[j].key@ == c.0;
                assert(members[j] == prefix[j]);
            } else {
                assert(candidate_of(last.key@, last.value) == Some(c));
                assert(members[members.len() - 1].key@ == c.0);
                lemma_split_keeps_app_prefix(controller_of(last.value).unwrap());
            }
        }
    }
}

/// Splitting an `App\` controller around its first `::` keeps the prefix in
/// the class part.
proof fn lemma_split_keeps_app_prefix(controller: Seq<char>)
    requires
        has_app_prefix(controller),
    ensures
        split_at_double_colon(controller) matches Some((class, _)) ==> has_app_prefix(class),
{
    lemma_first_double_colon_bounds(controller, 0);
}

/// A `::` found from `from` on starts at or after `from`.
proof fn lemma_first_double_colon_bounds(s: Seq<char>, from: int)
    requires
        0 <= from,
    ensures
        first_double_colon(s, from) matches Some(i) ==> from <= i && i + 1 < s.len() && s[i] == ':',
    decreases s.len() - from,
{
    if from + 1 < s.len() && !(s[from] == ':' && s[from + 1] == ':') {
        lemma_first_double_colon_bounds(s, from + 1);
    }
}

/// The candidate for one route, if its controller is an `App\` class.
pub fn route_candidate(name: &str, data: &JsonValue) -> (r: Option<RouteCandidate>)
    ensures
        match candidate_of(name@, *data) {
            Some(c) => r matches Some(rc) && rc@ == c,
            None => r is None,
        },
{
    let name_chars = chars_of(name);
    if name_chars.len() > 0 && name_chars[0] == '_' {
        return None;
    }
    let controller = match data.get("defaults") {
        Some(defaults) => match defaults.get("_controller") {
            Some(c) => c.as_str(),
            None => None,
        },
        None => None,
    };
    let controller = match controller {
        Some(c) => c,
        None => {
            return None;
        },
    };
    let chars = chars_of(controller);
    if !(chars.len() >= 4 && chars[0] == 'A' && chars[1] == 'p' && chars[2] == 'p' && chars[3]
        == '\\') {
        return None;
    }
    match split_once_double_colon(controller) {
        Some((class, method)) => Some(
            RouteCandidate { name: name.to_owned(), class_fqcn: class, method: Some(method) },
        ),
        None => Some(RouteCandidate { name: name.to_owned(), class_fqcn: controller.to_owned(), method: None }),
    }
}

/// The views of a sequence of candidates.
pub open spec fn candidate_views(s: Seq<RouteCandidate>) -> Seq<CandidateView> {
    s.map_values(|c: RouteCandidate| c@)
}

/// The candidates among the members of the routes object, in order.
pub fn route_candidates(routes: &Vec<JsonMember>) -> (r: Vec<RouteCandidate>)
    ensures
        candidate_views(r@) == candidates_of(routes@),
{
    let mut out: Vec<RouteCandidate> = Vec::new();
    let mut i: usize = 0;
    while i < routes.len()
        invariant
            i <= routes@.len(),
            candidate_views(out@) == candidates_of(routes@.take(i as int)),
        decreases routes@.len() - i,
    {
        assert(routes@.take(i + 1).drop_last() =~= routes@.take(i as int));
        assert(routes@.take(i + 1).last() == routes@[i as int]);
        match route_candidate(routes[i].key.as_str(), &routes[i].value) {
            Some(c) => {
                let ghost before = out@;
                let ghost cv = c@;
                out.push(c);
                assert(candidate_views(out@) =~= candidate_views(before).push(cv));
            },
            None => {},
        }
        i = i + 1;
    }
    assert(routes@.take(i as int) =~= routes@);
    out
}

/// What the routes listing `output` gives: the candidates of its top-level
/// object, an error naming the parse error, or an error when the document is
/// not an object.
pub open spec fn listing_result(output: Seq<char>) -> Result<Seq<CandidateView>, Seq<char>> {
    match json_document(output) {
        Err(e) => Err("Failed to parse debug:router JSON: "@ + e),
        Ok(JsonValue::Object(members)) => Ok(candidates_of(members@)),
        Ok(_) => Err("Expected a JSON object at top level of debug:router output"@),
    }
}

/// Parses the JSON output of `debug:router` and selects the routes whose
/// controller is a PHP-namespaced `App\` class; all others are skipped.
pub fn parse_route_listing(output: &str) -> (r: Result<Vec<RouteCandidate>, String>)
    ensures
        match r {
            Ok(cs) => listing_result(output@) == Ok::<Seq<CandidateView>, Seq<char>>(candidate_views(cs@)),
            Err(e) => listing_result(output@) == Err::<Seq<CandidateView>, Seq<char>>(e@),
        },
{
    match parse_json(output) {
        Err(e) => {
            let mut message = String::new();
            message.append("Failed to parse debug:router JSON: ");
            message.append(e.as_str());
            assert(message@ =~= "Failed to parse debug:router JSON: "@ + e@);
            Err(message)
        },
        Ok(JsonValue::Object(members)) => Ok(route_candidates(&members)),
        Ok(_) => {
            let mut message = String::new();
            message.append("Expected a JSON object at top level of debug:router output");
            assert(message@ =~= "Expected a JSON object at top level of debug:router output"@);
            Err(message)
        },
    }
}

/// Records the outcome of locating a route's controller: a located route is
/// added to the index, a route whose source cannot be resolved is skipped.
pub fn record_location(index: &mut RouteIndex, name: String, located: Result<RouteInfo, String>)
    ensures
        match located {
            Ok(info) => final(index)@ == old(index)@.insert(name@, info),
            Err(_) => final(index)@ == old(index)@,
        },
{
    match located {
        Ok(info) => index.insert(name, info),
        Err(_) => {},
    }
}


/// The routes that recording each outcome in turn gives, starting from no
/// routes: a route whose controller was located maps to its location, a
/// route whose source could not be resolved is skipped, and a later outcome
/// for the same name replaces an earlier one.
pub open spec fn located_routes(outcomes: Seq<(RouteCandidate, Result<RouteInfo, String>)>) -> Map<
    Seq<char>,
    RouteInfo,
>
    decreases outcomes.len(),
{
    if outcomes.len() == 0 {
        Map::empty()
    } else {
        let rest = located_routes(outcomes.drop_last());
        match outcomes.last().1 {
            Ok(info) => rest.insert(outcomes.last().0.name@, info),
            Err(_) => rest,
        }
    }
}

/// Builds the route index from the candidates, each paired with the outcome
/// of locating its controller, in order.
pub fn index_located_routes(outcomes: &Vec<(RouteCandidate, Result<RouteInfo, String>)>) -> (index: RouteIndex)
    ensures
        index@ == located_routes(outcomes@),
{
    let mut index = RouteIndex::new();
    let mut i: usize = 0;
    while i < outcomes.len()
        invariant
            i <= outcomes@.len(),
            index@ == located_routes(outcomes@.take(i as int)),
        decreases outcomes@.len() - i,
    {
        assert(outcomes@.take(i + 1).drop_last() =~= outcomes@.take(i as int));
        assert(outcomes@.take(i + 1).last() == outcomes@[i as int]);
        let located = match &outcomes[i].1 {
            Ok(info) => Ok(info.duplicate()),
            Err(message) => Err(message.clone()),
        };
        record_location(&mut index, outcomes[i].0.name.clone(), located);
        i = i + 1;
    }
    assert(outcomes@.take(i as int) =~= outcomes@);
    index
}

/// Law: the index holds exactly the routes whose controller was located, and
/// a located route that no later outcome names again is indexed at its
/// location.
pub proof fn law_index_holds_located_routes(outcomes: Seq<(RouteCandidate, Result<RouteInfo, String>)>)
    ensures
        forall|n: Seq<char>|
            #[trigger] located_routes(outcomes).contains_key(n) <==> exists|i: int|
                0 <= i < outcomes.len() && #[trigger] outcomes[i].0.name@ == n && outcomes[i].1 is Ok,
        forall|i: int|
            #![trigger outcomes[i]]
            0 <= i < outcomes.len() && (forall|j: int| i < j < outcomes.len() ==> #[trigger] outcomes[j].0.name@
                != outcomes[i].0.name@) ==> (outcomes[i].1 matches Ok(info) ==> located_routes(
                outcomes,
            ).contains_key(outcomes[i].0.name@) && located_routes(outcomes)[outcomes[i].0.name@] == info),
    decreases outcomes.len(),
{
    if outcomes.len() > 0 {
        let prefix = outcomes.drop_last();
        law_index_holds_located_routes(prefix);
        let last = outcomes.last();
        let m = located_routes(outcomes);
        let mp = located_routes(prefix);
        assert forall|n: Seq<char>| #[trigger] m.contains_key(n) implies exists|i: int|
            0 <= i < outcomes.len() && #[trigger] outcomes[i].0.name@ == n && outcomes[i].1 is Ok by {
            if last.1 is Ok && last.0.name@ == n {
                assert(outcomes[outcomes.len() - 1].0.name@ == n);
            } else {
                assert(mp.contains_key(n));
                let i = choose|i: int| 0 <= i < prefix.len() && #[trigger] prefix[i].0.name@ == n && prefix[i].1 is Ok;
                assert(outcomes[i] == prefix[i]);
            }
        }
        assert forall|n: Seq<char>| (exists|i: int|
            0 <= i < outcomes.len() && #[trigger] outcomes[i].0.name@ == n && outcomes[i].1 is Ok) implies #[trigger] m.contains_key(n) by {
            let i = choose|i: int| 0 <= i < outcomes.len() && #[trigger] outcomes[i].0.name@ == n && outcomes[i].1 is Ok;
            if i < outcomes.len() - 1 {
                assert(prefix[i] == outcomes[i]);
                assert(mp.contains_key(n));
            }
        }
        assert forall|i: int|
            #![trigger outcomes[i]]
            0 <= i < outcomes.len() && (forall|j: int| i < j < outcomes.len() ==> #[trigger] outcomes[j].0.name@
                != outcomes[i].0.name@) implies (outcomes[i].1 matches Ok(info) ==> m.contains_key(outcomes[i].0.name@)
            && m[outcomes[i].0.name@] == info) by {
            if i < outcomes.len() - 1 {
                assert(prefix[i] == outcomes[i]);
                assert(outcomes[outcomes.len() - 1].0.name@ != outcomes[i].0.name@);
                assert forall|j: int| i < j < prefix.len() implies #[trigger] prefix[j].0.name@ != prefix[i].0.name@ by {
                    assert(prefix[j] == outcomes[j]);
                }
            }
        }
    }
}


/// `s` holds `::` nowhere.
pub open spec fn no_double_colon(s: Seq<char>) -> bool {
    forall|k: int| 0 <= k < s.len() - 1 ==> !(#[trigger] s[k] == ':' && s[k + 1] == ':')
}

/// The controller that a candidate's class and method spell: the class,
/// followed by `::` and the method when there is one.
pub open spec fn candidate_controller(c: CandidateView) -> Seq<char> {
    match c.2 {
        Some(method) => c.1 + seq![':', ':'] + method,
        None => c.1,
    }
}

/// No `::` starts before the first one found from `from` on.
proof fn lemma_first_double_colon_is_first(s: Seq<char>, from: int)
    requires
        0 <= from,
    ensures
        first_double_colon(s, from) matches Some(i) ==> from <= i && i + 1 < s.len() && s[i] == ':' && s[i + 1]
            == ':' && forall|k: int| from <= k < i ==> !(#[trigger] s[k] == ':' && s[k + 1] == ':'),
        first_double_colon(s, from) is None ==> forall|k: int|
            from <= k < s.len() - 1 ==> !(#[trigger] s[k] == ':' && s[k + 1] == ':'),
    decreases s.len() - from,
{
    if from + 1 < s.len() && !(s[from] == ':' && s[from + 1] == ':') {
        lemma_first_double_colon_is_first(s, from + 1);
    }
}

/// The candidate of an `App\` controller spells the controller, and its
/// class holds no `::`.
proof fn lemma_candidate_spells_controller(name: Seq<char>, controller: Seq<char>)
    ensures
        ({
            let c = match split_at_double_colon(controller) {
                Some((class, method)) => (name, class, Some(method)),
                None => (name, controller, None),
            };
            candidate_controller(c) == controller && no_double_colon(c.1)
        }),
{
    lemma_first_double_colon_is_first(controller, 0);
    match first_double_colon(controller, 0) {
        Some(i) => {
            let class = controller.take(i);
            assert(class + seq![':', ':'] + controller.skip(i + 2) =~= controller);
            assert forall|k: int| 0 <= k < class.len() - 1 implies !(#[trigger] class[k] == ':' && class[k + 1] == ':') by {
                assert(class[k] == controller[k] && class[k + 1] == controller[k + 1]);
            }
        },
        None => {},
    }
}

/// Law: every member of the routes object whose name does not start with
/// `_` and whose `defaults._controller` is a string of the `App\` namespace
/// yields a candidate with that name, whose class (holding no `::`) and
/// method spell that controller back.
pub proof fn law_app_routes_are_selected(members: Seq<JsonMember>)
    ensures
        forall|j: int|
            #![trigger members[j]]
            0 <= j < members.len() && !(members[j].key@.len() > 0 && members[j].key@[0] == '_') && (controller_of(
                members[j].value,
            ) matches Some(controller) && has_app_prefix(controller)) ==> exists|k: int|
                0 <= k < candidates_of(members).len() && #[trigger] candidates_of(members)[k].0 == members[j].key@
                    && candidate_controller(candidates_of(members)[k]) == controller_of(members[j].value).unwrap()
                    && no_double_colon(candidates_of(members)[k].1),
    decreases members.len(),
{
    if members.len() > 0 {
        let prefix = members.drop_last();
        law_app_routes_are_selected(prefix);
        let cs = candidates_of(members);
        let cp = candidates_of(prefix);
        let last = members.last();
        assert forall|k: int| 0 <= k < cp.len() implies #[trigger] cs[k] == cp[k] by {}
        assert forall|j: int|
            #![trigger members[j]]
            0 <= j < members.len() && !(members[j].key@.len() > 0 && members[j].key@[0] == '_') && (controller_of(
                members[j].value,
            ) matches Some(controller) && has_app_prefix(controller)) implies exists|k: int|
                0 <= k < cs.len() && #[trigger] cs[k].0 == members[j].key@ && candidate_controller(cs[k])
                    == controller_of(members[j].value).unwrap() && no_double_colon(cs[k].1) by {
            if j < members.len() - 1 {
                assert(prefix[j] == members[j]);
                let k = choose|k: int|
                    0 <= k < cp.len() && #[trigger] cp[k].0 == prefix[j].key@ && candidate_controller(cp[k])
                        == controller_of(prefix[j].value).unwrap() && no_double_colon(cp[k].1);
                assert(cs[k] == cp[k]);
            } else {
                assert(members[j] == last);
                let controller = controller_of(last.value).unwrap();
                lemma_candidate_spells_controller(last.key@, controller);
                let c = candidate_of(last.key@, last.value).unwrap();
                assert(cs == cp.push(c));
                assert(cs[cp.len() as int] == c);
                assert(cs[cp.len() as int].0 == members[j].key@);
            }
        }
    }
}

} // verus!
