//! Location of a controller class (and method) declaration in a PHP file.
use vstd::prelude::*;
use vstd::string::StringExecFns;

use vstd::string::StringSliceAdditionalSpecFns;

use crate::php_outline::{
    lines_within, member_lines_within, parse_php_outline, php_outline, statement_lines_within, PhpClass,
    PhpMember, PhpStatement,
};
use crate::protocol::RouteInfo;
use crate::text::{
    chars_of, debug_quoted, debug_text, push_char, same_text, string_from_chars,
};

verus! {

/// The namespace prefix `App\` mapped to the workspace's `src/` directory.
pub open spec fn has_app_prefix(s: Seq<char>) -> bool {
    &&& s.len() >= 4
    &&& s[0] == 'A'
    &&& s[1] == 'p'
    &&& s[2] == 'p'
    &&& s[3] == '\\'
}

/// `s` with every backslash replaced by a slash.
pub open spec fn backslashes_to_slashes(s: Seq<char>) -> Seq<char> {
    s.map_values(|c: char| if c == '\\' { '/' } else { c })
}

/// The result of `Path::join(base, part)` as text.
pub uninterp spec fn joined_path(base: Seq<char>, part: Seq<char>) -> Seq<char>;

/// The result of `Path::with_extension(path, ext)` as text.
pub uninterp spec fn path_with_extension(path: Seq<char>, ext: Seq<char>) -> Seq<char>;

/// Joins `part` to `base` (`Path::join`). The result is believed to be the
/// named path of the two texts; what `Path::join` does (a separator between
/// them, or `part` alone when it is absolute) is left unsaid.
#[verifier::external_body]
fn join_path(base: &str, part: &str) -> (r: String)
    ensures
        r@ == joined_path(base@, part@),
{
    std::path::Path::new(base).join(part).to_string_lossy().into_owned()
}

/// Replaces the extension of the last component of `path` by `ext`
/// (`Path::with_extension`). The result is believed to be the named path;
/// how the last component's extension is found is left unsaid. The call
/// panics on an extension that holds a path separator, which is left out.
#[verifier::external_body]
fn set_extension(path: &str, ext: &str) -> (r: String)
    requires
        !ext@.contains('/'),
        !ext@.contains('\\'),
    ensures
        r@ == path_with_extension(path@, ext@),
{
    std::path::Path::new(path).with_extension(ext).to_string_lossy().into_owned()
}

/// The file of class `fqcn` under the PSR-4 convention: `App\Foo\Bar` maps to
/// `{workspace}/src/Foo/Bar.php`.
pub open spec fn psr4_path(workspace: Seq<char>, fqcn: Seq<char>) -> Seq<char> {
    path_with_extension(
        joined_path(joined_path(workspace, seq!['s', 'r', 'c']), backslashes_to_slashes(fqcn.skip(4))),
        seq!['p', 'h', 'p'],
    )
}

/// The message of the error for a class outside the `App\` namespace.
pub open spec fn unsupported_prefix_message(fqcn: Seq<char>) -> Seq<char> {
    "Unsupported namespace prefix in FQCN '"@ + fqcn + "'"@
}

/// Converts a PHP FQCN to its expected file path on disk (PSR-4, `App\` →
/// `src/`). Only the `App\` namespace prefix is supported.
pub fn fqcn_to_path(workspace_path: &str, fqcn: &str) -> (r: Result<String, String>)
    ensures
        match r {
            Ok(path) => has_app_prefix(fqcn@) && path@ == psr4_path(workspace_path@, fqcn@),
            Err(message) => !has_app_prefix(fqcn@) && message@ == unsupported_prefix_message(fqcn@),
        },
{
    let chars = chars_of(fqcn);
    if !(chars.len() >= 4 && chars[0] == 'A' && chars[1] == 'p' && chars[2] == 'p' && chars[3] == '\\') {
        let mut message = String::new();
        message.append("Unsupported namespace prefix in FQCN '");
        message.append(fqcn);
        message.append("'");
        assert(message@ =~= unsupported_prefix_message(fqcn@));
        return Err(message);
    }
    let mut relative = String::new();
    let mut i: usize = 4;
    while i < chars.len()
        invariant
            4 <= i <= chars@.len(),
            chars@ == fqcn@,
            relative@ == backslashes_to_slashes(fqcn@.skip(4)).take(i - 4),
        decreases chars@.len() - i,
    {
        let c = chars[i];
        push_char(&mut relative, if c == '\\' { '/' } else { c });
        assert(backslashes_to_slashes(fqcn@.skip(4)).take(i - 3) =~= backslashes_to_slashes(
            fqcn@.skip(4),
        ).take(i - 4).push(if c == '\\' { '/' } else { c }));
        i = i + 1;
    }
    assert(backslashes_to_slashes(fqcn@.skip(4)).take(i - 4) =~= backslashes_to_slashes(fqcn@.skip(4)));
    let src_dir = join_path(workspace_path, "src");
    let file = join_path(src_dir.as_str(), relative.as_str());
    proof {
        reveal_strlit("src");
        reveal_strlit("php");
        assert("src"@ =~= seq!['s', 'r', 'c']);
        assert("php"@ =~= seq!['p', 'h', 'p']);
    }
    let path = set_extension(file.as_str(), "php");
    Ok(path)
}

/// The characters after the last backslash of `s` (all of `s` when it has
/// none): the simple name of a class.
pub open spec fn last_segment(s: Seq<char>) -> Seq<char>
    decreases s.len(),
{
    if s.len() == 0 {
        s
    } else if s.last() == '\\' {
        Seq::empty()
    } else {
        last_segment(s.drop_last()).push(s.last())
    }
}

/// The simple class name: the last segment of the FQCN.
pub fn class_short_name(class_fqcn: &str) -> (r: String)
    ensures
        r@ == last_segment(class_fqcn@),
{
    let chars = chars_of(class_fqcn);
    let mut start: usize = 0;
    let mut i: usize = 0;
    while i < chars.len()
        invariant
            start <= i <= chars@.len(),
            chars@ == class_fqcn@,
            last_segment(chars@.take(i as int)) == chars@.subrange(start as int, i as int),
        decreases chars@.len() - i,
    {
        assert(chars@.take(i + 1).drop_last() =~= chars@.take(i as int));
        if chars[i] == '\\' {
            start = i + 1;
        }
        assert(chars@.subrange(start as int, i + 1) =~= if start == i + 1 {
            Seq::<char>::empty()
        } else {
            chars@.subrange(start as int, i as int).push(chars@[i as int])
        });
        i = i + 1;
    }
    assert(chars@.take(i as int) =~= chars@);
    string_from_chars(chars.as_slice(), start, chars.len())
}


/// The views of an optional string slice.
pub open spec fn opt_view(m: Option<&str>) -> Option<Seq<char>> {
    match m {
        Some(s) => Some(s@),
        None => None,
    }
}

/// The 0-indexed line of the first method named `method` among `members`.
pub open spec fn method_line(members: Seq<PhpMember>, method: Seq<char>) -> Option<u32>
    decreases members.len(),
{
    if members.len() == 0 {
        None
    } else {
        match members[0] {
            PhpMember::Method { name, line } => if name@ == method {
                Some(line)
            } else {
                method_line(members.drop_first(), method)
            },
            PhpMember::Other => method_line(members.drop_first(), method),
        }
    }
}

/// The 0-indexed line a route points at in its class: the line of the
/// requested method, or of the `class` keyword when no method is requested
/// or the class has no method of that name.
pub open spec fn declaration_line(class: PhpClass, method: Option<Seq<char>>) -> u32 {
    match method {
        Some(m) => match method_line(class.members@, m) {
            Some(line) => line,
            None => class.line,
        },
        None => class.line,
    }
}

/// The 0-indexed declaration line found in a statement: a class named
/// `class_name` gives its declaration line, a namespace is searched, any
/// other statement gives nothing.
pub open spec fn locate_in_statement(s: PhpStatement, class_name: Seq<char>, method: Option<Seq<char>>) -> Option<u32>
    decreases s,
{
    match s {
        PhpStatement::Namespace(inner) => locate_in_statements(inner@, class_name, method),
        PhpStatement::Class(class) => if class.name@ == class_name {
            Some(declaration_line(class, method))
        } else {
            None
        },
        PhpStatement::Other => None,
    }
}

/// The first declaration line found in the statements, in order.
pub open spec fn locate_in_statements(ss: Seq<PhpStatement>, class_name: Seq<char>, method: Option<Seq<char>>) -> Option<u32>
    decreases ss,
{
    if ss.len() == 0 {
        None
    } else {
        match locate_in_statement(ss[0], class_name, method) {
            Some(line) => Some(line),
            None => locate_in_statements(ss.drop_first(), class_name, method),
        }
    }
}

/// The location found in `ss`: the file is `path` and the line is the
/// 1-indexed declaration line.
pub open spec fn located(r: Option<RouteInfo>, ss: Seq<PhpStatement>, path: Seq<char>, class_name: Seq<char>, method: Option<Seq<char>>) -> bool {
    match locate_in_statements(ss, class_name, method) {
        Some(line) => r matches Some(info) && info.file@ == path && info.line == line + 1,
        None => r is None,
    }
}

/// The declaration line of `method` within `class`'s members.
fn find_method_line(members: &Vec<PhpMember>, method: &str) -> (r: Option<u32>)
    ensures
        r == method_line(members@, method@),
{
    let mut i: usize = 0;
    assert(members@.skip(0) =~= members@);
    while i < members.len()
        invariant
            i <= members@.len(),
            method_line(members@, method@) == method_line(members@.skip(i as int), method@),
        decreases members@.len() - i,
    {
        assert(members@.skip(i as int).drop_first() =~= members@.skip(i + 1));
        assert(members@.skip(i as int)[0] == members@[i as int]);
        match &members[i] {
            PhpMember::Method { name, line } => {
                if same_text(name.as_str(), method) {
                    return Some(*line);
                }
            },
            PhpMember::Other => {},
        }
        i = i + 1;
    }
    None
}

/// Walks the top-level statements of the program to find the target class.
pub fn find_in_program(
    program: &Vec<PhpStatement>,
    absolute_path: &str,
    class_name: &str,
    method: Option<&str>,
) -> (r: Option<RouteInfo>)
    requires
        lines_within(program@, u32::MAX - 1),
    ensures
        located(r, program@, absolute_path@, class_name@, opt_view(method)),
{
    find_in_namespace(program, absolute_path, class_name, method)
}

/// Recursively searches a statement for the target class declaration.
pub fn find_in_statement(
    stmt: &PhpStatement,
    absolute_path: &str,
    class_name: &str,
    method: Option<&str>,
) -> (r: Option<RouteInfo>)
    requires
        statement_lines_within(*stmt, u32::MAX - 1),
    ensures
        match locate_in_statement(*stmt, class_name@, opt_view(method)) {
            Some(line) => r matches Some(info) && info.file@ == absolute_path@ && info.line == line + 1,
            None => r is None,
        },
    decreases stmt,
{
    match stmt {
        PhpStatement::Namespace(ns) => find_in_namespace(ns, absolute_path, class_name, method),
        PhpStatement::Class(class) => {
            if !same_text(class.name.as_str(), class_name) {
                return None;
            }
            let mut line = class.line;
            match method {
                Some(method_name) => {
                    match find_method_line(&class.members, method_name) {
                        Some(method_line) => {
                            proof {
                                lemma_method_line_within(class.members@, method_name@, u32::MAX - 1);
                            }
                            line = method_line;
                        },
                        None => {},
                    }
                },
                None => {},
            }
            Some(RouteInfo { file: absolute_path.to_owned(), line: line + 1 })
        },
        PhpStatement::Other => None,
    }
}

/// A method line found among members whose lines are at most `n` is at most `n`.
proof fn lemma_method_line_within(members: Seq<PhpMember>, method: Seq<char>, n: int)
    requires
        member_lines_within(members, n),
    ensures
        method_line(members, method) matches Some(line) ==> line <= n,
    decreases members.len(),
{
    if members.len() > 0 {
        assert(member_lines_within(members.drop_first(), n)) by {
            assert forall|i: int| 0 <= i < members.drop_first().len() implies match #[trigger] members.drop_first()[i] {
                PhpMember::Method { line, .. } => line <= n,
                PhpMember::Other => true,
            } by {
                assert(members.drop_first()[i] == members[i + 1]);
            }
        }
        assert(match members[0] {
            PhpMember::Method { line, .. } => line <= n,
            PhpMember::Other => true,
        });
        lemma_method_line_within(members.drop_first(), method, n);
    }
}

/// Descends into a namespace body to keep searching.
pub fn find_in_namespace(
    statements: &Vec<PhpStatement>,
    absolute_path: &str,
    class_name: &str,
    method: Option<&str>,
) -> (r: Option<RouteInfo>)
    requires
        lines_within(statements@, u32::MAX - 1),
    ensures
        located(r, statements@, absolute_path@, class_name@, opt_view(method)),
    decreases statements,
{
    let mut i: usize = 0;
    assert(statements@.skip(0) =~= statements@);
    while i < statements.len()
        invariant
            i <= statements@.len(),
            lines_within(statements@.skip(i as int), u32::MAX - 1),
            locate_in_statements(statements@, class_name@, opt_view(method)) == locate_in_statements(
                statements@.skip(i as int),
                class_name@,
                opt_view(method),
            ),
        decreases statements@.len() - i,
    {
        let ghost rest = statements@.skip(i as int);
        assert(rest.drop_first() =~= statements@.skip(i + 1));
        assert(rest[0] == statements@[i as int]);
        assert(decreases_to!(statements => statements@[i as int]));
        match find_in_statement(&statements[i], absolute_path, class_name, method) {
            Some(info) => {
                return Some(info);
            },
            None => {},
        }
        i = i + 1;
    }
    None
}

/// The message of the error for a class that the file does not declare.
pub open spec fn not_located_message(fqcn: Seq<char>, method: Option<Seq<char>>, path: Seq<char>) -> Seq<char> {
    "Could not locate class '"@ + fqcn + "' (method: "@ + match method {
        Some(m) => "Some("@ + debug_quoted(m) + ")"@,
        None => "None"@,
    } + ") in '"@ + path + "'"@
}

/// Locates the declaration of class `class_fqcn` (and of `method` in it, if
/// given) in the PHP source of the file at `absolute_path`.
pub fn find_location_in_source(
    absolute_path: &str,
    source: &str,
    class_fqcn: &str,
    method: Option<&str>,
) -> (r: Result<RouteInfo, String>)
    requires
        source.spec_bytes().len() < u32::MAX,
    ensures
        match locate_in_statements(php_outline(absolute_path@, source@), last_segment(class_fqcn@), opt_view(method)) {
            Some(line) => r matches Ok(info) && info.file@ == absolute_path@ && info.line == line + 1,
            None => r matches Err(message) && message@ == not_located_message(class_fqcn@, opt_view(method), absolute_path@),
        },
{
    let class_name = class_short_name(class_fqcn);
    let outline = parse_php_outline(absolute_path, source);
    proof {
        lemma_lines_within_weaken(outline@, source.spec_bytes().len() as int, u32::MAX - 1);
    }
    match find_in_program(&outline, absolute_path, class_name.as_str(), method) {
        Some(info) => Ok(info),
        None => {
            let mut message = String::new();
            message.append("Could not locate class '");
            message.append(class_fqcn);
            message.append("' (method: ");
            match method {
                Some(m) => {
                    message.append("Some(");
                    let quoted = debug_text(m);
                    message.append(quoted.as_str());
                    message.append(")");
                },
                None => {
                    message.append("None");
                },
            }
            message.append(") in '");
            message.append(absolute_path);
            message.append("'");
            assert(message@ =~= not_located_message(class_fqcn@, opt_view(method), absolute_path@));
            Err(message)
        },
    }
}

/// Lines bounded by `m` are bounded by any `n >= m`.
proof fn lemma_lines_within_weaken(ss: Seq<PhpStatement>, m: int, n: int)
    requires
        lines_within(ss, m),
        m <= n,
    ensures
        lines_within(ss, n),
    decreases ss,
{
    if ss.len() > 0 {
        lemma_statement_lines_within_weaken(ss[0], m, n);
        lemma_lines_within_weaken(ss.drop_first(), m, n);
    }
}

/// Lines bounded by `m` are bounded by any `n >= m`.
proof fn lemma_statement_lines_within_weaken(s: PhpStatement, m: int, n: int)
    requires
        statement_lines_within(s, m),
        m <= n,
    ensures
        statement_lines_within(s, n),
    decreases s,
{
    match s {
        PhpStatement::Namespace(inner) => lemma_lines_within_weaken(inner@, m, n),
        PhpStatement::Class(class) => {
            assert forall|i: int| 0 <= i < class.members@.len() implies match #[trigger] class.members@[i] {
                PhpMember::Method { line, .. } => line <= n,
                PhpMember::Other => true,
            } by {
                assert(match class.members@[i] {
                    PhpMember::Method { line, .. } => line <= m,
                    PhpMember::Other => true,
                });
            }
        },
        PhpStatement::Other => {},
    }
}


/// Member `m` is a method named `method`.
pub open spec fn is_method_named(m: PhpMember, method: Seq<char>) -> bool {
    m matches PhpMember::Method { name, .. } && name@ == method
}

/// Member `m` is a method named `method` declared on line `l`.
pub open spec fn is_method_named_at(m: PhpMember, method: Seq<char>, l: u32) -> bool {
    m matches PhpMember::Method { name, line } && name@ == method && line == l
}

/// Law: the line found for a method is the line of the first member that is
/// a method whose name is exactly the requested name; none is found when no
/// member is such a method.
pub proof fn law_method_line_is_first_method_named(members: Seq<PhpMember>, method: Seq<char>)
    ensures
        method_line(members, method) is None <==> forall|i: int|
            0 <= i < members.len() ==> !is_method_named(#[trigger] members[i], method),
        method_line(members, method) matches Some(l) ==> exists|i: int|
            0 <= i < members.len() && is_method_named_at(#[trigger] members[i], method, l) && forall|j: int|
                0 <= j < i ==> !is_method_named(#[trigger] members[j], method),
    decreases members.len(),
{
    if members.len() > 0 {
        let rest = members.drop_first();
        law_method_line_is_first_method_named(rest, method);
        assert forall|i: int| 0 <= i < rest.len() implies rest[i] == members[i + 1] by {}
        if is_method_named(members[0], method) {
            assert(is_method_named(members[0], method));
        } else {
            if method_line(rest, method) is None {
                assert forall|i: int| 0 <= i < members.len() implies !is_method_named(#[trigger] members[i], method) by {
                    if i > 0 {
                        assert(!is_method_named(rest[i - 1], method));
                    }
                }
            } else {
                let l = method_line(rest, method).unwrap();
                let i = choose|i: int|
                    0 <= i < rest.len() && is_method_named_at(#[trigger] rest[i], method, l) && forall|j: int|
                        0 <= j < i ==> !is_method_named(#[trigger] rest[j], method);
                assert(is_method_named_at(members[i + 1], method, l));
                assert forall|j: int| 0 <= j < i + 1 implies !is_method_named(#[trigger] members[j], method) by {
                    if j > 0 {
                        assert(!is_method_named(rest[j - 1], method));
                    }
                }
            }
        }
    }
}


/// The name of the directory of the `App\` namespace: `src`.
pub open spec fn source_dir() -> Seq<char> {
    seq!['s', 'r', 'c']
}

/// Law: the file of an `App\` class is the PSR-4 path under `src` of the
/// rest of its name, every character kept except that each backslash, not
/// only the first, becomes a slash; the relative part holds no backslash.
pub proof fn law_psr4_path_turns_every_backslash_into_slash(workspace: Seq<char>, fqcn: Seq<char>)
    requires
        has_app_prefix(fqcn),
    ensures
        exists|rel: Seq<char>|
            #![trigger joined_path(joined_path(workspace, source_dir()), rel)]
            psr4_path(workspace, fqcn) == path_with_extension(
                joined_path(joined_path(workspace, source_dir()), rel),
                seq!['p', 'h', 'p'],
            ) && rel.len() == fqcn.len() - 4 && !rel.contains('\\') && forall|i: int|
                0 <= i < rel.len() ==> #[trigger] rel[i] == if fqcn[i + 4] == '\\' {
                    '/'
                } else {
                    fqcn[i + 4]
                },
{
    let rel = backslashes_to_slashes(fqcn.skip(4));
    assert forall|i: int| 0 <= i < rel.len() implies #[trigger] rel[i] == if fqcn[i + 4] == '\\' {
        '/'
    } else {
        fqcn[i + 4]
    } by {
        assert(fqcn.skip(4)[i] == fqcn[i + 4]);
    }
    assert(joined_path(joined_path(workspace, source_dir()), rel) == joined_path(
        joined_path(workspace, seq!['s', 'r', 'c']),
        rel,
    ));
    assert(!rel.contains('\\'));
}


/// The class reached in the statements `ss` by following `path`: its first
/// index picks a statement; a class is reached when the path ends there, and
/// the rest of the path is followed into the body of a namespace.
pub open spec fn class_at_path(ss: Seq<PhpStatement>, path: Seq<int>) -> Option<PhpClass>
    decreases path.len(), 0int,
{
    if path.len() > 0 && 0 <= path[0] < ss.len() {
        class_at_statement_path(ss[path[0]], path.drop_first())
    } else {
        None
    }
}

/// The class reached in statement `s` by following `path`: `s` itself when it
/// is a class and the path is empty, or the class reached in a namespace's
/// body.
pub open spec fn class_at_statement_path(s: PhpStatement, path: Seq<int>) -> Option<PhpClass>
    decreases path.len(), 1int,
{
    match s {
        PhpStatement::Class(c) => if path.len() == 0 {
            Some(c)
        } else {
            None
        },
        PhpStatement::Namespace(inner) => class_at_path(inner@, path),
        PhpStatement::Other => None,
    }
}

/// The lookup in one statement finds a line exactly when a class of that
/// name is reached in it, and the line found is one such class's.
proof fn lemma_locate_in_statement(s: PhpStatement, class_name: Seq<char>, method: Option<Seq<char>>)
    ensures
        locate_in_statement(s, class_name, method) is Some <==> exists|path: Seq<int>|
            #[trigger] class_at_statement_path(s, path) matches Some(c) && c.name@ == class_name,
        locate_in_statement(s, class_name, method) matches Some(l) ==> exists|path: Seq<int>|
            #[trigger] class_at_statement_path(s, path) matches Some(c) && c.name@ == class_name && l
                == declaration_line(c, method),
    decreases s,
{
    match s {
        PhpStatement::Namespace(inner) => {
            lemma_locate_in_statements(inner@, class_name, method);
            if exists|path: Seq<int>| #[trigger] class_at_statement_path(s, path) matches Some(c) && c.name@ == class_name {
                let path = choose|path: Seq<int>| #[trigger] class_at_statement_path(s, path) matches Some(c) && c.name@ == class_name;
                assert(class_at_path(inner@, path) == class_at_statement_path(s, path));
            }
            match locate_in_statements(inner@, class_name, method) {
                Some(l) => {
                    let path = choose|path: Seq<int>|
                        #[trigger] class_at_path(inner@, path) matches Some(c) && c.name@ == class_name && l
                            == declaration_line(c, method);
                    assert(class_at_path(inner@, path) == class_at_statement_path(s, path));
                },
                None => {},
            }
        },
        PhpStatement::Class(k) => {
            assert(class_at_statement_path(s, Seq::<int>::empty()) == Some(k));
            if exists|path: Seq<int>| #[trigger] class_at_statement_path(s, path) matches Some(c) && c.name@ == class_name {
                let path = choose|path: Seq<int>| #[trigger] class_at_statement_path(s, path) matches Some(c) && c.name@ == class_name;
                assert(path.len() == 0);
            }
        },
        PhpStatement::Other => {},
    }
}

/// The lookup in a list of statements finds a line exactly when a class of
/// that name is reached in them, and the line found is one such class's.
proof fn lemma_locate_in_statements(ss: Seq<PhpStatement>, class_name: Seq<char>, method: Option<Seq<char>>)
    ensures
        locate_in_statements(ss, class_name, method) is Some <==> exists|path: Seq<int>|
            #[trigger] class_at_path(ss, path) matches Some(c) && c.name@ == class_name,
        locate_in_statements(ss, class_name, method) matches Some(l) ==> exists|path: Seq<int>|
            #[trigger] class_at_path(ss, path) matches Some(c) && c.name@ == class_name && l == declaration_line(
                c,
                method,
            ),
    decreases ss,
{
    if ss.len() > 0 {
        lemma_locate_in_statement(ss[0], class_name, method);
        let rest = ss.drop_first();
        lemma_locate_in_statements(rest, class_name, method);
        // A path into the first statement, and a path into the rest, as paths into `ss`.
        assert forall|p: Seq<int>| #[trigger] class_at_statement_path(ss[0], p) == class_at_path(ss, seq![0int] + p) by {
            assert((seq![0int] + p).drop_first() =~= p);
        }
        assert forall|p: Seq<int>| #[trigger] class_at_path(rest, p) == (if p.len() > 0 && 0 <= p[0] {
            class_at_path(ss, seq![p[0] + 1] + p.drop_first())
        } else {
            None
        }) by {
            if p.len() > 0 && 0 <= p[0] {
                let q = seq![p[0] + 1] + p.drop_first();
                assert(q.drop_first() =~= p.drop_first());
                if p[0] < rest.len() {
                    assert(rest[p[0]] == ss[p[0] + 1]);
                }
            }
        }
        if exists|path: Seq<int>| #[trigger] class_at_path(ss, path) matches Some(c) && c.name@ == class_name {
            let path = choose|path: Seq<int>| #[trigger] class_at_path(ss, path) matches Some(c) && c.name@ == class_name;
            let tail = path.drop_first();
            if path[0] == 0 {
                assert(class_at_path(ss, path) == class_at_statement_path(ss[0], tail));
            } else {
                let p = seq![path[0] - 1] + tail;
                assert(p.drop_first() =~= tail);
                assert(seq![p[0] + 1] + p.drop_first() =~= path);
                assert(class_at_path(rest, p) == class_at_path(ss, path));
            }
        }
        match locate_in_statement(ss[0], class_name, method) {
            Some(l) => {
                let p = choose|p: Seq<int>|
                    #[trigger] class_at_statement_path(ss[0], p) matches Some(c) && c.name@ == class_name && l
                        == declaration_line(c, method);
                assert(class_at_path(ss, seq![0int] + p) == class_at_statement_path(ss[0], p));
            },
            None => {
                match locate_in_statements(rest, class_name, method) {
                    Some(l) => {
                        let p = choose|p: Seq<int>|
                            #[trigger] class_at_path(rest, p) matches Some(c) && c.name@ == class_name && l
                                == declaration_line(c, method);
                        assert(class_at_path(ss, seq![p[0] + 1] + p.drop_first()) == class_at_path(rest, p));
                    },
                    None => {},
                }
            },
        }
    }
}

/// Law: looking a class up in the statements of a file succeeds exactly when
/// some class of that name is declared in the file, at top level or inside
/// namespaces at any depth, whatever statements come before it; the line
/// found is the declaration line of such a class.
pub proof fn law_lookup_finds_declared_class(ss: Seq<PhpStatement>, class_name: Seq<char>, method: Option<Seq<char>>)
    ensures
        locate_in_statements(ss, class_name, method) is Some <==> exists|path: Seq<int>|
            #[trigger] class_at_path(ss, path) matches Some(c) && c.name@ == class_name,
        locate_in_statements(ss, class_name, method) matches Some(l) ==> exists|path: Seq<int>|
            #[trigger] class_at_path(ss, path) matches Some(c) && c.name@ == class_name && l == declaration_line(
                c,
                method,
            ),
{
    lemma_locate_in_statements(ss, class_name, method);
}

} // verus!
