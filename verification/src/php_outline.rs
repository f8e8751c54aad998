//! The outline of a PHP file that class lookup reads: namespaces, classes and
//! their methods, each with the 0-indexed line of its declaring keyword.
use vstd::prelude::*;
use vstd::string::StringSliceAdditionalSpecFns;

use std::borrow::Cow;
use std::path::PathBuf;

use bumpalo::Bump;
use mago_database::file::{File, FileType};
use mago_syntax::ast::{Class, ClassLikeMember, Statement};
use mago_syntax::parser::parse_file;

verus! {

/// A top-level (or namespace-level) statement of a PHP file.
#[derive(Debug)]
pub enum PhpStatement {
    /// A namespace and the statements it holds.
    Namespace(Vec<PhpStatement>),
    /// A class declaration.
    Class(PhpClass),
    /// Any other statement.
    Other,
}

/// A class declaration.
#[derive(Debug)]
pub struct PhpClass {
    /// The class's simple name.
    pub name: String,
    /// 0-indexed line of the `class` keyword.
    pub line: u32,
    /// The class's members, in order.
    pub members: Vec<PhpMember>,
}

/// A member of a class.
#[derive(Debug)]
pub enum PhpMember {
    /// A method: its name and the 0-indexed line of its `function` keyword.
    Method { name: String, line: u32 },
    /// Any other member (constant, property, trait use, enum case).
    Other,
}

/// Every line recorded in the members is at most `n`.
pub open spec fn member_lines_within(ms: Seq<PhpMember>, n: int) -> bool {
    forall|i: int|
        0 <= i < ms.len() ==> match #[trigger] ms[i] {
            PhpMember::Method { line, .. } => line <= n,
            PhpMember::Other => true,
        }
}

/// Every line recorded in the statements is at most `n`.
pub open spec fn lines_within(ss: Seq<PhpStatement>, n: int) -> bool
    decreases ss,
{
    if ss.len() == 0 {
        true
    } else {
        statement_lines_within(ss[0], n) && lines_within(ss.drop_first(), n)
    }
}

/// Every line recorded in the statement is at most `n`.
pub open spec fn statement_lines_within(s: PhpStatement, n: int) -> bool
    decreases s,
{
    match s {
        PhpStatement::Namespace(inner) => lines_within(inner@, n),
        PhpStatement::Class(class) => class.line <= n && member_lines_within(class.members@, n),
        PhpStatement::Other => true,
    }
}

/// A source file of `mago_database`, opaque here.
#[verifier::external_type_specification]
#[verifier::external_body]
pub struct ExFile(File);

/// A statement of the `mago_syntax` syntax tree, opaque here.
#[verifier::external_type_specification]
#[verifier::external_body]
pub struct ExStatement<'arena>(Statement<'arena>);

/// A class declaration of the `mago_syntax` syntax tree, opaque here.
#[verifier::external_type_specification]
#[verifier::external_body]
pub struct ExClass<'arena>(Class<'arena>);

/// A class member of the `mago_syntax` syntax tree, opaque here.
#[verifier::external_type_specification]
#[verifier::external_body]
pub struct ExClassLikeMember<'arena>(ClassLikeMember<'arena>);

/// The outline of the PHP source `source` parsed as the file at `path`.
pub uninterp spec fn php_outline(path: Seq<char>, source: Seq<char>) -> Seq<PhpStatement>;

/// Parses `source` as the PHP file at `path` (`mago_syntax::parser::parse_file`)
/// and returns the outline of the program's statements. The outline is
/// believed to be the named outline of `path` and `source`, and every line in
/// it is believed to be at most the byte length of `source` (the file's line
/// table has one entry per line break plus one).
#[verifier::external_body]
pub(crate) fn parse_php_outline(path: &str, source: &str) -> (r: Vec<PhpStatement>)
    requires
        source.spec_bytes().len() < u32::MAX,
    ensures
        r@ == php_outline(path@, source@),
        lines_within(r@, source.spec_bytes().len() as int),
{
    let arena = Bump::new();
    let file = File::new(
        Cow::Owned(path.to_string()),
        FileType::Host,
        Some(PathBuf::from(path)),
        Cow::Owned(source.to_string()),
    );
    let program = parse_file(&arena, &file);
    outline_statements(program.statements.as_slice(), &file)
}

/// The outline of each statement, in order. No contract: only
/// `parse_php_outline` calls it, and states what the whole outline is.
#[verifier::external_body]
fn outline_statements(statements: &[Statement<'_>], file: &File) -> Vec<PhpStatement> {
    let mut outline = Vec::with_capacity(statements.len());
    for statement in statements {
        outline.push(outline_statement(statement, file));
    }
    outline
}

/// The outline of one statement: namespaces and classes are kept, every
/// other statement kind becomes `Other`.
#[verifier::external_body]
fn outline_statement(statement: &Statement<'_>, file: &File) -> PhpStatement {
    match statement {
        Statement::Namespace(namespace) => PhpStatement::Namespace(
            outline_statements(namespace.statements().as_slice(), file),
        ),
        Statement::Class(class) => PhpStatement::Class(outline_class(class, file)),
        _ => PhpStatement::Other,
    }
}

/// The outline of a class: its name, the line of its `class` keyword
/// (`File::line_number`), and its members.
#[verifier::external_body]
fn outline_class(class: &Class<'_>, file: &File) -> PhpClass {
    let mut members = Vec::with_capacity(class.members.len());
    for member in class.members.iter() {
        members.push(outline_member(member, file));
    }
    let line = file.line_number(class.class.span.start.offset);
    PhpClass { name: class.name.value.to_string(), line, members }
}

/// The outline of a class member: a method's name and the line of its
/// `function` keyword (`File::line_number`); every other member kind
/// becomes `Other`.
#[verifier::external_body]
fn outline_member(member: &ClassLikeMember<'_>, file: &File) -> PhpMember {
    match member {
        ClassLikeMember::Method(method) => PhpMember::Method {
            name: method.name.value.to_string(),
            line: file.line_number(method.function.span.start.offset),
        },
        _ => PhpMember::Other,
    }
}

} // verus!
