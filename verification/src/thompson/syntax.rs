//! Parsing patterns with the `regex-syntax` crate.
//!
//! The parser of that crate turns a pattern into its own syntax tree. What
//! this module hands out is the same tree in the library's type, node for
//! node. The functions that call the crate are not proved: their contracts
//! state what the crate is taken to do.

use vstd::prelude::*;
use regex_syntax::hir::{HirKind, Look};
use crate::regex::{BuildError, Config};
use crate::thompson::ast::{Ast, AstClass, AstLook};

verus! {

/// The syntax tree of `regex-syntax`.
#[verifier::external_type_specification]
#[verifier::external_body]
pub struct ExSyntaxHir(regex_syntax::hir::Hir);

/// A character class of `regex-syntax`.
#[verifier::external_type_specification]
#[verifier::external_body]
pub struct ExSyntaxClass(regex_syntax::hir::Class);

/// A zero-width assertion of `regex-syntax`.
#[verifier::external_type_specification]
#[verifier::external_body]
pub struct ExSyntaxLook(regex_syntax::hir::Look);

/// The error of `regex-syntax`: why a pattern is no regular expression.
#[verifier::external_type_specification]
#[verifier::external_body]
pub struct ExSyntaxError(regex_syntax::Error);

/// The tree that `regex_syntax::Parser::parse` gives for a pattern, read
/// into the library's type, or `None` where the parser gives an error. The
/// parser is built with the two options given, and with its defaults for
/// every other option.
pub uninterp spec fn parsed(pattern: Seq<char>, unicode: bool, case_insensitive: bool) -> Option<Ast>;

/// Parses a pattern with the options of `config`: returns its syntax tree,
/// or the error of the parser as a text.
pub fn parse_pattern(pattern: &str, config: Config) -> (r: Result<Ast, BuildError>)
    ensures
        match parsed(pattern@, config.unicode, config.case_insensitive) {
            Some(ast) => r is Ok && r->Ok_0 == ast,
            None => r is Err && r->Err_0 is Syntax,
        },
{
    match parse(pattern, config.unicode, config.case_insensitive) {
        Ok(ast) => Ok(ast),
        Err(error) => Err(BuildError::Syntax(error_text(&error))),
    }
}

/// Calls `regex_syntax::Parser::parse`, on a parser that
/// `regex_syntax::ParserBuilder` built with the two options given, and
/// reads the tree that it gives into the library's type.
///
/// The contract claims that the outcome depends on the pattern and the two
/// options alone. Nothing is claimed of the tree itself.
#[verifier::external_body]
fn parse(pattern: &str, unicode: bool, case_insensitive: bool) -> (r: Result<
    Ast,
    regex_syntax::Error,
>)
    ensures
        r is Ok <==> parsed(pattern@, unicode, case_insensitive) is Some,
        r matches Ok(ast) ==> parsed(pattern@, unicode, case_insensitive) == Some(ast),
{
    let mut builder = regex_syntax::ParserBuilder::new();
    builder.unicode(unicode).case_insensitive(case_insensitive);
    match builder.build().parse(pattern) {
        Ok(hir) => Ok(lower_hir(&hir)),
        Err(error) => Err(error),
    }
}

/// Reads a tree of `regex-syntax`, through `regex_syntax::hir::Hir::kind`,
/// into the same tree in the library's type. The name of a group is left
/// out: groups are reported by their index.
#[verifier::external_body]
fn lower_hir(hir: &regex_syntax::hir::Hir) -> Ast {
    match hir.kind() {
        HirKind::Empty => Ast::Empty,
        HirKind::Literal(lit) => Ast::Literal(lit.0.to_vec()),
        HirKind::Class(class) => Ast::Class(lower_class(class)),
        HirKind::Look(look) => Ast::Look(lower_look(*look)),
        HirKind::Repetition(r) => Ast::Repetition { min: r.min, max: r.max, greedy: r.greedy, sub: Box::new(lower_hir(&r.sub)) },
        HirKind::Capture(c) => Ast::Capture { index: c.index, sub: Box::new(lower_hir(&c.sub)) },
        HirKind::Concat(subs) => Ast::Concat(lower_all(subs)),
        HirKind::Alternation(subs) => Ast::Alternation(lower_all(subs)),
    }
}

/// Reads the trees of a concatenation or an alternation of `regex-syntax`,
/// each as `lower_hir` does, in their order.
#[verifier::external_body]
fn lower_all(subs: &[regex_syntax::hir::Hir]) -> Vec<Ast> {
    subs.iter().map(lower_hir).collect()
}

/// Reads the ranges of a class of `regex-syntax`, through
/// `ClassUnicode::iter` or `ClassBytes::iter`, in their order.
#[verifier::external_body]
fn lower_class(class: &regex_syntax::hir::Class) -> AstClass {
    match class {
        regex_syntax::hir::Class::Unicode(set) => AstClass::Unicode(
            set.iter().map(|r| (r.start(), r.end())).collect(),
        ),
        regex_syntax::hir::Class::Bytes(set) => AstClass::Bytes(
            set.iter().map(|r| (r.start(), r.end())).collect(),
        ),
    }
}

/// Tells the variants of `regex_syntax::hir::Look` apart: each becomes the
/// variant of the same name.
#[verifier::external_body]
fn lower_look(look: Look) -> AstLook {
    match look {
        Look::Start => AstLook::Start, Look::End => AstLook::End,
        Look::StartLF => AstLook::StartLF, Look::EndLF => AstLook::EndLF,
        Look::StartCRLF => AstLook::StartCRLF, Look::EndCRLF => AstLook::EndCRLF,
        Look::WordAscii => AstLook::WordAscii, Look::WordAsciiNegate => AstLook::WordAsciiNegate,
        Look::WordUnicode => AstLook::WordUnicode, Look::WordUnicodeNegate => AstLook::WordUnicodeNegate,
        Look::WordStartAscii => AstLook::WordStartAscii, Look::WordEndAscii => AstLook::WordEndAscii,
        Look::WordStartUnicode => AstLook::WordStartUnicode, Look::WordEndUnicode => AstLook::WordEndUnicode,
        Look::WordStartHalfAscii => AstLook::WordStartHalfAscii, Look::WordEndHalfAscii => AstLook::WordEndHalfAscii,
        Look::WordStartHalfUnicode => AstLook::WordStartHalfUnicode, Look::WordEndHalfUnicode => AstLook::WordEndHalfUnicode,
    }
}

/// Formats an error of `regex-syntax` with its `Display` implementation.
/// Nothing is claimed of the text.
#[verifier::external_body]
fn error_text(error: &regex_syntax::Error) -> String {
    format!("{}", error)
}

} // verus!
