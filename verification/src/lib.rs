//! Quarkup: a markup language whose operators are quarks — a dot, a run of
//! one letter, a space — closed by an annihilator (`..`), compiled to HTML.
use vstd::prelude::*;

pub mod ast;
pub mod defines;
pub mod engines;
pub mod grammar;
pub mod html;
pub mod lexer;
pub mod page;
pub mod parser;
pub mod text;

pub use defines::parse_defines;

use crate::defines::{define_entries, defines_of, split_define_list};
use crate::grammar::parse_doc;
use crate::lexer::Lexer;
use crate::page::{DEFAULT_TEMPLATE, HtmlRenderer, rendered};
use crate::parser::Parser;

verus! {

/// The template a renderer made with `template` fills in.
pub open spec fn template_or_default(template: Option<String>) -> Seq<char> {
    match template {
        Some(t) => t@,
        None => DEFAULT_TEMPLATE@,
    }
}

/// Compiles Quarkup source into a standalone HTML page: `template` replaces
/// the built-in page, `monolithic` embeds images (none can be read here, so
/// they keep their paths), and `defines` holds `KEY=VALUE` or bare `KEY`
/// entries separated by line breaks or `;`.
pub fn compile(source: &str, template: Option<String>, monolithic: bool, defines: &str) -> (r: String)
    ensures
        rendered(
            r@,
            template_or_default(template),
            monolithic,
            seq![],
            parse_doc(source@, defines_of(define_entries(defines@))),
        ),
{
    let entries = split_define_list(defines);
    let defines_map = parse_defines(&entries);
    let lexer = Lexer::new(source);
    let parser = Parser::new(lexer, defines_map);
    let ast = parser.parse();
    let renderer = HtmlRenderer::new(template, monolithic);
    renderer.render(&ast)
}

} // verus!
