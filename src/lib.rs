//! A logic-less template language: a scanner, a name grammar, a parser and a
//! tree-walking renderer with HTML escaping.

pub mod text;
pub mod token;
pub mod scanner;
pub mod ast;
pub mod parser;
pub mod conditional;
pub mod negative_iterator;
pub mod value;
pub mod escape;
pub mod render;
pub mod laws;

use vstd::prelude::*;
use crate::ast::Ast;
use crate::parser::parse_spec;
use crate::scanner::scan;

verus! {

/// Why a template could not be read.
#[derive(Debug)]
pub enum TemplateError {
    /// A malformed tag.
    Scan(scanner::Error),
    /// Sections that do not nest or close properly.
    Parse(parser::Error),
}

/// Scans and parses a whole template.
pub fn parse_str(input: &str) -> (r: Result<Ast, TemplateError>)
    ensures
        match scan(input@) {
            Err(p) => r matches Err(TemplateError::Scan(scanner::Error::InvalidTag { position })) && position == p,
            Ok(toks) => match parse_spec(toks) {
                Ok(a) => r matches Ok(x) && x@ == a,
                Err(e) => r matches Err(TemplateError::Parse(x)) && x@ == e,
            },
        },
{
    let tokens = match scanner::sequence(input) {
        Ok(t) => t,
        Err(e) => {
            return Err(TemplateError::Scan(e));
        },
    };
    match parser::parse(tokens) {
        Ok(a) => Ok(a),
        Err(e) => Err(TemplateError::Parse(e)),
    }
}

} // verus!
