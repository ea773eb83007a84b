//! A small parametric CAD scripting language: parser, document resolver,
//! evaluator and the projection of values into renderer-neutral parts.
pub mod laws;
pub mod library;
pub mod parser;
pub mod resolver;
pub mod runtime;
pub mod syntax;
pub mod value;

use vstd::prelude::*;
use crate::library::{RuntimeError, result_model};
use crate::resolver::Ast;
use crate::runtime::{eval_doc, eval_doc_spec};
use crate::value::Value;

pub use crate::resolver::{Reader, ResolutionError, parse};

verus! {


/// How deep document calls may nest.
pub const MAX_DEPTH: u32 = 256;

/// The value of a script: its root document, called with no arguments.
pub fn eval(ast: Ast) -> (r: Result<Value, RuntimeError>)
    ensures
        ast.documents@.len() == 0 ==> r matches Err(RuntimeError::EmptyDocument),
        ast.documents@.len() > 0 ==> result_model(r) == eval_doc_spec(
            ast.documents@,
            0,
            Seq::empty(),
            MAX_DEPTH as nat,
        ),
{
    if ast.documents.len() == 0 {
        return Err(RuntimeError::EmptyDocument);
    }
    let args: Vec<crate::library::Binding> = Vec::new();
    proof {
        assert(crate::library::bindings_model(args@) =~= Seq::empty());
    }
    eval_doc(&ast.documents, 0, &args, MAX_DEPTH)
}

} // verus!
