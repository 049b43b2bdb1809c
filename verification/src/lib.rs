//! A compiler and virtual machine for a small s-expression language.
//!
//! Source text is parsed into a generic s-expression tree, name resolution
//! replaces bound identifiers by positional variable references, code
//! generation lowers the tree to bytecode with symbolic jump labels, label
//! patching rewrites those labels to absolute instruction positions, and a
//! stack machine with call frames and a cons-cell heap executes the result.

use vstd::prelude::*;

pub mod codegen;
pub mod laws;
pub mod normalize;
pub mod parser;
pub mod patch;
pub mod runtime;
pub mod table;

verus! {

/// A fault from one stage of compilation; each stage keeps its own kind.
#[derive(Debug, PartialEq, Eq, Structural, Clone, Copy)]
pub enum CompileError {
    /// The source text did not parse.
    Parse(parser::ParseFault),
    /// Name resolution failed on the tree's shape.
    Resolve(parser::ShapeFault),
    /// Code generation met an unrecognised form or an unbound variable.
    Codegen(codegen::CodegenFault),
    /// Label patching met a jump to an undefined label.
    Link(patch::LinkFault),
}

/// The bytecode a source text compiles to: parsed, resolved, lowered to
/// labelled bytecode, and patched to absolute targets.
pub open spec fn compile_spec(src: Seq<char>) -> Option<Seq<runtime::ByteOp>> {
    match parser::parse_text(src) {
        Some(t) => match normalize::resolved(t) {
            Some(rt) => match codegen::codegen_of(rt) {
                Some(code) => patch::patched(code),
                None => None,
            },
            None => None,
        },
        None => None,
    }
}

/// Compiles a source text into an executable program.
///
/// Succeeds exactly when every stage succeeds, and then returns exactly
/// the program [`compile_spec`] describes; on a fault the error names
/// the first stage that failed.
pub fn compile(input: &str) -> (r: Result<runtime::Program, CompileError>)
    ensures
        match r {
            Ok(p) => compile_spec(input@) == Some(p.code@),
            Err(e) => compile_spec(input@) is None && match e {
                CompileError::Parse(_) => parser::parse_text(input@) is None,
                CompileError::Resolve(_) => parser::parse_text(input@) matches Some(t)
                    && normalize::resolved(t) is None,
                CompileError::Codegen(_) => parser::parse_text(input@) matches Some(t)
                    && normalize::resolved(t) matches Some(rt)
                    && codegen::codegen_of(rt) is None,
                CompileError::Link(_) => parser::parse_text(input@) matches Some(t)
                    && normalize::resolved(t) matches Some(rt)
                    && codegen::codegen_of(rt) matches Some(code)
                    && patch::patched(code) is None,
            },
        },
{
    let ast = match parser::parse(input) {
        Ok(e) => e,
        Err(f) => {
            return Err(CompileError::Parse(f));
        },
    };
    let resolved_ast = match normalize::Normalize::default().run(ast) {
        Ok(e) => e,
        Err(f) => {
            return Err(CompileError::Resolve(f));
        },
    };
    let program = match codegen::Codegen::default().run(&resolved_ast) {
        Ok(p) => p,
        Err(f) => {
            return Err(CompileError::Codegen(f));
        },
    };
    match patch::Patch::new().run(program) {
        Ok(p) => Ok(p),
        Err(f) => Err(CompileError::Link(f)),
    }
}

} // verus!
