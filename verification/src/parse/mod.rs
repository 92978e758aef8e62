//! The front end: lexer, Pratt parser, and lowering into the arena graph.

pub mod ast;
pub mod lexer;
pub mod lower;
pub mod parser;
pub mod printed;
pub mod text;

use vstd::prelude::*;
use crate::error::EngineError;
use crate::graph::arena::Graph;
use crate::parse::ast::{Expr, SExpr};
use crate::parse::lexer::{Lexer, Token, Tok, LexFail, lex_from, lex_spec, reports, toks_of};
use crate::graph::topo::used_from;
use crate::parse::lower::{denotes, distinct_nodes, literals_convert, lower, lower_error, shape_ok};
use crate::parse::parser::{Parser, parse_tokens, reports_at, terminated};

verus! {

/// A successful lex ends with `Eof`.
pub proof fn lemma_lex_terminated(s: Seq<char>, p: int)
    requires
        lex_from(s, p) is Ok,
    ensures
        terminated(lex_from(s, p)->Ok_0),
    decreases s.len() - p,
{
    if let Ok((t, e)) = crate::parse::lexer::next_tok(s, p) {
        if !(t is Eof) && p < e <= s.len() {
            lemma_lex_terminated(s, e);
            let rest = lex_from(s, e)->Ok_0;
            assert((seq![t] + rest).last() == rest.last());
        }
    }
}

/// Step 1: turn source text into the full token stream (trailing `Eof`
/// included).
pub fn lex(src: &str) -> (r: Result<Vec<Token>, EngineError>)
    ensures
        match lex_spec(src@) {
            Ok(ts) => r matches Ok(v) && toks_of(v@) == ts,
            Err(f) => r matches Err(err) && reports(err, f),
        },
{
    Lexer::new(src).tokenize()
}

/// Step 2: turn a token stream, as `lex` produces it, into an expression
/// tree; `spell` gives the spelling of a number literal's value in an error
/// message.
pub fn parse<S: Fn(&String) -> String>(tokens: Vec<Token>, spell: &S) -> (r: Result<Expr, EngineError>)
    requires
        terminated(toks_of(tokens@)),
        forall|x: &String| spell.requires((x,)),
    ensures
        match parse_tokens(toks_of(tokens@)) {
            Ok(e) => r matches Ok(v) && v@ == e,
            Err((q, x)) => r matches Err(err) && reports_at(err, toks_of(tokens@), q, x, *spell),
        },
{
    Parser::new(tokens).parse(spell)
}

/// What `compile` yields for the source `s`: the lexer's or the parser's
/// error, or else the lowering of the parsed tree.
pub open spec fn compiles<F: Fn(&String) -> Option<u64>, S: Fn(&String) -> String>(
    s: Seq<char>,
    conv: F,
    spell: S,
    r: Result<(Graph, usize), EngineError>,
) -> bool {
    match lex_spec(s) {
        Err(f) => r matches Err(err) && reports(err, f),
        Ok(ts) => match parse_tokens(ts) {
            Err((q, x)) => r matches Err(err) && reports_at(err, ts, q, x, spell),
            Ok(e) => lowers(e, conv, spell, r),
        },
    }
}

/// What lowering the tree `e` into a fresh graph yields: a well-formed graph
/// whose last node denotes `e`, with no two nodes alike and none unused, or
/// the error of an operator without a graph counterpart or of a literal `conv`
/// rejects.
pub open spec fn lowers<F: Fn(&String) -> Option<u64>, S: Fn(&String) -> String>(
    e: SExpr,
    conv: F,
    spell: S,
    r: Result<(Graph, usize), EngineError>,
) -> bool {
    &&& r matches Ok((g, root)) ==> g.wf() && root == g@.len() - 1 && denotes(g@, root as int, e, conv)
        && distinct_nodes(g@) && used_from(g@, 0)
    &&& shape_ok(e) && literals_convert(e, conv) ==> r is Ok
    &&& r matches Err(err) ==> lower_error(e, conv, spell, err)
}

/// The full front end: `lex`, then `parse`, then `lower`. Returns the graph
/// and the index of its root (output) node, which is its last node; `conv`
/// gives each numeric literal's value from its text, and `spell` the
/// spelling of that value in an error message.
pub fn compile<F: Fn(&String) -> Option<u64>, S: Fn(&String) -> String>(
    src: &str,
    conv: &F,
    spell: &S,
) -> (r: Result<(Graph, usize), EngineError>)
    requires
        forall|s: &String| conv.requires((s,)),
        forall|x: &String| spell.requires((x,)),
    ensures
        compiles(src@, *conv, *spell, r),
{
    let tokens = match lex(src) {
        Ok(t) => t,
        Err(err) => {
            return Err(err);
        },
    };
    proof {
        lemma_lex_terminated(src@, 0);
    }
    let expr = match parse(tokens, spell) {
        Ok(e) => e,
        Err(err) => {
            return Err(err);
        },
    };
    lower(&expr, conv, spell)
}

} // verus!
