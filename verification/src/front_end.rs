use vstd::prelude::*;
use crate::error::Error;
use crate::lexer::Lexer;
use crate::utils::PoolRef;
use crate::parser::{no_panic_from, shapes_ok, source_fits, syntax_error, Parser, Tree};
use crate::semantic_analyzer::{semantic_failure, types_follow_rules, SemanticAnalyzer, SemanticMetadata};

verus! {

/// Lexes, parses and analyses a program: its syntax tree with the tree's
/// metadata, or the errors of the first stage that fails.
pub fn front_end(source_code: &str) -> (r: Result<(Tree<'_>, SemanticMetadata), Error>)
    requires
        source_fits(source_code@.len() as int),
        no_panic_from(source_code@, 0),
    ensures
        r matches Ok((tree, md)) ==> {
            &&& tree.wf()
            &&& tree.source_code@ == source_code@
            &&& tree.stmt_pool.nodes()[tree.program.index_of() as int] is Program
            &&& shapes_ok(&tree)
            &&& md.wf()
            &&& types_follow_rules(&tree, &md)
        },
        r matches Err(e) ==> syntax_error(e) || semantic_failure(e),
{
    let lexer = Lexer::new(source_code);
    let parser = Parser::new(lexer)?;
    let tree = parser.parse()?;
    let semantic_analyzer = SemanticAnalyzer::new();
    let semantic_metadata = semantic_analyzer.analyze(&tree)?;
    Ok((tree, semantic_metadata))
}

} // verus!
