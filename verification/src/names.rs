//! Names of graphs.

use crate::error::{EngineError, ErrorView};
use crate::text::{concat2, has_prefix, starts_with};
use vstd::prelude::*;

verus! {

/// Names that begin with two underscores are kept for the engine.
pub open spec fn reserved_name(graph: Seq<char>) -> bool {
    has_prefix(graph, "__"@)
}

pub open spec fn reserved_name_error(graph: Seq<char>) -> ErrorView {
    ErrorView::Unsupported("graph names starting with '__' are reserved: "@ + graph)
}

/// Refuses the names that are kept for the engine.
pub fn validate_user_graph_name(graph: &str) -> (r: Result<(), EngineError>)
    ensures
        r is Ok <==> !reserved_name(graph@),
        r matches Err(e) ==> e@ == reserved_name_error(graph@),
{
    if starts_with(graph, "__") {
        return Err(
            EngineError::Unsupported(
                concat2("graph names starting with '__' are reserved: ", graph),
            ),
        );
    }
    Ok(())
}

} // verus!
