//! Parser for free-text boolean search queries.
//!
//! A query mixes implicit AND (whitespace), explicit `AND`/`OR` keywords,
//! quoted exact phrases, `-` negation and nested parentheses, in both their
//! ASCII and full-width spellings.  `parse_query_to_condition` turns such a
//! query into a canonical [`Condition`] tree; malformed input degrades
//! gracefully and never produces an error.

use vstd::prelude::*;

pub mod condition;
pub mod layered_query;
pub mod query;
pub mod text;

pub use condition::Condition;
pub use condition::Operator;
pub use layered_query::LayeredQueries;
pub use layered_query::LayeredQuery;
pub use query::Query;

verus! {

/// What parsing returns for any query text: the layered tree of the query,
/// recombined into one canonical condition.
pub open spec fn parse_query_spec(q: Seq<char>) -> condition::CondModel {
    layered_query::tree_cond_spec(layered_query::parse_spec(q))
}

/// Parse a free-text search query into a canonical boolean condition tree.
/// The parser is total: every malformed input degrades gracefully, and the
/// result always satisfies the canonical-form invariant.
pub fn parse_query_to_condition(query: &str) -> (r: Condition)
    ensures
        r@ == parse_query_spec(query@),
        condition::is_canonical(r@),
{
    let q = Query::new(query.to_owned());
    let r = LayeredQueries::parse(q).to_condition();
    proof {
        condition::lemma_simplify_canonical(
            layered_query::substitute_spec(
                crate::query::leaf_cond_spec(
                    layered_query::walk_nodes(layered_query::parse_spec(query@), 0).skel,
                ).cond,
                layered_query::walk_nodes(layered_query::parse_spec(query@), 0).conds,
            ),
        );
    }
    r
}

} // verus!
