//! Propositional logic on formulas in reverse Polish notation: parsing into
//! an abstract syntax tree, truth-table evaluation, satisfiability, rewriting
//! into negation and conjunctive normal form, a set-algebra evaluator over the
//! same syntax, and a few bitwise arithmetic exercises.
use vstd::prelude::*;

pub mod ast;
mod bits;
pub mod sets;
pub mod truth;

pub use bits::adder;
pub use bits::gray_code;
pub use bits::multiplier;
pub use bits::reverse_gray_code;

verus! {

/// Rewrites a reverse Polish formula into negation normal form: the result
/// parses to a well-formed tree in that form with the same truth value as the
/// input under every assignment, and the call fails exactly where parsing the
/// input fails.
pub fn negation_normal_form(formula: &str) -> (r: Result<String, ast::AstError>)
    ensures
        match ast::spec_tree(formula@) {
            Ok(t) => r matches Ok(out) && out@ == ast::nnf_spec(t).formula(),
            Err(e) => r == Err::<String, ast::AstError>(e),
        },
{
    let mut tree = match ast::BoolNode::tree(formula) {
        Ok(t) => t,
        Err(e) => {
            return Err(e);
        },
    };
    tree.to_nnf();
    Ok(tree.to_formula())
}

/// Rewrites a reverse Polish formula into conjunctive normal form: the result
/// parses to a well-formed tree in that form with the same truth value as the
/// input under every assignment, and the call fails exactly where parsing the
/// input fails.
pub fn conjunctive_normal_form(formula: &str) -> (r: Result<String, ast::AstError>)
    ensures
        match ast::spec_tree(formula@) {
            Ok(t) => r matches Ok(out) && out@ == ast::cnf_spec(t).formula(),
            Err(e) => r == Err::<String, ast::AstError>(e),
        },
{
    let mut tree = match ast::BoolNode::tree(formula) {
        Ok(t) => t,
        Err(e) => {
            return Err(e);
        },
    };
    tree.to_cnf();
    Ok(tree.to_formula())
}

} // verus!
