//! The abstract syntax tree of a propositional formula written in reverse
//! Polish notation, with the local rewrite rules that bring a tree into
//! negation normal form and conjunctive normal form.
use vstd::prelude::*;

verus! {

/// The kind of a node: a variable leaf, the unary negation, or one of the
/// five binary connectives.
#[derive(Clone, Copy, Debug, PartialEq, Eq, Structural)]
pub enum BoolType {
    Variable,
    Negation,
    Conjunction,
    Disjunction,
    ExclusiveDisjunction,
    MaterialCondition,
    LogicalEquivalence,
}

/// Why a formula string was rejected by the parser.
#[derive(Clone, Copy, Debug, PartialEq, Eq, Structural)]
pub enum AstError {
    /// The formula string is empty.
    EmptyFormula,
    /// The character is not a valid operator or variable.
    InvalidSymbol(char),
    /// An operation of this kind ran out of operands.
    MissingOperand(BoolType),
    /// Characters were left over after the root was built.
    UnusedOperands,
}

/// One node of a formula tree. A variable owns no children, a negation owns
/// one (stored on the left), and a binary connective owns two.
#[derive(Debug)]
pub struct BoolNode {
    pub boolean_type: BoolType,
    pub op_symbol: char,
    pub left: Option<Box<BoolNode>>,
    pub right: Option<Box<BoolNode>>,
}

/// The characters that stand for variables.
pub open spec fn is_variable_symbol(c: char) -> bool {
    'A' as u32 <= c as u32 && c as u32 <= 'Z' as u32
}

/// The characters that may appear in a tree formula.
pub open spec fn is_op_symbol(c: char) -> bool {
    ||| is_variable_symbol(c)
    ||| c == '!'
    ||| c == '&'
    ||| c == '|'
    ||| c == '^'
    ||| c == '>'
    ||| c == '='
}

/// The node kind a formula character stands for.
pub open spec fn spec_symbol_type(c: char) -> BoolType {
    if c == '!' {
        BoolType::Negation
    } else if c == '&' {
        BoolType::Conjunction
    } else if c == '|' {
        BoolType::Disjunction
    } else if c == '^' {
        BoolType::ExclusiveDisjunction
    } else if c == '>' {
        BoolType::MaterialCondition
    } else if c == '=' {
        BoolType::LogicalEquivalence
    } else {
        BoolType::Variable
    }
}

/// The formula character of an operator kind. Variables have no fixed
/// symbol; they are never asked for one.
pub open spec fn spec_type_symbol(t: BoolType) -> char {
    match t {
        BoolType::Negation => '!',
        BoolType::Conjunction => '&',
        BoolType::Disjunction => '|',
        BoolType::ExclusiveDisjunction => '^',
        BoolType::MaterialCondition => '>',
        BoolType::LogicalEquivalence => '=',
        BoolType::Variable => '?',
    }
}

impl BoolNode {
    /// The number of nodes in the tree.
    pub open spec fn size(self) -> nat
        decreases self,
    {
        1 + opt_size(self.left) + opt_size(self.right)
    }

    /// Arity matches kind everywhere, variable letters are upper case, and
    /// every node carries the symbol of its own kind.
    pub open spec fn wf(self) -> bool
        decreases self,
    {
        &&& (if self.boolean_type is Variable {
            is_variable_symbol(self.op_symbol)
        } else {
            self.op_symbol == spec_type_symbol(self.boolean_type)
        })
        &&& (match self.boolean_type {
            BoolType::Variable => self.left is None && self.right is None,
            BoolType::Negation => self.right is None && (match self.left {
                Some(l) => l.wf(),
                None => false,
            }),
            _ => (match (self.left, self.right) {
                (Some(l), Some(r)) => l.wf() && r.wf(),
                _ => false,
            }),
        })
    }

    /// The reverse Polish formula of the tree: both subtrees, then the
    /// node's own symbol.
    pub open spec fn formula(self) -> Seq<char>
        decreases self,
    {
        opt_formula(self.left) + opt_formula(self.right) + seq![self.op_symbol]
    }

    /// The truth value of the tree under an assignment of the variables.
    pub open spec fn evals(self, env: spec_fn(char) -> bool) -> bool
        decreases self,
    {
        match self.boolean_type {
            BoolType::Variable => env(self.op_symbol),
            BoolType::Negation => !opt_evals(self.left, env),
            BoolType::Conjunction => opt_evals(self.left, env) && opt_evals(self.right, env),
            BoolType::Disjunction => opt_evals(self.left, env) || opt_evals(self.right, env),
            BoolType::ExclusiveDisjunction => opt_evals(self.left, env) != opt_evals(
                self.right,
                env,
            ),
            BoolType::MaterialCondition => !opt_evals(self.left, env) || opt_evals(
                self.right,
                env,
            ),
            BoolType::LogicalEquivalence => opt_evals(self.left, env) == opt_evals(
                self.right,
                env,
            ),
        }
    }
}

/// The number of nodes under an optional child.
pub open spec fn opt_size(o: Option<Box<BoolNode>>) -> nat
    decreases o,
{
    match o {
        None => 0,
        Some(n) => n.size(),
    }
}

/// The formula of an optional child; an absent child contributes nothing.
pub open spec fn opt_formula(o: Option<Box<BoolNode>>) -> Seq<char>
    decreases o,
{
    match o {
        None => Seq::empty(),
        Some(n) => n.formula(),
    }
}

/// The truth value of an optional child; an absent child never occurs in a
/// well-formed tree where the value matters.
pub open spec fn opt_evals(o: Option<Box<BoolNode>>, env: spec_fn(char) -> bool) -> bool
    decreases o,
{
    match o {
        None => false,
        Some(n) => n.evals(env),
    }
}

/// A binary node of the given kind, carrying the kind's own symbol.
pub open spec fn mk_bin(t: BoolType, l: BoolNode, r: BoolNode) -> BoolNode {
    BoolNode {
        boolean_type: t,
        op_symbol: spec_type_symbol(t),
        left: Some(Box::new(l)),
        right: Some(Box::new(r)),
    }
}

/// A negation node over one child.
pub open spec fn mk_not(x: BoolNode) -> BoolNode {
    BoolNode { boolean_type: BoolType::Negation, op_symbol: '!', left: Some(Box::new(x)), right: None }
}

impl BoolNode {
    /// The left child, where arity grants one.
    pub open spec fn lc(self) -> BoolNode {
        match self.left {
            Some(l) => *l,
            None => arbitrary(),
        }
    }

    /// The right child, where arity grants one.
    pub open spec fn rc(self) -> BoolNode {
        match self.right {
            Some(r) => *r,
            None => arbitrary(),
        }
    }

    /// How many nodes of the given kind the tree holds.
    pub open spec fn count_type(self, k: BoolType) -> nat
        decreases self,
    {
        (if self.boolean_type == k {
            1nat
        } else {
            0nat
        }) + opt_count(self.left, k) + opt_count(self.right, k)
    }
}

/// How many nodes of the given kind an optional child holds.
pub open spec fn opt_count(o: Option<Box<BoolNode>>, k: BoolType) -> nat
    decreases o,
{
    match o {
        None => 0,
        Some(n) => n.count_type(k),
    }
}

/// `a = b` becomes `(a > b) & (b > a)`; other nodes are left alone.
pub open spec fn step_equivalence(t: BoolNode) -> BoolNode {
    if t.boolean_type is LogicalEquivalence && t.left is Some && t.right is Some {
        mk_bin(
            BoolType::Conjunction,
            mk_bin(BoolType::MaterialCondition, t.lc(), t.rc()),
            mk_bin(BoolType::MaterialCondition, t.rc(), t.lc()),
        )
    } else {
        t
    }
}

/// `a > b` becomes `!a | b`; other nodes are left alone.
pub open spec fn step_material(t: BoolNode) -> BoolNode {
    if t.boolean_type is MaterialCondition && t.left is Some && t.right is Some {
        mk_bin(BoolType::Disjunction, mk_not(t.lc()), t.rc())
    } else {
        t
    }
}

/// `a ^ b` becomes `(a | b) & !(a & b)`; other nodes are left alone.
pub open spec fn step_exclusive(t: BoolNode) -> BoolNode {
    if t.boolean_type is ExclusiveDisjunction && t.left is Some && t.right is Some {
        mk_bin(
            BoolType::Conjunction,
            mk_bin(BoolType::Disjunction, t.lc(), t.rc()),
            mk_not(mk_bin(BoolType::Conjunction, t.lc(), t.rc())),
        )
    } else {
        t
    }
}

/// Removes every pair of stacked negations at the top of the tree.
pub open spec fn strip_double_negation(t: BoolNode) -> BoolNode
    decreases t.size() via strip_double_negation_dec
{
    if t.boolean_type is Negation && t.left is Some && t.lc().boolean_type is Negation
        && t.lc().left is Some {
        strip_double_negation(t.lc().lc())
    } else {
        t
    }
}

#[via_fn]
proof fn strip_double_negation_dec(t: BoolNode) {
    if t.boolean_type is Negation && t.left is Some && t.lc().boolean_type is Negation
        && t.lc().left is Some {
        assert(t.size() == 1 + opt_size(t.left) + opt_size(t.right));
        assert(t.lc().size() == 1 + opt_size(t.lc().left) + opt_size(t.lc().right));
        assert(t.lc().lc().size() < t.size());
    }
}

/// De Morgan: `!(a & b)` becomes `!a | !b` and `!(a | b)` becomes `!a & !b`,
/// with stacked negations removed from the two new negation nodes at once.
pub open spec fn step_junction_negation(t: BoolNode) -> BoolNode {
    if t.boolean_type is Negation && t.left is Some && (t.lc().boolean_type is Conjunction
        || t.lc().boolean_type is Disjunction) && t.lc().left is Some && t.lc().right is Some {
        let dual = if t.lc().boolean_type is Conjunction {
            BoolType::Disjunction
        } else {
            BoolType::Conjunction
        };
        mk_bin(
            dual,
            strip_double_negation(mk_not(t.lc().lc())),
            strip_double_negation(mk_not(t.lc().rc())),
        )
    } else {
        t
    }
}

/// A node-local rewrite rule that a traversal can carry to every node.
#[derive(Clone, Copy, Debug, PartialEq, Eq, Structural)]
pub enum Rule {
    ReplaceExclusiveDisjunction,
    ReplaceMaterialCondition,
    ReplaceLogicalEquivalence,
    EliminateDoubleNegation,
    ReplaceJunctionNegation,
}

/// What one rule does to one node.
pub open spec fn apply_rule_spec(t: BoolNode, r: Rule) -> BoolNode {
    match r {
        Rule::ReplaceExclusiveDisjunction => step_exclusive(t),
        Rule::ReplaceMaterialCondition => step_material(t),
        Rule::ReplaceLogicalEquivalence => step_equivalence(t),
        Rule::EliminateDoubleNegation => strip_double_negation(t),
        Rule::ReplaceJunctionNegation => step_junction_negation(t),
    }
}

/// The termination measure of a traversal: rules that duplicate subtrees
/// shrink this count at every rewrite, the others shrink the tree itself.
pub open spec fn rule_weight(t: BoolNode, r: Rule) -> nat {
    match r {
        Rule::ReplaceLogicalEquivalence => t.count_type(BoolType::LogicalEquivalence),
        Rule::ReplaceExclusiveDisjunction => t.count_type(BoolType::ExclusiveDisjunction),
        _ => 0,
    }
}

/// A subtree never counts more nodes of a kind than the whole, and is
/// strictly smaller.
proof fn lemma_child_measures(t: BoolNode, k: BoolType)
    ensures
        t.left matches Some(l) ==> l.count_type(k) <= t.count_type(k) && l.size() < t.size(),
        t.right matches Some(r) ==> r.count_type(k) <= t.count_type(k) && r.size() < t.size(),
{
    assert(t.size() == 1 + opt_size(t.left) + opt_size(t.right));
    assert(t.count_type(k) == (if t.boolean_type == k {
        1nat
    } else {
        0nat
    }) + opt_count(t.left, k) + opt_count(t.right, k));
}

/// Stripping double negations never grows the tree nor adds nodes of any
/// kind.
proof fn lemma_strip_measures(t: BoolNode, k: BoolType)
    ensures
        strip_double_negation(t).size() <= t.size(),
        strip_double_negation(t).count_type(k) <= t.count_type(k),
    decreases t.size(),
{
    if t.boolean_type is Negation && t.left is Some && t.lc().boolean_type is Negation
        && t.lc().left is Some {
        lemma_child_measures(t, k);
        lemma_child_measures(t.lc(), k);
        lemma_strip_measures(t.lc().lc(), k);
    }
}

/// After a rule fires at a node, both children weigh strictly less than the
/// node did, in the traversal's lexicographic measure.
proof fn lemma_rule_children_measure(t: BoolNode, r: Rule)
    ensures
        ({
            let u = apply_rule_spec(t, r);
            &&& (u.left matches Some(l) ==> rule_weight(*l, r) < rule_weight(t, r) || (rule_weight(
                *l,
                r,
            ) == rule_weight(t, r) && l.size() < t.size()))
            &&& (u.right matches Some(rr) ==> rule_weight(*rr, r) < rule_weight(t, r) || (
            rule_weight(*rr, r) == rule_weight(t, r) && rr.size() < t.size()))
        }),
{
    let u = apply_rule_spec(t, r);
    match r {
        Rule::ReplaceLogicalEquivalence => {
            let k = BoolType::LogicalEquivalence;
            if t.boolean_type is LogicalEquivalence && t.left is Some && t.right is Some {
                lemma_child_measures(t, k);
                assert(u.lc().count_type(k) == t.lc().count_type(k) + t.rc().count_type(k));
                assert(u.rc().count_type(k) == t.rc().count_type(k) + t.lc().count_type(k));
                assert(t.count_type(k) == 1 + t.lc().count_type(k) + t.rc().count_type(k));
            } else {
                lemma_child_measures(t, k);
            }
        },
        Rule::ReplaceExclusiveDisjunction => {
            let k = BoolType::ExclusiveDisjunction;
            if t.boolean_type is ExclusiveDisjunction && t.left is Some && t.right is Some {
                lemma_child_measures(t, k);
                assert(u.lc().count_type(k) == t.lc().count_type(k) + t.rc().count_type(k));
                assert(u.rc().count_type(k) == (mk_bin(
                    BoolType::Conjunction,
                    t.lc(),
                    t.rc(),
                )).count_type(k));
                assert(t.count_type(k) == 1 + t.lc().count_type(k) + t.rc().count_type(k));
            } else {
                lemma_child_measures(t, k);
            }
        },
        Rule::ReplaceMaterialCondition => {
            if t.boolean_type is MaterialCondition && t.left is Some && t.right is Some {
                lemma_child_measures(t, BoolType::Variable);
                assert(u.lc().size() == 1 + t.lc().size());
                assert(t.rc().size() >= 1);
                assert(t.size() == 1 + t.lc().size() + t.rc().size());
            } else {
                lemma_child_measures(t, BoolType::Variable);
            }
        },
        Rule::EliminateDoubleNegation => {
            lemma_strip_measures(t, BoolType::Variable);
            lemma_child_measures(u, BoolType::Variable);
        },
        Rule::ReplaceJunctionNegation => {
            if t.boolean_type is Negation && t.left is Some && (t.lc().boolean_type is Conjunction
                || t.lc().boolean_type is Disjunction) && t.lc().left is Some
                && t.lc().right is Some {
                let x = t.lc().lc();
                let y = t.lc().rc();
                lemma_strip_measures(mk_not(x), BoolType::Variable);
                lemma_strip_measures(mk_not(y), BoolType::Variable);
                assert(mk_not(x).size() == 1 + x.size());
                assert(mk_not(y).size() == 1 + y.size());
                assert(t.lc().size() == 1 + x.size() + y.size());
                assert(t.size() == 1 + opt_size(t.left) + opt_size(t.right));
                assert(t.size() >= 1 + t.lc().size());
                assert(x.size() >= 1 && y.size() >= 1);
            } else {
                lemma_child_measures(t, BoolType::Variable);
            }
        },
    }
}

/// Applies one rule at every node, the node before its children, as the
/// original pre-order traversal visits them.
pub open spec fn pre_order_spec(t: BoolNode, r: Rule) -> BoolNode
    decreases rule_weight(t, r), t.size() via pre_order_spec_dec
{
    let u = apply_rule_spec(t, r);
    BoolNode {
        boolean_type: u.boolean_type,
        op_symbol: u.op_symbol,
        left: match u.left {
            None => None,
            Some(l) => Some(Box::new(pre_order_spec(*l, r))),
        },
        right: match u.right {
            None => None,
            Some(rr) => Some(Box::new(pre_order_spec(*rr, r))),
        },
    }
}

#[via_fn]
proof fn pre_order_spec_dec(t: BoolNode, r: Rule) {
    lemma_rule_children_measure(t, r);
}

/// A well-formed node has well-formed children.
proof fn lemma_wf_children(t: BoolNode)
    requires
        t.wf(),
    ensures
        t.left matches Some(l) ==> l.wf(),
        t.right matches Some(r) ==> r.wf(),
{
}

/// Stripping double negations keeps the tree well formed and keeps its truth
/// value under every assignment.
proof fn lemma_strip_props(t: BoolNode)
    requires
        t.wf(),
    ensures
        strip_double_negation(t).wf(),
        forall|env: spec_fn(char) -> bool| #[trigger] strip_double_negation(t).evals(env)
            == t.evals(env),
    decreases t.size(),
{
    if t.boolean_type is Negation && t.left is Some && t.lc().boolean_type is Negation
        && t.lc().left is Some {
        assert(t.lc().wf());
        assert(t.lc().lc().wf());
        lemma_strip_measures(t.lc(), BoolType::Variable);
        assert(t.lc().lc().size() < t.size());
        lemma_strip_props(t.lc().lc());
        assert forall|env: spec_fn(char) -> bool| #[trigger] strip_double_negation(t).evals(env)
            == t.evals(env) by {
            assert(t.evals(env) == !t.lc().evals(env));
            assert(t.lc().evals(env) == !t.lc().lc().evals(env));
        }
    }
}

/// One rule at one node keeps the tree well formed and keeps its truth value
/// under every assignment.
proof fn lemma_apply_rule_props(t: BoolNode, r: Rule)
    requires
        t.wf(),
    ensures
        apply_rule_spec(t, r).wf(),
        forall|env: spec_fn(char) -> bool| #[trigger] apply_rule_spec(t, r).evals(env) == t.evals(
            env,
        ),
{
    let u = apply_rule_spec(t, r);
    match r {
        Rule::ReplaceLogicalEquivalence => {
            if t.boolean_type is LogicalEquivalence && t.left is Some && t.right is Some {
                assert(t.lc().wf() && t.rc().wf());
                assert(mk_bin(BoolType::MaterialCondition, t.lc(), t.rc()).wf());
                assert(mk_bin(BoolType::MaterialCondition, t.rc(), t.lc()).wf());
                assert(u.wf());
                assert forall|env: spec_fn(char) -> bool| #[trigger] u.evals(env) == t.evals(
                    env,
                ) by {
                    assert(u.lc().evals(env) == (!t.lc().evals(env) || t.rc().evals(env)));
                    assert(u.rc().evals(env) == (!t.rc().evals(env) || t.lc().evals(env)));
                    assert(u.evals(env) == (u.lc().evals(env) && u.rc().evals(env)));
                }
            }
        },
        Rule::ReplaceMaterialCondition => {
            if t.boolean_type is MaterialCondition && t.left is Some && t.right is Some {
                assert(t.lc().wf() && t.rc().wf());
                assert(mk_not(t.lc()).wf());
                assert(u.wf());
                assert forall|env: spec_fn(char) -> bool| #[trigger] u.evals(env) == t.evals(
                    env,
                ) by {
                    assert(u.lc().evals(env) == !t.lc().evals(env));
                    assert(u.evals(env) == (u.lc().evals(env) || u.rc().evals(env)));
                }
            }
        },
        Rule::ReplaceExclusiveDisjunction => {
            if t.boolean_type is ExclusiveDisjunction && t.left is Some && t.right is Some {
                assert(t.lc().wf() && t.rc().wf());
                assert(mk_bin(BoolType::Disjunction, t.lc(), t.rc()).wf());
                assert(mk_bin(BoolType::Conjunction, t.lc(), t.rc()).wf());
                assert(mk_not(mk_bin(BoolType::Conjunction, t.lc(), t.rc())).wf());
                assert(u.wf());
                assert forall|env: spec_fn(char) -> bool| #[trigger] u.evals(env) == t.evals(
                    env,
                ) by {
                    assert(u.lc().evals(env) == (t.lc().evals(env) || t.rc().evals(env)));
                    assert(mk_bin(BoolType::Conjunction, t.lc(), t.rc()).evals(env) == (
                    t.lc().evals(env) && t.rc().evals(env)));
                    assert(u.rc().evals(env) == !mk_bin(
                        BoolType::Conjunction,
                        t.lc(),
                        t.rc(),
                    ).evals(env));
                    assert(u.evals(env) == (u.lc().evals(env) && u.rc().evals(env)));
                }
            }
        },
        Rule::EliminateDoubleNegation => {
            lemma_strip_props(t);
        },
        Rule::ReplaceJunctionNegation => {
            if t.boolean_type is Negation && t.left is Some && (t.lc().boolean_type is Conjunction
                || t.lc().boolean_type is Disjunction) && t.lc().left is Some
                && t.lc().right is Some {
                let x = t.lc().lc();
                let y = t.lc().rc();
                assert(t.lc().wf());
                assert(x.wf() && y.wf());
                assert(mk_not(x).wf() && mk_not(y).wf());
                lemma_strip_props(mk_not(x));
                lemma_strip_props(mk_not(y));
                assert(u.wf());
                assert forall|env: spec_fn(char) -> bool| #[trigger] u.evals(env) == t.evals(
                    env,
                ) by {
                    assert(mk_not(x).evals(env) == !x.evals(env));
                    assert(mk_not(y).evals(env) == !y.evals(env));
                    assert(u.lc() == strip_double_negation(mk_not(x)));
                    assert(u.rc() == strip_double_negation(mk_not(y)));
                    assert(u.lc().evals(env) == !x.evals(env));
                    assert(u.rc().evals(env) == !y.evals(env));
                    assert(t.evals(env) == !t.lc().evals(env));
                    if t.lc().boolean_type is Conjunction {
                        assert(t.lc().evals(env) == (x.evals(env) && y.evals(env)));
                        assert(u.evals(env) == (u.lc().evals(env) || u.rc().evals(env)));
                    } else {
                        assert(t.lc().evals(env) == (x.evals(env) || y.evals(env)));
                        assert(u.evals(env) == (u.lc().evals(env) && u.rc().evals(env)));
                    }
                }
            }
        },
    }
}

/// A whole pre-order pass keeps the tree well formed and keeps its truth
/// value under every assignment.
pub proof fn lemma_pre_order_props(t: BoolNode, r: Rule)
    requires
        t.wf(),
    ensures
        pre_order_spec(t, r).wf(),
        forall|env: spec_fn(char) -> bool| #[trigger] pre_order_spec(t, r).evals(env) == t.evals(
            env,
        ),
    decreases rule_weight(t, r), t.size(),
{
    lemma_rule_children_measure(t, r);
    lemma_apply_rule_props(t, r);
    let u = apply_rule_spec(t, r);
    let res = pre_order_spec(t, r);
    lemma_wf_children(u);
    if u.left is Some {
        lemma_pre_order_props(u.lc(), r);
    }
    if u.right is Some {
        lemma_pre_order_props(u.rc(), r);
    }
    assert(res.wf());
    assert forall|env: spec_fn(char) -> bool| #[trigger] res.evals(env) == t.evals(env) by {
        if u.left is Some {
            assert(res.lc().evals(env) == u.lc().evals(env));
        }
        if u.right is Some {
            assert(res.rc().evals(env) == u.rc().evals(env));
        }
        assert(res.evals(env) == u.evals(env));
    }
}

impl BoolNode {
    /// Negation normal form: only conjunctions and disjunctions stand above
    /// the leaves, and every negation sits directly on a variable.
    pub open spec fn is_nnf(self) -> bool
        decreases self,
    {
        match self.boolean_type {
            BoolType::Variable => true,
            BoolType::Negation => self.left matches Some(l) && l.boolean_type is Variable,
            BoolType::Conjunction | BoolType::Disjunction => (match self.left {
                Some(l) => l.is_nnf(),
                None => false,
            }) && (match self.right {
                Some(r) => r.is_nnf(),
                None => false,
            }),
            _ => false,
        }
    }

    /// No negation sits directly on another negation anywhere in the tree.
    pub open spec fn no_dneg(self) -> bool
        decreases self,
    {
        &&& !(self.boolean_type is Negation && self.left is Some
            && self.lc().boolean_type is Negation)
        &&& (match self.left {
            Some(l) => l.no_dneg(),
            None => true,
        })
        &&& (match self.right {
            Some(r) => r.no_dneg(),
            None => true,
        })
    }
}

/// The kind of node a rewrite pass is meant to remove.
pub open spec fn rule_target(r: Rule) -> BoolType {
    match r {
        Rule::ReplaceLogicalEquivalence => BoolType::LogicalEquivalence,
        Rule::ReplaceMaterialCondition => BoolType::MaterialCondition,
        Rule::ReplaceExclusiveDisjunction => BoolType::ExclusiveDisjunction,
        Rule::EliminateDoubleNegation => BoolType::Negation,
        Rule::ReplaceJunctionNegation => BoolType::Negation,
    }
}

/// The kinds of nodes a rewrite rule may create.
pub open spec fn rule_introduces(r: Rule, k: BoolType) -> bool {
    match r {
        Rule::ReplaceLogicalEquivalence => k is Conjunction || k is MaterialCondition,
        Rule::ReplaceMaterialCondition => k is Disjunction || k is Negation,
        Rule::ReplaceExclusiveDisjunction => k is Conjunction || k is Disjunction
            || k is Negation,
        Rule::EliminateDoubleNegation => false,
        Rule::ReplaceJunctionNegation => k is Conjunction || k is Disjunction || k is Negation,
    }
}

/// A pass of one of the three connective-eliminating rules leaves no node of
/// the eliminated kind behind.
proof fn lemma_pass_eliminates(t: BoolNode, r: Rule)
    requires
        t.wf(),
        r is ReplaceLogicalEquivalence || r is ReplaceMaterialCondition
            || r is ReplaceExclusiveDisjunction,
    ensures
        pre_order_spec(t, r).count_type(rule_target(r)) == 0,
    decreases rule_weight(t, r), t.size(),
{
    lemma_rule_children_measure(t, r);
    lemma_apply_rule_props(t, r);
    let u = apply_rule_spec(t, r);
    let res = pre_order_spec(t, r);
    lemma_wf_children(u);
    if u.left is Some {
        lemma_pass_eliminates(u.lc(), r);
    }
    if u.right is Some {
        lemma_pass_eliminates(u.rc(), r);
    }
    assert(!(u.boolean_type == rule_target(r)));
    assert(res.count_type(rule_target(r)) == (if res.boolean_type == rule_target(r) {
        1nat
    } else {
        0nat
    }) + opt_count(res.left, rule_target(r)) + opt_count(res.right, rule_target(r)));
}

/// A pass of a rule that cannot create nodes of a kind keeps a tree free of
/// that kind.
proof fn lemma_pass_preserves_free(t: BoolNode, r: Rule, k: BoolType)
    requires
        t.wf(),
        t.count_type(k) == 0,
        !rule_introduces(r, k),
    ensures
        pre_order_spec(t, r).count_type(k) == 0,
    decreases rule_weight(t, r), t.size(),
{
    lemma_rule_children_measure(t, r);
    lemma_apply_rule_props(t, r);
    lemma_child_measures(t, k);
    let u = apply_rule_spec(t, r);
    let res = pre_order_spec(t, r);
    assert(u.count_type(k) == 0) by {
        match r {
            Rule::ReplaceLogicalEquivalence => {
                if t.boolean_type is LogicalEquivalence && t.left is Some && t.right is Some {
                    assert(u.lc().count_type(k) == t.lc().count_type(k) + t.rc().count_type(k));
                    assert(u.rc().count_type(k) == t.rc().count_type(k) + t.lc().count_type(k));
                }
            },
            Rule::ReplaceMaterialCondition => {
                if t.boolean_type is MaterialCondition && t.left is Some && t.right is Some {
                    assert(u.lc().count_type(k) == t.lc().count_type(k));
                }
            },
            Rule::ReplaceExclusiveDisjunction => {
                if t.boolean_type is ExclusiveDisjunction && t.left is Some && t.right is Some {
                    assert(u.lc().count_type(k) == t.lc().count_type(k) + t.rc().count_type(k));
                    assert(mk_bin(BoolType::Conjunction, t.lc(), t.rc()).count_type(k)
                        == t.lc().count_type(k) + t.rc().count_type(k));
                    assert(u.rc().count_type(k) == mk_bin(
                        BoolType::Conjunction,
                        t.lc(),
                        t.rc(),
                    ).count_type(k));
                }
            },
            Rule::EliminateDoubleNegation => {
                lemma_strip_measures(t, k);
            },
            Rule::ReplaceJunctionNegation => {
                if t.boolean_type is Negation && t.left is Some
                    && (t.lc().boolean_type is Conjunction || t.lc().boolean_type is Disjunction)
                    && t.lc().left is Some && t.lc().right is Some {
                    let x = t.lc().lc();
                    let y = t.lc().rc();
                    lemma_child_measures(t.lc(), k);
                    assert(mk_not(x).count_type(k) == x.count_type(k));
                    assert(mk_not(y).count_type(k) == y.count_type(k));
                    lemma_strip_measures(mk_not(x), k);
                    lemma_strip_measures(mk_not(y), k);
                }
            },
        }
    }
    lemma_wf_children(u);
    lemma_child_measures(u, k);
    if u.left is Some {
        lemma_pass_preserves_free(u.lc(), r, k);
    }
    if u.right is Some {
        lemma_pass_preserves_free(u.rc(), r, k);
    }
    assert(res.count_type(k) == (if res.boolean_type == k {
        1nat
    } else {
        0nat
    }) + opt_count(res.left, k) + opt_count(res.right, k));
}

/// What stripping returns is never itself a double negation at the top.
proof fn lemma_strip_top(t: BoolNode)
    requires
        t.wf(),
    ensures
        ({
            let u = strip_double_negation(t);
            !(u.boolean_type is Negation && u.left is Some && u.lc().boolean_type is Negation)
        }),
    decreases t.size(),
{
    if t.boolean_type is Negation && t.left is Some && t.lc().boolean_type is Negation
        && t.lc().left is Some {
        lemma_child_measures(t, BoolType::Variable);
        lemma_child_measures(t.lc(), BoolType::Variable);
        lemma_wf_children(t);
        lemma_wf_children(t.lc());
        assert(t.lc().wf() && t.lc().lc().wf());
        lemma_strip_top(t.lc().lc());
    } else if t.boolean_type is Negation && t.left is Some
        && t.lc().boolean_type is Negation {
        // A well-formed negation always has its operand, so this case is
        // impossible and the guard above would have fired.
        assert(t.lc().wf());
        assert(t.lc().left is Some);
    }
}

/// After the double-negation pass no negation sits on another negation.
proof fn lemma_dneg_pass(t: BoolNode)
    requires
        t.wf(),
    ensures
        pre_order_spec(t, Rule::EliminateDoubleNegation).no_dneg(),
        pre_order_spec(t, Rule::EliminateDoubleNegation).boolean_type == strip_double_negation(
            t,
        ).boolean_type,
    decreases t.size(),
{
    let r = Rule::EliminateDoubleNegation;
    lemma_rule_children_measure(t, r);
    lemma_apply_rule_props(t, r);
    let u = strip_double_negation(t);
    let res = pre_order_spec(t, r);
    lemma_wf_children(u);
    if u.left is Some {
        lemma_strip_measures(t, BoolType::Variable);
        lemma_child_measures(u, BoolType::Variable);
        lemma_dneg_pass(u.lc());
    }
    if u.right is Some {
        lemma_strip_measures(t, BoolType::Variable);
        lemma_child_measures(u, BoolType::Variable);
        lemma_dneg_pass(u.rc());
    }
    lemma_strip_top(t);
    if u.boolean_type is Negation && u.left is Some {
        assert(strip_double_negation(u.lc()) == u.lc());
    }
}

/// Stripping the negation of a tree free of stacked negations gives a tree
/// still free of them.
proof fn lemma_strip_not_no_dneg(x: BoolNode)
    requires
        x.wf(),
        x.no_dneg(),
    ensures
        strip_double_negation(mk_not(x)).no_dneg(),
{
    if x.boolean_type is Negation {
        assert(x.left is Some);
        assert(strip_double_negation(mk_not(x)) == strip_double_negation(x.lc()));
        assert(!(x.lc().boolean_type is Negation));
        assert(strip_double_negation(x.lc()) == x.lc());
    } else {
        assert(strip_double_negation(mk_not(x)) == mk_not(x));
    }
}

/// After the De Morgan pass on a tree with only conjunctions, disjunctions,
/// negations and variables, and no stacked negations, the tree is in
/// negation normal form.
proof fn lemma_junction_pass_nnf(t: BoolNode)
    requires
        t.wf(),
        t.count_type(BoolType::LogicalEquivalence) == 0,
        t.count_type(BoolType::MaterialCondition) == 0,
        t.count_type(BoolType::ExclusiveDisjunction) == 0,
        t.no_dneg(),
    ensures
        pre_order_spec(t, Rule::ReplaceJunctionNegation).is_nnf(),
    decreases t.size(),
{
    let r = Rule::ReplaceJunctionNegation;
    lemma_rule_children_measure(t, r);
    lemma_apply_rule_props(t, r);
    let u = apply_rule_spec(t, r);
    let res = pre_order_spec(t, r);
    lemma_wf_children(u);
    lemma_child_measures(t, BoolType::LogicalEquivalence);
    lemma_child_measures(t, BoolType::MaterialCondition);
    lemma_child_measures(t, BoolType::ExclusiveDisjunction);
    match t.boolean_type {
        BoolType::Variable => {
            assert(res.is_nnf());
        },
        BoolType::Negation => {
            assert(t.left is Some);
            let c = t.lc();
            assert(c.wf() && c.no_dneg());
            assert(!(c.boolean_type is Negation));
            assert(c.count_type(BoolType::LogicalEquivalence) == 0
                && c.count_type(BoolType::MaterialCondition) == 0 && c.count_type(
                BoolType::ExclusiveDisjunction,
            ) == 0);
            assert(!(c.boolean_type is LogicalEquivalence)
                && !(c.boolean_type is MaterialCondition) && !(
            c.boolean_type is ExclusiveDisjunction));
            if c.boolean_type is Conjunction || c.boolean_type is Disjunction {
                let x = c.lc();
                let y = c.rc();
                lemma_child_measures(c, BoolType::LogicalEquivalence);
                lemma_child_measures(c, BoolType::MaterialCondition);
                lemma_child_measures(c, BoolType::ExclusiveDisjunction);
                let a = strip_double_negation(mk_not(x));
                let b = strip_double_negation(mk_not(y));
                assert(mk_not(x).wf() && mk_not(y).wf());
                lemma_strip_props(mk_not(x));
                lemma_strip_props(mk_not(y));
                lemma_strip_not_no_dneg(x);
                lemma_strip_not_no_dneg(y);
                assert(mk_not(x).count_type(BoolType::LogicalEquivalence) == x.count_type(
                    BoolType::LogicalEquivalence,
                ));
                assert(mk_not(x).count_type(BoolType::MaterialCondition) == x.count_type(
                    BoolType::MaterialCondition,
                ));
                assert(mk_not(x).count_type(BoolType::ExclusiveDisjunction) == x.count_type(
                    BoolType::ExclusiveDisjunction,
                ));
                assert(mk_not(y).count_type(BoolType::LogicalEquivalence) == y.count_type(
                    BoolType::LogicalEquivalence,
                ));
                assert(mk_not(y).count_type(BoolType::MaterialCondition) == y.count_type(
                    BoolType::MaterialCondition,
                ));
                assert(mk_not(y).count_type(BoolType::ExclusiveDisjunction) == y.count_type(
                    BoolType::ExclusiveDisjunction,
                ));
                lemma_strip_measures(mk_not(x), BoolType::LogicalEquivalence);
                lemma_strip_measures(mk_not(x), BoolType::MaterialCondition);
                lemma_strip_measures(mk_not(x), BoolType::ExclusiveDisjunction);
                lemma_strip_measures(mk_not(y), BoolType::LogicalEquivalence);
                lemma_strip_measures(mk_not(y), BoolType::MaterialCondition);
                lemma_strip_measures(mk_not(y), BoolType::ExclusiveDisjunction);
                lemma_junction_pass_nnf(a);
                lemma_junction_pass_nnf(b);
                assert(res.is_nnf());
            } else {
                assert(c.boolean_type is Variable);
                assert(u == t);
                assert(pre_order_spec(c, r) == c);
                assert(res.is_nnf());
            }
        },
        BoolType::Conjunction | BoolType::Disjunction => {
            assert(u == t);
            lemma_junction_pass_nnf(t.lc());
            lemma_junction_pass_nnf(t.rc());
            assert(res.is_nnf());
        },
        _ => {
            assert(t.count_type(t.boolean_type) >= 1);
        },
    }
}

/// The fixed five-pass sequence that brings a tree into negation normal
/// form: eliminate `=`, then `>`, then `^`, clear stacked negations, and
/// push the remaining negations down to the variables.
pub open spec fn nnf_spec(t: BoolNode) -> BoolNode {
    pre_order_spec(
        pre_order_spec(
            pre_order_spec(
                pre_order_spec(
                    pre_order_spec(t, Rule::ReplaceLogicalEquivalence),
                    Rule::ReplaceMaterialCondition,
                ),
                Rule::ReplaceExclusiveDisjunction,
            ),
            Rule::EliminateDoubleNegation,
        ),
        Rule::ReplaceJunctionNegation,
    )
}

/// The normal-form laws of `to_nnf`: the result is well formed, it is in
/// negation normal form, and it keeps the tree's truth value under every
/// assignment of the variables.
pub proof fn lemma_nnf_props(t: BoolNode)
    requires
        t.wf(),
    ensures
        nnf_spec(t).wf(),
        nnf_spec(t).is_nnf(),
        forall|env: spec_fn(char) -> bool| #[trigger] nnf_spec(t).evals(env) == t.evals(env),
{
    let t1 = pre_order_spec(t, Rule::ReplaceLogicalEquivalence);
    let t2 = pre_order_spec(t1, Rule::ReplaceMaterialCondition);
    let t3 = pre_order_spec(t2, Rule::ReplaceExclusiveDisjunction);
    let t4 = pre_order_spec(t3, Rule::EliminateDoubleNegation);
    let t5 = pre_order_spec(t4, Rule::ReplaceJunctionNegation);
    lemma_pre_order_props(t, Rule::ReplaceLogicalEquivalence);
    lemma_pass_eliminates(t, Rule::ReplaceLogicalEquivalence);
    lemma_pre_order_props(t1, Rule::ReplaceMaterialCondition);
    lemma_pass_eliminates(t1, Rule::ReplaceMaterialCondition);
    lemma_pass_preserves_free(t1, Rule::ReplaceMaterialCondition, BoolType::LogicalEquivalence);
    lemma_pre_order_props(t2, Rule::ReplaceExclusiveDisjunction);
    lemma_pass_eliminates(t2, Rule::ReplaceExclusiveDisjunction);
    lemma_pass_preserves_free(t2, Rule::ReplaceExclusiveDisjunction, BoolType::LogicalEquivalence);
    lemma_pass_preserves_free(t2, Rule::ReplaceExclusiveDisjunction, BoolType::MaterialCondition);
    lemma_pre_order_props(t3, Rule::EliminateDoubleNegation);
    lemma_dneg_pass(t3);
    lemma_pass_preserves_free(t3, Rule::EliminateDoubleNegation, BoolType::LogicalEquivalence);
    lemma_pass_preserves_free(t3, Rule::EliminateDoubleNegation, BoolType::MaterialCondition);
    lemma_pass_preserves_free(t3, Rule::EliminateDoubleNegation, BoolType::ExclusiveDisjunction);
    lemma_pre_order_props(t4, Rule::ReplaceJunctionNegation);
    lemma_junction_pass_nnf(t4);
}

/// On a tree already in negation normal form, every one of the five rewrite
/// passes is the identity.
proof fn lemma_pass_identity_on_nnf(t: BoolNode, r: Rule)
    requires
        t.wf(),
        t.is_nnf(),
    ensures
        pre_order_spec(t, r) == t,
    decreases t.size(),
{
    lemma_rule_children_measure(t, r);
    let u = apply_rule_spec(t, r);
    assert(u == t);
    lemma_wf_children(t);
    lemma_child_measures(t, rule_target(r));
    let res = pre_order_spec(t, r);
    if t.left is Some {
        assert(t.lc().is_nnf());
        lemma_pass_identity_on_nnf(t.lc(), r);
    }
    if t.right is Some {
        assert(t.rc().is_nnf());
        lemma_pass_identity_on_nnf(t.rc(), r);
    }
    assert(res == t);
}

/// Bringing a tree into negation normal form twice gives the same tree as
/// doing it once: the second run changes nothing.
pub proof fn lemma_nnf_idempotent(t: BoolNode)
    requires
        t.wf(),
    ensures
        nnf_spec(nnf_spec(t)) == nnf_spec(t),
{
    lemma_nnf_props(t);
    let n = nnf_spec(t);
    lemma_pass_identity_on_nnf(n, Rule::ReplaceLogicalEquivalence);
    lemma_pass_identity_on_nnf(n, Rule::ReplaceMaterialCondition);
    lemma_pass_identity_on_nnf(n, Rule::ReplaceExclusiveDisjunction);
    lemma_pass_identity_on_nnf(n, Rule::EliminateDoubleNegation);
    lemma_pass_identity_on_nnf(n, Rule::ReplaceJunctionNegation);
}

impl BoolNode {
    /// The conjunctive-normal-form grammar under a conjunction chain: when
    /// `accept_conjunctions` is set the node may be a right-leaning chain of
    /// conjunctions; below one, only disjunctions of leaves remain.
    pub open spec fn cnf_shape(self, accept_conjunctions: bool) -> bool
        decreases self,
    {
        match self.boolean_type {
            BoolType::Conjunction => accept_conjunctions && (match self.left {
                Some(l) => l.cnf_shape(false),
                None => false,
            }) && (match self.right {
                Some(r) => r.cnf_shape(true),
                None => false,
            }),
            BoolType::Disjunction => (match self.left {
                Some(l) => l.cnf_shape(false),
                None => false,
            }) && (match self.right {
                Some(r) => r.cnf_shape(false),
                None => false,
            }),
            BoolType::Variable => true,
            BoolType::Negation => true,
            _ => false,
        }
    }

    /// Conjunctive normal form: negation normal form and a conjunction of
    /// disjunctions of literals.
    pub open spec fn is_cnf(self) -> bool {
        self.is_nnf() && self.cnf_shape(true)
    }
}

/// The fringe of the maximal chain of `k`-nodes at the top of the tree, from
/// left to right; a tree not rooted at `k` is its own single operand.
pub open spec fn flatten_ops(t: BoolNode, k: BoolType) -> Seq<BoolNode>
    decreases t.size() via flatten_ops_dec
{
    if t.boolean_type == k && t.left is Some && t.right is Some {
        flatten_ops(t.lc(), k) + flatten_ops(t.rc(), k)
    } else {
        seq![t]
    }
}

#[via_fn]
proof fn flatten_ops_dec(t: BoolNode, k: BoolType) {
    lemma_child_measures(t, k);
}

/// The right-leaning chain of `k`-nodes over a nonempty operand list.
pub open spec fn build_chain(ops: Seq<BoolNode>, k: BoolType) -> BoolNode
    decreases ops.len(),
{
    if ops.len() <= 1 {
        ops[0]
    } else {
        mk_bin(k, ops[0], build_chain(ops.drop_first(), k))
    }
}

/// All clauses `k(l, rs[j])` for one left operand, in the order of `rs`.
pub open spec fn cross_one(l: BoolNode, rs: Seq<BoolNode>, k: BoolType) -> Seq<BoolNode>
    decreases rs.len(),
{
    if rs.len() == 0 {
        Seq::empty()
    } else {
        seq![mk_bin(k, l, rs[0])] + cross_one(l, rs.drop_first(), k)
    }
}

/// All clauses `k(ls[i], rs[j])`, the left operand varying slowest.
pub open spec fn cross_all(ls: Seq<BoolNode>, rs: Seq<BoolNode>, k: BoolType) -> Seq<BoolNode>
    decreases ls.len(),
{
    if ls.len() == 0 {
        Seq::empty()
    } else {
        cross_one(ls[0], rs, k) + cross_all(ls.drop_first(), rs, k)
    }
}

/// The dual junction kind.
pub open spec fn dual_type(k: BoolType) -> BoolType {
    if k is Conjunction {
        BoolType::Disjunction
    } else {
        BoolType::Conjunction
    }
}

/// The distribution rule at one node. On a `bt`-junction with a chain of the
/// dual kind below one of its sides, the operand fringes of the two sides are
/// crossed into `bt`-clauses and rebuilt as a right-leaning chain of the dual
/// kind; any other node is left alone.
pub open spec fn distribute_spec(t: BoolNode, bt: BoolType) -> BoolNode {
    let inv = dual_type(bt);
    if t.boolean_type == bt && t.left is Some && t.right is Some && (t.lc().boolean_type == inv
        || t.rc().boolean_type == inv) {
        build_chain(cross_all(flatten_ops(t.lc(), inv), flatten_ops(t.rc(), inv), bt), inv)
    } else {
        t
    }
}

/// Every operand of the list is true under the assignment.
pub open spec fn all_true(ops: Seq<BoolNode>, env: spec_fn(char) -> bool) -> bool {
    forall|i: int| 0 <= i < ops.len() ==> (#[trigger] ops[i]).evals(env)
}

/// Some operand of the list is true under the assignment.
pub open spec fn any_true(ops: Seq<BoolNode>, env: spec_fn(char) -> bool) -> bool {
    exists|i: int| 0 <= i < ops.len() && (#[trigger] ops[i]).evals(env)
}

/// The fringe of a junction chain: nonempty, two or more operands under a
/// real chain, each operand well formed, none of the chain's kind, all in
/// negation normal form if the tree was, and together they carry the tree's
/// truth value: a conjunction holds when all do, a disjunction when any does.
proof fn lemma_flatten_props(t: BoolNode, k: BoolType)
    requires
        t.wf(),
        k is Conjunction || k is Disjunction,
    ensures
        flatten_ops(t, k).len() >= 1,
        t.boolean_type == k ==> flatten_ops(t, k).len() >= 2,
        forall|i: int|
            0 <= i < flatten_ops(t, k).len() ==> (#[trigger] flatten_ops(t, k)[i]).wf() && !(
            flatten_ops(t, k)[i].boolean_type == k),
        t.is_nnf() ==> forall|i: int|
            0 <= i < flatten_ops(t, k).len() ==> (#[trigger] flatten_ops(t, k)[i]).is_nnf(),
        k is Conjunction ==> forall|env: spec_fn(char) -> bool|
            #[trigger] all_true(flatten_ops(t, k), env) == t.evals(env),
        k is Disjunction ==> forall|env: spec_fn(char) -> bool|
            #[trigger] any_true(flatten_ops(t, k), env) == t.evals(env),
    decreases t.size(),
{
    lemma_child_measures(t, k);
    if t.boolean_type == k && t.left is Some && t.right is Some {
        lemma_flatten_props(t.lc(), k);
        lemma_flatten_props(t.rc(), k);
        let a = flatten_ops(t.lc(), k);
        let b = flatten_ops(t.rc(), k);
        assert(flatten_ops(t, k) == a + b);
        if k is Conjunction {
            assert forall|env: spec_fn(char) -> bool| #[trigger] all_true(a + b, env) == t.evals(
                env,
            ) by {
                assert(all_true(a + b, env) == (all_true(a, env) && all_true(b, env))) by {
                    if all_true(a + b, env) {
                        assert(forall|i: int| 0 <= i < a.len() ==> (a + b)[i] == a[i]);
                        assert(forall|i: int|
                            0 <= i < b.len() ==> (a + b)[i + a.len()] == b[i]);
                        assert(forall|i: int|
                            0 <= i < b.len() ==> (#[trigger] b[i]).evals(env) == (a + b)[i
                                + a.len()].evals(env));
                    }
                }
            }
        } else {
            assert forall|env: spec_fn(char) -> bool| #[trigger] any_true(a + b, env) == t.evals(
                env,
            ) by {
                assert(any_true(a + b, env) == (any_true(a, env) || any_true(b, env))) by {
                    if any_true(a, env) {
                        let i = choose|i: int| 0 <= i < a.len() && a[i].evals(env);
                        assert((a + b)[i].evals(env));
                    }
                    if any_true(b, env) {
                        let i = choose|i: int| 0 <= i < b.len() && b[i].evals(env);
                        assert((a + b)[i + a.len()].evals(env));
                    }
                    if any_true(a + b, env) {
                        let i = choose|i: int| 0 <= i < (a + b).len() && (a + b)[i].evals(env);
                        if i < a.len() {
                            assert(a[i].evals(env));
                        } else {
                            assert(b[i - a.len()].evals(env));
                        }
                    }
                }
            }
        }
    } else {
        assert(flatten_ops(t, k) == seq![t]);
        if k is Conjunction {
            assert forall|env: spec_fn(char) -> bool| #[trigger] all_true(seq![t], env)
                == t.evals(env) by {
                assert(seq![t][0] == t);
            }
        } else {
            assert forall|env: spec_fn(char) -> bool| #[trigger] any_true(seq![t], env)
                == t.evals(env) by {
                assert(seq![t][0] == t);
            }
        }
    }
}

/// A right-leaning chain of a junction kind over well-formed operands: well
/// formed, rooted at the kind once there are two operands, in negation normal
/// form when the operands are, and true exactly when all (conjunction) or any
/// (disjunction) of its operands are.
proof fn lemma_build_chain_props(ops: Seq<BoolNode>, k: BoolType)
    requires
        ops.len() >= 1,
        k is Conjunction || k is Disjunction,
        forall|i: int| 0 <= i < ops.len() ==> (#[trigger] ops[i]).wf(),
    ensures
        build_chain(ops, k).wf(),
        ops.len() >= 2 ==> build_chain(ops, k).boolean_type == k,
        ops.len() == 1 ==> build_chain(ops, k) == ops[0],
        (forall|i: int| 0 <= i < ops.len() ==> (#[trigger] ops[i]).is_nnf()) ==> build_chain(
            ops,
            k,
        ).is_nnf(),
        k is Conjunction ==> forall|env: spec_fn(char) -> bool|
            #[trigger] build_chain(ops, k).evals(env) == all_true(ops, env),
        k is Disjunction ==> forall|env: spec_fn(char) -> bool|
            #[trigger] build_chain(ops, k).evals(env) == any_true(ops, env),
    decreases ops.len(),
{
    if ops.len() <= 1 {
        assert(build_chain(ops, k) == ops[0]);
        if k is Conjunction {
            assert forall|env: spec_fn(char) -> bool| #[trigger] build_chain(ops, k).evals(env)
                == all_true(ops, env) by {
                assert(all_true(ops, env) ==> ops[0].evals(env));
            }
        } else {
            assert forall|env: spec_fn(char) -> bool| #[trigger] build_chain(ops, k).evals(env)
                == any_true(ops, env) by {
                if ops[0].evals(env) {
                    assert(any_true(ops, env));
                }
                if any_true(ops, env) {
                    let i = choose|i: int| 0 <= i < ops.len() && ops[i].evals(env);
                    assert(i == 0);
                }
            }
        }
    } else {
        let rest = ops.drop_first();
        lemma_build_chain_props(rest, k);
        let c = build_chain(ops, k);
        assert(c == mk_bin(k, ops[0], build_chain(rest, k)));
        assert(c.wf());
        if k is Conjunction {
            assert forall|env: spec_fn(char) -> bool| #[trigger] c.evals(env) == all_true(
                ops,
                env,
            ) by {
                assert(c.evals(env) == (ops[0].evals(env) && build_chain(rest, k).evals(env)));
                if all_true(ops, env) {
                    assert forall|i: int| 0 <= i < rest.len() implies (#[trigger] rest[i]).evals(
                        env,
                    ) by {
                        assert(rest[i] == ops[i + 1]);
                    }
                    assert(ops[0].evals(env));
                }
                if ops[0].evals(env) && all_true(rest, env) {
                    assert forall|i: int| 0 <= i < ops.len() implies (#[trigger] ops[i]).evals(
                        env,
                    ) by {
                        if i >= 1 {
                            assert(rest[i - 1] == ops[i]);
                        }
                    }
                }
            }
        } else {
            assert forall|env: spec_fn(char) -> bool| #[trigger] c.evals(env) == any_true(
                ops,
                env,
            ) by {
                assert(c.evals(env) == (ops[0].evals(env) || build_chain(rest, k).evals(env)));
                if c.evals(env) {
                    if ops[0].evals(env) {
                        assert(any_true(ops, env));
                    } else {
                        let i = choose|i: int| 0 <= i < rest.len() && rest[i].evals(env);
                        assert(ops[i + 1] == rest[i]);
                        assert(any_true(ops, env));
                    }
                }
                if any_true(ops, env) {
                    let i = choose|i: int| 0 <= i < ops.len() && ops[i].evals(env);
                    if i >= 1 {
                        assert(rest[i - 1] == ops[i]);
                        assert(any_true(rest, env));
                    }
                }
            }
        }
        if forall|i: int| 0 <= i < ops.len() ==> (#[trigger] ops[i]).is_nnf() {
            assert(forall|i: int| 0 <= i < rest.len() ==> (#[trigger] rest[i]).is_nnf()) by {
                assert(forall|i: int| 0 <= i < rest.len() ==> rest[i] == ops[i + 1]);
            }
            assert(c.is_nnf());
        }
    }
}

/// Concatenation splits a universal truth claim about a list of operands.
proof fn lemma_all_true_concat(a: Seq<BoolNode>, b: Seq<BoolNode>, env: spec_fn(char) -> bool)
    ensures
        all_true(a + b, env) == (all_true(a, env) && all_true(b, env)),
{
    if all_true(a, env) && all_true(b, env) {
        assert forall|i: int| 0 <= i < (a + b).len() implies (#[trigger] (a + b)[i]).evals(
            env,
        ) by {
            if i < a.len() {
                assert((a + b)[i] == a[i]);
            } else {
                assert((a + b)[i] == b[i - a.len()]);
            }
        }
    }
    if all_true(a + b, env) {
        assert forall|i: int| 0 <= i < a.len() implies (#[trigger] a[i]).evals(env) by {
            assert((a + b)[i] == a[i]);
        }
        assert forall|i: int| 0 <= i < b.len() implies (#[trigger] b[i]).evals(env) by {
            assert((a + b)[i + a.len()] == b[i]);
        }
    }
}

/// Concatenation splits an existential truth claim about a list of operands.
proof fn lemma_any_true_concat(a: Seq<BoolNode>, b: Seq<BoolNode>, env: spec_fn(char) -> bool)
    ensures
        any_true(a + b, env) == (any_true(a, env) || any_true(b, env)),
{
    if any_true(a, env) {
        let i = choose|i: int| 0 <= i < a.len() && a[i].evals(env);
        assert((a + b)[i].evals(env));
    }
    if any_true(b, env) {
        let i = choose|i: int| 0 <= i < b.len() && b[i].evals(env);
        assert((a + b)[i + a.len()].evals(env));
    }
    if any_true(a + b, env) {
        let i = choose|i: int| 0 <= i < (a + b).len() && (a + b)[i].evals(env);
        if i < a.len() {
            assert(a[i].evals(env));
        } else {
            assert(b[i - a.len()].evals(env));
        }
    }
}

/// A one-operand list is true exactly when its operand is.
proof fn lemma_true_single(t: BoolNode, env: spec_fn(char) -> bool)
    ensures
        all_true(seq![t], env) == t.evals(env),
        any_true(seq![t], env) == t.evals(env),
{
    assert(seq![t][0] == t);
    if t.evals(env) {
        assert forall|i: int| 0 <= i < 1 implies (#[trigger] seq![t][i]).evals(env) by {
            assert(seq![t][i] == t);
        }
    }
    if any_true(seq![t], env) {
        let i = choose|i: int| 0 <= i < 1 && seq![t][i].evals(env);
        assert(seq![t][i] == t);
    }
}

/// Peeling the first operand off a truth claim about a list.
proof fn lemma_true_unfold(ops: Seq<BoolNode>, env: spec_fn(char) -> bool)
    requires
        ops.len() >= 1,
    ensures
        all_true(ops, env) == (ops[0].evals(env) && all_true(ops.drop_first(), env)),
        any_true(ops, env) == (ops[0].evals(env) || any_true(ops.drop_first(), env)),
{
    assert(ops =~= seq![ops[0]] + ops.drop_first());
    lemma_all_true_concat(seq![ops[0]], ops.drop_first(), env);
    lemma_any_true_concat(seq![ops[0]], ops.drop_first(), env);
    lemma_true_single(ops[0], env);
}

/// The clauses of one left operand against a list: as many as the list, each
/// well formed (in normal form, a clause) when its parts are, and together
/// worth the operand joined with the whole list.
proof fn lemma_cross_one_props(l: BoolNode, rs: Seq<BoolNode>, bt: BoolType)
    requires
        bt is Conjunction || bt is Disjunction,
        l.wf(),
        forall|j: int| 0 <= j < rs.len() ==> (#[trigger] rs[j]).wf(),
    ensures
        cross_one(l, rs, bt).len() == rs.len(),
        forall|n: int| 0 <= n < rs.len() ==> (#[trigger] cross_one(l, rs, bt)[n]).wf(),
        (l.is_nnf() && (forall|j: int| 0 <= j < rs.len() ==> (#[trigger] rs[j]).is_nnf()))
            ==> (forall|n: int|
            0 <= n < rs.len() ==> (#[trigger] cross_one(l, rs, bt)[n]).is_nnf()),
        (bt is Disjunction && l.cnf_shape(false) && (forall|j: int|
            0 <= j < rs.len() ==> (#[trigger] rs[j]).cnf_shape(false))) ==> (forall|n: int|
            0 <= n < rs.len() ==> (#[trigger] cross_one(l, rs, bt)[n]).cnf_shape(false)),
        bt is Disjunction ==> forall|env: spec_fn(char) -> bool|
            #[trigger] all_true(cross_one(l, rs, bt), env) == (l.evals(env) || all_true(rs, env)),
        bt is Conjunction ==> forall|env: spec_fn(char) -> bool|
            #[trigger] any_true(cross_one(l, rs, bt), env) == (l.evals(env) && any_true(rs, env)),
    decreases rs.len(),
{
    if rs.len() == 0 {
        if bt is Disjunction {
            assert forall|env: spec_fn(char) -> bool| #[trigger] all_true(cross_one(l, rs, bt), env)
                == (l.evals(env) || all_true(rs, env)) by {
                assert(all_true(rs, env));
                assert(all_true(cross_one(l, rs, bt), env));
            }
        } else {
            assert forall|env: spec_fn(char) -> bool| #[trigger] any_true(cross_one(l, rs, bt), env)
                == (l.evals(env) && any_true(rs, env)) by {
                assert(!any_true(rs, env));
                assert(!any_true(cross_one(l, rs, bt), env));
            }
        }
    } else {
        let rest = rs.drop_first();
        assert(forall|j: int| 0 <= j < rest.len() ==> rest[j] == rs[j + 1]);
        lemma_cross_one_props(l, rest, bt);
        let head = seq![mk_bin(bt, l, rs[0])];
        let tail = cross_one(l, rest, bt);
        assert(cross_one(l, rs, bt) == head + tail);
        assert(mk_bin(bt, l, rs[0]).wf());
        assert forall|n: int| 0 <= n < rs.len() implies (
        #[trigger] cross_one(l, rs, bt)[n]).wf() by {
            if n == 0 {
                assert(cross_one(l, rs, bt)[0] == head[0]);
            } else {
                assert(cross_one(l, rs, bt)[n] == tail[n - 1]);
            }
        }
        if l.is_nnf() && (forall|j: int| 0 <= j < rs.len() ==> (#[trigger] rs[j]).is_nnf()) {
            assert(rs[0].is_nnf());
            assert(mk_bin(bt, l, rs[0]).is_nnf());
            assert forall|n: int| 0 <= n < rs.len() implies (#[trigger] cross_one(
                l,
                rs,
                bt,
            )[n]).is_nnf() by {
                if n == 0 {
                    assert(cross_one(l, rs, bt)[0] == head[0]);
                } else {
                    assert(cross_one(l, rs, bt)[n] == tail[n - 1]);
                }
            }
        }
        if bt is Disjunction && l.cnf_shape(false) && (forall|j: int|
            0 <= j < rs.len() ==> (#[trigger] rs[j]).cnf_shape(false)) {
            assert(rs[0].cnf_shape(false));
            assert(mk_bin(bt, l, rs[0]).cnf_shape(false));
            assert forall|n: int| 0 <= n < rs.len() implies (#[trigger] cross_one(
                l,
                rs,
                bt,
            )[n]).cnf_shape(false) by {
                if n == 0 {
                    assert(cross_one(l, rs, bt)[0] == head[0]);
                } else {
                    assert(cross_one(l, rs, bt)[n] == tail[n - 1]);
                }
            }
        }
        if bt is Disjunction {
            assert forall|env: spec_fn(char) -> bool| #[trigger] all_true(cross_one(l, rs, bt), env)
                == (l.evals(env) || all_true(rs, env)) by {
                lemma_all_true_concat(head, tail, env);
                lemma_true_single(mk_bin(bt, l, rs[0]), env);
                lemma_true_unfold(rs, env);
                assert(mk_bin(bt, l, rs[0]).evals(env) == (l.evals(env) || rs[0].evals(env)));
                assert(all_true(tail, env) == (l.evals(env) || all_true(rest, env)));
            }
        } else {
            assert forall|env: spec_fn(char) -> bool| #[trigger] any_true(cross_one(l, rs, bt), env)
                == (l.evals(env) && any_true(rs, env)) by {
                lemma_any_true_concat(head, tail, env);
                lemma_true_single(mk_bin(bt, l, rs[0]), env);
                lemma_true_unfold(rs, env);
                assert(mk_bin(bt, l, rs[0]).evals(env) == (l.evals(env) && rs[0].evals(env)));
                assert(any_true(tail, env) == (l.evals(env) && any_true(rest, env)));
            }
        }
    }
}

/// The full clause cross of two operand lists: the product count of clauses,
/// each well formed (in normal form, a clause) when the operands are, and the
/// chain over it worth the junction of the two sides.
proof fn lemma_cross_all_props(ls: Seq<BoolNode>, rs: Seq<BoolNode>, bt: BoolType)
    requires
        bt is Conjunction || bt is Disjunction,
        rs.len() >= 1,
        forall|i: int| 0 <= i < ls.len() ==> (#[trigger] ls[i]).wf(),
        forall|j: int| 0 <= j < rs.len() ==> (#[trigger] rs[j]).wf(),
    ensures
        cross_all(ls, rs, bt).len() == ls.len() * rs.len(),
        forall|n: int|
            0 <= n < cross_all(ls, rs, bt).len() ==> (#[trigger] cross_all(ls, rs, bt)[n]).wf(),
        ((forall|i: int| 0 <= i < ls.len() ==> (#[trigger] ls[i]).is_nnf()) && (forall|j: int|
            0 <= j < rs.len() ==> (#[trigger] rs[j]).is_nnf())) ==> (forall|n: int|
            0 <= n < cross_all(ls, rs, bt).len() ==> (#[trigger] cross_all(
                ls,
                rs,
                bt,
            )[n]).is_nnf()),
        (bt is Disjunction && (forall|i: int|
            0 <= i < ls.len() ==> (#[trigger] ls[i]).cnf_shape(false)) && (forall|j: int|
            0 <= j < rs.len() ==> (#[trigger] rs[j]).cnf_shape(false))) ==> (forall|n: int|
            0 <= n < cross_all(ls, rs, bt).len() ==> (#[trigger] cross_all(ls, rs, bt)[n]).cnf_shape(
                false,
            )),
        bt is Disjunction ==> forall|env: spec_fn(char) -> bool|
            #[trigger] all_true(cross_all(ls, rs, bt), env) == (all_true(ls, env) || all_true(
                rs,
                env,
            )),
        bt is Conjunction ==> forall|env: spec_fn(char) -> bool|
            #[trigger] any_true(cross_all(ls, rs, bt), env) == (any_true(ls, env) && any_true(
                rs,
                env,
            )),
    decreases ls.len(),
{
    if ls.len() == 0 {
        assert(cross_all(ls, rs, bt).len() == 0);
        if bt is Disjunction {
            assert forall|env: spec_fn(char) -> bool| #[trigger] all_true(cross_all(ls, rs, bt), env)
                == (all_true(ls, env) || all_true(rs, env)) by {
                assert(all_true(ls, env));
                assert(all_true(cross_all(ls, rs, bt), env));
            }
        } else {
            assert forall|env: spec_fn(char) -> bool| #[trigger] any_true(cross_all(ls, rs, bt), env)
                == (any_true(ls, env) && any_true(rs, env)) by {
                assert(!any_true(ls, env));
                assert(!any_true(cross_all(ls, rs, bt), env));
            }
        }
    } else {
        let rest = ls.drop_first();
        assert(forall|i: int| 0 <= i < rest.len() ==> rest[i] == ls[i + 1]);
        lemma_cross_one_props(ls[0], rs, bt);
        lemma_cross_all_props(rest, rs, bt);
        let head = cross_one(ls[0], rs, bt);
        let tail = cross_all(rest, rs, bt);
        assert(cross_all(ls, rs, bt) == head + tail);
        assert(cross_all(ls, rs, bt).len() == rs.len() + (ls.len() - 1) * rs.len());
        assert(rs.len() + (ls.len() - 1) * rs.len() == ls.len() * rs.len()) by (nonlinear_arith);
        assert forall|n: int| 0 <= n < cross_all(ls, rs, bt).len() implies (#[trigger] cross_all(
            ls,
            rs,
            bt,
        )[n]).wf() by {
            if n < head.len() {
                assert(cross_all(ls, rs, bt)[n] == head[n]);
            } else {
                assert(cross_all(ls, rs, bt)[n] == tail[n - head.len()]);
            }
        }
        if (forall|i: int| 0 <= i < ls.len() ==> (#[trigger] ls[i]).is_nnf()) && (forall|j: int|
            0 <= j < rs.len() ==> (#[trigger] rs[j]).is_nnf()) {
            assert forall|n: int| 0 <= n < cross_all(ls, rs, bt).len() implies (
            #[trigger] cross_all(ls, rs, bt)[n]).is_nnf() by {
                assert(ls[0].is_nnf());
                if n < head.len() {
                    assert(cross_all(ls, rs, bt)[n] == head[n]);
                } else {
                    assert(cross_all(ls, rs, bt)[n] == tail[n - head.len()]);
                }
            }
        }
        if bt is Disjunction && (forall|i: int|
            0 <= i < ls.len() ==> (#[trigger] ls[i]).cnf_shape(false)) && (forall|j: int|
            0 <= j < rs.len() ==> (#[trigger] rs[j]).cnf_shape(false)) {
            assert forall|n: int| 0 <= n < cross_all(ls, rs, bt).len() implies (
            #[trigger] cross_all(ls, rs, bt)[n]).cnf_shape(false) by {
                assert(ls[0].cnf_shape(false));
                if n < head.len() {
                    assert(cross_all(ls, rs, bt)[n] == head[n]);
                } else {
                    assert(cross_all(ls, rs, bt)[n] == tail[n - head.len()]);
                }
            }
        }
        if bt is Disjunction {
            assert forall|env: spec_fn(char) -> bool| #[trigger] all_true(cross_all(ls, rs, bt), env)
                == (all_true(ls, env) || all_true(rs, env)) by {
                lemma_all_true_concat(head, tail, env);
                lemma_true_unfold(ls, env);
                assert(all_true(head, env) == (ls[0].evals(env) || all_true(rs, env)));
                assert(all_true(tail, env) == (all_true(rest, env) || all_true(rs, env)));
            }
        } else {
            assert forall|env: spec_fn(char) -> bool| #[trigger] any_true(cross_all(ls, rs, bt), env)
                == (any_true(ls, env) && any_true(rs, env)) by {
                lemma_any_true_concat(head, tail, env);
                lemma_true_unfold(ls, env);
                assert(any_true(head, env) == (ls[0].evals(env) && any_true(rs, env)));
                assert(any_true(tail, env) == (any_true(rest, env) && any_true(rs, env)));
            }
        }
    }
}

/// Any clause is also an acceptable conjunction body: the flag only restricts
/// conjunction nodes.
proof fn lemma_shape_weaken(t: BoolNode)
    ensures
        t.cnf_shape(false) ==> t.cnf_shape(true),
{
}

/// Under a tree in conjunctive shape, the operands of the conjunction chain
/// are clauses.
proof fn lemma_flatten_shape_conj(t: BoolNode)
    requires
        t.wf(),
        t.cnf_shape(true),
    ensures
        forall|i: int|
            0 <= i < flatten_ops(t, BoolType::Conjunction).len() ==> (#[trigger] flatten_ops(
                t,
                BoolType::Conjunction,
            )[i]).cnf_shape(false),
    decreases t.size(),
{
    let k = BoolType::Conjunction;
    lemma_child_measures(t, k);
    if t.boolean_type == k && t.left is Some && t.right is Some {
        lemma_wf_children(t);
        assert(t.lc().cnf_shape(false) && t.rc().cnf_shape(true));
        lemma_shape_weaken(t.lc());
        lemma_flatten_shape_conj(t.lc());
        lemma_flatten_shape_conj(t.rc());
        let a = flatten_ops(t.lc(), k);
        let b = flatten_ops(t.rc(), k);
        assert(flatten_ops(t, k) == a + b);
        assert forall|i: int| 0 <= i < flatten_ops(t, k).len() implies (#[trigger] flatten_ops(
            t,
            k,
        )[i]).cnf_shape(false) by {
            if i < a.len() {
                assert(flatten_ops(t, k)[i] == a[i]);
                if t.lc().boolean_type == k {
                } else {
                    assert(a == seq![t.lc()]);
                    assert(a[i] == t.lc());
                }
            } else {
                assert(flatten_ops(t, k)[i] == b[i - a.len()]);
            }
        }
    } else {
        assert(flatten_ops(t, k) == seq![t]);
        assert(t.cnf_shape(false)) by {
            assert(!(t.boolean_type is Conjunction));
        }
        assert(forall|i: int|
            0 <= i < flatten_ops(t, k).len() ==> flatten_ops(t, k)[i] == t);
    }
}

/// Under a clause, the operands of the disjunction chain are clauses.
proof fn lemma_flatten_shape_disj(t: BoolNode)
    requires
        t.wf(),
        t.cnf_shape(false),
    ensures
        forall|i: int|
            0 <= i < flatten_ops(t, BoolType::Disjunction).len() ==> (#[trigger] flatten_ops(
                t,
                BoolType::Disjunction,
            )[i]).cnf_shape(false),
    decreases t.size(),
{
    let k = BoolType::Disjunction;
    lemma_child_measures(t, k);
    if t.boolean_type == k && t.left is Some && t.right is Some {
        lemma_wf_children(t);
        assert(t.lc().cnf_shape(false) && t.rc().cnf_shape(false));
        lemma_flatten_shape_disj(t.lc());
        lemma_flatten_shape_disj(t.rc());
        let a = flatten_ops(t.lc(), k);
        let b = flatten_ops(t.rc(), k);
        assert(flatten_ops(t, k) == a + b);
        assert forall|i: int| 0 <= i < flatten_ops(t, k).len() implies (#[trigger] flatten_ops(
            t,
            k,
        )[i]).cnf_shape(false) by {
            if i < a.len() {
                assert(flatten_ops(t, k)[i] == a[i]);
            } else {
                assert(flatten_ops(t, k)[i] == b[i - a.len()]);
            }
        }
    } else {
        assert(flatten_ops(t, k) == seq![t]);
        assert(forall|i: int|
            0 <= i < flatten_ops(t, k).len() ==> flatten_ops(t, k)[i] == t);
    }
}

/// A right-leaning chain over clauses is in conjunctive shape: a conjunction
/// chain is a conjunction of clauses, a disjunction chain is itself a clause.
proof fn lemma_build_chain_shape(ops: Seq<BoolNode>, k: BoolType)
    requires
        ops.len() >= 1,
        k is Conjunction || k is Disjunction,
        forall|i: int| 0 <= i < ops.len() ==> (#[trigger] ops[i]).cnf_shape(false),
    ensures
        k is Conjunction ==> build_chain(ops, k).cnf_shape(true),
        k is Disjunction ==> build_chain(ops, k).cnf_shape(false),
    decreases ops.len(),
{
    if ops.len() <= 1 {
        lemma_shape_weaken(ops[0]);
    } else {
        let rest = ops.drop_first();
        assert(forall|i: int| 0 <= i < rest.len() ==> rest[i] == ops[i + 1]);
        lemma_build_chain_shape(rest, k);
    }
}

/// The distribution rule keeps the tree well formed, keeps negation normal
/// form, and keeps the tree's truth value under every assignment.
proof fn lemma_distribute_props(t: BoolNode, bt: BoolType)
    requires
        t.wf(),
        bt is Conjunction || bt is Disjunction,
    ensures
        distribute_spec(t, bt).wf(),
        t.is_nnf() ==> distribute_spec(t, bt).is_nnf(),
        forall|env: spec_fn(char) -> bool| #[trigger] distribute_spec(t, bt).evals(env) == t.evals(
            env,
        ),
    decreases t.size(),
{
    let inv = dual_type(bt);
    if t.boolean_type == bt && t.left is Some && t.right is Some && (t.lc().boolean_type == inv
        || t.rc().boolean_type == inv) {
        lemma_wf_children(t);
        lemma_flatten_props(t.lc(), inv);
        lemma_flatten_props(t.rc(), inv);
        let ls = flatten_ops(t.lc(), inv);
        let rs = flatten_ops(t.rc(), inv);
        lemma_cross_all_props(ls, rs, bt);
        let cross = cross_all(ls, rs, bt);
        assert(cross.len() >= 1) by {
            assert(ls.len() >= 1 && rs.len() >= 1);
            assert(ls.len() * rs.len() >= 1) by (nonlinear_arith)
                requires
                    ls.len() >= 1,
                    rs.len() >= 1,
            ;
        }
        lemma_build_chain_props(cross, inv);
        let res = build_chain(cross, inv);
        if t.is_nnf() {
            lemma_wf_children(t);
            assert(t.lc().is_nnf() && t.rc().is_nnf());
            assert(res.is_nnf());
        }
        assert forall|env: spec_fn(char) -> bool| #[trigger] distribute_spec(t, bt).evals(env)
            == t.evals(env) by {
            if bt is Disjunction {
                assert(all_true(cross, env) == (all_true(ls, env) || all_true(rs, env)));
                assert(all_true(ls, env) == t.lc().evals(env));
                assert(all_true(rs, env) == t.rc().evals(env));
                assert(res.evals(env) == all_true(cross, env));
                assert(t.evals(env) == (t.lc().evals(env) || t.rc().evals(env)));
            } else {
                assert(any_true(cross, env) == (any_true(ls, env) && any_true(rs, env)));
                assert(any_true(ls, env) == t.lc().evals(env));
                assert(any_true(rs, env) == t.rc().evals(env));
                assert(res.evals(env) == any_true(cross, env));
                assert(t.evals(env) == (t.lc().evals(env) && t.rc().evals(env)));
            }
        }
    }
}

/// The recursive pass that rewrites a tree in negation normal form into
/// conjunctive normal form: children first; at a disjunction distribute over
/// any conjunction below; then flatten the chain of the node's own kind and
/// rebuild it leaning right. Leaves and negations are final.
pub open spec fn cnf_node_spec(t: BoolNode) -> BoolNode
    decreases t.size() via cnf_node_spec_dec
{
    match t.boolean_type {
        BoolType::Conjunction | BoolType::Disjunction => {
            if t.left is Some && t.right is Some {
                let t1 = BoolNode {
                    boolean_type: t.boolean_type,
                    op_symbol: t.op_symbol,
                    left: Some(Box::new(cnf_node_spec(t.lc()))),
                    right: Some(Box::new(cnf_node_spec(t.rc()))),
                };
                if t.boolean_type is Disjunction {
                    let t2 = distribute_spec(t1, BoolType::Disjunction);
                    if t2.boolean_type is Disjunction {
                        build_chain(
                            flatten_ops(t2, BoolType::Disjunction),
                            BoolType::Disjunction,
                        )
                    } else {
                        t2
                    }
                } else {
                    build_chain(flatten_ops(t1, BoolType::Conjunction), BoolType::Conjunction)
                }
            } else {
                t
            }
        },
        _ => t,
    }
}

#[via_fn]
proof fn cnf_node_spec_dec(t: BoolNode) {
    lemma_child_measures(t, BoolType::Variable);
}

/// The conjunctive-normal-form laws of the pass: on a well-formed tree in
/// negation normal form the result is well formed, in conjunctive normal
/// form, and keeps the tree's truth value under every assignment.
pub proof fn lemma_cnf_node_props(t: BoolNode)
    requires
        t.wf(),
        t.is_nnf(),
    ensures
        cnf_node_spec(t).wf(),
        cnf_node_spec(t).is_cnf(),
        !(cnf_node_spec(t).boolean_type is Conjunction) ==> cnf_node_spec(t).cnf_shape(false),
        forall|env: spec_fn(char) -> bool| #[trigger] cnf_node_spec(t).evals(env) == t.evals(env),
    decreases t.size(),
{
    let res = cnf_node_spec(t);
    match t.boolean_type {
        BoolType::Variable | BoolType::Negation => {
            assert(res == t);
            assert(t.cnf_shape(false));
        },
        BoolType::Conjunction | BoolType::Disjunction => {
            lemma_wf_children(t);
            lemma_child_measures(t, BoolType::Variable);
            lemma_cnf_node_props(t.lc());
            lemma_cnf_node_props(t.rc());
            let l2 = cnf_node_spec(t.lc());
            let r2 = cnf_node_spec(t.rc());
            let t1 = BoolNode {
                boolean_type: t.boolean_type,
                op_symbol: t.op_symbol,
                left: Some(Box::new(l2)),
                right: Some(Box::new(r2)),
            };
            assert(t1.wf());
            assert(t1.is_nnf());
            assert forall|env: spec_fn(char) -> bool| #[trigger] t1.evals(env) == t.evals(
                env,
            ) by {
                assert(t1.lc() == l2 && t1.rc() == r2);
                assert(l2.evals(env) == t.lc().evals(env));
                assert(r2.evals(env) == t.rc().evals(env));
                if t.boolean_type is Conjunction {
                    assert(t1.evals(env) == (l2.evals(env) && r2.evals(env)));
                    assert(t.evals(env) == (t.lc().evals(env) && t.rc().evals(env)));
                } else {
                    assert(t1.evals(env) == (l2.evals(env) || r2.evals(env)));
                    assert(t.evals(env) == (t.lc().evals(env) || t.rc().evals(env)));
                }
            }
            if t.boolean_type is Conjunction {
                lemma_flatten_props(t1, BoolType::Conjunction);
                lemma_flatten_shape_conj(l2);
                lemma_flatten_shape_conj(r2);
                let ops = flatten_ops(t1, BoolType::Conjunction);
                let a = flatten_ops(l2, BoolType::Conjunction);
                let b = flatten_ops(r2, BoolType::Conjunction);
                assert(t1.lc() == l2 && t1.rc() == r2);
                assert(ops == a + b);
                assert forall|i: int| 0 <= i < ops.len() implies (#[trigger] ops[i]).cnf_shape(
                    false,
                ) by {
                    if i < a.len() {
                        assert(ops[i] == a[i]);
                    } else {
                        assert(ops[i] == b[i - a.len()]);
                    }
                }
                lemma_build_chain_props(ops, BoolType::Conjunction);
                lemma_build_chain_shape(ops, BoolType::Conjunction);
                assert(res == build_chain(ops, BoolType::Conjunction));
                assert forall|env: spec_fn(char) -> bool| #[trigger] res.evals(env) == t.evals(
                    env,
                ) by {
                    assert(res.evals(env) == all_true(ops, env));
                    assert(all_true(ops, env) == t1.evals(env));
                }
            } else {
                lemma_distribute_props(t1, BoolType::Disjunction);
                let t2 = distribute_spec(t1, BoolType::Disjunction);
                if t1.lc().boolean_type is Conjunction || t1.rc().boolean_type is Conjunction {
                    // Distribution fired: the node is now a conjunction of
                    // crossed clauses and the pass stops here.
                    lemma_flatten_props(t1.lc(), BoolType::Conjunction);
                    lemma_flatten_props(t1.rc(), BoolType::Conjunction);
                    let ls = flatten_ops(t1.lc(), BoolType::Conjunction);
                    let rs = flatten_ops(t1.rc(), BoolType::Conjunction);
                    lemma_shape_weaken(l2);
                    lemma_shape_weaken(r2);
                    lemma_flatten_shape_conj(l2);
                    lemma_flatten_shape_conj(r2);
                    lemma_cross_all_props(ls, rs, BoolType::Disjunction);
                    let cross = cross_all(ls, rs, BoolType::Disjunction);
                    assert(cross.len() >= 2) by {
                        if t1.lc().boolean_type is Conjunction {
                            assert(ls.len() >= 2 && rs.len() >= 1);
                            assert(ls.len() * rs.len() >= 2) by (nonlinear_arith)
                                requires
                                    ls.len() >= 2,
                                    rs.len() >= 1,
                            ;
                        } else {
                            assert(ls.len() >= 1 && rs.len() >= 2);
                            assert(ls.len() * rs.len() >= 2) by (nonlinear_arith)
                                requires
                                    ls.len() >= 1,
                                    rs.len() >= 2,
                            ;
                        }
                    }
                    lemma_build_chain_props(cross, BoolType::Conjunction);
                    lemma_build_chain_shape(cross, BoolType::Conjunction);
                    assert(t2 == build_chain(cross, BoolType::Conjunction));
                    assert(t2.boolean_type is Conjunction);
                    assert(res == t2);
                } else {
                    // No conjunction below: the node keeps its kind and only
                    // its disjunction chain is flattened and rebuilt.
                    assert(t2 == t1);
                    assert(!(l2.boolean_type is Conjunction) && !(
                    r2.boolean_type is Conjunction));
                    assert(l2.cnf_shape(false) && r2.cnf_shape(false));
                    assert(t1.cnf_shape(false));
                    lemma_flatten_props(t1, BoolType::Disjunction);
                    lemma_flatten_shape_disj(t1);
                    let ops = flatten_ops(t1, BoolType::Disjunction);
                    lemma_build_chain_props(ops, BoolType::Disjunction);
                    lemma_build_chain_shape(ops, BoolType::Disjunction);
                    assert(res == build_chain(ops, BoolType::Disjunction));
                    lemma_shape_weaken(res);
                    assert forall|env: spec_fn(char) -> bool| #[trigger] res.evals(env)
                        == t.evals(env) by {
                        assert(res.evals(env) == any_true(ops, env));
                        assert(any_true(ops, env) == t1.evals(env));
                    }
                }
            }
        },
        _ => {
            assert(false);
        },
    }
}

/// The variable letters of a whole operand list.
pub open spec fn ops_vars(ops: Seq<BoolNode>) -> Set<char>
    decreases ops.len(),
{
    if ops.len() == 0 {
        Set::empty()
    } else {
        ops[0].var_set().union(ops_vars(ops.drop_first()))
    }
}

/// Concatenation unites the variable letters of two operand lists.
proof fn lemma_ops_vars_concat(a: Seq<BoolNode>, b: Seq<BoolNode>)
    ensures
        ops_vars(a + b) == ops_vars(a).union(ops_vars(b)),
    decreases a.len(),
{
    if a.len() == 0 {
        assert(a + b =~= b);
        assert(ops_vars(a).union(ops_vars(b)) =~= ops_vars(b));
    } else {
        assert((a + b)[0] == a[0]);
        assert((a + b).drop_first() =~= a.drop_first() + b);
        lemma_ops_vars_concat(a.drop_first(), b);
        assert(a[0].var_set().union(ops_vars(a.drop_first()).union(ops_vars(b))) =~= (
        a[0].var_set().union(ops_vars(a.drop_first()))).union(ops_vars(b)));
    }
}

/// A chain carries exactly the variable letters of its operands.
proof fn lemma_build_chain_vars(ops: Seq<BoolNode>, k: BoolType)
    requires
        ops.len() >= 1,
        k is Conjunction || k is Disjunction,
    ensures
        build_chain(ops, k).var_set() == ops_vars(ops),
    decreases ops.len(),
{
    if ops.len() == 1 {
        assert(ops.drop_first().len() == 0);
        assert(ops_vars(ops.drop_first()) == Set::<char>::empty());
        assert(ops_vars(ops) =~= ops[0].var_set());
    } else {
        lemma_build_chain_vars(ops.drop_first(), k);
        assert(build_chain(ops, k).var_set() =~= ops_vars(ops));
    }
}

/// The fringe of a junction chain carries exactly the tree's variable
/// letters.
proof fn lemma_flatten_vars(t: BoolNode, k: BoolType)
    requires
        k is Conjunction || k is Disjunction,
    ensures
        ops_vars(flatten_ops(t, k)) == t.var_set(),
    decreases t.size(),
{
    lemma_child_measures(t, k);
    if t.boolean_type == k && t.left is Some && t.right is Some {
        lemma_flatten_vars(t.lc(), k);
        lemma_flatten_vars(t.rc(), k);
        lemma_ops_vars_concat(flatten_ops(t.lc(), k), flatten_ops(t.rc(), k));
        assert(t.var_set() =~= t.lc().var_set().union(t.rc().var_set()));
    } else {
        assert(flatten_ops(t, k) == seq![t]);
        assert(seq![t].drop_first().len() == 0);
        assert(ops_vars(seq![t].drop_first()) == Set::<char>::empty());
        assert(ops_vars(seq![t]) =~= t.var_set());
    }
}

/// Crossing two nonempty operand lists keeps the variable letters of both.
proof fn lemma_cross_vars(ls: Seq<BoolNode>, rs: Seq<BoolNode>, bt: BoolType)
    requires
        bt is Conjunction || bt is Disjunction,
        ls.len() >= 1,
        rs.len() >= 1,
    ensures
        ops_vars(cross_all(ls, rs, bt)) == ops_vars(ls).union(ops_vars(rs)),
    decreases ls.len(),
{
    assert forall|l: BoolNode| rs.len() >= 1 implies ops_vars(#[trigger] cross_one(l, rs, bt))
        == l.var_set().union(ops_vars(rs)) by {
        lemma_cross_one_vars(l, rs, bt);
    }
    let head = cross_one(ls[0], rs, bt);
    let tail = cross_all(ls.drop_first(), rs, bt);
    if ls.len() == 1 {
        assert(ls.drop_first().len() == 0);
        assert(tail == Seq::<BoolNode>::empty());
        assert(cross_all(ls, rs, bt) == head + tail);
        assert(head + tail =~= head);
        assert(ops_vars(ls.drop_first()) == Set::<char>::empty());
        assert(ops_vars(ls) =~= ls[0].var_set());
    } else {
        lemma_cross_vars(ls.drop_first(), rs, bt);
        assert(cross_all(ls, rs, bt) == head + tail);
        lemma_ops_vars_concat(head, tail);
        assert((ls[0].var_set().union(ops_vars(rs))).union(
            ops_vars(ls.drop_first()).union(ops_vars(rs)),
        ) =~= (ls[0].var_set().union(ops_vars(ls.drop_first()))).union(ops_vars(rs)));
    }
}

/// One left operand crossed against a nonempty list keeps the letters of
/// both.
proof fn lemma_cross_one_vars(l: BoolNode, rs: Seq<BoolNode>, bt: BoolType)
    requires
        bt is Conjunction || bt is Disjunction,
        rs.len() >= 1,
    ensures
        ops_vars(cross_one(l, rs, bt)) == l.var_set().union(ops_vars(rs)),
    decreases rs.len(),
{
    let clause = mk_bin(bt, l, rs[0]);
    assert(clause.var_set() =~= l.var_set().union(rs[0].var_set()));
    let head = seq![clause];
    let tail = cross_one(l, rs.drop_first(), bt);
    assert(cross_one(l, rs, bt) == head + tail);
    lemma_ops_vars_concat(head, tail);
    assert(head.drop_first().len() == 0);
    assert(ops_vars(head.drop_first()) == Set::<char>::empty());
    assert(ops_vars(head) =~= clause.var_set());
    if rs.len() == 1 {
        assert(tail == Seq::<BoolNode>::empty());
        assert(ops_vars(tail) == Set::<char>::empty());
        assert(rs.drop_first().len() == 0);
        assert(ops_vars(rs.drop_first()) == Set::<char>::empty());
        assert(ops_vars(rs) =~= rs[0].var_set());
        assert(clause.var_set().union(ops_vars(tail)) =~= l.var_set().union(ops_vars(rs)));
    } else {
        lemma_cross_one_vars(l, rs.drop_first(), bt);
        assert(clause.var_set().union(l.var_set().union(ops_vars(rs.drop_first()))) =~= l.var_set(
        ).union(rs[0].var_set().union(ops_vars(rs.drop_first()))));
        assert(ops_vars(rs) =~= rs[0].var_set().union(ops_vars(rs.drop_first())));
    }
}

/// Distribution keeps the variable letters.
proof fn lemma_distribute_vars(t: BoolNode, bt: BoolType)
    requires
        bt is Conjunction || bt is Disjunction,
    ensures
        distribute_spec(t, bt).var_set() == t.var_set(),
{
    let inv = dual_type(bt);
    if t.boolean_type == bt && t.left is Some && t.right is Some && (t.lc().boolean_type == inv
        || t.rc().boolean_type == inv) {
        lemma_flatten_vars(t.lc(), inv);
        lemma_flatten_vars(t.rc(), inv);
        let ls = flatten_ops(t.lc(), inv);
        let rs = flatten_ops(t.rc(), inv);
        lemma_flatten_props_len(t.lc(), inv);
        lemma_flatten_props_len(t.rc(), inv);
        lemma_cross_vars(ls, rs, bt);
        assert(cross_all(ls, rs, bt).len() >= 1) by {
            assert(ls.len() >= 1 && rs.len() >= 1);
            assert(cross_one(ls[0], rs, bt).len() >= 1) by {
                lemma_cross_one_len(ls[0], rs, bt);
            }
            assert(cross_all(ls, rs, bt) == cross_one(ls[0], rs, bt) + cross_all(
                ls.drop_first(),
                rs,
                bt,
            ));
        }
        lemma_build_chain_vars(cross_all(ls, rs, bt), inv);
        assert(t.var_set() =~= t.lc().var_set().union(t.rc().var_set()));
    }
}

/// A clause list is as long as its right operand list.
proof fn lemma_cross_one_len(l: BoolNode, rs: Seq<BoolNode>, bt: BoolType)
    ensures
        cross_one(l, rs, bt).len() == rs.len(),
    decreases rs.len(),
{
    if rs.len() > 0 {
        lemma_cross_one_len(l, rs.drop_first(), bt);
    }
}

/// A fringe is never empty.
proof fn lemma_flatten_props_len(t: BoolNode, k: BoolType)
    ensures
        flatten_ops(t, k).len() >= 1,
    decreases t.size(),
{
    lemma_child_measures(t, k);
    if t.boolean_type == k && t.left is Some && t.right is Some {
        lemma_flatten_props_len(t.lc(), k);
        lemma_flatten_props_len(t.rc(), k);
    }
}

/// Stripping double negations keeps the variable letters of a well-formed
/// tree: negations carry no letters of their own.
proof fn lemma_strip_vars(t: BoolNode)
    requires
        t.wf(),
    ensures
        strip_double_negation(t).var_set() == t.var_set(),
    decreases t.size(),
{
    if t.boolean_type is Negation && t.left is Some && t.lc().boolean_type is Negation
        && t.lc().left is Some {
        lemma_child_measures(t, BoolType::Variable);
        lemma_child_measures(t.lc(), BoolType::Variable);
        lemma_wf_children(t);
        lemma_wf_children(t.lc());
        lemma_strip_vars(t.lc().lc());
        assert(t.var_set() =~= t.lc().lc().var_set()) by {
            assert(t.var_set() == opt_vars(t.left).union(opt_vars(t.right)));
            assert(t.lc().var_set() == opt_vars(t.lc().left).union(opt_vars(t.lc().right)));
            assert(t.right is None && t.lc().right is None);
        }
    }
}

/// One rule at one node keeps the variable letters.
proof fn lemma_apply_rule_vars(t: BoolNode, r: Rule)
    requires
        t.wf(),
    ensures
        apply_rule_spec(t, r).var_set() == t.var_set(),
{
    let u = apply_rule_spec(t, r);
    match r {
        Rule::ReplaceLogicalEquivalence => {
            if t.boolean_type is LogicalEquivalence && t.left is Some && t.right is Some {
                assert(mk_bin(BoolType::MaterialCondition, t.lc(), t.rc()).var_set()
                    =~= t.lc().var_set().union(t.rc().var_set()));
                assert(mk_bin(BoolType::MaterialCondition, t.rc(), t.lc()).var_set()
                    =~= t.rc().var_set().union(t.lc().var_set()));
                assert(u.var_set() =~= t.var_set());
            }
        },
        Rule::ReplaceMaterialCondition => {
            if t.boolean_type is MaterialCondition && t.left is Some && t.right is Some {
                assert(mk_not(t.lc()).var_set() =~= t.lc().var_set());
                assert(u.var_set() =~= t.var_set());
            }
        },
        Rule::ReplaceExclusiveDisjunction => {
            if t.boolean_type is ExclusiveDisjunction && t.left is Some && t.right is Some {
                assert(mk_bin(BoolType::Disjunction, t.lc(), t.rc()).var_set()
                    =~= t.lc().var_set().union(t.rc().var_set()));
                assert(mk_bin(BoolType::Conjunction, t.lc(), t.rc()).var_set()
                    =~= t.lc().var_set().union(t.rc().var_set()));
                assert(mk_not(mk_bin(BoolType::Conjunction, t.lc(), t.rc())).var_set()
                    =~= mk_bin(BoolType::Conjunction, t.lc(), t.rc()).var_set());
                assert(u.var_set() =~= t.var_set());
            }
        },
        Rule::EliminateDoubleNegation => {
            lemma_strip_vars(t);
        },
        Rule::ReplaceJunctionNegation => {
            if t.boolean_type is Negation && t.left is Some && (t.lc().boolean_type is Conjunction
                || t.lc().boolean_type is Disjunction) && t.lc().left is Some
                && t.lc().right is Some {
                let x = t.lc().lc();
                let y = t.lc().rc();
                lemma_wf_children(t);
                lemma_wf_children(t.lc());
                assert(x.wf() && y.wf());
                assert(mk_not(x).wf() && mk_not(y).wf());
                lemma_strip_vars(mk_not(x));
                lemma_strip_vars(mk_not(y));
                assert(mk_not(x).var_set() =~= x.var_set());
                assert(mk_not(y).var_set() =~= y.var_set());
                assert(t.var_set() =~= x.var_set().union(y.var_set())) by {
                    assert(t.lc().var_set() == x.var_set().union(y.var_set()));
                    assert(t.var_set() == t.lc().var_set().union(Set::<char>::empty()));
                    assert(t.lc().var_set().union(Set::<char>::empty()) =~= t.lc().var_set());
                }
                assert(u.var_set() =~= t.var_set());
            }
        },
    }
}

/// A whole pre-order pass keeps the variable letters.
proof fn lemma_pre_order_vars(t: BoolNode, r: Rule)
    requires
        t.wf(),
    ensures
        pre_order_spec(t, r).var_set() == t.var_set(),
    decreases rule_weight(t, r), t.size(),
{
    lemma_rule_children_measure(t, r);
    lemma_apply_rule_props(t, r);
    lemma_apply_rule_vars(t, r);
    let u = apply_rule_spec(t, r);
    let res = pre_order_spec(t, r);
    lemma_wf_children(u);
    if u.left is Some {
        lemma_pre_order_vars(u.lc(), r);
    }
    if u.right is Some {
        lemma_pre_order_vars(u.rc(), r);
    }
    assert(res.var_set() =~= u.var_set()) by {
        assert(!(u.boolean_type is Variable) ==> u.var_set() == opt_vars(u.left).union(
            opt_vars(u.right),
        ));
    }
}

/// The conjunctive pass keeps the variable letters.
proof fn lemma_cnf_node_vars(t: BoolNode)
    requires
        t.wf(),
        t.is_nnf(),
    ensures
        cnf_node_spec(t).var_set() == t.var_set(),
    decreases t.size(),
{
    let res = cnf_node_spec(t);
    match t.boolean_type {
        BoolType::Conjunction | BoolType::Disjunction => {
            lemma_wf_children(t);
            lemma_child_measures(t, BoolType::Variable);
            lemma_cnf_node_props(t.lc());
            lemma_cnf_node_props(t.rc());
            lemma_cnf_node_vars(t.lc());
            lemma_cnf_node_vars(t.rc());
            let l2 = cnf_node_spec(t.lc());
            let r2 = cnf_node_spec(t.rc());
            let t1 = BoolNode {
                boolean_type: t.boolean_type,
                op_symbol: t.op_symbol,
                left: Some(Box::new(l2)),
                right: Some(Box::new(r2)),
            };
            assert(t1.var_set() =~= t.var_set());
            if t.boolean_type is Conjunction {
                lemma_flatten_vars(t1, BoolType::Conjunction);
                lemma_flatten_props_len(t1, BoolType::Conjunction);
                lemma_build_chain_vars(
                    flatten_ops(t1, BoolType::Conjunction),
                    BoolType::Conjunction,
                );
            } else {
                lemma_distribute_vars(t1, BoolType::Disjunction);
                let t2 = distribute_spec(t1, BoolType::Disjunction);
                if t2.boolean_type is Disjunction {
                    lemma_flatten_vars(t2, BoolType::Disjunction);
                    lemma_flatten_props_len(t2, BoolType::Disjunction);
                    lemma_build_chain_vars(
                        flatten_ops(t2, BoolType::Disjunction),
                        BoolType::Disjunction,
                    );
                }
            }
        },
        _ => {},
    }
}

/// Rewriting into negation normal form and then running the conjunctive pass:
/// what `to_cnf` does to a tree.
pub open spec fn cnf_spec(t: BoolNode) -> BoolNode {
    cnf_node_spec(nnf_spec(t))
}

/// Every rewrite of the two normal-form drivers keeps the tree's variable
/// letters: the truth tables before and after have the same columns.
pub proof fn lemma_rewrites_preserve_vars(t: BoolNode)
    requires
        t.wf(),
    ensures
        nnf_spec(t).var_set() == t.var_set(),
        cnf_spec(t).var_set() == t.var_set(),
{
    let t1 = pre_order_spec(t, Rule::ReplaceLogicalEquivalence);
    let t2 = pre_order_spec(t1, Rule::ReplaceMaterialCondition);
    let t3 = pre_order_spec(t2, Rule::ReplaceExclusiveDisjunction);
    let t4 = pre_order_spec(t3, Rule::EliminateDoubleNegation);
    lemma_pre_order_props(t, Rule::ReplaceLogicalEquivalence);
    lemma_pre_order_props(t1, Rule::ReplaceMaterialCondition);
    lemma_pre_order_props(t2, Rule::ReplaceExclusiveDisjunction);
    lemma_pre_order_props(t3, Rule::EliminateDoubleNegation);
    lemma_pre_order_vars(t, Rule::ReplaceLogicalEquivalence);
    lemma_pre_order_vars(t1, Rule::ReplaceMaterialCondition);
    lemma_pre_order_vars(t2, Rule::ReplaceExclusiveDisjunction);
    lemma_pre_order_vars(t3, Rule::EliminateDoubleNegation);
    lemma_pre_order_vars(t4, Rule::ReplaceJunctionNegation);
    lemma_nnf_props(t);
    lemma_cnf_node_vars(nnf_spec(t));
}

/// The conjunctive-normal-form laws of `to_cnf`: the result is well formed,
/// a conjunction of disjunctions of literals, and keeps the tree's truth
/// value under every assignment of the variables.
pub proof fn lemma_cnf_props(t: BoolNode)
    requires
        t.wf(),
    ensures
        cnf_spec(t).wf(),
        cnf_spec(t).is_cnf(),
        forall|env: spec_fn(char) -> bool| #[trigger] cnf_spec(t).evals(env) == t.evals(env),
{
    lemma_nnf_props(t);
    lemma_cnf_node_props(nnf_spec(t));
}

/// Rewriting into conjunctive normal form twice gives a tree semantically
/// equal to rewriting once: the same variable letters and the same truth
/// value under every assignment, so the two trees print the same truth
/// table. (The rebuilt tree itself can differ in how a clause nests its
/// disjunctions, so the claim is the semantic equality the trees themselves
/// compare by.)
pub proof fn lemma_cnf_idempotent(t: BoolNode)
    requires
        t.wf(),
    ensures
        spec_tree_equiv(cnf_spec(cnf_spec(t)), cnf_spec(t)),
{
    lemma_cnf_props(t);
    lemma_cnf_props(cnf_spec(t));
    lemma_rewrites_preserve_vars(cnf_spec(t));
}

/// Crossing one more left operand appends its clauses.
proof fn lemma_cross_all_append(a: Seq<BoolNode>, x: BoolNode, rs: Seq<BoolNode>, bt: BoolType)
    ensures
        cross_all(a.push(x), rs, bt) =~= cross_all(a, rs, bt) + cross_one(x, rs, bt),
    decreases a.len(),
{
    if a.len() == 0 {
        assert(a.push(x)[0] == x);
        assert(a.push(x).drop_first() =~= Seq::<BoolNode>::empty());
        assert(cross_all(a.push(x).drop_first(), rs, bt) == Seq::<BoolNode>::empty());
    } else {
        assert(a.push(x)[0] == a[0]);
        assert(a.push(x).drop_first() =~= a.drop_first().push(x));
        lemma_cross_all_append(a.drop_first(), x, rs, bt);
    }
}

/// Crossing one more right operand appends its clause.
proof fn lemma_cross_one_append(l: BoolNode, a: Seq<BoolNode>, x: BoolNode, bt: BoolType)
    ensures
        cross_one(l, a.push(x), bt) =~= cross_one(l, a, bt).push(mk_bin(bt, l, x)),
    decreases a.len(),
{
    if a.len() == 0 {
        assert(a.push(x)[0] == x);
        assert(a.push(x).drop_first() =~= Seq::<BoolNode>::empty());
        assert(cross_one(l, a.push(x).drop_first(), bt) == Seq::<BoolNode>::empty());
    } else {
        assert(a.push(x)[0] == a[0]);
        assert(a.push(x).drop_first() =~= a.drop_first().push(x));
        lemma_cross_one_append(l, a.drop_first(), x, bt);
    }
}

/// Moves the operands of the `k`-chain at the top of `t` onto the end of
/// `out`, left to right.
fn flatten_into_vec(t: BoolNode, k: BoolType, out: &mut Vec<BoolNode>)
    requires
        t.wf(),
    ensures
        final(out)@ == old(out)@ + flatten_ops(t, k),
    decreases t.size(),
{
    proof {
        lemma_child_measures(t, k);
        lemma_wf_children(t);
    }
    let ghost t0 = t;
    if t.boolean_type == k && t.left.is_some() && t.right.is_some() {
        let mut t = t;
        let l = t.left.take().unwrap();
        let r = t.right.take().unwrap();
        flatten_into_vec(*l, k, out);
        flatten_into_vec(*r, k, out);
        proof {
            assert(final(out)@ =~= old(out)@ + flatten_ops(t0, k));
        }
    } else {
        out.push(t);
        proof {
            assert(flatten_ops(t0, k) == seq![t0]);
            assert(final(out)@ =~= old(out)@ + flatten_ops(t0, k));
        }
    }
}

/// Builds the right-leaning chain of the given junction kind over the
/// operands, consuming them from the back.
fn build_chain_exec(ops: Vec<BoolNode>, k: BoolType) -> (r: BoolNode)
    requires
        ops@.len() >= 1,
        k is Conjunction || k is Disjunction,
    ensures
        r == build_chain(ops@, k),
{
    let mut ops = ops;
    let ghost ops0 = ops@;
    let mut acc = ops.pop().unwrap();
    proof {
        assert(ops0.skip(ops@.len() as int) =~= seq![acc]);
        assert(build_chain(seq![acc], k) == acc);
    }
    let sym = type_symbol(k);
    while ops.len() > 0
        invariant
            ops@ =~= ops0.take(ops@.len() as int),
            ops@.len() < ops0.len(),
            acc == build_chain(ops0.skip(ops@.len() as int), k),
            k is Conjunction || k is Disjunction,
            sym == spec_type_symbol(k),
        decreases ops@.len(),
    {
        let ghost i = ops@.len() as int;
        let x = ops.pop().unwrap();
        proof {
            assert(x == ops0[i - 1]);
            assert(ops@ =~= ops0.take(i - 1));
        }
        acc = BoolNode {
            boolean_type: k,
            op_symbol: sym,
            left: Some(Box::new(x)),
            right: Some(Box::new(acc)),
        };
        proof {
            let s = ops0.skip(i - 1);
            assert(s.len() >= 2);
            assert(s[0] == ops0[i - 1]);
            assert(s.drop_first() =~= ops0.skip(i));
            assert(acc == mk_bin(k, s[0], build_chain(s.drop_first(), k)));
        }
    }
    proof {
        assert(ops0.skip(0) =~= ops0);
    }
    acc
}

impl BoolNode {
    /// Distributes this junction over the dual junctions below it: on an
    /// `a ∘ b` node where a side carries a chain of the dual kind, the
    /// operand fringes of the two sides are crossed into `∘`-clauses and the
    /// node is rebuilt as a right-leaning chain of the dual kind. A no-op on
    /// any other node. The tree's truth value is kept under every assignment.
    pub fn distribute(&mut self, boolean_type: BoolType)
        requires
            old(self).wf(),
            boolean_type is Conjunction || boolean_type is Disjunction,
        ensures
            *final(self) == distribute_spec(*old(self), boolean_type),
            final(self).wf(),
            forall|env: spec_fn(char) -> bool| #[trigger] final(self).evals(env) == old(
                self,
            ).evals(env),
    {
        proof {
            lemma_distribute_props(*old(self), boolean_type);
        }
        let bt = boolean_type;
        let inverse = if bt == BoolType::Conjunction {
            BoolType::Disjunction
        } else {
            BoolType::Conjunction
        };
        if self.boolean_type != bt {
            return ;
        }
        let fires = match (&self.left, &self.right) {
            (Some(l), Some(r)) => l.boolean_type == inverse || r.boolean_type == inverse,
            _ => false,
        };
        if !fires {
            return ;
        }
        proof {
            lemma_wf_children(*old(self));
            lemma_flatten_props(old(self).lc(), inverse);
            lemma_flatten_props(old(self).rc(), inverse);
        }
        let l = self.left.take().unwrap();
        let r = self.right.take().unwrap();
        let mut ops_l: Vec<BoolNode> = Vec::new();
        flatten_into_vec(*l, inverse, &mut ops_l);
        let mut ops_r: Vec<BoolNode> = Vec::new();
        flatten_into_vec(*r, inverse, &mut ops_r);
        proof {
            assert(ops_l@ =~= flatten_ops(old(self).lc(), inverse));
            assert(ops_r@ =~= flatten_ops(old(self).rc(), inverse));
        }
        let ghost ls = ops_l@;
        let ghost rs = ops_r@;
        let sym = type_symbol(bt);
        let mut clauses: Vec<BoolNode> = Vec::new();
        let mut i: usize = 0;
        while i < ops_l.len()
            invariant
                0 <= i <= ops_l@.len(),
                ops_l@ == ls,
                ops_r@ == rs,
                rs.len() >= 1,
                sym == spec_type_symbol(bt),
                clauses@ =~= cross_all(ls.take(i as int), rs, bt),
            decreases ops_l@.len() - i,
        {
            let mut j: usize = 0;
            while j < ops_r.len()
                invariant
                    0 <= i < ops_l@.len(),
                    0 <= j <= ops_r@.len(),
                    ops_l@ == ls,
                    ops_r@ == rs,
                    sym == spec_type_symbol(bt),
                    clauses@ =~= cross_all(ls.take(i as int), rs, bt) + cross_one(
                        ls[i as int],
                        rs.take(j as int),
                        bt,
                    ),
                decreases ops_r@.len() - j,
            {
                let clause = BoolNode {
                    boolean_type: bt,
                    op_symbol: sym,
                    left: Some(Box::new(ops_l[i].clone())),
                    right: Some(Box::new(ops_r[j].clone())),
                };
                proof {
                    assert(clause == mk_bin(bt, ls[i as int], rs[j as int]));
                    lemma_cross_one_append(ls[i as int], rs.take(j as int), rs[j as int], bt);
                    assert(rs.take(j as int).push(rs[j as int]) =~= rs.take(j + 1));
                }
                clauses.push(clause);
                j = j + 1;
            }
            proof {
                assert(rs.take(rs.len() as int) =~= rs);
                lemma_cross_all_append(ls.take(i as int), ls[i as int], rs, bt);
                assert(ls.take(i as int).push(ls[i as int]) =~= ls.take(i + 1));
                assert(cross_one(ls[i as int], rs.take(0), bt) == Seq::<BoolNode>::empty()) by {
                    assert(rs.take(0) =~= Seq::<BoolNode>::empty());
                }
            }
            i = i + 1;
        }
        proof {
            assert(ls.take(ls.len() as int) =~= ls);
            assert(clauses@ =~= cross_all(ls, rs, bt));
            lemma_cross_all_props(ls, rs, bt);
            assert(clauses@.len() >= 1) by {
                assert(ls.len() * rs.len() >= 1) by (nonlinear_arith)
                    requires
                        ls.len() >= 1,
                        rs.len() >= 1,
                ;
            }
            assert(cross_one(ls[0], rs.take(0), bt) == Seq::<BoolNode>::empty()) by {
                assert(rs.take(0) =~= Seq::<BoolNode>::empty());
            }
        }
        let built = build_chain_exec(clauses, inverse);
        *self = built;
    }

    /// The conjunctive pass over one owned subtree in negation normal form.
    fn cnf_rec(t: BoolNode) -> (r: BoolNode)
        requires
            t.wf(),
            t.is_nnf(),
        ensures
            r == cnf_node_spec(t),
        decreases t.size(),
    {
        proof {
            lemma_child_measures(t, BoolType::Variable);
            lemma_wf_children(t);
        }
        let ghost t_in = t;
        match t.boolean_type {
            BoolType::Conjunction | BoolType::Disjunction => {
                let mut t = t;
                let l = t.left.take().unwrap();
                let r = t.right.take().unwrap();
                let l2 = Self::cnf_rec(*l);
                let r2 = Self::cnf_rec(*r);
                proof {
                    lemma_cnf_node_props(t_in.lc());
                    lemma_cnf_node_props(t_in.rc());
                }
                let t1 = BoolNode {
                    boolean_type: t.boolean_type,
                    op_symbol: t.op_symbol,
                    left: Some(Box::new(l2)),
                    right: Some(Box::new(r2)),
                };
                proof {
                    assert(t1.wf() && t1.is_nnf());
                }
                if t1.boolean_type == BoolType::Disjunction {
                    let mut t1 = t1;
                    t1.distribute(BoolType::Disjunction);
                    if t1.boolean_type != BoolType::Disjunction {
                        return t1;
                    }
                    proof {
                        lemma_flatten_props(t1, BoolType::Disjunction);
                    }
                    let mut ops: Vec<BoolNode> = Vec::new();
                    flatten_into_vec(t1, BoolType::Disjunction, &mut ops);
                    build_chain_exec(ops, BoolType::Disjunction)
                } else {
                    proof {
                        lemma_flatten_props(t1, BoolType::Conjunction);
                    }
                    let mut ops: Vec<BoolNode> = Vec::new();
                    flatten_into_vec(t1, BoolType::Conjunction, &mut ops);
                    build_chain_exec(ops, BoolType::Conjunction)
                }
            },
            _ => t,
        }
    }

    /// Rewrites the whole tree into conjunctive normal form: negation normal
    /// form first, then the recursive conjunctive pass. The result keeps the
    /// tree's truth value under every assignment.
    pub fn to_cnf(&mut self)
        requires
            old(self).wf(),
        ensures
            *final(self) == cnf_spec(*old(self)),
            final(self).wf(),
            final(self).is_cnf(),
            forall|env: spec_fn(char) -> bool| #[trigger] final(self).evals(env) == old(
                self,
            ).evals(env),
    {
        proof {
            lemma_cnf_props(*old(self));
        }
        self.to_nnf();
        let mut tmp = BoolNode {
            boolean_type: BoolType::Variable,
            op_symbol: 'A',
            left: None,
            right: None,
        };
        core::mem::swap(self, &mut tmp);
        let built = Self::cnf_rec(tmp);
        *self = built;
    }

    /// Checks the conjunctive grammar below this node.
    fn cnf_check(&self, accept_conjunctions: bool) -> (r: bool)
        requires
            self.wf(),
        ensures
            r == self.cnf_shape(accept_conjunctions),
        decreases *self,
    {
        match self.boolean_type {
            BoolType::Conjunction => {
                if !accept_conjunctions {
                    return false;
                }
                match (&self.left, &self.right) {
                    (Some(l), Some(r)) => l.cnf_check(false) && r.cnf_check(true),
                    _ => false,
                }
            },
            BoolType::Disjunction => {
                match (&self.left, &self.right) {
                    (Some(l), Some(r)) => l.cnf_check(false) && r.cnf_check(false),
                    _ => false,
                }
            },
            BoolType::Variable => true,
            BoolType::Negation => true,
            _ => false,
        }
    }

    /// Decides whether the tree is in conjunctive normal form.
    pub fn conjunctive_normal_form(&self) -> (r: bool)
        requires
            self.wf(),
        ensures
            r == self.is_cnf(),
    {
        self.negation_normal_form() && self.cnf_check(true)
    }
}

/// A rotation applies when the node and the child being promoted share the
/// commutative-associative kind asked for.
pub open spec fn spec_valid_rotation(t: BoolNode, k: BoolType, is_left: bool) -> bool {
    t.boolean_type == k && (if is_left {
        t.right is Some && t.rc().boolean_type == k
    } else {
        t.left is Some && t.lc().boolean_type == k
    })
}

/// `(a ∘ b) ∘ c` becomes `a ∘ (b ∘ c)` when both nodes have kind `k`.
pub open spec fn rotate_right_spec(t: BoolNode, k: BoolType) -> BoolNode {
    if spec_valid_rotation(t, k, false) && t.right is Some && t.lc().left is Some
        && t.lc().right is Some {
        mk_bin(k, t.lc().lc(), mk_bin(k, t.lc().rc(), t.rc()))
    } else {
        t
    }
}

/// `a ∘ (b ∘ c)` becomes `(a ∘ b) ∘ c` when both nodes have kind `k`.
pub open spec fn rotate_left_spec(t: BoolNode, k: BoolType) -> BoolNode {
    if spec_valid_rotation(t, k, true) && t.left is Some && t.rc().left is Some
        && t.rc().right is Some {
        mk_bin(k, mk_bin(k, t.lc(), t.rc().lc()), t.rc().rc())
    } else {
        t
    }
}

/// The four kinds a rotation accepts; `>` is refused as non-commutative, and
/// leaves and negations have too few operands.
pub open spec fn rotatable(k: BoolType) -> bool {
    ||| k is Conjunction
    ||| k is Disjunction
    ||| k is ExclusiveDisjunction
    ||| k is LogicalEquivalence
}

/// Rotations keep the tree well formed and, because every rotatable
/// connective is associative, keep its truth value under every assignment.
proof fn lemma_rotate_props(t: BoolNode, k: BoolType)
    requires
        t.wf(),
        rotatable(k),
    ensures
        rotate_right_spec(t, k).wf(),
        rotate_left_spec(t, k).wf(),
        forall|env: spec_fn(char) -> bool| #[trigger] rotate_right_spec(t, k).evals(env)
            == t.evals(env),
        forall|env: spec_fn(char) -> bool| #[trigger] rotate_left_spec(t, k).evals(env) == t.evals(
            env,
        ),
{
    lemma_wf_children(t);
    if spec_valid_rotation(t, k, false) && t.right is Some && t.lc().left is Some
        && t.lc().right is Some {
        lemma_wf_children(t.lc());
        let a = t.lc().lc();
        let b = t.lc().rc();
        let c = t.rc();
        let res = mk_bin(k, a, mk_bin(k, b, c));
        assert(mk_bin(k, b, c).wf());
        assert(res.wf());
        assert forall|env: spec_fn(char) -> bool| #[trigger] rotate_right_spec(t, k).evals(env)
            == t.evals(env) by {
            assert(res.lc() == a && res.rc() == mk_bin(k, b, c));
            assert(res.rc().evals(env) == (if k is Conjunction {
                b.evals(env) && c.evals(env)
            } else if k is Disjunction {
                b.evals(env) || c.evals(env)
            } else if k is ExclusiveDisjunction {
                b.evals(env) != c.evals(env)
            } else {
                b.evals(env) == c.evals(env)
            }));
            assert(t.lc().evals(env) == (if k is Conjunction {
                a.evals(env) && b.evals(env)
            } else if k is Disjunction {
                a.evals(env) || b.evals(env)
            } else if k is ExclusiveDisjunction {
                a.evals(env) != b.evals(env)
            } else {
                a.evals(env) == b.evals(env)
            }));
        }
    }
    if spec_valid_rotation(t, k, true) && t.left is Some && t.rc().left is Some
        && t.rc().right is Some {
        lemma_wf_children(t.rc());
        let a = t.lc();
        let b = t.rc().lc();
        let c = t.rc().rc();
        let res = mk_bin(k, mk_bin(k, a, b), c);
        assert(mk_bin(k, a, b).wf());
        assert(res.wf());
        assert forall|env: spec_fn(char) -> bool| #[trigger] rotate_left_spec(t, k).evals(env)
            == t.evals(env) by {
            assert(res.lc() == mk_bin(k, a, b) && res.rc() == c);
            assert(res.lc().evals(env) == (if k is Conjunction {
                a.evals(env) && b.evals(env)
            } else if k is Disjunction {
                a.evals(env) || b.evals(env)
            } else if k is ExclusiveDisjunction {
                a.evals(env) != b.evals(env)
            } else {
                a.evals(env) == b.evals(env)
            }));
            assert(t.rc().evals(env) == (if k is Conjunction {
                b.evals(env) && c.evals(env)
            } else if k is Disjunction {
                b.evals(env) || c.evals(env)
            } else if k is ExclusiveDisjunction {
                b.evals(env) != c.evals(env)
            } else {
                b.evals(env) == c.evals(env)
            }));
        }
    }
}

impl BoolNode {
    /// Whether a rotation of the asked direction applies at this node. Only
    /// the commutative-associative kinds may be asked about.
    pub fn is_valid_rotation(&self, boolean_type: BoolType, is_left: bool) -> (r: bool)
        requires
            self.wf(),
            rotatable(boolean_type),
        ensures
            r == spec_valid_rotation(*self, boolean_type, is_left),
    {
        if self.boolean_type != boolean_type {
            return false;
        }
        match (&self.left, &self.right, is_left) {
            (Some(left), _, false) => left.boolean_type == boolean_type,
            (_, Some(right), true) => right.boolean_type == boolean_type,
            _ => false,
        }
    }

    /// Rotates `(a ∘ b) ∘ c` into `a ∘ (b ∘ c)`; a no-op where the shape does
    /// not match. The truth value is kept under every assignment.
    pub fn right_rotate(&mut self, boolean_type: BoolType)
        requires
            old(self).wf(),
            rotatable(boolean_type),
        ensures
            *final(self) == rotate_right_spec(*old(self), boolean_type),
            final(self).wf(),
            forall|env: spec_fn(char) -> bool| #[trigger] final(self).evals(env) == old(
                self,
            ).evals(env),
    {
        proof {
            lemma_rotate_props(*old(self), boolean_type);
            lemma_wf_children(*old(self));
        }
        if !self.is_valid_rotation(boolean_type, false) {
            return ;
        }
        let mut l = self.left.take().unwrap();
        let c = self.right.take().unwrap();
        let a = l.left.take().unwrap();
        let b = l.right.take().unwrap();
        let sym = type_symbol(boolean_type);
        let inner = BoolNode {
            boolean_type,
            op_symbol: sym,
            left: Some(b),
            right: Some(c),
        };
        *self = BoolNode {
            boolean_type,
            op_symbol: sym,
            left: Some(a),
            right: Some(Box::new(inner)),
        };
    }

    /// Rotates `a ∘ (b ∘ c)` into `(a ∘ b) ∘ c`; a no-op where the shape does
    /// not match. The truth value is kept under every assignment.
    pub fn left_rotate(&mut self, boolean_type: BoolType)
        requires
            old(self).wf(),
            rotatable(boolean_type),
        ensures
            *final(self) == rotate_left_spec(*old(self), boolean_type),
            final(self).wf(),
            forall|env: spec_fn(char) -> bool| #[trigger] final(self).evals(env) == old(
                self,
            ).evals(env),
    {
        proof {
            lemma_rotate_props(*old(self), boolean_type);
            lemma_wf_children(*old(self));
        }
        if !self.is_valid_rotation(boolean_type, true) {
            return ;
        }
        let a = self.left.take().unwrap();
        let mut r = self.right.take().unwrap();
        let b = r.left.take().unwrap();
        let c = r.right.take().unwrap();
        let sym = type_symbol(boolean_type);
        let inner = BoolNode {
            boolean_type,
            op_symbol: sym,
            left: Some(a),
            right: Some(b),
        };
        *self = BoolNode {
            boolean_type,
            op_symbol: sym,
            left: Some(Box::new(inner)),
            right: Some(c),
        };
    }

    /// Rotates a disjunction chain to the left.
    pub fn left_rotate_disjunction(&mut self)
        requires
            old(self).wf(),
        ensures
            *final(self) == rotate_left_spec(*old(self), BoolType::Disjunction),
            final(self).wf(),
    {
        self.left_rotate(BoolType::Disjunction);
    }

    /// Rotates a disjunction chain to the right.
    pub fn right_rotate_disjunction(&mut self)
        requires
            old(self).wf(),
        ensures
            *final(self) == rotate_right_spec(*old(self), BoolType::Disjunction),
            final(self).wf(),
    {
        self.right_rotate(BoolType::Disjunction);
    }

    /// Rotates a conjunction chain to the right.
    pub fn right_rotate_conjunction(&mut self)
        requires
            old(self).wf(),
        ensures
            *final(self) == rotate_right_spec(*old(self), BoolType::Conjunction),
            final(self).wf(),
    {
        self.right_rotate(BoolType::Conjunction);
    }

    /// Takes the node apart into its kind, its symbol and its two children.
    pub fn consume(self) -> (r: (BoolType, char, Option<Box<BoolNode>>, Option<Box<BoolNode>>))
        ensures
            r.0 == self.boolean_type,
            r.1 == self.op_symbol,
            r.2 == self.left,
            r.3 == self.right,
    {
        (self.boolean_type, self.op_symbol, self.left, self.right)
    }
}

impl BoolNode {
    /// The set of variable letters in the tree.
    pub open spec fn var_set(self) -> Set<char>
        decreases self,
    {
        if self.boolean_type is Variable {
            set![self.op_symbol]
        } else {
            opt_vars(self.left).union(opt_vars(self.right))
        }
    }
}

/// The variable letters under an optional child.
pub open spec fn opt_vars(o: Option<Box<BoolNode>>) -> Set<char>
    decreases o,
{
    match o {
        None => Set::empty(),
        Some(n) => n.var_set(),
    }
}

/// A tree's truth value depends only on its own variables.
proof fn lemma_evals_depends_on_vars(t: BoolNode, e1: spec_fn(char) -> bool, e2: spec_fn(
    char,
) -> bool)
    requires
        t.wf(),
        forall|c: char| t.var_set().contains(c) ==> e1(c) == e2(c),
    ensures
        t.evals(e1) == t.evals(e2),
    decreases t,
{
    lemma_wf_children(t);
    if t.boolean_type is Variable {
        assert(t.var_set().contains(t.op_symbol));
    } else {
        match t.left {
            Some(l) => {
                assert(forall|c: char| l.var_set().contains(c) ==> t.var_set().contains(c));
                lemma_evals_depends_on_vars(*l, e1, e2);
            },
            None => {},
        }
        match t.right {
            Some(r) => {
                assert(forall|c: char| r.var_set().contains(c) ==> t.var_set().contains(c));
                lemma_evals_depends_on_vars(*r, e1, e2);
            },
            None => {},
        }
    }
}

/// Semantic equality of trees, as the trees themselves use it: the same
/// variable letters, and the same truth value under every assignment.
pub open spec fn spec_tree_equiv(x: BoolNode, y: BoolNode) -> bool {
    &&& x.var_set() == y.var_set()
    &&& forall|env: spec_fn(char) -> bool| #[trigger] x.evals(env) == y.evals(env)
}

/// The letters of a set of characters from `code` upward, in alphabetical
/// order.
pub open spec fn sorted_set_chars_from(s: Set<char>, code: int) -> Seq<char>
    decreases 91 - code,
{
    if code < 65 || code >= 91 {
        Seq::empty()
    } else {
        let c = code as char;
        let rest = sorted_set_chars_from(s, code + 1);
        if s.contains(c) {
            seq![c] + rest
        } else {
            rest
        }
    }
}

/// The sorted list of a tree's variable letters.
pub open spec fn sorted_tree_vars(t: BoolNode) -> Seq<char> {
    sorted_set_chars_from(t.var_set(), 65)
}

/// Membership in the sorted letter list mirrors the set.
proof fn lemma_sorted_set_chars_contains(s: Set<char>, c: char, code: int)
    requires
        65 <= code <= 91,
    ensures
        sorted_set_chars_from(s, code).contains(c) == (code <= c as u32 <= 90 && s.contains(c)),
    decreases 91 - code,
{
    if code >= 91 {
    } else {
        let c0 = code as char;
        lemma_sorted_set_chars_contains(s, c, code + 1);
        let rest = sorted_set_chars_from(s, code + 1);
        assert(c0 as u32 == code);
        if s.contains(c0) {
            assert(sorted_set_chars_from(s, code) == seq![c0] + rest);
            assert forall|x: char| (seq![c0] + rest).contains(x) == (x == c0 || rest.contains(
                x,
            )) by {
                if (seq![c0] + rest).contains(x) {
                    let i = choose|i: int|
                        0 <= i < (seq![c0] + rest).len() && (seq![c0] + rest)[i] == x;
                    if i == 0 {
                    } else {
                        assert(rest[i - 1] == x);
                    }
                }
                if x == c0 {
                    assert((seq![c0] + rest)[0] == x);
                }
                if rest.contains(x) {
                    let i = choose|i: int| 0 <= i < rest.len() && rest[i] == x;
                    assert((seq![c0] + rest)[i + 1] == x);
                }
            }
            if c == c0 {
                assert(c as u32 == code);
            }
        } else {
            if c == c0 {
                assert(!s.contains(c));
            }
        }
    }
}

/// Whether a variable letter occurs in the tree.
fn tree_has_var(t: &BoolNode, c: char) -> (r: bool)
    ensures
        r == t.var_set().contains(c),
    decreases *t,
{
    if t.boolean_type == BoolType::Variable {
        t.op_symbol == c
    } else {
        let in_left = match &t.left {
            Some(l) => tree_has_var(l, c),
            None => false,
        };
        let in_right = match &t.right {
            Some(r) => tree_has_var(r, c),
            None => false,
        };
        in_left || in_right
    }
}

/// Collects the sorted variable letters of a tree.
fn tree_vars(t: &BoolNode) -> (keys: Vec<char>)
    ensures
        keys@ == sorted_tree_vars(*t),
        crate::truth::strictly_ascending(keys@),
        keys@.len() <= 26,
        forall|c: char| #[trigger] keys@.contains(c) ==> t.var_set().contains(c),
        forall|c: char| #[trigger] t.var_set().contains(c) && is_variable_symbol(c)
            ==> keys@.contains(c),
{
    let mut keys: Vec<char> = Vec::new();
    let mut code: u8 = 65;
    while code <= 90
        invariant
            65 <= code <= 91,
            sorted_tree_vars(*t) == keys@ + sorted_set_chars_from(t.var_set(), code as int),
            keys@.len() <= code - 65,
            forall|p: int| 0 <= p < keys@.len() ==> (keys@[p] as u32) < code as u32,
            crate::truth::strictly_ascending(keys@),
        decreases 91 - code,
    {
        let c = code as char;
        let ghost before = keys@;
        if tree_has_var(t, c) {
            keys.push(c);
        }
        proof {
            let rest = sorted_set_chars_from(t.var_set(), code as int + 1);
            if t.var_set().contains(c) {
                assert(sorted_set_chars_from(t.var_set(), code as int) == seq![c] + rest);
                assert(before + (seq![c] + rest) =~= (before.push(c)) + rest);
            } else {
                assert(sorted_set_chars_from(t.var_set(), code as int) == rest);
            }
        }
        code = code + 1;
    }
    proof {
        assert(sorted_set_chars_from(t.var_set(), 91) == Seq::<char>::empty());
        assert(keys@ + Seq::<char>::empty() =~= keys@);
        assert forall|c: char| #[trigger] keys@.contains(c) implies t.var_set().contains(
            c,
        ) by {
            lemma_sorted_set_chars_contains(t.var_set(), c, 65);
            assert(keys@ == sorted_set_chars_from(t.var_set(), 65));
        }
        assert forall|c: char|
            #[trigger] t.var_set().contains(c) && is_variable_symbol(c) implies keys@.contains(
            c,
        ) by {
            lemma_sorted_set_chars_contains(t.var_set(), c, 65);
            assert(keys@ == sorted_set_chars_from(t.var_set(), 65));
            assert(65 <= c as u32 <= 90);
        }
    }
    keys
}

/// The assignment that row `v` of a table over the columns `keys` denotes:
/// the first column varies slowest, letters off the columns are false.
pub open spec fn env_of(keys: Seq<char>, v: u32) -> spec_fn(char) -> bool {
    |c: char|
        keys.contains(c) && ((v >> ((keys.len() - 1 - keys.index_of(c)) as u32)) & 1 == 1)
}

/// Evaluates a tree under the assignment of row `v`.
fn eval_under(t: &BoolNode, keys: &Vec<char>, v: u32) -> (r: bool)
    requires
        t.wf(),
        crate::truth::strictly_ascending(keys@),
        keys@.len() <= 26,
        forall|c: char| t.var_set().contains(c) ==> keys@.contains(c),
    ensures
        r == t.evals(env_of(keys@, v)),
    decreases *t,
{
    proof {
        lemma_wf_children(*t);
    }
    match t.boolean_type {
        BoolType::Variable => {
            proof {
                assert(t.var_set().contains(t.op_symbol));
            }
            let idx = crate::truth::index_in(keys, t.op_symbol);
            let sh = (keys.len() - 1 - idx) as u32;
            let bit = (v >> sh) & 1;
            proof {
                assert(env_of(keys@, v)(t.op_symbol) == (keys@.contains(t.op_symbol) && ((v >> ((
                keys@.len() - 1 - keys@.index_of(t.op_symbol)) as u32)) & 1 == 1)));
            }
            bit == 1
        },
        BoolType::Negation => {
            proof {
                assert(forall|c: char|
                    t.lc().var_set().contains(c) ==> t.var_set().contains(c));
            }
            let l = match &t.left {
                Some(l) => eval_under(l, keys, v),
                None => false,
            };
            !l
        },
        _ => {
            proof {
                assert(forall|c: char|
                    t.lc().var_set().contains(c) ==> t.var_set().contains(c));
                assert(forall|c: char|
                    t.rc().var_set().contains(c) ==> t.var_set().contains(c));
            }
            let l = match &t.left {
                Some(l) => eval_under(l, keys, v),
                None => false,
            };
            let r = match &t.right {
                Some(r) => eval_under(r, keys, v),
                None => false,
            };
            match t.boolean_type {
                BoolType::Conjunction => l && r,
                BoolType::Disjunction => l || r,
                BoolType::ExclusiveDisjunction => l != r,
                BoolType::MaterialCondition => !l || r,
                _ => l == r,
            }
        },
    }
}

/// The row index that reproduces an arbitrary assignment on the columns.
pub open spec fn mask_of(env: spec_fn(char) -> bool, keys: Seq<char>) -> u32
    decreases keys.len(),
{
    if keys.len() == 0 {
        0u32
    } else {
        (if env(keys[0]) {
            1u32 << ((keys.len() - 1) as u32)
        } else {
            0u32
        }) | mask_of(env, keys.drop_first())
    }
}

/// The mask of an assignment lies below `2^n` and reproduces the assignment
/// on every column letter.
proof fn lemma_mask_of(env: spec_fn(char) -> bool, keys: Seq<char>)
    requires
        crate::truth::strictly_ascending(keys),
        keys.len() <= 26,
    ensures
        mask_of(env, keys) < (1u32 << (keys.len() as u32)),
        forall|c: char| keys.contains(c) ==> env_of(keys, mask_of(env, keys))(c) == env(c),
    decreases keys.len(),
{
    if keys.len() == 0 {
        assert(0u32 < (1u32 << 0u32)) by (bit_vector);
    } else {
        let rest = keys.drop_first();
        assert(forall|p: int| 0 <= p < rest.len() ==> rest[p] == keys[p + 1]);
        lemma_mask_of(env, rest);
        let n: u32 = keys.len() as u32;
        let e0 = env(keys[0]);
        let b: u32 = if e0 {
            1u32 << ((n - 1) as u32)
        } else {
            0u32
        };
        let mr = mask_of(env, rest);
        let m = mask_of(env, keys);
        assert(m == b | mr);
        assert(mr < (1u32 << ((n - 1) as u32)));
        assert(m < (1u32 << n) && (((m >> ((n - 1) as u32)) & 1 == 1) == (b != 0u32)))
            by (bit_vector)
            requires
                m == b | mr,
                b == 1u32 << ((n - 1) as u32) || b == 0u32,
                mr < (1u32 << ((n - 1) as u32)),
                1 <= n <= 26,
        ;
        assert(b != 0u32 ==> e0);
        assert(e0 ==> b != 0u32) by {
            assert(1u32 << ((n - 1) as u32) != 0u32) by (bit_vector)
                requires
                    1 <= n <= 26,
            ;
        }
        assert forall|c: char| keys.contains(c) implies env_of(keys, m)(c) == env(c) by {
            let i = keys.index_of(c);
            assert(0 <= i < keys.len() && keys[i] == c);
            if i == 0 {
                assert(env_of(keys, m)(c) == ((m >> ((n - 1) as u32)) & 1 == 1));
            } else {
                assert(rest[i - 1] == c);
                assert(rest.contains(c));
                let j = rest.index_of(c);
                assert(rest[j] == c);
                assert(j == i - 1) by {
                    if j < i - 1 {
                        assert((keys[j + 1] as u32) < (keys[i] as u32));
                    }
                    if j > i - 1 {
                        assert((keys[i] as u32) < (keys[j + 1] as u32));
                    }
                }
                assert(env_of(rest, mr)(c) == env(c));
                assert(env_of(rest, mr)(c) == (rest.contains(c) && ((mr >> ((rest.len() - 1 - j)
                    as u32)) & 1 == 1)));
                assert(env_of(keys, m)(c) == (keys.contains(c) && ((m >> ((keys.len() - 1 - i)
                    as u32)) & 1 == 1)));
                let sh: u32 = (keys.len() - 1 - i) as u32;
                assert((m >> sh) & 1 == (mr >> sh) & 1) by (bit_vector)
                    requires
                        m == b | mr,
                        b == 1u32 << ((n - 1) as u32) || b == 0u32,
                        mr < (1u32 << ((n - 1) as u32)),
                        1 <= n <= 26,
                        sh < (n - 1) as u32,
                ;
                assert(sh == (rest.len() - 1 - j) as u32);
            }
        }
    }
}

/// Decides semantic equality of two trees: the same variable letters and the
/// same truth value under every assignment, checked over all rows of their
/// common table.
fn tree_equivalent(x: &BoolNode, y: &BoolNode) -> (r: bool)
    requires
        x.wf(),
        y.wf(),
    ensures
        r == spec_tree_equiv(*x, *y),
{
    let kx = tree_vars(x);
    let ky = tree_vars(y);
    if kx.len() != ky.len() {
        proof {
            if x.var_set() == y.var_set() {
                assert(kx@ == ky@);
            }
        }
        return false;
    }
    let mut i: usize = 0;
    let nk = kx.len();
    while i < nk
        invariant
            i <= nk,
            nk == kx@.len(),
            nk == ky@.len(),
            kx@ == sorted_tree_vars(*x),
            ky@ == sorted_tree_vars(*y),
            forall|j: int| 0 <= j < i ==> kx@[j] == ky@[j],
        decreases nk - i,
    {
        if kx[i] != ky[i] {
            proof {
                if x.var_set() == y.var_set() {
                    assert(kx@ == ky@);
                }
            }
            return false;
        }
        i = i + 1;
    }
    proof {
        assert(kx@ =~= ky@);
        assert(x.var_set() =~= y.var_set()) by {
            assert forall|c: char| x.var_set().contains(c) == y.var_set().contains(c) by {
                if is_variable_symbol(c) {
                    assert(kx@.contains(c) == x.var_set().contains(c));
                    assert(ky@.contains(c) == y.var_set().contains(c));
                } else {
                    if x.var_set().contains(c) {
                        lemma_var_set_symbols(*x, c);
                    }
                    if y.var_set().contains(c) {
                        lemma_var_set_symbols(*y, c);
                    }
                }
            }
        }
    }
    proof {
        assert forall|c: char| x.var_set().contains(c) implies kx@.contains(c) by {
            lemma_var_set_symbols(*x, c);
        }
        assert forall|c: char| y.var_set().contains(c) implies kx@.contains(c) by {
            lemma_var_set_symbols(*y, c);
        }
    }
    let max: u32 = 1u32 << (nk as u32);
    let mut v: u32 = 0;
    while v < max
        invariant
            max == 1u32 << (kx@.len() as u32),
            kx@ == sorted_tree_vars(*x),
            crate::truth::strictly_ascending(kx@),
            kx@.len() <= 26,
            x.wf(),
            y.wf(),
            x.var_set() == y.var_set(),
            forall|c: char| x.var_set().contains(c) ==> kx@.contains(c),
            forall|c: char| y.var_set().contains(c) ==> kx@.contains(c),
            forall|w: u32|
                w < v ==> #[trigger] x.evals(env_of(kx@, w)) == y.evals(env_of(kx@, w)),
        decreases max - v,
    {
        let ex = eval_under(x, &kx, v);
        let ey = eval_under(y, &kx, v);
        if ex != ey {
            proof {
                assert(!spec_tree_equiv(*x, *y)) by {
                    assert(x.evals(env_of(kx@, v)) != y.evals(env_of(kx@, v)));
                }
            }
            return false;
        }
        v = v + 1;
    }
    proof {
        assert forall|env: spec_fn(char) -> bool| #[trigger] x.evals(env) == y.evals(env) by {
            lemma_mask_of(env, kx@);
            let w = mask_of(env, kx@);
            assert(forall|c: char|
                x.var_set().contains(c) ==> #[trigger] env_of(kx@, w)(c) == env(c));
            assert(forall|c: char|
                y.var_set().contains(c) ==> #[trigger] env_of(kx@, w)(c) == env(c));
            lemma_evals_depends_on_vars(*x, env, env_of(kx@, w));
            lemma_evals_depends_on_vars(*y, env, env_of(kx@, w));
            assert(x.evals(env_of(kx@, w)) == y.evals(env_of(kx@, w)));
        }
    }
    true
}

/// The factoring rule at one node: on `(a·x) ∘ (a·y)`, where `·` and `∘` are
/// dual junctions and the common factor is detected by semantic equality in
/// any of the four operand positions, the node becomes `a · (x ∘ y)`; any
/// other node is left alone.
pub open spec fn factor_spec(t: BoolNode, bt: BoolType) -> BoolNode {
    let inv = dual_type(bt);
    if t.boolean_type == inv && t.left is Some && t.right is Some && t.lc().boolean_type == bt
        && t.rc().boolean_type == bt && t.lc().left is Some && t.lc().right is Some
        && t.rc().left is Some && t.rc().right is Some {
        let ll = t.lc().lc();
        let lr = t.lc().rc();
        let rl = t.rc().lc();
        let rr = t.rc().rc();
        if spec_tree_equiv(ll, rl) {
            mk_bin(bt, ll, mk_bin(inv, lr, rr))
        } else if spec_tree_equiv(ll, rr) {
            mk_bin(bt, ll, mk_bin(inv, lr, rl))
        } else if spec_tree_equiv(lr, rl) {
            mk_bin(bt, lr, mk_bin(inv, ll, rr))
        } else if spec_tree_equiv(lr, rr) {
            mk_bin(bt, lr, mk_bin(inv, ll, rl))
        } else {
            t
        }
    } else {
        t
    }
}

/// Factoring keeps the tree well formed and keeps its truth value under
/// every assignment: a junction distributes over its dual.
proof fn lemma_factor_props(t: BoolNode, bt: BoolType)
    requires
        t.wf(),
        bt is Conjunction || bt is Disjunction,
    ensures
        factor_spec(t, bt).wf(),
        forall|env: spec_fn(char) -> bool| #[trigger] factor_spec(t, bt).evals(env) == t.evals(
            env,
        ),
{
    let inv = dual_type(bt);
    if t.boolean_type == inv && t.left is Some && t.right is Some && t.lc().boolean_type == bt
        && t.rc().boolean_type == bt && t.lc().left is Some && t.lc().right is Some
        && t.rc().left is Some && t.rc().right is Some {
        lemma_wf_children(t);
        lemma_wf_children(t.lc());
        lemma_wf_children(t.rc());
        let ll = t.lc().lc();
        let lr = t.lc().rc();
        let rl = t.rc().lc();
        let rr = t.rc().rc();
        assert(ll.wf() && lr.wf() && rl.wf() && rr.wf());
        let res = factor_spec(t, bt);
        if spec_tree_equiv(ll, rl) || spec_tree_equiv(ll, rr) || spec_tree_equiv(lr, rl)
            || spec_tree_equiv(lr, rr) {
            assert(res.wf()) by {
                assert(mk_bin(inv, lr, rr).wf());
                assert(mk_bin(inv, lr, rl).wf());
                assert(mk_bin(inv, ll, rr).wf());
                assert(mk_bin(inv, ll, rl).wf());
            }
            assert forall|env: spec_fn(char) -> bool| #[trigger] res.evals(env) == t.evals(
                env,
            ) by {
                assert(t.evals(env) == (if inv is Conjunction {
                    t.lc().evals(env) && t.rc().evals(env)
                } else {
                    t.lc().evals(env) || t.rc().evals(env)
                }));
                assert(t.lc().evals(env) == (if bt is Conjunction {
                    ll.evals(env) && lr.evals(env)
                } else {
                    ll.evals(env) || lr.evals(env)
                }));
                assert(t.rc().evals(env) == (if bt is Conjunction {
                    rl.evals(env) && rr.evals(env)
                } else {
                    rl.evals(env) || rr.evals(env)
                }));
                if spec_tree_equiv(ll, rl) {
                    assert(ll.evals(env) == rl.evals(env));
                    assert(res.rc() == mk_bin(inv, lr, rr));
                    assert(res.rc().evals(env) == (if inv is Conjunction {
                        lr.evals(env) && rr.evals(env)
                    } else {
                        lr.evals(env) || rr.evals(env)
                    }));
                } else if spec_tree_equiv(ll, rr) {
                    assert(ll.evals(env) == rr.evals(env));
                    assert(res.rc() == mk_bin(inv, lr, rl));
                    assert(res.rc().evals(env) == (if inv is Conjunction {
                        lr.evals(env) && rl.evals(env)
                    } else {
                        lr.evals(env) || rl.evals(env)
                    }));
                } else if spec_tree_equiv(lr, rl) {
                    assert(lr.evals(env) == rl.evals(env));
                    assert(res.rc() == mk_bin(inv, ll, rr));
                    assert(res.rc().evals(env) == (if inv is Conjunction {
                        ll.evals(env) && rr.evals(env)
                    } else {
                        ll.evals(env) || rr.evals(env)
                    }));
                } else {
                    assert(lr.evals(env) == rr.evals(env));
                    assert(res.rc() == mk_bin(inv, ll, rl));
                    assert(res.rc().evals(env) == (if inv is Conjunction {
                        ll.evals(env) && rl.evals(env)
                    } else {
                        ll.evals(env) || rl.evals(env)
                    }));
                }
            }
        }
    }
}

impl BoolNode {
    /// Factors the common operand out of two dual junctions: on
    /// `(a·x) ∘ (a·y)` the node becomes `a · (x ∘ y)`, the common factor
    /// recognised by semantic equality in any of the four operand positions.
    /// A no-op on any other node; the truth value is kept under every
    /// assignment.
    pub fn factor(&mut self, boolean_type: BoolType)
        requires
            old(self).wf(),
            boolean_type is Conjunction || boolean_type is Disjunction,
        ensures
            *final(self) == factor_spec(*old(self), boolean_type),
            final(self).wf(),
            forall|env: spec_fn(char) -> bool| #[trigger] final(self).evals(env) == old(
                self,
            ).evals(env),
    {
        proof {
            lemma_factor_props(*old(self), boolean_type);
        }
        let bt = boolean_type;
        let inverse = if bt == BoolType::Conjunction {
            BoolType::Disjunction
        } else {
            BoolType::Conjunction
        };
        if self.boolean_type != inverse {
            return ;
        }
        let applies = match (&self.left, &self.right) {
            (Some(l), Some(r)) => l.boolean_type == bt && r.boolean_type == bt,
            _ => false,
        };
        if !applies {
            return ;
        }
        proof {
            lemma_wf_children(*old(self));
            lemma_wf_children(old(self).lc());
            lemma_wf_children(old(self).rc());
        }
        let mut l = self.left.take().unwrap();
        let mut r = self.right.take().unwrap();
        let lsym = l.op_symbol;
        let ll = l.left.take().unwrap();
        let lr = l.right.take().unwrap();
        let rl = r.left.take().unwrap();
        let rr = r.right.take().unwrap();
        let (common, term_a, term_b) = if tree_equivalent(&*ll, &*rl) {
            (ll, lr, rr)
        } else if tree_equivalent(&*ll, &*rr) {
            (ll, lr, rl)
        } else if tree_equivalent(&*lr, &*rl) {
            (lr, ll, rr)
        } else if tree_equivalent(&*lr, &*rr) {
            (lr, ll, rl)
        } else {
            // No common factor: put the node back together unchanged.
            let lb = BoolNode {
                boolean_type: bt,
                op_symbol: lsym,
                left: Some(ll),
                right: Some(lr),
            };
            let rb = BoolNode {
                boolean_type: bt,
                op_symbol: lsym,
                left: Some(rl),
                right: Some(rr),
            };
            self.left = Some(Box::new(lb));
            self.right = Some(Box::new(rb));
            proof {
                assert(*self == *old(self));
            }
            return ;
        };
        let isym = type_symbol(inverse);
        let bsym = type_symbol(bt);
        let new_right = BoolNode {
            boolean_type: inverse,
            op_symbol: isym,
            left: Some(term_a),
            right: Some(term_b),
        };
        *self = BoolNode {
            boolean_type: bt,
            op_symbol: bsym,
            left: Some(common),
            right: Some(Box::new(new_right)),
        };
    }

    /// Rewrites a disjunction by distributing it over the conjunctions below
    /// it, then factors a common conjunction operand back out.
    pub fn replace_disjunction(&mut self)
        requires
            old(self).wf(),
        ensures
            *final(self) == factor_spec(
                distribute_spec(*old(self), BoolType::Disjunction),
                BoolType::Conjunction,
            ),
            final(self).wf(),
            forall|env: spec_fn(char) -> bool| #[trigger] final(self).evals(env) == old(
                self,
            ).evals(env),
    {
        self.distribute(BoolType::Disjunction);
        self.factor(BoolType::Conjunction);
    }

    /// Rewrites a conjunction by distributing it over the disjunctions below
    /// it, then factors a common disjunction operand back out.
    pub fn replace_conjunction(&mut self)
        requires
            old(self).wf(),
        ensures
            *final(self) == factor_spec(
                distribute_spec(*old(self), BoolType::Conjunction),
                BoolType::Disjunction,
            ),
            final(self).wf(),
            forall|env: spec_fn(char) -> bool| #[trigger] final(self).evals(env) == old(
                self,
            ).evals(env),
    {
        self.distribute(BoolType::Conjunction);
        self.factor(BoolType::Disjunction);
    }
}

/// Applies one rule at every node, the children before the node, as the
/// original post-order traversal visits them.
pub open spec fn post_order_spec(t: BoolNode, r: Rule) -> BoolNode
    decreases t,
{
    let u = BoolNode {
        boolean_type: t.boolean_type,
        op_symbol: t.op_symbol,
        left: match t.left {
            None => None,
            Some(l) => Some(Box::new(post_order_spec(*l, r))),
        },
        right: match t.right {
            None => None,
            Some(rr) => Some(Box::new(post_order_spec(*rr, r))),
        },
    };
    apply_rule_spec(u, r)
}

/// A whole post-order pass keeps the tree well formed and keeps its truth
/// value under every assignment.
pub proof fn lemma_post_order_props(t: BoolNode, r: Rule)
    requires
        t.wf(),
    ensures
        post_order_spec(t, r).wf(),
        forall|env: spec_fn(char) -> bool| #[trigger] post_order_spec(t, r).evals(env) == t.evals(
            env,
        ),
    decreases t,
{
    lemma_wf_children(t);
    if t.left is Some {
        lemma_post_order_props(t.lc(), r);
    }
    if t.right is Some {
        lemma_post_order_props(t.rc(), r);
    }
    let u = BoolNode {
        boolean_type: t.boolean_type,
        op_symbol: t.op_symbol,
        left: match t.left {
            None => None,
            Some(l) => Some(Box::new(post_order_spec(*l, r))),
        },
        right: match t.right {
            None => None,
            Some(rr) => Some(Box::new(post_order_spec(*rr, r))),
        },
    };
    assert(u.wf());
    lemma_apply_rule_props(u, r);
    assert forall|env: spec_fn(char) -> bool| #[trigger] post_order_spec(t, r).evals(env)
        == t.evals(env) by {
        if t.left is Some {
            assert(u.lc().evals(env) == t.lc().evals(env));
        }
        if t.right is Some {
            assert(u.rc().evals(env) == t.rc().evals(env));
        }
        assert(u.evals(env) == t.evals(env));
        assert(post_order_spec(t, r).evals(env) == u.evals(env));
    }
}

impl BoolNode {
    /// Applies the rule to every node below this one first, then to the node
    /// itself. The rewritten tree stays well formed and keeps its truth value
    /// under every assignment.
    pub fn post_order(&mut self, rule: Rule)
        requires
            old(self).wf(),
        ensures
            *final(self) == post_order_spec(*old(self), rule),
            final(self).wf(),
            forall|env: spec_fn(char) -> bool| #[trigger] final(self).evals(env) == old(
                self,
            ).evals(env),
        decreases old(self).size(),
    {
        proof {
            lemma_post_order_props(*old(self), rule);
            lemma_wf_children(*old(self));
            lemma_child_measures(*old(self), BoolType::Variable);
        }
        match self.left.take() {
            None => {},
            Some(mut l) => {
                l.post_order(rule);
                self.left = Some(l);
            },
        }
        match self.right.take() {
            None => {},
            Some(mut r) => {
                r.post_order(rule);
                self.right = Some(r);
            },
        }
        proof {
            assert(self.wf());
        }
        self.apply_rule(rule);
    }
}

/// A count clipped to what a machine word can hold.
pub open spec fn capped(n: nat) -> nat {
    if n > 0xFFFF_FFFF_FFFF_FFFF {
        0xFFFF_FFFF_FFFF_FFFFnat
    } else {
        n
    }
}

/// The tree's size, clipped to a machine word.
fn size_sat(t: &BoolNode) -> (r: u64)
    ensures
        r == capped(t.size()),
    decreases *t,
{
    let l: u64 = match &t.left {
        Some(l) => size_sat(l),
        None => 0,
    };
    let r: u64 = match &t.right {
        Some(rr) => size_sat(rr),
        None => 0,
    };
    let s: u64 = if l > u64::MAX - r {
        u64::MAX
    } else {
        l + r
    };
    let s2: u64 = if s == u64::MAX {
        u64::MAX
    } else {
        s + 1
    };
    proof {
        assert(t.size() == 1 + opt_size(t.left) + opt_size(t.right));
    }
    s2
}

/// The count of nodes of a kind, clipped to a machine word.
fn count_sat(t: &BoolNode, k: BoolType) -> (r: u64)
    ensures
        r == capped(t.count_type(k)),
    decreases *t,
{
    let l: u64 = match &t.left {
        Some(l) => count_sat(l, k),
        None => 0,
    };
    let r: u64 = match &t.right {
        Some(rr) => count_sat(rr, k),
        None => 0,
    };
    let own: u64 = if t.boolean_type == k {
        1
    } else {
        0
    };
    let s: u64 = if l > u64::MAX - r {
        u64::MAX
    } else {
        l + r
    };
    let s2: u64 = if s > u64::MAX - own {
        u64::MAX
    } else {
        s + own
    };
    proof {
        assert(t.count_type(k) == (if t.boolean_type == k {
            1nat
        } else {
            0nat
        }) + opt_count(t.left, k) + opt_count(t.right, k));
    }
    s2
}

/// The traversal measure, clipped to a machine word.
fn weight_sat(t: &BoolNode, r: Rule) -> (w: u64)
    ensures
        w == capped(rule_weight(*t, r)),
{
    match r {
        Rule::ReplaceLogicalEquivalence => count_sat(t, BoolType::LogicalEquivalence),
        Rule::ReplaceExclusiveDisjunction => count_sat(t, BoolType::ExclusiveDisjunction),
        _ => 0,
    }
}

/// Whether an in-order walk may follow the node's rewrite into its right
/// child: the child must weigh strictly less than the node did before the
/// walk, in the traversal's measure. A rewrite that duplicated subtrees can
/// leave a heavier child; the walk ends there.
pub open spec fn in_order_guard(t: BoolNode, rr: BoolNode, r: Rule) -> bool {
    &&& capped(rule_weight(t, r)) < 0xFFFF_FFFF_FFFF_FFFF
    &&& capped(t.size()) < 0xFFFF_FFFF_FFFF_FFFF
    &&& (capped(rule_weight(rr, r)) < capped(rule_weight(t, r)) || (capped(rule_weight(rr, r))
        == capped(rule_weight(t, r)) && capped(rr.size()) < capped(t.size())))
}

/// The clipped guard bounds the real measure.
proof fn lemma_in_order_guard(t: BoolNode, rr: BoolNode, r: Rule)
    requires
        in_order_guard(t, rr, r),
    ensures
        rule_weight(rr, r) < rule_weight(t, r) || (rule_weight(rr, r) == rule_weight(t, r)
            && rr.size() < t.size()),
{
}

/// Applies one rule at every node: the left subtree first, then the node,
/// then whatever stands as the right child after the rewrite, as long as the
/// rewrite left it lighter than the node was.
pub open spec fn in_order_spec(t: BoolNode, r: Rule) -> BoolNode
    decreases rule_weight(t, r), t.size() via in_order_spec_dec
{
    let t1 = BoolNode {
        boolean_type: t.boolean_type,
        op_symbol: t.op_symbol,
        left: match t.left {
            None => None,
            Some(l) => Some(Box::new(in_order_spec(*l, r))),
        },
        right: t.right,
    };
    let t2 = apply_rule_spec(t1, r);
    match t2.right {
        None => t2,
        Some(rr) => if in_order_guard(t, *rr, r) {
            BoolNode {
                boolean_type: t2.boolean_type,
                op_symbol: t2.op_symbol,
                left: t2.left,
                right: Some(Box::new(in_order_spec(*rr, r))),
            }
        } else {
            t2
        },
    }
}

#[via_fn]
proof fn in_order_spec_dec(t: BoolNode, r: Rule) {
    lemma_child_measures(t, rule_target(r));
    assert forall|rr: BoolNode| #[trigger] in_order_guard(t, rr, r) implies rule_weight(rr, r)
        < rule_weight(t, r) || (rule_weight(rr, r) == rule_weight(t, r) && rr.size()
        < t.size()) by {
        lemma_in_order_guard(t, rr, r);
    }
}

/// A whole in-order pass keeps the tree well formed and keeps its truth
/// value under every assignment.
pub proof fn lemma_in_order_props(t: BoolNode, r: Rule)
    requires
        t.wf(),
    ensures
        in_order_spec(t, r).wf(),
        forall|env: spec_fn(char) -> bool| #[trigger] in_order_spec(t, r).evals(env) == t.evals(
            env,
        ),
    decreases rule_weight(t, r), t.size(),
{
    lemma_wf_children(t);
    lemma_child_measures(t, rule_target(r));
    if t.left is Some {
        lemma_in_order_props(t.lc(), r);
    }
    let t1 = BoolNode {
        boolean_type: t.boolean_type,
        op_symbol: t.op_symbol,
        left: match t.left {
            None => None,
            Some(l) => Some(Box::new(in_order_spec(*l, r))),
        },
        right: t.right,
    };
    assert(t1.wf());
    lemma_apply_rule_props(t1, r);
    let t2 = apply_rule_spec(t1, r);
    assert forall|env: spec_fn(char) -> bool| #[trigger] t1.evals(env) == t.evals(env) by {
        if t.left is Some {
            assert(t1.lc().evals(env) == t.lc().evals(env));
        }
    }
    match t2.right {
        None => {},
        Some(rr) => {
            if in_order_guard(t, *rr, r) {
                lemma_in_order_guard(t, *rr, r);
                lemma_wf_children(t2);
                lemma_in_order_props(*rr, r);
                let res = in_order_spec(t, r);
                assert(res.wf());
                assert forall|env: spec_fn(char) -> bool| #[trigger] res.evals(env) == t.evals(
                    env,
                ) by {
                    assert(res.rc().evals(env) == t2.rc().evals(env));
                    assert(res.evals(env) == t2.evals(env));
                }
            }
        },
    }
}

impl BoolNode {
    /// Applies the rule between the two subtrees: the left subtree first,
    /// then the node itself, then whatever stands as the right child after
    /// the rewrite, as long as the rewrite left it lighter than the node was.
    /// The rewritten tree stays well formed and keeps its truth value under
    /// every assignment.
    pub fn in_order(&mut self, rule: Rule)
        requires
            old(self).wf(),
        ensures
            *final(self) == in_order_spec(*old(self), rule),
            final(self).wf(),
            forall|env: spec_fn(char) -> bool| #[trigger] final(self).evals(env) == old(
                self,
            ).evals(env),
        decreases rule_weight(*old(self), rule), old(self).size(),
    {
        proof {
            lemma_in_order_props(*old(self), rule);
            lemma_wf_children(*old(self));
            lemma_child_measures(*old(self), rule_target(rule));
        }
        let w_t = weight_sat(self, rule);
        let s_t = size_sat(self);
        match self.left.take() {
            None => {},
            Some(mut l) => {
                l.in_order(rule);
                self.left = Some(l);
            },
        }
        proof {
            assert(self.wf());
        }
        self.apply_rule(rule);
        proof {
            lemma_wf_children(*self);
        }
        match self.right.take() {
            None => {},
            Some(mut rr) => {
                let w_rr = weight_sat(&rr, rule);
                let s_rr = size_sat(&rr);
                if w_t < u64::MAX && s_t < u64::MAX && (w_rr < w_t || (w_rr == w_t && s_rr
                    < s_t)) {
                    proof {
                        lemma_in_order_guard(*old(self), *rr, rule);
                    }
                    rr.in_order(rule);
                }
                self.right = Some(rr);
            },
        }
    }
}

/// The visiting order a one-sided walk hands to its side of the tree.
#[derive(Clone, Copy, Debug, PartialEq, Eq, Structural)]
pub enum Walk {
    Pre,
    In,
    Post,
}

/// The pass a walk stands for.
pub open spec fn walk_spec(t: BoolNode, r: Rule, w: Walk) -> BoolNode {
    match w {
        Walk::Pre => pre_order_spec(t, r),
        Walk::In => in_order_spec(t, r),
        Walk::Post => post_order_spec(t, r),
    }
}

/// Runs the chosen walk over every child hanging off one side of the spine:
/// descending the other side, each child of the chosen side is rewritten by
/// the walk. The node itself is never rewritten.
pub open spec fn side_order_spec(t: BoolNode, r: Rule, w: Walk, is_left: bool) -> BoolNode
    decreases t,
{
    BoolNode {
        boolean_type: t.boolean_type,
        op_symbol: t.op_symbol,
        left: match t.left {
            None => None,
            Some(l) => Some(
                Box::new(
                    if is_left {
                        walk_spec(*l, r, w)
                    } else {
                        side_order_spec(*l, r, w, is_left)
                    },
                ),
            ),
        },
        right: match t.right {
            None => None,
            Some(rr) => Some(
                Box::new(
                    if !is_left {
                        walk_spec(*rr, r, w)
                    } else {
                        side_order_spec(*rr, r, w, is_left)
                    },
                ),
            ),
        },
    }
}

/// A one-sided walk keeps the tree well formed and keeps its truth value
/// under every assignment.
pub proof fn lemma_side_order_props(t: BoolNode, r: Rule, w: Walk, is_left: bool)
    requires
        t.wf(),
    ensures
        side_order_spec(t, r, w, is_left).wf(),
        forall|env: spec_fn(char) -> bool| #[trigger] side_order_spec(t, r, w, is_left).evals(env)
            == t.evals(env),
    decreases t,
{
    lemma_wf_children(t);
    let res = side_order_spec(t, r, w, is_left);
    if t.left is Some {
        if is_left {
            lemma_pre_order_props(t.lc(), r);
            lemma_in_order_props(t.lc(), r);
            lemma_post_order_props(t.lc(), r);
        } else {
            lemma_side_order_props(t.lc(), r, w, is_left);
        }
    }
    if t.right is Some {
        if !is_left {
            lemma_pre_order_props(t.rc(), r);
            lemma_in_order_props(t.rc(), r);
            lemma_post_order_props(t.rc(), r);
        } else {
            lemma_side_order_props(t.rc(), r, w, is_left);
        }
    }
    assert(res.wf());
    assert forall|env: spec_fn(char) -> bool| #[trigger] res.evals(env) == t.evals(env) by {
        if t.left is Some {
            assert(res.lc().evals(env) == t.lc().evals(env));
        }
        if t.right is Some {
            assert(res.rc().evals(env) == t.rc().evals(env));
        }
    }
}

impl BoolNode {
    /// Runs the chosen walk on one side of this node: descending the spine of
    /// the other side, every child hanging off the chosen side is rewritten
    /// by the walk; the node itself is left alone.
    pub fn side_order(&mut self, rule: Rule, walk: Walk, is_left: bool)
        requires
            old(self).wf(),
        ensures
            *final(self) == side_order_spec(*old(self), rule, walk, is_left),
            final(self).wf(),
            forall|env: spec_fn(char) -> bool| #[trigger] final(self).evals(env) == old(
                self,
            ).evals(env),
        decreases old(self).size(),
    {
        proof {
            lemma_side_order_props(*old(self), rule, walk, is_left);
            lemma_wf_children(*old(self));
            lemma_child_measures(*old(self), rule_target(rule));
        }
        match self.left.take() {
            None => {},
            Some(mut l) => {
                if is_left {
                    match walk {
                        Walk::Pre => l.pre_order(rule),
                        Walk::In => l.in_order(rule),
                        Walk::Post => l.post_order(rule),
                    }
                } else {
                    l.side_order(rule, walk, is_left);
                }
                self.left = Some(l);
            },
        }
        match self.right.take() {
            None => {},
            Some(mut r) => {
                if !is_left {
                    match walk {
                        Walk::Pre => r.pre_order(rule),
                        Walk::In => r.in_order(rule),
                        Walk::Post => r.post_order(rule),
                    }
                } else {
                    r.side_order(rule, walk, is_left);
                }
                self.right = Some(r);
            },
        }
    }
}

/// Only variable letters stand in a well-formed tree's variable set.
proof fn lemma_var_set_symbols(t: BoolNode, c: char)
    requires
        t.wf(),
        t.var_set().contains(c),
    ensures
        is_variable_symbol(c),
    decreases t,
{
    lemma_wf_children(t);
    if t.boolean_type is Variable {
    } else {
        match t.left {
            Some(l) => {
                if l.var_set().contains(c) {
                    lemma_var_set_symbols(*l, c);
                }
            },
            None => {},
        }
        match t.right {
            Some(r) => {
                if r.var_set().contains(c) {
                    lemma_var_set_symbols(*r, c);
                }
            },
            None => {},
        }
    }
}

/// Parses the longest reverse Polish subformula that ends just before `end`,
/// reading right to left, and gives back the tree with the index where it
/// starts. `Err(EmptyFormula)` stands for running out of characters; a parent
/// operation turns that into its own missing-operand error.
pub open spec fn spec_parse(s: Seq<char>, end: int) -> Result<(BoolNode, int), AstError>
    decreases end,
{
    if end <= 0 {
        Err(AstError::EmptyFormula)
    } else {
        let c = s[end - 1];
        if !is_op_symbol(c) {
            Err(AstError::InvalidSymbol(c))
        } else {
            let t = spec_symbol_type(c);
            if t is Variable {
                Ok(
                    (
                        BoolNode {
                            boolean_type: t,
                            op_symbol: c,
                            left: None,
                            right: None,
                        },
                        end - 1,
                    ),
                )
            } else if t is Negation {
                match spec_parse(s, end - 1) {
                    Err(AstError::EmptyFormula) => Err(AstError::MissingOperand(t)),
                    Err(e) => Err(e),
                    Ok((child, i)) => Ok(
                        (
                            BoolNode {
                                boolean_type: t,
                                op_symbol: c,
                                left: Some(Box::new(child)),
                                right: None,
                            },
                            i,
                        ),
                    ),
                }
            } else {
                match spec_parse(s, end - 1) {
                    Err(AstError::EmptyFormula) => Err(AstError::MissingOperand(t)),
                    Err(e) => Err(e),
                    Ok((r, j)) => if 0 <= j < end - 1 {
                        // A parse only ever consumes characters, so the bound
                        // always holds; it keeps the recursion visibly finite.
                        match spec_parse(s, j) {
                            Err(AstError::EmptyFormula) => Err(AstError::MissingOperand(t)),
                            Err(e) => Err(e),
                            Ok((l, i)) => Ok(
                                (
                                    BoolNode {
                                        boolean_type: t,
                                        op_symbol: c,
                                        left: Some(Box::new(l)),
                                        right: Some(Box::new(r)),
                                    },
                                    i,
                                ),
                            ),
                        }
                    } else {
                        Err(AstError::EmptyFormula)
                    },
                }
            }
        }
    }
}

/// A parsed subtree is well formed, its formula is exactly the characters it
/// consumed, and it consumed at least one of them.
pub proof fn lemma_parse_props(s: Seq<char>, end: int)
    requires
        end <= s.len(),
        spec_parse(s, end) is Ok,
    ensures
        ({
            let (node, i) = spec_parse(s, end)->Ok_0;
            &&& 0 <= i < end
            &&& node.wf()
            &&& node.formula() =~= s.subrange(i, end)
        }),
    decreases end,
{
    let (node, i) = spec_parse(s, end)->Ok_0;
    let c = s[end - 1];
    let t = spec_symbol_type(c);
    if t is Variable {
    } else if t is Negation {
        let (child, ci) = spec_parse(s, end - 1)->Ok_0;
        lemma_parse_props(s, end - 1);
        assert(node.formula() =~= s.subrange(ci, end));
    } else {
        let (r, j) = spec_parse(s, end - 1)->Ok_0;
        lemma_parse_props(s, end - 1);
        let (l, li) = spec_parse(s, j)->Ok_0;
        lemma_parse_props(s, j);
        assert(node.formula() =~= s.subrange(li, end));
    }
}

/// Reads one character of an ASCII-checked position.
fn char_at(s: &str, i: usize) -> (c: char)
    requires
        i < s@.len(),
    ensures
        c == s@[i as int],
{
    s.get_char(i)
}

/// Classifies a formula character, or reports that it is not a valid one.
fn symbol_type(c: char) -> (r: Result<BoolType, AstError>)
    ensures
        is_op_symbol(c) ==> r == Ok::<BoolType, AstError>(spec_symbol_type(c)),
        !is_op_symbol(c) ==> r == Err::<BoolType, AstError>(AstError::InvalidSymbol(c)),
{
    let u = c as u32;
    if 'A' as u32 <= u && u <= 'Z' as u32 {
        Ok(BoolType::Variable)
    } else if c == '!' {
        Ok(BoolType::Negation)
    } else if c == '&' {
        Ok(BoolType::Conjunction)
    } else if c == '|' {
        Ok(BoolType::Disjunction)
    } else if c == '^' {
        Ok(BoolType::ExclusiveDisjunction)
    } else if c == '>' {
        Ok(BoolType::MaterialCondition)
    } else if c == '=' {
        Ok(BoolType::LogicalEquivalence)
    } else {
        Err(AstError::InvalidSymbol(c))
    }
}

/// The formula character of an operator kind.
fn type_symbol(t: BoolType) -> (c: char)
    requires
        !(t is Variable),
    ensures
        c == spec_type_symbol(t),
{
    match t {
        BoolType::Negation => '!',
        BoolType::Conjunction => '&',
        BoolType::Disjunction => '|',
        BoolType::ExclusiveDisjunction => '^',
        BoolType::MaterialCondition => '>',
        BoolType::LogicalEquivalence => '=',
        BoolType::Variable => '?',
    }
}

/// Parses the subformula ending just before `end`, right to left.
fn parse_upto(s: &str, end: usize) -> (r: Result<(BoolNode, usize), AstError>)
    requires
        end <= s@.len(),
    ensures
        match r {
            Ok((node, i)) => spec_parse(s@, end as int) == Ok::<(BoolNode, int), AstError>(
                (node, i as int),
            ),
            Err(e) => spec_parse(s@, end as int) == Err::<(BoolNode, int), AstError>(e),
        },
    decreases end,
{
    if end == 0 {
        return Err(AstError::EmptyFormula);
    }
    let c = char_at(s, end - 1);
    let t = match symbol_type(c) {
        Ok(t) => t,
        Err(e) => {
            return Err(e);
        },
    };
    match t {
        BoolType::Variable => Ok(
            (
                BoolNode {
                    boolean_type: t,
                    op_symbol: c,
                    left: None,
                    right: None,
                },
                end - 1,
            ),
        ),
        BoolType::Negation => {
            match parse_upto(s, end - 1) {
                Err(AstError::EmptyFormula) => Err(AstError::MissingOperand(t)),
                Err(e) => Err(e),
                Ok((child, i)) => Ok(
                    (
                        BoolNode {
                            boolean_type: t,
                            op_symbol: c,
                            left: Some(Box::new(child)),
                            right: None,
                        },
                        i,
                    ),
                ),
            }
        },
        _ => {
            match parse_upto(s, end - 1) {
                Err(AstError::EmptyFormula) => Err(AstError::MissingOperand(t)),
                Err(e) => Err(e),
                Ok((r_child, j)) => {
                    proof {
                        lemma_parse_props(s@, end - 1);
                    }
                    match parse_upto(s, j) {
                        Err(AstError::EmptyFormula) => Err(AstError::MissingOperand(t)),
                        Err(e) => Err(e),
                        Ok((l_child, i)) => Ok(
                            (
                                BoolNode {
                                    boolean_type: t,
                                    op_symbol: c,
                                    left: Some(Box::new(l_child)),
                                    right: Some(Box::new(r_child)),
                                },
                                i,
                            ),
                        ),
                    }
                },
            }
        },
    }
}

/// What `BoolNode::tree` returns on a formula: the parsed tree, or the first
/// error the right-to-left reading meets.
pub open spec fn spec_tree(s: Seq<char>) -> Result<BoolNode, AstError> {
    match spec_parse(s, s.len() as int) {
        Err(e) => Err(e),
        Ok((node, i)) => if i == 0 {
            Ok(node)
        } else {
            Err(AstError::UnusedOperands)
        },
    }
}

/// Appends one character to an output string.
///
/// Relies on `String::push`: it appends exactly the one character.
#[verifier::external_body]
pub(crate) fn push_char(s: &mut String, c: char)
    ensures
        final(s)@ == old(s)@.push(c),
{
    s.push(c)
}

impl BoolNode {
    /// Builds the tree of a reverse Polish formula. Succeeds exactly on the
    /// well-formed formulas, and the tree prints back as the input: parsing
    /// and `to_formula` are mutually inverse.
    pub fn tree(formula: &str) -> (r: Result<BoolNode, AstError>)
        ensures
            r == spec_tree(formula@),
            r matches Ok(node) ==> node.wf() && node.formula() == formula@,
    {
        let n = formula.unicode_len();
        let parsed = parse_upto(formula, n);
        match parsed {
            Err(e) => Err(e),
            Ok((node, i)) => {
                if i == 0 {
                    proof {
                        lemma_parse_props(formula@, n as int);
                        assert(node.formula() =~= formula@.subrange(0, n as int));
                        assert(formula@.subrange(0, n as int) =~= formula@);
                    }
                    Ok(node)
                } else {
                    Err(AstError::UnusedOperands)
                }
            },
        }
    }

    /// Writes the node's formula after whatever is already in `out`.
    fn append_formula(&self, out: &mut String)
        requires
            self.wf(),
        ensures
            final(out)@ == old(out)@ + self.formula(),
        decreases *self,
    {
        if let Some(l) = &self.left {
            l.append_formula(out);
        }
        if let Some(r) = &self.right {
            r.append_formula(out);
        }
        push_char(out, self.op_symbol);
        proof {
            assert(final(out)@ =~= old(out)@ + self.formula());
        }
    }

    /// Serialises the tree back to its reverse Polish formula.
    pub fn to_formula(&self) -> (r: String)
        requires
            self.wf(),
        ensures
            r@ == self.formula(),
    {
        let mut out = String::new();
        self.append_formula(&mut out);
        proof {
            assert(out@ =~= self.formula());
        }
        out
    }

    /// A deep copy of the tree.
    fn duplicate(&self) -> (res: BoolNode)
        ensures
            res == *self,
        decreases *self,
    {
        BoolNode {
            boolean_type: self.boolean_type,
            op_symbol: self.op_symbol,
            left: match &self.left {
                None => None,
                Some(l) => Some(Box::new(l.duplicate())),
            },
            right: match &self.right {
                None => None,
                Some(r) => Some(Box::new(r.duplicate())),
            },
        }
    }

    /// Rewrites `a = b` into `(a > b) & (b > a)` at this node; a no-op on any
    /// other kind of node.
    pub fn replace_logical_equivalence(&mut self)
        requires
            old(self).wf(),
        ensures
            *final(self) == step_equivalence(*old(self)),
            final(self).wf(),
    {
        proof {
            lemma_apply_rule_props(*old(self), Rule::ReplaceLogicalEquivalence);
        }
        if self.boolean_type == BoolType::LogicalEquivalence {
            let l = self.left.take().unwrap();
            let r = self.right.take().unwrap();
            let lcopy = l.duplicate();
            let rcopy = r.duplicate();
            let new_left = BoolNode {
                boolean_type: BoolType::MaterialCondition,
                op_symbol: '>',
                left: Some(l),
                right: Some(r),
            };
            let new_right = BoolNode {
                boolean_type: BoolType::MaterialCondition,
                op_symbol: '>',
                left: Some(Box::new(rcopy)),
                right: Some(Box::new(lcopy)),
            };
            *self = BoolNode {
                boolean_type: BoolType::Conjunction,
                op_symbol: '&',
                left: Some(Box::new(new_left)),
                right: Some(Box::new(new_right)),
            };
        }
    }

    /// Rewrites `a > b` into `!a | b` at this node; a no-op on any other kind
    /// of node.
    pub fn replace_material_condition(&mut self)
        requires
            old(self).wf(),
        ensures
            *final(self) == step_material(*old(self)),
            final(self).wf(),
    {
        proof {
            lemma_apply_rule_props(*old(self), Rule::ReplaceMaterialCondition);
        }
        if self.boolean_type == BoolType::MaterialCondition {
            let l = self.left.take().unwrap();
            let new_left = BoolNode {
                boolean_type: BoolType::Negation,
                op_symbol: '!',
                left: Some(l),
                right: None,
            };
            self.boolean_type = BoolType::Disjunction;
            self.op_symbol = '|';
            self.left = Some(Box::new(new_left));
        }
    }

    /// Rewrites `a ^ b` into `(a | b) & !(a & b)` at this node; a no-op on
    /// any other kind of node.
    pub fn replace_exclusive_disjunction(&mut self)
        requires
            old(self).wf(),
        ensures
            *final(self) == step_exclusive(*old(self)),
            final(self).wf(),
    {
        proof {
            lemma_apply_rule_props(*old(self), Rule::ReplaceExclusiveDisjunction);
        }
        if self.boolean_type == BoolType::ExclusiveDisjunction {
            let l = self.left.take().unwrap();
            let r = self.right.take().unwrap();
            let lcopy = l.duplicate();
            let rcopy = r.duplicate();
            let new_left = BoolNode {
                boolean_type: BoolType::Disjunction,
                op_symbol: '|',
                left: Some(l),
                right: Some(r),
            };
            let inner = BoolNode {
                boolean_type: BoolType::Conjunction,
                op_symbol: '&',
                left: Some(Box::new(lcopy)),
                right: Some(Box::new(rcopy)),
            };
            let new_right = BoolNode {
                boolean_type: BoolType::Negation,
                op_symbol: '!',
                left: Some(Box::new(inner)),
                right: None,
            };
            *self = BoolNode {
                boolean_type: BoolType::Conjunction,
                op_symbol: '&',
                left: Some(Box::new(new_left)),
                right: Some(Box::new(new_right)),
            };
        }
    }

    /// Removes stacked negations at this node, repeating until the top is no
    /// longer a double negation; a no-op on any other kind of node.
    pub fn eliminate_double_negation(&mut self)
        requires
            old(self).wf(),
        ensures
            *final(self) == strip_double_negation(*old(self)),
            final(self).wf(),
        decreases old(self).size(),
    {
        proof {
            lemma_strip_props(*old(self));
        }
        if self.boolean_type == BoolType::Negation {
            let c = self.left.take().unwrap();
            if c.boolean_type == BoolType::Negation {
                let mut c = c;
                proof {
                    assert(old(self).lc().wf());
                }
                let g = c.left.take().unwrap();
                proof {
                    assert(*g == old(self).lc().lc());
                    assert(old(self).lc().lc().wf());
                    assert(old(self).lc().lc().size() < old(self).size()) by {
                        assert(old(self).size() == 1 + opt_size(old(self).left) + opt_size(
                            old(self).right,
                        ));
                        assert(old(self).lc().size() == 1 + opt_size(old(self).lc().left)
                            + opt_size(old(self).lc().right));
                    }
                }
                *self = *g;
                self.eliminate_double_negation();
            } else {
                self.left = Some(c);
            }
        }
    }

    /// Pushes a negation over a junction inward by De Morgan's law, clearing
    /// any double negation it creates; a no-op on any other kind of node.
    pub fn replace_junction_negation(&mut self)
        requires
            old(self).wf(),
        ensures
            *final(self) == step_junction_negation(*old(self)),
            final(self).wf(),
    {
        proof {
            lemma_apply_rule_props(*old(self), Rule::ReplaceJunctionNegation);
        }
        if self.boolean_type == BoolType::Negation {
            let c = self.left.take().unwrap();
            if c.boolean_type == BoolType::Conjunction || c.boolean_type == BoolType::Disjunction {
                let mut c = c;
                proof {
                    assert(old(self).lc().wf());
                }
                let x = c.left.take().unwrap();
                let y = c.right.take().unwrap();
                let (new_type, new_symbol) = if c.boolean_type == BoolType::Conjunction {
                    (BoolType::Disjunction, '|')
                } else {
                    (BoolType::Conjunction, '&')
                };
                let mut new_left = BoolNode {
                    boolean_type: BoolType::Negation,
                    op_symbol: '!',
                    left: Some(x),
                    right: None,
                };
                let mut new_right = BoolNode {
                    boolean_type: BoolType::Negation,
                    op_symbol: '!',
                    left: Some(y),
                    right: None,
                };
                proof {
                    assert(old(self).lc().wf());
                    assert(new_left == mk_not(old(self).lc().lc()));
                    assert(new_right == mk_not(old(self).lc().rc()));
                    assert(new_left.wf() && new_right.wf());
                }
                new_left.eliminate_double_negation();
                new_right.eliminate_double_negation();
                *self = BoolNode {
                    boolean_type: new_type,
                    op_symbol: new_symbol,
                    left: Some(Box::new(new_left)),
                    right: Some(Box::new(new_right)),
                };
            } else {
                self.left = Some(c);
            }
        }
    }

    /// Applies one rule at this node alone.
    fn apply_rule(&mut self, rule: Rule)
        requires
            old(self).wf(),
        ensures
            *final(self) == apply_rule_spec(*old(self), rule),
            final(self).wf(),
    {
        match rule {
            Rule::ReplaceExclusiveDisjunction => self.replace_exclusive_disjunction(),
            Rule::ReplaceMaterialCondition => self.replace_material_condition(),
            Rule::ReplaceLogicalEquivalence => self.replace_logical_equivalence(),
            Rule::EliminateDoubleNegation => self.eliminate_double_negation(),
            Rule::ReplaceJunctionNegation => self.replace_junction_negation(),
        }
    }

    /// Applies the rule to this node first, then to every node below it. The
    /// rewritten tree stays well formed and keeps its truth value under every
    /// assignment.
    pub fn pre_order(&mut self, rule: Rule)
        requires
            old(self).wf(),
        ensures
            *final(self) == pre_order_spec(*old(self), rule),
            final(self).wf(),
            forall|env: spec_fn(char) -> bool| #[trigger] final(self).evals(env) == old(
                self,
            ).evals(env),
        decreases rule_weight(*old(self), rule), old(self).size(),
    {
        proof {
            lemma_rule_children_measure(*old(self), rule);
            lemma_pre_order_props(*old(self), rule);
        }
        self.apply_rule(rule);
        proof {
            lemma_wf_children(*self);
        }
        match self.left.take() {
            None => {},
            Some(mut l) => {
                l.pre_order(rule);
                self.left = Some(l);
            },
        }
        match self.right.take() {
            None => {},
            Some(mut r) => {
                r.pre_order(rule);
                self.right = Some(r);
            },
        }
    }
}

impl BoolNode {
    /// Rewrites the whole tree into negation normal form: eliminate `=`,
    /// then `>`, then `^`, clear stacked negations, then push the remaining
    /// negations down to the variables. The result keeps the tree's truth
    /// value under every assignment.
    pub fn to_nnf(&mut self)
        requires
            old(self).wf(),
        ensures
            *final(self) == nnf_spec(*old(self)),
            final(self).wf(),
            final(self).is_nnf(),
            forall|env: spec_fn(char) -> bool| #[trigger] final(self).evals(env) == old(
                self,
            ).evals(env),
    {
        proof {
            lemma_nnf_props(*old(self));
        }
        self.pre_order(Rule::ReplaceLogicalEquivalence);
        self.pre_order(Rule::ReplaceMaterialCondition);
        self.pre_order(Rule::ReplaceExclusiveDisjunction);
        self.pre_order(Rule::EliminateDoubleNegation);
        self.pre_order(Rule::ReplaceJunctionNegation);
    }

    /// Decides whether the tree is in negation normal form.
    pub fn negation_normal_form(&self) -> (r: bool)
        requires
            self.wf(),
        ensures
            r == self.is_nnf(),
        decreases *self,
    {
        match self.boolean_type {
            BoolType::Variable => true,
            BoolType::Negation => {
                if let Some(l) = &self.left {
                    l.boolean_type == BoolType::Variable
                } else {
                    false
                }
            },
            BoolType::Conjunction | BoolType::Disjunction => {
                match (&self.left, &self.right) {
                    (Some(l), Some(r)) => l.negation_normal_form() && r.negation_normal_form(),
                    _ => false,
                }
            },
            _ => false,
        }
    }
}

impl Clone for BoolNode {
    /// A deep copy: the clone equals the original tree.
    fn clone(&self) -> (res: Self)
        ensures
            res == *self,
    {
        self.duplicate()
    }
}

} // verus!
