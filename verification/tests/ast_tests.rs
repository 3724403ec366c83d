use rsb_lib::ast::AstError;
use rsb_lib::ast::BoolNode;
use rsb_lib::ast::BoolType;
use rsb_lib::ast::Rule;
use rsb_lib::ast::Walk;
use rsb_lib::conjunctive_normal_form;
use rsb_lib::negation_normal_form;
use rsb_lib::truth::table;

fn truth_diff(left: &str, right: &str) {
    assert_eq!(table(left).unwrap(), table(right).unwrap());
}

#[test]
fn bool_ast_tree_basics() {
    let mut formula = "A";
    let mut ast = BoolNode::tree(formula).unwrap();
    assert_eq!(formula, &ast.to_formula());

    formula = "AB|";
    ast = BoolNode::tree(formula).unwrap();
    assert_eq!(formula, &ast.to_formula());

    formula = "AB&C|";
    ast = BoolNode::tree(formula).unwrap();
    assert_eq!(formula, &ast.to_formula());

    formula = "ABC&|";
    ast = BoolNode::tree(formula).unwrap();
    assert_eq!(formula, &ast.to_formula());

    formula = "AB=";
    ast = BoolNode::tree(formula).unwrap();
    assert_eq!(formula, &ast.to_formula());

    formula = "AB=!";
    ast = BoolNode::tree(formula).unwrap();
    assert_eq!(formula, &ast.to_formula());

    formula = "ABCDEFGH||=&&||!";
    ast = BoolNode::tree(formula).unwrap();
    assert_eq!(formula, &ast.to_formula());

    formula = "ABCDEFGHI>^|=&&||!";
    ast = BoolNode::tree(formula).unwrap();
    assert_eq!(formula, &ast.to_formula());
}

#[test]
fn bool_ast_tree_errors() {
    assert_eq!(BoolNode::tree("").unwrap_err(), AstError::EmptyFormula);
    assert_eq!(BoolNode::tree("ABC|").unwrap_err(), AstError::UnusedOperands);
    assert_eq!(
        BoolNode::tree("!").unwrap_err(),
        AstError::MissingOperand(BoolType::Negation)
    );
    assert_eq!(
        BoolNode::tree("A&").unwrap_err(),
        AstError::MissingOperand(BoolType::Conjunction)
    );
    assert_eq!(BoolNode::tree("ab|").unwrap_err(), AstError::InvalidSymbol('b'));
    assert_eq!(BoolNode::tree("01&").unwrap_err(), AstError::InvalidSymbol('1'));
}

#[test]
fn bool_ast_replace_exclusive_disjunction() {
    let mut formula = "PQ^";
    let mut expected = "PQ|PQ&!&";
    let mut ast = BoolNode::tree(formula).unwrap();
    ast.pre_order(Rule::ReplaceExclusiveDisjunction);
    assert_eq!(ast.to_formula(), expected);
    truth_diff(formula, expected);

    formula = "PQ^A|";
    expected = "PQ|PQ&!&A|";
    ast = BoolNode::tree(formula).unwrap();
    ast.pre_order(Rule::ReplaceExclusiveDisjunction);
    assert_eq!(ast.to_formula(), expected);
    truth_diff(formula, expected);

    formula = "ABCDEFGHI>^|=^^||!";
    ast = BoolNode::tree(formula).unwrap();
    ast.pre_order(Rule::ReplaceExclusiveDisjunction);
    truth_diff(formula, &ast.to_formula());

    formula = "ABCDEFGHI>^^=^^^^!";
    ast = BoolNode::tree(formula).unwrap();
    ast.pre_order(Rule::ReplaceExclusiveDisjunction);
    truth_diff(formula, &ast.to_formula());
}

#[test]
fn bool_ast_replace_material_condition() {
    let mut formula = "AB>";
    let mut expected = "A!B|";
    let mut ast = BoolNode::tree(formula).unwrap();
    ast.pre_order(Rule::ReplaceMaterialCondition);
    assert_eq!(ast.to_formula(), expected);
    truth_diff(formula, expected);

    formula = "ABC|>";
    expected = "A!BC||";
    ast = BoolNode::tree(formula).unwrap();
    ast.pre_order(Rule::ReplaceMaterialCondition);
    assert_eq!(ast.to_formula(), expected);
    truth_diff(formula, expected);

    formula = "AB^CD|>";
    expected = "AB^!CD||";
    ast = BoolNode::tree(formula).unwrap();
    ast.pre_order(Rule::ReplaceMaterialCondition);
    assert_eq!(ast.to_formula(), expected);
    truth_diff(formula, expected);

    formula = "ABCDEFGHI>>^=>>||!";
    ast = BoolNode::tree(formula).unwrap();
    ast.pre_order(Rule::ReplaceMaterialCondition);
    truth_diff(formula, &ast.to_formula());
}

#[test]
fn bool_ast_replace_logical_equivalence() {
    let mut formula = "AB=";
    let mut expected = "AB>BA>&";
    let mut ast = BoolNode::tree(formula).unwrap();
    ast.pre_order(Rule::ReplaceLogicalEquivalence);
    assert_eq!(ast.to_formula(), expected);
    truth_diff(formula, expected);

    formula = "ABC|=";
    expected = "ABC|>BC|A>&";
    ast = BoolNode::tree(formula).unwrap();
    ast.pre_order(Rule::ReplaceLogicalEquivalence);
    assert_eq!(ast.to_formula(), expected);
    truth_diff(formula, expected);

    formula = "AB^CD|=";
    expected = "AB^CD|>CD|AB^>&";
    ast = BoolNode::tree(formula).unwrap();
    ast.pre_order(Rule::ReplaceLogicalEquivalence);
    assert_eq!(ast.to_formula(), expected);
    truth_diff(formula, expected);

    formula = "ABCDEFGHI>==^====!";
    ast = BoolNode::tree(formula).unwrap();
    ast.pre_order(Rule::ReplaceMaterialCondition);
    truth_diff(formula, &ast.to_formula());
}

#[test]
fn bool_ast_eliminate_double_negation() {
    let mut formula = "A!!";
    let mut expected = "A";
    let mut ast = BoolNode::tree(formula).unwrap();
    ast.pre_order(Rule::EliminateDoubleNegation);
    assert_eq!(ast.to_formula(), expected);
    truth_diff(formula, expected);

    formula = "A!!!!!B|";
    expected = "A!B|";
    ast = BoolNode::tree(formula).unwrap();
    ast.pre_order(Rule::EliminateDoubleNegation);
    assert_eq!(ast.to_formula(), expected);
    truth_diff(formula, expected);

    formula = "A!!!!!!B!!|";
    expected = "AB|";
    ast = BoolNode::tree(formula).unwrap();
    ast.pre_order(Rule::EliminateDoubleNegation);
    assert_eq!(ast.to_formula(), expected);
    truth_diff(formula, expected);

    formula = "AB|!!!!!!!CD!E|^!!|";
    expected = "AB|!CD!E|^|";
    ast = BoolNode::tree(formula).unwrap();
    ast.pre_order(Rule::EliminateDoubleNegation);
    assert_eq!(ast.to_formula(), expected);
    truth_diff(formula, expected);
}

#[test]
fn bool_ast_replace_junction_negation() {
    let mut formula = "AB&!";
    let mut expected = "A!B!|";
    let mut ast = BoolNode::tree(formula).unwrap();
    ast.pre_order(Rule::ReplaceJunctionNegation);
    assert_eq!(ast.to_formula(), expected);
    truth_diff(formula, expected);

    formula = "AB|!";
    expected = "A!B!&";
    ast = BoolNode::tree(formula).unwrap();
    ast.pre_order(Rule::ReplaceJunctionNegation);
    assert_eq!(ast.to_formula(), expected);
    truth_diff(formula, expected);

    formula = "AB|!!";
    expected = "A!B!&!";
    ast = BoolNode::tree(formula).unwrap();
    ast.pre_order(Rule::ReplaceJunctionNegation);
    assert_eq!(ast.to_formula(), expected);
    truth_diff(formula, expected);

    formula = "AB&CD^|!";
    expected = "A!B!|CD^!&";
    ast = BoolNode::tree(formula).unwrap();
    ast.pre_order(Rule::ReplaceJunctionNegation);
    assert_eq!(ast.to_formula(), expected);
    truth_diff(formula, expected);
}

#[test]
fn nnf_subject_tests() {
    let mut formula = "AB&!";
    let mut ast = BoolNode::tree(formula).unwrap();
    ast.to_nnf();
    assert!(ast.negation_normal_form());
    assert_eq!(negation_normal_form(formula).unwrap(), "A!B!|");

    formula = "AB|!";
    ast = BoolNode::tree(formula).unwrap();
    ast.to_nnf();
    assert!(ast.negation_normal_form());
    assert_eq!(negation_normal_form(formula).unwrap(), "A!B!&");

    formula = "AB>";
    ast = BoolNode::tree(formula).unwrap();
    ast.to_nnf();
    assert!(ast.negation_normal_form());
    assert_eq!(negation_normal_form(formula).unwrap(), "A!B|");

    formula = "AB=";
    ast = BoolNode::tree(formula).unwrap();
    ast.to_nnf();
    assert!(ast.negation_normal_form());
    truth_diff("AB&A!B!&|", &negation_normal_form(formula).unwrap());

    formula = "AB|C&!";
    ast = BoolNode::tree(formula).unwrap();
    ast.to_nnf();
    assert!(ast.negation_normal_form());
    assert_eq!(negation_normal_form(formula).unwrap(), "A!B!&C!|");
}

#[test]
fn nnf_harder_tests() {
    let formula = "AB&!CD|!EF>!GH^!&!&!&!";
    let mut ast = BoolNode::tree(formula).unwrap();
    ast.to_nnf();
    assert!(ast.negation_normal_form());
    truth_diff(formula, &negation_normal_form(formula).unwrap());
}

#[test]
fn nnf_twice_is_once() {
    for formula in ["AB=", "AB&!CD|!EF>!GH^!&!&!&!", "ABCDEFGHI>^|=&&||!"] {
        let once = negation_normal_form(formula).unwrap();
        let twice = negation_normal_form(&once).unwrap();
        assert_eq!(once, twice);
    }
}

#[test]
fn rotations() {
    let mut formula = "AB|C|";
    let mut ast = BoolNode::tree(formula).unwrap();
    ast.right_rotate(BoolType::Disjunction);
    assert_eq!("ABC||", ast.to_formula());
    ast.left_rotate(BoolType::Disjunction);
    assert_eq!(formula, ast.to_formula());

    formula = "AB&C&";
    ast = BoolNode::tree(formula).unwrap();
    ast.right_rotate(BoolType::Conjunction);
    assert_eq!("ABC&&", ast.to_formula());
    ast.left_rotate(BoolType::Conjunction);
    assert_eq!(formula, ast.to_formula());

    formula = "AB&C|";
    ast = BoolNode::tree(formula).unwrap();
    ast.right_rotate(BoolType::Disjunction);
    assert_eq!(formula, ast.to_formula());
    ast.left_rotate(BoolType::Disjunction);
    assert_eq!(formula, ast.to_formula());
}

#[test]
fn rotation_wrappers() {
    let mut ast = BoolNode::tree("AB|C|").unwrap();
    ast.right_rotate_disjunction();
    assert_eq!("ABC||", ast.to_formula());
    ast.left_rotate_disjunction();
    assert_eq!("AB|C|", ast.to_formula());

    let mut ast = BoolNode::tree("AB&C&").unwrap();
    ast.right_rotate_conjunction();
    assert_eq!("ABC&&", ast.to_formula());
}

#[test]
fn valid_rotation_checks() {
    let ast = BoolNode::tree("AB|C|").unwrap();
    assert!(ast.is_valid_rotation(BoolType::Disjunction, false));
    assert!(!ast.is_valid_rotation(BoolType::Disjunction, true));
    assert!(!ast.is_valid_rotation(BoolType::Conjunction, false));
}

#[test]
fn consume_parts() {
    let ast = BoolNode::tree("AB&").unwrap();
    let (kind, symbol, left, right) = ast.consume();
    assert_eq!(kind, BoolType::Conjunction);
    assert_eq!(symbol, '&');
    assert_eq!(left.unwrap().to_formula(), "A");
    assert_eq!(right.unwrap().to_formula(), "B");
}

#[test]
fn distribute() {
    let formula = "ABC&|";
    let mut ast = BoolNode::tree(formula).unwrap();
    ast.distribute(BoolType::Disjunction);
    assert_eq!("AB|AC|&", ast.to_formula());
    truth_diff(formula, &ast.to_formula());

    let formula = "AD&C|";
    ast = BoolNode::tree(formula).unwrap();
    ast.distribute(BoolType::Disjunction);
    assert_eq!("AC|DC|&", ast.to_formula());
    truth_diff(formula, &ast.to_formula());

    let formula = "ABC|&";
    ast = BoolNode::tree(formula).unwrap();
    ast.distribute(BoolType::Conjunction);
    assert_eq!("AB&AC&|", ast.to_formula());
    truth_diff(formula, &ast.to_formula());

    let formula = "AD|C&";
    ast = BoolNode::tree(formula).unwrap();
    ast.distribute(BoolType::Conjunction);
    assert_eq!("AC&DC&|", ast.to_formula());
    truth_diff(formula, &ast.to_formula());
}

#[test]
fn factor() {
    let formula = "AB|AC|&";
    let mut ast = BoolNode::tree(formula).unwrap();
    ast.factor(BoolType::Disjunction);
    assert_eq!("ABC&|", ast.to_formula());
    truth_diff(formula, &ast.to_formula());

    let formula = "AB&AC&|";
    ast = BoolNode::tree(formula).unwrap();
    ast.factor(BoolType::Conjunction);
    assert_eq!("ABC|&", ast.to_formula());
    truth_diff(formula, &ast.to_formula());

    let formula = "AB|CA|&";
    ast = BoolNode::tree(formula).unwrap();
    ast.factor(BoolType::Disjunction);
    assert_eq!("ABC&|", ast.to_formula());
    truth_diff(formula, &ast.to_formula());

    let formula = "BA|AC|&";
    ast = BoolNode::tree(formula).unwrap();
    ast.factor(BoolType::Disjunction);
    assert_eq!("ABC&|", ast.to_formula());
    truth_diff(formula, &ast.to_formula());

    let formula = "BA|CA|&";
    ast = BoolNode::tree(formula).unwrap();
    ast.factor(BoolType::Disjunction);
    assert_eq!("ABC&|", ast.to_formula());
    truth_diff(formula, &ast.to_formula());
}

#[test]
fn factor_semantic_common_operand() {
    // The common factor is recognised by meaning, not by shape: `BA&` and
    // `AB&` carry the same truth table.
    let formula = "AB&X|BA&Y|&";
    let mut ast = BoolNode::tree(formula).unwrap();
    ast.factor(BoolType::Disjunction);
    assert_eq!("AB&XY&|", ast.to_formula());
    truth_diff(formula, &ast.to_formula());
}

#[test]
fn replace_junction_wrappers() {
    let mut ast = BoolNode::tree("ABC&|").unwrap();
    ast.replace_disjunction();
    truth_diff("ABC&|", &ast.to_formula());

    let mut ast = BoolNode::tree("ABC|&").unwrap();
    ast.replace_conjunction();
    truth_diff("ABC|&", &ast.to_formula());
}

#[test]
fn post_order_traversal() {
    let mut ast = BoolNode::tree("AB=!").unwrap();
    ast.post_order(Rule::ReplaceLogicalEquivalence);
    assert_eq!(ast.to_formula(), "AB>BA>&!");
    truth_diff("AB=!", "AB>BA>&!");
}

#[test]
fn in_order_traversal() {
    let mut ast = BoolNode::tree("A!!B|").unwrap();
    ast.in_order(Rule::EliminateDoubleNegation);
    assert_eq!(ast.to_formula(), "AB|");
    truth_diff("A!!B|", "AB|");
}

#[test]
fn side_order_traversal() {
    let mut ast = BoolNode::tree("A!!B!!&C|").unwrap();
    ast.side_order(Rule::EliminateDoubleNegation, Walk::Pre, true);
    assert_eq!(ast.to_formula(), "AB&C|");
    truth_diff("A!!B!!&C|", "AB&C|");
}

fn cnf_hard_test(formula: &str) {
    let orig = BoolNode::tree(formula).unwrap();
    let mut mine = orig.clone();
    mine.to_cnf();
    let orig_formula = orig.to_formula();
    let mine_formula = mine.to_formula();
    assert!(orig_formula == mine_formula || table(&orig_formula) == table(&mine_formula));
    assert!(mine.conjunctive_normal_form());
}

#[test]
fn cnf_subject_tests() {
    let mut formula = "AB&!";
    let mut ast = BoolNode::tree(formula).unwrap();
    ast.to_cnf();
    assert!(ast.conjunctive_normal_form());
    assert_eq!(conjunctive_normal_form(formula).unwrap(), "A!B!|");

    formula = "AB|!";
    ast = BoolNode::tree(formula).unwrap();
    ast.to_cnf();
    assert!(ast.conjunctive_normal_form());
    assert_eq!(conjunctive_normal_form(formula).unwrap(), "A!B!&");

    formula = "AB|C&";
    ast = BoolNode::tree(formula).unwrap();
    ast.to_cnf();
    assert!(ast.conjunctive_normal_form());
    assert_eq!(conjunctive_normal_form(formula).unwrap(), "AB|C&");

    formula = "AB|C|D|";
    ast = BoolNode::tree(formula).unwrap();
    ast.to_cnf();
    assert!(ast.conjunctive_normal_form());
    assert_eq!(conjunctive_normal_form(formula).unwrap(), "ABCD|||");

    formula = "AB&C&D&";
    ast = BoolNode::tree(formula).unwrap();
    ast.to_cnf();
    assert!(ast.conjunctive_normal_form());
    assert_eq!(conjunctive_normal_form(formula).unwrap(), "ABCD&&&");

    formula = "ABCD&|&";
    ast = BoolNode::tree(formula).unwrap();
    ast.to_cnf();
    assert!(ast.conjunctive_normal_form());
    assert_eq!(conjunctive_normal_form(formula).unwrap(), "ABC|BD|&&");
}

#[test]
fn cnf_harder_tests() {
    cnf_hard_test("AB&CD||");
    cnf_hard_test("DEFGH|IJKL|&|&|&|");

    cnf_hard_test("GH|IJKL|&|&");
    cnf_hard_test("FGH|IJKL|&|&|");
    cnf_hard_test("EFGH|IJKL|&|&|&");
    cnf_hard_test("CDEFGH|IJKL|&|&|&|&");
    cnf_hard_test("ABCDEFGH|IJKL|&|&|&|&|&");

    cnf_hard_test("ABCDEFG!H|IJKL|&|&|&|&|&");
    cnf_hard_test("ABCDEFGH>IJKL|&|&|&|&|&");

    cnf_hard_test("ABCDE&||&");
    cnf_hard_test("AB&C|D|EF&&");
    cnf_hard_test("BF|DF|&G!H||BDFIJ||||BDFI|||KL||&&");
    cnf_hard_test("ABC|BD|E|BD&F|G!H||BDF||I|J|BDFI|||KL||&&&&&");
    cnf_hard_test("BF&DF&&G!H&&BDFIJ&&&&BDFI|||KL||&&");

    cnf_hard_test("BF&DF&&G!H&&BDFIJ&&&&BDFI||&KL||&&");
    cnf_hard_test("BF&DF&&G!H&&BDFIJ&&&&BDFI|&|KL||&&");
    cnf_hard_test("BF&DF&&G!H&&BDFIJ&&&&BDFI&||KL||&&");
    cnf_hard_test("BF&DF&&G!H&&BDFIJ&&&&BDFI&&|KL||&&");
    cnf_hard_test("BF&DF&&G!H&&BDFIJ&&&&BDFI&&&KL||&&");
    cnf_hard_test("BF&DF&&G!H&&BDFIJ&&&&BDFI&&&KL&|&&");
}

#[test]
fn cnf_twice_keeps_meaning() {
    for formula in ["ABCD&|&", "AB&CD||", "AB|C&D|", "ABCDEFGH>IJKL|&|&|&|&|&"] {
        let once = conjunctive_normal_form(formula).unwrap();
        let twice = conjunctive_normal_form(&once).unwrap();
        truth_diff(&once, &twice);
    }
}
