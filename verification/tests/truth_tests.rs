use rsb_lib::truth::eval_formula;
use rsb_lib::truth::sat;
use rsb_lib::truth::table;
use rsb_lib::truth::TruthError;

#[test]
fn bool_eval_subject_tests() {
    assert_eq!(eval_formula("10&"), Ok(false));
    assert_eq!(eval_formula("10|"), Ok(true));
    assert_eq!(eval_formula("11>"), Ok(true));
    assert_eq!(eval_formula("10="), Ok(false));
    assert_eq!(eval_formula("1011||="), Ok(true));
}

#[test]
fn bool_eval_basic_tests() {
    assert_eq!(eval_formula("0"), Ok(false));
    assert_eq!(eval_formula("1"), Ok(true));
    assert_eq!(eval_formula("0!"), Ok(true));
    assert_eq!(eval_formula("1!"), Ok(false));
    assert_eq!(eval_formula("00&"), Ok(false));
    assert_eq!(eval_formula("01&"), Ok(false));
    assert_eq!(eval_formula("11&"), Ok(true));
    assert_eq!(eval_formula("00|"), Ok(false));
    assert_eq!(eval_formula("01|"), Ok(true));
    assert_eq!(eval_formula("11|"), Ok(true));
    assert_eq!(eval_formula("00^"), Ok(false));
    assert_eq!(eval_formula("01^"), Ok(true));
    assert_eq!(eval_formula("10^"), Ok(true));
    assert_eq!(eval_formula("11^"), Ok(false));
    assert_eq!(eval_formula("00>"), Ok(true));
    assert_eq!(eval_formula("01>"), Ok(true));
    assert_eq!(eval_formula("10>"), Ok(false));
    assert_eq!(eval_formula("00="), Ok(true));
    assert_eq!(eval_formula("01="), Ok(false));
    assert_eq!(eval_formula("10="), Ok(false));
    assert_eq!(eval_formula("11="), Ok(true));
}

#[test]
fn bool_eval_negate() {
    assert_eq!(eval_formula("10&!"), Ok(!false));
    assert_eq!(eval_formula("10|!"), Ok(!true));
    assert_eq!(eval_formula("11>!"), Ok(!true));
    assert_eq!(eval_formula("10=!"), Ok(!false));
    assert_eq!(eval_formula("1011||=!"), Ok(!true));
    assert_eq!(eval_formula("0!!"), Ok(!true));
    assert_eq!(eval_formula("1!!"), Ok(!false));
}

#[test]
fn bool_eval_errors() {
    assert_eq!(eval_formula(""), Err(TruthError::EmptyFormula));
    assert_eq!(eval_formula("10&!xslkfj"), Err(TruthError::InvalidToken('x')));
    assert_eq!(eval_formula("!"), Err(TruthError::InvalidToken('!')));
    assert_eq!(eval_formula("1&"), Err(TruthError::InvalidToken('&')));
    assert_eq!(eval_formula("000001"), Err(TruthError::ResidualStack));
    assert_eq!(eval_formula("111110"), Err(TruthError::ResidualStack));
}

#[test]
fn truth_table_subject_tests() {
    let expected: &str = "\
        | A | B | C | = |\n\
        |---|---|---|---|\n\
        | 0 | 0 | 0 | 0 |\n\
        | 0 | 0 | 1 | 1 |\n\
        | 0 | 1 | 0 | 0 |\n\
        | 0 | 1 | 1 | 1 |\n\
        | 1 | 0 | 0 | 0 |\n\
        | 1 | 0 | 1 | 1 |\n\
        | 1 | 1 | 0 | 1 |\n\
        | 1 | 1 | 1 | 1 |\n\
    ";
    let truth = table("AB&C|").unwrap();
    assert_eq!(truth, expected);
}

#[test]
fn truth_table_single_variable() {
    let expected: &str = "\
        | A | = |\n\
        |---|---|\n\
        | 0 | 0 |\n\
        | 1 | 1 |\n\
    ";
    assert_eq!(table("A").unwrap(), expected);
}

#[test]
fn truth_table_errors() {
    assert_eq!(table(""), Err(TruthError::EmptyFormula));
    assert_eq!(table("100&Z!"), Err(TruthError::LiteralOperand('1')));
    assert_eq!(table("AB"), Err(TruthError::ResidualStack));
    assert_eq!(table("Ax&"), Err(TruthError::InvalidToken('x')));
}

#[test]
fn sat_subject_tests() {
    assert_eq!(sat("AB|"), Ok(true));
    assert_eq!(sat("AB&"), Ok(true));
    assert_eq!(sat("AA!&"), Ok(false));
    assert_eq!(sat("AA^"), Ok(false));
}

#[test]
fn sat_more_cases() {
    assert_eq!(sat("AB="), Ok(true));
    assert_eq!(sat("AA="), Ok(true));
    assert_eq!(sat("AA=!"), Ok(false));
    assert_eq!(sat("AB&C|"), Ok(true));
    assert_eq!(sat(""), Err(rsb_lib::truth::TruthError::EmptyFormula));
}

#[test]
fn sat_agrees_with_table() {
    // A formula is satisfiable exactly when its table shows a row whose
    // result column carries a one.
    for formula in ["AB|", "AB&", "AA!&", "AA^", "AB&C|", "AB=", "AA=!"] {
        let t = table(formula).unwrap();
        let any_true = t.lines().skip(2).any(|row| {
            let cells: Vec<&str> = row.split('|').collect();
            cells[cells.len() - 2].trim() == "1"
        });
        assert_eq!(sat(formula), Ok(any_true));
    }
}
