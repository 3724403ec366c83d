use rsb_lib::sets::eval_set;
use rsb_lib::sets::powerset;
use rsb_lib::sets::SetError;

#[test]
fn powerset_basics() {
    let input: Vec<i32> = vec![];
    let pow = powerset(&input);
    assert_eq!(pow.len(), 2usize.pow(input.len() as u32));

    let input: Vec<i32> = vec![0];
    let pow = powerset(&input);
    assert_eq!(pow.len(), 2usize.pow(input.len() as u32));

    let input: Vec<i32> = vec![0, 1];
    let pow = powerset(&input);
    assert_eq!(pow.len(), 2usize.pow(input.len() as u32));

    let input: Vec<i32> = vec![0, 1, 2];
    let pow = powerset(&input);
    assert_eq!(pow.len(), 2usize.pow(input.len() as u32));

    let input: Vec<i32> = vec![0, 1, 2, 3];
    let pow = powerset(&input);
    assert_eq!(pow.len(), 2usize.pow(input.len() as u32));

    let input: Vec<i32> = vec![0, 1, 2, 3, 4];
    let pow = powerset(&input);
    assert_eq!(pow.len(), 2usize.pow(input.len() as u32));

    let input: Vec<i32> = (0..10).collect();
    let pow = powerset(&input);
    assert_eq!(pow.len(), 2usize.pow(input.len() as u32));
}

#[test]
fn powerset_masks_select_subsets() {
    let input: Vec<i32> = vec![7, 8, 9];
    let pow = powerset(&input);
    assert_eq!(pow[0], Vec::<i32>::new());
    assert_eq!(pow[1], vec![7]);
    assert_eq!(pow[2], vec![8]);
    assert_eq!(pow[3], vec![7, 8]);
    assert_eq!(pow[4], vec![9]);
    assert_eq!(pow[5], vec![7, 9]);
    assert_eq!(pow[6], vec![8, 9]);
    assert_eq!(pow[7], vec![7, 8, 9]);
}

#[test]
fn eval_set_subject_tests() {
    let sets: Vec<Vec<i32>> = vec![vec![0, 1, 2], vec![0, 3, 4]];
    let result = eval_set("AB&", &sets);
    assert_eq!(result, Ok(vec![0]));

    let sets: Vec<Vec<i32>> = vec![vec![0, 1, 2], vec![3, 4, 5]];
    let result = eval_set("AB|", &sets);
    assert_eq!(result, Ok(vec![0, 1, 2, 3, 4, 5]));

    let sets: Vec<Vec<i32>> = vec![vec![0, 1, 2]];
    let result = eval_set("A!", &sets);
    assert_eq!(result, Ok(vec![]));
}

#[test]
fn eval_set_other_ops() {
    let sets: Vec<Vec<i32>> = vec![vec![0, 1, 2], vec![0, 3, 4]];
    let result = eval_set("AB^", &sets);
    assert_eq!(result, Ok(vec![1, 2, 3, 4]));

    let sets: Vec<Vec<i32>> = vec![vec![0, 1, 2, 5], vec![0, 3, 4, 5, 6]];
    let result = eval_set("AB^!", &sets);
    assert_eq!(result, Ok(vec![0, 5]));

    let sets: Vec<Vec<i32>> = vec![vec![0, 1, 2], vec![0, 3, 4]];
    let result = eval_set("AB>", &sets);
    assert_eq!(result, Ok(vec![0, 3, 4]));

    let sets: Vec<Vec<i32>> = vec![vec![0, 1, 2], vec![0, 3, 4]];
    let result = eval_set("AB>!", &sets);
    assert_eq!(result, Ok(vec![1, 2]));

    let sets: Vec<Vec<i32>> = vec![vec![0, 1, 2], vec![0, 1, 2], vec![55]];
    let result = eval_set("AB=CC^|", &sets);
    assert_eq!(result, Ok(vec![0, 1, 2]));

    let sets: Vec<Vec<i32>> = vec![vec![0, 1, 2], vec![0, 1, 2], vec![55]];
    let result = eval_set("AB=CC^|!", &sets);
    assert_eq!(result, Ok(vec![55]));

    let sets: Vec<Vec<i32>> = vec![vec![0, 1, 2], vec![0, 1, 2]];
    let result = eval_set("AB=", &sets);
    assert_eq!(result, Ok(vec![0, 1, 2]));
}

#[test]
fn eval_set_unordered_inputs() {
    // Inputs are de-duplicated and sorted before the letters are bound.
    let sets: Vec<Vec<i32>> = vec![vec![2, 0, 1, 2], vec![4, 0, 3]];
    let result = eval_set("AB|", &sets);
    assert_eq!(result, Ok(vec![0, 1, 2, 3, 4]));
}

#[test]
fn eval_set_errors() {
    let sets: Vec<Vec<i32>> = vec![vec![0, 1, 2]];
    assert_eq!(eval_set("AB&", &sets), Err(SetError::MissingSets));
    assert_eq!(
        eval_set("A", &vec![vec![0], vec![1]]),
        Err(SetError::TooManySets)
    );
    assert_eq!(eval_set("", &Vec::new()), Err(SetError::EmptyFormula));
    assert_eq!(eval_set("A0&", &vec![vec![0]]), Err(SetError::InvalidToken('0')));
    assert_eq!(eval_set("A!!", &vec![vec![0]]), Ok(vec![0]));
    assert_eq!(
        eval_set("AB", &vec![vec![0], vec![1]]),
        Err(SetError::ResidualStack)
    );
    assert_eq!(eval_set("A&", &vec![vec![0]]), Err(SetError::InvalidToken('&')));
}
