use p24::expression::{evaluate_expression, gen_exprs, postfix_to_infix, try_solve};

#[test]
fn evaluate_expression_test() {
    let numbers: [i128; 4] = [5, 5, 5, 1];
    let expr = "142/-3*";
    assert_eq!(Some(24), evaluate_expression(expr, &numbers));
}

#[test]
fn gen_exprs_test() {
    let shape = "NNNNOOO";
    let exprs = gen_exprs(shape).unwrap();
    assert!(exprs.contains(&"1234-++".to_string()))
}

#[test]
fn postfix_to_infix_test() {
    let numbers: [i128; 4] = [5, 5, 5, 1];
    let expr = "142/-3*";

    let result = "(5 - 1 / 5) * 5".to_string();
    assert_eq!(result, postfix_to_infix(expr, &numbers).unwrap())
}

#[test]
fn gen_exprs_counts_every_filling() {
    // 4! operand orders times 4^3 operator choices for one shape.
    let exprs = gen_exprs("NNNNOOO").unwrap();
    assert_eq!(exprs.len(), 24 * 64);
}

#[test]
fn solves_five_five_five_one() {
    let numbers: [i128; 4] = [5, 5, 5, 1];
    let result = try_solve(&numbers);
    assert!(result.is_some());
    // First hit under the fixed generation order.
    assert_eq!("5 * (5 - 1 / 5)", result.unwrap());
}

#[test]
fn solves_six_eleven_nine_two() {
    let numbers: [i128; 4] = [6, 11, 9, 2];
    let result = try_solve(&numbers);
    assert!(result.is_some());
    assert!(!result.unwrap().is_empty());
}

#[test]
fn reports_no_solution_for_all_ones() {
    let numbers: [i128; 4] = [1, 1, 1, 1];
    assert_eq!(None, try_solve(&numbers));
}

#[test]
fn solution_string_for_simple_input() {
    // 1 * 2 * 3 * 4 == 24: some candidate must be found and rendered.
    let numbers: [i128; 4] = [1, 2, 3, 4];
    let result = try_solve(&numbers).unwrap();
    assert!(!result.is_empty());
}

#[test]
fn evaluate_rejects_stack_underflow() {
    let numbers: [i128; 4] = [5, 5, 5, 1];
    assert_eq!(None, evaluate_expression("+", &numbers));
}

#[test]
fn evaluate_rejects_leftover_operands() {
    let numbers: [i128; 4] = [5, 5, 5, 1];
    assert_eq!(None, evaluate_expression("12", &numbers));
}

#[test]
fn evaluate_rejects_unknown_token() {
    let numbers: [i128; 4] = [5, 5, 5, 1];
    assert_eq!(None, evaluate_expression("1x", &numbers));
}

#[test]
fn evaluate_rejects_division_by_zero_value() {
    let numbers: [i128; 4] = [5, 0, 5, 1];
    assert_eq!(None, evaluate_expression("12/", &numbers));
}

#[test]
fn evaluate_rejects_non_integer_total() {
    // 1 / 2 is exact but not an integer.
    let numbers: [i128; 4] = [1, 2, 3, 4];
    assert_eq!(None, evaluate_expression("12/", &numbers));
}

#[test]
fn evaluate_accepts_intermediate_fractions() {
    // 8 / (3 - 8 / 3) needs exact fractions throughout.
    let numbers: [i128; 4] = [8, 3, 8, 3];
    assert_eq!(Some(24), evaluate_expression("1234/-/", &numbers));
}

#[test]
fn renders_negative_numbers_in_decimal() {
    let numbers: [i128; 4] = [-3, 5, 7, 9];
    let text = postfix_to_infix("12+", &numbers).unwrap();
    assert_eq!("(-3 + 5)", text);
}

#[test]
fn renders_without_parentheses_for_products() {
    let numbers: [i128; 4] = [10, 4, 7, 9];
    let text = postfix_to_infix("12*", &numbers).unwrap();
    assert_eq!("10 * 4", text);
}

#[test]
fn gen_exprs_uses_each_operand_once() {
    let exprs = gen_exprs("NNONNOO").unwrap();
    for e in &exprs {
        for d in ['1', '2', '3', '4'] {
            assert_eq!(1, e.chars().filter(|&c| c == d).count());
        }
    }
}
