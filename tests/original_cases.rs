use shunting_yard::shunting_yard;

#[test]
fn blank_expression() {
    let token = Vec::new();
    let result = shunting_yard(token);
    assert_eq!(false, result.is_ok());
}

#[test]
fn simple_expression() {
    let token_list: Vec<String> = "1 + 1".to_owned()
        .split_ascii_whitespace()
        .map(|s| s.to_string())
        .collect();
    let result = shunting_yard(token_list);
    assert_eq!(true, result.is_ok());

    let expected_token: Vec<String> = "1 1 +".to_owned()
        .split_ascii_whitespace()
        .map(|s| s.to_string())
        .collect();
    assert_eq!(expected_token, result.unwrap());
}

#[test]
fn simple_expression_two_operators() {
    let token_list: Vec<String> = "1 + 2 - 3".to_owned()
        .split_ascii_whitespace()
        .map(|s| s.to_string())
        .collect();
    let result = shunting_yard(token_list);
    assert_eq!(true, result.is_ok());

    let expected_token: Vec<String> = "1 2 + 3 -".to_owned()
        .split_ascii_whitespace()
        .map(|s| s.to_string())
        .collect();
    assert_eq!(expected_token, result.unwrap());
}

#[test]
fn simple_expression_two_operators_multiplication_and_division() {
    let token_list: Vec<String> = "1 * 2 / 1".to_owned()
        .split_ascii_whitespace()
        .map(|s| s.to_string())
        .collect();
    let result = shunting_yard(token_list);
    assert_eq!(true, result.is_ok());

    let expected_token: Vec<String> = "1 2 * 1 /".to_owned()
        .split_ascii_whitespace()
        .map(|s| s.to_string())
        .collect();
    assert_eq!(expected_token, result.unwrap());
}

#[test]
fn expression_two_operators_two_precedences() {
    let token_list: Vec<String> = "1 + 2 * 3".to_owned()
        .split_ascii_whitespace()
        .map(|s| s.to_string())
        .collect();
    let result = shunting_yard(token_list);
    assert_eq!(true, result.is_ok());

    let expected_token: Vec<String> = "1 2 3 * +".to_owned()
        .split_ascii_whitespace()
        .map(|s| s.to_string())
        .collect();
    assert_eq!(expected_token, result.unwrap());
}

#[test]
fn expression_with_parentheses() {
    let token_list: Vec<String> = "4 + 18 / ( 9 - 3 )".to_owned()
        .split_ascii_whitespace()
        .map(|s| s.to_string())
        .collect();
    let result = shunting_yard(token_list);
    assert_eq!(true, result.is_ok());

    let expected_token: Vec<String> = "4 18 9 3 - / +".to_owned()
        .split_ascii_whitespace()
        .map(|s| s.to_string())
        .collect();
    assert_eq!(expected_token, result.unwrap());
}

#[test]
fn expression_with_parentheses_second_expression() {
    let token_list: Vec<String> = "( 5 * 4 + 3 ) - 1".to_owned()
        .split_ascii_whitespace()
        .map(|s| s.to_string())
        .collect();
    let result = shunting_yard(token_list);
    assert_eq!(true, result.is_ok());

    let expected_token: Vec<String> = "5 4 * 3 + 1 -".to_owned()
        .split_ascii_whitespace()
        .map(|s| s.to_string())
        .collect();
    assert_eq!(expected_token, result.unwrap());
}

#[test]
fn expression_with_parentheses_nested_parentheses() {
    let token_list: Vec<String> = "( 1 + 2 ) * 3 + 4 * ( ( 7 - 5 ) + 6 )".to_owned()
        .split_ascii_whitespace()
        .map(|s| s.to_string())
        .collect();
    let result = shunting_yard(token_list);
    assert_eq!(true, result.is_ok());

    let expected_token: Vec<String> = "1 2 + 3 * 4 7 5 - 6 + * +".to_owned()
        .split_ascii_whitespace()
        .map(|s| s.to_string())
        .collect();
    assert_eq!(expected_token, result.unwrap());
}

#[test]
fn expression_with_parentheses_nested_parentheses_second_expression() {
    let token_list: Vec<String> = "2 * ( 3 + 5 ) / 4 + 1 * 9 + ( 4 * ( 6 / 3 ) )".to_owned()
        .split_ascii_whitespace()
        .map(|s| s.to_string())
        .collect();
    let result = shunting_yard(token_list);
    assert_eq!(true, result.is_ok());

    let expected_token: Vec<String> = "2 3 5 + * 4 / 1 9 * + 4 6 3 / * +".to_owned()
        .split_ascii_whitespace()
        .map(|s| s.to_string())
        .collect();
    assert_eq!(expected_token, result.unwrap());
}
