use shunting_yard::shunting_yard;

fn tokens(text: &str) -> Vec<String> {
    text.split_ascii_whitespace().map(|s| s.to_string()).collect()
}

fn convert(text: &str) -> Vec<String> {
    shunting_yard(tokens(text)).unwrap()
}

#[test]
fn empty_input_is_the_error() {
    let result = shunting_yard(Vec::new());
    assert_eq!(result, Err("Empty token list".to_string()));
}

#[test]
fn single_operand() {
    assert_eq!(convert("42"), tokens("42"));
}

#[test]
fn equal_levels_emit_left_first() {
    assert_eq!(convert("1 + 2 - 3"), tokens("1 2 + 3 -"));
    assert_eq!(convert("1 - 2 + 3"), tokens("1 2 - 3 +"));
}

#[test]
fn higher_level_binds_tighter() {
    assert_eq!(convert("1 + 2 * 3"), tokens("1 2 3 * +"));
    assert_eq!(convert("1 * 2 + 3"), tokens("1 2 * 3 +"));
}

#[test]
fn parentheses_override_levels() {
    assert_eq!(convert("( 1 + 2 ) * 3"), tokens("1 2 + 3 *"));
}

#[test]
fn nested_grouping() {
    assert_eq!(
        convert("( 1 + 2 ) * 3 + 4 * ( ( 7 - 5 ) + 6 )"),
        tokens("1 2 + 3 * 4 7 5 - 6 + * +")
    );
}

#[test]
fn multiplication_and_division_left_to_right() {
    assert_eq!(convert("1 * 2 / 1"), tokens("1 2 * 1 /"));
}

#[test]
fn converting_twice_gives_the_same_result() {
    let text = "2 * ( 3 + 5 ) / 4 + 1 * 9";
    assert_eq!(convert(text), convert(text));
}

#[test]
fn output_keeps_non_grouping_tokens() {
    let out = convert("( 4 + 18 ) / ( 9 - 3 )");
    let mut got = out.clone();
    got.sort();
    let mut want = tokens("4 + 18 / 9 - 3");
    want.sort();
    assert_eq!(got, want);
    assert!(!out.iter().any(|t| t == "(" || t == ")"));
}

#[test]
fn signed_operands_are_operands() {
    assert_eq!(convert("-3 * +4 - 5"), tokens("-3 +4 * 5 -"));
}

#[test]
fn out_of_range_integer_is_an_operator() {
    // Too large for i64, so it is classified as an operator of level 1 and
    // is stacked, which moves the stacked `*` to the output first.
    assert_eq!(
        convert("1 * 99999999999999999999 2"),
        tokens("1 * 2 99999999999999999999")
    );
    assert_eq!(
        convert("1 * -9223372036854775808 2"),
        tokens("1 -9223372036854775808 2 *")
    );
}

#[test]
fn unknown_symbol_has_the_lowest_level() {
    assert_eq!(convert("1 * 2 % 3"), tokens("1 2 * 3 %"));
    assert_eq!(convert("1 % 2 * 3"), tokens("1 2 3 * %"));
}

#[test]
fn unmatched_close_empties_the_stack() {
    assert_eq!(convert("1 + 2 ) * 3"), tokens("1 2 + 3 *"));
}

#[test]
fn unmatched_open_reaches_the_output() {
    assert_eq!(convert("( 1 + 2"), tokens("1 2 + ("));
}
