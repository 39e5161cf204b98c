use tag_engine::parse::{infix_to_postfix, str_to_operator, Arg, Operator};

#[test]
fn test_infix_to_postfix_1() {
    let infix = String::from("bob AND fred");
    let postfix = vec![
        Arg::Operand(String::from("bob")),
        Arg::Operand(String::from("fred")),
        Arg::Operator(Operator::AND),
    ];
    assert_eq!(infix_to_postfix(infix), postfix);
}

#[test]
fn test_infix_to_postfix_2() {
    let infix = String::from("bob OR fred");
    let postfix = vec![
        Arg::Operand(String::from("bob")),
        Arg::Operand(String::from("fred")),
        Arg::Operator(Operator::OR),
    ];
    assert_eq!(infix_to_postfix(infix), postfix);
}

#[test]
fn test_infix_to_postfix_3() {
    let infix = String::from("bob AND fred OR max");
    let postfix = vec![
        Arg::Operand(String::from("bob")),
        Arg::Operand(String::from("fred")),
        Arg::Operator(Operator::AND),
        Arg::Operand(String::from("max")),
        Arg::Operator(Operator::OR),
    ];
    assert_eq!(infix_to_postfix(infix), postfix);
}

#[test]
fn test_infix_to_postfix_4() {
    let infix = String::from("bob OR fred AND max");
    let postfix = vec![
        Arg::Operand(String::from("bob")),
        Arg::Operand(String::from("fred")),
        Arg::Operand(String::from("max")),
        Arg::Operator(Operator::AND),
        Arg::Operator(Operator::OR),
    ];
    assert_eq!(infix_to_postfix(infix), postfix);
}

#[test]
fn test_infix_to_postfix_5() {
    let infix = String::from("bob AND fred AND max");
    let postfix = vec![
        Arg::Operand(String::from("bob")),
        Arg::Operand(String::from("fred")),
        Arg::Operator(Operator::AND),
        Arg::Operand(String::from("max")),
        Arg::Operator(Operator::AND),
    ];
    assert_eq!(infix_to_postfix(infix), postfix);
}

#[test]
fn test_infix_to_postfix_6() {
    let infix = String::from("bob AND fred OR max AND paul");
    let postfix = vec![
        Arg::Operand(String::from("bob")),
        Arg::Operand(String::from("fred")),
        Arg::Operator(Operator::AND),
        Arg::Operand(String::from("max")),
        Arg::Operand(String::from("paul")),
        Arg::Operator(Operator::AND),
        Arg::Operator(Operator::OR),
    ];
    assert_eq!(infix_to_postfix(infix), postfix);
}

#[test]
fn empty_expression_has_no_items() {
    assert_eq!(infix_to_postfix(String::new()), Vec::<Arg>::new());
}

#[test]
fn single_word_is_an_operand() {
    assert_eq!(
        infix_to_postfix(String::from("red")),
        vec![Arg::Operand(String::from("red"))]
    );
}

#[test]
fn consecutive_operators_are_not_rejected() {
    let postfix = vec![
        Arg::Operand(String::from("a")),
        Arg::Operator(Operator::AND),
        Arg::Operand(String::from("b")),
        Arg::Operator(Operator::OR),
    ];
    assert_eq!(infix_to_postfix(String::from("a AND OR b")), postfix);
}

#[test]
fn or_groups_to_the_left() {
    let postfix = vec![
        Arg::Operand(String::from("a")),
        Arg::Operand(String::from("b")),
        Arg::Operator(Operator::OR),
        Arg::Operand(String::from("c")),
        Arg::Operator(Operator::OR),
    ];
    assert_eq!(infix_to_postfix(String::from("a OR b OR c")), postfix);
}

#[test]
fn lower_case_words_are_tag_names() {
    let postfix = vec![
        Arg::Operand(String::from("a")),
        Arg::Operand(String::from("and")),
        Arg::Operand(String::from("b")),
    ];
    assert_eq!(infix_to_postfix(String::from("a and b")), postfix);
}

#[test]
fn two_spaces_hold_an_empty_word() {
    let postfix = vec![
        Arg::Operand(String::from("a")),
        Arg::Operand(String::new()),
        Arg::Operand(String::from("b")),
    ];
    assert_eq!(infix_to_postfix(String::from("a  b")), postfix);
}

#[test]
fn operator_words() {
    assert_eq!(str_to_operator("AND"), Some(Operator::AND));
    assert_eq!(str_to_operator("OR"), Some(Operator::OR));
    assert_eq!(str_to_operator("NOT"), None);
    assert_eq!(str_to_operator(""), None);
    assert_eq!(str_to_operator("ANDY"), None);
}

#[test]
fn operator_compare() {
    assert_eq!(Operator::AND.compare(&Operator::OR), 1);
    assert_eq!(Operator::OR.compare(&Operator::AND), -1);
    assert_eq!(Operator::AND.compare(&Operator::AND), 0);
    assert_eq!(Operator::OR.compare(&Operator::OR), 0);
}
