use exact_roots::expression::{Composite, Expression, Operator};

#[test]
fn expression_to_string() {
    let e = Expression::Composite(Composite {
        operator: Operator::PLUS,
        left: Box::new(Expression::Number(String::from("5"))),
        right: Box::new(Expression::Number(String::from("3"))),
    });
    assert_eq!(e.to_string(), "(5 + 3)");
}

#[test]
fn nested_expression_to_string() {
    let inner = Expression::Composite(Composite::new(
        Box::new(Expression::Number(String::from("2"))),
        Operator::MULT,
        Box::new(Expression::Number(String::from("3"))),
    ));
    let e = Expression::Composite(Composite::new(
        Box::new(inner),
        Operator::MINUS,
        Box::new(Expression::Number(String::from("5"))),
    ));
    assert_eq!(e.to_string(), "((2 * 3) - 5)");
    assert_eq!(Operator::DIV.to_string(), "/");
}
