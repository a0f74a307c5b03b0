use vstd::prelude::*;

verus! {

/// An arithmetic expression: a number as written, or an operation on two
/// sub-expressions.
pub enum Expression {
    Number(String),
    Composite(Composite),
}

/// The four binary operators.
#[derive(Debug, Clone, Copy, PartialEq, Eq, Structural)]
pub enum Operator {
    PLUS,
    MINUS,
    MULT,
    DIV,
}

/// An operator applied to a left and a right operand.
pub struct Composite {
    pub operator: Operator,
    pub left: Box<Expression>,
    pub right: Box<Expression>,
}

/// The symbol that stands for an operator.
pub open spec fn operator_text(op: Operator) -> Seq<char> {
    match op {
        Operator::PLUS => "+"@,
        Operator::MINUS => "-"@,
        Operator::MULT => "*"@,
        Operator::DIV => "/"@,
    }
}

/// An expression written out: a number as it is, an operation fully
/// parenthesised as `(left op right)`.
pub open spec fn render(e: Expression) -> Seq<char>
    decreases e,
{
    match e {
        Expression::Number(s) => s@,
        Expression::Composite(c) => "("@ + render(*c.left) + " "@ + operator_text(c.operator) + " "@
            + render(*c.right) + ")"@,
    }
}

impl Composite {
    pub fn new(left: Box<Expression>, operator: Operator, right: Box<Expression>) -> (r: Composite)
        ensures
            r.left == left,
            r.operator == operator,
            r.right == right,
    {
        Composite { operator, left, right }
    }
}

impl Operator {
    /// The operator's symbol.
    pub fn to_string(&self) -> (r: String)
        ensures
            r@ == operator_text(*self),
    {
        let mut r = String::new();
        match self {
            Operator::PLUS => r.append("+"),
            Operator::MINUS => r.append("-"),
            Operator::MULT => r.append("*"),
            Operator::DIV => r.append("/"),
        }
        r
    }
}

impl Expression {
    /// The expression written out, with every operation in parentheses.
    pub fn to_string(&self) -> (r: String)
        ensures
            r@ == render(*self),
        decreases *self,
    {
        match self {
            Expression::Number(s) => s.clone(),
            Expression::Composite(c) => {
                let mut result = String::new();
                result.append("(");
                let left = c.left.to_string();
                result.append(left.as_str());
                result.append(" ");
                let op = c.operator.to_string();
                result.append(op.as_str());
                result.append(" ");
                let right = c.right.to_string();
                result.append(right.as_str());
                result.append(")");
                proof {
                    assert(Seq::<char>::empty() + "("@ == "("@);
                }
                result
            },
        }
    }
}

} // verus!
