use vstd::prelude::*;
use vstd::utf8::encode_utf8;

verus! {

/// A single argument of an operator: an owned sub-expression.
pub type Argument = Box<Expr>;

/// The ordered arguments of a custom operator.
pub type Arguments = Vec<Argument>;

/// A decimal literal, held as the digit text on each side of the point, so that no
/// precision is lost before a later stage picks a numeric representation.
#[derive(Debug, PartialEq)]
pub struct DecimalLiteral {
    pub whole: String,
    pub fraction: String,
}

#[derive(Debug, PartialEq, Eq, Clone, Copy)]
pub enum MathConst {
    Pi,
    E,
}

#[derive(Debug, PartialEq)]
pub enum Number {
    Integer(i64),
    Decimal(DecimalLiteral),
    MathConstant(MathConst),
}

#[derive(Debug, PartialEq)]
pub enum UnaryOperator {
    Absolute(Argument),
    Negation(Argument),
    Sin(Argument),
    Cos(Argument),
}

#[derive(Debug, PartialEq)]
pub enum BinaryOperator {
    Addition(Argument, Argument),
    Subtraction(Argument, Argument),
    Multiplication(Argument, Argument),
    Division(Argument, Argument),
}

/// An uninterpreted function call: its name and its ordered arguments.
#[derive(Debug, PartialEq)]
pub struct CustomOperator(pub String, pub Arguments);

#[derive(Debug, PartialEq)]
pub enum Operator {
    UnOp(UnaryOperator),
    BinOp(BinaryOperator),
    CusOp(CustomOperator),
}

#[derive(Debug, PartialEq)]
pub enum Expr {
    Num(Number),
    Op(Operator),
}

/// The mathematical model of an expression tree. Text (names, digit runs) is kept as
/// its UTF-8 bytes.
pub enum Tree {
    Integer(i64),
    Decimal(Seq<u8>, Seq<u8>),
    Constant(MathConst),
    Absolute(Box<Tree>),
    Negation(Box<Tree>),
    Sin(Box<Tree>),
    Cos(Box<Tree>),
    Addition(Box<Tree>, Box<Tree>),
    Subtraction(Box<Tree>, Box<Tree>),
    Multiplication(Box<Tree>, Box<Tree>),
    Division(Box<Tree>, Box<Tree>),
    Call(Seq<u8>, Seq<Tree>),
}

impl Expr {
    pub open spec fn view(self) -> Tree
        decreases self,
    {
        match self {
            Expr::Num(Number::Integer(v)) => Tree::Integer(v),
            Expr::Num(Number::Decimal(d)) => Tree::Decimal(
                encode_utf8(d.whole@),
                encode_utf8(d.fraction@),
            ),
            Expr::Num(Number::MathConstant(c)) => Tree::Constant(c),
            Expr::Op(Operator::UnOp(UnaryOperator::Absolute(a))) => Tree::Absolute(
                Box::new((*a).view()),
            ),
            Expr::Op(Operator::UnOp(UnaryOperator::Negation(a))) => Tree::Negation(
                Box::new((*a).view()),
            ),
            Expr::Op(Operator::UnOp(UnaryOperator::Sin(a))) => Tree::Sin(Box::new((*a).view())),
            Expr::Op(Operator::UnOp(UnaryOperator::Cos(a))) => Tree::Cos(Box::new((*a).view())),
            Expr::Op(Operator::BinOp(BinaryOperator::Addition(l, r))) => Tree::Addition(
                Box::new((*l).view()),
                Box::new((*r).view()),
            ),
            Expr::Op(Operator::BinOp(BinaryOperator::Subtraction(l, r))) => Tree::Subtraction(
                Box::new((*l).view()),
                Box::new((*r).view()),
            ),
            Expr::Op(Operator::BinOp(BinaryOperator::Multiplication(l, r))) => Tree::Multiplication(
                Box::new((*l).view()),
                Box::new((*r).view()),
            ),
            Expr::Op(Operator::BinOp(BinaryOperator::Division(l, r))) => Tree::Division(
                Box::new((*l).view()),
                Box::new((*r).view()),
            ),
            Expr::Op(Operator::CusOp(CustomOperator(name, args))) => Tree::Call(
                encode_utf8(name@),
                Seq::new(
                    args.len() as nat,
                    |k: int|
                        if 0 <= k < args.len() {
                            (*args[k]).view()
                        } else {
                            Tree::Integer(0)
                        },
                ),
            ),
        }
    }

    pub fn number(num: Number) -> (r: Self)
        ensures
            r == Expr::Num(num),
    {
        Expr::Num(num)
    }

    pub fn integer(num: i64) -> (r: Self)
        ensures
            r == Expr::Num(Number::Integer(num)),
    {
        Expr::Num(Number::Integer(num))
    }

    pub fn decimal(num: DecimalLiteral) -> (r: Self)
        ensures
            r == Expr::Num(Number::Decimal(num)),
    {
        Expr::Num(Number::Decimal(num))
    }

    pub fn math_constant(num: MathConst) -> (r: Self)
        ensures
            r == Expr::Num(Number::MathConstant(num)),
    {
        Expr::Num(Number::MathConstant(num))
    }

    pub fn operator(op: Operator) -> (r: Self)
        ensures
            r == Expr::Op(op),
    {
        Expr::Op(op)
    }

    pub fn unary_operator(op: UnaryOperator) -> (r: Self)
        ensures
            r == Expr::Op(Operator::UnOp(op)),
    {
        Expr::Op(Operator::UnOp(op))
    }

    pub fn absolute(arg: Box<Expr>) -> (r: Self)
        ensures
            r == Expr::Op(Operator::UnOp(UnaryOperator::Absolute(arg))),
    {
        Expr::Op(Operator::UnOp(UnaryOperator::Absolute(arg)))
    }

    pub fn negate(arg: Box<Expr>) -> (r: Self)
        ensures
            r == Expr::Op(Operator::UnOp(UnaryOperator::Negation(arg))),
    {
        Expr::Op(Operator::UnOp(UnaryOperator::Negation(arg)))
    }

    pub fn sin(arg: Box<Expr>) -> (r: Self)
        ensures
            r == Expr::Op(Operator::UnOp(UnaryOperator::Sin(arg))),
    {
        Expr::Op(Operator::UnOp(UnaryOperator::Sin(arg)))
    }

    pub fn cos(arg: Box<Expr>) -> (r: Self)
        ensures
            r == Expr::Op(Operator::UnOp(UnaryOperator::Cos(arg))),
    {
        Expr::Op(Operator::UnOp(UnaryOperator::Cos(arg)))
    }

    pub fn binary_operator(op: BinaryOperator) -> (r: Self)
        ensures
            r == Expr::Op(Operator::BinOp(op)),
    {
        Expr::Op(Operator::BinOp(op))
    }

    pub fn add(left: Box<Expr>, right: Box<Expr>) -> (r: Self)
        ensures
            r == Expr::Op(Operator::BinOp(BinaryOperator::Addition(left, right))),
    {
        Expr::Op(Operator::BinOp(BinaryOperator::Addition(left, right)))
    }

    pub fn subtract(left: Box<Expr>, right: Box<Expr>) -> (r: Self)
        ensures
            r == Expr::Op(Operator::BinOp(BinaryOperator::Subtraction(left, right))),
    {
        Expr::Op(Operator::BinOp(BinaryOperator::Subtraction(left, right)))
    }

    pub fn multiply(left: Box<Expr>, right: Box<Expr>) -> (r: Self)
        ensures
            r == Expr::Op(Operator::BinOp(BinaryOperator::Multiplication(left, right))),
    {
        Expr::Op(Operator::BinOp(BinaryOperator::Multiplication(left, right)))
    }

    pub fn divide(left: Box<Expr>, right: Box<Expr>) -> (r: Self)
        ensures
            r == Expr::Op(Operator::BinOp(BinaryOperator::Division(left, right))),
    {
        Expr::Op(Operator::BinOp(BinaryOperator::Division(left, right)))
    }

    pub fn custom_operator(op: CustomOperator) -> (r: Self)
        ensures
            r == Expr::Op(Operator::CusOp(op)),
    {
        Expr::Op(Operator::CusOp(op))
    }

    pub fn function(symbol: &str, args: Vec<Box<Expr>>) -> (r: Self)
        ensures
            r matches Expr::Op(Operator::CusOp(CustomOperator(name, a))) && name@ == symbol@ && a
                == args,
    {
        Expr::Op(Operator::CusOp(CustomOperator(symbol.to_owned(), args)))
    }
}

} // verus!
