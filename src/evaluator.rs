//! Evaluation of syntax trees with 32-bit wrapping arithmetic.
use vstd::prelude::*;
use crate::lexer::OperatorType;
use crate::parser::Node;

verus! {

/// Truncating division in which a zero divisor gives 0 and the one
/// overflowing quotient, `i32::MIN / -1`, wraps to `i32::MIN`.
pub open spec fn div_or_zero(l: i32, r: i32) -> i32 {
    if r == 0 {
        0
    } else {
        match l.checked_div(r) {
            Some(q) => q,
            None => i32::MIN,
        }
    }
}

/// The value of a syntax tree. Unary plus, and any unary operator other
/// than minus, leaves its operand unchanged.
pub open spec fn value(node: Node) -> i32
    decreases node,
{
    match node {
        Node::Number(n) => n,
        Node::UnaryExpr { op, child } => match op {
            OperatorType::Sub => 0i32.wrapping_sub(value(*child)),
            _ => value(*child),
        },
        Node::BinaryExpr { op, lhs, rhs } => match op {
            OperatorType::Plus => value(*lhs).wrapping_add(value(*rhs)),
            OperatorType::Sub => value(*lhs).wrapping_sub(value(*rhs)),
            OperatorType::Mul => value(*lhs).wrapping_mul(value(*rhs)),
            OperatorType::Div => div_or_zero(value(*lhs), value(*rhs)),
        },
    }
}

/// Evaluates a syntax tree; the result depends on the tree alone.
pub fn eval(node: &Node) -> (r: i32)
    ensures
        r == value(*node),
    decreases node,
{
    match node {
        Node::Number(n) => *n,
        Node::UnaryExpr { op, child } => {
            let child = eval(child);
            match op {
                OperatorType::Plus => child,
                OperatorType::Sub => 0i32.wrapping_sub(child),
                _ => child,
            }
        },
        Node::BinaryExpr { op, lhs, rhs } => {
            let lhs_ret = eval(lhs);
            let rhs_ret = eval(rhs);
            match op {
                OperatorType::Plus => lhs_ret.wrapping_add(rhs_ret),
                OperatorType::Sub => lhs_ret.wrapping_sub(rhs_ret),
                OperatorType::Mul => lhs_ret.wrapping_mul(rhs_ret),
                OperatorType::Div => {
                    if rhs_ret == 0 {
                        0
                    } else {
                        match lhs_ret.checked_div(rhs_ret) {
                            Some(q) => q,
                            None => i32::MIN,
                        }
                    }
                },
            }
        },
    }
}

} // verus!
