//! Expression nodes and the four guarded operations on them.

use std::rc::Rc;
use vstd::multiset::Multiset;
use vstd::prelude::*;

verus! {

/// How a value was derived: a raw number, or an operation on two earlier
/// nodes. Nodes are shared, never changed after they are built.
#[derive(Debug)]
pub enum State {
    Add { o1: Rc<State>, o2: Rc<State> },
    Multiply { o1: Rc<State>, o2: Rc<State> },
    Subtract { o1: Rc<State>, o2: Rc<State> },
    Divide { o1: Rc<State>, o2: Rc<State> },
    Base { value: u128 },
}

/// A derivation together with its value and the inputs it draws on:
/// bit `i` of `contains` is set when the `i`-th input number is a leaf of
/// `state`.
#[derive(Debug)]
pub struct Expression {
    pub state: Rc<State>,
    pub value: u128,
    pub contains: u64,
}

/// Why no expression could be returned.
#[derive(Clone, Copy, Debug, PartialEq, Eq, Structural)]
pub enum SolveError {
    /// No numbers were given.
    EmptyInput,
    /// More numbers were given than the input mask has bits.
    TooManyNumbers,
    /// A value arose that does not fit: it exceeds 128 bits, or leaves no
    /// room in them for the input mask below it.
    Overflow,
}

/// The four binary operations, in the order in which they are tried.
pub enum Operation {
    Add,
    Multiply,
    Subtract,
    Divide,
}

impl Operation {
    /// The guard: whether the operation may be applied to the values `a`, `b`.
    pub open spec fn applies(self, a: int, b: int) -> bool {
        match self {
            Operation::Add => true,
            Operation::Multiply => a != 0 && a != 1 && b != 0 && b != 1,
            Operation::Subtract => b <= a,
            Operation::Divide => b != 0 && b != 1 && a % b == 0,
        }
    }

    /// The value of the operation on `a`, `b`, over the integers.
    pub open spec fn result(self, a: int, b: int) -> int {
        match self {
            Operation::Add => a + b,
            Operation::Multiply => a * b,
            Operation::Subtract => a - b,
            Operation::Divide => a / b,
        }
    }

    /// The node that records the operation on two operand nodes.
    pub open spec fn node(self, o1: Rc<State>, o2: Rc<State>) -> State {
        match self {
            Operation::Add => State::Add { o1, o2 },
            Operation::Multiply => State::Multiply { o1, o2 },
            Operation::Subtract => State::Subtract { o1, o2 },
            Operation::Divide => State::Divide { o1, o2 },
        }
    }

    /// What applying the operation to two expressions gives: nothing where
    /// the guard refuses, an error where the value exceeds 128 bits, and
    /// otherwise the expression over both operands.
    pub open spec fn outcome(self, e1: Expression, e2: Expression) -> Result<
        Option<Expression>,
        SolveError,
    > {
        let value = self.result(e1.value as int, e2.value as int);
        if !self.applies(e1.value as int, e2.value as int) {
            Ok(None)
        } else if value > u128::MAX {
            Err(SolveError::Overflow)
        } else {
            Ok(
                Some(
                    Expression {
                        state: Rc::new(self.node(e1.state, e2.state)),
                        value: value as u128,
                        contains: e1.contains | e2.contains,
                    },
                ),
            )
        }
    }
}

impl State {
    /// The value of the node, evaluated over the integers.
    pub open spec fn eval(&self) -> int
        decreases self,
    {
        match self {
            State::Add { o1, o2 } => o1.eval() + o2.eval(),
            State::Multiply { o1, o2 } => o1.eval() * o2.eval(),
            State::Subtract { o1, o2 } => o1.eval() - o2.eval(),
            State::Divide { o1, o2 } => o1.eval() / o2.eval(),
            State::Base { value } => *value as int,
        }
    }

    /// Whether every operation in the node passes its guard.
    pub open spec fn guarded(&self) -> bool
        decreases self,
    {
        match self {
            State::Add { o1, o2 } => o1.guarded() && o2.guarded(),
            State::Multiply { o1, o2 } => o1.guarded() && o2.guarded()
                && Operation::Multiply.applies(o1.eval(), o2.eval()),
            State::Subtract { o1, o2 } => o1.guarded() && o2.guarded()
                && Operation::Subtract.applies(o1.eval(), o2.eval()),
            State::Divide { o1, o2 } => o1.guarded() && o2.guarded()
                && Operation::Divide.applies(o1.eval(), o2.eval()),
            State::Base { value } => true,
        }
    }

    /// The numbers at the leaves of the node, each as often as it occurs.
    pub open spec fn leaves(&self) -> Multiset<u128>
        decreases self,
    {
        match self {
            State::Add { o1, o2 } => o1.leaves().add(o2.leaves()),
            State::Multiply { o1, o2 } => o1.leaves().add(o2.leaves()),
            State::Subtract { o1, o2 } => o1.leaves().add(o2.leaves()),
            State::Divide { o1, o2 } => o1.leaves().add(o2.leaves()),
            State::Base { value } => Multiset::singleton(*value),
        }
    }
}

/// `Rc::clone`: a second handle on the same node. The contract claims that
/// the node behind the new handle equals the one behind `node`.
#[verifier::external_body]
fn share(node: &Rc<State>) -> (r: Rc<State>)
    ensures
        r == *node,
{
    Rc::clone(node)
}

impl Clone for State {
    /// A copy that shares the operands.
    fn clone(&self) -> (r: Self)
        ensures
            r == *self,
    {
        match self {
            State::Add { o1, o2 } => State::Add { o1: share(o1), o2: share(o2) },
            State::Multiply { o1, o2 } => State::Multiply { o1: share(o1), o2: share(o2) },
            State::Subtract { o1, o2 } => State::Subtract { o1: share(o1), o2: share(o2) },
            State::Divide { o1, o2 } => State::Divide { o1: share(o1), o2: share(o2) },
            State::Base { value } => State::Base { value: *value },
        }
    }
}

impl Clone for Expression {
    /// A copy that shares the node.
    fn clone(&self) -> (r: Self)
        ensures
            r == *self,
    {
        Expression { state: share(&self.state), value: self.value, contains: self.contains }
    }
}

/// The sum of two expressions.
pub fn add(e1: &Expression, e2: &Expression) -> (r: Result<Option<Expression>, SolveError>)
    ensures
        r == Operation::Add.outcome(*e1, *e2),
{
    match e1.value.checked_add(e2.value) {
        None => Err(SolveError::Overflow),
        Some(value) => Ok(
            Some(
                Expression {
                    state: Rc::new(State::Add { o1: share(&e1.state), o2: share(&e2.state) }),
                    value,
                    contains: e1.contains | e2.contains,
                },
            ),
        ),
    }
}

/// The product of two expressions, unless one of them is 0 or 1.
pub fn multiply(e1: &Expression, e2: &Expression) -> (r: Result<Option<Expression>, SolveError>)
    ensures
        r == Operation::Multiply.outcome(*e1, *e2),
{
    if e1.value == 0 || e1.value == 1 || e2.value == 0 || e2.value == 1 {
        return Ok(None);
    }
    match e1.value.checked_mul(e2.value) {
        None => Err(SolveError::Overflow),
        Some(value) => Ok(
            Some(
                Expression {
                    state: Rc::new(State::Multiply { o1: share(&e1.state), o2: share(&e2.state) }),
                    value,
                    contains: e1.contains | e2.contains,
                },
            ),
        ),
    }
}

/// The first expression less the second, unless that would go below zero.
pub fn subtract(e1: &Expression, e2: &Expression) -> (r: Option<Expression>)
    ensures
        Ok::<Option<Expression>, SolveError>(r) == Operation::Subtract.outcome(*e1, *e2),
{
    if e2.value > e1.value {
        return None;
    }
    Some(
        Expression {
            state: Rc::new(State::Subtract { o1: share(&e1.state), o2: share(&e2.state) }),
            value: e1.value - e2.value,
            contains: e1.contains | e2.contains,
        },
    )
}

/// The first expression divided by the second, where the second is neither
/// 0 nor 1 and divides the first exactly.
pub fn divide(e1: &Expression, e2: &Expression) -> (r: Option<Expression>)
    ensures
        Ok::<Option<Expression>, SolveError>(r) == Operation::Divide.outcome(*e1, *e2),
{
    if e2.value == 0 || e2.value == 1 || e1.value % e2.value != 0 {
        return None;
    }
    Some(
        Expression {
            state: Rc::new(State::Divide { o1: share(&e1.state), o2: share(&e2.state) }),
            value: e1.value / e2.value,
            contains: e1.contains | e2.contains,
        },
    )
}

/// Whether two expressions draw on a common input.
pub open spec fn shares(e1: Expression, e2: Expression) -> bool {
    e1.contains & e2.contains != 0
}

/// Whether two expressions draw on a common input. Such a pair is never
/// combined.
pub fn shares_dependencies(e1: &Expression, e2: &Expression) -> (r: bool)
    ensures
        r == shares(*e1, *e2),
{
    e1.contains & e2.contains != 0
}

} // verus!
