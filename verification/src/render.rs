//! Writing a node out as text.

use crate::expression::State;
use vstd::prelude::*;
use vstd::string::StringExecFns;

verus! {

/// The character for a decimal digit.
pub open spec fn digit_char(d: int) -> char {
    if d == 0 {
        '0'
    } else if d == 1 {
        '1'
    } else if d == 2 {
        '2'
    } else if d == 3 {
        '3'
    } else if d == 4 {
        '4'
    } else if d == 5 {
        '5'
    } else if d == 6 {
        '6'
    } else if d == 7 {
        '7'
    } else if d == 8 {
        '8'
    } else {
        '9'
    }
}

/// The decimal digits of `v`, most significant first, without leading
/// zeros.
pub open spec fn digits(v: nat) -> Seq<char>
    decreases v,
{
    if v < 10 {
        seq![digit_char(v as int)]
    } else {
        digits(v / 10).push(digit_char((v % 10) as int))
    }
}

impl State {
    /// The node in infix notation: sums and differences in brackets,
    /// products bare, the divisor of a quotient in brackets; operands in
    /// the order in which they were combined.
    pub open spec fn text(&self) -> Seq<char>
        decreases self,
    {
        match self {
            State::Add { o1, o2 } => seq!['('] + o1.text() + seq!['+'] + o2.text() + seq![')'],
            State::Multiply { o1, o2 } => o1.text() + seq!['*'] + o2.text(),
            State::Subtract { o1, o2 } => seq!['('] + o1.text() + seq!['-'] + o2.text() + seq![')'],
            State::Divide { o1, o2 } => o1.text() + seq!['/', '('] + o2.text() + seq![')'],
            State::Base { value } => digits(*value as nat),
        }
    }

    /// The node as text.
    pub fn render(&self) -> (r: String)
        ensures
            r@ == self.text(),
        decreases self,
    {
        proof {
            reveal_strlit("(");
            reveal_strlit(")");
            reveal_strlit("+");
            reveal_strlit("-");
            reveal_strlit("*");
            reveal_strlit("/(");
        }
        match self {
            State::Add { o1, o2 } => {
                let mut s = String::from_str("(");
                s.append(o1.render().as_str());
                s.append("+");
                s.append(o2.render().as_str());
                s.append(")");
                assert(s@ == seq!['('] + o1.text() + seq!['+'] + o2.text() + seq![')']);
                s
            },
            State::Multiply { o1, o2 } => {
                let mut s = o1.render();
                s.append("*");
                s.append(o2.render().as_str());
                s
            },
            State::Subtract { o1, o2 } => {
                let mut s = String::from_str("(");
                s.append(o1.render().as_str());
                s.append("-");
                s.append(o2.render().as_str());
                s.append(")");
                assert(s@ == seq!['('] + o1.text() + seq!['-'] + o2.text() + seq![')']);
                s
            },
            State::Divide { o1, o2 } => {
                let mut s = o1.render();
                s.append("/(");
                s.append(o2.render().as_str());
                s.append(")");
                assert("/("@ == seq!['/', '(']);
                s
            },
            State::Base { value } => decimal(*value),
        }
    }
}

/// The text of one decimal digit.
fn digit(d: u8) -> (r: &'static str)
    requires
        d < 10,
    ensures
        r@ == seq![digit_char(d as int)],
{
    proof {
        reveal_strlit("0");
        reveal_strlit("1");
        reveal_strlit("2");
        reveal_strlit("3");
        reveal_strlit("4");
        reveal_strlit("5");
        reveal_strlit("6");
        reveal_strlit("7");
        reveal_strlit("8");
        reveal_strlit("9");
    }
    if d == 0 {
        "0"
    } else if d == 1 {
        "1"
    } else if d == 2 {
        "2"
    } else if d == 3 {
        "3"
    } else if d == 4 {
        "4"
    } else if d == 5 {
        "5"
    } else if d == 6 {
        "6"
    } else if d == 7 {
        "7"
    } else if d == 8 {
        "8"
    } else {
        "9"
    }
}

/// `v` in decimal.
pub fn decimal(v: u128) -> (r: String)
    ensures
        r@ == digits(v as nat),
    decreases v,
{
    if v < 10 {
        String::from_str(digit(v as u8))
    } else {
        let mut s = decimal(v / 10);
        s.append(digit((v % 10) as u8));
        s
    }
}

} // verus!
