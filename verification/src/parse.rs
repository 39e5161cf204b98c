//! The query compiler: from a tag expression written with `AND` and `OR`
//! between the tag names to the same expression in postfix order.

use vstd::prelude::*;
use crate::text::{chars_of, split, split_spec, views};

verus! {

/// The two operators of a tag expression.
#[derive(Debug, Clone, Copy, PartialEq, Eq, Structural)]
pub enum Operator {
    AND,
    OR,
}

/// One item of a postfix expression: a tag name or an operator.
#[derive(Debug, Clone, PartialEq)]
pub enum Arg {
    Operand(String),
    Operator(Operator),
}

/// An item of a postfix expression as the contracts speak of it.
pub enum Token {
    Operand(Seq<char>),
    Operator(Operator),
}

impl View for Arg {
    type V = Token;

    open spec fn view(&self) -> Token {
        match self {
            Arg::Operand(s) => Token::Operand(s@),
            Arg::Operator(op) => Token::Operator(*op),
        }
    }
}

/// The views of a list of items.
pub open spec fn arg_views(args: Seq<Arg>) -> Seq<Token> {
    args.map_values(|a: Arg| a@)
}

/// How tightly an operator binds: `AND` tighter than `OR`.
pub open spec fn precedence(op: Operator) -> int {
    match op {
        Operator::AND => 2,
        Operator::OR => 1,
    }
}

/// 1 where `a` binds tighter than `b`, -1 where `b` binds tighter than `a`,
/// 0 where they are the same operator.
pub open spec fn compare_spec(a: Operator, b: Operator) -> int {
    if precedence(a) > precedence(b) {
        1
    } else if precedence(a) < precedence(b) {
        -1
    } else {
        0
    }
}

/// The operator that a word stands for, if it stands for one.
pub open spec fn operator_of(word: Seq<char>) -> Option<Operator> {
    if word == seq!['A', 'N', 'D'] {
        Some(Operator::AND)
    } else if word == seq!['O', 'R'] {
        Some(Operator::OR)
    } else {
        None
    }
}

/// The words of an expression: the pieces between its spaces. An empty
/// expression has no words.
pub open spec fn tokens_spec(infix: Seq<char>) -> Seq<Seq<char>> {
    if infix.len() == 0 {
        Seq::<Seq<char>>::empty()
    } else {
        split_spec(infix, ' ')
    }
}

/// The output and the operator stack of the conversion.
pub struct Yard {
    pub out: Seq<Token>,
    pub ops: Seq<Operator>,
}

/// Moves operators from the stack to the output for as long as the one on
/// top binds at least as tightly as `op`.
pub open spec fn unwind(y: Yard, op: Operator) -> Yard
    decreases y.ops.len(),
{
    if y.ops.len() > 0 && compare_spec(op, y.ops.last()) <= 0 {
        unwind(Yard { out: y.out.push(Token::Operator(y.ops.last())), ops: y.ops.drop_last() }, op)
    } else {
        y
    }
}

/// Takes one word in: a tag name goes to the output; an operator first
/// unwinds the stack and then goes on top of it.
pub open spec fn shunt(y: Yard, word: Seq<char>) -> Yard {
    match operator_of(word) {
        Some(op) => {
            let u = unwind(y, op);
            Yard { out: u.out, ops: u.ops.push(op) }
        },
        None => Yard { out: y.out.push(Token::Operand(word)), ops: y.ops },
    }
}

/// The output and the stack after all the words were taken in.
pub open spec fn shunt_all(words: Seq<Seq<char>>) -> Yard
    decreases words.len(),
{
    if words.len() == 0 {
        Yard { out: Seq::<Token>::empty(), ops: Seq::<Operator>::empty() }
    } else {
        shunt(shunt_all(words.drop_last()), words.last())
    }
}

/// The output with what is left on the stack moved to it, from the top down.
pub open spec fn flush(y: Yard) -> Seq<Token>
    decreases y.ops.len(),
{
    if y.ops.len() == 0 {
        y.out
    } else {
        flush(Yard { out: y.out.push(Token::Operator(y.ops.last())), ops: y.ops.drop_last() })
    }
}

/// The postfix form of a list of words.
pub open spec fn postfix_spec(words: Seq<Seq<char>>) -> Seq<Token> {
    flush(shunt_all(words))
}

impl Operator {
    /// Compares how tightly two operators bind.
    pub fn compare(&self, other: &Operator) -> (r: i8)
        ensures
            r == compare_spec(*self, *other),
    {
        match (self, other) {
            (Operator::AND, Operator::OR) => 1,
            (Operator::OR, Operator::AND) => -1,
            _ => 0,
        }
    }
}

/// The operator that `op_str` names: `AND`, `OR`, or none.
pub fn str_to_operator(op_str: &str) -> (r: Option<Operator>)
    ensures
        r == operator_of(op_str@),
{
    let c = chars_of(op_str);
    if c.len() == 3 && c[0] == 'A' && c[1] == 'N' && c[2] == 'D' {
        proof {
            assert(op_str@ =~= seq!['A', 'N', 'D']);
        }
        Some(Operator::AND)
    } else if c.len() == 2 && c[0] == 'O' && c[1] == 'R' {
        proof {
            assert(op_str@ =~= seq!['O', 'R']);
        }
        Some(Operator::OR)
    } else {
        proof {
            if op_str@ == seq!['A', 'N', 'D'] {
                assert(c@[0] == 'A' && c@[1] == 'N' && c@[2] == 'D');
            }
            if op_str@ == seq!['O', 'R'] {
                assert(c@[0] == 'O' && c@[1] == 'R');
            }
        }
        None
    }
}

/// Converts a space-separated infix expression to postfix, by the
/// shunting-yard method. `AND` binds tighter than `OR`, and both group to the
/// left. Every word that is not an operator is taken for a tag name; nothing
/// is rejected.
pub fn infix_to_postfix(infix: String) -> (postfix: Vec<Arg>)
    ensures
        arg_views(postfix@) == postfix_spec(tokens_spec(infix@)),
{
    let mut postfix: Vec<Arg> = Vec::new();
    let mut stack: Vec<Operator> = Vec::new();
    if infix.as_str().is_empty() {
        proof {
            assert(arg_views(postfix@) =~= Seq::<Token>::empty());
        }
        return postfix;
    }
    let words = split(infix.as_str(), ' ');
    let ghost all = views(words@);
    let mut i: usize = 0;
    proof {
        assert(arg_views(postfix@) =~= Seq::<Token>::empty());
    }
    while i < words.len()
        invariant
            i <= words@.len(),
            all == views(words@),
            arg_views(postfix@) == shunt_all(all.take(i as int)).out,
            stack@ == shunt_all(all.take(i as int)).ops,
        decreases words@.len() - i,
    {
        let ghost before = shunt_all(all.take(i as int));
        proof {
            assert(all.take(i + 1).drop_last() =~= all.take(i as int));
            assert(all.take(i + 1).last() == words@[i as int]@);
        }
        match str_to_operator(words[i].as_str()) {
            Some(op) => {
                while stack.len() > 0 && op.compare(&stack[stack.len() - 1]) <= 0
                    invariant
                        unwind(Yard { out: arg_views(postfix@), ops: stack@ }, op) == unwind(
                            before,
                            op,
                        ),
                    decreases stack@.len(),
                {
                    let ghost y = Yard { out: arg_views(postfix@), ops: stack@ };
                    let top = stack.pop().unwrap();
                    postfix.push(Arg::Operator(top));
                    proof {
                        assert(arg_views(postfix@) =~= y.out.push(Token::Operator(top)));
                        assert(stack@ =~= y.ops.drop_last());
                    }
                }
                stack.push(op);
            },
            None => {
                let ghost out = arg_views(postfix@);
                postfix.push(Arg::Operand(words[i].clone()));
                proof {
                    assert(arg_views(postfix@) =~= out.push(Token::Operand(words@[i as int]@)));
                }
            },
        }
        i += 1;
    }
    proof {
        assert(all.take(i as int) =~= all);
    }
    while stack.len() > 0
        invariant
            flush(Yard { out: arg_views(postfix@), ops: stack@ }) == postfix_spec(all),
        decreases stack@.len(),
    {
        let ghost y = Yard { out: arg_views(postfix@), ops: stack@ };
        let top = stack.pop().unwrap();
        postfix.push(Arg::Operator(top));
        proof {
            assert(arg_views(postfix@) =~= y.out.push(Token::Operator(top)));
            assert(stack@ =~= y.ops.drop_last());
        }
    }
    postfix
}

} // verus!
