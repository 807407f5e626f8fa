//! Sequencer: converts the flat token list from infix to postfix order by
//! the shunting-yard algorithm. Each token class carries an incoming
//! priority (as it is about to be shifted) and a stack priority (while it
//! sits on the operator stack); the stack is popped while its top's stack
//! priority is at least the incoming token's incoming priority. The
//! asymmetric priorities of `^` keep exponentiation right-associative.

use vstd::prelude::*;
use crate::func::Func;
use crate::node::Node;

verus! {

/// Incoming priority: constants and the variable 11, unary functions 8,
/// `^` 5, `*` `/` 3, `+` `-` 2, open bracket 9, close bracket 1.
pub open spec fn spec_in_prio(f: Func) -> int {
    match f {
        Func::Add | Func::Sub => 2,
        Func::Mul | Func::Div => 3,
        Func::Pow => 5,
        Func::Ob => 9,
        Func::Cb => 1,
        Func::Const | Func::X => 11,
        _ => 8,
    }
}

/// Stack priority: `^` 4 (below its incoming 5), brackets 0, unary
/// functions 7, the arithmetic operators as they came in.
pub open spec fn spec_st_prio(f: Func) -> int {
    match f {
        Func::Add | Func::Sub => 2,
        Func::Mul | Func::Div => 3,
        Func::Pow => 4,
        Func::Ob => 0,
        Func::Cb => 0,
        _ => 7,
    }
}

pub fn in_op_priority(op: &Node) -> (r: u8)
    ensures
        r as int == spec_in_prio(op.op),
{
    match op.op {
        Func::Add | Func::Sub => 2,
        Func::Mul | Func::Div => 3,
        Func::Pow => 5,
        Func::Ob => 9,
        Func::Cb => 1,
        Func::Const | Func::X => 11,
        _ => 8,
    }
}

pub fn st_op_priority(op: &Node) -> (r: u8)
    ensures
        r as int == spec_st_prio(op.op),
{
    match op.op {
        Func::Add | Func::Sub => 2,
        Func::Mul | Func::Div => 3,
        Func::Pow => 4,
        Func::Ob => 0,
        Func::Cb => 0,
        _ => 7,
    }
}

/// Pop the stack to the output while the top's stack priority is at least
/// `p`; returns the remaining stack and the extended output.
pub open spec fn pop_ge(stack: Seq<Node>, p: int, out: Seq<Node>) -> (Seq<Node>, Seq<Node>)
    decreases stack.len(),
{
    if stack.len() == 0 {
        (stack, out)
    } else {
        let top = stack.last();
        if spec_st_prio(top.op) >= p {
            pop_ge(stack.drop_last(), p, out.push(top))
        } else {
            (stack, out)
        }
    }
}

/// One shunting-yard step: atoms go to the output; any other token first
/// pops by priority, then a close bracket discards the matching open
/// bracket while every other token is pushed.
pub open spec fn shunt_step(stack: Seq<Node>, out: Seq<Node>, t: Node) -> (Seq<Node>, Seq<Node>) {
    if spec_in_prio(t.op) == 11 {
        (stack, out.push(t))
    } else {
        let popped = pop_ge(stack, spec_in_prio(t.op), out);
        if t.op == Func::Cb {
            (
                if popped.0.len() > 0 {
                    popped.0.drop_last()
                } else {
                    popped.0
                },
                popped.1,
            )
        } else {
            (popped.0.push(t), popped.1)
        }
    }
}

/// Run the shunting yard over the tokens from index `i`.
pub open spec fn shunt_run(toks: Seq<Node>, i: int, stack: Seq<Node>, out: Seq<Node>) -> (
    Seq<Node>,
    Seq<Node>,
)
    decreases toks.len() - i,
{
    if i < 0 || i >= toks.len() {
        (stack, out)
    } else {
        let step = shunt_step(stack, out, toks[i]);
        shunt_run(toks, i + 1, step.0, step.1)
    }
}

/// The postfix order of a token list: the shunting-yard output followed by
/// the remaining operator stack drained in pop order.
pub open spec fn postfix_spec(toks: Seq<Node>) -> Seq<Node> {
    let run = shunt_run(toks, 0, Seq::empty(), Seq::empty());
    run.1 + run.0.reverse()
}

/// Infix to postfix conversion; the result is exactly `postfix_spec` of
/// the input.
#[verifier::loop_isolation(false)]
pub fn vec_infix_to_postfix(infix: Vec<Node>) -> (r: Vec<Node>)
    ensures
        r@ == postfix_spec(infix@),
{
    let mut postfix: Vec<Node> = Vec::new();
    let mut stack: Vec<Node> = Vec::new();
    let mut i: usize = 0;
    while i < infix.len()
        invariant
            i <= infix.len(),
            shunt_run(infix@, 0, Seq::empty(), Seq::empty()) == shunt_run(
                infix@,
                i as int,
                stack@,
                postfix@,
            ),
        decreases infix.len() - i,
    {
        let t = infix[i].return_copy();
        let ghost pre_stack = stack@;
        let ghost pre_out = postfix@;
        if in_op_priority(&t) == 11 {
            postfix.push(t);
        } else {
            let p = in_op_priority(&t);
            while stack.len() > 0 && st_op_priority(&stack[stack.len() - 1]) >= p
                invariant
                    pop_ge(pre_stack, p as int, pre_out) == pop_ge(stack@, p as int, postfix@),
                decreases stack.len(),
            {
                let top = match stack.pop() {
                    Option::Some(n) => n,
                    Option::None => {
                        proof {
                            assert(false);
                        }
                        Node::new()
                    },
                };
                postfix.push(top);
            }
            proof {
                assert(pop_ge(stack@, p as int, postfix@) == (stack@, postfix@));
            }
            let is_cb = match t.op {
                Func::Cb => true,
                _ => false,
            };
            if is_cb {
                let _discarded = stack.pop();
            } else {
                stack.push(t);
            }
        }
        proof {
            assert(shunt_step(pre_stack, pre_out, infix@[i as int]) == (stack@, postfix@));
        }
        i += 1;
    }
    let ghost fin = shunt_run(infix@, 0, Seq::empty(), Seq::empty());
    while stack.len() > 0
        invariant
            fin.1 + fin.0.reverse() == postfix@ + stack@.reverse(),
        decreases stack.len(),
    {
        let ghost old_stack = stack@;
        let last_on_stack = match stack.pop() {
            Option::Some(n) => n,
            Option::None => {
                proof {
                    assert(false);
                }
                Node::new()
            },
        };
        postfix.push(last_on_stack);
        proof {
            assert(old_stack.reverse() =~= seq![old_stack.last()] + stack@.reverse());
        }
    }
    proof {
        assert(postfix@ + stack@.reverse() =~= postfix@);
    }
    postfix
}

} // verus!
