use vstd::prelude::*;
use crate::token::{
    is_close, is_grouping, is_open, is_open_paren, is_operand, is_operand_token, is_operator,
    is_operator_token, left_operator_has_greater_precedence, level,
};

verus! {

/// Tokens as character sequences.
pub type Tokens = Seq<Seq<char>>;

/// The working state of a conversion: the output queue so far, and the
/// operator stack with its top last.
pub type State = (Tokens, Tokens);

/// Moves operators from the top of the stack to the output while the top is
/// an operator (not a grouping token) whose level is at least that of `op`.
pub open spec fn pop_binding(out: Tokens, stack: Tokens, op: Seq<char>) -> State
    decreases stack.len(),
{
    if stack.len() > 0 && !is_grouping(stack.last()) && level(stack.last()) >= level(op) {
        pop_binding(out.push(stack.last()), stack.drop_last(), op)
    } else {
        (out, stack)
    }
}

/// Moves operators from the top of the stack to the output until the top is
/// `(`, which is then dropped. Without a `(` on the stack, the whole stack
/// goes to the output.
pub open spec fn unwind_group(out: Tokens, stack: Tokens) -> State
    decreases stack.len(),
{
    if stack.len() == 0 {
        (out, stack)
    } else if is_open_paren(stack.last()) {
        (out, stack.drop_last())
    } else {
        unwind_group(out.push(stack.last()), stack.drop_last())
    }
}

/// The effect of one input token on the state.
pub open spec fn step(st: State, t: Seq<char>) -> State {
    let (out, stack) = st;
    if is_operand_token(t) {
        (out.push(t), stack)
    } else if is_operator_token(t) {
        let (o, s) = pop_binding(out, stack, t);
        (o, s.push(t))
    } else if is_open_paren(t) {
        (out, stack.push(t))
    } else {
        unwind_group(out, stack)
    }
}

/// The state after reading `tokens` from left to right, from an empty output
/// and an empty stack.
pub open spec fn scan(tokens: Tokens) -> State
    decreases tokens.len(),
{
    if tokens.len() == 0 {
        (Seq::empty(), Seq::empty())
    } else {
        step(scan(tokens.drop_last()), tokens.last())
    }
}

/// Appends the stack to the output in pop order, top first.
pub open spec fn drain(out: Tokens, stack: Tokens) -> Tokens
    decreases stack.len(),
{
    if stack.len() == 0 {
        out
    } else {
        drain(out.push(stack.last()), stack.drop_last())
    }
}

/// The postfix form of an infix token sequence.
pub open spec fn postfix(tokens: Tokens) -> Tokens {
    let (out, stack) = scan(tokens);
    drain(out, stack)
}

/// The top of the stack is an operator that binds at least as tightly as `op`.
fn top_binds(stack: &Vec<String>, op: &String) -> (r: bool)
    ensures
        r == (stack@.len() > 0 && !is_grouping(stack.deep_view().last())
            && level(stack.deep_view().last()) >= level(op@)),
{
    if stack.len() == 0 {
        return false;
    }
    let top = &stack[stack.len() - 1];
    !is_open(top) && !is_close(top) && left_operator_has_greater_precedence(top, op)
}

/// Pops the top of `stack` onto `out`.
fn move_top(out: &mut Vec<String>, stack: &mut Vec<String>)
    requires
        old(stack)@.len() > 0,
    ensures
        final(out).deep_view() == old(out).deep_view().push(old(stack).deep_view().last()),
        final(stack).deep_view() == old(stack).deep_view().drop_last(),
        final(stack)@.len() == old(stack)@.len() - 1,
{
    let top = stack.pop().unwrap();
    out.push(top);
    assert(final(out).deep_view() =~= old(out).deep_view().push(old(stack).deep_view().last()));
    assert(final(stack).deep_view() =~= old(stack).deep_view().drop_last());
}

/// Converts a sequence of infix tokens into postfix order.
///
/// An empty input is the one error. Every other input is converted: an
/// operand goes to the output; an operator first moves to the output the
/// stacked operators of at least its level, down to the nearest `(`, and is
/// then stacked; `(` is stacked; `)` moves stacked operators to the output
/// down to the nearest `(` and drops it; at the end the stack is emptied onto
/// the output, top first. A `)` with no `(` below it empties the stack onto
/// the output and is otherwise ignored.
pub fn shunting_yard(token_list: Vec<String>) -> (r: Result<Vec<String>, String>)
    ensures
        r is Err <==> token_list@.len() == 0,
        r matches Ok(out) ==> out.deep_view() == postfix(token_list.deep_view()),
        r matches Err(e) ==> e@ == "Empty token list"@,
{
    if token_list.len() == 0 {
        return Err("Empty token list".to_owned());
    }
    let ghost tokens = token_list.deep_view();
    let mut out: Vec<String> = Vec::new();
    let mut stack: Vec<String> = Vec::new();
    let mut i: usize = 0;
    proof {
        assert(out.deep_view() =~= Seq::<Seq<char>>::empty());
        assert(stack.deep_view() =~= Seq::<Seq<char>>::empty());
        assert(tokens.take(0) =~= Seq::<Seq<char>>::empty());
    }
    while i < token_list.len()
        invariant
            i <= token_list@.len(),
            tokens == token_list.deep_view(),
            (out.deep_view(), stack.deep_view()) == scan(tokens.take(i as int)),
        decreases token_list@.len() - i,
    {
        let token = token_list[i].clone();
        let ghost before = (out.deep_view(), stack.deep_view());
        assert(token@ == tokens[i as int]);
        if is_operand(&token) {
            out.push(token);
            assert(out.deep_view() =~= before.0.push(tokens[i as int]));
        } else if is_operator(&token) {
            while top_binds(&stack, &token)
                invariant
                    pop_binding(out.deep_view(), stack.deep_view(), token@) == pop_binding(
                        before.0,
                        before.1,
                        token@,
                    ),
                decreases stack@.len(),
            {
                move_top(&mut out, &mut stack);
            }
            let ghost s = stack.deep_view();
            stack.push(token);
            assert(stack.deep_view() =~= s.push(tokens[i as int]));
        } else if is_open(&token) {
            stack.push(token);
            assert(stack.deep_view() =~= before.1.push(tokens[i as int]));
        } else {
            while stack.len() > 0 && !is_open(&stack[stack.len() - 1])
                invariant
                    unwind_group(out.deep_view(), stack.deep_view()) == unwind_group(
                        before.0,
                        before.1,
                    ),
                decreases stack@.len(),
            {
                move_top(&mut out, &mut stack);
            }
            if stack.len() > 0 {
                let ghost s = stack.deep_view();
                let _ = stack.pop();
                assert(stack.deep_view() =~= s.drop_last());
            }
        }
        assert(tokens.take(i + 1).drop_last() =~= tokens.take(i as int));
        i += 1;
    }
    assert(tokens.take(i as int) =~= tokens);
    while stack.len() > 0
        invariant
            drain(out.deep_view(), stack.deep_view()) == postfix(tokens),
        decreases stack@.len(),
    {
        move_top(&mut out, &mut stack);
    }
    Ok(out)
}

} // verus!
