use vstd::prelude::*;
use crate::convert::{drain, pop_binding, postfix, scan, step, unwind_group, Tokens};
use crate::token::{
    is_close_paren, level, is_grouping, is_open_paren, is_operand_token, is_operator_token,
};

verus! {

broadcast use vstd::seq_lib::group_seq_properties;

/// The tokens of `s` that are not `(` or `)`, in order.
pub open spec fn plain(s: Tokens) -> Tokens
    decreases s.len(),
{
    if s.len() == 0 {
        s
    } else if is_grouping(s.last()) {
        plain(s.drop_last())
    } else {
        plain(s.drop_last()).push(s.last())
    }
}

/// How many `(` tokens `s` holds.
pub open spec fn open_count(s: Tokens) -> nat
    decreases s.len(),
{
    if s.len() == 0 {
        0
    } else if is_open_paren(s.last()) {
        open_count(s.drop_last()) + 1
    } else {
        open_count(s.drop_last())
    }
}

/// How many `(` of `tokens` are left without a later `)` to close them.
/// A `)` with nothing to close closes nothing.
pub open spec fn unclosed(tokens: Tokens) -> nat
    decreases tokens.len(),
{
    if tokens.len() == 0 {
        0
    } else {
        let d = unclosed(tokens.drop_last());
        if is_open_paren(tokens.last()) {
            d + 1
        } else if is_close_paren(tokens.last()) {
            if d > 0 {
                (d - 1) as nat
            } else {
                0
            }
        } else {
            d
        }
    }
}

pub open spec fn no_grouping(s: Tokens) -> bool {
    forall|i: int| 0 <= i < s.len() ==> !is_grouping(#[trigger] s[i])
}

pub open spec fn no_close(s: Tokens) -> bool {
    forall|i: int| 0 <= i < s.len() ==> !is_close_paren(#[trigger] s[i])
}

/// What the conversion keeps at every point: the output and the plain part of
/// the stack hold together the plain tokens read so far, the output holds no
/// grouping token, the stack holds no `)`, and its `(` are the unclosed ones.
pub open spec fn kept(tokens: Tokens, st: (Tokens, Tokens)) -> bool {
    &&& st.0.to_multiset().add(plain(st.1).to_multiset()) == plain(tokens).to_multiset()
    &&& no_grouping(st.0)
    &&& no_close(st.1)
    &&& open_count(st.1) == unclosed(tokens)
}

/// `(` and `)` do not read as integers.
pub proof fn lemma_operand_not_grouping(t: Seq<char>)
    ensures
        is_operand_token(t) ==> !is_grouping(t),
{
    if is_grouping(t) && is_operand_token(t) {
        assert(t.len() == 1 && (t[0] == '(' || t[0] == ')'));
        assert(!crate::token::has_sign(t));
        assert(crate::token::unsigned_part(t) == t);
        assert(crate::token::is_digit(t[0]));
    }
}

/// Moving the top of the stack, a plain token, to the output.
proof fn lemma_move_plain(o: Tokens, s: Tokens)
    requires
        s.len() > 0,
        !is_grouping(s.last()),
    ensures
        o.push(s.last()).to_multiset().add(plain(s.drop_last()).to_multiset())
            == o.to_multiset().add(plain(s).to_multiset()),
        open_count(s.drop_last()) == open_count(s),
        no_grouping(o) ==> no_grouping(o.push(s.last())),
        no_close(s) ==> no_close(s.drop_last()),
{
    let x = s.last();
    assert(plain(s) == plain(s.drop_last()).push(x));
    assert(o.push(x).to_multiset() =~= o.to_multiset().insert(x));
    assert(plain(s).to_multiset() =~= plain(s.drop_last()).to_multiset().insert(x));
    assert(o.push(x).to_multiset().add(plain(s.drop_last()).to_multiset())
        =~= o.to_multiset().add(plain(s).to_multiset()));
    if no_grouping(o) {
        assert forall|i: int| 0 <= i < o.push(x).len() implies !is_grouping(
            #[trigger] o.push(x)[i],
        ) by {
            if i < o.len() {
                assert(o.push(x)[i] == o[i]);
            }
        }
    }
    if no_close(s) {
        assert forall|i: int| 0 <= i < s.drop_last().len() implies !is_close_paren(
            #[trigger] s.drop_last()[i],
        ) by {
            assert(s.drop_last()[i] == s[i]);
        }
    }
}

proof fn lemma_pop_binding(o: Tokens, s: Tokens, op: Seq<char>)
    ensures
        pop_binding(o, s, op).0.to_multiset().add(plain(pop_binding(o, s, op).1).to_multiset())
            == o.to_multiset().add(plain(s).to_multiset()),
        open_count(pop_binding(o, s, op).1) == open_count(s),
        no_grouping(o) ==> no_grouping(pop_binding(o, s, op).0),
        no_close(s) ==> no_close(pop_binding(o, s, op).1),
    decreases s.len(),
{
    if s.len() > 0 && !is_grouping(s.last()) && level(s.last())
        >= level(op) {
        lemma_move_plain(o, s);
        lemma_pop_binding(o.push(s.last()), s.drop_last(), op);
    }
}

proof fn lemma_unwind_group(o: Tokens, s: Tokens)
    requires
        no_close(s),
    ensures
        unwind_group(o, s).0.to_multiset().add(plain(unwind_group(o, s).1).to_multiset())
            == o.to_multiset().add(plain(s).to_multiset()),
        open_count(unwind_group(o, s).1) == if open_count(s) > 0 {
            (open_count(s) - 1) as nat
        } else {
            0
        },
        no_grouping(o) ==> no_grouping(unwind_group(o, s).0),
        no_close(unwind_group(o, s).1),
    decreases s.len(),
{
    if s.len() == 0 {
    } else if is_open_paren(s.last()) {
        let x = s.last();
        assert(plain(s) == plain(s.drop_last()));
        assert forall|i: int| 0 <= i < s.drop_last().len() implies !is_close_paren(
            #[trigger] s.drop_last()[i],
        ) by {
            assert(s.drop_last()[i] == s[i]);
        }
    } else {
        assert(!is_close_paren(s[s.len() - 1]));
        lemma_move_plain(o, s);
        lemma_unwind_group(o.push(s.last()), s.drop_last());
    }
}

proof fn lemma_step(tokens: Tokens, t: Seq<char>)
    requires
        kept(tokens, scan(tokens)),
    ensures
        kept(tokens.push(t), step(scan(tokens), t)),
{
    let (o, s) = scan(tokens);
    let all = tokens.push(t);
    assert(all.drop_last() =~= tokens);
    assert(unclosed(all) == if is_open_paren(t) {
        unclosed(tokens) + 1
    } else if is_close_paren(t) {
        if unclosed(tokens) > 0 {
            (unclosed(tokens) - 1) as nat
        } else {
            0
        }
    } else {
        unclosed(tokens)
    });
    lemma_operand_not_grouping(t);
    if is_operand_token(t) || is_operator_token(t) {
        assert(plain(all) == plain(tokens).push(t));
        assert(plain(all).to_multiset() =~= plain(tokens).to_multiset().insert(t));
    } else {
        assert(plain(all) == plain(tokens));
    }
    if is_operand_token(t) {
        lemma_move_plain(o, seq![t]);
        assert(seq![t].drop_last() =~= Seq::<Seq<char>>::empty());
        assert(o.push(t).to_multiset().add(plain(s).to_multiset()) =~= o.to_multiset().add(
            plain(s).to_multiset(),
        ).insert(t));
    } else if is_operator_token(t) {
        lemma_pop_binding(o, s, t);
        let (o2, s2) = pop_binding(o, s, t);
        let s3 = s2.push(t);
        assert(s3.drop_last() =~= s2);
        assert(plain(s3) == plain(s2).push(t));
        assert(plain(s3).to_multiset() =~= plain(s2).to_multiset().insert(t));
        assert(open_count(s3) == open_count(s2));
        assert(o2.to_multiset().add(plain(s3).to_multiset()) =~= o2.to_multiset().add(
            plain(s2).to_multiset(),
        ).insert(t));
        assert forall|i: int| 0 <= i < s3.len() implies !is_close_paren(#[trigger] s3[i]) by {
            if i < s2.len() {
                assert(s3[i] == s2[i]);
            }
        }
    } else if is_open_paren(t) {
        let s3 = s.push(t);
        assert(s3.drop_last() =~= s);
        assert(plain(s3) == plain(s));
        assert(open_count(s3) == open_count(s) + 1);
        assert forall|i: int| 0 <= i < s3.len() implies !is_close_paren(#[trigger] s3[i]) by {
            if i < s.len() {
                assert(s3[i] == s[i]);
            }
        }
    } else {
        lemma_unwind_group(o, s);
    }
}

proof fn lemma_scan_kept(tokens: Tokens)
    ensures
        kept(tokens, scan(tokens)),
    decreases tokens.len(),
{
    if tokens.len() == 0 {
        assert(plain(tokens) =~= Seq::<Seq<char>>::empty());
        assert(Seq::<Seq<char>>::empty().to_multiset().add(
            Seq::<Seq<char>>::empty().to_multiset(),
        ) =~= Seq::<Seq<char>>::empty().to_multiset());
    } else {
        lemma_scan_kept(tokens.drop_last());
        lemma_step(tokens.drop_last(), tokens.last());
        assert(tokens.drop_last().push(tokens.last()) =~= tokens);
    }
}

/// A stack with no `(` and no `)` is all plain.
proof fn lemma_stack_plain(s: Tokens)
    requires
        no_close(s),
        open_count(s) == 0,
    ensures
        no_grouping(s),
        plain(s) == s,
    decreases s.len(),
{
    if s.len() > 0 {
        let d = s.drop_last();
        assert(!is_close_paren(s[s.len() - 1]));
        if is_open_paren(s.last()) {
            assert(open_count(s) == open_count(d) + 1);
        }
        assert(no_close(d)) by {
            assert forall|i: int| 0 <= i < d.len() implies !is_close_paren(#[trigger] d[i]) by {
                assert(d[i] == s[i]);
            }
        }
        lemma_stack_plain(d);
        assert(s =~= d.push(s.last()));
        assert forall|i: int| 0 <= i < s.len() implies !is_grouping(#[trigger] s[i]) by {
            if i < d.len() {
                assert(s[i] == d[i]);
            }
        }
    }
}

proof fn lemma_drain(o: Tokens, s: Tokens)
    ensures
        drain(o, s).to_multiset() == o.to_multiset().add(s.to_multiset()),
        no_grouping(o) && no_grouping(s) ==> no_grouping(drain(o, s)),
    decreases s.len(),
{
    if s.len() == 0 {
        assert(o.to_multiset().add(s.to_multiset()) =~= o.to_multiset());
    } else {
        let x = s.last();
        let d = s.drop_last();
        lemma_drain(o.push(x), d);
        assert(s =~= d.push(x));
        assert(o.push(x).to_multiset().add(d.to_multiset()) =~= o.to_multiset().add(
            s.to_multiset(),
        ));
        if no_grouping(o) && no_grouping(s) {
            assert(!is_grouping(s[s.len() - 1]));
            assert forall|i: int| 0 <= i < o.push(x).len() implies !is_grouping(
                #[trigger] o.push(x)[i],
            ) by {
                if i < o.len() {
                    assert(o.push(x)[i] == o[i]);
                }
            }
            assert forall|i: int| 0 <= i < d.len() implies !is_grouping(#[trigger] d[i]) by {
                assert(d[i] == s[i]);
            }
        }
    }
}

/// Where every `(` of the input is closed by a later `)`, the postfix form
/// holds the input's tokens other than `(` and `)`, each as often as the
/// input does, and no `(` or `)`.
pub proof fn lemma_postfix_keeps_plain_tokens(tokens: Tokens)
    requires
        unclosed(tokens) == 0,
    ensures
        postfix(tokens).to_multiset() == plain(tokens).to_multiset(),
        no_grouping(postfix(tokens)),
{
    lemma_scan_kept(tokens);
    let (o, s) = scan(tokens);
    lemma_stack_plain(s);
    lemma_drain(o, s);
}

/// Converting depends on the input alone: equal inputs give equal results.
pub proof fn lemma_postfix_deterministic(a: Tokens, b: Tokens)
    requires
        a == b,
    ensures
        postfix(a) == postfix(b),
{
}

/// Of two operators of equal level in a row, the left one reaches the output
/// first: `a p b q c` becomes `a b p c q`.
pub proof fn lemma_equal_levels_left_first(
    a: Seq<char>,
    p: Seq<char>,
    b: Seq<char>,
    q: Seq<char>,
    c: Seq<char>,
)
    requires
        is_operand_token(a),
        is_operand_token(b),
        is_operand_token(c),
        is_operator_token(p),
        is_operator_token(q),
        level(p) == level(q),
    ensures
        postfix(seq![a, p, b, q, c]) == seq![a, b, p, c, q],
{
    let e = Seq::<Seq<char>>::empty();
    let t = seq![a, p, b, q, c];
    lemma_operand_not_grouping(a);
    lemma_operand_not_grouping(b);
    lemma_operand_not_grouping(c);
    assert(t.drop_last() =~= seq![a, p, b, q]);
    assert(seq![a, p, b, q].drop_last() =~= seq![a, p, b]);
    assert(seq![a, p, b].drop_last() =~= seq![a, p]);
    assert(seq![a, p].drop_last() =~= seq![a]);
    assert(seq![a].drop_last() =~= e);
    assert(scan(e) == (e, e));
    assert(seq![a] == e.push(a));
    assert(scan(seq![a]) == (e.push(a), e));
    assert(pop_binding(e.push(a), e, p) == (e.push(a), e));
    assert(scan(seq![a, p]) == (e.push(a), e.push(p)));
    assert(scan(seq![a, p, b]) == (e.push(a).push(b), e.push(p)));
    assert(e.push(p).drop_last() =~= e);
    assert(pop_binding(e.push(a).push(b).push(p), e, q) == (e.push(a).push(b).push(p), e));
    assert(pop_binding(e.push(a).push(b), e.push(p), q) == (e.push(a).push(b).push(p), e));
    assert(scan(seq![a, p, b, q]) == (e.push(a).push(b).push(p), e.push(q)));
    assert(scan(t) == (e.push(a).push(b).push(p).push(c), e.push(q)));
    assert(e.push(q).drop_last() =~= e);
    assert(drain(e.push(a).push(b).push(p).push(c).push(q), e) == e.push(a).push(b).push(
        p,
    ).push(c).push(q));
    assert(drain(e.push(a).push(b).push(p).push(c), e.push(q)) == e.push(a).push(b).push(
        p,
    ).push(c).push(q));
    assert(postfix(t) == e.push(a).push(b).push(p).push(c).push(q));
    assert(e.push(a).push(b).push(p).push(c).push(q) =~= seq![a, b, p, c, q]);
}

/// An operator of a higher level binds tighter: where `q` binds tighter
/// than `p`, `a p b q c` becomes `a b c q p`.
pub proof fn lemma_higher_level_binds_tighter(
    a: Seq<char>,
    p: Seq<char>,
    b: Seq<char>,
    q: Seq<char>,
    c: Seq<char>,
)
    requires
        is_operand_token(a),
        is_operand_token(b),
        is_operand_token(c),
        is_operator_token(p),
        is_operator_token(q),
        level(p) < level(q),
    ensures
        postfix(seq![a, p, b, q, c]) == seq![a, b, c, q, p],
{
    let e = Seq::<Seq<char>>::empty();
    let t = seq![a, p, b, q, c];
    lemma_operand_not_grouping(a);
    lemma_operand_not_grouping(b);
    lemma_operand_not_grouping(c);
    assert(t.drop_last() =~= seq![a, p, b, q]);
    assert(seq![a, p, b, q].drop_last() =~= seq![a, p, b]);
    assert(seq![a, p, b].drop_last() =~= seq![a, p]);
    assert(seq![a, p].drop_last() =~= seq![a]);
    assert(seq![a].drop_last() =~= e);
    assert(scan(e) == (e, e));
    assert(seq![a] == e.push(a));
    assert(scan(seq![a]) == (e.push(a), e));
    assert(pop_binding(e.push(a), e, p) == (e.push(a), e));
    assert(scan(seq![a, p]) == (e.push(a), e.push(p)));
    assert(scan(seq![a, p, b]) == (e.push(a).push(b), e.push(p)));
    assert(pop_binding(e.push(a).push(b), e.push(p), q) == (e.push(a).push(b), e.push(p)));
    assert(scan(seq![a, p, b, q]) == (e.push(a).push(b), e.push(p).push(q)));
    let o = e.push(a).push(b).push(c);
    assert(scan(t) == (o, e.push(p).push(q)));
    assert(e.push(p).push(q).drop_last() =~= e.push(p));
    assert(e.push(p).drop_last() =~= e);
    assert(drain(o.push(q).push(p), e) == o.push(q).push(p));
    assert(drain(o.push(q), e.push(p)) == o.push(q).push(p));
    assert(postfix(t) == o.push(q).push(p));
    assert(o.push(q).push(p) =~= seq![a, b, c, q, p]);
}

/// Parentheses override levels: whatever the levels of `p` and `q`,
/// `( a p b ) q c` becomes `a b p c q`.
pub proof fn lemma_group_overrides_levels(
    a: Seq<char>,
    p: Seq<char>,
    b: Seq<char>,
    q: Seq<char>,
    c: Seq<char>,
)
    requires
        is_operand_token(a),
        is_operand_token(b),
        is_operand_token(c),
        is_operator_token(p),
        is_operator_token(q),
    ensures
        postfix(seq![seq!['('], a, p, b, seq![')'], q, c]) == seq![a, b, p, c, q],
{
    let e = Seq::<Seq<char>>::empty();
    let l = seq!['('];
    let r = seq![')'];
    let t = seq![l, a, p, b, r, q, c];
    lemma_operand_not_grouping(a);
    lemma_operand_not_grouping(b);
    lemma_operand_not_grouping(c);
    lemma_operand_not_grouping(l);
    lemma_operand_not_grouping(r);
    assert(l != r);
    assert(t.drop_last() =~= seq![l, a, p, b, r, q]);
    assert(seq![l, a, p, b, r, q].drop_last() =~= seq![l, a, p, b, r]);
    assert(seq![l, a, p, b, r].drop_last() =~= seq![l, a, p, b]);
    assert(seq![l, a, p, b].drop_last() =~= seq![l, a, p]);
    assert(seq![l, a, p].drop_last() =~= seq![l, a]);
    assert(seq![l, a].drop_last() =~= seq![l]);
    assert(seq![l].drop_last() =~= e);
    assert(scan(e) == (e, e));
    assert(seq![l] == e.push(l));
    assert(scan(seq![l]) == (e, e.push(l)));
    assert(scan(seq![l, a]) == (e.push(a), e.push(l)));
    assert(pop_binding(e.push(a), e.push(l), p) == (e.push(a), e.push(l)));
    assert(scan(seq![l, a, p]) == (e.push(a), e.push(l).push(p)));
    let o = e.push(a).push(b);
    assert(scan(seq![l, a, p, b]) == (o, e.push(l).push(p)));
    assert(e.push(l).push(p).drop_last() =~= e.push(l));
    assert(e.push(l).drop_last() =~= e);
    assert(unwind_group(o.push(p), e.push(l)) == (o.push(p), e));
    assert(unwind_group(o, e.push(l).push(p)) == (o.push(p), e));
    assert(scan(seq![l, a, p, b, r]) == (o.push(p), e));
    assert(pop_binding(o.push(p), e, q) == (o.push(p), e));
    assert(scan(seq![l, a, p, b, r, q]) == (o.push(p), e.push(q)));
    assert(scan(t) == (o.push(p).push(c), e.push(q)));
    assert(e.push(q).drop_last() =~= e);
    assert(drain(o.push(p).push(c).push(q), e) == o.push(p).push(c).push(q));
    assert(drain(o.push(p).push(c), e.push(q)) == o.push(p).push(c).push(q));
    assert(postfix(t) == o.push(p).push(c).push(q));
    assert(o.push(p).push(c).push(q) =~= seq![a, b, p, c, q]);
}

} // verus!
